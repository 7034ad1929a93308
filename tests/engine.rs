use docbot::grammar::{
    build_grammar, field_info, ArgKind, ArgMode, ArgSpec, CommandDef, CommandSyntax, GrammarError, HelpTopic,
    GrammarSet, RestArg,
};
use docbot::parse::{ArgValue, Binding, CommandParseError, CommandValue, ConvertError};
use docbot::trie::{parse_resolve_ambiguous, IdParseError};

fn s(x: &str) -> String {
    x.to_string()
}

fn toks(xs: &[&str]) -> Vec<String> {
    xs.iter().map(|x| x.to_string()).collect()
}

fn arg(name: &str, mode: ArgMode, kind: ArgKind) -> ArgSpec {
    ArgSpec { name: s(name), mode, kind }
}

fn cmd(ids: &[&str], args: Vec<ArgSpec>) -> CommandDef {
    CommandDef { ids: toks(ids), args }
}

fn one_level(cmds: Vec<CommandDef>) -> GrammarSet {
    build_grammar(vec![cmds]).expect("grammar builds")
}

fn resolve(set: &GrammarSet, level: usize, x: &str) -> Result<usize, IdParseError> {
    set.level(level).resolve_id(x)
}

#[test]
fn abbreviation_resolves_unique_prefix() {
    let set = one_level(vec![cmd(&["list", "ls"], vec![]), cmd(&["add"], vec![])]);
    assert_eq!(resolve(&set, 0, "l"), Ok(0));
    assert_eq!(resolve(&set, 0, "li"), Ok(0));
    assert_eq!(resolve(&set, 0, "list"), Ok(0));
    assert_eq!(resolve(&set, 0, "ls"), Ok(0));
    assert_eq!(resolve(&set, 0, "a"), Ok(1));
}

#[test]
fn ambiguous_prefix_lists_candidates_in_order() {
    let set = one_level(vec![cmd(&["mark"], vec![]), cmd(&["match"], vec![])]);
    assert_eq!(
        resolve(&set, 0, "ma"),
        Err(IdParseError::Ambiguous(toks(&["mark", "match"]), s("ma")))
    );
    assert_eq!(resolve(&set, 0, "mar"), Ok(0));
}

#[test]
fn exact_alias_that_prefixes_another_command_is_ambiguous() {
    let set = one_level(vec![cmd(&["mark"], vec![]), cmd(&["marker"], vec![])]);
    assert_eq!(
        resolve(&set, 0, "mark"),
        Err(IdParseError::Ambiguous(toks(&["mark", "marker"]), s("mark")))
    );
    assert_eq!(resolve(&set, 0, "marke"), Ok(1));
}

#[test]
fn unknown_prefix_is_no_match() {
    let set = one_level(vec![cmd(&["list", "ls"], vec![]), cmd(&["add"], vec![])]);
    assert_eq!(resolve(&set, 0, "zzz"), Err(IdParseError::NoMatch(s("zzz"))));
    assert_eq!(resolve(&set, 0, "lz"), Err(IdParseError::NoMatch(s("lz"))));
    assert_eq!(resolve(&set, 0, "lists"), Err(IdParseError::NoMatch(s("lists"))));
}

#[test]
fn empty_input_resolves_only_in_a_single_command_level() {
    let single = one_level(vec![cmd(&["only", "o"], vec![])]);
    assert_eq!(resolve(&single, 0, ""), Ok(0));
    let two = one_level(vec![cmd(&["a"], vec![]), cmd(&["b"], vec![])]);
    assert_eq!(
        resolve(&two, 0, ""),
        Err(IdParseError::Ambiguous(toks(&["a", "b"]), s("")))
    );
    let none = one_level(vec![]);
    assert_eq!(resolve(&none, 0, ""), Err(IdParseError::NoMatch(s(""))));
}

#[test]
fn missing_required_rest_argument() {
    let set = one_level(vec![cmd(
        &["add"],
        vec![
            arg("user", ArgMode::Required, ArgKind::Text),
            arg("roles", ArgMode::RestRequired, ArgKind::Text),
        ],
    )]);
    assert_eq!(
        set.parse(0, &toks(&["add", "123"])),
        Err(CommandParseError::MissingRequired(s("roles")))
    );
    assert_eq!(
        set.parse(0, &toks(&["add"])),
        Err(CommandParseError::MissingRequired(s("user")))
    );
    assert_eq!(
        set.parse(0, &toks(&["add", "123", "x", "y"])),
        Ok(CommandValue {
            id: 0,
            args: vec![
                Binding::One(ArgValue::Text(s("123"))),
                Binding::Many(vec![ArgValue::Text(s("x")), ArgValue::Text(s("y"))]),
            ],
            sub: None,
        })
    );
}

#[test]
fn trailing_token_after_required_arguments() {
    let set = one_level(vec![cmd(
        &["show"],
        vec![
            arg("a", ArgMode::Required, ArgKind::Text),
            arg("b", ArgMode::Required, ArgKind::Text),
        ],
    )]);
    assert_eq!(
        set.parse(0, &toks(&["show", "a", "b", "c"])),
        Err(CommandParseError::Trailing(s("c")))
    );
    assert!(set.parse(0, &toks(&["show", "a", "b"])).is_ok());
}

#[test]
fn subcommand_failure_is_wrapped() {
    let set = build_grammar(vec![
        vec![cmd(
            &["role"],
            vec![arg("subcommand", ArgMode::RestRequired, ArgKind::Subcommand(1))],
        )],
        vec![cmd(&["list", "ls"], vec![]), cmd(&["add"], vec![])],
    ])
    .expect("grammar builds");
    assert_eq!(
        set.parse(0, &toks(&["role", "frob"])),
        Err(CommandParseError::Subcommand(Box::new(CommandParseError::BadId(
            IdParseError::NoMatch(s("frob"))
        ))))
    );
    assert_eq!(
        set.parse(0, &toks(&["role"])),
        Err(CommandParseError::MissingRequired(s("subcommand")))
    );
    assert_eq!(
        set.parse(0, &toks(&["r", "l"])),
        Ok(CommandValue {
            id: 0,
            args: vec![],
            sub: Some(Box::new(CommandValue { id: 0, args: vec![], sub: None })),
        })
    );
}

#[test]
fn optional_subcommand_without_tokens_reports_no_input() {
    let set = build_grammar(vec![
        vec![cmd(
            &["go"],
            vec![arg("then", ArgMode::RestOptional, ArgKind::Subcommand(1))],
        )],
        vec![cmd(&["stop"], vec![])],
    ])
    .expect("grammar builds");
    assert_eq!(
        set.parse(0, &toks(&["go"])),
        Err(CommandParseError::Subcommand(Box::new(CommandParseError::NoInput)))
    );
}

#[test]
fn building_twice_resolves_alike() {
    let defs = || {
        vec![vec![
            cmd(&["mark", "set"], vec![]),
            cmd(&["match"], vec![]),
            cmd(&["list", "ls"], vec![]),
        ]]
    };
    let a = build_grammar(defs()).expect("grammar builds");
    let b = build_grammar(defs()).expect("grammar builds");
    for x in ["", "m", "ma", "mar", "mat", "s", "set", "l", "ls", "q", "marks"] {
        assert_eq!(resolve(&a, 0, x), resolve(&b, 0, x), "input {:?}", x);
    }
}

#[test]
fn display_round_trips() {
    let set = one_level(vec![
        cmd(&["list", "ls"], vec![]),
        cmd(&["add"], vec![]),
        cmd(&["remove", "rm"], vec![]),
    ]);
    let g = set.level(0);
    for id in 0..g.len() {
        assert_eq!(g.resolve_id(&g.display(id)), Ok(id));
    }
    assert_eq!(g.display(2), s("remove"));
}

#[test]
fn no_tokens_is_no_input() {
    let set = one_level(vec![cmd(&["a"], vec![])]);
    assert_eq!(set.parse(0, &vec![]), Err(CommandParseError::NoInput));
}

#[test]
fn bad_first_token_is_bad_id() {
    let set = one_level(vec![cmd(&["mark"], vec![]), cmd(&["match"], vec![])]);
    assert_eq!(
        set.parse(0, &toks(&["ma"])),
        Err(CommandParseError::BadId(IdParseError::Ambiguous(
            toks(&["mark", "match"]),
            s("ma")
        )))
    );
}

#[test]
fn id_argument_converts_or_reports_bad_convert() {
    let set = build_grammar(vec![
        vec![cmd(
            &["help"],
            vec![arg("command", ArgMode::Optional, ArgKind::Id(1))],
        )],
        vec![cmd(&["version"], vec![]), cmd(&["verbose"], vec![])],
    ])
    .expect("grammar builds");
    assert_eq!(
        set.parse(0, &toks(&["help", "vers"])),
        Ok(CommandValue { id: 0, args: vec![Binding::Maybe(Some(ArgValue::Id(0)))], sub: None })
    );
    assert_eq!(
        set.parse(0, &toks(&["help"])),
        Ok(CommandValue { id: 0, args: vec![Binding::Maybe(None)], sub: None })
    );
    assert_eq!(
        set.parse(0, &toks(&["help", "ver"])),
        Err(CommandParseError::BadConvert(
            s("command"),
            ConvertError::Id(IdParseError::Ambiguous(toks(&["version", "verbose"]), s("ver")))
        ))
    );
}

#[test]
fn rest_conversion_stops_at_first_failure() {
    let set = build_grammar(vec![
        vec![cmd(&["grant"], vec![arg("roles", ArgMode::RestOptional, ArgKind::Id(1))])],
        vec![cmd(&["admin"], vec![]), cmd(&["mod", "moderator"], vec![])],
    ])
    .expect("grammar builds");
    assert_eq!(
        set.parse(0, &toks(&["grant"])),
        Ok(CommandValue { id: 0, args: vec![Binding::Many(vec![])], sub: None })
    );
    assert_eq!(
        set.parse(0, &toks(&["grant", "a", "moderator", "m"])),
        Ok(CommandValue {
            id: 0,
            args: vec![Binding::Many(vec![ArgValue::Id(0), ArgValue::Id(1), ArgValue::Id(1)])],
            sub: None,
        })
    );
    assert_eq!(
        set.parse(0, &toks(&["grant", "a", "x", "y"])),
        Err(CommandParseError::BadConvert(s("roles"), ConvertError::Id(IdParseError::NoMatch(s("x")))))
    );
}

#[test]
fn optional_arguments_bind_positionally() {
    let set = one_level(vec![cmd(
        &["show"],
        vec![
            arg("first", ArgMode::Optional, ArgKind::Text),
            arg("second", ArgMode::Optional, ArgKind::Text),
        ],
    )]);
    assert_eq!(
        set.parse(0, &toks(&["show", "x"])),
        Ok(CommandValue {
            id: 0,
            args: vec![Binding::Maybe(Some(ArgValue::Text(s("x")))), Binding::Maybe(None)],
            sub: None,
        })
    );
    assert_eq!(
        set.parse(0, &toks(&["show", "x", "y", "z"])),
        Err(CommandParseError::Trailing(s("z")))
    );
}

#[test]
fn command_value_reports_its_own_id() {
    let set = build_grammar(vec![
        vec![cmd(&["a"], vec![]), cmd(&["b"], vec![arg("s", ArgMode::RestRequired, ArgKind::Subcommand(1))])],
        vec![cmd(&["x"], vec![]), cmd(&["y"], vec![])],
    ])
    .expect("grammar builds");
    let v = set.parse(0, &toks(&["b", "y"])).expect("parses");
    assert_eq!(v.id(), 1);
    assert_eq!(v.sub.as_ref().map(|c| c.id()), Some(1));
}

#[test]
fn grammar_errors_are_reported() {
    assert_eq!(
        build_grammar(vec![vec![cmd(&[], vec![])]]).err(),
        Some(GrammarError::EmptyAliases(0, 0))
    );
    assert_eq!(
        build_grammar(vec![vec![cmd(&["a"], vec![])], vec![cmd(&["ok", ""], vec![])]]).err(),
        Some(GrammarError::EmptyAlias(1, 0))
    );
    assert_eq!(
        build_grammar(vec![vec![cmd(
            &["a"],
            vec![
                arg("o", ArgMode::Optional, ArgKind::Text),
                arg("r", ArgMode::Required, ArgKind::Text),
            ]
        )]])
        .err(),
        Some(GrammarError::BadOrder(s("r")))
    );
    assert_eq!(
        build_grammar(vec![vec![cmd(
            &["a"],
            vec![
                arg("rest", ArgMode::RestOptional, ArgKind::Text),
                arg("more", ArgMode::RestOptional, ArgKind::Text),
            ]
        )]])
        .err(),
        Some(GrammarError::BadOrder(s("more")))
    );
    assert_eq!(
        build_grammar(vec![vec![cmd(
            &["a"],
            vec![arg("sub", ArgMode::Required, ArgKind::Subcommand(0))]
        )]])
        .err(),
        Some(GrammarError::MisplacedSubcommand(s("sub")))
    );
    assert_eq!(
        build_grammar(vec![vec![cmd(&["a"], vec![arg("k", ArgMode::Required, ArgKind::Id(3))])]])
            .err(),
        Some(GrammarError::UnknownLevel(s("k")))
    );
    assert_eq!(
        build_grammar(vec![vec![cmd(&["list"], vec![]), cmd(&["ls", "list"], vec![])]]).err(),
        Some(GrammarError::DuplicateAlias(s("list")))
    );
    assert_eq!(
        build_grammar(vec![vec![cmd(&["a", "a"], vec![])]]).err(),
        Some(GrammarError::DuplicateAlias(s("a")))
    );
}

#[test]
fn field_info_pairs_names_with_kinds() {
    let syntax = CommandSyntax {
        required: toks(&["user"]),
        optional: toks(&["note"]),
        rest: RestArg::Required(s("roles")),
    };
    let specs = field_info(&syntax, &vec![ArgKind::Text, ArgKind::Text, ArgKind::Id(1)])
        .expect("counts match");
    assert_eq!(
        specs,
        vec![
            arg("user", ArgMode::Required, ArgKind::Text),
            arg("note", ArgMode::Optional, ArgKind::Text),
            arg("roles", ArgMode::RestRequired, ArgKind::Id(1)),
        ]
    );
    assert_eq!(
        field_info(&syntax, &vec![ArgKind::Text]),
        Err(GrammarError::MismatchedFields)
    );
    let bare = CommandSyntax { required: vec![], optional: vec![], rest: RestArg::Absent };
    assert_eq!(field_info(&bare, &vec![]), Ok(vec![]));
}

#[test]
fn usage_matches_the_definition() {
    let set = one_level(vec![cmd(
        &["remove", "rm"],
        vec![
            arg("user", ArgMode::Required, ArgKind::Text),
            arg("note", ArgMode::Optional, ArgKind::Text),
            arg("roles", ArgMode::RestRequired, ArgKind::Text),
        ],
    )]);
    let u = set.level(0).usage(0);
    assert_eq!(u.ids, toks(&["remove", "rm"]));
    let flags: Vec<(String, bool, bool)> =
        u.args.iter().map(|a| (a.name.clone(), a.is_required, a.is_rest)).collect();
    assert_eq!(
        flags,
        vec![(s("user"), true, false), (s("note"), false, false), (s("roles"), true, true)]
    );
}

#[test]
fn resolve_helper_needs_agreement() {
    assert_eq!(parse_resolve_ambiguous(&vec![]), None);
    assert_eq!(parse_resolve_ambiguous(&vec![3, 3, 3]), Some(3));
    assert_eq!(parse_resolve_ambiguous(&vec![3, 4]), None);
}

#[test]
fn help_topics_follow_the_definitions() {
    let set = one_level(vec![
        cmd(&["list", "ls"], vec![]),
        cmd(&["show"], vec![arg("user", ArgMode::Optional, ArgKind::Text)]),
    ]);
    let g = set.level(0);
    match g.help(Some(1)) {
        HelpTopic::Command(u) => {
            assert_eq!(u.ids, toks(&["show"]));
            assert_eq!(u.args.len(), 1);
            assert!(!u.args[0].is_required);
        },
        other => panic!("unexpected topic {:?}", other),
    }
    match g.help(None) {
        HelpTopic::CommandSet(v) => {
            assert_eq!(v.len(), 2);
            assert_eq!(v[0].ids, toks(&["list", "ls"]));
        },
        other => panic!("unexpected topic {:?}", other),
    }
}

#[test]
fn snowflake_arguments_convert() {
    let set = one_level(vec![cmd(&["kick"], vec![arg("user", ArgMode::Required, ArgKind::Snowflake)])]);
    for (tok, id) in [("42", 42u64), ("<@42>", 42), ("<@!42>", 42), ("<#7>", 7), ("18446744073709551615", u64::MAX)] {
        assert_eq!(
            set.parse(0, &toks(&["kick", tok])),
            Ok(CommandValue { id: 0, args: vec![Binding::One(ArgValue::Snowflake(id))], sub: None }),
            "token {:?}",
            tok
        );
    }
    for tok in ["", "x1", "<@>", "<@!12", "18446744073709551616", "-1"] {
        assert_eq!(
            set.parse(0, &toks(&["kick", tok])),
            Err(CommandParseError::BadConvert(s("user"), ConvertError::NotASnowflake(s(tok)))),
            "token {:?}",
            tok
        );
    }
}
