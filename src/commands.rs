use vstd::prelude::*;
use crate::grammar::{
    ArgKind, ArgMode, ArgModel, ArgSpec, CommandDef, DefModel, GrammarError, GrammarSet, arg_model,
    build_grammar, def_model, level_model, model_aliases, model_arg_ok, model_command_ok,
    model_level_ok, defs_ok, defs_view, level_ok, lemma_model_level_ok, lemma_model_aliases,
    model_ids,
};
use crate::parse::{
    ArgValue, Binding, BindingModel, CommandModel, CommandParseError, CommandValue, ValueModel,
    command_model, parse_spec, result_model,
};
use crate::text::{owned, strings_view};
use crate::trie::Trie;

verus! {

/// Level of the bot's top-level commands.
pub const BASE: usize = 0;

/// Level of the `role` subcommands.
pub const ROLE_COMMANDS: usize = 1;

/// Level of the `channel` subcommands.
pub const CHANNEL_COMMANDS: usize = 2;

/// Level of the `schedule` subcommands.
pub const SCHEDULE_COMMANDS: usize = 3;

/// Level of the channel modes.
pub const CHANNEL_MODES: usize = 4;

/// Level of the role names.
pub const ROLES: usize = 5;

/// The number of levels of the bot's grammar.
pub const LEVELS: usize = 6;

fn arg(name: &str, mode: ArgMode, kind: ArgKind) -> (r: ArgSpec)
    ensures
        arg_model(r) == am(name@, mode, kind),
{
    ArgSpec { name: owned(name), mode, kind }
}

fn def(ids: Vec<String>, args: Vec<ArgSpec>) -> (r: CommandDef)
    ensures
        def_model(r) == (DefModel {
            ids: strings_view(ids@),
            args: args@.map_values(|a: ArgSpec| arg_model(a)),
        }),
{
    CommandDef { ids, args }
}

fn ids1(a: &str) -> (r: Vec<String>)
    ensures
        strings_view(r@) == seq![a@],
{
    let r = vec![owned(a)];
    assert(strings_view(r@) =~= seq![a@]);
    r
}

fn ids2(a: &str, b: &str) -> (r: Vec<String>)
    ensures
        strings_view(r@) == seq![a@, b@],
{
    let r = vec![owned(a), owned(b)];
    assert(strings_view(r@) =~= seq![a@, b@]);
    r
}

fn ids3(a: &str, b: &str, c: &str) -> (r: Vec<String>)
    ensures
        strings_view(r@) == seq![a@, b@, c@],
{
    let r = vec![owned(a), owned(b), owned(c)];
    assert(strings_view(r@) =~= seq![a@, b@, c@]);
    r
}

fn args0() -> (r: Vec<ArgSpec>)
    ensures
        r@.map_values(|a: ArgSpec| arg_model(a)) == Seq::<ArgModel>::empty(),
{
    let r: Vec<ArgSpec> = Vec::new();
    assert(r@.map_values(|a: ArgSpec| arg_model(a)) =~= Seq::<ArgModel>::empty());
    r
}

fn args1(a: ArgSpec) -> (r: Vec<ArgSpec>)
    ensures
        r@.map_values(|x: ArgSpec| arg_model(x)) == seq![arg_model(a)],
{
    let ghost m = arg_model(a);
    let r = vec![a];
    assert(r@.map_values(|x: ArgSpec| arg_model(x)) =~= seq![m]);
    r
}

fn args2(a: ArgSpec, b: ArgSpec) -> (r: Vec<ArgSpec>)
    ensures
        r@.map_values(|x: ArgSpec| arg_model(x)) == seq![arg_model(a), arg_model(b)],
{
    let ghost ma = arg_model(a);
    let ghost mb = arg_model(b);
    let r = vec![a, b];
    assert(r@.map_values(|x: ArgSpec| arg_model(x)) =~= seq![ma, mb]);
    r
}

fn help(level: usize) -> (r: CommandDef)
    ensures
        def_model(r) == help_def(level),
{
    def(ids1("help"), args1(arg("command", ArgMode::Optional, ArgKind::Id(level))))
}

pub open spec fn am(name: Seq<char>, mode: ArgMode, kind: ArgKind) -> ArgModel {
    ArgModel { name, mode, kind }
}

pub open spec fn help_def(level: usize) -> DefModel {
    DefModel {
        ids: seq!["help"@],
        args: seq![am("command"@, ArgMode::Optional, ArgKind::Id(level))],
    }
}

pub open spec fn plain_def(ids: Seq<Seq<char>>) -> DefModel {
    DefModel { ids, args: Seq::empty() }
}

/// `help [command]`, `version`, `(role|roles) <subcommand...>`,
/// `channel <subcommand...>`, `schedule <subcommand...>`,
/// `(modmail|mm) <message...>`.
pub open spec fn base_defs() -> Seq<DefModel> {
    seq![
        help_def(BASE),
        plain_def(seq!["version"@]),
        DefModel {
            ids: seq!["role"@, "roles"@],
            args: seq![am("subcommand"@, ArgMode::RestRequired, ArgKind::Subcommand(ROLE_COMMANDS))],
        },
        DefModel {
            ids: seq!["channel"@],
            args: seq![am("subcommand"@, ArgMode::RestRequired, ArgKind::Subcommand(CHANNEL_COMMANDS))],
        },
        DefModel {
            ids: seq!["schedule"@],
            args: seq![am("subcommand"@, ArgMode::RestRequired, ArgKind::Subcommand(SCHEDULE_COMMANDS))],
        },
        DefModel {
            ids: seq!["modmail"@, "mm"@],
            args: seq![am("message"@, ArgMode::RestRequired, ArgKind::Text)],
        },
    ]
}

/// `help [command]`, `(list|ls)`, `show [user]`, `add <user> <roles...>`,
/// `(remove|rm) <user> <roles...>`.
pub open spec fn role_command_defs() -> Seq<DefModel> {
    seq![
        help_def(ROLE_COMMANDS),
        plain_def(seq!["list"@, "ls"@]),
        DefModel {
            ids: seq!["show"@],
            args: seq![am("user"@, ArgMode::Optional, ArgKind::Snowflake)],
        },
        DefModel {
            ids: seq!["add"@],
            args: seq![
                am("user"@, ArgMode::Required, ArgKind::Snowflake),
                am("roles"@, ArgMode::RestRequired, ArgKind::Id(ROLES)),
            ],
        },
        DefModel {
            ids: seq!["remove"@, "rm"@],
            args: seq![
                am("user"@, ArgMode::Required, ArgKind::Snowflake),
                am("roles"@, ArgMode::RestRequired, ArgKind::Id(ROLES)),
            ],
        },
    ]
}

/// `help [command]`, `(list|ls)`, `show [channel]`, `default <mode>`,
/// `(mark|set) <channel> <mode>`, `(unmark|clear|reset) <channel>`.
pub open spec fn channel_command_defs() -> Seq<DefModel> {
    seq![
        help_def(CHANNEL_COMMANDS),
        plain_def(seq!["list"@, "ls"@]),
        DefModel {
            ids: seq!["show"@],
            args: seq![am("channel"@, ArgMode::Optional, ArgKind::Snowflake)],
        },
        DefModel {
            ids: seq!["default"@],
            args: seq![am("mode"@, ArgMode::Required, ArgKind::Id(CHANNEL_MODES))],
        },
        DefModel {
            ids: seq!["mark"@, "set"@],
            args: seq![
                am("channel"@, ArgMode::Required, ArgKind::Snowflake),
                am("mode"@, ArgMode::Required, ArgKind::Id(CHANNEL_MODES)),
            ],
        },
        DefModel {
            ids: seq!["unmark"@, "clear"@, "reset"@],
            args: seq![am("channel"@, ArgMode::Required, ArgKind::Snowflake)],
        },
    ]
}

/// `help [command]`.
pub open spec fn schedule_command_defs() -> Seq<DefModel> {
    seq![help_def(SCHEDULE_COMMANDS)]
}

/// `(disabled|none)`, `(announcements|broadcast)`, `(commands|command-only)`.
pub open spec fn channel_mode_defs() -> Seq<DefModel> {
    seq![
        plain_def(seq!["disabled"@, "none"@]),
        plain_def(seq!["announcements"@, "broadcast"@]),
        plain_def(seq!["commands"@, "command-only"@]),
    ]
}

/// `admin`, `(mod|moderator)`.
pub open spec fn role_defs() -> Seq<DefModel> {
    seq![plain_def(seq!["admin"@]), plain_def(seq!["mod"@, "moderator"@])]
}

/// The bot's grammar, level by level (see the level constants).
pub open spec fn bot_defs() -> Seq<Seq<DefModel>> {
    seq![
        base_defs(),
        role_command_defs(),
        channel_command_defs(),
        schedule_command_defs(),
        channel_mode_defs(),
        role_defs(),
    ]
}

fn base_level() -> (r: Vec<CommandDef>)
    ensures
        level_model(r@) == base_defs(),
{
    let v = vec![
        help(BASE),
        def(ids1("version"), args0()),
        def(
            ids2("role", "roles"),
            args1(arg("subcommand", ArgMode::RestRequired, ArgKind::Subcommand(ROLE_COMMANDS))),
        ),
        def(
            ids1("channel"),
            args1(arg("subcommand", ArgMode::RestRequired, ArgKind::Subcommand(CHANNEL_COMMANDS))),
        ),
        def(
            ids1("schedule"),
            args1(arg("subcommand", ArgMode::RestRequired, ArgKind::Subcommand(SCHEDULE_COMMANDS))),
        ),
        def(ids2("modmail", "mm"), args1(arg("message", ArgMode::RestRequired, ArgKind::Text))),
    ];
    assert(level_model(v@) =~= base_defs());
    v
}

fn role_command_level() -> (r: Vec<CommandDef>)
    ensures
        level_model(r@) == role_command_defs(),
{
    let v = vec![
        help(ROLE_COMMANDS),
        def(ids2("list", "ls"), args0()),
        def(ids1("show"), args1(arg("user", ArgMode::Optional, ArgKind::Snowflake))),
        def(
            ids1("add"),
            args2(
                arg("user", ArgMode::Required, ArgKind::Snowflake),
                arg("roles", ArgMode::RestRequired, ArgKind::Id(ROLES)),
            ),
        ),
        def(
            ids2("remove", "rm"),
            args2(
                arg("user", ArgMode::Required, ArgKind::Snowflake),
                arg("roles", ArgMode::RestRequired, ArgKind::Id(ROLES)),
            ),
        ),
    ];
    assert(level_model(v@) =~= role_command_defs());
    v
}

fn channel_command_level() -> (r: Vec<CommandDef>)
    ensures
        level_model(r@) == channel_command_defs(),
{
    let v = vec![
        help(CHANNEL_COMMANDS),
        def(ids2("list", "ls"), args0()),
        def(ids1("show"), args1(arg("channel", ArgMode::Optional, ArgKind::Snowflake))),
        def(ids1("default"), args1(arg("mode", ArgMode::Required, ArgKind::Id(CHANNEL_MODES)))),
        def(
            ids2("mark", "set"),
            args2(
                arg("channel", ArgMode::Required, ArgKind::Snowflake),
                arg("mode", ArgMode::Required, ArgKind::Id(CHANNEL_MODES)),
            ),
        ),
        def(
            ids3("unmark", "clear", "reset"),
            args1(arg("channel", ArgMode::Required, ArgKind::Snowflake)),
        ),
    ];
    assert(level_model(v@) =~= channel_command_defs());
    v
}

fn schedule_command_level() -> (r: Vec<CommandDef>)
    ensures
        level_model(r@) == schedule_command_defs(),
{
    let v = vec![help(SCHEDULE_COMMANDS)];
    assert(level_model(v@) =~= schedule_command_defs());
    v
}

fn channel_mode_level() -> (r: Vec<CommandDef>)
    ensures
        level_model(r@) == channel_mode_defs(),
{
    let v = vec![
        def(ids2("disabled", "none"), args0()),
        def(ids2("announcements", "broadcast"), args0()),
        def(ids2("commands", "command-only"), args0()),
    ];
    assert(level_model(v@) =~= channel_mode_defs());
    v
}

fn role_level() -> (r: Vec<CommandDef>)
    ensures
        level_model(r@) == role_defs(),
{
    let v = vec![def(ids1("admin"), args0()), def(ids2("mod", "moderator"), args0())];
    assert(level_model(v@) =~= role_defs());
    v
}

/// Distinct aliases: each pair differs in length or in one of its first two
/// characters.
proof fn lemma_distinct(k: Seq<Seq<char>>)
    requires
        forall|a: int, b: int|
            0 <= a < k.len() && 0 <= b < k.len() && a != b ==> (#[trigger] k[a]).len() != (
            #[trigger] k[b]).len() || (k[a].len() > 0 && k[b].len() > 0 && k[a][0] != k[b][0]) || (
            k[a].len() > 1 && k[b].len() > 1 && k[a][1] != k[b][1]),
    ensures
        Trie::keys_distinct(k),
{
    assert forall|a: int, b: int| 0 <= a < k.len() && 0 <= b < k.len() && a != b implies #[trigger] k[a]
        != #[trigger] k[b] by {
        if k[a] == k[b] {
            assert(k[a].len() == k[b].len());
        }
    }
}

proof fn lemma_base_ok()
    ensures
        model_level_ok(base_defs(), LEVELS as int),
{
    reveal_strlit("help");
    reveal_strlit("version");
    reveal_strlit("role");
    reveal_strlit("roles");
    reveal_strlit("channel");
    reveal_strlit("schedule");
    reveal_strlit("modmail");
    reveal_strlit("mm");
    reveal_with_fuel(model_aliases, 7);
    let m = base_defs();
    let k = seq!["help"@, "version"@, "role"@, "roles"@, "channel"@, "schedule"@, "modmail"@, "mm"@];
    assert(model_aliases(m, m.len() as int) =~= k);
    lemma_distinct(k);
    assert forall|c: int| 0 <= c < m.len() implies model_command_ok(#[trigger] m[c], LEVELS as int) by {
        assert forall|i: int| 0 <= i < m[c].args.len() implies #[trigger] model_arg_ok(m[c].args, i, LEVELS as int) by {
        }
    }
}

proof fn lemma_role_commands_ok()
    ensures
        model_level_ok(role_command_defs(), LEVELS as int),
{
    reveal_strlit("help");
    reveal_strlit("list");
    reveal_strlit("ls");
    reveal_strlit("show");
    reveal_strlit("add");
    reveal_strlit("remove");
    reveal_strlit("rm");
    reveal_with_fuel(model_aliases, 7);
    let m = role_command_defs();
    let k = seq!["help"@, "list"@, "ls"@, "show"@, "add"@, "remove"@, "rm"@];
    assert(model_aliases(m, m.len() as int) =~= k);
    lemma_distinct(k);
    assert forall|c: int| 0 <= c < m.len() implies model_command_ok(#[trigger] m[c], LEVELS as int) by {
        assert forall|i: int| 0 <= i < m[c].args.len() implies #[trigger] model_arg_ok(m[c].args, i, LEVELS as int) by {
        }
    }
}

proof fn lemma_channel_commands_ok()
    ensures
        model_level_ok(channel_command_defs(), LEVELS as int),
{
    reveal_strlit("help");
    reveal_strlit("list");
    reveal_strlit("ls");
    reveal_strlit("show");
    reveal_strlit("default");
    reveal_strlit("mark");
    reveal_strlit("set");
    reveal_strlit("unmark");
    reveal_strlit("clear");
    reveal_strlit("reset");
    reveal_with_fuel(model_aliases, 7);
    let m = channel_command_defs();
    let k = seq!["help"@, "list"@, "ls"@, "show"@, "default"@, "mark"@, "set"@, "unmark"@, "clear"@, "reset"@];
    assert(model_aliases(m, m.len() as int) =~= k);
    lemma_distinct(k);
    assert forall|c: int| 0 <= c < m.len() implies model_command_ok(#[trigger] m[c], LEVELS as int) by {
        assert forall|i: int| 0 <= i < m[c].args.len() implies #[trigger] model_arg_ok(m[c].args, i, LEVELS as int) by {
        }
    }
}

proof fn lemma_schedule_commands_ok()
    ensures
        model_level_ok(schedule_command_defs(), LEVELS as int),
{
    reveal_strlit("help");
    reveal_with_fuel(model_aliases, 7);
    let m = schedule_command_defs();
    let k = seq!["help"@];
    assert(model_aliases(m, m.len() as int) =~= k);
    lemma_distinct(k);
    assert forall|c: int| 0 <= c < m.len() implies model_command_ok(#[trigger] m[c], LEVELS as int) by {
        assert forall|i: int| 0 <= i < m[c].args.len() implies #[trigger] model_arg_ok(m[c].args, i, LEVELS as int) by {
        }
    }
}

proof fn lemma_channel_modes_ok()
    ensures
        model_level_ok(channel_mode_defs(), LEVELS as int),
{
    reveal_strlit("disabled");
    reveal_strlit("none");
    reveal_strlit("announcements");
    reveal_strlit("broadcast");
    reveal_strlit("commands");
    reveal_strlit("command-only");
    reveal_with_fuel(model_aliases, 7);
    let m = channel_mode_defs();
    let k = seq!["disabled"@, "none"@, "announcements"@, "broadcast"@, "commands"@, "command-only"@];
    assert(model_aliases(m, m.len() as int) =~= k);
    lemma_distinct(k);
    assert forall|c: int| 0 <= c < m.len() implies model_command_ok(#[trigger] m[c], LEVELS as int) by {
        assert forall|i: int| 0 <= i < m[c].args.len() implies #[trigger] model_arg_ok(m[c].args, i, LEVELS as int) by {
        }
    }
}

proof fn lemma_roles_ok()
    ensures
        model_level_ok(role_defs(), LEVELS as int),
{
    reveal_strlit("admin");
    reveal_strlit("mod");
    reveal_strlit("moderator");
    reveal_with_fuel(model_aliases, 7);
    let m = role_defs();
    let k = seq!["admin"@, "mod"@, "moderator"@];
    assert(model_aliases(m, m.len() as int) =~= k);
    lemma_distinct(k);
    assert forall|c: int| 0 <= c < m.len() implies model_command_ok(#[trigger] m[c], LEVELS as int) by {
        assert forall|i: int| 0 <= i < m[c].args.len() implies #[trigger] model_arg_ok(m[c].args, i, LEVELS as int) by {
        }
    }
}

/// The definitions of the bot's grammar, level by level (see the level
/// constants): exactly `bot_defs`, every level well formed.
pub fn bot_definitions() -> (r: Vec<Vec<CommandDef>>)
    ensures
        r.len() == LEVELS,
        forall|l: int| 0 <= l < LEVELS ==> level_model((#[trigger] r@[l])@) == bot_defs()[l],
        defs_ok(defs_view(r@)),
{
    let r = vec![
        base_level(),
        role_command_level(),
        channel_command_level(),
        schedule_command_level(),
        channel_mode_level(),
        role_level(),
    ];
    proof {
        lemma_base_ok();
        lemma_role_commands_ok();
        lemma_channel_commands_ok();
        lemma_schedule_commands_ok();
        lemma_channel_modes_ok();
        lemma_roles_ok();
        assert forall|l: int| 0 <= l < LEVELS implies level_model((#[trigger] r@[l])@) == bot_defs()[l] by {
        }
        assert forall|l: int| 0 <= l < defs_view(r@).len() implies level_ok(
            #[trigger] defs_view(r@)[l],
            defs_view(r@).len() as int,
        ) by {
            assert(defs_view(r@)[l] == r@[l]@);
            lemma_model_level_ok(r@[l]@, LEVELS as int);
        }
    }
    r
}

/// The bot's grammar is a set with exactly the levels of `bot_defs`.
pub open spec fn is_bot_grammar(set: GrammarSet) -> bool {
    &&& set.wf()
    &&& set.levels().len() == LEVELS
    &&& forall|l: int| 0 <= l < LEVELS ==> level_model((#[trigger] set.levels()[l]).commands()) == bot_defs()[l]
}

/// Level `l` of the bot's grammar resolves against exactly the aliases of
/// `bot_defs()[l]`, in declared order, each naming its command's index.
pub proof fn lemma_bot_level(set: GrammarSet, l: int)
    requires
        is_bot_grammar(set),
        0 <= l < LEVELS,
    ensures
        set.levels()[l].wf(),
        set.levels()[l].keys() == model_aliases(bot_defs()[l], bot_defs()[l].len() as int),
        set.levels()[l].key_ids() == model_ids(bot_defs()[l], bot_defs()[l].len() as int),
{
    set.lemma_level_wf(l);
    let g = set.levels()[l];
    g.lemma_keys();
    lemma_model_aliases(g.commands(), g.commands().len() as int);
    assert(level_model(g.commands()).len() == g.commands().len());
}

/// Builds the bot's grammar, which always succeeds.
pub fn bot_grammar() -> (r: Result<GrammarSet, GrammarError>)
    ensures
        r matches Ok(set) && is_bot_grammar(set),
{
    let defs = bot_definitions();
    let ghost d = defs@;
    let r = build_grammar(defs);
    proof {
        if r is Ok {
            let set = r->Ok_0;
            assert forall|l: int| 0 <= l < LEVELS implies level_model((#[trigger] set.levels()[l]).commands()) == bot_defs()[l] by {
                assert(set.levels()[l].commands() == d[l]@);
                assert(level_model(d[l]@) == bot_defs()[l]);
            }
        }
    }
    r
}

/// Parses a tokenized message as a top-level command of the bot's grammar.
pub fn parse_base(set: &GrammarSet, tokens: &Vec<String>) -> (r: Result<
    CommandValue,
    CommandParseError,
>)
    requires
        is_bot_grammar(*set),
    ensures
        result_model(r) == parse_spec(*set, BASE as int, strings_view(tokens@), 0),
{
    set.parse(BASE, tokens)
}

/// A parsed command of the `schedule` level.
#[derive(Clone, Debug, PartialEq, Eq)]
pub enum ScheduleCommand {
    /// Help on the schedule commands, or on the one with the given id.
    Help(Option<usize>),
}

/// The schedule command that a parsed value of the `schedule` level is.
pub open spec fn schedule_of(m: CommandModel) -> Option<ScheduleCommand> {
    if m.id == 0 && m.args.len() == 1 && m.sub is None {
        match m.args[0] {
            BindingModel::Maybe(None) => Some(ScheduleCommand::Help(None)),
            BindingModel::Maybe(Some(ValueModel::Id(i))) => Some(ScheduleCommand::Help(Some(i))),
            _ => None,
        }
    } else {
        None
    }
}

impl ScheduleCommand {
    /// Reads a value parsed at the `schedule` level.
    pub fn from_value(v: &CommandValue) -> (r: Option<ScheduleCommand>)
        ensures
            r == schedule_of(command_model(*v)),
    {
        if v.id != 0 || v.args.len() != 1 || v.sub.is_some() {
            return None;
        }
        proof {
            assert(command_model(*v).args[0] == v.args@[0]@);
        }
        match &v.args[0] {
            Binding::Maybe(None) => Some(ScheduleCommand::Help(None)),
            Binding::Maybe(Some(ArgValue::Id(i))) => Some(ScheduleCommand::Help(Some(*i))),
            _ => None,
        }
    }
}

} // verus!
