use docbot::grammar::{field_info, ArgKind, ArgMode, ArgSpec, CommandSyntax, RestArg};
use docbot::usage::{parse_usage_line, UsageError};

fn toks(xs: &[&str]) -> Vec<String> {
    xs.iter().map(|x| x.to_string()).collect()
}

fn syntax(req: &[&str], opt: &[&str], rest: RestArg) -> CommandSyntax {
    CommandSyntax { required: toks(req), optional: toks(opt), rest }
}

#[test]
fn usage_single_alias_with_optional() {
    assert_eq!(
        parse_usage_line("help [command]"),
        Ok((toks(&["help"]), syntax(&[], &["command"], RestArg::Absent)))
    );
}

#[test]
fn usage_alias_list_with_required_rest() {
    assert_eq!(
        parse_usage_line("(role|roles) <subcommand...>"),
        Ok((toks(&["role", "roles"]), syntax(&[], &[], RestArg::Required("subcommand".to_string()))))
    );
}

#[test]
fn usage_all_kinds_of_arguments() {
    assert_eq!(
        parse_usage_line("  ( a | b ) <x><y> [z] [more...]  "),
        Ok((
            toks(&["a", "b"]),
            syntax(&["x", "y"], &["z"], RestArg::Optional("more".to_string()))
        ))
    );
    assert_eq!(
        parse_usage_line("(unmark|clear|reset) <channel>"),
        Ok((toks(&["unmark", "clear", "reset"]), syntax(&["channel"], &[], RestArg::Absent)))
    );
}

#[test]
fn usage_rejects_missing_ids() {
    assert_eq!(parse_usage_line(""), Err(UsageError::InvalidIds));
    assert_eq!(parse_usage_line("   "), Err(UsageError::InvalidIds));
    assert_eq!(parse_usage_line("(a|b <x>"), Err(UsageError::InvalidIds));
    assert_eq!(parse_usage_line("()"), Err(UsageError::InvalidIds));
    assert_eq!(parse_usage_line("(a|) <x>"), Err(UsageError::InvalidIds));
    assert_eq!(parse_usage_line("( | b)"), Err(UsageError::InvalidIds));
}

#[test]
fn usage_rejects_out_of_order_or_stray_text() {
    assert_eq!(
        parse_usage_line("add [x] <y>"),
        Err(UsageError::Trailing("<y>".to_string()))
    );
    assert_eq!(parse_usage_line("add <x"), Err(UsageError::Trailing("<x".to_string())));
    assert_eq!(
        parse_usage_line("add <r...> <y>"),
        Err(UsageError::Trailing("<y>".to_string()))
    );
    assert_eq!(
        parse_usage_line("add junk <x>"),
        Err(UsageError::Trailing("junk <x>".to_string()))
    );
}

#[test]
fn usage_feeds_field_info() {
    let (ids, syn) = parse_usage_line("(remove|rm) <user> <roles...>").expect("parses");
    assert_eq!(ids, toks(&["remove", "rm"]));
    let specs = field_info(&syn, &vec![ArgKind::Text, ArgKind::Id(1)]).expect("counts match");
    assert_eq!(
        specs,
        vec![
            ArgSpec { name: "user".to_string(), mode: ArgMode::Required, kind: ArgKind::Text },
            ArgSpec { name: "roles".to_string(), mode: ArgMode::RestRequired, kind: ArgKind::Id(1) },
        ]
    );
}

#[test]
fn usage_accepts_unicode_whitespace() {
    assert_eq!(
        parse_usage_line("show\u{a0}[user]\t"),
        Ok((toks(&["show"]), syntax(&[], &["user"], RestArg::Absent)))
    );
}
