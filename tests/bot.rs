use docbot::admin::{parse_admin_role, Admin, AdminRole};
use docbot::commands::{
    bot_grammar, parse_base, ScheduleCommand, BASE, CHANNEL_MODES, LEVELS, ROLES,
    SCHEDULE_COMMANDS,
};
use docbot::bot::{BaseCommand, ChannelCommand, ChannelMode, Role, RoleCommand};
use docbot::parse::{ArgValue, Binding, CommandParseError, CommandValue, ConvertError};
use docbot::trie::IdParseError;

fn toks(xs: &[&str]) -> Vec<String> {
    xs.iter().map(|x| x.to_string()).collect()
}

#[test]
fn bot_grammar_builds() {
    let set = bot_grammar().expect("bot grammar builds");
    assert_eq!(set.len(), LEVELS);
}

#[test]
fn bot_canonical_aliases_round_trip() {
    let set = bot_grammar().expect("bot grammar builds");
    for level in 0..set.len() {
        let g = set.level(level);
        for id in 0..g.len() {
            assert_eq!(g.resolve_id(&g.display(id)), Ok(id), "level {} id {}", level, id);
        }
    }
}

#[test]
fn bot_parses_role_add() {
    let set = bot_grammar().expect("bot grammar builds");
    let v = parse_base(&set, &toks(&["roles", "add", "<@!42>", "admin", "mod"])).expect("parses");
    assert_eq!(
        v,
        CommandValue {
            id: 2,
            args: vec![],
            sub: Some(Box::new(CommandValue {
                id: 3,
                args: vec![
                    Binding::One(ArgValue::Snowflake(42)),
                    Binding::Many(vec![ArgValue::Id(0), ArgValue::Id(1)]),
                ],
                sub: None,
            })),
        }
    );
}

#[test]
fn bot_reports_unknown_role() {
    let set = bot_grammar().expect("bot grammar builds");
    assert_eq!(
        parse_base(&set, &toks(&["role", "add", "1", "wizard"])),
        Err(CommandParseError::Subcommand(Box::new(CommandParseError::BadConvert(
            "roles".to_string(),
            ConvertError::Id(IdParseError::NoMatch("wizard".to_string()))
        ))))
    );
    assert_eq!(
        parse_base(&set, &toks(&["role", "add", "bob", "admin"])),
        Err(CommandParseError::Subcommand(Box::new(CommandParseError::BadConvert(
            "user".to_string(),
            ConvertError::NotASnowflake("bob".to_string())
        ))))
    );
}

#[test]
fn bot_channel_mode_aliases() {
    let set = bot_grammar().expect("bot grammar builds");
    let modes = set.level(CHANNEL_MODES);
    assert_eq!(modes.resolve_id("none"), Ok(0));
    assert_eq!(modes.resolve_id("b"), Ok(1));
    assert_eq!(modes.resolve_id("command-"), Ok(2));
    assert_eq!(
        modes.resolve_id("c"),
        Ok(2)
    );
    let roles = set.level(ROLES);
    assert_eq!(
        roles.resolve_id(""),
        Err(IdParseError::Ambiguous(toks(&["admin", "mod", "moderator"]), String::new()))
    );
    assert_eq!(set.level(BASE).resolve_id("m"), Ok(5));
}

#[test]
fn bot_schedule_help() {
    let set = bot_grammar().expect("bot grammar builds");
    let v = set.parse(SCHEDULE_COMMANDS, &toks(&["help"])).expect("parses");
    assert_eq!(ScheduleCommand::from_value(&v), Some(ScheduleCommand::Help(None)));
    let v = set.parse(SCHEDULE_COMMANDS, &toks(&["h", "help"])).expect("parses");
    assert_eq!(ScheduleCommand::from_value(&v), Some(ScheduleCommand::Help(Some(0))));
    let other = CommandValue { id: 1, args: vec![], sub: None };
    assert_eq!(ScheduleCommand::from_value(&other), None);
}

#[test]
fn admin_role_names() {
    assert_eq!(parse_admin_role("admin"), Ok(AdminRole::Admin));
    assert_eq!(parse_admin_role("superuser").map_err(|e| e.role), Err("superuser".to_string()));
    assert_eq!("admin".parse::<AdminRole>(), Ok(AdminRole::Admin));
    assert!(AdminRole::Admin < AdminRole::Superuser);
}

#[test]
fn admin_accessors() {
    let a = Admin::new(42, "admin".to_string());
    assert_eq!(a.user_id(), 42);
    assert_eq!(a.role(), Ok(AdminRole::Admin));
    let b = Admin::new(-1, "owner".to_string());
    assert_eq!(b.user_id(), u64::MAX);
    assert_eq!(b.role().map_err(|e| e.role), Err("owner".to_string()));
}

fn base(set: &docbot::grammar::GrammarSet, xs: &[&str]) -> Result<CommandValue, CommandParseError> {
    parse_base(set, &toks(xs))
}

#[test]
fn bot_base_command_errors() {
    let set = bot_grammar().expect("bot grammar builds");
    assert_eq!(base(&set, &["role"]), Err(CommandParseError::MissingRequired("subcommand".to_string())));
    assert_eq!(base(&set, &["version", "x"]), Err(CommandParseError::Trailing("x".to_string())));
    assert_eq!(
        base(&set, &["channel", "s"]),
        Err(CommandParseError::Subcommand(Box::new(CommandParseError::BadId(IdParseError::Ambiguous(
            toks(&["show", "set"]),
            "s".to_string()
        )))))
    );
}

#[test]
fn bot_typed_commands() {
    let set = bot_grammar().expect("bot grammar builds");
    let read = |xs: &[&str]| BaseCommand::from_value(&base(&set, xs).expect("parses"));
    assert_eq!(read(&["help", "ro"]), Some(BaseCommand::Help(Some(2))));
    assert_eq!(read(&["help"]), Some(BaseCommand::Help(None)));
    assert_eq!(read(&["v"]), Some(BaseCommand::Version));
    assert_eq!(
        read(&["modmail", "a b", "c"]),
        Some(BaseCommand::Modmail(toks(&["a b", "c"])))
    );
    assert_eq!(
        read(&["roles", "add", "<@!42>", "admin", "mod"]),
        Some(BaseCommand::Role(RoleCommand::Add(42, vec![Role::Admin, Role::Mod])))
    );
    assert_eq!(
        read(&["role", "rm", "7", "moderator"]),
        Some(BaseCommand::Role(RoleCommand::Remove(7, vec![Role::Mod])))
    );
    assert_eq!(read(&["role", "show"]), Some(BaseCommand::Role(RoleCommand::Show(None))));
    assert_eq!(read(&["role", "ls"]), Some(BaseCommand::Role(RoleCommand::List)));
    assert_eq!(
        read(&["channel", "mark", "<#9>", "broadcast"]),
        Some(BaseCommand::Channel(ChannelCommand::Mark(9, ChannelMode::Announcements)))
    );
    assert_eq!(
        read(&["channel", "default", "none"]),
        Some(BaseCommand::Channel(ChannelCommand::Default(ChannelMode::Disabled)))
    );
    assert_eq!(read(&["channel", "reset", "5"]), Some(BaseCommand::Channel(ChannelCommand::Unmark(5))));
    assert_eq!(read(&["channel", "sh", "5"]), Some(BaseCommand::Channel(ChannelCommand::Show(Some(5)))));
    assert_eq!(read(&["schedule", "help"]), Some(BaseCommand::Schedule(ScheduleCommand::Help(None))));
    let odd = CommandValue { id: 1, args: vec![Binding::Maybe(None)], sub: None };
    assert_eq!(BaseCommand::from_value(&odd), None);
}
