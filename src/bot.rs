use vstd::prelude::*;
use crate::commands::{ScheduleCommand, schedule_of};
use crate::parse::{
    ArgValue, Binding, BindingModel, CommandModel, CommandValue, ValueModel, bindings_model,
    command_model, values_model,
};

verus! {

// Typed readers of values parsed with the bot's grammar: each reads a value of
// one level, and answers `None` for a value that level's commands cannot bind.

/// A bot role, by its id in the role-name level.
#[derive(Clone, Copy, Debug, PartialEq, Eq, Structural)]
pub enum Role {
    Admin,
    Mod,
}

/// A channel mode, by its id in the channel-mode level.
#[derive(Clone, Copy, Debug, PartialEq, Eq, Structural)]
pub enum ChannelMode {
    Disabled,
    Announcements,
    Commands,
}

pub open spec fn role_of(i: usize) -> Option<Role> {
    if i == 0 {
        Some(Role::Admin)
    } else if i == 1 {
        Some(Role::Mod)
    } else {
        None
    }
}

pub open spec fn mode_of(i: usize) -> Option<ChannelMode> {
    if i == 0 {
        Some(ChannelMode::Disabled)
    } else if i == 1 {
        Some(ChannelMode::Announcements)
    } else if i == 2 {
        Some(ChannelMode::Commands)
    } else {
        None
    }
}

/// `help [command]`: no command, or the id of one.
pub open spec fn help_of(args: Seq<BindingModel>) -> Option<Option<usize>> {
    if args.len() == 1 {
        match args[0] {
            BindingModel::Maybe(None) => Some(None),
            BindingModel::Maybe(Some(ValueModel::Id(i))) => Some(Some(i)),
            _ => None,
        }
    } else {
        None
    }
}

/// `show [id]`: no id, or a user or channel id.
pub open spec fn show_of(args: Seq<BindingModel>) -> Option<Option<u64>> {
    if args.len() == 1 {
        match args[0] {
            BindingModel::Maybe(None) => Some(None),
            BindingModel::Maybe(Some(ValueModel::Snowflake(u))) => Some(Some(u)),
            _ => None,
        }
    } else {
        None
    }
}

/// The roles named by a rest argument, when every value is a role id.
pub open spec fn roles_of(vs: Seq<ValueModel>) -> Option<Seq<Role>> {
    if forall|i: int|
        0 <= i < vs.len() ==> (#[trigger] vs[i] matches ValueModel::Id(j) && role_of(j) is Some) {
        Some(vs.map_values(|v: ValueModel| role_of(v->Id_0)->0))
    } else {
        None
    }
}

/// `<user> <roles...>`.
pub open spec fn user_roles_of(args: Seq<BindingModel>) -> Option<(u64, Seq<Role>)> {
    if args.len() == 2 {
        match (args[0], args[1]) {
            (BindingModel::One(ValueModel::Snowflake(u)), BindingModel::Many(vs)) => match roles_of(
                vs,
            ) {
                Some(rs) => Some((u, rs)),
                None => None,
            },
            _ => None,
        }
    } else {
        None
    }
}

/// A command of the `role` level.
#[derive(Clone, Debug, PartialEq, Eq)]
pub enum RoleCommand {
    Help(Option<usize>),
    List,
    Show(Option<u64>),
    Add(u64, Vec<Role>),
    Remove(u64, Vec<Role>),
}

pub enum RoleCommandModel {
    Help(Option<usize>),
    List,
    Show(Option<u64>),
    Add(u64, Seq<Role>),
    Remove(u64, Seq<Role>),
}

impl View for RoleCommand {
    type V = RoleCommandModel;

    open spec fn view(&self) -> RoleCommandModel {
        match self {
            RoleCommand::Help(t) => RoleCommandModel::Help(*t),
            RoleCommand::List => RoleCommandModel::List,
            RoleCommand::Show(u) => RoleCommandModel::Show(*u),
            RoleCommand::Add(u, rs) => RoleCommandModel::Add(*u, rs@),
            RoleCommand::Remove(u, rs) => RoleCommandModel::Remove(*u, rs@),
        }
    }
}

/// The role command a value of the `role` level is.
pub open spec fn role_command_of(m: CommandModel) -> Option<RoleCommandModel> {
    if m.sub is Some {
        None
    } else if m.id == 0 {
        match help_of(m.args) {
            Some(t) => Some(RoleCommandModel::Help(t)),
            None => None,
        }
    } else if m.id == 1 {
        if m.args.len() == 0 {
            Some(RoleCommandModel::List)
        } else {
            None
        }
    } else if m.id == 2 {
        match show_of(m.args) {
            Some(u) => Some(RoleCommandModel::Show(u)),
            None => None,
        }
    } else if m.id == 3 {
        match user_roles_of(m.args) {
            Some((u, rs)) => Some(RoleCommandModel::Add(u, rs)),
            None => None,
        }
    } else if m.id == 4 {
        match user_roles_of(m.args) {
            Some((u, rs)) => Some(RoleCommandModel::Remove(u, rs)),
            None => None,
        }
    } else {
        None
    }
}

/// A command of the `channel` level.
#[derive(Clone, Copy, Debug, PartialEq, Eq, Structural)]
pub enum ChannelCommand {
    Help(Option<usize>),
    List,
    Show(Option<u64>),
    Default(ChannelMode),
    Mark(u64, ChannelMode),
    Unmark(u64),
}

/// The channel command a value of the `channel` level is.
pub open spec fn channel_command_of(m: CommandModel) -> Option<ChannelCommand> {
    if m.sub is Some {
        None
    } else if m.id == 0 {
        match help_of(m.args) {
            Some(t) => Some(ChannelCommand::Help(t)),
            None => None,
        }
    } else if m.id == 1 {
        if m.args.len() == 0 {
            Some(ChannelCommand::List)
        } else {
            None
        }
    } else if m.id == 2 {
        match show_of(m.args) {
            Some(u) => Some(ChannelCommand::Show(u)),
            None => None,
        }
    } else if m.id == 3 && m.args.len() == 1 {
        match m.args[0] {
            BindingModel::One(ValueModel::Id(i)) => match mode_of(i) {
                Some(md) => Some(ChannelCommand::Default(md)),
                None => None,
            },
            _ => None,
        }
    } else if m.id == 4 && m.args.len() == 2 {
        match (m.args[0], m.args[1]) {
            (BindingModel::One(ValueModel::Snowflake(u)), BindingModel::One(ValueModel::Id(i))) =>
                match mode_of(i) {
                Some(md) => Some(ChannelCommand::Mark(u, md)),
                None => None,
            },
            _ => None,
        }
    } else if m.id == 5 && m.args.len() == 1 {
        match m.args[0] {
            BindingModel::One(ValueModel::Snowflake(u)) => Some(ChannelCommand::Unmark(u)),
            _ => None,
        }
    } else {
        None
    }
}

/// A command of the bot's top level.
#[derive(Clone, Debug, PartialEq, Eq)]
pub enum BaseCommand {
    Help(Option<usize>),
    Version,
    Role(RoleCommand),
    Channel(ChannelCommand),
    Schedule(ScheduleCommand),
    Modmail(Vec<String>),
}

pub enum BaseCommandModel {
    Help(Option<usize>),
    Version,
    Role(RoleCommandModel),
    Channel(ChannelCommand),
    Schedule(ScheduleCommand),
    Modmail(Seq<Seq<char>>),
}

impl View for BaseCommand {
    type V = BaseCommandModel;

    open spec fn view(&self) -> BaseCommandModel {
        match self {
            BaseCommand::Help(t) => BaseCommandModel::Help(*t),
            BaseCommand::Version => BaseCommandModel::Version,
            BaseCommand::Role(c) => BaseCommandModel::Role(c@),
            BaseCommand::Channel(c) => BaseCommandModel::Channel(*c),
            BaseCommand::Schedule(c) => BaseCommandModel::Schedule(*c),
            BaseCommand::Modmail(ws) => BaseCommandModel::Modmail(crate::text::strings_view(ws@)),
        }
    }
}

/// The words of a rest argument of text.
pub open spec fn texts_of(vs: Seq<ValueModel>) -> Option<Seq<Seq<char>>> {
    if forall|i: int| 0 <= i < vs.len() ==> #[trigger] vs[i] is Text {
        Some(vs.map_values(|v: ValueModel| v->Text_0))
    } else {
        None
    }
}

/// The top-level command a value of the bot's top level is.
pub open spec fn base_command_of(m: CommandModel) -> Option<BaseCommandModel> {
    if m.id == 0 && m.sub is None {
        match help_of(m.args) {
            Some(t) => Some(BaseCommandModel::Help(t)),
            None => None,
        }
    } else if m.id == 1 && m.sub is None && m.args.len() == 0 {
        Some(BaseCommandModel::Version)
    } else if 2 <= m.id <= 4 && m.args.len() == 0 && m.sub is Some {
        let c = *m.sub->0;
        if m.id == 2 {
            match role_command_of(c) {
                Some(r) => Some(BaseCommandModel::Role(r)),
                None => None,
            }
        } else if m.id == 3 {
            match channel_command_of(c) {
                Some(r) => Some(BaseCommandModel::Channel(r)),
                None => None,
            }
        } else {
            match schedule_of(c) {
                Some(r) => Some(BaseCommandModel::Schedule(r)),
                None => None,
            }
        }
    } else if m.id == 5 && m.sub is None && m.args.len() == 1 {
        match m.args[0] {
            BindingModel::Many(vs) => match texts_of(vs) {
                Some(ws) => Some(BaseCommandModel::Modmail(ws)),
                None => None,
            },
            _ => None,
        }
    } else {
        None
    }
}

fn role_from_id(i: usize) -> (r: Option<Role>)
    ensures
        r == role_of(i),
{
    if i == 0 {
        Some(Role::Admin)
    } else if i == 1 {
        Some(Role::Mod)
    } else {
        None
    }
}

fn mode_from_id(i: usize) -> (r: Option<ChannelMode>)
    ensures
        r == mode_of(i),
{
    if i == 0 {
        Some(ChannelMode::Disabled)
    } else if i == 1 {
        Some(ChannelMode::Announcements)
    } else if i == 2 {
        Some(ChannelMode::Commands)
    } else {
        None
    }
}

fn read_help(args: &Vec<Binding>) -> (r: Option<Option<usize>>)
    ensures
        r == help_of(bindings_model(args@)),
{
    if args.len() != 1 {
        return None;
    }
    assert(bindings_model(args@)[0] == args@[0]@);
    match &args[0] {
        Binding::Maybe(None) => Some(None),
        Binding::Maybe(Some(ArgValue::Id(i))) => Some(Some(*i)),
        _ => None,
    }
}

fn read_show(args: &Vec<Binding>) -> (r: Option<Option<u64>>)
    ensures
        r == show_of(bindings_model(args@)),
{
    if args.len() != 1 {
        return None;
    }
    assert(bindings_model(args@)[0] == args@[0]@);
    match &args[0] {
        Binding::Maybe(None) => Some(None),
        Binding::Maybe(Some(ArgValue::Snowflake(u))) => Some(Some(*u)),
        _ => None,
    }
}

fn read_roles(vs: &Vec<ArgValue>) -> (r: Option<Vec<Role>>)
    ensures
        match r {
            Some(x) => roles_of(values_model(vs@)) == Some(x@),
            None => roles_of(values_model(vs@)) is None,
        },
{
    let ghost m = values_model(vs@);
    let mut out: Vec<Role> = Vec::new();
    let mut i: usize = 0;
    while i < vs.len()
        invariant
            m == values_model(vs@),
            i <= vs.len(),
            forall|x: int| 0 <= x < i ==> (#[trigger] m[x] matches ValueModel::Id(j) && role_of(j) is Some),
            out@ == m.subrange(0, i as int).map_values(|v: ValueModel| role_of(v->Id_0)->0),
        decreases vs.len() - i,
    {
        assert(m[i as int] == vs@[i as int]@);
        let role = match &vs[i] {
            ArgValue::Id(j) => role_from_id(*j),
            _ => None,
        };
        match role {
            Some(x) => {
                out.push(x);
            },
            None => {
                return None;
            },
        }
        i = i + 1;
        assert(out@ =~= m.subrange(0, i as int).map_values(|v: ValueModel| role_of(v->Id_0)->0));
    }
    assert(m.subrange(0, i as int) =~= m);
    Some(out)
}

fn read_user_roles(args: &Vec<Binding>) -> (r: Option<(u64, Vec<Role>)>)
    ensures
        match r {
            Some((u, rs)) => user_roles_of(bindings_model(args@)) == Some((u, rs@)),
            None => user_roles_of(bindings_model(args@)) is None,
        },
{
    if args.len() != 2 {
        return None;
    }
    assert(bindings_model(args@)[0] == args@[0]@);
    assert(bindings_model(args@)[1] == args@[1]@);
    match (&args[0], &args[1]) {
        (Binding::One(ArgValue::Snowflake(u)), Binding::Many(vs)) => match read_roles(vs) {
            Some(rs) => Some((*u, rs)),
            None => None,
        },
        _ => None,
    }
}

impl RoleCommand {
    /// Reads a value parsed at the `role` level, as `role_command_of` says.
    pub fn from_value(v: &CommandValue) -> (r: Option<RoleCommand>)
        ensures
            match r {
                Some(x) => role_command_of(command_model(*v)) == Some(x@),
                None => role_command_of(command_model(*v)) is None,
            },
    {
        if v.sub.is_some() {
            return None;
        }
        if v.id == 0 {
            match read_help(&v.args) {
                Some(t) => Some(RoleCommand::Help(t)),
                None => None,
            }
        } else if v.id == 1 {
            if v.args.len() == 0 {
                Some(RoleCommand::List)
            } else {
                None
            }
        } else if v.id == 2 {
            match read_show(&v.args) {
                Some(u) => Some(RoleCommand::Show(u)),
                None => None,
            }
        } else if v.id == 3 {
            match read_user_roles(&v.args) {
                Some((u, rs)) => Some(RoleCommand::Add(u, rs)),
                None => None,
            }
        } else if v.id == 4 {
            match read_user_roles(&v.args) {
                Some((u, rs)) => Some(RoleCommand::Remove(u, rs)),
                None => None,
            }
        } else {
            None
        }
    }
}

impl ChannelCommand {
    /// Reads a value parsed at the `channel` level, as `channel_command_of` says.
    pub fn from_value(v: &CommandValue) -> (r: Option<ChannelCommand>)
        ensures
            r == channel_command_of(command_model(*v)),
    {
        if v.sub.is_some() {
            return None;
        }
        let ghost args = bindings_model(v.args@);
        if v.id == 0 {
            match read_help(&v.args) {
                Some(t) => Some(ChannelCommand::Help(t)),
                None => None,
            }
        } else if v.id == 1 {
            if v.args.len() == 0 {
                Some(ChannelCommand::List)
            } else {
                None
            }
        } else if v.id == 2 {
            match read_show(&v.args) {
                Some(u) => Some(ChannelCommand::Show(u)),
                None => None,
            }
        } else if v.id == 3 && v.args.len() == 1 {
            assert(args[0] == v.args@[0]@);
            match &v.args[0] {
                Binding::One(ArgValue::Id(i)) => match mode_from_id(*i) {
                    Some(md) => Some(ChannelCommand::Default(md)),
                    None => None,
                },
                _ => None,
            }
        } else if v.id == 4 && v.args.len() == 2 {
            assert(args[0] == v.args@[0]@);
            assert(args[1] == v.args@[1]@);
            match (&v.args[0], &v.args[1]) {
                (Binding::One(ArgValue::Snowflake(u)), Binding::One(ArgValue::Id(i))) => match mode_from_id(*i) {
                    Some(md) => Some(ChannelCommand::Mark(*u, md)),
                    None => None,
                },
                _ => None,
            }
        } else if v.id == 5 && v.args.len() == 1 {
            assert(args[0] == v.args@[0]@);
            match &v.args[0] {
                Binding::One(ArgValue::Snowflake(u)) => Some(ChannelCommand::Unmark(*u)),
                _ => None,
            }
        } else {
            None
        }
    }
}

fn read_texts(vs: &Vec<ArgValue>) -> (r: Option<Vec<String>>)
    ensures
        match r {
            Some(x) => texts_of(values_model(vs@)) == Some(crate::text::strings_view(x@)),
            None => texts_of(values_model(vs@)) is None,
        },
{
    let ghost m = values_model(vs@);
    let mut out: Vec<String> = Vec::new();
    let mut i: usize = 0;
    while i < vs.len()
        invariant
            m == values_model(vs@),
            i <= vs.len(),
            forall|x: int| 0 <= x < i ==> #[trigger] m[x] is Text,
            crate::text::strings_view(out@) == m.subrange(0, i as int).map_values(|v: ValueModel| v->Text_0),
        decreases vs.len() - i,
    {
        assert(m[i as int] == vs@[i as int]@);
        match &vs[i] {
            ArgValue::Text(t) => {
                let ghost before = out@;
                let w = t.clone();
                out.push(w);
                proof {
                    crate::text::lemma_strings_push(before, w);
                }
            },
            _ => {
                return None;
            },
        }
        i = i + 1;
        assert(crate::text::strings_view(out@) =~= m.subrange(0, i as int).map_values(|v: ValueModel| v->Text_0));
    }
    assert(m.subrange(0, i as int) =~= m);
    Some(out)
}

impl BaseCommand {
    /// Reads a value parsed at the bot's top level, as `base_command_of` says.
    pub fn from_value(v: &CommandValue) -> (r: Option<BaseCommand>)
        ensures
            match r {
                Some(x) => base_command_of(command_model(*v)) == Some(x@),
                None => base_command_of(command_model(*v)) is None,
            },
    {
        let ghost m = command_model(*v);
        if v.id == 0 && v.sub.is_none() {
            match read_help(&v.args) {
                Some(t) => Some(BaseCommand::Help(t)),
                None => None,
            }
        } else if v.id == 1 && v.sub.is_none() && v.args.len() == 0 {
            Some(BaseCommand::Version)
        } else if 2 <= v.id && v.id <= 4 && v.args.len() == 0 && v.sub.is_some() {
            match &v.sub {
                Some(b) => {
                    assert(m.sub == Some(Box::new(command_model(**b))));
                    if v.id == 2 {
                        match RoleCommand::from_value(&**b) {
                            Some(c) => Some(BaseCommand::Role(c)),
                            None => None,
                        }
                    } else if v.id == 3 {
                        match ChannelCommand::from_value(&**b) {
                            Some(c) => Some(BaseCommand::Channel(c)),
                            None => None,
                        }
                    } else {
                        match ScheduleCommand::from_value(&**b) {
                            Some(c) => Some(BaseCommand::Schedule(c)),
                            None => None,
                        }
                    }
                },
                None => None,
            }
        } else if v.id == 5 && v.sub.is_none() && v.args.len() == 1 {
            assert(m.args[0] == v.args@[0]@);
            match &v.args[0] {
                Binding::Many(vs) => match read_texts(vs) {
                    Some(ws) => Some(BaseCommand::Modmail(ws)),
                    None => None,
                },
                _ => None,
            }
        } else {
            None
        }
    }
}

} // verus!
