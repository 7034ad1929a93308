use vstd::prelude::*;
use crate::grammar::{ArgKind, ArgMode, ArgSpec, GrammarSet, arg_ok, kind_level};
use crate::text::strings_view;
use crate::snowflake::{parse_snowflake, snowflake_spec};
use crate::trie::{IdErrorModel, IdParseError};

verus! {

/// The value of one converted token.
#[derive(Clone, Debug, PartialEq, Eq)]
pub enum ArgValue {
    /// A text argument: the token itself.
    Text(String),
    /// An id argument: the command id the token resolved to.
    Id(usize),
    /// A user or channel id.
    Snowflake(u64),
}

/// Why a token did not convert.
#[derive(Clone, Debug, PartialEq, Eq)]
pub enum ConvertError {
    /// The token does not resolve to a command id of the argument's level.
    Id(IdParseError),
    /// The token is not a user or channel id.
    NotASnowflake(String),
}

pub enum ConvertErrorModel {
    Id(IdErrorModel),
    NotASnowflake(Seq<char>),
}

impl View for ConvertError {
    type V = ConvertErrorModel;

    open spec fn view(&self) -> ConvertErrorModel {
        match self {
            ConvertError::Id(e) => ConvertErrorModel::Id(e@),
            ConvertError::NotASnowflake(t) => ConvertErrorModel::NotASnowflake(t@),
        }
    }
}

/// What one declared argument bound to.
#[derive(Clone, Debug, PartialEq, Eq)]
pub enum Binding {
    /// A required argument.
    One(ArgValue),
    /// An optional argument, absent when no token was left.
    Maybe(Option<ArgValue>),
    /// A rest argument (not a subcommand): every remaining token.
    Many(Vec<ArgValue>),
}

/// A parsed command: its id, one binding per declared argument before any
/// subcommand, and the parsed subcommand when its syntax ends in one.
#[derive(Debug, PartialEq, Eq)]
pub struct CommandValue {
    pub id: usize,
    pub args: Vec<Binding>,
    pub sub: Option<Box<CommandValue>>,
}

/// Why a token sequence did not parse as a command.
#[derive(Debug, PartialEq, Eq)]
pub enum CommandParseError {
    /// There were no tokens.
    NoInput,
    /// The first token did not resolve to a command.
    BadId(IdParseError),
    /// The named required argument (or required rest argument) had no token.
    MissingRequired(String),
    /// A token of the named argument did not convert; the cause is kept.
    BadConvert(String, ConvertError),
    /// A token was left over after every argument was bound.
    Trailing(String),
    /// The subcommand failed to parse.
    Subcommand(Box<CommandParseError>),
}

pub enum ValueModel {
    Text(Seq<char>),
    Id(usize),
    Snowflake(u64),
}

pub enum BindingModel {
    One(ValueModel),
    Maybe(Option<ValueModel>),
    Many(Seq<ValueModel>),
}

pub struct CommandModel {
    pub id: usize,
    pub args: Seq<BindingModel>,
    pub sub: Option<Box<CommandModel>>,
}

pub enum ParseErrorModel {
    NoInput,
    BadId(IdErrorModel),
    MissingRequired(Seq<char>),
    BadConvert(Seq<char>, ConvertErrorModel),
    Trailing(Seq<char>),
    Subcommand(Box<ParseErrorModel>),
}

impl View for ArgValue {
    type V = ValueModel;

    open spec fn view(&self) -> ValueModel {
        match self {
            ArgValue::Text(s) => ValueModel::Text(s@),
            ArgValue::Id(i) => ValueModel::Id(*i),
            ArgValue::Snowflake(i) => ValueModel::Snowflake(*i),
        }
    }
}

pub open spec fn values_model(v: Seq<ArgValue>) -> Seq<ValueModel> {
    v.map_values(|x: ArgValue| x@)
}

impl View for Binding {
    type V = BindingModel;

    open spec fn view(&self) -> BindingModel {
        match self {
            Binding::One(v) => BindingModel::One(v@),
            Binding::Maybe(o) => BindingModel::Maybe(
                match o {
                    Some(v) => Some(v@),
                    None => None,
                },
            ),
            Binding::Many(vs) => BindingModel::Many(values_model(vs@)),
        }
    }
}

pub open spec fn bindings_model(v: Seq<Binding>) -> Seq<BindingModel> {
    v.map_values(|b: Binding| b@)
}

pub open spec fn command_model(c: CommandValue) -> CommandModel
    decreases c,
{
    CommandModel {
        id: c.id,
        args: bindings_model(c.args@),
        sub: match c.sub {
            Some(b) => Some(Box::new(command_model(*b))),
            None => None,
        },
    }
}

pub open spec fn error_model(e: CommandParseError) -> ParseErrorModel
    decreases e,
{
    match e {
        CommandParseError::NoInput => ParseErrorModel::NoInput,
        CommandParseError::BadId(i) => ParseErrorModel::BadId(i@),
        CommandParseError::MissingRequired(n) => ParseErrorModel::MissingRequired(n@),
        CommandParseError::BadConvert(n, i) => ParseErrorModel::BadConvert(n@, i@),
        CommandParseError::Trailing(t) => ParseErrorModel::Trailing(t@),
        CommandParseError::Subcommand(b) => ParseErrorModel::Subcommand(Box::new(error_model(*b))),
    }
}

pub open spec fn result_model(r: Result<CommandValue, CommandParseError>) -> Result<
    CommandModel,
    ParseErrorModel,
> {
    match r {
        Ok(c) => Ok(command_model(c)),
        Err(e) => Err(error_model(e)),
    }
}

/// What token `tok` of an argument of kind `kind` converts to.
pub open spec fn convert_spec(set: GrammarSet, kind: ArgKind, tok: Seq<char>) -> Result<
    ValueModel,
    ConvertErrorModel,
> {
    match kind {
        ArgKind::Id(l) => match set.levels()[l as int].resolve_view(tok) {
            Ok(i) => Ok(ValueModel::Id(i)),
            Err(e) => Err(ConvertErrorModel::Id(e)),
        },
        ArgKind::Snowflake => match snowflake_spec(tok) {
            Some(v) => Ok(ValueModel::Snowflake(v)),
            None => Err(ConvertErrorModel::NotASnowflake(tok)),
        },
        _ => Ok(ValueModel::Text(tok)),
    }
}

/// The tokens from `pos` on converted for rest argument `a`, after `acc`; the
/// first that fails to convert gives `BadConvert`.
pub open spec fn collect_spec(
    set: GrammarSet,
    a: ArgSpec,
    toks: Seq<Seq<char>>,
    pos: int,
    acc: Seq<ValueModel>,
) -> Result<Seq<ValueModel>, ParseErrorModel>
    decreases toks.len() - pos,
{
    if pos >= toks.len() || pos < 0 {
        Ok(acc)
    } else {
        match convert_spec(set, a.kind, toks[pos]) {
            Err(e) => Err(ParseErrorModel::BadConvert(a.name@, e)),
            Ok(v) => collect_spec(set, a, toks, pos + 1, acc.push(v)),
        }
    }
}

/// The number of tokens left from `pos` on.
pub open spec fn left(toks: Seq<Seq<char>>, pos: int) -> int {
    if 0 <= pos <= toks.len() {
        toks.len() - pos
    } else {
        0
    }
}

/// Parsing the tokens from `pos` on as a command of level `l`: the first token
/// names the command, the rest are bound to its arguments.
pub open spec fn parse_spec(set: GrammarSet, l: int, toks: Seq<Seq<char>>, pos: int) -> Result<
    CommandModel,
    ParseErrorModel,
>
    decreases 2 * left(toks, pos), 0int,
{
    if pos >= toks.len() || pos < 0 {
        Err(ParseErrorModel::NoInput)
    } else {
        match set.levels()[l].resolve_view(toks[pos]) {
            Err(e) => Err(ParseErrorModel::BadId(e)),
            Ok(id) => bind_spec(set, l, id, 0, toks, pos + 1, Seq::empty()),
        }
    }
}

/// Binding arguments `k..` of command `id` of level `l` to the tokens from
/// `pos` on, after the bindings `acc` of the earlier arguments.
pub open spec fn bind_spec(
    set: GrammarSet,
    l: int,
    id: usize,
    k: int,
    toks: Seq<Seq<char>>,
    pos: int,
    acc: Seq<BindingModel>,
) -> Result<CommandModel, ParseErrorModel>
    decreases 2 * left(toks, pos) + 1, set.levels()[l].commands()[id as int].args.len() - k,
{
    let args = set.levels()[l].commands()[id as int].args@;
    if k >= args.len() || k < 0 || pos < 0 || pos > toks.len() {
        if 0 <= pos < toks.len() {
            Err(ParseErrorModel::Trailing(toks[pos]))
        } else {
            Ok(CommandModel { id, args: acc, sub: None })
        }
    } else {
        let a = args[k];
        match a.mode {
            ArgMode::Required => if pos >= toks.len() {
                Err(ParseErrorModel::MissingRequired(a.name@))
            } else {
                match convert_spec(set, a.kind, toks[pos]) {
                    Err(e) => Err(ParseErrorModel::BadConvert(a.name@, e)),
                    Ok(v) => bind_spec(set, l, id, k + 1, toks, pos + 1, acc.push(BindingModel::One(v))),
                }
            },
            ArgMode::Optional => if pos >= toks.len() {
                bind_spec(set, l, id, k + 1, toks, pos, acc.push(BindingModel::Maybe(None)))
            } else {
                match convert_spec(set, a.kind, toks[pos]) {
                    Err(e) => Err(ParseErrorModel::BadConvert(a.name@, e)),
                    Ok(v) => bind_spec(
                        set,
                        l,
                        id,
                        k + 1,
                        toks,
                        pos + 1,
                        acc.push(BindingModel::Maybe(Some(v))),
                    ),
                }
            },
            _ => if a.mode is RestRequired && pos >= toks.len() {
                Err(ParseErrorModel::MissingRequired(a.name@))
            } else {
                match a.kind {
                    ArgKind::Subcommand(j) => match parse_spec(set, j as int, toks, pos) {
                        Err(e) => Err(ParseErrorModel::Subcommand(Box::new(e))),
                        Ok(c) => Ok(CommandModel { id, args: acc, sub: Some(Box::new(c)) }),
                    },
                    _ => match collect_spec(set, a, toks, pos, Seq::empty()) {
                        Err(e) => Err(e),
                        Ok(vs) => bind_spec(
                            set,
                            l,
                            id,
                            k + 1,
                            toks,
                            toks.len() as int,
                            acc.push(BindingModel::Many(vs)),
                        ),
                    },
                }
            },
        }
    }
}

impl CommandValue {
    /// The id of the command this value is (not of its subcommand).
    pub fn id(&self) -> (r: usize)
        ensures
            r == self.id,
    {
        self.id
    }
}

/// Argument `k` of command `id` of level `l` is well formed in `set`.
proof fn lemma_arg_ok(set: GrammarSet, l: int, id: int, k: int)
    requires
        set.wf(),
        0 <= l < set.levels().len(),
        0 <= id < set.levels()[l].commands().len(),
        0 <= k < set.levels()[l].commands()[id].args.len(),
    ensures
        arg_ok(set.levels()[l].commands()[id].args@, k, set.levels().len() as int),
{
    set.lemma_level_wf(l);
    let c = set.levels()[l].commands()[id];
    assert(crate::grammar::command_ok(c, set.levels().len() as int));
}

impl GrammarSet {
    fn convert(&self, kind: ArgKind, tok: &String) -> (r: Result<ArgValue, ConvertError>)
        requires
            self.wf(),
            kind_level(kind) matches Some(j) ==> j < self.levels().len(),
        ensures
            match r {
                Ok(v) => convert_spec(*self, kind, tok@) == Ok::<ValueModel, ConvertErrorModel>(v@),
                Err(e) => convert_spec(*self, kind, tok@) == Err::<ValueModel, ConvertErrorModel>(e@),
            },
    {
        match kind {
            ArgKind::Id(j) => {
                proof {
                    self.lemma_level_wf(j as int);
                }
                match self.level(j).resolve_id(tok.as_str()) {
                    Ok(i) => Ok(ArgValue::Id(i)),
                    Err(e) => Err(ConvertError::Id(e)),
                }
            },
            ArgKind::Snowflake => match parse_snowflake(tok.as_str()) {
                Some(v) => Ok(ArgValue::Snowflake(v)),
                None => Err(ConvertError::NotASnowflake(tok.clone())),
            },
            _ => Ok(ArgValue::Text(tok.clone())),
        }
    }

    fn collect(&self, a: &ArgSpec, tokens: &Vec<String>, pos: usize) -> (r: Result<
        Vec<ArgValue>,
        CommandParseError,
    >)
        requires
            self.wf(),
            kind_level(a.kind) matches Some(j) ==> j < self.levels().len(),
            pos <= tokens.len(),
        ensures
            match r {
                Ok(vs) => collect_spec(*self, *a, strings_view(tokens@), pos as int, Seq::empty())
                    == Ok::<Seq<ValueModel>, ParseErrorModel>(values_model(vs@)),
                Err(e) => collect_spec(*self, *a, strings_view(tokens@), pos as int, Seq::empty())
                    == Err::<Seq<ValueModel>, ParseErrorModel>(error_model(e)),
            },
    {
        let ghost toks = strings_view(tokens@);
        let mut out: Vec<ArgValue> = Vec::new();
        let mut p = pos;
        proof {
            assert(values_model(out@) =~= Seq::<ValueModel>::empty());
        }
        while p < tokens.len()
            invariant
                self.wf(),
                kind_level(a.kind) matches Some(j) ==> j < self.levels().len(),
                toks == strings_view(tokens@),
                pos <= p <= tokens.len(),
                collect_spec(*self, *a, toks, pos as int, Seq::empty()) == collect_spec(
                    *self,
                    *a,
                    toks,
                    p as int,
                    values_model(out@),
                ),
            decreases tokens.len() - p,
        {
            match self.convert(a.kind, &tokens[p]) {
                Ok(v) => {
                    proof {
                        assert(values_model(out@.push(v)) =~= values_model(out@).push(v@));
                    }
                    out.push(v);
                },
                Err(e) => {
                    return Err(CommandParseError::BadConvert(a.name.clone(), e));
                },
            }
            p = p + 1;
        }
        Ok(out)
    }

    /// Parses the tokens from `pos` on as a command of level `level`.
    fn parse_at(&self, level: usize, tokens: &Vec<String>, pos: usize) -> (r: Result<
        CommandValue,
        CommandParseError,
    >)
        requires
            self.wf(),
            level < self.levels().len(),
            pos <= tokens.len(),
        ensures
            result_model(r) == parse_spec(*self, level as int, strings_view(tokens@), pos as int),
        decreases 2 * (tokens.len() - pos),
    {
        if pos >= tokens.len() {
            return Err(CommandParseError::NoInput);
        }
        proof {
            self.lemma_level_wf(level as int);
        }
        match self.level(level).resolve_id(tokens[pos].as_str()) {
            Err(e) => Err(CommandParseError::BadId(e)),
            Ok(id) => self.bind(level, id, tokens, pos + 1),
        }
    }

    /// Binds the tokens from `pos` on to the arguments of command `id` of
    /// level `level`.
    fn bind(&self, level: usize, id: usize, tokens: &Vec<String>, pos: usize) -> (r: Result<
        CommandValue,
        CommandParseError,
    >)
        requires
            self.wf(),
            level < self.levels().len(),
            id < self.levels()[level as int].commands().len(),
            pos <= tokens.len(),
        ensures
            result_model(r) == bind_spec(
                *self,
                level as int,
                id,
                0,
                strings_view(tokens@),
                pos as int,
                Seq::empty(),
            ),
        decreases 2 * (tokens.len() - pos) + 1,
    {
        let ghost toks = strings_view(tokens@);
        let cmd = self.level(level).command(id);
        let args = &cmd.args;
        let mut out: Vec<Binding> = Vec::new();
        let mut p = pos;
        let mut k: usize = 0;
        proof {
            assert(bindings_model(out@) =~= Seq::<BindingModel>::empty());
        }
        while k < args.len()
            invariant
                self.wf(),
                level < self.levels().len(),
                id < self.levels()[level as int].commands().len(),
                args@ == self.levels()[level as int].commands()[id as int].args@,
                toks == strings_view(tokens@),
                pos <= p <= tokens.len(),
                k <= args.len(),
                bind_spec(*self, level as int, id, 0, toks, pos as int, Seq::empty()) == bind_spec(
                    *self,
                    level as int,
                    id,
                    k as int,
                    toks,
                    p as int,
                    bindings_model(out@),
                ),
            decreases args.len() - k,
        {
            let a = &args[k];
            proof {
                lemma_arg_ok(*self, level as int, id as int, k as int);
            }
            match a.mode {
                ArgMode::Required => {
                    if p >= tokens.len() {
                        return Err(CommandParseError::MissingRequired(a.name.clone()));
                    }
                    match self.convert(a.kind, &tokens[p]) {
                        Ok(v) => {
                            let b = Binding::One(v);
                            proof {
                                assert(bindings_model(out@.push(b)) =~= bindings_model(out@).push(b@));
                            }
                            out.push(b);
                            p = p + 1;
                        },
                        Err(e) => {
                            return Err(CommandParseError::BadConvert(a.name.clone(), e));
                        },
                    }
                },
                ArgMode::Optional => {
                    if p >= tokens.len() {
                        let b = Binding::Maybe(None);
                        proof {
                            assert(bindings_model(out@.push(b)) =~= bindings_model(out@).push(b@));
                        }
                        out.push(b);
                    } else {
                        match self.convert(a.kind, &tokens[p]) {
                            Ok(v) => {
                                let b = Binding::Maybe(Some(v));
                                proof {
                                    assert(bindings_model(out@.push(b)) =~= bindings_model(
                                        out@,
                                    ).push(b@));
                                }
                                out.push(b);
                                p = p + 1;
                            },
                            Err(e) => {
                                return Err(CommandParseError::BadConvert(a.name.clone(), e));
                            },
                        }
                    }
                },
                _ => {
                    let required = match a.mode {
                        ArgMode::RestRequired => true,
                        _ => false,
                    };
                    if required && p >= tokens.len() {
                        return Err(CommandParseError::MissingRequired(a.name.clone()));
                    }
                    match a.kind {
                        ArgKind::Subcommand(j) => {
                            return match self.parse_at(j, tokens, p) {
                                Ok(c) => Ok(CommandValue { id, args: out, sub: Some(Box::new(c)) }),
                                Err(e) => Err(CommandParseError::Subcommand(Box::new(e))),
                            };
                        },
                        _ => {
                            match self.collect(a, tokens, p) {
                                Ok(vs) => {
                                    let b = Binding::Many(vs);
                                    proof {
                                        assert(bindings_model(out@.push(b)) =~= bindings_model(
                                            out@,
                                        ).push(b@));
                                    }
                                    out.push(b);
                                    p = tokens.len();
                                },
                                Err(e) => {
                                    return Err(e);
                                },
                            }
                        },
                    }
                },
            }
            k = k + 1;
        }
        if p < tokens.len() {
            return Err(CommandParseError::Trailing(tokens[p].clone()));
        }
        Ok(CommandValue { id, args: out, sub: None })
    }

    /// Parses a token sequence as a command of level `level`: the first token
    /// names the command (possibly abbreviated), the rest bind to its arguments
    /// in declared order. The outcome is exactly `parse_spec` of the tokens.
    pub fn parse(&self, level: usize, tokens: &Vec<String>) -> (r: Result<
        CommandValue,
        CommandParseError,
    >)
        requires
            self.wf(),
            level < self.levels().len(),
        ensures
            result_model(r) == parse_spec(*self, level as int, strings_view(tokens@), 0),
    {
        self.parse_at(level, tokens, 0)
    }
}

} // verus!
