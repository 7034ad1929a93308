use vstd::prelude::*;
use crate::text::strings_view;
use crate::trie::{Trie, resolve_spec};

verus! {

/// How many tokens an argument takes.
#[derive(Clone, Copy, Debug, PartialEq, Eq, Structural)]
pub enum ArgMode {
    /// Exactly one token.
    Required,
    /// One token if any is left.
    Optional,
    /// All remaining tokens, possibly none.
    RestOptional,
    /// All remaining tokens, at least one.
    RestRequired,
}

/// What an argument's tokens become.
#[derive(Clone, Copy, Debug, PartialEq, Eq, Structural)]
pub enum ArgKind {
    /// The token itself.
    Text,
    /// A command id of the given grammar level, resolved from the token.
    Id(usize),
    /// A user or channel id, read from the token as `snowflake_spec` says.
    Snowflake,
    /// The remaining tokens, parsed as a command of the given grammar level.
    Subcommand(usize),
}

/// One declared argument of a command.
#[derive(Clone, Debug, PartialEq, Eq)]
pub struct ArgSpec {
    pub name: String,
    pub mode: ArgMode,
    pub kind: ArgKind,
}

/// One command of a grammar level: its aliases (the first is canonical) and
/// its arguments in order.
#[derive(Clone, Debug, PartialEq, Eq)]
pub struct CommandDef {
    pub ids: Vec<String>,
    pub args: Vec<ArgSpec>,
}

/// The trailing variadic argument of a usage line.
#[derive(Clone, Debug, PartialEq, Eq)]
pub enum RestArg {
    Absent,
    Optional(String),
    Required(String),
}

/// The argument names of a command as its usage line declares them.
#[derive(Clone, Debug, PartialEq, Eq)]
pub struct CommandSyntax {
    pub required: Vec<String>,
    pub optional: Vec<String>,
    pub rest: RestArg,
}

/// A malformed grammar definition, found when the grammar is built.
#[derive(Clone, Debug, PartialEq, Eq)]
pub enum GrammarError {
    /// The command (level, command) declares no alias.
    EmptyAliases(usize, usize),
    /// The command (level, command) declares an empty alias.
    EmptyAlias(usize, usize),
    /// The named argument comes after an argument of a later cardinality,
    /// or after a rest argument.
    BadOrder(String),
    /// The named argument is a subcommand but not a rest argument.
    MisplacedSubcommand(String),
    /// The named argument refers to a grammar level that does not exist.
    UnknownLevel(String),
    /// The alias is declared twice within one grammar level.
    DuplicateAlias(String),
    /// The number of argument kinds differs from the number of declared names.
    MismatchedFields,
}

/// Position of a cardinality in the declared order: required, optional, rest.
pub open spec fn rank(m: ArgMode) -> int {
    match m {
        ArgMode::Required => 0,
        ArgMode::Optional => 1,
        _ => 2,
    }
}

pub open spec fn is_rest(m: ArgMode) -> bool {
    m is RestOptional || m is RestRequired
}

/// The grammar level an argument kind refers to, if any.
pub open spec fn kind_level(k: ArgKind) -> Option<usize> {
    match k {
        ArgKind::Text => None,
        ArgKind::Snowflake => None,
        ArgKind::Id(l) => Some(l),
        ArgKind::Subcommand(l) => Some(l),
    }
}

/// Argument `i` breaks the declared order: it follows a rest argument or an
/// argument of a later cardinality.
pub open spec fn order_broken_at(args: Seq<ArgSpec>, i: int) -> bool {
    0 < i && (rank(args[i - 1].mode) > rank(args[i].mode) || is_rest(args[i - 1].mode))
}

/// Argument `i` is a subcommand that is not a rest argument.
pub open spec fn subcommand_misplaced_at(args: Seq<ArgSpec>, i: int) -> bool {
    args[i].kind is Subcommand && !is_rest(args[i].mode)
}

/// Argument `i` refers to a level outside `0..levels`.
pub open spec fn level_unknown_at(args: Seq<ArgSpec>, i: int, levels: int) -> bool {
    kind_level(args[i].kind) matches Some(l) && l >= levels
}

/// A well-formed argument list: required arguments, then optional ones, then at
/// most one rest argument, which is last; subcommands only as rest arguments;
/// level references within `0..levels`.
pub open spec fn syntax_ok(args: Seq<ArgSpec>, levels: int) -> bool {
    forall|i: int| 0 <= i < args.len() ==> #[trigger] arg_ok(args, i, levels)
}

/// Argument `i` is in order, placed as its kind allows, and refers to a known level.
pub open spec fn arg_ok(args: Seq<ArgSpec>, i: int, levels: int) -> bool {
    !order_broken_at(args, i) && !subcommand_misplaced_at(args, i) && !level_unknown_at(
        args,
        i,
        levels,
    )
}

/// A well-formed command: at least one alias, none empty, and a well-formed
/// argument list.
pub open spec fn command_ok(c: CommandDef, levels: int) -> bool {
    &&& c.ids.len() > 0
    &&& forall|j: int| 0 <= j < c.ids.len() ==> (#[trigger] c.ids@[j])@.len() > 0
    &&& syntax_ok(c.args@, levels)
}

/// The aliases of the first `n` commands, command by command, in declared order.
pub open spec fn flat_aliases(cmds: Seq<CommandDef>, n: int) -> Seq<Seq<char>>
    decreases n,
{
    if n <= 0 {
        Seq::empty()
    } else {
        flat_aliases(cmds, n - 1) + strings_view(cmds[n - 1].ids@)
    }
}

/// For each alias of `flat_aliases(cmds, n)`, the index of its command.
pub open spec fn flat_ids(cmds: Seq<CommandDef>, n: int) -> Seq<usize>
    decreases n,
{
    if n <= 0 {
        Seq::empty()
    } else {
        flat_ids(cmds, n - 1) + Seq::new(cmds[n - 1].ids@.len(), |j: int| (n - 1) as usize)
    }
}

/// Every alias of a level, in declared order.
pub open spec fn level_aliases(cmds: Seq<CommandDef>) -> Seq<Seq<char>> {
    flat_aliases(cmds, cmds.len() as int)
}

/// A well-formed grammar level among `levels` levels.
pub open spec fn level_ok(cmds: Seq<CommandDef>, levels: int) -> bool {
    &&& forall|c: int| 0 <= c < cmds.len() ==> command_ok(#[trigger] cmds[c], levels)
    &&& Trie::keys_distinct(level_aliases(cmds))
}

/// One grammar level: its commands and the trie over their aliases. A command
/// id is the command's index.
pub struct Grammar {
    commands: Vec<CommandDef>,
    trie: Trie,
}

impl Grammar {
    pub closed spec fn commands(&self) -> Seq<CommandDef> {
        self.commands@
    }

    /// Every alias of the level, in declared order.
    pub closed spec fn keys(&self) -> Seq<Seq<char>> {
        self.trie.keys()
    }

    /// The command id each alias of `keys` names.
    pub closed spec fn key_ids(&self) -> Seq<usize> {
        self.trie.id_seq()
    }

    /// What resolving `s` against this level yields.
    pub open spec fn resolve_view(&self, s: Seq<char>) -> Result<usize, crate::trie::IdErrorModel> {
        resolve_spec(self.keys(), self.key_ids(), s)
    }

    /// The trie holds exactly the declared aliases, each naming its command.
    pub closed spec fn wf(&self) -> bool {
        &&& self.trie.wf()
        &&& self.trie.keys() == level_aliases(self.commands@)
        &&& self.trie.id_seq() == flat_ids(self.commands@, self.commands@.len() as int)
    }
}

/// The mathematical content of a `GrammarError`.
pub enum GrammarErrorModel {
    EmptyAliases(usize, usize),
    EmptyAlias(usize, usize),
    BadOrder(Seq<char>),
    MisplacedSubcommand(Seq<char>),
    UnknownLevel(Seq<char>),
    DuplicateAlias(Seq<char>),
    MismatchedFields,
}

impl View for GrammarError {
    type V = GrammarErrorModel;

    open spec fn view(&self) -> GrammarErrorModel {
        match self {
            GrammarError::EmptyAliases(l, c) => GrammarErrorModel::EmptyAliases(*l, *c),
            GrammarError::EmptyAlias(l, c) => GrammarErrorModel::EmptyAlias(*l, *c),
            GrammarError::BadOrder(n) => GrammarErrorModel::BadOrder(n@),
            GrammarError::MisplacedSubcommand(n) => GrammarErrorModel::MisplacedSubcommand(n@),
            GrammarError::UnknownLevel(n) => GrammarErrorModel::UnknownLevel(n@),
            GrammarError::DuplicateAlias(a) => GrammarErrorModel::DuplicateAlias(a@),
            GrammarError::MismatchedFields => GrammarErrorModel::MismatchedFields,
        }
    }
}

/// The defect of argument `i`, checked in this order: its place in the
/// declared order, a subcommand that is not a rest argument, an unknown level.
pub open spec fn arg_defect(args: Seq<ArgSpec>, i: int, levels: int) -> Option<GrammarErrorModel> {
    if order_broken_at(args, i) {
        Some(GrammarErrorModel::BadOrder(args[i].name@))
    } else if subcommand_misplaced_at(args, i) {
        Some(GrammarErrorModel::MisplacedSubcommand(args[i].name@))
    } else if level_unknown_at(args, i, levels) {
        Some(GrammarErrorModel::UnknownLevel(args[i].name@))
    } else {
        None
    }
}

/// The first defect among arguments `i..`.
pub open spec fn args_defect(args: Seq<ArgSpec>, i: int, levels: int) -> Option<GrammarErrorModel>
    decreases args.len() - i,
{
    if i < 0 || i >= args.len() {
        None
    } else {
        match arg_defect(args, i, levels) {
            Some(e) => Some(e),
            None => args_defect(args, i + 1, levels),
        }
    }
}

/// The first defect of command `cmd` of level `level`: no alias, an empty
/// alias, then its arguments in order.
pub open spec fn command_defect(c: CommandDef, level: usize, cmd: usize, levels: int) -> Option<
    GrammarErrorModel,
> {
    if c.ids.len() == 0 {
        Some(GrammarErrorModel::EmptyAliases(level, cmd))
    } else if exists|j: int| 0 <= j < c.ids.len() && (#[trigger] c.ids@[j])@.len() == 0 {
        Some(GrammarErrorModel::EmptyAlias(level, cmd))
    } else {
        args_defect(c.args@, 0, levels)
    }
}

/// The first defect among commands `c..` of level `level`.
pub open spec fn commands_defect(cmds: Seq<CommandDef>, c: int, level: usize, levels: int) -> Option<
    GrammarErrorModel,
>
    decreases cmds.len() - c,
{
    if c < 0 || c >= cmds.len() {
        None
    } else {
        match command_defect(cmds[c], level, c as usize, levels) {
            Some(e) => Some(e),
            None => commands_defect(cmds, c + 1, level, levels),
        }
    }
}

/// The first alias, from index `b` on, that repeats an earlier one.
pub open spec fn duplicate_defect(keys: Seq<Seq<char>>, b: int) -> Option<GrammarErrorModel>
    decreases keys.len() - b,
{
    if b < 0 || b >= keys.len() {
        None
    } else if keys.subrange(0, b).contains(keys[b]) {
        Some(GrammarErrorModel::DuplicateAlias(keys[b]))
    } else {
        duplicate_defect(keys, b + 1)
    }
}

/// The defect a level is reported with: the first defective command, else the
/// first repeated alias.
pub open spec fn level_defect(cmds: Seq<CommandDef>, level: usize, levels: int) -> Option<
    GrammarErrorModel,
> {
    match commands_defect(cmds, 0, level, levels) {
        Some(e) => Some(e),
        None => duplicate_defect(level_aliases(cmds), 0),
    }
}

/// Checks one command definition: its aliases, then its arguments in order.
fn check_command(def: &CommandDef, level: usize, cmd: usize, levels: usize) -> (r: Result<
    (),
    GrammarError,
>)
    ensures
        r is Ok <==> command_ok(*def, levels as int),
        r is Ok ==> command_defect(*def, level, cmd, levels as int) is None,
        r matches Err(e) ==> command_defect(*def, level, cmd, levels as int) == Some(e@),
{
    if def.ids.len() == 0 {
        return Err(GrammarError::EmptyAliases(level, cmd));
    }
    let mut j: usize = 0;
    while j < def.ids.len()
        invariant
            j <= def.ids.len(),
            forall|x: int| 0 <= x < j ==> (#[trigger] def.ids@[x])@.len() > 0,
        decreases def.ids.len() - j,
    {
        if def.ids[j].as_str().is_empty() {
            proof {
                assert(def.ids@[j as int]@.len() == 0);
            }
            return Err(GrammarError::EmptyAlias(level, cmd));
        }
        assert(def.ids@[j as int]@.len() > 0);
        j = j + 1;
    }
    let args = &def.args;
    let mut i: usize = 0;
    while i < args.len()
        invariant
            args == &def.args,
            i <= args.len(),
            def.ids.len() > 0,
            forall|x: int| 0 <= x < def.ids.len() ==> (#[trigger] def.ids@[x])@.len() > 0,
            forall|x: int| 0 <= x < i ==> #[trigger] arg_ok(args@, x, levels as int),
            args_defect(args@, 0, levels as int) == args_defect(args@, i as int, levels as int),
        decreases args.len() - i,
    {
        let a = &args[i];
        if i > 0 {
            let prev = args[i - 1].mode;
            let later = match (prev, a.mode) {
                (ArgMode::Required, _) => false,
                (ArgMode::Optional, ArgMode::Required) => true,
                (ArgMode::Optional, _) => false,
                _ => true,
            };
            if later {
                proof {
                    assert(order_broken_at(args@, i as int));
                    assert(!arg_ok(args@, i as int, levels as int));
                }
                return Err(GrammarError::BadOrder(a.name.clone()));
            }
        }
        let rest = match a.mode {
            ArgMode::RestOptional | ArgMode::RestRequired => true,
            _ => false,
        };
        match a.kind {
            ArgKind::Text => {},
            ArgKind::Snowflake => {},
            ArgKind::Id(l) => {
                if l >= levels {
                    proof {
                        assert(level_unknown_at(args@, i as int, levels as int));
                    assert(!arg_ok(args@, i as int, levels as int));
                    }
                    return Err(GrammarError::UnknownLevel(a.name.clone()));
                }
            },
            ArgKind::Subcommand(l) => {
                if !rest {
                    proof {
                        assert(subcommand_misplaced_at(args@, i as int));
                    assert(!arg_ok(args@, i as int, levels as int));
                    }
                    return Err(GrammarError::MisplacedSubcommand(a.name.clone()));
                }
                if l >= levels {
                    proof {
                        assert(level_unknown_at(args@, i as int, levels as int));
                    assert(!arg_ok(args@, i as int, levels as int));
                    }
                    return Err(GrammarError::UnknownLevel(a.name.clone()));
                }
            },
        }
        assert(arg_ok(args@, i as int, levels as int));
        i = i + 1;
    }
    proof {
        assert(!exists|j: int| 0 <= j < def.ids.len() && (#[trigger] def.ids@[j])@.len() == 0);
    }
    Ok(())
}

proof fn lemma_flat_len(cmds: Seq<CommandDef>, n: int)
    requires
        0 <= n <= cmds.len(),
    ensures
        flat_aliases(cmds, n).len() == flat_ids(cmds, n).len(),
    decreases n,
{
    if n > 0 {
        lemma_flat_len(cmds, n - 1);
    }
}

/// `flat_aliases` and `flat_ids` only grow: the first `n` commands' part is a
/// prefix of the first `m` commands' part.
proof fn lemma_flat_prefix(cmds: Seq<CommandDef>, n: int, m: int)
    requires
        0 <= n <= m <= cmds.len(),
    ensures
        flat_aliases(cmds, n).len() <= flat_aliases(cmds, m).len(),
        flat_aliases(cmds, m).subrange(0, flat_aliases(cmds, n).len() as int) == flat_aliases(
            cmds,
            n,
        ),
        flat_ids(cmds, m).subrange(0, flat_ids(cmds, n).len() as int) == flat_ids(cmds, n),
    decreases m - n,
{
    lemma_flat_len(cmds, n);
    lemma_flat_len(cmds, m);
    if n < m {
        lemma_flat_prefix(cmds, n, m - 1);
        lemma_flat_len(cmds, m - 1);
        let a = flat_aliases(cmds, m - 1);
        assert(flat_aliases(cmds, m).subrange(0, a.len() as int) =~= a);
        assert(flat_aliases(cmds, m).subrange(0, flat_aliases(cmds, n).len() as int)
            =~= a.subrange(0, flat_aliases(cmds, n).len() as int));
        let b = flat_ids(cmds, m - 1);
        assert(flat_ids(cmds, m).subrange(0, b.len() as int) =~= b);
        assert(flat_ids(cmds, m).subrange(0, flat_ids(cmds, n).len() as int)
            =~= b.subrange(0, flat_ids(cmds, n).len() as int));
    } else {
        assert(flat_aliases(cmds, m).subrange(0, flat_aliases(cmds, n).len() as int)
            =~= flat_aliases(cmds, n));
        assert(flat_ids(cmds, m).subrange(0, flat_ids(cmds, n).len() as int) =~= flat_ids(
            cmds,
            n,
        ));
    }
}

impl Grammar {
    /// Builds one grammar level out of `levels` levels: succeeds exactly when the
    /// level is well formed, and otherwise reports its first defect: commands
    /// in order, then repeated aliases in declared order.
    pub fn build(cmds: Vec<CommandDef>, level: usize, levels: usize) -> (r: Result<
        Grammar,
        GrammarError,
    >)
        ensures
            r is Ok <==> level_ok(cmds@, levels as int),
            r matches Ok(g) ==> g.wf() && g.commands() == cmds@,
            r is Ok ==> level_defect(cmds@, level, levels as int) is None,
            r matches Err(e) ==> level_defect(cmds@, level, levels as int) == Some(e@),
    {
        let mut c: usize = 0;
        while c < cmds.len()
            invariant
                c <= cmds.len(),
                forall|x: int| 0 <= x < c ==> command_ok(#[trigger] cmds@[x], levels as int),
                commands_defect(cmds@, 0, level, levels as int) == commands_defect(
                    cmds@,
                    c as int,
                    level,
                    levels as int,
                ),
            decreases cmds.len() - c,
        {
            match check_command(&cmds[c], level, c, levels) {
                Ok(()) => {},
                Err(e) => {
                    proof {
                        assert(!command_ok(cmds@[c as int], levels as int));
                    }
                    return Err(e);
                },
            }
            c = c + 1;
        }
        let ghost all = level_aliases(cmds@);
        let mut trie = Trie::new();
        let mut c: usize = 0;
        proof {
            assert(trie.keys() =~= flat_aliases(cmds@, 0));
            assert(trie.id_seq() =~= flat_ids(cmds@, 0));
        }
        while c < cmds.len()
            invariant
                c <= cmds.len(),
                forall|x: int| 0 <= x < cmds.len() ==> command_ok(#[trigger] cmds@[x], levels as int),
                trie.wf(),
                trie.keys() == flat_aliases(cmds@, c as int),
                trie.id_seq() == flat_ids(cmds@, c as int),
                all == level_aliases(cmds@),
                commands_defect(cmds@, 0, level, levels as int) is None,
                duplicate_defect(all, 0) == duplicate_defect(all, trie.keys().len() as int),
            decreases cmds.len() - c,
        {
            let ids = &cmds[c].ids;
            let mut j: usize = 0;
            proof {
                assert(strings_view(ids@.subrange(0, 0)) =~= Seq::<Seq<char>>::empty());
                assert(trie.keys() =~= flat_aliases(cmds@, c as int) + strings_view(ids@.subrange(0, 0)));
                assert(trie.id_seq() =~= flat_ids(cmds@, c as int) + Seq::new(0, |x: int| c));
            }
            while j < ids.len()
                invariant
                    c < cmds.len(),
                    ids == &cmds@[c as int].ids,
                    j <= ids.len(),
                    trie.wf(),
                    trie.keys() == flat_aliases(cmds@, c as int) + strings_view(ids@.subrange(0, j as int)),
                    trie.id_seq() == flat_ids(cmds@, c as int) + Seq::new(j as nat, |x: int| c),
                    all == level_aliases(cmds@),
                    commands_defect(cmds@, 0, level, levels as int) is None,
                    duplicate_defect(all, 0) == duplicate_defect(all, trie.keys().len() as int),
                decreases ids.len() - j,
            {
                let ghost before = trie.keys();
                proof {
                    lemma_level_slot(cmds@, c as int, j as int);
                }
                let fresh = trie.insert(&ids[j], c);
                if !fresh {
                    proof {
                        self_duplicate(cmds@, c as int, j as int, before);
                    }
                    return Err(GrammarError::DuplicateAlias(ids[j].clone()));
                }
                proof {
                    assert(ids@.subrange(0, j + 1) =~= ids@.subrange(0, j as int).push(ids@[j as int]));
                    assert(strings_view(ids@.subrange(0, j + 1)) =~= strings_view(ids@.subrange(0, j as int)).push(ids@[j as int]@));
                    assert(trie.keys() =~= flat_aliases(cmds@, c as int) + strings_view(ids@.subrange(0, j + 1)));
                    assert(trie.id_seq() =~= flat_ids(cmds@, c as int) + Seq::new((j + 1) as nat, |x: int| c));
                }
                j = j + 1;
            }
            proof {
                assert(ids@.subrange(0, j as int) =~= ids@);
                assert(trie.keys() =~= flat_aliases(cmds@, c + 1));
                assert(trie.id_seq() =~= flat_ids(cmds@, c + 1));
            }
            c = c + 1;
        }
        proof {
            assert(trie.keys() == level_aliases(cmds@));
            trie.lemma_keys_distinct();
        }
        Ok(Grammar { commands: cmds, trie })
    }
}

/// Alias `j` of command `c` stands at index `flat_aliases(cmds, c).len() + j`
/// of the level's aliases, after exactly the aliases declared before it.
proof fn lemma_level_slot(cmds: Seq<CommandDef>, c: int, j: int)
    requires
        0 <= c < cmds.len(),
        0 <= j < cmds[c].ids.len(),
    ensures
        flat_aliases(cmds, c).len() + j < level_aliases(cmds).len(),
        level_aliases(cmds).subrange(0, flat_aliases(cmds, c).len() + j) == flat_aliases(cmds, c)
            + strings_view(cmds[c].ids@.subrange(0, j)),
        level_aliases(cmds)[flat_aliases(cmds, c).len() + j] == cmds[c].ids@[j]@,
{
    let all = level_aliases(cmds);
    let next = flat_aliases(cmds, c + 1);
    let f = flat_aliases(cmds, c);
    lemma_flat_prefix(cmds, c + 1, cmds.len() as int);
    let b = f.len() + j;
    assert(next[b] == cmds[c].ids@[j]@);
    assert(all[b] == next[b]);
    assert(all.subrange(0, b) =~= f + strings_view(cmds[c].ids@.subrange(0, j))) by {
        assert forall|x: int| 0 <= x < b implies all.subrange(0, b)[x] == (f + strings_view(
            cmds[c].ids@.subrange(0, j),
        ))[x] by {
            assert(all[x] == next[x]);
        }
    }
}

/// Alias `j` of command `c` occurs among the aliases before it, so the level's
/// aliases repeat it.
proof fn self_duplicate(cmds: Seq<CommandDef>, c: int, j: int, before: Seq<Seq<char>>)
    requires
        0 <= c < cmds.len(),
        0 <= j < cmds[c].ids.len(),
        before == flat_aliases(cmds, c) + strings_view(cmds[c].ids@.subrange(0, j)),
        before.contains(cmds[c].ids@[j]@),
    ensures
        !Trie::keys_distinct(level_aliases(cmds)),
        level_aliases(cmds).contains(cmds[c].ids@[j]@),
{
    let all = level_aliases(cmds);
    let next = flat_aliases(cmds, c + 1);
    let f = flat_aliases(cmds, c);
    lemma_flat_prefix(cmds, c + 1, cmds.len() as int);
    let b = f.len() + j;
    assert(next[b] == cmds[c].ids@[j]@);
    assert(all[b] == next[b]);
    let a = choose|a: int| 0 <= a < before.len() && before[a] == cmds[c].ids@[j]@;
    assert(before[a] == next[a]);
    assert(all[a] == next[a]);
    assert(a != b);
    assert(all[a] == all[b]);
}

proof fn lemma_flat_ids_bound(cmds: Seq<CommandDef>, n: int)
    requires
        0 <= n <= cmds.len(),
        cmds.len() <= usize::MAX,
    ensures
        forall|a: int| 0 <= a < flat_ids(cmds, n).len() ==> (#[trigger] flat_ids(cmds, n)[a] as int) < n,
    decreases n,
{
    if n > 0 {
        lemma_flat_ids_bound(cmds, n - 1);
        let f = flat_ids(cmds, n - 1);
        assert forall|a: int| 0 <= a < flat_ids(cmds, n).len() implies (#[trigger] flat_ids(cmds, n)[a] as int) < n by {
            if a < f.len() {
                assert(flat_ids(cmds, n)[a] == f[a]);
            }
        }
    }
}

impl Grammar {
    /// The definition of command `id`.
    pub fn command(&self, id: usize) -> (r: &CommandDef)
        requires
            id < self.commands().len(),
        ensures
            *r == self.commands()[id as int],
    {
        &self.commands[id]
    }

    /// The number of commands of this level.
    pub fn len(&self) -> (r: usize)
        ensures
            r == self.commands().len(),
    {
        self.commands.len()
    }

    /// Resolves a possibly abbreviated identifier to a command id of this level.
    pub fn resolve_id(&self, s: &str) -> (r: Result<usize, crate::trie::IdParseError>)
        requires
            self.wf(),
        ensures
            crate::trie::id_result_view(r) == self.resolve_view(s@),
            r matches Ok(id) ==> id < self.commands().len(),
    {
        let r = self.trie.resolve(s);
        proof {
            assert(self.commands@.len() == self.commands.len());
            self.trie.lemma_keys_distinct();
            lemma_flat_ids_bound(self.commands@, self.commands@.len() as int);
            if r is Ok {
                let h = crate::trie::all_hits(self.keys(), s@);
                crate::trie::lemma_hits_members(self.keys(), s@, self.keys().len() as int);
                lemma_flat_len(self.commands@, self.commands@.len() as int);
                assert(self.key_ids()[h[0] as int] < self.commands().len());
            }
        }
        r
    }

    /// The canonical (first-listed) alias of command `id`.
    pub fn display(&self, id: usize) -> (r: String)
        requires
            id < self.commands().len(),
            self.commands()[id as int].ids.len() > 0,
        ensures
            r@ == self.commands()[id as int].ids@[0]@,
    {
        self.commands[id].ids[0].clone()
    }
}

/// Every level of a grammar set, each grammar level well formed among them.
pub struct GrammarSet {
    levels: Vec<Grammar>,
}

/// The definitions of a grammar set, level by level.
pub open spec fn defs_view(defs: Seq<Vec<CommandDef>>) -> Seq<Seq<CommandDef>> {
    defs.map_values(|v: Vec<CommandDef>| v@)
}

/// The first defect among levels `l..` of `defs`.
pub open spec fn defs_defect(defs: Seq<Seq<CommandDef>>, l: int) -> Option<GrammarErrorModel>
    decreases defs.len() - l,
{
    if l < 0 || l >= defs.len() {
        None
    } else {
        match level_defect(defs[l], l as usize, defs.len() as int) {
            Some(e) => Some(e),
            None => defs_defect(defs, l + 1),
        }
    }
}

/// Every level of `defs` is well formed.
pub open spec fn defs_ok(defs: Seq<Seq<CommandDef>>) -> bool {
    forall|l: int| 0 <= l < defs.len() ==> level_ok(#[trigger] defs[l], defs.len() as int)
}

impl GrammarSet {
    pub closed spec fn levels(&self) -> Seq<Grammar> {
        self.levels@
    }

    /// Every level is built from well-formed definitions.
    pub closed spec fn wf(&self) -> bool {
        forall|l: int|
            0 <= l < self.levels@.len() ==> (#[trigger] self.levels@[l]).wf() && level_ok(
                self.levels@[l].commands(),
                self.levels@.len() as int,
            )
    }

    /// Grammar level `l`.
    pub fn level(&self, l: usize) -> (r: &Grammar)
        requires
            l < self.levels().len(),
        ensures
            *r == self.levels()[l as int],
            self.wf() ==> r.wf(),
    {
        &self.levels[l]
    }

    /// The number of levels.
    pub fn len(&self) -> (r: usize)
        ensures
            r == self.levels().len(),
    {
        self.levels.len()
    }

    pub proof fn lemma_level_wf(&self, l: int)
        requires
            self.wf(),
            0 <= l < self.levels().len(),
        ensures
            self.levels()[l].wf(),
            level_ok(self.levels()[l].commands(), self.levels().len() as int),
    {
    }
}

/// Builds a grammar set from its levels' definitions (level `l` is the `l`-th
/// list; argument kinds refer to levels by index). Succeeds exactly when every
/// level is well formed; otherwise reports the first defect, levels in order.
pub fn build_grammar(defs: Vec<Vec<CommandDef>>) -> (r: Result<GrammarSet, GrammarError>)
    ensures
        r is Ok <==> defs_ok(defs_view(defs@)),
        r matches Ok(set) ==> set.wf() && set.levels().len() == defs.len() && forall|l: int|
            0 <= l < defs.len() ==> (#[trigger] set.levels()[l]).commands() == defs@[l]@,
        r matches Err(e) ==> defs_defect(defs_view(defs@), 0) == Some(e@),
{
    let n = defs.len();
    let ghost orig = defs@;
    let mut rest = defs;
    let mut levels: Vec<Grammar> = Vec::new();
    let mut l: usize = 0;
    while l < n
        invariant
            n == orig.len(),
            l <= n,
            rest@ == orig.subrange(l as int, n as int),
            defs@ == orig,
            defs_defect(defs_view(orig), 0) == defs_defect(defs_view(orig), l as int),
            levels.len() == l,
            forall|x: int|
                0 <= x < l ==> (#[trigger] levels@[x]).wf() && levels@[x].commands() == orig[x]@
                    && level_ok(orig[x]@, n as int),
        decreases n - l,
    {
        let cmds = rest.remove(0);
        assert(cmds == orig[l as int]);
        proof {
            assert(defs_view(orig)[l as int] == orig[l as int]@);
        }
        match Grammar::build(cmds, l, n) {
            Ok(g) => {
                levels.push(g);
            },
            Err(e) => {
                proof {
                    assert(defs_view(orig)[l as int] == orig[l as int]@);
                    assert(!level_ok(defs_view(orig)[l as int], n as int));
                }
                return Err(e);
            },
        }
        l = l + 1;
        proof {
            assert(orig.subrange(l as int, n as int) =~= orig.subrange(l - 1, n as int).drop_first());
        }
    }
    let set = GrammarSet { levels };
    proof {
        assert forall|x: int| 0 <= x < n implies level_ok(#[trigger] defs_view(orig)[x], n as int) by {
            assert(defs_view(orig)[x] == orig[x]@);
            assert(set.levels@[x].wf());
        }
    }
    Ok(set)
}

/// Alias `j` of command `c` stands in the flattened alias list, naming `c`.
pub proof fn lemma_flat_index(cmds: Seq<CommandDef>, n: int, c: int, j: int) -> (a: int)
    requires
        0 <= c < n <= cmds.len(),
        0 <= j < cmds[c].ids.len(),
        cmds.len() <= usize::MAX,
    ensures
        0 <= a < flat_aliases(cmds, n).len(),
        flat_aliases(cmds, n)[a] == cmds[c].ids@[j]@,
        flat_ids(cmds, n)[a] == c as usize,
{
    lemma_flat_len(cmds, c);
    lemma_flat_len(cmds, c + 1);
    lemma_flat_prefix(cmds, c + 1, n);
    let a = flat_aliases(cmds, c).len() + j;
    let next = flat_aliases(cmds, c + 1);
    assert(next[a] == cmds[c].ids@[j]@);
    assert(flat_ids(cmds, c + 1)[a] == c as usize);
    assert(flat_aliases(cmds, n)[a] == next[a]);
    lemma_flat_len(cmds, n);
    let fi = flat_ids(cmds, n);
    assert(fi.subrange(0, flat_ids(cmds, c + 1).len() as int)[a] == fi[a]);
    assert(flat_ids(cmds, n)[a] == flat_ids(cmds, c + 1)[a]);
    a
}

/// Each entry of the flattened alias list is some alias `j` of the command `c`
/// it names.
pub proof fn lemma_flat_owner(cmds: Seq<CommandDef>, n: int, a: int) -> (cj: (int, int))
    requires
        0 <= n <= cmds.len(),
        0 <= a < flat_aliases(cmds, n).len(),
        cmds.len() <= usize::MAX,
    ensures
        0 <= cj.0 < n,
        0 <= cj.1 < cmds[cj.0].ids.len(),
        flat_aliases(cmds, n)[a] == cmds[cj.0].ids@[cj.1]@,
        flat_ids(cmds, n)[a] == cj.0 as usize,
    decreases n,
{
    lemma_flat_len(cmds, n);
    lemma_flat_len(cmds, n - 1);
    let f = flat_aliases(cmds, n - 1);
    if a < f.len() {
        let r = lemma_flat_owner(cmds, n - 1, a);
        assert(flat_aliases(cmds, n)[a] == f[a]);
        assert(flat_ids(cmds, n)[a] == flat_ids(cmds, n - 1)[a]);
        r
    } else {
        let j = a - f.len();
        assert(flat_aliases(cmds, n)[a] == strings_view(cmds[n - 1].ids@)[j]);
        (n - 1, j)
    }
}

/// The flattened aliases depend on the commands' aliases alone.
pub proof fn lemma_flat_same(c1: Seq<CommandDef>, c2: Seq<CommandDef>, n: int)
    requires
        0 <= n <= c1.len(),
        c1.len() == c2.len(),
        forall|c: int| 0 <= c < c1.len() ==> strings_view((#[trigger] c1[c]).ids@) == strings_view(c2[c].ids@),
    ensures
        flat_aliases(c1, n) == flat_aliases(c2, n),
        flat_ids(c1, n) == flat_ids(c2, n),
    decreases n,
{
    if n > 0 {
        lemma_flat_same(c1, c2, n - 1);
        assert(strings_view(c1[n - 1].ids@) == strings_view(c2[n - 1].ids@));
        assert(c1[n - 1].ids@.len() == c2[n - 1].ids@.len());
        assert(Seq::new(c1[n - 1].ids@.len(), |j: int| (n - 1) as usize) =~= Seq::new(
            c2[n - 1].ids@.len(),
            |j: int| (n - 1) as usize,
        ));
    }
}

impl Grammar {
    /// The level's alias list is its commands' aliases, command by command.
    pub proof fn lemma_keys(&self)
        requires
            self.wf(),
        ensures
            self.keys() == level_aliases(self.commands()),
            self.key_ids() == flat_ids(self.commands(), self.commands().len() as int),
            self.commands().len() <= usize::MAX,
            self.keys().len() <= usize::MAX,
    {
        assert(self.commands@.len() == self.commands.len());
        self.trie.lemma_keys_distinct();
    }
}

/// The argument names a usage line declares, in order: required, optional, rest.
pub open spec fn syntax_names(syntax: CommandSyntax) -> Seq<Seq<char>> {
    strings_view(syntax.required@) + strings_view(syntax.optional@) + match syntax.rest {
        RestArg::Absent => Seq::empty(),
        RestArg::Optional(n) => seq![n@],
        RestArg::Required(n) => seq![n@],
    }
}

/// The cardinality of each name of `syntax_names`.
pub open spec fn syntax_modes(syntax: CommandSyntax) -> Seq<ArgMode> {
    Seq::new(syntax.required@.len(), |i: int| ArgMode::Required) + Seq::new(
        syntax.optional@.len(),
        |i: int| ArgMode::Optional,
    ) + match syntax.rest {
        RestArg::Absent => Seq::empty(),
        RestArg::Optional(_) => seq![ArgMode::RestOptional],
        RestArg::Required(_) => seq![ArgMode::RestRequired],
    }
}

fn push_specs(out: &mut Vec<ArgSpec>, names: &Vec<String>, mode: ArgMode, kinds: &Vec<ArgKind>)
    requires
        old(out).len() + names.len() <= kinds.len(),
    ensures
        final(out).len() == old(out).len() + names.len(),
        forall|i: int| 0 <= i < old(out).len() ==> #[trigger] final(out)@[i] == old(out)@[i],
        forall|i: int|
            0 <= i < names.len() ==> {
                let a = #[trigger] final(out)@[old(out).len() + i];
                a.name@ == names@[i]@ && a.mode == mode && a.kind == kinds@[old(out).len() + i]
            },
{
    let start = out.len();
    let mut i: usize = 0;
    while i < names.len()
        invariant
            start == old(out).len(),
            start + names.len() <= kinds.len(),
            i <= names.len(),
            out.len() == start + i,
            forall|x: int| 0 <= x < start ==> #[trigger] out@[x] == old(out)@[x],
            forall|x: int|
                0 <= x < i ==> {
                    let a = #[trigger] out@[start + x];
                    a.name@ == names@[x]@ && a.mode == mode && a.kind == kinds@[start + x]
                },
        decreases names.len() - i,
    {
        out.push(ArgSpec { name: names[i].clone(), mode, kind: kinds[start + i] });
        i = i + 1;
    }
}

/// The argument list a usage line declares, the `i`-th name with the `i`-th
/// kind: its required names, then its optional ones, then its rest name.
/// Fails exactly when there are not as many kinds as names.
pub fn field_info(syntax: &CommandSyntax, kinds: &Vec<ArgKind>) -> (r: Result<
    Vec<ArgSpec>,
    GrammarError,
>)
    ensures
        r is Ok <==> syntax_names(*syntax).len() == kinds.len(),
        r matches Ok(v) ==> v.len() == kinds.len() && forall|i: int|
            0 <= i < v.len() ==> (#[trigger] v@[i]).name@ == syntax_names(*syntax)[i] && v@[i].mode
                == syntax_modes(*syntax)[i] && v@[i].kind == kinds@[i],
        r matches Err(e) ==> e is MismatchedFields,
{
    let nreq = syntax.required.len();
    let nopt = syntax.optional.len();
    let nrest: usize = match syntax.rest {
        RestArg::Absent => 0,
        _ => 1,
    };
    let ghost names = syntax_names(*syntax);
    proof {
        assert(names.len() == nreq + nopt + nrest);
    }
    if nreq > kinds.len() || nopt > kinds.len() - nreq || nrest != kinds.len() - nreq - nopt {
        return Err(GrammarError::MismatchedFields);
    }
    let mut out: Vec<ArgSpec> = Vec::new();
    push_specs(&mut out, &syntax.required, ArgMode::Required, kinds);
    push_specs(&mut out, &syntax.optional, ArgMode::Optional, kinds);
    match &syntax.rest {
        RestArg::Absent => {},
        RestArg::Optional(n) => {
            out.push(ArgSpec { name: n.clone(), mode: ArgMode::RestOptional, kind: kinds[nreq + nopt] });
        },
        RestArg::Required(n) => {
            out.push(ArgSpec { name: n.clone(), mode: ArgMode::RestRequired, kind: kinds[nreq + nopt] });
        },
    }
    proof {
        let modes = syntax_modes(*syntax);
        assert forall|i: int| 0 <= i < out.len() implies (#[trigger] out@[i]).name@ == names[i]
            && out@[i].mode == modes[i] && out@[i].kind == kinds@[i] by {
            if i < nreq {
                assert(out@[0 + i] == out@[i]);
            } else if i < nreq + nopt {
                assert(out@[nreq + (i - nreq)] == out@[i]);
            }
        }
    }
    Ok(out)
}

/// Help descriptor of one argument.
#[derive(Clone, Debug, PartialEq, Eq)]
pub struct ArgumentUsage {
    pub name: String,
    pub is_required: bool,
    pub is_rest: bool,
}

/// Help descriptor of one command: its aliases and its arguments in order.
#[derive(Clone, Debug, PartialEq, Eq)]
pub struct CommandUsage {
    pub ids: Vec<String>,
    pub args: Vec<ArgumentUsage>,
}

/// `u` describes command `c`: the same aliases, and each argument's name,
/// whether it is required and whether it is a rest argument.
pub open spec fn usage_fits(u: CommandUsage, c: CommandDef) -> bool {
    &&& strings_view(u.ids@) == strings_view(c.ids@)
    &&& u.args.len() == c.args.len()
    &&& forall|i: int|
        0 <= i < u.args.len() ==> {
            let a = c.args@[i];
            &&& (#[trigger] u.args@[i]).name@ == a.name@
            &&& u.args@[i].is_required == (a.mode is Required || a.mode is RestRequired)
            &&& u.args@[i].is_rest == is_rest(a.mode)
        }
}

/// What help is offered on: one command, or a whole level.
#[derive(Clone, Debug, PartialEq, Eq)]
pub enum HelpTopic {
    Command(CommandUsage),
    CommandSet(Vec<CommandUsage>),
}

impl Grammar {
    /// The help descriptor of command `id`, read off the same definition that
    /// binding uses.
    pub fn usage(&self, id: usize) -> (r: CommandUsage)
        requires
            id < self.commands().len(),
        ensures
            usage_fits(r, self.commands()[id as int]),
    {
        let cmd = &self.commands[id];
        let mut ids: Vec<String> = Vec::new();
        let mut i: usize = 0;
        while i < cmd.ids.len()
            invariant
                i <= cmd.ids.len(),
                strings_view(ids@) == strings_view(cmd.ids@.subrange(0, i as int)),
            decreases cmd.ids.len() - i,
        {
            let ghost before = ids@;
            let x = cmd.ids[i].clone();
            ids.push(x);
            proof {
                crate::text::lemma_strings_push(before, x);
                crate::text::lemma_strings_push(cmd.ids@.subrange(0, i as int), cmd.ids@[i as int]);
                assert(cmd.ids@.subrange(0, i + 1) =~= cmd.ids@.subrange(0, i as int).push(cmd.ids@[i as int]));
            }
            i = i + 1;
        }
        let mut args: Vec<ArgumentUsage> = Vec::new();
        let mut k: usize = 0;
        while k < cmd.args.len()
            invariant
                k <= cmd.args.len(),
                args.len() == k,
                forall|x: int|
                    0 <= x < k ==> {
                        let a = cmd.args@[x];
                        &&& (#[trigger] args@[x]).name@ == a.name@
                        &&& args@[x].is_required == (a.mode is Required || a.mode is RestRequired)
                        &&& args@[x].is_rest == is_rest(a.mode)
                    },
            decreases cmd.args.len() - k,
        {
            let a = &cmd.args[k];
            let (is_required, rest) = match a.mode {
                ArgMode::Required => (true, false),
                ArgMode::Optional => (false, false),
                ArgMode::RestOptional => (false, true),
                ArgMode::RestRequired => (true, true),
            };
            args.push(ArgumentUsage { name: a.name.clone(), is_required, is_rest: rest });
            k = k + 1;
        }
        proof {
            assert(cmd.ids@.subrange(0, i as int) =~= cmd.ids@);
        }
        CommandUsage { ids, args }
    }
}

impl Grammar {
    /// Help on command `topic`, or on every command of the level in order.
    pub fn help(&self, topic: Option<usize>) -> (r: HelpTopic)
        requires
            topic matches Some(id) ==> id < self.commands().len(),
        ensures
            topic matches Some(id) ==> (r matches HelpTopic::Command(u) && usage_fits(
                u,
                self.commands()[id as int],
            )),
            topic is None ==> (r matches HelpTopic::CommandSet(v) && v.len()
                == self.commands().len() && forall|i: int|
                0 <= i < v.len() ==> usage_fits(#[trigger] v@[i], self.commands()[i])),
    {
        match topic {
            Some(id) => HelpTopic::Command(self.usage(id)),
            None => {
                let mut v: Vec<CommandUsage> = Vec::new();
                let mut i: usize = 0;
                while i < self.commands.len()
                    invariant
                        i <= self.commands.len(),
                        v.len() == i,
                        forall|x: int| 0 <= x < i ==> usage_fits(#[trigger] v@[x], self.commands()[x]),
                    decreases self.commands.len() - i,
                {
                    v.push(self.usage(i));
                    i = i + 1;
                }
                HelpTopic::CommandSet(v)
            },
        }
    }
}

/// The content of an argument declaration.
pub struct ArgModel {
    pub name: Seq<char>,
    pub mode: ArgMode,
    pub kind: ArgKind,
}

/// The content of a command definition.
pub struct DefModel {
    pub ids: Seq<Seq<char>>,
    pub args: Seq<ArgModel>,
}

pub open spec fn arg_model(a: ArgSpec) -> ArgModel {
    ArgModel { name: a.name@, mode: a.mode, kind: a.kind }
}

pub open spec fn def_model(c: CommandDef) -> DefModel {
    DefModel { ids: strings_view(c.ids@), args: c.args@.map_values(|a: ArgSpec| arg_model(a)) }
}

/// The content of a level's definitions.
pub open spec fn level_model(cmds: Seq<CommandDef>) -> Seq<DefModel> {
    cmds.map_values(|c: CommandDef| def_model(c))
}

/// `arg_ok` on the content of an argument list.
pub open spec fn model_arg_ok(args: Seq<ArgModel>, i: int, levels: int) -> bool {
    &&& !(0 < i && (rank(args[i - 1].mode) > rank(args[i].mode) || is_rest(args[i - 1].mode)))
    &&& !(args[i].kind is Subcommand && !is_rest(args[i].mode))
    &&& !(kind_level(args[i].kind) matches Some(l) && l >= levels)
}

/// `command_ok` on the content of a definition.
pub open spec fn model_command_ok(d: DefModel, levels: int) -> bool {
    &&& d.ids.len() > 0
    &&& forall|j: int| 0 <= j < d.ids.len() ==> (#[trigger] d.ids[j]).len() > 0
    &&& forall|i: int| 0 <= i < d.args.len() ==> #[trigger] model_arg_ok(d.args, i, levels)
}

/// The aliases of the first `n` definitions, in declared order.
pub open spec fn model_aliases(m: Seq<DefModel>, n: int) -> Seq<Seq<char>>
    decreases n,
{
    if n <= 0 {
        Seq::empty()
    } else {
        model_aliases(m, n - 1) + m[n - 1].ids
    }
}

/// `level_ok` on the content of a level's definitions.
pub open spec fn model_level_ok(m: Seq<DefModel>, levels: int) -> bool {
    &&& forall|c: int| 0 <= c < m.len() ==> model_command_ok(#[trigger] m[c], levels)
    &&& Trie::keys_distinct(model_aliases(m, m.len() as int))
}

/// For each alias of `model_aliases(m, n)`, the index of its definition.
pub open spec fn model_ids(m: Seq<DefModel>, n: int) -> Seq<usize>
    decreases n,
{
    if n <= 0 {
        Seq::empty()
    } else {
        model_ids(m, n - 1) + Seq::new(m[n - 1].ids.len(), |j: int| (n - 1) as usize)
    }
}

/// The flattened aliases and their command indices are those of the content.
pub proof fn lemma_model_aliases(cmds: Seq<CommandDef>, n: int)
    requires
        0 <= n <= cmds.len(),
    ensures
        flat_aliases(cmds, n) == model_aliases(level_model(cmds), n),
        flat_ids(cmds, n) == model_ids(level_model(cmds), n),
    decreases n,
{
    if n > 0 {
        lemma_model_aliases(cmds, n - 1);
        assert(strings_view(cmds[n - 1].ids@).len() == cmds[n - 1].ids@.len());
        assert(Seq::new(cmds[n - 1].ids@.len(), |j: int| (n - 1) as usize) =~= Seq::new(
            level_model(cmds)[n - 1].ids.len(),
            |j: int| (n - 1) as usize,
        ));
    }
}

/// A level is well formed when the content of its definitions is.
pub proof fn lemma_model_level_ok(cmds: Seq<CommandDef>, levels: int)
    requires
        model_level_ok(level_model(cmds), levels),
    ensures
        level_ok(cmds, levels),
{
    let m = level_model(cmds);
    lemma_model_aliases(cmds, cmds.len() as int);
    assert forall|c: int| 0 <= c < cmds.len() implies command_ok(#[trigger] cmds[c], levels) by {
        assert(m[c] == def_model(cmds[c]));
        assert(model_command_ok(m[c], levels));
        let d = cmds[c];
        assert forall|j: int| 0 <= j < d.ids.len() implies (#[trigger] d.ids@[j])@.len() > 0 by {
            assert(m[c].ids[j] == d.ids@[j]@);
        }
        assert forall|i: int| 0 <= i < d.args@.len() implies #[trigger] arg_ok(d.args@, i, levels) by {
            assert(model_arg_ok(m[c].args, i, levels));
            assert(m[c].args[i] == arg_model(d.args@[i]));
            if i > 0 {
                assert(m[c].args[i - 1] == arg_model(d.args@[i - 1]));
            }
        }
    }
}

} // verus!
