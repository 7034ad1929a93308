use vstd::prelude::*;
use crate::grammar::{
    ArgKind, ArgMode, Grammar, GrammarSet, is_rest, lemma_flat_index, lemma_flat_owner,
    lemma_flat_same,
};
use crate::parse::{CommandModel, ParseErrorModel, parse_spec};
use crate::text::{is_prefix_of, strings_view};
use crate::trie::{IdErrorModel, all_hits, lemma_hits_members, unanimous};

verus! {

/// Abbreviation: a prefix `p` of alias `j` of command `id` resolves to `id`
/// whenever no alias of another command of the level starts with `p`.
pub proof fn lemma_abbreviation(g: Grammar, id: int, j: int, p: Seq<char>)
    requires
        g.wf(),
        0 <= id < g.commands().len(),
        0 <= j < g.commands()[id].ids.len(),
        is_prefix_of(p, g.commands()[id].ids@[j]@),
        forall|c: int, x: int|
            0 <= c < g.commands().len() && c != id && 0 <= x < g.commands()[c].ids.len()
                ==> !is_prefix_of(p, #[trigger] g.commands()[c].ids@[x]@),
    ensures
        g.resolve_view(p) == Ok::<usize, IdErrorModel>(id as usize),
{
    g.lemma_keys();
    let cmds = g.commands();
    let n = cmds.len() as int;
    let keys = g.keys();
    let ids = g.key_ids();
    let a0 = lemma_flat_index(cmds, n, id, j);
    lemma_hits_members(keys, p, keys.len() as int);
    let h = all_hits(keys, p);
    assert(h.contains(a0 as usize));
    assert forall|x: int| 0 <= x < h.len() implies ids[#[trigger] h[x] as int] == id as usize by {
        let cj = lemma_flat_owner(cmds, n, h[x] as int);
    }
    assert(unanimous(ids, h));
}

/// Round trip: resolving the canonical alias of command `id` yields `id`,
/// provided no alias of another command of the level starts with it.
pub proof fn lemma_display_round_trip(g: Grammar, id: int)
    requires
        g.wf(),
        0 <= id < g.commands().len(),
        g.commands()[id].ids.len() > 0,
        forall|c: int, x: int|
            0 <= c < g.commands().len() && c != id && 0 <= x < g.commands()[c].ids.len()
                ==> !is_prefix_of(g.commands()[id].ids@[0]@, #[trigger] g.commands()[c].ids@[x]@),
    ensures
        g.resolve_view(g.commands()[id].ids@[0]@) == Ok::<usize, IdErrorModel>(id as usize),
{
    let s = g.commands()[id].ids@[0]@;
    assert(s.subrange(0, s.len() as int) =~= s);
    lemma_abbreviation(g, id, 0, s);
}

/// No match: a string that no alias of the level starts with resolves to
/// `NoMatch` of that string.
pub proof fn lemma_no_match(g: Grammar, s: Seq<char>)
    requires
        g.wf(),
        forall|c: int, x: int|
            0 <= c < g.commands().len() && 0 <= x < g.commands()[c].ids.len() ==> !is_prefix_of(
                s,
                #[trigger] g.commands()[c].ids@[x]@,
            ),
    ensures
        g.resolve_view(s) == Err::<usize, IdErrorModel>(IdErrorModel::NoMatch(s)),
{
    g.lemma_keys();
    let cmds = g.commands();
    let keys = g.keys();
    lemma_hits_members(keys, s, keys.len() as int);
    let h = all_hits(keys, s);
    if h.len() > 0 {
        let cj = lemma_flat_owner(cmds, cmds.len() as int, h[0] as int);
    }
}

/// Construction is deterministic: two levels built from definitions with the
/// same aliases, command by command, resolve every string alike.
pub proof fn lemma_build_deterministic(a: Grammar, b: Grammar, s: Seq<char>)
    requires
        a.wf(),
        b.wf(),
        a.commands().len() == b.commands().len(),
        forall|c: int|
            0 <= c < a.commands().len() ==> strings_view((#[trigger] a.commands()[c]).ids@)
                == strings_view(b.commands()[c].ids@),
    ensures
        a.resolve_view(s) == b.resolve_view(s),
{
    a.lemma_keys();
    b.lemma_keys();
    lemma_flat_same(a.commands(), b.commands(), a.commands().len() as int);
}

/// Subcommand wrapping: when the first token names a command whose only
/// argument is a subcommand of level `j`, parsing yields what parsing the
/// remaining tokens at level `j` yields: a failure wrapped in `Subcommand`, a
/// success as the command's subcommand.
pub proof fn lemma_subcommand_wrapping(
    set: GrammarSet,
    l: int,
    toks: Seq<Seq<char>>,
    id: usize,
    j: usize,
)
    requires
        toks.len() >= 1,
        set.levels()[l].resolve_view(toks[0]) == Ok::<usize, IdErrorModel>(id),
        set.levels()[l].commands()[id as int].args.len() == 1,
        set.levels()[l].commands()[id as int].args@[0].kind == ArgKind::Subcommand(j),
        is_rest(set.levels()[l].commands()[id as int].args@[0].mode),
        toks.len() >= 2 || set.levels()[l].commands()[id as int].args@[0].mode
            == ArgMode::RestOptional,
    ensures
        parse_spec(set, l, toks, 0) == match parse_spec(set, j as int, toks, 1) {
            Err(e) => Err::<CommandModel, ParseErrorModel>(ParseErrorModel::Subcommand(Box::new(e))),
            Ok(c) => Ok(CommandModel { id, args: Seq::empty(), sub: Some(Box::new(c)) }),
        },
{
}

} // verus!
