use vstd::prelude::*;
use crate::text::{is_prefix_of, strings_view};

verus! {

/// Why a candidate identifier did not resolve to exactly one command.
#[derive(Clone, Debug, PartialEq, Eq)]
pub enum IdParseError {
    /// No alias of the grammar level starts with the given string.
    NoMatch(String),
    /// Aliases of two or more different commands start with the given string:
    /// every such alias, in the order the aliases were declared, and the input.
    Ambiguous(Vec<String>, String),
}

/// The mathematical content of an `IdParseError`.
pub enum IdErrorModel {
    NoMatch(Seq<char>),
    Ambiguous(Seq<Seq<char>>, Seq<char>),
}

impl View for IdParseError {
    type V = IdErrorModel;

    open spec fn view(&self) -> IdErrorModel {
        match self {
            IdParseError::NoMatch(s) => IdErrorModel::NoMatch(s@),
            IdParseError::Ambiguous(c, s) => IdErrorModel::Ambiguous(strings_view(c@), s@),
        }
    }
}

/// Indices, in increasing order, of the first `n` keys that start with `s`.
pub open spec fn hits(keys: Seq<Seq<char>>, s: Seq<char>, n: int) -> Seq<usize>
    decreases n,
{
    if n <= 0 {
        Seq::empty()
    } else {
        let h = hits(keys, s, n - 1);
        if is_prefix_of(s, keys[n - 1]) {
            h.push((n - 1) as usize)
        } else {
            h
        }
    }
}

/// Indices, in increasing order, of all keys that start with `s`.
pub open spec fn all_hits(keys: Seq<Seq<char>>, s: Seq<char>) -> Seq<usize> {
    hits(keys, s, keys.len() as int)
}

/// Every index of `h` names the same id as its first one.
pub open spec fn unanimous(ids: Seq<usize>, h: Seq<usize>) -> bool {
    forall|j: int| 0 <= j < h.len() ==> ids[#[trigger] h[j] as int] == ids[h[0] as int]
}

/// What resolving `s` against aliases `keys` (alias `a` naming `ids[a]`) yields:
/// the one id that every alias starting with `s` names, `NoMatch` when no alias
/// starts with `s`, and `Ambiguous` with those aliases otherwise.
pub open spec fn resolve_spec(keys: Seq<Seq<char>>, ids: Seq<usize>, s: Seq<char>) -> Result<
    usize,
    IdErrorModel,
> {
    let h = all_hits(keys, s);
    if h.len() == 0 {
        Err(IdErrorModel::NoMatch(s))
    } else if unanimous(ids, h) {
        Ok(ids[h[0] as int])
    } else {
        Err(IdErrorModel::Ambiguous(h.map_values(|a: usize| keys[a as int]), s))
    }
}

/// The resolved id when every one of `values` is the same, `None` otherwise
/// (and for an empty list).
pub fn parse_resolve_ambiguous(values: &Vec<usize>) -> (r: Option<usize>)
    ensures
        r == (if values.len() > 0 && forall|j: int| 0 <= j < values.len() ==> #[trigger] values@[j] == values@[0] {
            Some(values@[0])
        } else {
            None::<usize>
        }),
{
    if values.len() == 0 {
        return None;
    }
    let first = values[0];
    let mut i: usize = 1;
    while i < values.len()
        invariant
            1 <= i <= values.len(),
            first == values@[0],
            forall|j: int| 0 <= j < i ==> #[trigger] values@[j] == first,
        decreases values.len() - i,
    {
        if values[i] != first {
            return None;
        }
        i = i + 1;
    }
    Some(first)
}

proof fn lemma_hits_frame(k1: Seq<Seq<char>>, k2: Seq<Seq<char>>, s: Seq<char>, n: int)
    requires
        0 <= n <= k1.len(),
        n <= k2.len(),
        forall|j: int| 0 <= j < n ==> k1[j] == k2[j],
    ensures
        hits(k1, s, n) == hits(k2, s, n),
    decreases n,
{
    if n > 0 {
        lemma_hits_frame(k1, k2, s, n - 1);
    }
}

proof fn lemma_hits_none(keys: Seq<Seq<char>>, s: Seq<char>, n: int)
    requires
        forall|j: int| 0 <= j < n ==> !is_prefix_of(s, #[trigger] keys[j]),
    ensures
        hits(keys, s, n).len() == 0,
    decreases n,
{
    if n > 0 {
        lemma_hits_none(keys, s, n - 1);
    }
}

/// Membership in `hits`: exactly the indices below `n` whose key starts with `s`.
pub proof fn lemma_hits_members(keys: Seq<Seq<char>>, s: Seq<char>, n: int)
    requires
        0 <= n <= keys.len(),
        keys.len() <= usize::MAX,
    ensures
        forall|j: int|
            0 <= j < hits(keys, s, n).len() ==> (#[trigger] hits(keys, s, n)[j] as int) < n
                && is_prefix_of(s, keys[hits(keys, s, n)[j] as int]),
        forall|a: int|
            0 <= a < n && is_prefix_of(s, #[trigger] keys[a]) ==> hits(keys, s, n).contains(
                a as usize,
            ),
    decreases n,
{
    if n > 0 {
        lemma_hits_members(keys, s, n - 1);
        let h = hits(keys, s, n - 1);
        if is_prefix_of(s, keys[n - 1]) {
            assert(hits(keys, s, n) == h.push((n - 1) as usize));
            assert forall|a: int| 0 <= a < n && is_prefix_of(s, #[trigger] keys[a]) implies hits(
                keys,
                s,
                n,
            ).contains(a as usize) by {
                if a < n - 1 {
                    let j = choose|j: int| 0 <= j < h.len() && h[j] == a as usize;
                    assert(hits(keys, s, n)[j] == a as usize);
                } else {
                    assert(hits(keys, s, n)[h.len() as int] == a as usize);
                }
            }
        }
    }
}

/// One node of the trie: its outgoing edges, the aliases below it and the
/// alias that ends exactly here.
pub struct TrieNode {
    children: Vec<(char, usize)>,
    reach: Vec<usize>,
    terminal: Option<usize>,
}

/// A prefix automaton over the aliases of one grammar level, stored as an
/// arena of nodes addressed by index; node 0 is the root.
pub struct Trie {
    nodes: Vec<TrieNode>,
    aliases: Vec<String>,
    ids: Vec<usize>,
    /// The string spelled by the edges from the root to each node.
    paths: Ghost<Seq<Seq<char>>>,
}
impl Trie {
    /// The aliases, in the order they were inserted.
    pub closed spec fn keys(&self) -> Seq<Seq<char>> {
        strings_view(self.aliases@)
    }

    /// The id that each alias names.
    pub closed spec fn id_seq(&self) -> Seq<usize> {
        self.ids@
    }

    spec fn child(&self, n: int, e: int) -> (char, usize) {
        self.nodes@[n].children@[e]
    }

    spec fn base_ok(&self) -> bool {
        &&& self.nodes.len() == self.paths@.len()
        &&& self.nodes.len() >= 1
        &&& self.paths@[0] == Seq::<char>::empty()
        &&& self.aliases.len() == self.ids.len()
    }

    #[verifier::opaque]
    spec fn edges_ok(&self) -> bool {
        forall|n: int, e: int|
            0 <= n < self.nodes.len() && 0 <= e < self.nodes@[n].children.len() ==> {
                let (c, m) = #[trigger] self.child(n, e);
                &&& (m as int) < self.nodes.len()
                &&& self.paths@[m as int] == self.paths@[n].push(c)
            }
    }

    #[verifier::opaque]
    spec fn paths_distinct(&self) -> bool {
        forall|n: int, m: int|
            0 <= n < self.nodes.len() && 0 <= m < self.nodes.len() && n != m
                ==> #[trigger] self.paths@[n] != #[trigger] self.paths@[m]
    }

    #[verifier::opaque]
    spec fn parents_exist(&self) -> bool {
        forall|m: int|
            0 <= m < self.nodes.len() && (#[trigger] self.paths@[m]).len() > 0 ==> exists|n: int|
                0 <= n < self.nodes.len() && self.paths@[n] == self.paths@[m].drop_last()
    }

    #[verifier::opaque]
    spec fn parent_edges(&self) -> bool {
        forall|n: int, m: int|
            0 <= n < self.nodes.len() && 0 <= m < self.nodes.len() && (#[trigger] self.paths@[m]).len()
                > 0 && self.paths@[m].drop_last() == #[trigger] self.paths@[n] ==> exists|e: int|
                0 <= e < self.nodes@[n].children.len() && (#[trigger] self.child(n, e)).1
                    == m as usize
    }

    #[verifier::opaque]
    spec fn complete_below(&self, k: int) -> bool {
        forall|n: int, a: int|
            0 <= n < self.nodes.len() && 0 <= a < k && is_prefix_of(
                #[trigger] self.paths@[n],
                #[trigger] self.keys()[a],
            ) && self.keys()[a].len() > self.paths@[n].len() ==> exists|e: int|
                0 <= e < self.nodes@[n].children.len() && (#[trigger] self.child(n, e)).0
                    == self.keys()[a][self.paths@[n].len() as int]
    }

    #[verifier::opaque]
    spec fn complete_along(&self, s: Seq<char>, i: int) -> bool {
        forall|n: int|
            0 <= n < self.nodes.len() && is_prefix_of(#[trigger] self.paths@[n], s)
                && self.paths@[n].len() < i ==> exists|e: int|
                0 <= e < self.nodes@[n].children.len() && (#[trigger] self.child(n, e)).0
                    == s[self.paths@[n].len() as int]
    }

    #[verifier::opaque]
    spec fn reach_ok(&self, k: int) -> bool {
        forall|n: int|
            0 <= n < self.nodes.len() ==> (#[trigger] self.nodes@[n]).reach@ == hits(
                self.keys(),
                self.paths@[n],
                k,
            )
    }

    #[verifier::opaque]
    spec fn reach_during(&self, k: int, s: Seq<char>, i: int) -> bool {
        forall|n: int|
            0 <= n < self.nodes.len() ==> (#[trigger] self.nodes@[n]).reach@ == (if is_prefix_of(
                self.paths@[n],
                s,
            ) && self.paths@[n].len() <= i {
                hits(self.keys(), self.paths@[n], k + 1)
            } else {
                hits(self.keys(), self.paths@[n], k)
            })
    }

    #[verifier::opaque]
    spec fn terminals_ok(&self, k: int) -> bool {
        &&& forall|n: int|
            0 <= n < self.nodes.len() && (#[trigger] self.nodes@[n]).terminal is Some ==> {
                let a = self.nodes@[n].terminal->0 as int;
                0 <= a < k && self.keys()[a] == self.paths@[n]
            }
        &&& forall|n: int, a: int|
            0 <= n < self.nodes.len() && 0 <= a < k && #[trigger] self.keys()[a]
                == #[trigger] self.paths@[n] ==> self.nodes@[n].terminal is Some
    }

    spec fn shape_ok(&self) -> bool {
        &&& self.base_ok()
        &&& self.edges_ok()
        &&& self.paths_distinct()
        &&& self.parents_exist()
        &&& self.parent_edges()
    }

    /// No alias occurs twice.
    pub open spec fn keys_distinct(keys: Seq<Seq<char>>) -> bool {
        forall|a: int, b: int|
            0 <= a < keys.len() && 0 <= b < keys.len() && a != b ==> #[trigger] keys[a]
                != #[trigger] keys[b]
    }

    /// The trie's structure matches its aliases.
    pub closed spec fn wf(&self) -> bool {
        &&& self.shape_ok()
        &&& self.complete_below(self.keys().len() as int)
        &&& self.reach_ok(self.keys().len() as int)
        &&& self.terminals_ok(self.keys().len() as int)
        &&& Self::keys_distinct(self.keys())
    }

    spec fn inserting(&self, old_keys: Seq<Seq<char>>, s: Seq<char>, i: int, cur: int) -> bool {
        &&& self.keys() == old_keys.push(s)
        &&& Self::keys_distinct(old_keys)
        &&& 0 <= i <= s.len()
        &&& 0 <= cur < self.nodes.len()
        &&& self.paths@[cur] == s.subrange(0, i)
        &&& self.shape_ok()
        &&& self.complete_below(old_keys.len() as int)
        &&& self.complete_along(s, i)
        &&& self.reach_during(old_keys.len() as int, s, i)
        &&& self.terminals_ok(old_keys.len() as int)
    }

    /// The two tries have the same nodes, edges and paths.
    spec fn same_edges(t0: Trie, t1: Trie) -> bool {
        &&& t1.nodes.len() == t0.nodes.len()
        &&& t1.paths@ == t0.paths@
        &&& forall|n: int|
            0 <= n < t0.nodes.len() ==> (#[trigger] t1.nodes@[n]).children@
                == t0.nodes@[n].children@
    }

    proof fn lemma_same_edges(t0: Trie, t1: Trie)
        requires
            t0.shape_ok(),
            Self::same_edges(t0, t1),
            t1.aliases.len() == t1.ids.len(),
        ensures
            t1.shape_ok(),
            forall|n: int, e: int| #[trigger] t1.child(n, e) == t0.child(n, e) || !(0 <= n < t0.nodes.len()),
    {
        reveal(Trie::edges_ok);
        reveal(Trie::paths_distinct);
        reveal(Trie::parents_exist);
        reveal(Trie::parent_edges);
        assert forall|n: int, e: int| #[trigger] t1.child(n, e) == t0.child(n, e) || !(0 <= n < t0.nodes.len()) by {
            if 0 <= n < t0.nodes.len() {
                assert(t1.nodes@[n].children@ == t0.nodes@[n].children@);
            }
        }
        assert forall|n: int, m: int|
            0 <= n < t1.nodes.len() && 0 <= m < t1.nodes.len() && (#[trigger] t1.paths@[m]).len()
                > 0 && t1.paths@[m].drop_last() == #[trigger] t1.paths@[n] implies exists|e: int|
                0 <= e < t1.nodes@[n].children.len() && (#[trigger] t1.child(n, e)).1
                    == m as usize by {
            assert(t0.paths@[m] == t1.paths@[m] && t0.paths@[n] == t1.paths@[n]);
            let e = choose|e: int|
                0 <= e < t0.nodes@[n].children.len() && (#[trigger] t0.child(n, e)).1 == m as usize;
            assert(t1.child(n, e) == t0.child(n, e));
        }
        assert forall|n: int, e: int|
            0 <= n < t1.nodes.len() && 0 <= e < t1.nodes@[n].children.len() implies {
                let (c, m) = #[trigger] t1.child(n, e);
                &&& (m as int) < t1.nodes.len()
                &&& t1.paths@[m as int] == t1.paths@[n].push(c)
            } by {
            assert(t1.child(n, e) == t0.child(n, e));
        }
    }

    proof fn lemma_start(t0: Trie, t1: Trie, s: Seq<char>)
        requires
            t0.wf(),
            t0.keys().len() < usize::MAX,
            Self::same_edges(t0, t1),
            t1.aliases.len() == t1.ids.len(),
            t1.keys() == t0.keys().push(s),
            forall|n: int|
                0 <= n < t0.nodes.len() ==> (#[trigger] t1.nodes@[n]).terminal
                    == t0.nodes@[n].terminal,
            forall|n: int|
                0 < n < t0.nodes.len() ==> (#[trigger] t1.nodes@[n]).reach == t0.nodes@[n].reach,
            t1.nodes@[0].reach@ == t0.nodes@[0].reach@.push(t0.keys().len() as usize),
        ensures
            t1.inserting(t0.keys(), s, 0, 0),
    {
        let k = t0.keys().len() as int;
        Self::lemma_same_edges(t0, t1);
        reveal(Trie::paths_distinct);
        reveal(Trie::complete_below);
        reveal(Trie::complete_along);
        reveal(Trie::reach_ok);
        reveal(Trie::reach_during);
        reveal(Trie::terminals_ok);
        assert(s.subrange(0, 0) =~= Seq::<char>::empty());
        assert forall|n: int, a: int|
            0 <= n < t1.nodes.len() && 0 <= a < k && is_prefix_of(
                #[trigger] t1.paths@[n],
                #[trigger] t1.keys()[a],
            ) && t1.keys()[a].len() > t1.paths@[n].len() implies exists|e: int|
                0 <= e < t1.nodes@[n].children.len() && (#[trigger] t1.child(n, e)).0
                    == t1.keys()[a][t1.paths@[n].len() as int] by {
            assert(t0.keys()[a] == t1.keys()[a]);
            assert(t0.paths@[n] == t1.paths@[n]);
            let e = choose|e: int|
                0 <= e < t0.nodes@[n].children.len() && (#[trigger] t0.child(n, e)).0
                    == t0.keys()[a][t0.paths@[n].len() as int];
            assert(t1.child(n, e) == t0.child(n, e));
        }
        assert forall|n: int| 0 <= n < t1.nodes.len() implies (#[trigger] t1.nodes@[n]).reach@ == (
        if is_prefix_of(t1.paths@[n], s) && t1.paths@[n].len() <= 0 {
            hits(t1.keys(), t1.paths@[n], k + 1)
        } else {
            hits(t1.keys(), t1.paths@[n], k)
        }) by {
            assert(t0.nodes@[n].reach@ == hits(t0.keys(), t0.paths@[n], k));
            lemma_hits_frame(t0.keys(), t1.keys(), t1.paths@[n], k);
            if n == 0 {
                assert(is_prefix_of(t1.paths@[0], s)) by {
                    assert(s.subrange(0, 0) =~= t1.paths@[0]);
                }
                assert(t1.keys()[k] == s);
            } else if t1.paths@[n].len() == 0 {
                assert(t1.paths@[n] =~= t1.paths@[0]);
            }
        }
        assert forall|n: int, a: int|
            0 <= n < t1.nodes.len() && 0 <= a < k && #[trigger] t1.keys()[a]
                == #[trigger] t1.paths@[n] implies t1.nodes@[n].terminal is Some by {
            assert(t0.keys()[a] == t1.keys()[a]);
            assert(t0.paths@[n] == t1.paths@[n]);
        }
        assert forall|n: int|
            0 <= n < t1.nodes.len() && (#[trigger] t1.nodes@[n]).terminal is Some implies {
                let a = t1.nodes@[n].terminal->0 as int;
                0 <= a < k && t1.keys()[a] == t1.paths@[n]
            } by {
            assert(t0.nodes@[n].terminal is Some);
            let a = t0.nodes@[n].terminal->0 as int;
            assert(t0.keys()[a] == t1.keys()[a]);
        }
    }

    proof fn lemma_found(
        t0: Trie,
        t1: Trie,
        old_keys: Seq<Seq<char>>,
        s: Seq<char>,
        i: int,
        cur: int,
        m: int,
        e: int,
    )
        requires
            t0.inserting(old_keys, s, i, cur),
            i < s.len(),
            0 <= e < t0.nodes@[cur].children.len(),
            t0.child(cur, e) == (s[i], m as usize),
            Self::same_edges(t0, t1),
            t1.aliases == t0.aliases,
            t1.ids == t0.ids,
            forall|n: int|
                0 <= n < t0.nodes.len() ==> (#[trigger] t1.nodes@[n]).terminal
                    == t0.nodes@[n].terminal,
            forall|n: int|
                0 <= n < t0.nodes.len() && n != m ==> (#[trigger] t1.nodes@[n]).reach
                    == t0.nodes@[n].reach,
            0 <= m < t0.nodes.len(),
            t1.nodes@[m].reach@ == t0.nodes@[m].reach@.push(old_keys.len() as usize),
        ensures
            t1.inserting(old_keys, s, i + 1, m),
    {
        let k = old_keys.len() as int;
        Self::lemma_same_edges(t0, t1);
        reveal(Trie::edges_ok);
        reveal(Trie::paths_distinct);
        reveal(Trie::complete_below);
        reveal(Trie::complete_along);
        reveal(Trie::reach_during);
        reveal(Trie::terminals_ok);
        let p = s.subrange(0, i + 1);
        assert(p =~= s.subrange(0, i).push(s[i]));
        assert(t1.paths@[m] == p);
        assert forall|n: int, a: int|
            0 <= n < t1.nodes.len() && 0 <= a < k && is_prefix_of(
                #[trigger] t1.paths@[n],
                #[trigger] t1.keys()[a],
            ) && t1.keys()[a].len() > t1.paths@[n].len() implies exists|f: int|
                0 <= f < t1.nodes@[n].children.len() && (#[trigger] t1.child(n, f)).0
                    == t1.keys()[a][t1.paths@[n].len() as int] by {
            let f = choose|f: int|
                0 <= f < t0.nodes@[n].children.len() && (#[trigger] t0.child(n, f)).0
                    == t0.keys()[a][t0.paths@[n].len() as int];
            assert(t1.child(n, f) == t0.child(n, f));
        }
        assert forall|n: int|
            0 <= n < t1.nodes.len() && is_prefix_of(#[trigger] t1.paths@[n], s)
                && t1.paths@[n].len() < i + 1 implies exists|f: int|
                0 <= f < t1.nodes@[n].children.len() && (#[trigger] t1.child(n, f)).0
                    == s[t1.paths@[n].len() as int] by {
            if t1.paths@[n].len() == i {
                assert(t1.paths@[n] =~= t1.paths@[cur]);
                assert(t1.child(n, e) == t0.child(n, e));
            } else {
                let f = choose|f: int|
                    0 <= f < t0.nodes@[n].children.len() && (#[trigger] t0.child(n, f)).0
                        == s[t0.paths@[n].len() as int];
                assert(t1.child(n, f) == t0.child(n, f));
            }
        }
        assert(is_prefix_of(p, s));
        assert(t1.keys()[k] == s);
        assert forall|n: int| 0 <= n < t1.nodes.len() implies (#[trigger] t1.nodes@[n]).reach@ == (
        if is_prefix_of(t1.paths@[n], s) && t1.paths@[n].len() <= i + 1 {
            hits(t1.keys(), t1.paths@[n], k + 1)
        } else {
            hits(t1.keys(), t1.paths@[n], k)
        }) by {
            assert(t0.nodes@[n].reach@ == (if is_prefix_of(t0.paths@[n], s) && t0.paths@[n].len()
                <= i {
                hits(t0.keys(), t0.paths@[n], k + 1)
            } else {
                hits(t0.keys(), t0.paths@[n], k)
            }));
            if n != m && is_prefix_of(t1.paths@[n], s) && t1.paths@[n].len() == i + 1 {
                assert(t1.paths@[n] =~= p);
            }
        }
        assert forall|n: int, a: int|
            0 <= n < t1.nodes.len() && 0 <= a < k && #[trigger] t1.keys()[a]
                == #[trigger] t1.paths@[n] implies t1.nodes@[n].terminal is Some by {
            assert(t0.keys()[a] == t0.paths@[n]);
        }
        assert forall|n: int|
            0 <= n < t1.nodes.len() && (#[trigger] t1.nodes@[n]).terminal is Some implies {
                let a = t1.nodes@[n].terminal->0 as int;
                0 <= a < k && t1.keys()[a] == t1.paths@[n]
            } by {
            assert(t0.nodes@[n].terminal is Some);
        }
    }

    proof fn lemma_fresh_path(t0: Trie, old_keys: Seq<Seq<char>>, s: Seq<char>, i: int, cur: int)
        requires
            t0.inserting(old_keys, s, i, cur),
            i < s.len(),
            forall|e: int|
                0 <= e < t0.nodes@[cur].children.len() ==> (#[trigger] t0.child(cur, e)).0
                    != s[i],
        ensures
            forall|x: int| 0 <= x < t0.nodes.len() ==> #[trigger] t0.paths@[x] != s.subrange(0, i + 1),
            forall|a: int| 0 <= a < old_keys.len() ==> !is_prefix_of(s.subrange(0, i + 1), #[trigger] old_keys[a]),
    {
        reveal(Trie::edges_ok);
        reveal(Trie::paths_distinct);
        reveal(Trie::parents_exist);
        reveal(Trie::parent_edges);
        reveal(Trie::complete_below);
        let p = s.subrange(0, i + 1);
        assert(p.drop_last() =~= t0.paths@[cur]);
        assert forall|x: int| 0 <= x < t0.nodes.len() implies #[trigger] t0.paths@[x] != p by {
            if t0.paths@[x] == p {
                assert(t0.paths@[x].len() > 0);
                let y = choose|y: int|
                    0 <= y < t0.nodes.len() && t0.paths@[y] == t0.paths@[x].drop_last();
                assert(y == cur);
                let f = choose|f: int|
                    0 <= f < t0.nodes@[cur].children.len() && (#[trigger] t0.child(cur, f)).1
                        == x as usize;
                assert(t0.paths@[x] == t0.paths@[cur].push(t0.child(cur, f).0));
                assert(t0.paths@[x].last() == s[i]);
            }
        }
        assert forall|a: int| 0 <= a < old_keys.len() implies !is_prefix_of(p, #[trigger] old_keys[a]) by {
            if is_prefix_of(p, old_keys[a]) {
                assert(t0.keys()[a] == old_keys[a]);
                assert(old_keys[a].subrange(0, i) =~= t0.paths@[cur]);
                assert(is_prefix_of(t0.paths@[cur], t0.keys()[a]));
                assert(old_keys[a][i] == p[i]);
            }
        }
    }

    #[verifier::rlimit(60)]
    proof fn lemma_new(t0: Trie, t1: Trie, old_keys: Seq<Seq<char>>, s: Seq<char>, i: int, cur: int)
        requires
            t0.inserting(old_keys, s, i, cur),
            i < s.len(),
            forall|e: int|
                0 <= e < t0.nodes@[cur].children.len() ==> (#[trigger] t0.child(cur, e)).0
                    != s[i],
            t1.nodes.len() == t0.nodes.len() + 1,
            t1.paths@ == t0.paths@.push(s.subrange(0, i + 1)),
            t1.aliases == t0.aliases,
            t1.ids == t0.ids,
            forall|n: int|
                0 <= n < t0.nodes.len() && n != cur ==> #[trigger] t1.nodes@[n] == t0.nodes@[n],
            t1.nodes@[cur].children@ == t0.nodes@[cur].children@.push(
                (s[i], t0.nodes.len() as usize),
            ),
            t1.nodes@[cur].reach == t0.nodes@[cur].reach,
            t1.nodes@[cur].terminal == t0.nodes@[cur].terminal,
            t1.nodes@[t0.nodes.len() as int].children@.len() == 0,
            t1.nodes@[t0.nodes.len() as int].reach@ == seq![old_keys.len() as usize],
            t1.nodes@[t0.nodes.len() as int].terminal is None,
        ensures
            t1.inserting(old_keys, s, i + 1, t0.nodes.len() as int),
    {
        let k = old_keys.len() as int;
        let nn = t0.nodes.len() as int;
        let p = s.subrange(0, i + 1);
        let ce = t0.nodes@[cur].children.len() as int;
        Self::lemma_fresh_path(t0, old_keys, s, i, cur);
        reveal(Trie::edges_ok);
        reveal(Trie::paths_distinct);
        reveal(Trie::parents_exist);
        reveal(Trie::parent_edges);
        reveal(Trie::complete_below);
        reveal(Trie::complete_along);
        reveal(Trie::reach_during);
        reveal(Trie::terminals_ok);
        assert(p =~= t0.paths@[cur].push(s[i]));
        assert(p.drop_last() =~= t0.paths@[cur]);
        assert(t1.child(cur, ce) == (s[i], nn as usize));
        assert forall|n: int, e: int|
            0 <= n < nn && 0 <= e < t0.nodes@[n].children.len() implies #[trigger] t1.child(n, e)
            == t0.child(n, e) by {
            if n == cur {
                assert(t1.nodes@[cur].children@[e] == t0.nodes@[cur].children@[e]);
            }
        }
        // edges
        assert forall|n: int, e: int|
            0 <= n < t1.nodes.len() && 0 <= e < t1.nodes@[n].children.len() implies {
                let (c, m) = #[trigger] t1.child(n, e);
                &&& (m as int) < t1.nodes.len()
                &&& t1.paths@[m as int] == t1.paths@[n].push(c)
            } by {
            if n != cur || e != ce {
                assert(t1.child(n, e) == t0.child(n, e));
            }
        }
        assert(t1.edges_ok());
        assert forall|n: int, m: int|
            0 <= n < t1.nodes.len() && 0 <= m < t1.nodes.len() && n != m
                implies #[trigger] t1.paths@[n] != #[trigger] t1.paths@[m] by {
            if n != nn && m != nn {
                assert(t0.paths@[n] != t0.paths@[m]);
            }
        }
        assert(t1.paths_distinct());
        assert forall|m: int|
            0 <= m < t1.nodes.len() && (#[trigger] t1.paths@[m]).len() > 0 implies exists|n: int|
                0 <= n < t1.nodes.len() && t1.paths@[n] == t1.paths@[m].drop_last() by {
            if m == nn {
                assert(t1.paths@[cur] == t1.paths@[m].drop_last());
            } else {
                assert(t0.paths@[m] == t1.paths@[m]);
                let n = choose|n: int|
                    0 <= n < t0.nodes.len() && t0.paths@[n] == t0.paths@[m].drop_last();
                assert(t1.paths@[n] == t0.paths@[n]);
            }
        }
        assert(t1.parents_exist());
        assert forall|n: int, m: int|
            0 <= n < t1.nodes.len() && 0 <= m < t1.nodes.len() && (#[trigger] t1.paths@[m]).len()
                > 0 && t1.paths@[m].drop_last() == #[trigger] t1.paths@[n] implies exists|e: int|
                0 <= e < t1.nodes@[n].children.len() && (#[trigger] t1.child(n, e)).1
                    == m as usize by {
            if m == nn {
                assert(t1.paths@[n] == t0.paths@[cur]);
                if n != cur {
                    assert(t1.paths@[n].len() == i);
                    assert(n != nn);
                    assert(t0.paths@[n] != t0.paths@[cur]);
                }
                assert(t1.child(n, ce).1 == m as usize);
            } else if n == nn {
                assert(t0.paths@[m].len() > 0);
                let y = choose|y: int|
                    0 <= y < t0.nodes.len() && t0.paths@[y] == t0.paths@[m].drop_last();
                assert(t0.paths@[y] == p);
            } else {
                assert(t0.paths@[m] == t1.paths@[m] && t0.paths@[n] == t1.paths@[n]);
                let e = choose|e: int|
                    0 <= e < t0.nodes@[n].children.len() && (#[trigger] t0.child(n, e)).1
                        == m as usize;
                assert(t1.child(n, e) == t0.child(n, e));
            }
        }
        assert(t1.parent_edges());
        // completeness over the earlier aliases
        assert forall|n: int, a: int|
            0 <= n < t1.nodes.len() && 0 <= a < k && is_prefix_of(
                #[trigger] t1.paths@[n],
                #[trigger] t1.keys()[a],
            ) && t1.keys()[a].len() > t1.paths@[n].len() implies exists|f: int|
                0 <= f < t1.nodes@[n].children.len() && (#[trigger] t1.child(n, f)).0
                    == t1.keys()[a][t1.paths@[n].len() as int] by {
            assert(t1.keys()[a] == old_keys[a]);
            if n == nn {
                assert(!is_prefix_of(p, old_keys[a]));
            } else {
                assert(t0.paths@[n] == t1.paths@[n]);
                let f = choose|f: int|
                    0 <= f < t0.nodes@[n].children.len() && (#[trigger] t0.child(n, f)).0
                        == t0.keys()[a][t0.paths@[n].len() as int];
                assert(t1.child(n, f) == t0.child(n, f));
            }
        }
        assert(t1.complete_below(k));
        // completeness along the new alias
        assert forall|n: int|
            0 <= n < t1.nodes.len() && is_prefix_of(#[trigger] t1.paths@[n], s)
                && t1.paths@[n].len() < i + 1 implies exists|f: int|
                0 <= f < t1.nodes@[n].children.len() && (#[trigger] t1.child(n, f)).0
                    == s[t1.paths@[n].len() as int] by {
            if n != nn {
                assert(t0.paths@[n] == t1.paths@[n]);
                if t1.paths@[n].len() == i {
                    assert(t1.paths@[n] =~= t1.paths@[cur]);
                    assert(n == cur);
                } else {
                    let f = choose|f: int|
                        0 <= f < t0.nodes@[n].children.len() && (#[trigger] t0.child(n, f)).0
                            == s[t0.paths@[n].len() as int];
                    assert(t1.child(n, f) == t0.child(n, f));
                }
            }
        }
        assert(t1.complete_along(s, i + 1));
        // reach
        assert(t1.keys()[k] == s);
        assert(is_prefix_of(p, s));
        lemma_hits_none(t1.keys(), p, k);
        assert(hits(t1.keys(), p, k + 1) =~= seq![k as usize]);
        assert forall|n: int| 0 <= n < t1.nodes.len() implies (#[trigger] t1.nodes@[n]).reach@ == (
        if is_prefix_of(t1.paths@[n], s) && t1.paths@[n].len() <= i + 1 {
            hits(t1.keys(), t1.paths@[n], k + 1)
        } else {
            hits(t1.keys(), t1.paths@[n], k)
        }) by {
            if n != nn {
                assert(t0.nodes@[n].reach == t1.nodes@[n].reach);
                assert(t0.paths@[n] == t1.paths@[n]);
                assert(t0.nodes@[n].reach@ == (if is_prefix_of(t0.paths@[n], s)
                    && t0.paths@[n].len() <= i {
                    hits(t0.keys(), t0.paths@[n], k + 1)
                } else {
                    hits(t0.keys(), t0.paths@[n], k)
                }));
                if is_prefix_of(t1.paths@[n], s) && t1.paths@[n].len() == i + 1 {
                    assert(t1.paths@[n] =~= p);
                }
            }
        }
        assert(t1.reach_during(k, s, i + 1));
        // terminals
        assert forall|n: int, a: int|
            0 <= n < t1.nodes.len() && 0 <= a < k && #[trigger] t1.keys()[a]
                == #[trigger] t1.paths@[n] implies t1.nodes@[n].terminal is Some by {
            if n == nn {
                assert(is_prefix_of(p, old_keys[a])) by {
                    assert(old_keys[a].subrange(0, p.len() as int) =~= p);
                }
            } else {
                assert(t0.keys()[a] == t0.paths@[n]);
            }
        }
        assert forall|n: int|
            0 <= n < t1.nodes.len() && (#[trigger] t1.nodes@[n]).terminal is Some implies {
                let a = t1.nodes@[n].terminal->0 as int;
                0 <= a < k && t1.keys()[a] == t1.paths@[n]
            } by {
            assert(t0.nodes@[n].terminal is Some);
            assert(t0.paths@[n] == t1.paths@[n]);
        }
        assert(t1.terminals_ok(k));
    }

    proof fn lemma_finish(t0: Trie, t1: Trie, old_keys: Seq<Seq<char>>, s: Seq<char>, cur: int)
        requires
            t0.inserting(old_keys, s, s.len() as int, cur),
            t0.nodes@[cur].terminal is None,
            Self::same_edges(t0, t1),
            t1.aliases == t0.aliases,
            t1.ids == t0.ids,
            forall|n: int|
                0 <= n < t0.nodes.len() && n != cur ==> #[trigger] t1.nodes@[n] == t0.nodes@[n],
            t1.nodes@[cur].reach == t0.nodes@[cur].reach,
            t1.nodes@[cur].terminal == Some(old_keys.len() as usize),
        ensures
            t1.wf(),
            !old_keys.contains(s),
    {
        let k = old_keys.len() as int;
        assert(t1.keys().len() == t1.aliases@.len());
        Self::lemma_same_edges(t0, t1);
        reveal(Trie::paths_distinct);
        reveal(Trie::complete_below);
        reveal(Trie::complete_along);
        reveal(Trie::reach_ok);
        reveal(Trie::reach_during);
        reveal(Trie::terminals_ok);
        assert(s.subrange(0, s.len() as int) =~= s);
        assert(t1.keys()[k] == s);
        assert forall|a: int| 0 <= a < k implies #[trigger] old_keys[a] != s by {
            if old_keys[a] == s {
                assert(t0.keys()[a] == t0.paths@[cur]);
            }
        }
        assert forall|n: int, a: int|
            0 <= n < t1.nodes.len() && 0 <= a < k + 1 && is_prefix_of(
                #[trigger] t1.paths@[n],
                #[trigger] t1.keys()[a],
            ) && t1.keys()[a].len() > t1.paths@[n].len() implies exists|f: int|
                0 <= f < t1.nodes@[n].children.len() && (#[trigger] t1.child(n, f)).0
                    == t1.keys()[a][t1.paths@[n].len() as int] by {
            if a < k {
                let f = choose|f: int|
                    0 <= f < t0.nodes@[n].children.len() && (#[trigger] t0.child(n, f)).0
                        == t0.keys()[a][t0.paths@[n].len() as int];
                assert(t1.child(n, f) == t0.child(n, f));
            } else {
                let f = choose|f: int|
                    0 <= f < t0.nodes@[n].children.len() && (#[trigger] t0.child(n, f)).0
                        == s[t0.paths@[n].len() as int];
                assert(t1.child(n, f) == t0.child(n, f));
            }
        }
        assert forall|n: int| 0 <= n < t1.nodes.len() implies (#[trigger] t1.nodes@[n]).reach@
            == hits(t1.keys(), t1.paths@[n], k + 1) by {
            assert(t0.nodes@[n].reach == t1.nodes@[n].reach);
            assert(t0.nodes@[n].reach@ == (if is_prefix_of(t0.paths@[n], s) && t0.paths@[n].len()
                <= s.len() {
                hits(t0.keys(), t0.paths@[n], k + 1)
            } else {
                hits(t0.keys(), t0.paths@[n], k)
            }));
        }
        assert forall|n: int, a: int|
            0 <= n < t1.nodes.len() && 0 <= a < k + 1 && #[trigger] t1.keys()[a]
                == #[trigger] t1.paths@[n] implies t1.nodes@[n].terminal is Some by {
            if a < k {
                assert(t0.keys()[a] == t0.paths@[n]);
            } else if n != cur {
                assert(t1.paths@[n] == t1.paths@[cur]);
            }
        }
        assert forall|n: int|
            0 <= n < t1.nodes.len() && (#[trigger] t1.nodes@[n]).terminal is Some implies {
                let a = t1.nodes@[n].terminal->0 as int;
                0 <= a < k + 1 && t1.keys()[a] == t1.paths@[n]
            } by {
            if n != cur {
                assert(t0.nodes@[n].terminal is Some);
            } else {
                assert(t1.paths@[cur] == s);
            }
        }
        assert(t1.keys().len() == k + 1);
    }

    proof fn lemma_duplicate(t0: Trie, old_keys: Seq<Seq<char>>, s: Seq<char>, cur: int)
        requires
            t0.inserting(old_keys, s, s.len() as int, cur),
            t0.nodes@[cur].terminal is Some,
        ensures
            old_keys.contains(s),
    {
        reveal(Trie::terminals_ok);
        assert(s.subrange(0, s.len() as int) =~= s);
        let a = t0.nodes@[cur].terminal->0 as int;
        assert(old_keys[a] == t0.keys()[a]);
    }

    /// The aliases of a well-formed trie are distinct.
    pub proof fn lemma_keys_distinct(&self)
        requires
            self.wf(),
        ensures
            Self::keys_distinct(self.keys()),
            self.keys().len() == self.id_seq().len(),
            self.keys().len() <= usize::MAX,
    {
        assert(self.aliases@.len() == self.aliases.len());
    }

    /// A trie with no aliases.
    pub fn new() -> (r: Trie)
        ensures
            r.wf(),
            r.keys() == Seq::<Seq<char>>::empty(),
            r.id_seq() == Seq::<usize>::empty(),
    {
        let root = TrieNode { children: Vec::new(), reach: Vec::new(), terminal: None };
        let mut nodes: Vec<TrieNode> = Vec::new();
        nodes.push(root);
        let r = Trie {
            nodes,
            aliases: Vec::new(),
            ids: Vec::new(),
            paths: Ghost(Seq::<Seq<char>>::empty().push(Seq::<char>::empty())),
        };
        proof {
            reveal(Trie::edges_ok);
            reveal(Trie::paths_distinct);
            reveal(Trie::parents_exist);
            reveal(Trie::parent_edges);
            reveal(Trie::complete_below);
            reveal(Trie::reach_ok);
            reveal(Trie::terminals_ok);
            assert(r.keys() =~= Seq::<Seq<char>>::empty());
            assert(r.nodes@[0].reach@ =~= hits(r.keys(), r.paths@[0], 0));
        }
        r
    }

    fn find_child(&self, n: usize, c: char) -> (r: Option<usize>)
        requires
            n < self.nodes.len(),
            self.base_ok(),
            self.edges_ok(),
        ensures
            r matches Some(m) ==> (m as int) < self.nodes.len() && exists|e: int|
                0 <= e < self.nodes@[n as int].children.len() && #[trigger] self.child(n as int, e)
                    == (c, m),
            r is None ==> forall|e: int|
                0 <= e < self.nodes@[n as int].children.len() ==> (#[trigger] self.child(
                    n as int,
                    e,
                )).0 != c,
    {
        let children = &self.nodes[n].children;
        let mut e: usize = 0;
        while e < children.len()
            invariant
                n < self.nodes.len(),
                self.edges_ok(),
                children == &self.nodes@[n as int].children,
                e <= children.len(),
                forall|f: int| 0 <= f < e ==> (#[trigger] self.child(n as int, f)).0 != c,
            decreases children.len() - e,
        {
            let (d, m) = children[e];
            if d == c {
                assert(self.child(n as int, e as int) == (c, m));
                proof {
                    reveal(Trie::edges_ok);
                    assert((m as int) < self.nodes.len());
                }
                return Some(m);
            }
            e = e + 1;
        }
        None
    }

    /// Adds alias `s` naming `id`. Returns `false` when `s` is already an alias
    /// (the trie is then to be discarded).
    pub fn insert(&mut self, s: &String, id: usize) -> (fresh: bool)
        requires
            old(self).wf(),
        ensures
            fresh == !old(self).keys().contains(s@),
            fresh ==> final(self).wf(),
            fresh ==> final(self).keys() == old(self).keys().push(s@),
            fresh ==> final(self).id_seq() == old(self).id_seq().push(id),
    {
        let chars = crate::text::char_vec(s.as_str());
        let ghost old_keys = self.keys();
        let k = self.aliases.len();
        self.aliases.push(s.clone());
        self.ids.push(id);
        self.nodes[0].reach.push(k);
        proof {
            assert(self.keys() =~= old_keys.push(s@));
            assert(self.aliases.len() == k + 1);
            Self::lemma_start(*old(self), *self, s@);
        }
        let mut cur: usize = 0;
        let mut i: usize = 0;
        while i < chars.len()
            invariant
                chars@ == s@,
                i <= chars.len(),
                k == old_keys.len(),
                old_keys == old(self).keys(),
                self.inserting(old_keys, s@, i as int, cur as int),
                self.id_seq() == old(self).id_seq().push(id),
            decreases chars.len() - i,
        {
            let c = chars[i];
            match self.find_child(cur, c) {
                Some(m) => {
                    let ghost e = choose|e: int|
                        0 <= e < self.nodes@[cur as int].children.len() && #[trigger] self.child(
                            cur as int,
                            e,
                        ) == (c, m);
                    let ghost t0 = *self;
                    self.nodes[m].reach.push(k);
                    proof {
                        Self::lemma_found(t0, *self, old_keys, s@, i as int, cur as int, m as int, e);
                    }
                    cur = m;
                },
                None => {
                    let nn = self.nodes.len();
                    let ghost t0 = *self;
                    let mut reach: Vec<usize> = Vec::new();
                    reach.push(k);
                    self.nodes.push(TrieNode { children: Vec::new(), reach, terminal: None });
                    self.nodes[cur].children.push((c, nn));
                    self.paths = Ghost(self.paths@.push(s@.subrange(0, i as int + 1)));
                    proof {
                        assert(self.nodes@[nn as int].reach@ =~= seq![k]);
                        Self::lemma_new(t0, *self, old_keys, s@, i as int, cur as int);
                    }
                    cur = nn;
                },
            }
            i = i + 1;
        }
        if self.nodes[cur].terminal.is_some() {
            proof {
                Self::lemma_duplicate(*self, old_keys, s@, cur as int);
            }
            return false;
        }
        let ghost t0 = *self;
        self.nodes[cur].terminal = Some(k);
        proof {
            Self::lemma_finish(t0, *self, old_keys, s@, cur as int);
        }
        true
    }

    proof fn lemma_dead_end(&self, cur: int, s: Seq<char>, i: int)
        requires
            self.wf(),
            0 <= cur < self.nodes.len(),
            0 <= i < s.len(),
            self.paths@[cur] == s.subrange(0, i),
            forall|e: int|
                0 <= e < self.nodes@[cur].children.len() ==> (#[trigger] self.child(cur, e)).0
                    != s[i],
        ensures
            all_hits(self.keys(), s).len() == 0,
    {
        reveal(Trie::complete_below);
        assert forall|a: int| 0 <= a < self.keys().len() implies !is_prefix_of(
            s,
            #[trigger] self.keys()[a],
        ) by {
            if is_prefix_of(s, self.keys()[a]) {
                assert(self.keys()[a].subrange(0, i) =~= self.paths@[cur]);
                assert(self.keys()[a][i] == s[i]);
            }
        }
        lemma_hits_none(self.keys(), s, self.keys().len() as int);
    }

    proof fn lemma_step(&self, cur: int, m: usize, e: int, s: Seq<char>, i: int)
        requires
            self.wf(),
            0 <= cur < self.nodes.len(),
            0 <= i < s.len(),
            self.paths@[cur] == s.subrange(0, i),
            0 <= e < self.nodes@[cur].children.len(),
            self.child(cur, e) == (s[i], m),
        ensures
            (m as int) < self.nodes.len(),
            self.paths@[m as int] == s.subrange(0, i + 1),
    {
        reveal(Trie::edges_ok);
        assert(s.subrange(0, i + 1) =~= s.subrange(0, i).push(s[i]));
    }

    proof fn lemma_reach(&self, cur: int, s: Seq<char>)
        requires
            self.wf(),
            0 <= cur < self.nodes.len(),
            self.paths@[cur] == s,
        ensures
            self.nodes@[cur].reach@ == all_hits(self.keys(), s),
            forall|j: int|
                0 <= j < self.nodes@[cur].reach.len() ==> (#[trigger] self.nodes@[cur].reach@[j])
                    < self.ids.len(),
    {
        reveal(Trie::reach_ok);
        assert(self.keys().len() == self.aliases@.len());
        lemma_hits_members(self.keys(), s, self.keys().len() as int);
    }

    /// Resolves a possibly abbreviated identifier against the aliases: the
    /// outcome is exactly `resolve_spec` of the aliases and their ids.
    pub fn resolve(&self, s: &str) -> (r: Result<usize, IdParseError>)
        requires
            self.wf(),
        ensures
            id_result_view(r) == resolve_spec(self.keys(), self.id_seq(), s@),
    {
        let chars = crate::text::char_vec(s);
        let mut cur: usize = 0;
        let mut i: usize = 0;
        proof {
            assert(s@.subrange(0, 0) =~= self.paths@[0]);
        }
        while i < chars.len()
            invariant
                self.wf(),
                chars@ == s@,
                i <= chars.len(),
                cur < self.nodes.len(),
                self.paths@[cur as int] == s@.subrange(0, i as int),
            decreases chars.len() - i,
        {
            match self.find_child(cur, chars[i]) {
                Some(m) => {
                    proof {
                        let e = choose|e: int|
                            0 <= e < self.nodes@[cur as int].children.len()
                                && #[trigger] self.child(cur as int, e) == (chars@[i as int], m);
                        self.lemma_step(cur as int, m, e, s@, i as int);
                    }
                    cur = m;
                },
                None => {
                    proof {
                        self.lemma_dead_end(cur as int, s@, i as int);
                    }
                    return Err(IdParseError::NoMatch(s.to_owned()));
                },
            }
            i = i + 1;
        }
        proof {
            assert(s@.subrange(0, s@.len() as int) =~= s@);
            self.lemma_reach(cur as int, s@);
        }
        let reach = &self.nodes[cur].reach;
        let ghost h = all_hits(self.keys(), s@);
        if reach.len() == 0 {
            return Err(IdParseError::NoMatch(s.to_owned()));
        }
        let mut named: Vec<usize> = Vec::new();
        let mut j: usize = 0;
        while j < reach.len()
            invariant
                reach@ == h,
                j <= reach.len(),
                forall|x: int| 0 <= x < reach.len() ==> (#[trigger] reach@[x]) < self.ids.len(),
                named@ == h.subrange(0, j as int).map_values(|a: usize| self.ids@[a as int]),
            decreases reach.len() - j,
        {
            named.push(self.ids[reach[j]]);
            j = j + 1;
            proof {
                assert(named@ =~= h.subrange(0, j as int).map_values(|a: usize| self.ids@[a as int]));
            }
        }
        proof {
            assert(h.subrange(0, h.len() as int) =~= h);
        }
        match parse_resolve_ambiguous(&named) {
            Some(id) => {
                proof {
                    assert forall|x: int| 0 <= x < h.len() implies self.ids@[#[trigger] h[x] as int]
                        == self.ids@[h[0] as int] by {
                        assert(named@[x] == named@[0]);
                    }
                }
                Ok(id)
            },
            None => {
                proof {
                    if unanimous(self.ids@, h) {
                        assert forall|x: int| 0 <= x < named.len() implies #[trigger] named@[x]
                            == named@[0] by {
                            assert(self.ids@[h[x] as int] == self.ids@[h[0] as int]);
                        }
                    }
                }
                let mut cands: Vec<String> = Vec::new();
                let mut j: usize = 0;
                while j < reach.len()
                    invariant
                        self.wf(),
                        reach@ == h,
                        j <= reach.len(),
                        forall|x: int| 0 <= x < reach.len() ==> (#[trigger] reach@[x]) < self.ids.len(),
                        strings_view(cands@) == h.subrange(0, j as int).map_values(
                            |a: usize| self.keys()[a as int],
                        ),
                    decreases reach.len() - j,
                {
                    proof {
                        let a = reach@[j as int] as int;
                        assert(self.keys().len() == self.aliases@.len());
                        assert(self.keys()[a] == self.aliases@[a]@);
                    }
                    let ghost before = cands@;
                    let alias = self.aliases[reach[j]].clone();
                    assert(alias@ == self.keys()[h[j as int] as int]);
                    cands.push(alias);
                    j = j + 1;
                    proof {
                        assert(cands@ == before.push(alias));
                        assert(strings_view(cands@) =~= strings_view(before).push(alias@));
                        assert(h.subrange(0, j as int) =~= h.subrange(0, j - 1).push(h[j - 1]));
                        assert(strings_view(cands@) =~= h.subrange(0, j as int).map_values(
                            |a: usize| self.keys()[a as int],
                        ));
                    }
                }
                Err(IdParseError::Ambiguous(cands, s.to_owned()))
            },
        }
    }
}

/// The mathematical content of a resolution outcome.
pub open spec fn id_result_view(r: Result<usize, IdParseError>) -> Result<usize, IdErrorModel> {
    match r {
        Ok(id) => Ok(id),
        Err(e) => Err(e@),
    }
}

} // verus!
