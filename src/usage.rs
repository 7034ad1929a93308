use vstd::prelude::*;
use crate::grammar::{CommandSyntax, RestArg};
use crate::text::{char_vec, lemma_strings_push, strings_view};

verus! {

// A usage line declares a command's aliases and argument names:
//
//     (remove|rm) <user> [reason] <roles...>
//
// first one alias, or several between parentheses separated by `|`; then
// required names in angle brackets, optional names in square brackets, and at
// most one rest name ending in `...`, last.

/// Whitespace between the parts of a usage line: the characters of Unicode's
/// White_Space property.
pub open spec fn is_ws(c: char) -> bool {
    ('\u{9}' <= c && c <= '\u{d}') || c == ' ' || c == '\u{85}' || c == '\u{a0}'
        || c == '\u{1680}' || ('\u{2000}' <= c && c <= '\u{200a}') || c == '\u{2028}'
        || c == '\u{2029}' || c == '\u{202f}' || c == '\u{205f}' || c == '\u{3000}'
}

/// The first index in `p..q` not holding whitespace, or `q`.
pub open spec fn ws_skip(s: Seq<char>, p: int, q: int) -> int
    decreases q - p,
{
    if p >= q || !is_ws(s[p]) {
        p
    } else {
        ws_skip(s, p + 1, q)
    }
}

/// The end of `s[p..q]` without its trailing whitespace.
pub open spec fn ws_back(s: Seq<char>, p: int, q: int) -> int
    decreases q - p,
{
    if q <= p || !is_ws(s[q - 1]) {
        q
    } else {
        ws_back(s, p, q - 1)
    }
}

/// `s[p..q]` without leading and trailing whitespace.
pub open spec fn trim_span(s: Seq<char>, p: int, q: int) -> Seq<char> {
    let a = ws_skip(s, p, q);
    s.subrange(a, ws_back(s, a, q))
}

/// The first index from `i` on holding whitespace, or the length.
pub open spec fn word_end(s: Seq<char>, i: int) -> int
    decreases s.len() - i,
{
    if i < 0 || i >= s.len() || is_ws(s[i]) {
        i
    } else {
        word_end(s, i + 1)
    }
}

/// Reading a parenthesised alias list from index `i`, the current piece
/// starting at `start`: pieces end at `|` or `)` and are trimmed. The result is
/// the pieces and the index after `)`, or `None` when `)` never comes.
pub open spec fn group_spec(s: Seq<char>, i: int, start: int, acc: Seq<Seq<char>>) -> Option<
    (Seq<Seq<char>>, int),
>
    decreases s.len() - i,
{
    if i < 0 || i >= s.len() {
        None
    } else if s[i] == ')' {
        Some((acc.push(trim_span(s, start, i)), i + 1))
    } else if s[i] == '|' {
        group_spec(s, i + 1, i + 1, acc.push(trim_span(s, start, i)))
    } else {
        group_spec(s, i + 1, start, acc)
    }
}

/// The aliases a usage line starts with and the index after them: a
/// parenthesised list, or a single word that does not start with `(`.
pub open spec fn ids_spec(s: Seq<char>) -> Option<(Seq<Seq<char>>, int)> {
    let i = ws_skip(s, 0, s.len() as int);
    if i >= s.len() {
        None
    } else if s[i] == '(' {
        group_spec(s, i + 1, i + 1, Seq::empty())
    } else {
        Some((seq![s.subrange(i, word_end(s, i))], word_end(s, i)))
    }
}

/// A name between brackets that ends in `...` after at least one character.
pub open spec fn is_rest_name(name: Seq<char>) -> bool {
    name.len() > 3 && name[name.len() - 3] == '.' && name[name.len() - 2] == '.' && name[name.len()
        - 1] == '.'
}

pub enum RestModel {
    Absent,
    Optional(Seq<char>),
    Required(Seq<char>),
}

impl View for RestArg {
    type V = RestModel;

    open spec fn view(&self) -> RestModel {
        match self {
            RestArg::Absent => RestModel::Absent,
            RestArg::Optional(n) => RestModel::Optional(n@),
            RestArg::Required(n) => RestModel::Required(n@),
        }
    }
}

/// Why a usage line was refused.
#[derive(Clone, Debug, PartialEq, Eq)]
pub enum UsageError {
    /// The line holds no alias, an empty alias, or an alias list without its `)`.
    InvalidIds,
    /// The line goes on, from the given text, with something that is not an
    /// argument in order: an unclosed bracket, a required name after an
    /// optional one, anything after a rest name, or stray characters.
    Trailing(String),
}

pub enum UsageErrorModel {
    InvalidIds,
    Trailing(Seq<char>),
}

impl View for UsageError {
    type V = UsageErrorModel;

    open spec fn view(&self) -> UsageErrorModel {
        match self {
            UsageError::InvalidIds => UsageErrorModel::InvalidIds,
            UsageError::Trailing(t) => UsageErrorModel::Trailing(t@),
        }
    }
}

pub open spec fn close_of(open: char) -> char {
    if open == '<' {
        '>'
    } else {
        ']'
    }
}

/// Reading argument names from index `i`. When `open` is `<` or `[`, a name
/// opened at `start` is being read; `opt_seen` tells whether an optional name
/// came; `rest` holds the rest name once one came; `req` and `opt` the names so
/// far. The result is the required names, the optional names and the rest name.
pub open spec fn args_spec(
    s: Seq<char>,
    i: int,
    open: char,
    start: int,
    opt_seen: bool,
    rest: Option<RestModel>,
    req: Seq<Seq<char>>,
    opt: Seq<Seq<char>>,
) -> Result<(Seq<Seq<char>>, Seq<Seq<char>>, RestModel), UsageErrorModel>
    decreases s.len() - i,
{
    if i < 0 || i >= s.len() {
        if open != ' ' {
            Err(UsageErrorModel::Trailing(s.subrange(start, s.len() as int)))
        } else {
            Ok(
                (
                    req,
                    opt,
                    match rest {
                        Some(r) => r,
                        None => RestModel::Absent,
                    },
                ),
            )
        }
    } else if open != ' ' {
        if s[i] != close_of(open) {
            args_spec(s, i + 1, open, start, opt_seen, rest, req, opt)
        } else {
            let name = s.subrange(start + 1, i);
            if is_rest_name(name) {
                let base = name.subrange(0, name.len() - 3);
                let r = if open == '<' {
                    RestModel::Required(base)
                } else {
                    RestModel::Optional(base)
                };
                args_spec(s, i + 1, ' ', start, opt_seen, Some(r), req, opt)
            } else if open == '<' {
                if opt_seen {
                    Err(UsageErrorModel::Trailing(s.subrange(start, s.len() as int)))
                } else {
                    args_spec(s, i + 1, ' ', start, opt_seen, rest, req.push(name), opt)
                }
            } else {
                args_spec(s, i + 1, ' ', start, true, rest, req, opt.push(name))
            }
        }
    } else if is_ws(s[i]) {
        args_spec(s, i + 1, ' ', start, opt_seen, rest, req, opt)
    } else if rest is None && (s[i] == '<' || s[i] == '[') {
        args_spec(s, i + 1, s[i], i, opt_seen, rest, req, opt)
    } else {
        Err(UsageErrorModel::Trailing(s.subrange(i, s.len() as int)))
    }
}

/// What a usage line declares: its aliases, none of them empty, and its
/// argument names.
pub open spec fn usage_spec(s: Seq<char>) -> Result<
    (Seq<Seq<char>>, Seq<Seq<char>>, Seq<Seq<char>>, RestModel),
    UsageErrorModel,
> {
    match ids_spec(s) {
        None => Err(UsageErrorModel::InvalidIds),
        Some((ids, j)) => if exists|k: int| 0 <= k < ids.len() && (#[trigger] ids[k]).len() == 0 {
            Err(UsageErrorModel::InvalidIds)
        } else {
            match args_spec(s, j, ' ', 0, false, None, Seq::empty(), Seq::empty()) {
            Ok((req, opt, rest)) => Ok((ids, req, opt, rest)),
            Err(e) => Err(e),
            }
        },
    }
}

pub open spec fn usage_result_view(r: Result<(Vec<String>, CommandSyntax), UsageError>) -> Result<
    (Seq<Seq<char>>, Seq<Seq<char>>, Seq<Seq<char>>, RestModel),
    UsageErrorModel,
> {
    match r {
        Ok((ids, syn)) => Ok(
            (strings_view(ids@), strings_view(syn.required@), strings_view(syn.optional@), syn.rest@),
        ),
        Err(e) => Err(e@),
    }
}

fn is_ws_char(c: char) -> (r: bool)
    ensures
        r == is_ws(c),
{
    ('\u{9}' <= c && c <= '\u{d}') || c == ' ' || c == '\u{85}' || c == '\u{a0}'
        || c == '\u{1680}' || ('\u{2000}' <= c && c <= '\u{200a}') || c == '\u{2028}'
        || c == '\u{2029}' || c == '\u{202f}' || c == '\u{205f}' || c == '\u{3000}'
}

fn skip_ws(s: &Vec<char>, p: usize, q: usize) -> (r: usize)
    requires
        p <= q <= s.len(),
    ensures
        r as int == ws_skip(s@, p as int, q as int),
        p <= r <= q,
{
    let mut i = p;
    while i < q && is_ws_char(s[i])
        invariant
            p <= i <= q,
            q <= s.len(),
            ws_skip(s@, p as int, q as int) == ws_skip(s@, i as int, q as int),
        decreases q - i,
    {
        i = i + 1;
    }
    i
}

fn back_ws(s: &Vec<char>, p: usize, q: usize) -> (r: usize)
    requires
        p <= q <= s.len(),
    ensures
        r as int == ws_back(s@, p as int, q as int),
        p <= r <= q,
{
    let mut e = q;
    while e > p && is_ws_char(s[e - 1])
        invariant
            p <= e <= q,
            q <= s.len(),
            ws_back(s@, p as int, q as int) == ws_back(s@, p as int, e as int),
        decreases e - p,
    {
        e = e - 1;
    }
    e
}

fn piece(line: &str, s: &Vec<char>, p: usize, q: usize) -> (r: String)
    requires
        s@ == line@,
        p <= q <= s.len(),
    ensures
        r@ == s@.subrange(p as int, q as int),
{
    line.substring_char(p, q).to_owned()
}

fn trimmed(line: &str, s: &Vec<char>, p: usize, q: usize) -> (r: String)
    requires
        s@ == line@,
        p <= q <= s.len(),
    ensures
        r@ == trim_span(s@, p as int, q as int),
{
    let a = skip_ws(s, p, q);
    let b = back_ws(s, a, q);
    piece(line, s, a, b)
}

fn read_group(line: &str, s: &Vec<char>, from: usize) -> (r: Option<(Vec<String>, usize)>)
    requires
        s@ == line@,
        from <= s.len(),
    ensures
        match r {
            Some((v, e)) => group_spec(s@, from as int, from as int, Seq::empty()) == Some(
                (strings_view(v@), e as int),
            ) && e <= s.len(),
            None => group_spec(s@, from as int, from as int, Seq::empty()) is None,
        },
{
    let mut out: Vec<String> = Vec::new();
    let mut start = from;
    let mut k = from;
    proof {
        assert(strings_view(out@) =~= Seq::<Seq<char>>::empty());
    }
    while k < s.len()
        invariant
            s@ == line@,
            from <= start <= k <= s.len(),
            group_spec(s@, from as int, from as int, Seq::empty()) == group_spec(
                s@,
                k as int,
                start as int,
                strings_view(out@),
            ),
        decreases s.len() - k,
    {
        if s[k] == ')' || s[k] == '|' {
            let t = trimmed(line, s, start, k);
            let ghost before = out@;
            out.push(t);
            proof {
                lemma_strings_push(before, t);
            }
            if s[k] == ')' {
                return Some((out, k + 1));
            }
            start = k + 1;
        }
        k = k + 1;
    }
    None
}

pub open spec fn rest_model(r: Option<RestArg>) -> Option<RestModel> {
    match r {
        Some(x) => Some(x@),
        None => None,
    }
}

/// Reads a usage line such as `(remove|rm) <user> [reason] <roles...>`: the
/// outcome is exactly `usage_spec` of the line.
pub fn parse_usage_line(line: &str) -> (r: Result<(Vec<String>, CommandSyntax), UsageError>)
    ensures
        usage_result_view(r) == usage_spec(line@),
{
    let s = char_vec(line);
    let n = s.len();
    let i = skip_ws(&s, 0, n);
    if i >= n {
        return Err(UsageError::InvalidIds);
    }
    let ids: Vec<String>;
    let j: usize;
    if s[i] == '(' {
        match read_group(line, &s, i + 1) {
            Some((v, e)) => {
                ids = v;
                j = e;
            },
            None => {
                return Err(UsageError::InvalidIds);
            },
        }
    } else {
        let mut e = i;
        while e < n && !is_ws_char(s[e])
            invariant
                i <= e <= n,
                n == s.len(),
                word_end(s@, i as int) == word_end(s@, e as int),
            decreases n - e,
        {
            e = e + 1;
        }
        let w = piece(line, &s, i, e);
        ids = vec![w];
        j = e;
        proof {
            assert(strings_view(ids@) =~= seq![s@.subrange(i as int, e as int)]);
        }
    }
    let ghost ids_model = strings_view(ids@);
    assert(ids_spec(line@) == Some((ids_model, j as int)));
    let mut x: usize = 0;
    while x < ids.len()
        invariant
            x <= ids.len(),
            ids_model == strings_view(ids@),
            ids_spec(line@) == Some((ids_model, j as int)),
            forall|y: int| 0 <= y < x ==> (#[trigger] ids_model[y]).len() > 0,
        decreases ids.len() - x,
    {
        if ids[x].as_str().is_empty() {
            proof {
                assert(ids_model[x as int].len() == 0);
            }
            return Err(UsageError::InvalidIds);
        }
        x = x + 1;
    }
    let mut open: char = ' ';
    let mut start: usize = 0;
    let mut opt_seen = false;
    let mut rest: Option<RestArg> = None;
    let mut req: Vec<String> = Vec::new();
    let mut opt: Vec<String> = Vec::new();
    let mut k = j;
    proof {
        assert(strings_view(req@) =~= Seq::<Seq<char>>::empty());
        assert(strings_view(opt@) =~= Seq::<Seq<char>>::empty());
    }
    while k < n
        invariant
            n == s.len(),
            s@ == line@,
            j <= k <= n,
            ids_spec(line@) == Some((ids_model, j as int)),
            forall|y: int| 0 <= y < ids_model.len() ==> (#[trigger] ids_model[y]).len() > 0,
            open == ' ' || open == '<' || open == '[',
            open != ' ' ==> start < k,
            args_spec(s@, j as int, ' ', 0, false, None, Seq::empty(), Seq::empty()) == args_spec(
                s@,
                k as int,
                open,
                start as int,
                opt_seen,
                rest_model(rest),
                strings_view(req@),
                strings_view(opt@),
            ),
        decreases n - k,
    {
        let c = s[k];
        if open != ' ' {
            let close = if open == '<' {
                '>'
            } else {
                ']'
            };
            if c == close {
                let len = k - start - 1;
                let dots = len > 3 && s[k - 3] == '.' && s[k - 2] == '.' && s[k - 1] == '.';
                proof {
                    let name = s@.subrange(start + 1, k as int);
                    assert(name.len() == len);
                    if len > 3 {
                        assert(name[name.len() - 3] == s@[k - 3]);
                        assert(name[name.len() - 2] == s@[k - 2]);
                        assert(name[name.len() - 1] == s@[k - 1]);
                    }
                    assert(dots == is_rest_name(name));
                }
                if dots {
                    let base = piece(line, &s, start + 1, k - 3);
                    proof {
                        let name = s@.subrange(start + 1, k as int);
                        assert(name.subrange(0, name.len() - 3) =~= base@);
                    }
                    rest = Some(
                        if open == '<' {
                            RestArg::Required(base)
                        } else {
                            RestArg::Optional(base)
                        },
                    );
                } else if open == '<' {
                    if opt_seen {
                        return Err(UsageError::Trailing(piece(line, &s, start, n)));
                    }
                    let name = piece(line, &s, start + 1, k);
                    let ghost before = req@;
                    req.push(name);
                    proof {
                        lemma_strings_push(before, name);
                    }
                } else {
                    let name = piece(line, &s, start + 1, k);
                    let ghost before = opt@;
                    opt.push(name);
                    opt_seen = true;
                    proof {
                        lemma_strings_push(before, name);
                    }
                }
                open = ' ';
            }
        } else if is_ws_char(c) {
        } else if rest.is_none() && (c == '<' || c == '[') {
            open = c;
            start = k;
        } else {
            return Err(UsageError::Trailing(piece(line, &s, k, n)));
        }
        k = k + 1;
    }
    if open != ' ' {
        return Err(UsageError::Trailing(piece(line, &s, start, n)));
    }
    let rest = match rest {
        Some(r) => r,
        None => RestArg::Absent,
    };
    Ok((ids, CommandSyntax { required: req, optional: opt, rest }))
}

} // verus!
