//! Content shaping: whitespace tokens, token limit and size limit.
use vstd::prelude::*;

verus! {

/// Unicode `White_Space`, the property that `char::is_whitespace` tests.
pub open spec fn is_ws(c: char) -> bool {
    ('\u{9}' <= c && c <= '\u{d}') || c == ' ' || c == '\u{85}' || c == '\u{a0}'
        || c == '\u{1680}' || ('\u{2000}' <= c && c <= '\u{200a}') || c == '\u{2028}'
        || c == '\u{2029}' || c == '\u{202f}' || c == '\u{205f}' || c == '\u{3000}'
}

/// Whether `c` is whitespace.
pub fn is_whitespace(c: char) -> (r: bool)
    ensures
        r == is_ws(c),
{
    ('\u{9}' <= c && c <= '\u{d}') || c == ' ' || c == '\u{85}' || c == '\u{a0}'
        || c == '\u{1680}' || ('\u{2000}' <= c && c <= '\u{200a}') || c == '\u{2028}'
        || c == '\u{2029}' || c == '\u{202f}' || c == '\u{205f}' || c == '\u{3000}'
}

/// The maximal runs of non-whitespace characters of `s`, in order.
pub open spec fn tokens(s: Seq<char>) -> Seq<Seq<char>>
    decreases s.len(),
{
    if s.len() == 0 {
        Seq::empty()
    } else {
        let prev = tokens(s.drop_last());
        let c = s.last();
        if is_ws(c) {
            prev
        } else if s.len() >= 2 && !is_ws(s[s.len() - 2]) {
            prev.drop_last().push(prev.last().push(c))
        } else {
            prev.push(seq![c])
        }
    }
}

/// The pieces joined by `sep`.
pub open spec fn join_sep(ts: Seq<Seq<char>>, sep: char) -> Seq<char>
    decreases ts.len(),
{
    if ts.len() == 0 {
        Seq::empty()
    } else if ts.len() == 1 {
        ts[0]
    } else {
        join_sep(ts.drop_last(), sep) + seq![sep] + ts.last()
    }
}

/// The tokens joined by single spaces.
pub open spec fn join_space(ts: Seq<Seq<char>>) -> Seq<char> {
    join_sep(ts, ' ')
}

pub open spec fn min_nat(a: nat, b: nat) -> nat {
    if a < b { a } else { b }
}

/// The text after the token limit: the first `n` tokens joined by single
/// spaces, or the text itself when no limit is set.
pub open spec fn token_shaped(s: Seq<char>, token_limit: Option<usize>) -> Seq<char> {
    match token_limit {
        Some(n) => join_space(tokens(s).take(min_nat(n as nat, tokens(s).len()) as int)),
        None => s,
    }
}

/// The text cut to at most `m` characters, or left whole when no limit is set.
pub open spec fn size_shaped(s: Seq<char>, size_limit: Option<usize>) -> Seq<char> {
    match size_limit {
        Some(m) => if s.len() > m { s.take(m as int) } else { s },
        None => s,
    }
}

/// A file's text as it is appended: token limit first, then size limit.
pub open spec fn shaped(s: Seq<char>, token_limit: Option<usize>, size_limit: Option<usize>) -> Seq<char> {
    size_shaped(token_shaped(s, token_limit), size_limit)
}

/// The views of the elements of `v`.
pub open spec fn views(v: Seq<Vec<char>>) -> Seq<Seq<char>> {
    v.map_values(|w: Vec<char>| w@)
}

pub proof fn lemma_views_push(v: Seq<Vec<char>>, x: Vec<char>)
    ensures
        views(v.push(x)) == views(v).push(x@),
{
    assert(views(v.push(x)) =~= views(v).push(x@));
}

proof fn lemma_tokens_nonempty(s: Seq<char>)
    requires
        s.len() > 0,
        !is_ws(s.last()),
    ensures
        tokens(s).len() > 0,
{
}

/// Splits `s` into its whitespace-delimited tokens.
pub fn split_tokens(s: &Vec<char>) -> (r: Vec<Vec<char>>)
    ensures
        r@.map_values(|w: Vec<char>| w@) == tokens(s@),
{
    let mut words: Vec<Vec<char>> = Vec::new();
    let mut i: usize = 0;
    while i < s.len()
        invariant
            i <= s.len(),
            words@.map_values(|w: Vec<char>| w@) == tokens(s@.take(i as int)),
        decreases s.len() - i,
    {
        let c = s[i];
        let ghost pre = s@.take(i as int);
        let ghost cur = s@.take(i + 1);
        assert(cur.drop_last() == pre);
        assert(cur.last() == c);
        if is_whitespace(c) {
        } else if i >= 1 && !is_whitespace(s[i - 1]) {
            assert(cur[cur.len() - 2] == s@[i - 1]);
            proof {
                assert(pre.last() == s@[i - 1]);
                lemma_tokens_nonempty(pre);
            }
            let last = words.len() - 1;
            let mut w = words.remove(last);
            w.push(c);
            words.push(w);
            assert(words@.map_values(|w: Vec<char>| w@) =~= tokens(cur));
        } else {
            if i >= 1 {
                assert(cur[cur.len() - 2] == s@[i - 1]);
            }
            let mut w: Vec<char> = Vec::new();
            w.push(c);
            words.push(w);
            assert(words@.map_values(|w: Vec<char>| w@) =~= tokens(cur));
        }
        i = i + 1;
    }
    assert(s@.take(s.len() as int) =~= s@);
    words
}

/// Joins `words` with `sep` between each two.
pub fn join_with(words: &Vec<Vec<char>>, sep: char) -> (r: Vec<char>)
    ensures
        r@ == join_sep(words@.map_values(|w: Vec<char>| w@), sep),
{
    let ghost ws = words@.map_values(|w: Vec<char>| w@);
    let mut out: Vec<char> = Vec::new();
    let mut i: usize = 0;
    while i < words.len()
        invariant
            i <= words.len(),
            ws == words@.map_values(|w: Vec<char>| w@),
            out@ == join_sep(ws.take(i as int), sep),
        decreases words.len() - i,
    {
        assert(ws.take(i + 1).drop_last() =~= ws.take(i as int));
        if i > 0 {
            out.push(sep);
        }
        let w = &words[i];
        let mut j: usize = 0;
        let ghost base = out@;
        while j < w.len()
            invariant
                j <= w.len(),
                out@ == base + w@.take(j as int),
            decreases w.len() - j,
        {
            out.push(w[j]);
            assert(out@ =~= base + w@.take(j + 1));
            j = j + 1;
        }
        assert(w@.take(w.len() as int) =~= w@);
        if i == 0 {
            assert(out@ =~= join_sep(ws.take(1), sep));
        } else {
            assert(out@ =~= join_sep(ws.take(i + 1), sep));
        }
        i = i + 1;
    }
    assert(ws.take(words.len() as int) =~= ws);
    out
}

/// The shaped text and its token count (taken before any truncation).
pub struct Shaped {
    pub text: Vec<char>,
    pub tokens: usize,
}

/// Applies the token limit and then the size limit to `s`.
pub fn shape(s: &Vec<char>, token_limit: Option<usize>, size_limit: Option<usize>) -> (r: Shaped)
    ensures
        r.text@ == shaped(s@, token_limit, size_limit),
        r.tokens == tokens(s@).len(),
{
    let mut words = split_tokens(s);
    let ghost ws = words@.map_values(|w: Vec<char>| w@);
    let count = words.len();
    let mut text: Vec<char> = match token_limit {
        Some(n) => {
            if n < words.len() {
                words.truncate(n);
            }
            assert(words@.map_values(|w: Vec<char>| w@) =~= ws.take(min_nat(n as nat, ws.len()) as int));
            join_with(&words, ' ')
        },
        None => s.clone(),
    };
    assert(text@ == token_shaped(s@, token_limit));
    match size_limit {
        Some(m) => {
            if text.len() > m {
                text.truncate(m);
            }
        },
        None => {},
    }
    Shaped { text, tokens: count }
}

/// The pieces of `s` between the separators `sep`; always at least one.
pub open spec fn split_on(s: Seq<char>, sep: char) -> Seq<Seq<char>>
    decreases s.len(),
{
    if s.len() == 0 {
        seq![Seq::empty()]
    } else {
        let prev = split_on(s.drop_last(), sep);
        if s.last() == sep {
            prev.push(Seq::empty())
        } else {
            prev.drop_last().push(prev.last().push(s.last()))
        }
    }
}

pub proof fn lemma_split_nonempty(s: Seq<char>, sep: char)
    ensures
        split_on(s, sep).len() >= 1,
    decreases s.len(),
{
    if s.len() > 0 {
        lemma_split_nonempty(s.drop_last(), sep);
    }
}

/// The pieces of `s` between the separators `sep`.
pub fn split_at_char(s: &Vec<char>, sep: char) -> (r: Vec<Vec<char>>)
    ensures
        views(r@) == split_on(s@, sep),
{
    let mut pieces: Vec<Vec<char>> = Vec::new();
    pieces.push(Vec::new());
    let mut i: usize = 0;
    assert(views(pieces@) =~= split_on(s@.take(0), sep));
    while i < s.len()
        invariant
            i <= s.len(),
            views(pieces@) == split_on(s@.take(i as int), sep),
        decreases s.len() - i,
    {
        let c = s[i];
        let ghost cur = s@.take(i + 1);
        assert(cur.drop_last() =~= s@.take(i as int));
        proof { lemma_split_nonempty(s@.take(i as int), sep); }
        if c == sep {
            pieces.push(Vec::new());
        } else {
            let last = pieces.len() - 1;
            let mut w = pieces.remove(last);
            w.push(c);
            pieces.push(w);
        }
        assert(views(pieces@) =~= split_on(cur, sep));
        i = i + 1;
    }
    assert(s@.take(s.len() as int) =~= s@);
    pieces
}

} // verus!
