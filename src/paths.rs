//! Paths as character sequences with `/` between components.
use vstd::prelude::*;
use crate::text::{views, split_on, split_at_char, join_sep, join_with, lemma_views_push};

verus! {

/// Index of the last `c` in `s`, or -1 when there is none.
pub open spec fn last_index(s: Seq<char>, c: char) -> int
    decreases s.len(),
{
    if s.len() == 0 {
        -1
    } else if s.last() == c {
        s.len() - 1
    } else {
        last_index(s.drop_last(), c)
    }
}

/// The last component of a path.
pub open spec fn file_name(p: Seq<char>) -> Seq<char> {
    p.skip(last_index(p, '/') + 1)
}

/// A path's extension: what follows the last `.` of its last component,
/// where that dot is not the component's first character.
pub open spec fn ext_of(p: Seq<char>) -> Option<Seq<char>> {
    let n = file_name(p);
    let k = last_index(n, '.');
    if n == seq!['.', '.'] || k <= 0 {
        None
    } else {
        Some(n.skip(k + 1))
    }
}

/// The directory that holds `p`: empty for a bare name, `/` at the top.
pub open spec fn dir_of(p: Seq<char>) -> Seq<char> {
    let k = last_index(p, '/');
    if k < 0 {
        Seq::empty()
    } else if k == 0 {
        seq!['/']
    } else {
        p.take(k)
    }
}

/// `rel` placed under `dir`; an absolute `rel` stands alone.
pub open spec fn joined(dir: Seq<char>, rel: Seq<char>) -> Seq<char> {
    if (rel.len() > 0 && rel[0] == '/') || dir.len() == 0 {
        rel
    } else if dir.last() == '/' {
        dir + rel
    } else {
        dir + seq!['/'] + rel
    }
}

proof fn lemma_last_index_bounds(s: Seq<char>, c: char)
    ensures
        -1 <= last_index(s, c) < s.len(),
        last_index(s, c) >= 0 ==> s[last_index(s, c)] == c,
    decreases s.len(),
{
    if s.len() > 0 {
        lemma_last_index_bounds(s.drop_last(), c);
    }
}

/// Position of the last `c` in `s`.
pub fn rfind(s: &Vec<char>, c: char) -> (r: Option<usize>)
    ensures
        match r {
            Some(k) => k == last_index(s@, c),
            None => last_index(s@, c) == -1,
        },
{
    let mut found: Option<usize> = None;
    let mut i: usize = 0;
    while i < s.len()
        invariant
            i <= s.len(),
            match found {
                Some(k) => k == last_index(s@.take(i as int), c),
                None => last_index(s@.take(i as int), c) == -1,
            },
        decreases s.len() - i,
    {
        assert(s@.take(i + 1).drop_last() =~= s@.take(i as int));
        if s[i] == c {
            found = Some(i);
        }
        i = i + 1;
    }
    assert(s@.take(s.len() as int) =~= s@);
    found
}

/// The characters of `s` from `from` on.
pub fn tail_from(s: &Vec<char>, from: usize) -> (r: Vec<char>)
    requires
        from <= s.len(),
    ensures
        r@ == s@.skip(from as int),
{
    let mut out: Vec<char> = Vec::new();
    let mut i: usize = from;
    while i < s.len()
        invariant
            from <= i <= s.len(),
            out@ == s@.subrange(from as int, i as int),
        decreases s.len() - i,
    {
        out.push(s[i]);
        assert(out@ =~= s@.subrange(from as int, i + 1));
        i = i + 1;
    }
    out
}

/// The first `n` characters of `s`.
pub fn head(s: &Vec<char>, n: usize) -> (r: Vec<char>)
    requires
        n <= s.len(),
    ensures
        r@ == s@.take(n as int),
{
    let mut out: Vec<char> = Vec::new();
    let mut i: usize = 0;
    while i < n
        invariant
            i <= n <= s.len(),
            out@ == s@.take(i as int),
        decreases n - i,
    {
        out.push(s[i]);
        assert(out@ =~= s@.take(i + 1));
        i = i + 1;
    }
    out
}

/// `a` followed by `b`.
pub fn concat(a: &Vec<char>, b: &Vec<char>) -> (r: Vec<char>)
    ensures
        r@ == a@ + b@,
{
    let mut out = a.clone();
    let mut i: usize = 0;
    while i < b.len()
        invariant
            i <= b.len(),
            out@ == a@ + b@.take(i as int),
        decreases b.len() - i,
    {
        out.push(b[i]);
        assert(out@ =~= a@ + b@.take(i + 1));
        i = i + 1;
    }
    assert(b@.take(b.len() as int) =~= b@);
    out
}

/// The last component of `p`.
pub fn file_name_of(p: &Vec<char>) -> (r: Vec<char>)
    ensures
        r@ == file_name(p@),
{
    proof { lemma_last_index_bounds(p@, '/'); }
    match rfind(p, '/') {
        Some(k) => {
            assert(k < p.len());
            tail_from(p, k + 1)
        },
        None => p.clone(),
    }
}

/// The extension of `p`, if it has one.
pub fn extension(p: &Vec<char>) -> (r: Option<Vec<char>>)
    ensures
        match r {
            Some(e) => ext_of(p@) == Some(e@),
            None => ext_of(p@) is None,
        },
{
    let n = file_name_of(p);
    proof { lemma_last_index_bounds(n@, '.'); }
    if n.len() == 2 && n[0] == '.' && n[1] == '.' {
        assert(n@ =~= seq!['.', '.']);
        return None;
    }
    assert(n@ != seq!['.', '.']);
    match rfind(&n, '.') {
        Some(k) => {
            assert(k < n.len());
            if k == 0 { None } else { Some(tail_from(&n, k + 1)) }
        },
        None => None,
    }
}

/// The directory that holds `p`.
pub fn parent_dir(p: &Vec<char>) -> (r: Vec<char>)
    ensures
        r@ == dir_of(p@),
{
    proof { lemma_last_index_bounds(p@, '/'); }
    match rfind(p, '/') {
        Some(k) => if k == 0 {
            let mut v: Vec<char> = Vec::new();
            v.push('/');
            assert(v@ =~= seq!['/']);
            v
        } else {
            head(p, k)
        },
        None => Vec::new(),
    }
}

/// `rel` placed under `dir`.
pub fn join(dir: &Vec<char>, rel: &Vec<char>) -> (r: Vec<char>)
    ensures
        r@ == joined(dir@, rel@),
{
    if (rel.len() > 0 && rel[0] == '/') || dir.len() == 0 {
        rel.clone()
    } else if dir[dir.len() - 1] == '/' {
        concat(dir, rel)
    } else {
        let mut d = dir.clone();
        d.push('/');
        assert(d@ == dir@ + seq!['/']);
        concat(&d, rel)
    }
}

/// The components of a path with `.` and empty ones dropped and each `..`
/// taking away the component before it; at the top of an absolute path a
/// `..` is dropped.
pub open spec fn resolve_segments(segs: Seq<Seq<char>>, absolute: bool) -> Seq<Seq<char>>
    decreases segs.len(),
{
    if segs.len() == 0 {
        Seq::empty()
    } else {
        let prev = resolve_segments(segs.drop_last(), absolute);
        let g = segs.last();
        if g.len() == 0 || g == seq!['.'] {
            prev
        } else if g == seq!['.', '.'] && prev.len() > 0 && prev.last() != seq!['.', '.'] {
            prev.drop_last()
        } else if g == seq!['.', '.'] && prev.len() == 0 && absolute {
            prev
        } else {
            prev.push(g)
        }
    }
}

/// `p` with `.` and `..` components resolved and no doubled or trailing `/`.
pub open spec fn normalized(p: Seq<char>) -> Seq<char> {
    let absolute = p.len() > 0 && p[0] == '/';
    let body = join_sep(resolve_segments(split_on(p, '/'), absolute), '/');
    if absolute { seq!['/'] + body } else { body }
}

fn is_dot(g: &Vec<char>) -> (r: bool)
    ensures
        r == (g@ == seq!['.']),
{
    if g.len() == 1 && g[0] == '.' {
        assert(g@ =~= seq!['.']);
        true
    } else {
        false
    }
}

fn is_dot_dot(g: &Vec<char>) -> (r: bool)
    ensures
        r == (g@ == seq!['.', '.']),
{
    if g.len() == 2 && g[0] == '.' && g[1] == '.' {
        assert(g@ =~= seq!['.', '.']);
        true
    } else {
        false
    }
}

/// `p` with `.` and `..` components resolved.
pub fn normalize(p: &Vec<char>) -> (r: Vec<char>)
    ensures
        r@ == normalized(p@),
{
    let absolute = p.len() > 0 && p[0] == '/';
    let segs = split_at_char(p, '/');
    let ghost sv = views(segs@);
    let mut kept: Vec<Vec<char>> = Vec::new();
    let mut i: usize = 0;
    while i < segs.len()
        invariant
            i <= segs.len(),
            sv == views(segs@),
            views(kept@) == resolve_segments(sv.take(i as int), absolute),
        decreases segs.len() - i,
    {
        let g = &segs[i];
        assert(sv.take(i + 1).drop_last() =~= sv.take(i as int));
        assert(sv[i as int] == g@);
        let ghost before = kept@;
        if g.len() == 0 || is_dot(g) {
        } else if is_dot_dot(g) && kept.len() > 0 && !is_dot_dot(&kept[kept.len() - 1]) {
            kept.pop();
            assert(views(kept@) =~= views(before).drop_last());
        } else if is_dot_dot(g) && kept.len() == 0 && absolute {
        } else {
            let g2 = g.clone();
            proof { lemma_views_push(kept@, g2); }
            kept.push(g2);
        }
        i = i + 1;
    }
    assert(sv.take(segs.len() as int) =~= sv);
    let body = join_with(&kept, '/');
    if absolute {
        let mut out: Vec<char> = Vec::new();
        out.push('/');
        assert(out@ =~= seq!['/']);
        concat(&out, &body)
    } else {
        body
    }
}

} // verus!
