//! Reference extraction: import / require / include statements, line by line.
use vstd::prelude::*;
use crate::paths::{ext_of, last_index, extension, rfind, concat};
use crate::text::{views, lemma_views_push, split_on, split_at_char, lemma_split_nonempty};

verus! {

/// `import a.b.c` at the start of a line.
pub const IMPORT_MODULE: &'static str = "(?m)^\\s*import\\s+([a-zA-Z0-9_\\.]+)";
/// `from a.b import ...` at the start of a line.
pub const FROM_IMPORT: &'static str = "(?m)^\\s*from\\s+([a-zA-Z0-9_\\.]+)\\s+import";
/// `require("...")` or `require('...')` anywhere on a line.
pub const REQUIRE_CALL: &'static str = "require\\(['\"](.+?)['\"]\\)";
/// `import ... from "..."` at the start of a line.
pub const IMPORT_FROM: &'static str = "(?m)^\\s*import\\s+.*\\s+from\\s+['\"](.+?)['\"]";
/// `#include "..."` or `#include <...>` at the start of a line.
pub const INCLUDE: &'static str = "(?m)^\\s*#include\\s*[\"<](.+?)[\">]";

/// Number of reference patterns.
pub const PATTERN_COUNT: usize = 5;

/// The reference patterns, in the order they are tried on each line.
pub open spec fn pattern_src(k: int) -> Seq<char> {
    if k == 0 {
        IMPORT_MODULE@
    } else if k == 1 {
        FROM_IMPORT@
    } else if k == 2 {
        REQUIRE_CALL@
    } else if k == 3 {
        IMPORT_FROM@
    } else {
        INCLUDE@
    }
}

fn pattern(k: usize) -> (r: &'static str)
    requires
        k < PATTERN_COUNT,
    ensures
        r@ == pattern_src(k as int),
{
    if k == 0 {
        IMPORT_MODULE
    } else if k == 1 {
        FROM_IMPORT
    } else if k == 2 {
        REQUIRE_CALL
    } else if k == 3 {
        IMPORT_FROM
    } else {
        INCLUDE
    }
}

/// What matching `pattern` against `line` yields: `None` where the pattern
/// does not compile, else capture group 1 of each successive match.
pub uninterp spec fn regex_group_one(pattern: Seq<char>, line: Seq<char>) -> Option<Seq<Option<Seq<char>>>>;

pub open spec fn groups_view(r: Option<Vec<Option<Vec<char>>>>) -> Option<Seq<Option<Seq<char>>>> {
    match r {
        Some(v) => Some(v@.map_values(|o: Option<Vec<char>>| match o {
            Some(x) => Some(x@),
            None => None,
        })),
        None => None,
    }
}

/// Relies on regex::Regex::new to compile `pattern` (an error gives `None`)
/// and on Regex::captures_iter, Captures::get and Match::as_str for group 1
/// of each successive non-overlapping match in `line`: all of it depends on
/// the two texts alone.
#[verifier::external_body]
fn first_groups(pattern: &str, line: &Vec<char>) -> (r: Option<Vec<Option<Vec<char>>>>)
    ensures
        groups_view(r) == regex_group_one(pattern@, line@),
{
    let line: String = line.iter().collect();
    regex::Regex::new(pattern).ok().map(|re| {
        re.captures_iter(&line).map(|c| c.get(1).map(|m| m.as_str().chars().collect())).collect()
    })
}

/// A line without its carriage return.
pub open spec fn strip_cr(l: Seq<char>) -> Seq<char> {
    if l.len() > 0 && l.last() == '\r' { l.drop_last() } else { l }
}

/// The lines of `s`: split at `\n`, no empty line after a final `\n`,
/// and a `\r` before the `\n` dropped.
pub open spec fn lines_of(s: Seq<char>) -> Seq<Seq<char>> {
    let pieces = split_on(s, '\n');
    let kept = if pieces.last().len() == 0 { pieces.drop_last() } else { pieces };
    kept.map_values(|l: Seq<char>| strip_cr(l))
}

/// The lines of `s`.
pub fn split_lines(s: &Vec<char>) -> (r: Vec<Vec<char>>)
    ensures
        r@.map_values(|l: Vec<char>| l@) == lines_of(s@),
{
    let mut pieces = split_at_char(s, '\n');
    proof { lemma_split_nonempty(s@, '\n'); }
    let ghost pv = pieces@.map_values(|l: Vec<char>| l@);
    if pieces[pieces.len() - 1].len() == 0 {
        pieces.pop();
        assert(pieces@.map_values(|l: Vec<char>| l@) =~= pv.drop_last());
    }
    let ghost kept = pieces@.map_values(|l: Vec<char>| l@);
    let mut out: Vec<Vec<char>> = Vec::new();
    let mut j: usize = 0;
    while j < pieces.len()
        invariant
            j <= pieces.len(),
            kept == pieces@.map_values(|l: Vec<char>| l@),
            out@.len() == j,
            out@.map_values(|l: Vec<char>| l@) == kept.take(j as int).map_values(|l: Seq<char>| strip_cr(l)),
        decreases pieces.len() - j,
    {
        let mut l = pieces[j].clone();
        if l.len() > 0 && l[l.len() - 1] == '\r' {
            l.pop();
        }
        assert(l@ == strip_cr(kept[j as int]));
        let ghost before = out@;
        out.push(l);
        assert(out@ == before.push(l));
        assert forall|m: int| 0 <= m < j + 1 implies out@[m]@ == strip_cr(kept.take(j + 1)[m]) by {
            if m < j {
                assert(out@[m] == before[m]);
                assert(before.map_values(|l: Vec<char>| l@)[m] == before[m]@);
            }
        }
        assert(out@.map_values(|l: Vec<char>| l@) =~= kept.take(j + 1).map_values(|l: Seq<char>| strip_cr(l)));
        j = j + 1;
    }
    assert(kept.take(pieces.len() as int) =~= kept);
    out
}

/// Every `.` of `r` made a `/`.
pub open spec fn dots_to_slashes(r: Seq<char>) -> Seq<char> {
    r.map_values(|c: char| if c == '.' { '/' } else { c })
}

/// The extensions whose imports name modules with dots.
pub open spec fn dotted_module_ext(e: Option<Seq<char>>) -> bool {
    e == Some(seq!['p', 'y']) || e == Some(seq!['j', 's'])
}

/// A captured name made a relative path: dots become slashes for dotted-module
/// languages, and a name without a dot takes the referencing file's extension.
pub open spec fn finish_ref(r: Seq<char>, path: Seq<char>) -> Seq<char> {
    let e = ext_of(path);
    let r1 = if dotted_module_ext(e) { dots_to_slashes(r) } else { r };
    if last_index(r1, '.') < 0 && e is Some {
        r1 + seq!['.'] + e->0
    } else {
        r1
    }
}

/// The finished references of the captures that took part in a match.
pub open spec fn group_refs(gs: Seq<Option<Seq<char>>>, path: Seq<char>) -> Seq<Seq<char>>
    decreases gs.len(),
{
    if gs.len() == 0 {
        Seq::empty()
    } else {
        group_refs(gs.drop_last(), path) + match gs.last() {
            Some(g) => seq![finish_ref(g, path)],
            None => Seq::empty(),
        }
    }
}

/// The references that pattern `k` finds on `line`.
pub open spec fn pattern_refs(k: int, line: Seq<char>, path: Seq<char>) -> Seq<Seq<char>> {
    match regex_group_one(pattern_src(k), line) {
        Some(gs) => group_refs(gs, path),
        None => Seq::empty(),
    }
}

/// The references that the first `k` patterns find on `line`, pattern by pattern.
pub open spec fn line_refs_upto(k: nat, line: Seq<char>, path: Seq<char>) -> Seq<Seq<char>>
    decreases k,
{
    if k == 0 {
        Seq::empty()
    } else {
        line_refs_upto((k - 1) as nat, line, path) + pattern_refs(k - 1, line, path)
    }
}

/// The references found in `ls`, line by line.
pub open spec fn lines_refs(ls: Seq<Seq<char>>, path: Seq<char>) -> Seq<Seq<char>>
    decreases ls.len(),
{
    if ls.len() == 0 {
        Seq::empty()
    } else {
        lines_refs(ls.drop_last(), path) + line_refs_upto(PATTERN_COUNT as nat, ls.last(), path)
    }
}

/// The references of the file at `path` whose text is `text`.
pub open spec fn references(path: Seq<char>, text: Seq<char>) -> Seq<Seq<char>> {
    lines_refs(lines_of(text), path)
}

fn is_two(e: &Vec<char>, a: char, b: char) -> (r: bool)
    ensures
        r == (e@ == seq![a, b]),
{
    if e.len() == 2 && e[0] == a && e[1] == b {
        assert(e@ =~= seq![a, b]);
        true
    } else {
        false
    }
}

/// `r` finished as a reference of a file whose extension is `e`.
fn finish_reference(r: &Vec<char>, e: &Option<Vec<char>>, Ghost(path): Ghost<Seq<char>>) -> (out: Vec<char>)
    requires
        match e {
            Some(x) => ext_of(path) == Some(x@),
            None => ext_of(path) is None,
        },
    ensures
        out@ == finish_ref(r@, path),
{
    let dotted = match e {
        Some(x) => is_two(x, 'p', 'y') || is_two(x, 'j', 's'),
        None => false,
    };
    let mut r1: Vec<char> = Vec::new();
    if dotted {
        let mut i: usize = 0;
        while i < r.len()
            invariant
                i <= r.len(),
                r1@ == dots_to_slashes(r@.take(i as int)),
            decreases r.len() - i,
        {
            r1.push(if r[i] == '.' { '/' } else { r[i] });
            assert(r1@ =~= dots_to_slashes(r@.take(i + 1)));
            i = i + 1;
        }
        assert(r@.take(r.len() as int) =~= r@);
    } else {
        r1 = r.clone();
    }
    match e {
        Some(x) => {
            if rfind(&r1, '.').is_none() {
                r1.push('.');
                concat(&r1, x)
            } else {
                r1
            }
        },
        None => r1,
    }
}

/// The references that a file at `path` with text `text` makes, in line
/// order and, within a line, in pattern order.
pub fn extract_references(path: &Vec<char>, text: &Vec<char>) -> (r: Vec<Vec<char>>)
    ensures
        views(r@) == references(path@, text@),
{
    let e = extension(path);
    let lines = split_lines(text);
    let ghost ls = lines_of(text@);
    let mut out: Vec<Vec<char>> = Vec::new();
    let mut i: usize = 0;
    while i < lines.len()
        invariant
            i <= lines.len(),
            views(lines@) == ls,
            views(out@) == lines_refs(ls.take(i as int), path@),
            match e {
                Some(x) => ext_of(path@) == Some(x@),
                None => ext_of(path@) is None,
            },
        decreases lines.len() - i,
    {
        let line = &lines[i];
        assert(ls[i as int] == line@);
        assert(ls.take(i + 1).drop_last() =~= ls.take(i as int));
        let ghost start = views(out@);
        let mut k: usize = 0;
        while k < PATTERN_COUNT
            invariant
                k <= PATTERN_COUNT,
                views(out@) == start + line_refs_upto(k as nat, line@, path@),
                match e {
                    Some(x) => ext_of(path@) == Some(x@),
                    None => ext_of(path@) is None,
                },
            decreases PATTERN_COUNT - k,
        {
            let ghost before_k = views(out@);
            match first_groups(pattern(k), line) {
                Some(gs) => {
                    let ghost gv = groups_view(Some(gs))->0;
                    let mut g: usize = 0;
                    while g < gs.len()
                        invariant
                            g <= gs.len(),
                            gv == groups_view(Some(gs))->0,
                            views(out@) == before_k + group_refs(gv.take(g as int), path@),
                            match e {
                                Some(x) => ext_of(path@) == Some(x@),
                                None => ext_of(path@) is None,
                            },
                        decreases gs.len() - g,
                    {
                        assert(gv.take(g + 1).drop_last() =~= gv.take(g as int));
                        match &gs[g] {
                            Some(cap) => {
                                let f = finish_reference(cap, &e, Ghost(path@));
                                proof { lemma_views_push(out@, f); }
                                out.push(f);
                            },
                            None => {},
                        }
                        assert(views(out@) =~= before_k + group_refs(gv.take(g + 1), path@));
                        g = g + 1;
                    }
                    assert(gv.take(gs.len() as int) =~= gv);
                },
                None => {},
            }
            assert(views(out@) =~= start + line_refs_upto((k + 1) as nat, line@, path@));
            k = k + 1;
        }
        i = i + 1;
    }
    assert(ls.take(lines.len() as int) =~= ls);
    out
}

} // verus!
