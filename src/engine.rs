//! The traversal engine: walk, qualify, expand references, shape, append.
use vstd::prelude::*;
use vstd::set_lib::{set_int_range, lemma_int_range, lemma_len_subset};
use crate::paths::{ext_of, dir_of, joined, normalized, extension, parent_dir, join, normalize};
use crate::refs::{references, extract_references};
use crate::telemetry::Telemetry;
use crate::text::{shaped, tokens, shape, views, lemma_views_push};

verus! {

/// Which files qualify, and whether qualifying files pull in what they reference.
pub struct FilterSpec {
    pub extension: Option<Vec<char>>,
    pub dependency_aware: bool,
}

/// Per-file token and size limits and the depth limit of the walk.
pub struct Limits {
    pub token_limit: Option<usize>,
    pub size_limit: Option<usize>,
    pub depth_limit: Option<usize>,
}

/// A file of the tree: its path, how many directories below the root the
/// walk met it (0 for a file in the root itself; `None` for a file that only
/// a reference reached), its raw bytes, and, for a path that names a file
/// already in the tree under another path, the index of that entry.
pub struct SourceFile {
    pub path: Vec<char>,
    pub depth: Option<usize>,
    pub bytes: Vec<u8>,
    pub same_as: Option<usize>,
}

/// The files of a tree: those the walk meets, in walk order, then those that
/// references reached.
pub struct Tree {
    pub files: Vec<SourceFile>,
}

/// The aggregated text, the files appended in order, the visited set and
/// the counters.
pub struct Aggregate {
    pub text: Vec<char>,
    pub order: Vec<usize>,
    pub visited: Vec<bool>,
    pub in_progress: Vec<bool>,
    pub telemetry: Telemetry,
}

/// What decoding `bytes` as UTF-8 yields, invalid sequences replaced.
pub uninterp spec fn utf8_lossy(bytes: Seq<u8>) -> Seq<char>;

/// Relies on String::from_utf8_lossy: the text depends on the bytes alone.
#[verifier::external_body]
fn decode_lossy(bytes: &Vec<u8>) -> (r: Vec<char>)
    ensures
        r@ == utf8_lossy(bytes@),
{
    String::from_utf8_lossy(bytes).chars().collect()
}

impl FilterSpec {
    /// A file qualifies when no extension is set or its extension equals the set one.
    pub open spec fn qualifies(&self, path: Seq<char>) -> bool {
        match self.extension {
            Some(e) => ext_of(path) == Some(e@),
            None => true,
        }
    }
}

/// A file that a run may append: one the filter lets in, and no second path
/// to a file the tree already holds.
pub open spec fn appendable(filter: FilterSpec, f: SourceFile) -> bool {
    f.same_as is None && filter.qualifies(f.path@)
}

impl Limits {
    /// Whether the walk reaches a file it met `depth` directories below the root.
    pub open spec fn within_depth(&self, depth: Option<usize>) -> bool {
        match depth {
            Some(k) => match self.depth_limit {
                Some(d) => k <= d,
                None => true,
            },
            None => false,
        }
    }
}

/// The text a file contributes: its decoded bytes shaped, then a newline.
pub open spec fn contribution(f: SourceFile, limits: Limits) -> Seq<char> {
    shaped(utf8_lossy(f.bytes@), limits.token_limit, limits.size_limit) + seq!['\n']
}

/// The contributions of the files `order` names, one after the other.
pub open spec fn appended(files: Seq<SourceFile>, order: Seq<usize>, limits: Limits) -> Seq<char>
    decreases order.len(),
{
    if order.len() == 0 {
        Seq::empty()
    } else {
        appended(files, order.drop_last(), limits) + contribution(files[order.last() as int], limits)
    }
}

/// Raw bytes of the files `order` names.
pub open spec fn byte_total(files: Seq<SourceFile>, order: Seq<usize>) -> int
    decreases order.len(),
{
    if order.len() == 0 {
        0
    } else {
        byte_total(files, order.drop_last()) + files[order.last() as int].bytes@.len()
    }
}

/// Tokens of the files `order` names, counted before any truncation.
pub open spec fn token_total(files: Seq<SourceFile>, order: Seq<usize>) -> int
    decreases order.len(),
{
    if order.len() == 0 {
        0
    } else {
        token_total(files, order.drop_last()) + tokens(utf8_lossy(files[order.last() as int].bytes@)).len()
    }
}

/// `x` capped at the largest `usize`.
pub open spec fn sat(x: int) -> int {
    if x > usize::MAX { usize::MAX as int } else { x }
}

/// The files the walk reaches that qualify, among the first `m`, in walk order.
pub open spec fn walk_order(files: Seq<SourceFile>, filter: FilterSpec, limits: Limits, m: int) -> Seq<usize>
    decreases m,
{
    if m <= 0 {
        Seq::empty()
    } else {
        let prev = walk_order(files, filter, limits, m - 1);
        let f = files[m - 1];
        if limits.within_depth(f.depth) && appendable(filter, f) {
            prev.push((m - 1) as usize)
        } else {
            prev
        }
    }
}

/// Where a reference made by the file at `path` points: the reference placed
/// under the file's directory, with `.` and `..` resolved.
pub open spec fn candidate(path: Seq<char>, reference: Seq<char>) -> Seq<char> {
    normalized(joined(dir_of(path), reference))
}

/// `stack` holds indices of `files` only, and fewer than all of them.
pub open spec fn stack_ok(files: Seq<SourceFile>, stack: Set<int>) -> bool {
    &&& stack.finite()
    &&& forall|k: int| stack.contains(k) ==> 0 <= k < files.len()
}

/// The order after processing file `i` on top of `order`, while the files in
/// `stack` are being expanded: nothing for a file already appended, being
/// expanded, or not let in; else, when following dependencies, each reference
/// that names a file of the tree processed in turn, and then the file itself.
pub open spec fn expand(files: Seq<SourceFile>, filter: FilterSpec, i: int, order: Seq<usize>, stack: Set<int>) -> Seq<usize>
    decreases files.len() - stack.len(), 1int, 0int,
{
    if !(0 <= i < files.len()) || order.contains(i as usize) || stack.contains(i)
        || !appendable(filter, files[i]) || !stack_ok(files, stack) {
        order
    } else if !filter.dependency_aware {
        order.push(i as usize)
    } else {
        let refs = references(files[i].path@, utf8_lossy(files[i].bytes@));
        if stack.insert(i).len() <= files.len() {
            expand_refs(files, filter, files[i].path@, refs, 0, order, stack.insert(i)).push(i as usize)
        } else {
            order
        }
    }
}

/// The order after processing, from the `r`-th on, the files that `refs`
/// (references made by the file at `path`) name.
pub open spec fn expand_refs(
    files: Seq<SourceFile>,
    filter: FilterSpec,
    path: Seq<char>,
    refs: Seq<Seq<char>>,
    r: int,
    order: Seq<usize>,
    stack: Set<int>,
) -> Seq<usize>
    decreases files.len() - stack.len() + 1, 0int, refs.len() - r,
{
    if r < 0 || r >= refs.len() || !stack.finite() || stack.len() > files.len() {
        order
    } else {
        let next = match resolve(files, candidate(path, refs[r])) {
            Some(j) => expand(files, filter, j, order, stack),
            None => order,
        };
        expand_refs(files, filter, path, refs, r + 1, next, stack)
    }
}

/// The order of a whole run over the first `m` entries of the walk.
pub open spec fn run_order(files: Seq<SourceFile>, filter: FilterSpec, limits: Limits, m: int) -> Seq<usize>
    decreases m,
{
    if m <= 0 {
        Seq::empty()
    } else {
        let prev = run_order(files, filter, limits, m - 1);
        if limits.within_depth(files[m - 1].depth) {
            expand(files, filter, m - 1, prev, Set::empty())
        } else {
            prev
        }
    }
}

impl Aggregate {
    /// The aggregate of a run over `tree`: each visited file appended once,
    /// in `order`, all of them qualifying, and the counters in step.
    pub open spec fn wf(&self, tree: &Tree, filter: &FilterSpec, limits: &Limits) -> bool {
        let files = tree.files@;
        let n = files.len();
        &&& self.visited@.len() == n
        &&& self.order@.no_duplicates()
        &&& forall|j: int| 0 <= j < self.order@.len() ==> self.order@[j] < n
        &&& forall|k: int| 0 <= k < n ==> (self.visited@[k] <==> self.order@.contains(k as usize))
        &&& forall|j: int| 0 <= j < self.order@.len()
            ==> filter.qualifies(#[trigger] files[self.order@[j] as int].path@)
        &&& forall|j: int| 0 <= j < self.order@.len() ==> (#[trigger] files[self.order@[j] as int]).same_as is None
        &&& self.text@ == appended(files, self.order@, *limits)
        &&& self.telemetry.files_processed == self.order@.len()
        &&& self.telemetry.bytes_read == sat(byte_total(files, self.order@))
        &&& self.telemetry.tokens_aggregated == sat(token_total(files, self.order@))
    }

    /// No file is being expanded.
    pub open spec fn idle(&self, tree: &Tree) -> bool {
        &&& self.in_progress@.len() == tree.files@.len()
        &&& forall|k: int| 0 <= k < tree.files@.len() ==> !self.in_progress@[k]
    }

    /// An empty aggregate for `tree`, with counters started now.
    pub fn new(tree: &Tree, filter: &FilterSpec, limits: &Limits) -> (r: Aggregate)
        ensures
            r.wf(tree, filter, limits),
            r.idle(tree),
            r.order@.len() == 0,
    {
        let mut visited: Vec<bool> = Vec::new();
        let mut k: usize = 0;
        while k < tree.files.len()
            invariant
                k <= tree.files.len(),
                visited@.len() == k,
                forall|m: int| 0 <= m < k ==> !visited@[m],
            decreases tree.files.len() - k,
        {
            visited.push(false);
            k = k + 1;
        }
        let in_progress = visited.clone();
        let r = Aggregate { text: Vec::new(), order: Vec::new(), visited, in_progress, telemetry: Telemetry::new() };
        assert(r.text@ =~= appended(tree.files@, r.order@, *limits));
        r
    }
}

proof fn lemma_order_bound(order: Seq<usize>, n: int)
    requires
        order.no_duplicates(),
        n >= 0,
        forall|j: int| 0 <= j < order.len() ==> order[j] < n,
    ensures
        order.len() <= n,
{
    let s = order.map_values(|x: usize| x as int);
    assert(s.no_duplicates()) by {
        assert forall|a: int, b: int| 0 <= a < s.len() && 0 <= b < s.len() && a != b implies s[a] != s[b] by {
            assert(order[a] != order[b]);
        }
    }
    s.unique_seq_to_set();
    lemma_int_range(0, n);
    assert(s.to_set().subset_of(set_int_range(0, n))) by {
        assert forall|x: int| s.to_set().contains(x) implies set_int_range(0, n).contains(x) by {
            let j = choose|j: int| 0 <= j < s.len() && s[j] == x;
            assert(order[j] < n);
        }
    }
    lemma_len_subset(s.to_set(), set_int_range(0, n));
}

/// The first file at or after `k` whose path is `p`.
pub open spec fn first_match(files: Seq<SourceFile>, p: Seq<char>, k: int) -> Option<int>
    decreases files.len() - k,
{
    if k < 0 || k >= files.len() {
        None
    } else if files[k].path@ == p {
        Some(k)
    } else {
        first_match(files, p, k + 1)
    }
}

/// The file that path `p` names: the first entry with that path, or the
/// entry it names the same file as.
pub open spec fn resolve(files: Seq<SourceFile>, p: Seq<char>) -> Option<int> {
    match first_match(files, p, 0) {
        Some(j) => match files[j].same_as {
            Some(t) => if t < files.len() && files[t as int].same_as is None { Some(t as int) } else { None },
            None => Some(j),
        },
        None => None,
    }
}

/// Index of the file that path `p` names, if the tree has it.
pub fn resolve_file(tree: &Tree, p: &Vec<char>) -> (r: Option<usize>)
    ensures
        match r {
            Some(j) => resolve(tree.files@, p@) == Some(j as int) && j < tree.files@.len(),
            None => resolve(tree.files@, p@) is None,
        },
{
    match find_file(tree, p) {
        Some(j) => match tree.files[j].same_as {
            Some(t) => if t < tree.files.len() && tree.files[t].same_as.is_none() { Some(t) } else { None },
            None => Some(j),
        },
        None => None,
    }
}

/// Whether the walk reaches a file it met at `depth`.
fn walk_reaches(limits: &Limits, depth: Option<usize>) -> (r: bool)
    ensures
        r == limits.within_depth(depth),
{
    match depth {
        Some(k) => match limits.depth_limit {
            Some(d) => k <= d,
            None => true,
        },
        None => false,
    }
}

/// Index of the first file whose path is `p`, if the tree has one.
pub fn find_file(tree: &Tree, p: &Vec<char>) -> (r: Option<usize>)
    ensures
        match r {
            Some(j) => first_match(tree.files@, p@, 0) == Some(j as int) && j < tree.files@.len()
                && tree.files@[j as int].path@ == p@,
            None => first_match(tree.files@, p@, 0) is None
                && forall|k: int| 0 <= k < tree.files@.len() ==> tree.files@[k].path@ != p@,
        },
{
    let mut k: usize = 0;
    while k < tree.files.len()
        invariant
            k <= tree.files.len(),
            forall|m: int| 0 <= m < k ==> tree.files@[m].path@ != p@,
            first_match(tree.files@, p@, 0) == first_match(tree.files@, p@, k as int),
        decreases tree.files.len() - k,
    {
        if same_chars(&tree.files[k].path, p) {
            return Some(k);
        }
        k = k + 1;
    }
    None
}

fn same_chars(a: &Vec<char>, b: &Vec<char>) -> (r: bool)
    ensures
        r == (a@ == b@),
{
    if a.len() != b.len() {
        return false;
    }
    let mut i: usize = 0;
    while i < a.len()
        invariant
            i <= a.len() == b.len(),
            forall|m: int| 0 <= m < i ==> a@[m] == b@[m],
        decreases a.len() - i,
    {
        if a[i] != b[i] {
            return false;
        }
        i = i + 1;
    }
    assert(a@ =~= b@);
    true
}

/// Whether `filter` lets the file at `path` in.
pub fn qualifies(filter: &FilterSpec, path: &Vec<char>) -> (r: bool)
    ensures
        r == filter.qualifies(path@),
{
    match &filter.extension {
        Some(e) => match extension(path) {
            Some(x) => same_chars(&x, e),
            None => false,
        },
        None => true,
    }
}

fn push_all(dst: &mut Vec<char>, src: &Vec<char>)
    ensures
        final(dst)@ == old(dst)@ + src@,
{
    let mut i: usize = 0;
    while i < src.len()
        invariant
            i <= src.len(),
            dst@ == old(dst)@ + src@.take(i as int),
        decreases src.len() - i,
    {
        dst.push(src[i]);
        assert(dst@ =~= old(dst)@ + src@.take(i + 1));
        i = i + 1;
    }
    assert(src@.take(src.len() as int) =~= src@);
}

/// Appends file `i`, whose decoded text is `text`, and counts it.
fn append_file(tree: &Tree, filter: &FilterSpec, limits: &Limits, i: usize, text: &Vec<char>, agg: &mut Aggregate)
    requires
        old(agg).wf(tree, filter, limits),
        i < tree.files@.len(),
        !old(agg).visited@[i as int],
        appendable(*filter, tree.files@[i as int]),
        text@ == utf8_lossy(tree.files@[i as int].bytes@),
    ensures
        final(agg).wf(tree, filter, limits),
        final(agg).order@ == old(agg).order@.push(i),
        final(agg).in_progress@ == old(agg).in_progress@,
        final(agg).visited@ == old(agg).visited@.update(i as int, true),
{
    let ghost files = tree.files@;
    let ghost old_order = agg.order@;
    let n = tree.files.len();
    proof { lemma_order_bound(agg.order@, files.len() as int); }
    assert(!agg.order@.contains(i));
    let s = shape(text, limits.token_limit, limits.size_limit);
    push_all(&mut agg.text, &s.text);
    agg.text.push('\n');
    agg.order.push(i);
    agg.visited.set(i, true);
    let nbytes = tree.files[i].bytes.len();
    agg.telemetry.bytes_read = agg.telemetry.bytes_read.saturating_add(nbytes);
    agg.telemetry.tokens_aggregated = agg.telemetry.tokens_aggregated.saturating_add(s.tokens);
    assert(agg.order@[old_order.len() as int] == i);
    assert forall|a: int, b: int| 0 <= a < b < agg.order@.len() implies agg.order@[a] != agg.order@[b] by {
        if b == old_order.len() {
            assert(old_order.contains(agg.order@[a]));
        }
    }
    assert(agg.order@.no_duplicates());
    proof { lemma_order_bound(agg.order@, files.len() as int); }
    agg.telemetry.files_processed = agg.telemetry.files_processed + 1;
    assert(agg.order@.drop_last() =~= old_order);
    assert(agg.text@ =~= appended(files, agg.order@, *limits));
    assert forall|k: int| 0 <= k < files.len() implies (agg.visited@[k] <==> agg.order@.contains(k as usize)) by {
        if k != i {
            if agg.order@.contains(k as usize) {
                let j = choose|j: int| 0 <= j < agg.order@.len() && agg.order@[j] == k as usize;
                assert(j != old_order.len());
                assert(old_order[j] == k as usize);
            }
            if old_order.contains(k as usize) {
                let j = choose|j: int| 0 <= j < old_order.len() && old_order[j] == k as usize;
                assert(agg.order@[j] == k as usize);
            }
        } else {
            assert(agg.order@[old_order.len() as int] == i);
        }
    }
    assert(agg.order@.no_duplicates());
}

/// `a` starts with `b`.
pub open spec fn extends(a: Seq<usize>, b: Seq<usize>) -> bool {
    b.len() <= a.len() && a.take(b.len() as int) == b
}

/// Processes file `i`: unless it was visited or is being expanded, and if it
/// qualifies, first the files it references (when following dependencies),
/// then the file itself is appended.
fn process_file(
    tree: &Tree,
    filter: &FilterSpec,
    limits: &Limits,
    i: usize,
    agg: &mut Aggregate,
    Ghost(stack): Ghost<Set<int>>,
)
    requires
        old(agg).wf(tree, filter, limits),
        i < tree.files@.len(),
        old(agg).in_progress@.len() == tree.files@.len(),
        forall|k: int| 0 <= k < tree.files@.len() ==> (old(agg).in_progress@[k] <==> stack.contains(k)),
        forall|k: int| stack.contains(k) ==> 0 <= k < tree.files@.len(),
    ensures
        final(agg).wf(tree, filter, limits),
        final(agg).in_progress@ == old(agg).in_progress@,
        extends(final(agg).order@, old(agg).order@),
        forall|k: int| 0 <= k < tree.files@.len() && old(agg).in_progress@[k]
            ==> final(agg).visited@[k] == old(agg).visited@[k],
        !old(agg).visited@[i as int] && !old(agg).in_progress@[i as int]
            && appendable(*filter, tree.files@[i as int]) ==> final(agg).visited@[i as int],
        !filter.dependency_aware ==> final(agg).order@ == if !old(agg).visited@[i as int]
            && !old(agg).in_progress@[i as int] && appendable(*filter, tree.files@[i as int]) {
            old(agg).order@.push(i)
        } else {
            old(agg).order@
        },
        final(agg).order@ == expand(tree.files@, *filter, i as int, old(agg).order@, stack),
    decreases tree.files@.len() - stack.len(),
{
    let ghost n = tree.files@.len() as int;
    let ghost files = tree.files@;
    proof {
        lemma_int_range(0, n);
        assert(stack.subset_of(set_int_range(0, n)));
        lemma_len_subset(stack, set_int_range(0, n));
        assert(agg.visited@[i as int] == agg.order@.contains(i));
    }
    if agg.visited[i] || agg.in_progress[i] {
        assert(agg.order@.take(agg.order@.len() as int) =~= agg.order@);
        return;
    }
    if tree.files[i].same_as.is_some() || !qualifies(filter, &tree.files[i].path) {
        assert(agg.order@.take(agg.order@.len() as int) =~= agg.order@);
        return;
    }
    let text = decode_lossy(&tree.files[i].bytes);
    if filter.dependency_aware {
        proof {
            lemma_int_range(0, n);
            assert(stack.insert(i as int).subset_of(set_int_range(0, n)));
            lemma_len_subset(stack.insert(i as int), set_int_range(0, n));
            lemma_len_subset(stack, set_int_range(0, n));
            assert(!stack.contains(i as int));
            assert(stack.insert(i as int).len() == stack.len() + 1);
        }
        agg.in_progress.set(i, true);
        let refs = extract_references(&tree.files[i].path, &text);
        let dir = parent_dir(&tree.files[i].path);
        let ghost path = files[i as int].path@;
        let ghost rs = views(refs@);
        let ghost s1 = stack.insert(i as int);
        let mut r: usize = 0;
        assert(agg.order@.take(agg.order@.len() as int) =~= agg.order@);
        while r < refs.len()
            invariant
                r <= refs.len(),
                i < n == tree.files@.len(),
                agg.wf(tree, filter, limits),
                agg.in_progress@ == old(agg).in_progress@.update(i as int, true),
                old(agg).in_progress@.len() == n,
                old(agg).visited@.len() == n,
                extends(agg.order@, old(agg).order@),
                !agg.visited@[i as int],
                forall|k: int| 0 <= k < n && old(agg).in_progress@[k]
                    ==> agg.visited@[k] == old(agg).visited@[k],
                forall|k: int| 0 <= k < n ==> (agg.in_progress@[k] <==> stack.insert(i as int).contains(k)),
                forall|k: int| stack.insert(i as int).contains(k) ==> 0 <= k < n,
                stack.insert(i as int).len() == stack.len() + 1,
                stack.len() < n,
                files == tree.files@,
                path == files[i as int].path@,
                dir@ == dir_of(path),
                rs == views(refs@),
                s1 == stack.insert(i as int),
                s1.finite(),
                expand_refs(files, *filter, path, rs, r as int, agg.order@, s1)
                    == expand_refs(files, *filter, path, rs, 0, old(agg).order@, s1),
            decreases refs.len() - r,
        {
            let cand = normalize(&join(&dir, &refs[r]));
            assert(cand@ == candidate(path, rs[r as int]));
            match resolve_file(tree, &cand) {
                Some(j) => {
                    let ghost mid = agg.order@;
                    process_file(tree, filter, limits, j, agg, Ghost(stack.insert(i as int)));
                    assert(agg.order@.take(old(agg).order@.len() as int) =~= mid.take(old(agg).order@.len() as int));
                },
                None => {},
            }
            r = r + 1;
        }
        agg.in_progress.set(i, false);
        assert(agg.in_progress@ =~= old(agg).in_progress@);
        assert(agg.order@ == expand_refs(files, *filter, path, rs, 0, old(agg).order@, s1));
    }
    let ghost before = agg.order@;
    assert(before.take(before.len() as int) =~= before);
    assert(extends(before, old(agg).order@));
    append_file(tree, filter, limits, i, &text, agg);
    assert(agg.order@.take(old(agg).order@.len() as int) =~= before.take(old(agg).order@.len() as int));
}

/// Visits entry `i` of the walk: a file deeper than the depth limit is left
/// out, any other is processed.
pub fn visit(tree: &Tree, filter: &FilterSpec, limits: &Limits, i: usize, agg: &mut Aggregate)
    requires
        old(agg).wf(tree, filter, limits),
        old(agg).idle(tree),
        i < tree.files@.len(),
    ensures
        final(agg).wf(tree, filter, limits),
        final(agg).idle(tree),
        extends(final(agg).order@, old(agg).order@),
        forall|k: int| 0 <= k < tree.files@.len() && old(agg).visited@[k] ==> final(agg).visited@[k],
        limits.within_depth(tree.files@[i as int].depth) && appendable(*filter, tree.files@[i as int])
            ==> final(agg).visited@[i as int],
        !filter.dependency_aware ==> final(agg).order@ == if !old(agg).visited@[i as int]
            && limits.within_depth(tree.files@[i as int].depth)
            && appendable(*filter, tree.files@[i as int]) {
            old(agg).order@.push(i)
        } else {
            old(agg).order@
        },
        final(agg).order@ == if limits.within_depth(tree.files@[i as int].depth) {
            expand(tree.files@, *filter, i as int, old(agg).order@, Set::empty())
        } else {
            old(agg).order@
        },
{
    let within = walk_reaches(limits, tree.files[i].depth);
    if within {
        process_file(tree, filter, limits, i, agg, Ghost(Set::empty()));
    }
    assert(agg.order@.take(agg.order@.len() as int) =~= agg.order@);
    assert forall|k: int| 0 <= k < tree.files@.len() && old(agg).visited@[k] implies agg.visited@[k] by {
        let j = choose|j: int| 0 <= j < old(agg).order@.len() && old(agg).order@[j] == k as usize;
        assert(agg.order@.take(old(agg).order@.len() as int)[j] == k as usize);
        assert(agg.order@[j] == k as usize);
    }
}

/// Aggregates `tree`: every entry of the walk visited in turn.
pub fn aggregate(tree: &Tree, filter: &FilterSpec, limits: &Limits) -> (r: Aggregate)
    ensures
        r.wf(tree, filter, limits),
        r.idle(tree),
        forall|k: int| 0 <= k < tree.files@.len() && limits.within_depth(tree.files@[k].depth)
            && appendable(*filter, tree.files@[k]) ==> r.visited@[k],
        !filter.dependency_aware ==> r.order@ == walk_order(tree.files@, *filter, *limits, tree.files@.len() as int),
        r.order@ == run_order(tree.files@, *filter, *limits, tree.files@.len() as int),
        r.text@ == appended(tree.files@, run_order(tree.files@, *filter, *limits, tree.files@.len() as int), *limits),
{
    let mut agg = Aggregate::new(tree, filter, limits);
    let mut i: usize = 0;
    while i < tree.files.len()
        invariant
            i <= tree.files.len(),
            agg.wf(tree, filter, limits),
            agg.idle(tree),
            forall|k: int| 0 <= k < i && limits.within_depth(tree.files@[k].depth)
                && appendable(*filter, tree.files@[k]) ==> agg.visited@[k],
            !filter.dependency_aware ==> agg.order@ == walk_order(tree.files@, *filter, *limits, i as int),
            !filter.dependency_aware ==> forall|j: int| 0 <= j < agg.order@.len() ==> agg.order@[j] < i,
            agg.order@ == run_order(tree.files@, *filter, *limits, i as int),
        decreases tree.files.len() - i,
    {
        let ghost old_visited = agg.visited@;
        let ghost old_order = agg.order@;
        visit(tree, filter, limits, i, &mut agg);
        proof {
            if !filter.dependency_aware {
                if old_visited[i as int] {
                    assert(old_order.contains(i));
                    let j = choose|j: int| 0 <= j < old_order.len() && old_order[j] == i;
                    assert(old_order[j] < i);
                }
            }
        }
        i = i + 1;
    }
    agg
}

/// Number of files of the first `m` that the walk reaches and that a run
/// may append.
pub open spec fn estimate_count(files: Seq<SourceFile>, filter: FilterSpec, limits: Limits, m: int) -> int
    decreases m,
{
    if m <= 0 {
        0
    } else {
        let f = files[m - 1];
        let counted = limits.within_depth(f.depth) && appendable(filter, f);
        estimate_count(files, filter, limits, m - 1) + if counted { 1int } else { 0int }
    }
}

/// The candidates, among those of the first `m` of `refs` (references made by
/// the file at `path`), that name no file of the tree.
pub open spec fn unresolved_in(files: Seq<SourceFile>, path: Seq<char>, refs: Seq<Seq<char>>, m: int) -> Seq<Seq<char>>
    decreases m,
{
    if m <= 0 {
        Seq::empty()
    } else {
        let c = candidate(path, refs[m - 1]);
        unresolved_in(files, path, refs, m - 1) + if resolve(files, c) is None { seq![c] } else { Seq::empty() }
    }
}

/// The candidates that files among the first `m` would expand and that name
/// no file of the tree, file by file; none unless following dependencies.
pub open spec fn unresolved(files: Seq<SourceFile>, filter: FilterSpec, m: int) -> Seq<Seq<char>>
    decreases m,
{
    if m <= 0 {
        Seq::empty()
    } else {
        let f = files[m - 1];
        let refs = references(f.path@, utf8_lossy(f.bytes@));
        unresolved(files, filter, m - 1) + if filter.dependency_aware && f.same_as is None
            && filter.qualifies(f.path@) {
            unresolved_in(files, f.path@, refs, refs.len() as int)
        } else {
            Seq::empty()
        }
    }
}

/// The paths that references of the tree's files point at and that the tree
/// does not hold yet: what must be looked up on disk, and added to the tree
/// where it exists, before a run.
pub fn unresolved_references(tree: &Tree, filter: &FilterSpec) -> (r: Vec<Vec<char>>)
    ensures
        views(r@) == unresolved(tree.files@, *filter, tree.files@.len() as int),
{
    let ghost files = tree.files@;
    let mut out: Vec<Vec<char>> = Vec::new();
    let mut i: usize = 0;
    while i < tree.files.len()
        invariant
            i <= tree.files.len(),
            files == tree.files@,
            views(out@) == unresolved(files, *filter, i as int),
        decreases tree.files.len() - i,
    {
        let f = &tree.files[i];
        if filter.dependency_aware && f.same_as.is_none() && qualifies(filter, &f.path) {
            let text = decode_lossy(&f.bytes);
            let refs = extract_references(&f.path, &text);
            let dir = parent_dir(&f.path);
            let ghost rs = views(refs@);
            let ghost start = views(out@);
            let mut r: usize = 0;
            while r < refs.len()
                invariant
                    r <= refs.len(),
                    files == tree.files@,
                    rs == views(refs@),
                    dir@ == dir_of(f.path@),
                    views(out@) == start + unresolved_in(files, f.path@, rs, r as int),
                decreases refs.len() - r,
            {
                let cand = normalize(&join(&dir, &refs[r]));
                assert(cand@ == candidate(f.path@, rs[r as int]));
                if resolve_file(tree, &cand).is_none() {
                    proof { lemma_views_push(out@, cand); }
                    out.push(cand);
                }
                r = r + 1;
            }
        }
        i = i + 1;
    }
    out
}

/// The file count that progress is measured against.
pub fn count_files(tree: &Tree, filter: &FilterSpec, limits: &Limits) -> (r: usize)
    ensures
        r == estimate_count(tree.files@, *filter, *limits, tree.files@.len() as int),
{
    let mut count: usize = 0;
    let mut i: usize = 0;
    while i < tree.files.len()
        invariant
            i <= tree.files.len(),
            count == estimate_count(tree.files@, *filter, *limits, i as int),
            count <= i,
        decreases tree.files.len() - i,
    {
        let f = &tree.files[i];
        let within = walk_reaches(limits, f.depth);
        let counted = within && f.same_as.is_none() && qualifies(filter, &f.path);
        if counted {
            count = count + 1;
        }
        i = i + 1;
    }
    count
}

/// The indices of `tree` whose files were visited.
pub open spec fn visited_set(agg: &Aggregate, n: int) -> Set<int> {
    Set::new(|k: int| 0 <= k < n && agg.visited@[k])
}

/// The paths of `tree` are pairwise different.
pub open spec fn paths_unique(tree: &Tree) -> bool {
    forall|a: int, b: int| 0 <= a < b < tree.files@.len() ==> tree.files@[a].path@ != tree.files@[b].path@
}

/// Each file in the aggregate's provenance is in the visited set, once, and
/// the visited set has as many files as the counter of processed files; no
/// entry that is a second path to a file of the tree is ever appended.
pub proof fn lemma_visited_matches_provenance(tree: &Tree, filter: &FilterSpec, limits: &Limits, agg: &Aggregate)
    requires
        agg.wf(tree, filter, limits),
        tree.files@.len() <= usize::MAX,
    ensures
        forall|j: int| 0 <= j < agg.order@.len() ==> visited_set(agg, tree.files@.len() as int).contains(
            #[trigger] agg.order@[j] as int),
        visited_set(agg, tree.files@.len() as int).finite(),
        visited_set(agg, tree.files@.len() as int).len() == agg.telemetry.files_processed,
        forall|j: int| 0 <= j < agg.order@.len() ==> (#[trigger] tree.files@[agg.order@[j] as int]).same_as is None,
        paths_unique(tree) ==> forall|a: int, b: int| 0 <= a < b < agg.order@.len()
            ==> tree.files@[agg.order@[a] as int].path@ != tree.files@[agg.order@[b] as int].path@,
{
    let n = tree.files@.len() as int;
    let s = agg.order@.map_values(|x: usize| x as int);
    assert(s.no_duplicates()) by {
        assert forall|a: int, b: int| 0 <= a < s.len() && 0 <= b < s.len() && a != b implies s[a] != s[b] by {
            assert(agg.order@[a] != agg.order@[b]);
        }
    }
    s.unique_seq_to_set();
    assert(visited_set(agg, n) =~= s.to_set()) by {
        assert forall|k: int| visited_set(agg, n).contains(k) implies s.to_set().contains(k) by {
            let j = choose|j: int| 0 <= j < agg.order@.len() && agg.order@[j] == k as usize;
            assert(s[j] == k);
        }
        assert forall|k: int| s.to_set().contains(k) implies visited_set(agg, n).contains(k) by {
            let j = choose|j: int| 0 <= j < s.len() && s[j] == k;
            assert(agg.order@[j] < n);
            assert(agg.order@.contains(k as usize));
        }
    }
    assert forall|j: int| 0 <= j < agg.order@.len() implies visited_set(agg, n).contains(
        #[trigger] agg.order@[j] as int) by {
        assert(s[j] == agg.order@[j] as int);
    }
    if paths_unique(tree) {
        assert forall|a: int, b: int| 0 <= a < b < agg.order@.len()
            implies tree.files@[agg.order@[a] as int].path@ != tree.files@[agg.order@[b] as int].path@ by {
            assert(agg.order@[a] != agg.order@[b]);
        }
    }
}

/// Only a file that the filter lets in is ever appended, whether the walk or
/// the expansion of a reference reached it.
pub proof fn lemma_only_qualifying_appended(tree: &Tree, filter: &FilterSpec, limits: &Limits, agg: &Aggregate)
    requires
        agg.wf(tree, filter, limits),
    ensures
        forall|j: int| 0 <= j < agg.order@.len() ==> filter.qualifies(#[trigger] tree.files@[agg.order@[j] as int].path@),
        forall|k: usize| (k as int) < tree.files@.len() && !filter.qualifies(tree.files@[k as int].path@)
            ==> !agg.order@.contains(k),
{
    assert forall|k: usize| (k as int) < tree.files@.len() && !filter.qualifies(tree.files@[k as int].path@)
        implies !agg.order@.contains(k) by {
        if agg.order@.contains(k) {
            let j = choose|j: int| 0 <= j < agg.order@.len() && agg.order@[j] == k;
            assert(filter.qualifies(tree.files@[agg.order@[j] as int].path@));
        }
    }
}

proof fn lemma_walk_order_depth(files: Seq<SourceFile>, filter: FilterSpec, limits: Limits, m: int)
    requires
        m <= usize::MAX,
    ensures
        forall|j: int| 0 <= j < walk_order(files, filter, limits, m).len()
            ==> limits.within_depth(files[#[trigger] walk_order(files, filter, limits, m)[j] as int].depth),
    decreases m,
{
    if m > 0 {
        lemma_walk_order_depth(files, filter, limits, m - 1);
        let prev = walk_order(files, filter, limits, m - 1);
        let cur = walk_order(files, filter, limits, m);
        assert forall|j: int| 0 <= j < cur.len() implies limits.within_depth(files[#[trigger] cur[j] as int].depth) by {
            if j < prev.len() {
                assert(cur[j] == prev[j]);
            }
        }
    }
}

/// Without dependency following, only files within the depth limit are
/// appended; with a limit of 0, only files of the root directory itself.
pub proof fn lemma_depth_limit(tree: &Tree, filter: &FilterSpec, limits: &Limits, agg: &Aggregate)
    requires
        !filter.dependency_aware,
        tree.files@.len() <= usize::MAX,
        agg.order@ == walk_order(tree.files@, *filter, *limits, tree.files@.len() as int),
    ensures
        forall|j: int| 0 <= j < agg.order@.len() ==> limits.within_depth(#[trigger] tree.files@[agg.order@[j] as int].depth),
        limits.depth_limit == Some(0usize) ==> forall|j: int| 0 <= j < agg.order@.len()
            ==> #[trigger] tree.files@[agg.order@[j] as int].depth == Some(0usize),
{
    lemma_walk_order_depth(tree.files@, *filter, *limits, tree.files@.len() as int);
}

/// Two runs over one unchanged tree with the same filter and limits give the
/// same text and the same counts.
pub proof fn lemma_runs_agree(tree: &Tree, filter: &FilterSpec, limits: &Limits, a: &Aggregate, b: &Aggregate)
    requires
        a.wf(tree, filter, limits),
        b.wf(tree, filter, limits),
        a.order@ == run_order(tree.files@, *filter, *limits, tree.files@.len() as int),
        b.order@ == run_order(tree.files@, *filter, *limits, tree.files@.len() as int),
    ensures
        a.text@ == b.text@,
        a.order@ == b.order@,
        a.telemetry.files_processed == b.telemetry.files_processed,
        a.telemetry.bytes_read == b.telemetry.bytes_read,
        a.telemetry.tokens_aggregated == b.telemetry.tokens_aggregated,
{
}

/// A file that the filter does not let in starts no expansion: processing
/// it leaves the order as it was.
pub proof fn lemma_no_expansion_from_unqualified(
    files: Seq<SourceFile>,
    filter: FilterSpec,
    i: int,
    order: Seq<usize>,
    stack: Set<int>,
)
    requires
        0 <= i < files.len(),
        !filter.qualifies(files[i].path@),
    ensures
        expand(files, filter, i, order, stack) == order,
{
}

/// The references of the file at index `i`.
pub open spec fn refs_of(files: Seq<SourceFile>, i: int) -> Seq<Seq<char>> {
    references(files[i].path@, utf8_lossy(files[i].bytes@))
}

/// Two walked files that both qualify, the first referencing only the
/// second: following dependencies, the second is appended before the first.
pub proof fn lemma_dependency_first(files: Seq<SourceFile>, filter: FilterSpec, limits: Limits)
    requires
        files.len() == 2,
        filter.dependency_aware,
        appendable(filter, files[0]),
        appendable(filter, files[1]),
        limits.within_depth(files[0].depth),
        limits.within_depth(files[1].depth),
        refs_of(files, 0).len() == 1,
        resolve(files, candidate(files[0].path@, refs_of(files, 0)[0])) == Some(1int),
        refs_of(files, 1).len() == 0,
    ensures
        run_order(files, filter, limits, 2) == seq![1usize, 0usize],
{
    let s0 = Set::<int>::empty().insert(0);
    let s01 = s0.insert(1);
    assert(s0.len() == 1);
    assert(s01.len() == 2);
    let e: Seq<usize> = Seq::empty();
    assert(expand_refs(files, filter, files[1].path@, refs_of(files, 1), 0, e, s01) == e);
    assert(expand(files, filter, 1, e, s0) == seq![1usize]);
    assert(expand_refs(files, filter, files[0].path@, refs_of(files, 0), 1, seq![1usize], s0) == seq![1usize]);
    assert(expand_refs(files, filter, files[0].path@, refs_of(files, 0), 0, e, s0) == seq![1usize]);
    assert(expand(files, filter, 0, e, Set::empty()) =~= seq![1usize, 0usize]);
    assert(run_order(files, filter, limits, 0) == e);
    assert(run_order(files, filter, limits, 1) == seq![1usize, 0usize]);
    assert(seq![1usize, 0usize].contains(1usize)) by {
        assert(seq![1usize, 0usize][0] == 1usize);
    }
}

/// Two walked files that both qualify and reference each other: following
/// dependencies, the run ends and appends each of them once, the second first.
pub proof fn lemma_cycle_once(files: Seq<SourceFile>, filter: FilterSpec, limits: Limits)
    requires
        files.len() == 2,
        filter.dependency_aware,
        appendable(filter, files[0]),
        appendable(filter, files[1]),
        limits.within_depth(files[0].depth),
        limits.within_depth(files[1].depth),
        refs_of(files, 0).len() == 1,
        resolve(files, candidate(files[0].path@, refs_of(files, 0)[0])) == Some(1int),
        refs_of(files, 1).len() == 1,
        resolve(files, candidate(files[1].path@, refs_of(files, 1)[0])) == Some(0int),
    ensures
        run_order(files, filter, limits, 2) == seq![1usize, 0usize],
{
    let s0 = Set::<int>::empty().insert(0);
    let s01 = s0.insert(1);
    assert(s0.len() == 1);
    assert(s01.len() == 2);
    let e: Seq<usize> = Seq::empty();
    assert(expand(files, filter, 0, e, s01) == e);
    assert(expand_refs(files, filter, files[1].path@, refs_of(files, 1), 1, e, s01) == e);
    assert(expand_refs(files, filter, files[1].path@, refs_of(files, 1), 0, e, s01) == e);
    assert(expand(files, filter, 1, e, s0) == seq![1usize]);
    assert(expand_refs(files, filter, files[0].path@, refs_of(files, 0), 1, seq![1usize], s0) == seq![1usize]);
    assert(expand_refs(files, filter, files[0].path@, refs_of(files, 0), 0, e, s0) == seq![1usize]);
    assert(expand(files, filter, 0, e, Set::empty()) =~= seq![1usize, 0usize]);
    assert(run_order(files, filter, limits, 0) == e);
    assert(run_order(files, filter, limits, 1) == seq![1usize, 0usize]);
    assert(seq![1usize, 0usize].contains(1usize)) by {
        assert(seq![1usize, 0usize][0] == 1usize);
    }
}

} // verus!
