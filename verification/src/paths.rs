//! Expanding glob patterns into a sorted list of files without duplicates.
//! Paths are ordered as Rust's `Path` orders them: component by component.
use vstd::prelude::*;
use crate::order::{byte_lt, bytes_before, lex_lt, strict_total};
use crate::sort::{Ordered, is_ordered, sort_ordered, sort_stable};

verus! {

broadcast use vstd::seq_lib::group_seq_properties;

/// A component of a path, as `std::path::Component` tells them apart, with
/// the bytes of those that carry a name.
pub enum PartView {
    Prefix(Seq<u8>),
    RootDir,
    CurDir,
    ParentDir,
    Normal(Seq<u8>),
}

pub enum PathPart {
    Prefix(Vec<u8>),
    RootDir,
    CurDir,
    ParentDir,
    Normal(Vec<u8>),
}

impl View for PathPart {
    type V = PartView;

    open spec fn view(&self) -> PartView {
        match self {
            PathPart::Prefix(b) => PartView::Prefix(b@),
            PathPart::RootDir => PartView::RootDir,
            PathPart::CurDir => PartView::CurDir,
            PathPart::ParentDir => PartView::ParentDir,
            PathPart::Normal(b) => PartView::Normal(b@),
        }
    }
}

/// The place of a component's kind in the order of `std::path::Component`.
pub open spec fn part_rank(p: PartView) -> int {
    match p {
        PartView::Prefix(_) => 0,
        PartView::RootDir => 1,
        PartView::CurDir => 2,
        PartView::ParentDir => 3,
        PartView::Normal(_) => 4,
    }
}

pub open spec fn part_bytes(p: PartView) -> Seq<u8> {
    match p {
        PartView::Prefix(b) => b,
        PartView::Normal(b) => b,
        _ => Seq::empty(),
    }
}

/// Components are ordered by kind, then by their bytes.  (`std` orders the
/// prefixes of Windows paths by their parsed form; paths elsewhere have none.)
pub open spec fn part_lt() -> spec_fn(PartView, PartView) -> bool {
    |p: PartView, q: PartView|
        part_rank(p) < part_rank(q) || (part_rank(p) == part_rank(q) && lex_lt(
            part_bytes(p),
            part_bytes(q),
            byte_lt(),
        ))
}

/// The order of paths: lexicographic over their components.
pub open spec fn path_lt(a: Seq<PartView>, b: Seq<PartView>) -> bool {
    lex_lt(a, b, part_lt())
}

pub proof fn lemma_part_lt_strict_total()
    ensures
        strict_total(part_lt()),
{
    let lt = part_lt();
    assert forall|x: PartView| !#[trigger] lt(x, x) by {
        crate::order::lemma_lex_irreflexive(part_bytes(x), byte_lt());
    }
    assert forall|x: PartView, y: PartView, z: PartView| #[trigger] lt(x, y) && #[trigger] lt(y, z) implies lt(x, z) by {
        if part_rank(x) == part_rank(y) && part_rank(y) == part_rank(z) {
            crate::order::lemma_lex_transitive(part_bytes(x), part_bytes(y), part_bytes(z), byte_lt());
        }
    }
    assert forall|x: PartView, y: PartView| x != y implies #[trigger] lt(x, y) || #[trigger] lt(y, x) by {
        if part_rank(x) == part_rank(y) && part_bytes(x) != part_bytes(y) {
            crate::order::lemma_lex_total(part_bytes(x), part_bytes(y), byte_lt());
        }
    }
}

pub proof fn lemma_path_lt_strict_total()
    ensures
        strict_total(|a: Seq<PartView>, b: Seq<PartView>| path_lt(a, b)),
{
    lemma_part_lt_strict_total();
    crate::order::lemma_lex_strict_total(part_lt());
    assert((|a: Seq<PartView>, b: Seq<PartView>| path_lt(a, b)) =~= (|a: Seq<PartView>, b: Seq<PartView>| lex_lt(a, b, part_lt())));
}

pub proof fn lemma_path_lt_facts(a: Seq<PartView>, b: Seq<PartView>, c: Seq<PartView>)
    ensures
        !path_lt(a, a),
        path_lt(a, b) && path_lt(b, c) ==> path_lt(a, c),
        a != b ==> path_lt(a, b) || path_lt(b, a),
{
    lemma_path_lt_strict_total();
    let lt = |a: Seq<PartView>, b: Seq<PartView>| path_lt(a, b);
    assert(!lt(a, a));
    if path_lt(a, b) && path_lt(b, c) {
        assert(lt(a, b) && lt(b, c));
    }
    if a != b {
        assert(lt(a, b) || lt(b, a));
    }
}

pub open spec fn parts_view(v: Seq<PathPart>) -> Seq<PartView> {
    v.map_values(|p: PathPart| p@)
}

/// The components that `std::path::Path::components` yields for `path`.
pub uninterp spec fn path_components(path: Seq<char>) -> Seq<PartView>;

/// Calls `std::path::Path::components` on `path` and records each
/// component's kind, and the bytes of those that carry a name.
#[verifier::external_body]
pub(crate) fn components_of(path: &str) -> (r: Vec<PathPart>)
    ensures
        parts_view(r@) == path_components(path@),
{
    std::path::Path::new(path).components().map(|c| match c {
        std::path::Component::Prefix(p) => PathPart::Prefix(p.as_os_str().as_encoded_bytes().to_vec()),
        std::path::Component::RootDir => PathPart::RootDir,
        std::path::Component::CurDir => PathPart::CurDir,
        std::path::Component::ParentDir => PathPart::ParentDir,
        std::path::Component::Normal(s) => PathPart::Normal(s.as_encoded_bytes().to_vec()),
    }).collect()
}

fn part_rank_of(p: &PathPart) -> (r: u8)
    ensures
        r as int == part_rank(p@),
{
    match p {
        PathPart::Prefix(_) => 0,
        PathPart::RootDir => 1,
        PathPart::CurDir => 2,
        PathPart::ParentDir => 3,
        PathPart::Normal(_) => 4,
    }
}

fn part_bytes_of(p: &PathPart) -> (r: &[u8])
    ensures
        r@ == part_bytes(p@),
{
    match p {
        PathPart::Prefix(b) => b.as_slice(),
        PathPart::Normal(b) => b.as_slice(),
        _ => &[],
    }
}

fn part_before(p: &PathPart, q: &PathPart) -> (r: bool)
    ensures
        r == (part_lt())(p@, q@),
{
    let rp = part_rank_of(p);
    let rq = part_rank_of(q);
    rp < rq || (rp == rq && bytes_before(part_bytes_of(p), part_bytes_of(q)))
}

/// Compares two paths, given by their components, in the order of `Path`.
pub(crate) fn parts_before(a: &[PathPart], b: &[PathPart]) -> (r: bool)
    ensures
        r == path_lt(parts_view(a@), parts_view(b@)),
{
    let ghost av = parts_view(a@);
    let ghost bv = parts_view(b@);
    proof {
        lemma_part_lt_strict_total();
    }
    let mut i: usize = 0;
    assert(av.skip(0) =~= av);
    assert(bv.skip(0) =~= bv);
    while i < a.len() && i < b.len()
        invariant
            i <= a.len(),
            i <= b.len(),
            av == parts_view(a@),
            bv == parts_view(b@),
            strict_total(part_lt()),
            path_lt(av, bv) == lex_lt(av.skip(i as int), bv.skip(i as int), part_lt()),
        decreases a.len() - i,
    {
        if part_before(&a[i], &b[i]) {
            return true;
        }
        if part_before(&b[i], &a[i]) {
            return false;
        }
        let ghost lt = part_lt();
        assert(av[i as int] == bv[i as int]) by {
            if av[i as int] != bv[i as int] {
                assert(lt(av[i as int], bv[i as int]) || lt(bv[i as int], av[i as int]));
            }
        }
        assert(av.skip(i as int).drop_first() =~= av.skip(i + 1));
        assert(bv.skip(i as int).drop_first() =~= bv.skip(i + 1));
        i = i + 1;
    }
    i < b.len()
}

pub(crate) fn copy_bytes(b: &[u8]) -> (r: Vec<u8>)
    ensures
        r@ == b@,
{
    let mut r: Vec<u8> = Vec::new();
    let mut i: usize = 0;
    while i < b.len()
        invariant
            i <= b.len(),
            r@ == b@.take(i as int),
        decreases b.len() - i,
    {
        r.push(b[i]);
        assert(b@.take(i + 1) =~= b@.take(i as int).push(b@[i as int]));
        i = i + 1;
    }
    assert(b@.take(b.len() as int) =~= b@);
    r
}

/// A file found by a glob: the text of its path and the path's components.
pub struct PathEntry {
    pub text: String,
    pub parts: Vec<PathPart>,
}

impl View for PathEntry {
    type V = (Seq<char>, Seq<PartView>);

    open spec fn view(&self) -> (Seq<char>, Seq<PartView>) {
        (self.text@, parts_view(self.parts@))
    }
}

impl Ordered for PathEntry {
    open spec fn precedes(a: (Seq<char>, Seq<PartView>), b: (Seq<char>, Seq<PartView>)) -> bool {
        path_lt(a.1, b.1)
    }

    proof fn lemma_precedes_transitive(
        a: (Seq<char>, Seq<PartView>),
        b: (Seq<char>, Seq<PartView>),
        c: (Seq<char>, Seq<PartView>),
    ) {
        lemma_path_lt_facts(a.1, b.1, c.1);
    }

    proof fn lemma_precedes_asymmetric(a: (Seq<char>, Seq<PartView>), b: (Seq<char>, Seq<PartView>)) {
        lemma_path_lt_facts(a.1, b.1, a.1);
    }

    proof fn lemma_not_precedes_transitive(
        a: (Seq<char>, Seq<PartView>),
        b: (Seq<char>, Seq<PartView>),
        c: (Seq<char>, Seq<PartView>),
    ) {
        lemma_path_lt_facts(a.1, b.1, c.1);
        lemma_path_lt_facts(b.1, c.1, a.1);
        lemma_path_lt_facts(c.1, a.1, b.1);
        lemma_path_lt_facts(a.1, c.1, b.1);
        lemma_path_lt_facts(b.1, a.1, c.1);
        lemma_path_lt_facts(c.1, b.1, a.1);
    }

    fn goes_before(&self, other: &Self) -> (r: bool) {
        parts_before(self.parts.as_slice(), other.parts.as_slice())
    }

    fn duplicate(&self) -> (r: Self) {
        let mut parts: Vec<PathPart> = Vec::new();
        let mut i: usize = 0;
        while i < self.parts.len()
            invariant
                i <= self.parts.len(),
                parts_view(parts@) == parts_view(self.parts@).take(i as int),
            decreases self.parts.len() - i,
        {
            let p = match &self.parts[i] {
                PathPart::Prefix(b) => PathPart::Prefix(copy_bytes(b.as_slice())),
                PathPart::RootDir => PathPart::RootDir,
                PathPart::CurDir => PathPart::CurDir,
                PathPart::ParentDir => PathPart::ParentDir,
                PathPart::Normal(b) => PathPart::Normal(copy_bytes(b.as_slice())),
            };
            assert(p@ == self.parts@[i as int]@);
            let ghost prev = parts@;
            parts.push(p);
            assert(parts_view(parts@) =~= parts_view(prev).push(self.parts@[i as int]@));
            assert(parts_view(self.parts@).take(i + 1) =~= parts_view(self.parts@).take(i as int).push(
                self.parts@[i as int]@,
            ));
            i = i + 1;
        }
        assert(parts_view(self.parts@).take(self.parts.len() as int) =~= parts_view(self.parts@));
        PathEntry { text: self.text.clone(), parts }
    }
}


/// Keeps the first of each run of neighbours that have the same components.
pub open spec fn dedup_runs(s: Seq<(Seq<char>, Seq<PartView>)>) -> Seq<(Seq<char>, Seq<PartView>)>
    decreases s.len(),
{
    if s.len() == 0 {
        s
    } else {
        let r = dedup_runs(s.drop_last());
        if s.len() >= 2 && s[s.len() - 2].1 == s.last().1 {
            r
        } else {
            r.push(s.last())
        }
    }
}

/// Each path with its components.
pub open spec fn path_entries(paths: Seq<Seq<char>>) -> Seq<(Seq<char>, Seq<PartView>)> {
    paths.map_values(|p: Seq<char>| (p, path_components(p)))
}

/// The paths sorted stably in the order of `Path`, of each group of paths
/// with the same components only the first kept.
pub open spec fn sorted_unique_paths(paths: Seq<Seq<char>>) -> Seq<Seq<char>> {
    dedup_runs(sort_ordered::<PathEntry>(path_entries(paths))).map_values(
        |e: (Seq<char>, Seq<PartView>)| e.0,
    )
}

pub open spec fn strings_view(v: Seq<String>) -> Seq<Seq<char>> {
    v.map_values(|s: String| s@)
}

pub open spec fn entries_view(v: Seq<PathEntry>) -> Seq<(Seq<char>, Seq<PartView>)> {
    v.map_values(|e: PathEntry| e@)
}

/// Sorts paths in the order of `Path` and drops those whose components
/// repeat those of the path before.
pub fn sort_unique_paths(paths: &[String]) -> (r: Vec<String>)
    ensures
        strings_view(r@) == sorted_unique_paths(strings_view(paths@)),
{
    let ghost ps = strings_view(paths@);
    let mut entries: Vec<PathEntry> = Vec::new();
    let mut i: usize = 0;
    while i < paths.len()
        invariant
            i <= paths.len(),
            ps == strings_view(paths@),
            entries_view(entries@) == path_entries(ps.take(i as int)),
        decreases paths.len() - i,
    {
        let parts = components_of(paths[i].as_str());
        let e = PathEntry { text: paths[i].clone(), parts };
        let ghost prev = entries@;
        entries.push(e);
        assert(entries_view(entries@) =~= entries_view(prev).push(e@));
        assert(path_entries(ps.take(i + 1)) =~= path_entries(ps.take(i as int)).push(e@));
        i = i + 1;
    }
    assert(ps.take(paths.len() as int) =~= ps);
    let sorted = sort_stable(entries.as_slice());
    let ghost ss = entries_view(sorted@);
    assert(ss == sort_ordered::<PathEntry>(path_entries(ps)));
    let mut r: Vec<String> = Vec::new();
    let mut k: usize = 0;
    assert(ss.take(0) =~= Seq::<(Seq<char>, Seq<PartView>)>::empty());
    while k < sorted.len()
        invariant
            k <= sorted.len(),
            ss == entries_view(sorted@),
            strings_view(r@) == dedup_runs(ss.take(k as int)).map_values(
                |e: (Seq<char>, Seq<PartView>)| e.0,
            ),
        decreases sorted.len() - k,
    {
        let ghost t = ss.take(k + 1);
        assert(t.drop_last() =~= ss.take(k as int));
        let repeated = k > 0 && !sorted[k - 1].goes_before(&sorted[k]) && !sorted[k].goes_before(
            &sorted[k - 1],
        );
        proof {
            if k > 0 {
                lemma_path_lt_facts(ss[k - 1].1, ss[k as int].1, ss[k as int].1);
                assert(t[k - 1] == ss[k - 1]);
            }
        }
        if !repeated {
            let ghost prev = r@;
            r.push(sorted[k].text.clone());
            assert(strings_view(r@) =~= strings_view(prev).push(ss[k as int].0));
        }
        assert(dedup_runs(t).map_values(|e: (Seq<char>, Seq<PartView>)| e.0) =~= if repeated {
            dedup_runs(ss.take(k as int)).map_values(|e: (Seq<char>, Seq<PartView>)| e.0)
        } else {
            dedup_runs(ss.take(k as int)).map_values(|e: (Seq<char>, Seq<PartView>)| e.0).push(ss[k as int].0)
        });
        k = k + 1;
    }
    assert(ss.take(sorted.len() as int) =~= ss);
    r
}


/// The first-of-each-run list of an ordered list is strictly increasing and
/// ends with the components of the list's last entry.
proof fn lemma_dedup_runs_increasing(s: Seq<(Seq<char>, Seq<PartView>)>)
    requires
        is_ordered::<PathEntry>(s),
    ensures
        forall|i: int, j: int|
            0 <= i < j < dedup_runs(s).len() ==> path_lt(
                #[trigger] dedup_runs(s)[i].1,
                #[trigger] dedup_runs(s)[j].1,
            ),
        s.len() > 0 ==> dedup_runs(s).len() > 0 && dedup_runs(s).last().1 == s.last().1,
    decreases s.len(),
{
    if s.len() > 0 {
        let t = s.drop_last();
        crate::sort::lemma_ordered_drop_last::<PathEntry>(s);
        lemma_dedup_runs_increasing(t);
        let r = dedup_runs(t);
        let d = dedup_runs(s);
        if !(s.len() >= 2 && s[s.len() - 2].1 == s.last().1) && s.len() >= 2 {
            let a = s[s.len() - 2].1;
            let b = s.last().1;
            assert(!path_lt(b, a));
            lemma_path_lt_facts(a, b, b);
            assert forall|i: int, j: int| 0 <= i < j < d.len() implies path_lt(#[trigger] d[i].1, #[trigger] d[j].1) by {
                if j == d.len() - 1 {
                    if i < r.len() - 1 {
                        assert(path_lt(r[i].1, r[r.len() - 1].1));
                        lemma_path_lt_facts(r[i].1, a, b);
                    }
                } else {
                    assert(d[i] == r[i] && d[j] == r[j]);
                }
            }
        }
    }
}

/// Every entry the first-of-each-run list keeps is an entry of the list.
proof fn lemma_dedup_runs_from(s: Seq<(Seq<char>, Seq<PartView>)>)
    ensures
        forall|k: int| 0 <= k < dedup_runs(s).len() ==> s.contains(#[trigger] dedup_runs(s)[k]),
    decreases s.len(),
{
    if s.len() > 0 {
        let t = s.drop_last();
        lemma_dedup_runs_from(t);
        let r = dedup_runs(t);
        let d = dedup_runs(s);
        assert forall|k: int| 0 <= k < d.len() implies s.contains(#[trigger] d[k]) by {
            if k < r.len() {
                assert(t.contains(r[k]));
                let m = choose|m: int| 0 <= m < t.len() && t[m] == r[k];
                assert(s[m] == t[m]);
            } else {
                assert(s[s.len() - 1] == d[k]);
            }
        }
    }
}

/// Every entry of the list has one with the same components in its
/// first-of-each-run list.
proof fn lemma_dedup_runs_covers(s: Seq<(Seq<char>, Seq<PartView>)>)
    ensures
        s.len() > 0 ==> dedup_runs(s).len() > 0 && dedup_runs(s).last().1 == s.last().1,
        forall|m: int|
            0 <= m < s.len() ==> exists|k: int|
                0 <= k < dedup_runs(s).len() && #[trigger] dedup_runs(s)[k].1 == #[trigger] s[m].1,
    decreases s.len(),
{
    if s.len() > 0 {
        let t = s.drop_last();
        lemma_dedup_runs_covers(t);
        let r = dedup_runs(t);
        let d = dedup_runs(s);
        assert forall|m: int| 0 <= m < s.len() implies exists|k: int|
            0 <= k < d.len() && #[trigger] d[k].1 == #[trigger] s[m].1 by {
            if m < s.len() - 1 {
                assert(s[m] == t[m]);
                let k = choose|k: int| 0 <= k < r.len() && #[trigger] r[k].1 == #[trigger] t[m].1;
                assert(d[k].1 == s[m].1);
            } else {
                assert(d[d.len() - 1].1 == s[m].1);
            }
        }
    }
}

/// The sorted list of files is strictly increasing in the order of `Path`
/// (so no two of its paths have the same components), holds only paths it
/// was given, and loses none: every path given has one with the same
/// components in the list.
pub proof fn law_sorted_unique_paths(paths: Seq<Seq<char>>)
    ensures
        forall|i: int, j: int|
            0 <= i < j < sorted_unique_paths(paths).len() ==> path_lt(
                path_components(#[trigger] sorted_unique_paths(paths)[i]),
                path_components(#[trigger] sorted_unique_paths(paths)[j]),
            ),
        forall|i: int| 0 <= i < sorted_unique_paths(paths).len() ==> paths.contains(
            #[trigger] sorted_unique_paths(paths)[i],
        ),
        forall|m: int|
            0 <= m < paths.len() ==> exists|i: int|
                0 <= i < sorted_unique_paths(paths).len() && path_components(
                    #[trigger] sorted_unique_paths(paths)[i],
                ) == path_components(#[trigger] paths[m]),
{
    broadcast use vstd::seq::Seq::to_multiset_ensures;

    let es = path_entries(paths);
    let ss = sort_ordered::<PathEntry>(es);
    crate::sort::lemma_sort_is_ordered::<PathEntry>(es);
    crate::sort::lemma_sort_to_multiset::<PathEntry>(es);
    crate::sort::lemma_sort_len::<PathEntry>(es);
    lemma_dedup_runs_increasing(ss);
    lemma_dedup_runs_from(ss);
    lemma_dedup_runs_covers(ss);
    let d = dedup_runs(ss);
    let r = sorted_unique_paths(paths);
    assert(r.len() == d.len());
    // every sorted entry is an entry of some given path
    assert forall|k: int| 0 <= k < ss.len() implies #[trigger] ss[k].1 == path_components(ss[k].0)
        && paths.contains(ss[k].0) by {
        assert(ss.contains(ss[k]));
        assert(ss.to_multiset().count(ss[k]) > 0);
        assert(es.to_multiset().count(ss[k]) > 0);
        assert(es.contains(ss[k]));
        let m = choose|m: int| 0 <= m < es.len() && es[m] == ss[k];
        assert(paths[m] == ss[k].0);
    }
    assert forall|k: int| 0 <= k < d.len() implies #[trigger] d[k].1 == path_components(d[k].0)
        && paths.contains(d[k].0) by {
        assert(ss.contains(d[k]));
        let m = choose|m: int| 0 <= m < ss.len() && ss[m] == d[k];
        assert(ss[m].1 == path_components(ss[m].0));
    }
    assert forall|i: int, j: int| 0 <= i < j < r.len() implies path_lt(
        path_components(#[trigger] r[i]),
        path_components(#[trigger] r[j]),
    ) by {
        assert(r[i] == d[i].0 && r[j] == d[j].0);
        assert(path_lt(d[i].1, d[j].1));
    }
    assert forall|i: int| 0 <= i < r.len() implies paths.contains(#[trigger] r[i]) by {
        assert(r[i] == d[i].0);
    }
    assert forall|m: int| 0 <= m < paths.len() implies exists|i: int|
        0 <= i < r.len() && path_components(#[trigger] r[i]) == path_components(#[trigger] paths[m]) by {
        assert(es[m] == (paths[m], path_components(paths[m])));
        assert(es.contains(es[m]));
        assert(es.to_multiset().count(es[m]) > 0);
        assert(ss.to_multiset().count(es[m]) > 0);
        assert(ss.contains(es[m]));
        let n = choose|n: int| 0 <= n < ss.len() && ss[n] == es[m];
        let k = choose|k: int| 0 <= k < d.len() && #[trigger] d[k].1 == #[trigger] ss[n].1;
        assert(r[k] == d[k].0);
    }
}


#[verifier::external_type_specification]
#[verifier::external_body]
pub struct ExPatternError(glob::PatternError);

#[verifier::external_type_specification]
#[verifier::external_body]
pub struct ExGlobError(glob::GlobError);

/// `glob::glob` refuses `pattern` as malformed.
pub uninterp spec fn glob_rejects(pattern: Seq<char>) -> bool;

/// Calls `glob::glob` and walks the paths that it yields, each as the text
/// of the path (lossily, where a path is not UTF-8, so that such a path is
/// then not found as a regular file) or the error met while reading a
/// directory.  The call fails exactly where `glob` refuses the
/// pattern, which depends on the pattern alone; what it yields depends on
/// the file system, and nothing is stated of it.
#[verifier::external_body]
fn glob_entries(pattern: &str) -> (r: Result<Vec<Result<String, glob::GlobError>>, glob::PatternError>)
    ensures
        r is Err <==> glob_rejects(pattern@),
{
    glob::glob(pattern).map(|paths| paths.map(|e| e.map(|p| p.to_string_lossy().into_owned())).collect())
}

/// Calls `std::path::Path::is_file`: whether `path` names a regular file
/// (following symbolic links), which depends on the file system; nothing is
/// stated of it.
#[verifier::external_body]
fn path_is_file(path: &str) -> bool {
    std::path::Path::new(path).is_file()
}

/// What walking one pattern yielded, in order: for each path its text and
/// whether it is a regular file, or `None` for an entry that could not be
/// read.
pub type WalkView = Seq<Option<(Seq<char>, bool)>>;

pub open spec fn walk_view(w: Seq<Option<(String, bool)>>) -> WalkView {
    w.map_values(|e: Option<(String, bool)>| match e {
        Some((p, f)) => Some((p@, f)),
        None => None,
    })
}

pub open spec fn walks_view(ws: Seq<Vec<Option<(String, bool)>>>) -> Seq<WalkView> {
    ws.map_values(|w: Vec<Option<(String, bool)>>| walk_view(w@))
}

/// The regular files of a walk, in the order walked.
pub open spec fn walk_files(w: WalkView) -> Seq<Seq<char>>
    decreases w.len(),
{
    if w.len() == 0 {
        Seq::empty()
    } else {
        walk_files(w.drop_last()) + match w.last() {
            Some((p, true)) => seq![p],
            _ => Seq::empty(),
        }
    }
}

/// The regular files of all walks, walk after walk.
pub open spec fn walks_files(ws: Seq<WalkView>) -> Seq<Seq<char>>
    decreases ws.len(),
{
    if ws.len() == 0 {
        Seq::empty()
    } else {
        walks_files(ws.drop_last()) + walk_files(ws.last())
    }
}

/// The walk met an entry that could not be read.
pub open spec fn has_unreadable(w: WalkView) -> bool {
    exists|i: int| 0 <= i < w.len() && #[trigger] w[i] is None
}

/// The first walk that met an unreadable entry, if any did.
pub open spec fn first_unreadable(ws: Seq<WalkView>) -> Option<int>
    decreases ws.len(),
{
    if ws.len() == 0 {
        None
    } else {
        match first_unreadable(ws.drop_last()) {
            Some(k) => Some(k),
            None => if has_unreadable(ws.last()) {
                Some(ws.len() - 1)
            } else {
                None
            },
        }
    }
}

/// What the walks give: the place of the first walk that met an unreadable
/// entry, or else the regular files walked, sorted in the order of `Path`,
/// each path once.
pub open spec fn kept_paths(ws: Seq<WalkView>) -> Result<Seq<Seq<char>>, int> {
    match first_unreadable(ws) {
        Some(k) => Err(k),
        None => Ok(sorted_unique_paths(walks_files(ws))),
    }
}

proof fn lemma_first_unreadable_prefix(ws: Seq<WalkView>, j: int)
    requires
        0 <= j <= ws.len(),
        first_unreadable(ws.take(j)) is Some,
    ensures
        first_unreadable(ws) == first_unreadable(ws.take(j)),
    decreases ws.len() - j,
{
    if j < ws.len() {
        assert(ws.take(j + 1).drop_last() =~= ws.take(j));
        lemma_first_unreadable_prefix(ws, j + 1);
    } else {
        assert(ws.take(j) =~= ws);
    }
}

/// What `glob` yielded for a pattern: each path's text, or `None` for an
/// entry that could not be read.
pub open spec fn yield_view(entries: Seq<Result<String, glob::GlobError>>) -> Seq<Option<Seq<char>>> {
    entries.map_values(|e: Result<String, glob::GlobError>| match e {
        Ok(p) => Some(p@),
        Err(_) => None,
    })
}

/// The walk recorded from what `glob` yielded, with `regular[i]` the answer
/// for the `i`-th path: every entry in order, up to and including the first
/// that could not be read.
pub open spec fn recorded_walk(yielded: Seq<Option<Seq<char>>>, regular: Seq<bool>) -> WalkView
    decreases yielded.len(),
{
    if yielded.len() == 0 {
        Seq::empty()
    } else {
        match yielded[0] {
            Some(p) => seq![Some((p, regular[0]))] + recorded_walk(yielded.drop_first(), regular.drop_first()),
            None => seq![None],
        }
    }
}

/// A yielded entry as a walk records it, with the answer for its path.
pub open spec fn entry_record(y: Option<Seq<char>>, regular: bool) -> Option<(Seq<char>, bool)> {
    match y {
        Some(p) => Some((p, regular)),
        None => None,
    }
}

proof fn lemma_recorded_shape(yielded: Seq<Option<Seq<char>>>, regular: Seq<bool>)
    requires
        regular.len() == yielded.len(),
    ensures
        recorded_walk(yielded, regular).len() <= yielded.len(),
        forall|j: int|
            0 <= j < recorded_walk(yielded, regular).len() - 1 ==> #[trigger] yielded[j] is Some,
    decreases yielded.len(),
{
    if yielded.len() > 0 && yielded[0] is Some {
        let y1 = yielded.drop_first();
        let r1 = regular.drop_first();
        lemma_recorded_shape(y1, r1);
        let w = recorded_walk(yielded, regular);
        assert(w.len() == recorded_walk(y1, r1).len() + 1);
        assert forall|j: int| 0 <= j < w.len() - 1 implies #[trigger] yielded[j] is Some by {
            if j > 0 {
                assert(yielded[j] == y1[j - 1]);
            }
        }
    }
}

proof fn lemma_recorded_at(yielded: Seq<Option<Seq<char>>>, regular: Seq<bool>, i: int)
    requires
        regular.len() == yielded.len(),
        0 <= i < yielded.len(),
        forall|j: int| 0 <= j < i ==> #[trigger] yielded[j] is Some,
    ensures
        i < recorded_walk(yielded, regular).len(),
        recorded_walk(yielded, regular)[i] == entry_record(yielded[i], regular[i]),
    decreases i,
{
    let w = recorded_walk(yielded, regular);
    if i == 0 {
        if yielded[0] is None {
            assert(w == seq![None::<(Seq<char>, bool)>]);
        } else {
            let p0 = yielded[0]->0;
            assert(w == seq![Some((p0, regular[0]))] + recorded_walk(yielded.drop_first(), regular.drop_first()));
        }
    } else {
        let y1 = yielded.drop_first();
        let r1 = regular.drop_first();
        assert(yielded[0] is Some);
        assert forall|j: int| 0 <= j < i - 1 implies #[trigger] y1[j] is Some by {
            assert(y1[j] == yielded[j + 1]);
        }
        lemma_recorded_at(y1, r1, i - 1);
        let p0 = yielded[0]->0;
        let w1 = recorded_walk(y1, r1);
        assert(w == seq![Some((p0, regular[0]))] + w1);
        assert(w[i] == w1[i - 1]);
        assert(y1[i - 1] == yielded[i] && r1[i - 1] == regular[i]);
    }
}

/// Every entry before the `i`-th could be read.
pub open spec fn readable_before(yielded: Seq<Option<Seq<char>>>, i: int) -> bool {
    forall|j: int| 0 <= j < i ==> #[trigger] yielded[j] is Some
}

/// The recorded walk holds every entry that `glob` yielded before the first
/// unreadable one, each path with its answer, in the order yielded, then
/// that unreadable entry, and nothing after it.
pub proof fn law_walk_records_every_entry(yielded: Seq<Option<Seq<char>>>, regular: Seq<bool>)
    requires
        regular.len() == yielded.len(),
    ensures
        recorded_walk(yielded, regular).len() <= yielded.len(),
        forall|i: int|
            0 <= i < yielded.len() && #[trigger] readable_before(yielded, i) ==> i < recorded_walk(
                yielded,
                regular,
            ).len() && recorded_walk(yielded, regular)[i] == entry_record(yielded[i], regular[i]),
        readable_before(yielded, recorded_walk(yielded, regular).len() - 1),
{
    lemma_recorded_shape(yielded, regular);
    assert forall|i: int| 0 <= i < yielded.len() && #[trigger] readable_before(yielded, i) implies i
        < recorded_walk(yielded, regular).len() && recorded_walk(yielded, regular)[i] == entry_record(
        yielded[i],
        regular[i],
    ) by {
        lemma_recorded_at(yielded, regular, i);
    }
}

/// Records a walk from what `glob` yielded for a pattern and the answers
/// of the regular-file test for its paths.
pub fn record_walk(entries: &[Result<String, glob::GlobError>], regular: &[bool]) -> (r: Vec<Option<(String, bool)>>)
    requires
        regular.len() == entries.len(),
    ensures
        walk_view(r@) == recorded_walk(yield_view(entries@), regular@),
        has_unreadable(walk_view(r@)) <==> (r@.len() > 0 && r@[r@.len() - 1] is None),
{
    let ghost ys = yield_view(entries@);
    let mut walk: Vec<Option<(String, bool)>> = Vec::new();
    let mut i: usize = 0;
    let mut done = false;
    assert(ys.skip(0) =~= ys);
    assert(regular@.skip(0) =~= regular@);
    while i < entries.len() && !done
        invariant
            i <= entries.len(),
            regular.len() == entries.len(),
            ys == yield_view(entries@),
            !done ==> walk_view(walk@) + recorded_walk(ys.skip(i as int), regular@.skip(i as int)) == recorded_walk(
                ys,
                regular@,
            ),
            done ==> walk_view(walk@) == recorded_walk(ys, regular@),
            !done ==> forall|j: int| 0 <= j < walk@.len() ==> #[trigger] walk@[j] is Some,
            done ==> walk@.len() > 0 && walk@[walk@.len() - 1] is None && forall|j: int|
                0 <= j < walk@.len() - 1 ==> #[trigger] walk@[j] is Some,
        decreases entries.len() - i,
    {
        let ghost prev = walk@;
        let ghost rest = recorded_walk(ys.skip(i as int), regular@.skip(i as int));
        assert(ys.skip(i as int)[0] == ys[i as int]);
        assert(ys.skip(i as int).drop_first() =~= ys.skip(i + 1));
        assert(regular@.skip(i as int).drop_first() =~= regular@.skip(i + 1));
        match &entries[i] {
            Ok(path) => {
                walk.push(Some((path.clone(), regular[i])));
                assert(walk_view(walk@) =~= walk_view(prev).push(Some((path@, regular@[i as int]))));
                assert(walk_view(walk@) + recorded_walk(ys.skip(i + 1), regular@.skip(i + 1)) =~= walk_view(prev)
                    + rest);
            },
            Err(_) => {
                walk.push(None);
                done = true;
                assert(walk_view(walk@) =~= walk_view(prev) + rest);
            },
        }
        i = i + 1;
    }
    if !done {
        assert(ys.skip(i as int) =~= Seq::<Option<Seq<char>>>::empty());
        assert(walk_view(walk@) =~= walk_view(walk@) + recorded_walk(ys.skip(i as int), regular@.skip(i as int)));
    }
    proof {
        let wv = walk_view(walk@);
        if has_unreadable(wv) {
            let j = choose|j: int| 0 <= j < wv.len() && #[trigger] wv[j] is None;
            assert(walk@[j] is None);
        }
        if walk@.len() > 0 && walk@[walk@.len() - 1] is None {
            assert(wv[wv.len() - 1] is None);
        }
    }
    walk
}

/// Picks the files to hash from what the patterns' walks yielded: the first
/// walk that met an unreadable entry ends it with that walk's place;
/// otherwise the regular files, sorted in the order of `Path`, each once.
pub fn select_files(walks: &[Vec<Option<(String, bool)>>]) -> (r: Result<Vec<String>, usize>)
    ensures
        match r {
            Ok(files) => kept_paths(walks_view(walks@)) == Ok::<Seq<Seq<char>>, int>(strings_view(files@))
                && keeps_regular_files(walks_view(walks@), strings_view(files@)),
            Err(k) => kept_paths(walks_view(walks@)) == Err::<Seq<Seq<char>>, int>(k as int)
                && first_unreadable_at(walks_view(walks@), k as int),
        },
{
    proof {
        law_every_regular_file_is_kept(walks_view(walks@));
    }
    let ghost ws = walks_view(walks@);
    let mut found: Vec<String> = Vec::new();
    let mut k: usize = 0;
    assert(ws.take(0) =~= Seq::<WalkView>::empty());
    while k < walks.len()
        invariant
            k <= walks.len(),
            ws == walks_view(walks@),
            first_unreadable(ws.take(k as int)) is None,
            strings_view(found@) == walks_files(ws.take(k as int)),
        decreases walks.len() - k,
    {
        let walk = &walks[k];
        let ghost w = ws[k as int];
        assert(w == walk_view(walk@));
        let ghost before = found@;
        let mut i: usize = 0;
        assert(w.take(0) =~= Seq::<Option<(Seq<char>, bool)>>::empty());
        while i < walk.len()
            invariant
                i <= walk.len(),
                k < walks.len(),
                ws == walks_view(walks@),
                walk == walks@[k as int],
                w == walk_view(walk@),
                first_unreadable(ws.take(k as int)) is None,
                forall|j: int| 0 <= j < i ==> !(#[trigger] w[j] is None),
                strings_view(found@) == walks_files(ws.take(k as int)) + walk_files(w.take(i as int)),
            decreases walk.len() - i,
        {
            assert(w.take(i + 1).drop_last() =~= w.take(i as int));
            match &walk[i] {
                None => {
                    proof {
                        assert(w[i as int] is None);
                        assert(has_unreadable(w));
                        assert(ws.take(k + 1).drop_last() =~= ws.take(k as int));
                        assert(ws.take(k + 1).last() == w);
                        lemma_first_unreadable_prefix(ws, k + 1);
                        law_every_regular_file_is_kept(ws);
                    }
                    return Err(k);
                },
                Some((path, is_file)) => {
                    if *is_file {
                        let ghost prev = found@;
                        found.push(path.clone());
                        assert(strings_view(found@) =~= strings_view(prev).push(path@));
                    }
                    assert(w[i as int] == Some((path@, *is_file)));
                },
            }
            assert(strings_view(found@) =~= walks_files(ws.take(k as int)) + walk_files(w.take(i + 1)));
            i = i + 1;
        }
        proof {
            assert(w.take(walk.len() as int) =~= w);
            assert(!has_unreadable(w));
            assert(ws.take(k + 1).drop_last() =~= ws.take(k as int));
            assert(ws.take(k + 1).last() == w);
        }
        k = k + 1;
    }
    assert(ws.take(walks.len() as int) =~= ws);
    Ok(sort_unique_paths(found.as_slice()))
}

/// Why a set of glob patterns could not be expanded.
pub enum GlobFailure {
    /// The pattern is malformed.
    InvalidPattern(String),
    /// A directory could not be read while the pattern was expanded.
    UnreadableEntry(String),
}

/// `ws` can be what expanding `patterns` walked: one walk for each pattern
/// that `glob` accepted, in turn, until a pattern is refused or a walk meets
/// an unreadable entry.
pub open spec fn walks_fit(patterns: Seq<Seq<char>>, ws: Seq<WalkView>) -> bool {
    &&& ws.len() <= patterns.len()
    &&& forall|m: int| 0 <= m < ws.len() ==> !glob_rejects(#[trigger] patterns[m])
    &&& ws.len() < patterns.len() && first_unreadable(ws) is None ==> glob_rejects(patterns[ws.len() as int])
    &&& forall|k: int| first_unreadable(ws) == Some(k) ==> k == ws.len() - 1
}

/// Expands glob patterns into the files that they match: only regular
/// files, sorted in the order of `Path`, each path once.  The patterns are
/// walked in turn; the first that is malformed, or whose walk meets an
/// unreadable entry, ends the expansion with an error naming it.  Which
/// paths a walk yields, and which are regular files, the file system
/// decides; `select_files` makes the choice from them.
pub fn expand_globs(patterns: &[String]) -> (r: Result<Vec<String>, GlobFailure>)
    ensures
        patterns@.len() == 0 ==> (r matches Ok(v) && v@.len() == 0),
        exists|ws: Seq<WalkView>| #[trigger] walks_fit(strings_view(patterns@), ws) && match r {
            Ok(files) => ws.len() == patterns@.len() && kept_paths(ws) == Ok::<Seq<Seq<char>>, int>(
                strings_view(files@),
            ) && keeps_regular_files(ws, strings_view(files@)),
            Err(GlobFailure::InvalidPattern(p)) => ws.len() < patterns@.len() && kept_paths(ws) is Ok
                && p@ == patterns@[ws.len() as int]@,
            Err(GlobFailure::UnreadableEntry(p)) => ws.len() > 0 && kept_paths(ws) == Err::<
                Seq<Seq<char>>,
                int,
            >(ws.len() - 1) && p@ == patterns@[ws.len() - 1]@,
        },
{
    let ghost pats = strings_view(patterns@);
    let mut walks: Vec<Vec<Option<(String, bool)>>> = Vec::new();
    let mut stopped = false;
    let mut k: usize = 0;
    while k < patterns.len() && !stopped
        invariant
            k <= patterns.len(),
            pats == strings_view(patterns@),
            walks@.len() == k,
            forall|m: int| 0 <= m < k ==> !glob_rejects(#[trigger] pats[m]),
            !stopped ==> first_unreadable(walks_view(walks@)) is None,
            stopped ==> k > 0 && first_unreadable(walks_view(walks@)) == Some(k - 1),
        decreases patterns.len() - k,
    {
        let entries = match glob_entries(patterns[k].as_str()) {
            Ok(entries) => entries,
            Err(_) => {
                assert(walks_fit(pats, walks_view(walks@)));
                return Err(GlobFailure::InvalidPattern(patterns[k].clone()));
            },
        };
        let mut regular: Vec<bool> = Vec::new();
        let mut unreadable_seen = false;
        let mut i: usize = 0;
        while i < entries.len()
            invariant
                i <= entries.len(),
                regular@.len() == i,
            decreases entries.len() - i,
        {
            let answer = match &entries[i] {
                Ok(path) => if unreadable_seen {
                    false
                } else {
                    path_is_file(path.as_str())
                },
                Err(_) => {
                    unreadable_seen = true;
                    false
                },
            };
            regular.push(answer);
            i = i + 1;
        }
        let walk = record_walk(entries.as_slice(), regular.as_slice());
        stopped = walk.len() > 0 && match &walk[walk.len() - 1] {
            None => true,
            Some(_) => false,
        };
        let ghost before = walks@;
        walks.push(walk);
        assert(walks_view(walks@).drop_last() =~= walks_view(before));
        k = k + 1;
    }
    let ghost ws = walks_view(walks@);
    assert(walks_fit(pats, ws));
    proof {
        law_every_regular_file_is_kept(ws);
    }
    proof {
        if patterns.len() == 0 {
            let none = Seq::<Seq<char>>::empty();
            assert(walks_files(ws) =~= none);
            assert(path_entries(none) =~= Seq::<(Seq<char>, Seq<PartView>)>::empty());
            assert(sorted_unique_paths(none) =~= none);
        }
    }
    match select_files(walks.as_slice()) {
        Ok(files) => Ok(files),
        Err(m) => Err(GlobFailure::UnreadableEntry(patterns[m].clone())),
    }
}


/// A walked entry that is a regular file.
pub open spec fn is_regular_entry(e: Option<(Seq<char>, bool)>) -> bool {
    match e {
        Some((_, regular)) => regular,
        None => false,
    }
}

/// The path of a walked entry (empty for an unreadable one).
pub open spec fn entry_path(e: Option<(Seq<char>, bool)>) -> Seq<char> {
    match e {
        Some((p, _)) => p,
        None => Seq::empty(),
    }
}

proof fn lemma_walk_files_member(w: WalkView, x: Seq<char>)
    ensures
        walk_files(w).contains(x) <==> exists|i: int| 0 <= i < w.len() && #[trigger] w[i] == Some((x, true)),
    decreases w.len(),
{
    if w.len() > 0 {
        let w1 = w.drop_last();
        lemma_walk_files_member(w1, x);
        let tail = match w.last() {
            Some((p, true)) => seq![p],
            _ => Seq::<Seq<char>>::empty(),
        };
        let f = walk_files(w);
        assert(f == walk_files(w1) + tail);
        if f.contains(x) {
            let m = choose|m: int| 0 <= m < f.len() && f[m] == x;
            if m < walk_files(w1).len() {
                assert(walk_files(w1)[m] == x);
                assert(walk_files(w1).contains(x));
                let i = choose|i: int| 0 <= i < w1.len() && #[trigger] w1[i] == Some((x, true));
                assert(w[i] == w1[i]);
            } else {
                assert(tail[m - walk_files(w1).len()] == x);
                assert(w[w.len() - 1] == Some((x, true)));
            }
        }
        if exists|i: int| 0 <= i < w.len() && #[trigger] w[i] == Some((x, true)) {
            let i = choose|i: int| 0 <= i < w.len() && #[trigger] w[i] == Some((x, true));
            if i < w.len() - 1 {
                assert(w1[i] == w[i]);
                let m = choose|m: int| 0 <= m < walk_files(w1).len() && walk_files(w1)[m] == x;
                assert(f[m] == x);
            } else {
                assert(f[f.len() - 1] == x);
            }
        }
    }
}

proof fn lemma_walks_files_member(ws: Seq<WalkView>, x: Seq<char>)
    ensures
        walks_files(ws).contains(x) <==> exists|k: int, i: int|
            0 <= k < ws.len() && 0 <= i < ws[k].len() && #[trigger] ws[k][i] == Some((x, true)),
    decreases ws.len(),
{
    if ws.len() > 0 {
        let ws1 = ws.drop_last();
        lemma_walks_files_member(ws1, x);
        lemma_walk_files_member(ws.last(), x);
        let a = walks_files(ws1);
        let b = walk_files(ws.last());
        let f = walks_files(ws);
        assert(f == a + b);
        if f.contains(x) {
            let m = choose|m: int| 0 <= m < f.len() && f[m] == x;
            if m < a.len() {
                assert(a[m] == x);
                assert(a.contains(x));
                let (k, i) = choose|k: int, i: int|
                    0 <= k < ws1.len() && 0 <= i < ws1[k].len() && #[trigger] ws1[k][i] == Some((x, true));
                assert(ws[k] == ws1[k]);
                assert(ws[k][i] == Some((x, true)));
            } else {
                assert(b[m - a.len()] == x);
                assert(b.contains(x));
                let i = choose|i: int| 0 <= i < ws.last().len() && #[trigger] ws.last()[i] == Some((x, true));
                assert(ws[ws.len() - 1][i] == Some((x, true)));
            }
        }
        if exists|k: int, i: int| 0 <= k < ws.len() && 0 <= i < ws[k].len() && #[trigger] ws[k][i] == Some((x, true)) {
            let (k, i) = choose|k: int, i: int|
                0 <= k < ws.len() && 0 <= i < ws[k].len() && #[trigger] ws[k][i] == Some((x, true));
            if k < ws.len() - 1 {
                assert(ws1[k] == ws[k]);
                assert(ws1[k][i] == Some((x, true)));
                let m = choose|m: int| 0 <= m < a.len() && a[m] == x;
                assert(f[m] == x);
            } else {
                assert(ws.last()[i] == Some((x, true)));
                let m = choose|m: int| 0 <= m < b.len() && b[m] == x;
                assert(f[a.len() + m] == x);
            }
        }
    }
}

proof fn lemma_first_unreadable_is_first(ws: Seq<WalkView>)
    ensures
        match first_unreadable(ws) {
            Some(k) => 0 <= k < ws.len() && has_unreadable(ws[k]) && forall|m: int|
                0 <= m < k ==> !has_unreadable(#[trigger] ws[m]),
            None => forall|m: int| 0 <= m < ws.len() ==> !has_unreadable(#[trigger] ws[m]),
        },
    decreases ws.len(),
{
    if ws.len() > 0 {
        let ws1 = ws.drop_last();
        lemma_first_unreadable_is_first(ws1);
        assert forall|m: int| 0 <= m < ws1.len() implies ws1[m] == ws[m] by {}
    }
}

proof fn lemma_kept_covers(ws: Seq<WalkView>, k: int, i: int)
    requires
        0 <= k < ws.len(),
        0 <= i < ws[k].len(),
        is_regular_entry(ws[k][i]),
    ensures
        exists|j: int|
            0 <= j < sorted_unique_paths(walks_files(ws)).len() && path_components(
                #[trigger] sorted_unique_paths(walks_files(ws))[j],
            ) == path_components(entry_path(ws[k][i])),
{
    let files = walks_files(ws);
    let p = entry_path(ws[k][i]);
    assert(ws[k][i] == Some((p, true)));
    lemma_walks_files_member(ws, p);
    assert(files.contains(p));
    let m = choose|m: int| 0 <= m < files.len() && files[m] == p;
    law_sorted_unique_paths(files);
    let v = sorted_unique_paths(files);
    assert(exists|j: int| 0 <= j < v.len() && path_components(#[trigger] v[j]) == path_components(#[trigger] files[m]));
}

proof fn lemma_kept_walked(ws: Seq<WalkView>, j: int)
    requires
        0 <= j < sorted_unique_paths(walks_files(ws)).len(),
    ensures
        exists|k: int, i: int|
            0 <= k < ws.len() && 0 <= i < ws[k].len() && #[trigger] ws[k][i] == Some(
                (sorted_unique_paths(walks_files(ws))[j], true),
            ),
{
    let files = walks_files(ws);
    law_sorted_unique_paths(files);
    let v = sorted_unique_paths(files);
    assert(files.contains(v[j]));
    lemma_walks_files_member(ws, v[j]);
}

/// `v` holds every regular file that a walk of `ws` yielded (a path with
/// the same components stands for it), only regular files that were
/// walked, and its paths in strictly increasing order.
pub open spec fn keeps_regular_files(ws: Seq<WalkView>, v: Seq<Seq<char>>) -> bool {
    &&& forall|k: int, i: int|
        0 <= k < ws.len() && 0 <= i < ws[k].len() && is_regular_entry(#[trigger] ws[k][i]) ==> exists|j: int|
            0 <= j < v.len() && path_components(#[trigger] v[j]) == path_components(entry_path(ws[k][i]))
    &&& forall|j: int|
        0 <= j < v.len() ==> exists|k: int, i: int|
            0 <= k < ws.len() && 0 <= i < ws[k].len() && #[trigger] ws[k][i] == Some((#[trigger] v[j], true))
    &&& forall|i: int, j: int|
        0 <= i < j < v.len() ==> path_lt(path_components(#[trigger] v[i]), path_components(#[trigger] v[j]))
}

/// The `k`-th walk is the first that met an unreadable entry.
pub open spec fn first_unreadable_at(ws: Seq<WalkView>, k: int) -> bool {
    0 <= k < ws.len() && has_unreadable(ws[k]) && forall|m: int| 0 <= m < k ==> !has_unreadable(#[trigger] ws[m])
}

/// What the walks give: when no walk met an unreadable entry, every regular
/// file that a walk yielded is in the result, the result holds only
/// regular files that were walked, and its paths are in strictly increasing
/// order; otherwise the first walk that met an unreadable entry is named.
pub proof fn law_every_regular_file_is_kept(ws: Seq<WalkView>)
    ensures
        match kept_paths(ws) {
            Ok(v) => keeps_regular_files(ws, v),
            Err(k) => first_unreadable_at(ws, k),
        },
{
    lemma_first_unreadable_is_first(ws);
    if first_unreadable(ws) is Some {
        let k = first_unreadable(ws)->0;
        assert(kept_paths(ws) == Err::<Seq<Seq<char>>, int>(k));
        assert(first_unreadable_at(ws, k));
    } else {
        let v = sorted_unique_paths(walks_files(ws));
        assert(kept_paths(ws) == Ok::<Seq<Seq<char>>, int>(v));
        assert forall|k: int, i: int|
            0 <= k < ws.len() && 0 <= i < ws[k].len() && is_regular_entry(#[trigger] ws[k][i]) implies exists|j: int|
            0 <= j < v.len() && path_components(#[trigger] v[j]) == path_components(entry_path(ws[k][i])) by {
            lemma_kept_covers(ws, k, i);
        }
        assert forall|j: int| 0 <= j < v.len() implies exists|k: int, i: int|
            0 <= k < ws.len() && 0 <= i < ws[k].len() && #[trigger] ws[k][i] == Some((#[trigger] v[j], true)) by {
            lemma_kept_walked(ws, j);
        }
        assert forall|i: int, j: int| 0 <= i < j < v.len() implies path_lt(
            path_components(#[trigger] v[i]),
            path_components(#[trigger] v[j]),
        ) by {
            law_sorted_unique_paths(walks_files(ws));
        }
        assert(keeps_regular_files(ws, v));
    }
}

} // verus!
