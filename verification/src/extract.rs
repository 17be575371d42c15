//! The planning half of the source archive extractor: path filtering under
//! an exclude/include glob policy, the path-traversal safety check, the
//! single-top-level-directory layout check, the archive-wide modification
//! time, and the manifest canonicalization decision. The plan is computed
//! in full before anything is written to disk; the caller performs the
//! unpacking it prescribes.

use vstd::prelude::*;
use crate::errors::Error;

verus! {

/// Whether a glob pattern text compiles; a function of the bytes alone.
pub uninterp spec fn glob_ok(pat: Seq<u8>) -> bool;

/// Whether a compiled glob pattern matches a path; a function of the
/// pattern text and the path text alone.
pub uninterp spec fn glob_matched(pat: Seq<u8>, path: Seq<u8>) -> bool;

/// Relies on glob::Pattern::new: compiling a pattern is deterministic in
/// the pattern text.
#[verifier::external_body]
fn glob_compiles(pat: &Vec<u8>) -> (r: bool)
    ensures
        r == glob_ok(pat@),
{
    glob::Pattern::new(&String::from_utf8_lossy(pat)).is_ok()
}

/// Relies on glob::Pattern::matches: a pure function of the pattern text
/// and the path text. A pattern that does not compile matches nothing.
#[verifier::external_body]
fn glob_match(pat: &Vec<u8>, path: &Vec<u8>) -> (r: bool)
    ensures
        glob_ok(pat@) ==> r == glob_matched(pat@, path@),
        !glob_ok(pat@) ==> r == false,
{
    match glob::Pattern::new(&String::from_utf8_lossy(pat)) {
        Ok(p) => p.matches(&String::from_utf8_lossy(path)),
        Err(_) => false,
    }
}

/// One archive entry's metadata, as enumerated from the stream.
pub struct EntryMeta {
    pub path: Vec<u8>,
    pub is_dir: bool,
    pub mtime: u64,
}

#[verifier::ext_equal]
pub struct EntryMetaView {
    pub path: Seq<u8>,
    pub is_dir: bool,
    pub mtime: u64,
}

impl View for EntryMeta {
    type V = EntryMetaView;

    open spec fn view(&self) -> EntryMetaView {
        EntryMetaView { path: self.path@, is_dir: self.is_dir, mtime: self.mtime }
    }
}

impl DeepView for EntryMeta {
    type V = EntryMetaView;

    open spec fn deep_view(&self) -> EntryMetaView {
        self.view()
    }
}

/// A pattern as it is matched: anchored below the top directory.
pub open spec fn star_slash(p: Seq<u8>) -> Seq<u8> {
    seq![42u8, 47u8] + p
}

/// The filtering policy: exclude globs and an include (whitelist) globs,
/// each already prefixed for matching anywhere below the top directory.
pub struct Policy {
    pub excludes: Vec<Vec<u8>>,
    pub includes: Vec<Vec<u8>>,
}

impl Policy {
    /// Every stored pattern compiles.
    pub open spec fn wf(&self) -> bool {
        (forall|i: int|
            0 <= i < self.excludes.deep_view().len() ==> glob_ok(
                #[trigger] self.excludes.deep_view()[i],
            )) && (forall|i: int|
            0 <= i < self.includes.deep_view().len() ==> glob_ok(
                #[trigger] self.includes.deep_view()[i],
            ))
    }

    /// Builds the policy, prefixing each pattern so it matches at any
    /// depth under the archive's top directory; `None` exactly when some
    /// resulting pattern is not a valid glob.
    pub fn new(excludes: &Vec<Vec<u8>>, includes: &Vec<Vec<u8>>) -> (r: Option<Policy>)
        ensures
            (r is Some) == ((forall|i: int|
                0 <= i < excludes.deep_view().len() ==> glob_ok(
                    star_slash(#[trigger] excludes.deep_view()[i]),
                )) && (forall|i: int|
                0 <= i < includes.deep_view().len() ==> glob_ok(
                    star_slash(#[trigger] includes.deep_view()[i]),
                ))),
            r matches Some(p) ==> p.wf() && p.excludes.deep_view().len()
                == excludes.deep_view().len() && p.includes.deep_view().len()
                == includes.deep_view().len() && (forall|i: int|
                0 <= i < excludes.deep_view().len() ==> #[trigger] p.excludes.deep_view()[i]
                    == star_slash(excludes.deep_view()[i])) && (forall|i: int|
                0 <= i < includes.deep_view().len() ==> #[trigger] p.includes.deep_view()[i]
                    == star_slash(includes.deep_view()[i])),
    {
        let ex = match compile_all(excludes) {
            Some(v) => v,
            None => {
                return None;
            },
        };
        let inc = match compile_all(includes) {
            Some(v) => v,
            None => {
                return None;
            },
        };
        Some(Policy { excludes: ex, includes: inc })
    }
}

/// Prefixes each pattern with `*/` and checks that it compiles.
fn compile_all(pats: &Vec<Vec<u8>>) -> (r: Option<Vec<Vec<u8>>>)
    ensures
        (r is Some) == (forall|i: int|
            0 <= i < pats.deep_view().len() ==> glob_ok(
                star_slash(#[trigger] pats.deep_view()[i]),
            )),
        r matches Some(v) ==> v.deep_view().len() == pats.deep_view().len() && (forall|i: int|
            0 <= i < pats.deep_view().len() ==> #[trigger] v.deep_view()[i] == star_slash(
                pats.deep_view()[i],
            )),
        r matches Some(v) ==> forall|i: int|
            0 <= i < v.deep_view().len() ==> glob_ok(#[trigger] v.deep_view()[i]),
{
    let mut out: Vec<Vec<u8>> = Vec::new();
    let mut i: usize = 0;
    while i < pats.len()
        invariant
            i <= pats.len(),
            out.deep_view().len() == i,
            forall|q: int|
                0 <= q < i ==> #[trigger] out.deep_view()[q] == star_slash(pats.deep_view()[q]),
            forall|q: int|
                0 <= q < out.deep_view().len() ==> glob_ok(#[trigger] out.deep_view()[q]),
        decreases pats.len() - i,
    {
        let mut p: Vec<u8> = Vec::new();
        p.push(42);
        p.push(47);
        let mut j: usize = 0;
        while j < pats[i].len()
            invariant
                j <= pats@[i as int].len(),
                i < pats.len(),
                p@ == star_slash(pats.deep_view()[i as int].take(j as int)),
            decreases pats@[i as int].len() - j,
        {
            proof {
                assert(pats.deep_view()[i as int] == pats@[i as int]@);
                assert(star_slash(pats.deep_view()[i as int].take(j + 1 as int)) =~= star_slash(
                    pats.deep_view()[i as int].take(j as int),
                ).push(pats.deep_view()[i as int][j as int]));
            }
            p.push(pats[i][j]);
            j += 1;
        }
        proof {
            assert(pats.deep_view()[i as int].take(pats@[i as int].len() as int)
                =~= pats.deep_view()[i as int]);
        }
        if !glob_compiles(&p) {
            proof {
                assert(!glob_ok(star_slash(pats.deep_view()[i as int])));
            }
            return None;
        }
        let ghost prev = out.deep_view();
        let ghost pv = p@;
        out.push(p);
        proof {
            assert(out.deep_view() =~~= prev.push(pv));
        }
        i += 1;
    }
    proof {
        assert forall|q: int| 0 <= q < pats.deep_view().len() implies glob_ok(
            star_slash(#[trigger] pats.deep_view()[q]),
        ) by {
            assert(out.deep_view()[q] == star_slash(pats.deep_view()[q]));
            assert(glob_ok(out.deep_view()[q]));
        }
    }
    Some(out)
}

/// Some pattern of the list matches the path.
pub open spec fn any_match(pats: Seq<Seq<u8>>, path: Seq<u8>) -> bool {
    exists|i: int| 0 <= i < pats.len() && glob_matched(#[trigger] pats[i], path)
}

fn any_match_exec(pats: &Vec<Vec<u8>>, path: &Vec<u8>) -> (r: bool)
    requires
        forall|i: int| 0 <= i < pats.deep_view().len() ==> glob_ok(#[trigger] pats.deep_view()[i]),
    ensures
        r == any_match(pats.deep_view(), path@),
{
    let mut i: usize = 0;
    while i < pats.len()
        invariant
            i <= pats.len(),
            forall|q: int|
                0 <= q < pats.deep_view().len() ==> glob_ok(#[trigger] pats.deep_view()[q]),
            forall|q: int| 0 <= q < i ==> !glob_matched(#[trigger] pats.deep_view()[q], path@),
        decreases pats.len() - i,
    {
        proof {
            assert(pats.deep_view()[i as int] == pats@[i as int]@);
        }
        if glob_match(&pats[i], path) {
            return true;
        }
        i += 1;
    }
    false
}

/// A parent-directory component starts at position `i` of the path.
pub open spec fn dotdot_at(p: Seq<u8>, i: int) -> bool {
    0 <= i && i + 2 <= p.len() && p[i] == 46 && p[i + 1] == 46 && (i == 0 || p[i - 1] == 47) && (i
        + 2 == p.len() || p[i + 2] == 47)
}

/// A path stays inside the staging root: non-empty, relative, and without
/// any parent-directory component.
pub open spec fn path_is_safe(p: Seq<u8>) -> bool {
    p.len() > 0 && p[0] != 47 && !(exists|i: int| dotdot_at(p, i))
}

fn path_safe(p: &Vec<u8>) -> (r: bool)
    ensures
        r == path_is_safe(p@),
{
    if p.len() == 0 {
        return false;
    }
    if p[0] == 47 {
        return false;
    }
    let mut i: usize = 0;
    while i < p.len()
        invariant
            i <= p.len(),
            forall|q: int| 0 <= q < i ==> !dotdot_at(p@, q),
        decreases p.len() - i,
    {
        if p.len() - i >= 2 && p[i] == 46 && p[i + 1] == 46 && (i == 0 || p[i - 1] == 47) && (
        p.len() - i == 2 || p[i + 2] == 47) {
            proof {
                assert(dotdot_at(p@, i as int));
            }
            return false;
        }
        i += 1;
    }
    proof {
        if exists|q: int| dotdot_at(p@, q) {
            let q = choose|q: int| dotdot_at(p@, q);
            assert(0 <= q < p@.len());
        }
    }
    true
}

/// A path of a compiled object or archive-library file: its extension is
/// `c` or `a`.
pub open spec fn is_suspicious(p: Seq<u8>) -> bool {
    p.len() >= 3 && p[p.len() - 2] == 46 && (p[p.len() - 1] == 99 || p[p.len() - 1] == 97) && p[p.len()
        - 3] != 47
}

fn suspicious_exec(p: &Vec<u8>) -> (r: bool)
    ensures
        r == is_suspicious(p@),
{
    p.len() >= 3 && p[p.len() - 2] == 46 && (p[p.len() - 1] == 99 || p[p.len() - 1] == 97) && p[p.len()
        - 3] != 47
}

/// How path filtering treats one entry.
#[derive(PartialEq, Eq, Structural)]
pub enum PathVerdict {
    /// Matches an exclude pattern: skipped, the tree counts as modified.
    Excluded,
    /// An ordinary entry: unpacked.
    Allowed,
    /// Suspicious but on the include whitelist: unpacked with a warning.
    Whitelisted,
    /// Suspicious and not whitelisted: recorded, fatal after the scan.
    Offending,
}

/// The verdict of the policy on one path.
pub open spec fn verdict_of(excludes: Seq<Seq<u8>>, includes: Seq<Seq<u8>>, path: Seq<u8>) -> PathVerdict {
    if any_match(excludes, path) {
        PathVerdict::Excluded
    } else if !is_suspicious(path) {
        PathVerdict::Allowed
    } else if any_match(includes, path) {
        PathVerdict::Whitelisted
    } else {
        PathVerdict::Offending
    }
}

impl Policy {
    /// Classifies one path.
    pub fn classify(&self, path: &Vec<u8>) -> (v: PathVerdict)
        requires
            self.wf(),
        ensures
            v == verdict_of(self.excludes.deep_view(), self.includes.deep_view(), path@),
    {
        if any_match_exec(&self.excludes, path) {
            PathVerdict::Excluded
        } else if !suspicious_exec(path) {
            PathVerdict::Allowed
        } else if any_match_exec(&self.includes, path) {
            PathVerdict::Whitelisted
        } else {
            PathVerdict::Offending
        }
    }
}

/// Whether an entry with this verdict is unpacked.
pub open spec fn keeps(v: PathVerdict) -> bool {
    v is Allowed || v is Whitelisted
}

/// The indices of the entries among the first `k` that are unpacked, in
/// order.
pub open spec fn kept_indices(
    ex: Seq<Seq<u8>>,
    inc: Seq<Seq<u8>>,
    es: Seq<EntryMetaView>,
    k: int,
) -> Seq<int>
    decreases k,
{
    if k <= 0 {
        Seq::empty()
    } else {
        let rest = kept_indices(ex, inc, es, k - 1);
        if keeps(verdict_of(ex, inc, es[k - 1].path)) {
            rest.push(k - 1)
        } else {
            rest
        }
    }
}

/// The whitelisted suspicious paths among the first `k` entries, in order.
pub open spec fn warn_paths(
    ex: Seq<Seq<u8>>,
    inc: Seq<Seq<u8>>,
    es: Seq<EntryMetaView>,
    k: int,
) -> Seq<Seq<u8>>
    decreases k,
{
    if k <= 0 {
        Seq::empty()
    } else {
        let rest = warn_paths(ex, inc, es, k - 1);
        if verdict_of(ex, inc, es[k - 1].path) is Whitelisted {
            rest.push(es[k - 1].path)
        } else {
            rest
        }
    }
}

/// The offending (suspicious, not whitelisted) paths among the first `k`
/// entries, in order.
pub open spec fn offending_paths(
    ex: Seq<Seq<u8>>,
    inc: Seq<Seq<u8>>,
    es: Seq<EntryMetaView>,
    k: int,
) -> Seq<Seq<u8>>
    decreases k,
{
    if k <= 0 {
        Seq::empty()
    } else {
        let rest = offending_paths(ex, inc, es, k - 1);
        if verdict_of(ex, inc, es[k - 1].path) is Offending {
            rest.push(es[k - 1].path)
        } else {
            rest
        }
    }
}

/// Some entry among the first `k` matches an exclude pattern.
pub open spec fn any_excluded(
    ex: Seq<Seq<u8>>,
    inc: Seq<Seq<u8>>,
    es: Seq<EntryMetaView>,
    k: int,
) -> bool {
    exists|i: int| 0 <= i < k && verdict_of(ex, inc, #[trigger] es[i].path) is Excluded
}

/// The greatest modification time among the listed entries (zero when the
/// list is empty).
pub open spec fn mtime_max(es: Seq<EntryMetaView>, ks: Seq<int>) -> u64
    decreases ks.len(),
{
    if ks.len() == 0 {
        0u64
    } else {
        let m = mtime_max(es, ks.drop_last());
        if es[ks.last()].mtime > m {
            es[ks.last()].mtime
        } else {
            m
        }
    }
}

/// Some unpacked entry's path would escape the staging root.
pub open spec fn some_kept_unsafe(
    ex: Seq<Seq<u8>>,
    inc: Seq<Seq<u8>>,
    es: Seq<EntryMetaView>,
) -> bool {
    exists|i: int|
        0 <= i < es.len() && keeps(verdict_of(ex, inc, #[trigger] es[i].path)) && !path_is_safe(
            es[i].path,
        )
}

/// The position of the first path separator, scanning from `i`.
pub open spec fn first_sep_from(p: Seq<u8>, i: int) -> int
    decreases p.len() - i,
{
    if i < 0 {
        0
    } else if i >= p.len() {
        p.len() as int
    } else if p[i] == 47 {
        i
    } else {
        first_sep_from(p, i + 1)
    }
}

/// The first path component: everything before the first separator.
pub open spec fn first_comp(p: Seq<u8>) -> Seq<u8> {
    p.take(first_sep_from(p, 0))
}

/// The unpacked entries form exactly one top-level directory: every path
/// starts with the same first component, and an entry that IS that
/// component is a directory.
pub open spec fn layout_ok(es: Seq<EntryMetaView>, ks: Seq<int>) -> bool {
    ks.len() > 0 && (forall|x: int|
        0 <= x < ks.len() ==> first_comp(es[#[trigger] ks[x]].path) == first_comp(es[ks[0]].path))
        && (forall|x: int|
        0 <= x < ks.len() && es[#[trigger] ks[x]].path.len() == first_comp(es[ks[0]].path).len()
            ==> es[ks[x]].is_dir)
}

/// The first path component, copied.
fn first_comp_exec(p: &Vec<u8>) -> (r: Vec<u8>)
    ensures
        r@ == first_comp(p@),
{
    let mut i: usize = 0;
    while i < p.len() && p[i] != 47
        invariant
            i <= p.len(),
            first_sep_from(p@, 0) == first_sep_from(p@, i as int),
        decreases p.len() - i,
    {
        i += 1;
    }
    proof {
        assert(first_sep_from(p@, 0) == i as int);
    }
    let mut r: Vec<u8> = Vec::new();
    let mut j: usize = 0;
    while j < i
        invariant
            j <= i,
            i <= p.len(),
            r@ == p@.take(i as int).take(j as int),
        decreases i - j,
    {
        r.push(p[j]);
        proof {
            assert(p@.take(i as int).take(j + 1 as int) =~= p@.take(i as int).take(j as int).push(
                p@[j as int],
            ));
        }
        j += 1;
    }
    proof {
        assert(p@.take(i as int).take(i as int) =~= p@.take(i as int));
    }
    r
}

/// Everything the extractor must do, decided before any write: which
/// entries to unpack, the warnings to log, the single top-level directory,
/// the archive-wide modification time, and whether the produced tree
/// already differs from the pristine archive.
pub struct ExtractionPlan {
    pub unpack: Vec<usize>,
    pub warnings: Vec<Vec<u8>>,
    pub root: Vec<u8>,
    pub last_mtime: u64,
    pub source_modified: bool,
}

impl Policy {
    /// Scans the whole archive entry list and plans the extraction.
    /// An entry whose path would escape the staging root is fatal at once;
    /// offending file types are gathered over the entire archive and
    /// reported together afterwards; then the unpacked entries must form
    /// exactly one top-level directory.
    pub fn plan_extraction(&self, entries: &Vec<EntryMeta>) -> (r: Result<ExtractionPlan, Error>)
        requires
            self.wf(),
        ensures
            ({
                let ex = self.excludes.deep_view();
                let inc = self.includes.deep_view();
                let es = entries.deep_view();
                let n = es.len() as int;
                let ks = kept_indices(ex, inc, es, n);
                &&& ((r is Err && r->Err_0 is PathTraversal) <==> some_kept_unsafe(ex, inc, es))
                &&& ((r is Err && r->Err_0 is PathTraversal) ==> (r->Err_0 matches Error::PathTraversal(
                    p,
                ) && exists|i: int|
                    0 <= i < n && #[trigger] es[i].path == p@ && keeps(verdict_of(ex, inc, es[i].path))
                        && !path_is_safe(es[i].path)))
                &&& ((r is Err && r->Err_0 is SuspiciousContent) <==> (!some_kept_unsafe(ex, inc, es)
                    && offending_paths(ex, inc, es, n).len() > 0))
                &&& ((r is Err && r->Err_0 is SuspiciousContent) ==> (r->Err_0 matches Error::SuspiciousContent(
                    l,
                ) && l.deep_view() == offending_paths(ex, inc, es, n)))
                &&& ((r is Err && r->Err_0 is MalformedArchiveLayout) <==> (!some_kept_unsafe(
                    ex,
                    inc,
                    es,
                ) && offending_paths(ex, inc, es, n).len() == 0 && !layout_ok(es, ks)))
                &&& (r is Ok <==> (!some_kept_unsafe(ex, inc, es) && offending_paths(ex, inc, es, n).len()
                    == 0 && layout_ok(es, ks)))
                &&& (r matches Ok(plan) ==> {
                    &&& plan.unpack@.len() == ks.len()
                    &&& (forall|x: int| 0 <= x < ks.len() ==> #[trigger] plan.unpack@[x] as int == ks[x])
                    &&& plan.warnings.deep_view() == warn_paths(ex, inc, es, n)
                    &&& plan.root@ == first_comp(es[ks[0]].path)
                    &&& plan.last_mtime == mtime_max(es, ks)
                    &&& plan.source_modified == any_excluded(ex, inc, es, n)
                })
            }),
    {
        let ghost ex = self.excludes.deep_view();
        let ghost inc = self.includes.deep_view();
        let ghost es = entries.deep_view();
        let n = entries.len();
        let mut unpack: Vec<usize> = Vec::new();
        let mut warnings: Vec<Vec<u8>> = Vec::new();
        let mut offending: Vec<Vec<u8>> = Vec::new();
        let mut modified = false;
        let mut last_mtime: u64 = 0;
        let mut i: usize = 0;
        while i < n
            invariant
                self.wf(),
                ex == self.excludes.deep_view(),
                inc == self.includes.deep_view(),
                es == entries.deep_view(),
                n == entries.len(),
                i <= n,
                unpack@.len() == kept_indices(ex, inc, es, i as int).len(),
                forall|x: int|
                    0 <= x < unpack@.len() ==> #[trigger] unpack@[x] as int == kept_indices(
                        ex,
                        inc,
                        es,
                        i as int,
                    )[x] && unpack@[x] < n,
                warnings.deep_view() == warn_paths(ex, inc, es, i as int),
                offending.deep_view() == offending_paths(ex, inc, es, i as int),
                modified == any_excluded(ex, inc, es, i as int),
                last_mtime == mtime_max(es, kept_indices(ex, inc, es, i as int)),
                forall|q: int|
                    0 <= q < i && keeps(verdict_of(ex, inc, #[trigger] es[q].path)) ==> path_is_safe(
                        es[q].path,
                    ),
            decreases n - i,
        {
            proof {
                assert(es[i as int] == entries@[i as int].deep_view());
            }
            let v = self.classify(&entries[i].path);
            let ghost ks_pre = kept_indices(ex, inc, es, i as int);
            if v == PathVerdict::Excluded {
                modified = true;
            } else if v == PathVerdict::Offending {
                let ghost prev = offending.deep_view();
                offending.push(crate::bytes::dup_bytes(&entries[i].path));
                proof {
                    assert(offending.deep_view() =~~= prev.push(es[i as int].path));
                }
            } else {
                if !path_safe(&entries[i].path) {
                    proof {
                        assert(keeps(verdict_of(ex, inc, es[i as int].path)));
                    }
                    return Err(Error::PathTraversal(crate::bytes::dup_bytes(&entries[i].path)));
                }
                if v == PathVerdict::Whitelisted {
                    let ghost prev = warnings.deep_view();
                    warnings.push(crate::bytes::dup_bytes(&entries[i].path));
                    proof {
                        assert(warnings.deep_view() =~~= prev.push(es[i as int].path));
                    }
                }
                if entries[i].mtime > last_mtime {
                    last_mtime = entries[i].mtime;
                }
                unpack.push(i);
                proof {
                    assert(kept_indices(ex, inc, es, i + 1 as int) =~= ks_pre.push(i as int));
                }
            }
            proof {
                let ks_next = kept_indices(ex, inc, es, i + 1 as int);
                if keeps(verdict_of(ex, inc, es[i as int].path)) {
                    assert(ks_next =~= ks_pre.push(i as int));
                    assert(ks_next.drop_last() =~= ks_pre);
                    assert(ks_next.last() == i as int);
                } else {
                    assert(ks_next =~= ks_pre);
                }
                assert(kept_indices(ex, inc, es, i + 1 as int).len() == unpack@.len());
                assert(warn_paths(ex, inc, es, i + 1 as int) =~= warnings.deep_view());
                assert(offending_paths(ex, inc, es, i + 1 as int) =~= offending.deep_view());
                assert(any_excluded(ex, inc, es, i + 1 as int) == modified) by {
                    if any_excluded(ex, inc, es, i + 1 as int) && !modified {
                        let q = choose|q: int|
                            0 <= q < i + 1 && verdict_of(ex, inc, #[trigger] es[q].path) is Excluded;
                        assert(q == i);
                    }
                }
                assert(last_mtime == mtime_max(es, kept_indices(ex, inc, es, i + 1 as int)));
            }
            i += 1;
        }
        proof {
            assert(!some_kept_unsafe(ex, inc, es)) by {
                if some_kept_unsafe(ex, inc, es) {
                    let q = choose|q: int|
                        0 <= q < es.len() && keeps(verdict_of(ex, inc, #[trigger] es[q].path))
                            && !path_is_safe(es[q].path);
                    assert(path_is_safe(es[q].path));
                }
            }
        }
        if offending.len() > 0 {
            return Err(Error::SuspiciousContent(offending));
        }
        let ghost ks = kept_indices(ex, inc, es, n as int);
        if unpack.len() == 0 {
            proof {
                assert(ks.len() == 0);
                assert(!layout_ok(es, ks));
            }
            return Err(Error::MalformedArchiveLayout);
        }
        let u0 = unpack[0];
        let root = first_comp_exec(&entries[u0].path);
        proof {
            assert(es[u0 as int] == entries@[u0 as int].deep_view());
            assert(unpack@[0] as int == ks[0]);
        }
        let mut x: usize = 0;
        while x < unpack.len()
            invariant
                ex == self.excludes.deep_view(),
                inc == self.includes.deep_view(),
                !some_kept_unsafe(ex, inc, es),
                offending_paths(ex, inc, es, n as int).len() == 0,
                es == entries.deep_view(),
                n == entries.len(),
                unpack@.len() == ks.len(),
                ks == kept_indices(ex, inc, es, n as int),
                forall|q: int|
                    0 <= q < unpack@.len() ==> #[trigger] unpack@[q] as int == ks[q] && unpack@[q]
                        < n,
                x <= unpack.len(),
                root@ == first_comp(es[ks[0]].path),
                forall|q: int|
                    0 <= q < x ==> first_comp(es[#[trigger] ks[q]].path) == first_comp(
                        es[ks[0]].path,
                    ),
                forall|q: int|
                    0 <= q < x && es[#[trigger] ks[q]].path.len() == first_comp(
                        es[ks[0]].path,
                    ).len() ==> es[ks[q]].is_dir,
            decreases unpack.len() - x,
        {
            let ux = unpack[x];
            proof {
                assert(es[ux as int] == entries@[ux as int].deep_view());
            }
            let cx = first_comp_exec(&entries[ux].path);
            if !crate::bytes::bytes_eq(&cx, &root) {
                proof {
                    assert(ux as int == ks[x as int]);
                    assert(first_comp(es[ks[x as int]].path) != first_comp(es[ks[0]].path));
                    assert(!layout_ok(es, ks));
                }
                return Err(Error::MalformedArchiveLayout);
            }
            if entries[ux].path.len() == root.len() && !entries[ux].is_dir {
                proof {
                    assert(ux as int == ks[x as int]);
                    assert(es[ks[x as int]].path.len() == first_comp(es[ks[0]].path).len());
                    assert(!es[ks[x as int]].is_dir);
                    assert(!layout_ok(es, ks));
                }
                return Err(Error::MalformedArchiveLayout);
            }
            x += 1;
        }
        proof {
            assert(layout_ok(es, ks));
        }
        Ok(
            ExtractionPlan {
                unpack,
                warnings,
                root,
                last_mtime,
                source_modified: modified,
            },
        )
    }
}

/// The canonical-manifest decision: the manifest is rewritten exactly when
/// the text found on disk differs from the canonically derived text, and
/// the tree then counts as modified.
pub fn plan_manifest(actual: &Vec<u8>, canonical: &Vec<u8>, modified_so_far: bool) -> (r: (
    bool,
    bool,
))
    ensures
        r.0 == (actual@ != canonical@),
        r.1 == (modified_so_far || actual@ != canonical@),
{
    let differs = !crate::bytes::bytes_eq(actual, canonical);
    (differs, modified_so_far || differs)
}

} // verus!
