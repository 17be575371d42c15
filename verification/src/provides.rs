//! Provides synthesis: collapsing features that are pure aliases of one
//! another into a map of provides-equivalences, so the downstream
//! relationship model does not declare the same thing twice.

use vstd::prelude::*;
use crate::bytes::{empty_name, default_name};
use crate::table::{EntryView, FeatureEntry, FeatureTable, table_find, table_has, table_wf,
    lemma_table_find_at, lemma_has_at};
use crate::errors::Error;

verus! {

/// Lexicographic byte order, compared from position `i` on.
pub open spec fn lex_le_at(a: Seq<u8>, b: Seq<u8>, i: int) -> bool
    decreases a.len() - i,
{
    if i >= a.len() {
        true
    } else if i >= b.len() {
        false
    } else if a[i] < b[i] {
        true
    } else if a[i] > b[i] {
        false
    } else {
        lex_le_at(a, b, i + 1)
    }
}

/// Lexicographic byte order on names.
pub open spec fn lex_le(a: Seq<u8>, b: Seq<u8>) -> bool {
    lex_le_at(a, b, 0)
}

/// The order is total.
pub proof fn lemma_lex_total_at(a: Seq<u8>, b: Seq<u8>, i: int)
    requires
        0 <= i,
    ensures
        lex_le_at(a, b, i) || lex_le_at(b, a, i),
    decreases a.len() - i,
{
    if i < a.len() && i < b.len() && a[i] == b[i] {
        lemma_lex_total_at(a, b, i + 1);
    }
}

/// The order is transitive.
pub proof fn lemma_lex_trans_at(a: Seq<u8>, b: Seq<u8>, c: Seq<u8>, i: int)
    requires
        0 <= i,
        lex_le_at(a, b, i),
        lex_le_at(b, c, i),
    ensures
        lex_le_at(a, c, i),
    decreases a.len() - i,
{
    if i < a.len() {
        if i < b.len() && i < c.len() && a[i] == b[i] && b[i] == c[i] {
            lemma_lex_trans_at(a, b, c, i + 1);
        }
    }
}

/// Lexicographic comparison, executable.
fn lex_le_exec(a: &Vec<u8>, b: &Vec<u8>) -> (r: bool)
    ensures
        r == lex_le(a@, b@),
{
    let mut i: usize = 0;
    loop
        invariant
            0 <= i,
            i <= a.len(),
            i <= b.len(),
            lex_le(a@, b@) == lex_le_at(a@, b@, i as int),
        decreases a.len() - i,
    {
        if i >= a.len() {
            return true;
        }
        if i >= b.len() {
            return false;
        }
        if a[i] < b[i] {
            return true;
        }
        if a[i] > b[i] {
            return false;
        }
        i += 1;
    }
}

/// A list of names in nondecreasing lexicographic order.
pub open spec fn sorted_lex(s: Seq<Seq<u8>>) -> bool {
    forall|i: int, j: int| 0 <= i < j < s.len() ==> lex_le(s[i], s[j])
}

/// Sorts names lexicographically; the result holds the same names.
fn sort_names(v: Vec<Vec<u8>>) -> (r: Vec<Vec<u8>>)
    ensures
        sorted_lex(r.deep_view()),
        r.deep_view().to_multiset() == v.deep_view().to_multiset(),
{
    let mut r: Vec<Vec<u8>> = Vec::new();
    let mut i: usize = 0;
    proof {
        assert(r.deep_view() =~= v.deep_view().take(0));
    }
    while i < v.len()
        invariant
            i <= v.len(),
            sorted_lex(r.deep_view()),
            r.deep_view().to_multiset() == v.deep_view().take(i as int).to_multiset(),
        decreases v.len() - i,
    {
        let x = crate::bytes::dup_bytes(&v[i]);
        let ghost xv = x@;
        let ghost rv = r.deep_view();
        let mut p: usize = 0;
        let mut stop = false;
        while !stop && p < r.len()
            invariant
                p <= r.len(),
                rv == r.deep_view(),
                xv == x@,
                forall|q: int| 0 <= q < p ==> lex_le(#[trigger] rv[q], xv),
                stop ==> p < r.len() && !lex_le(rv[p as int], xv),
            decreases r.len() - p, 1int - (if stop { 1int } else { 0int }),
        {
            proof {
                assert(r.deep_view()[p as int] == r@[p as int]@);
            }
            if !lex_le_exec(&r[p], &x) {
                stop = true;
            } else {
                p += 1;
            }
        }
        r.insert(p, x);
        proof {
            let rv2 = r.deep_view();
            rv.insert_ensures(p as int, xv);
            assert(rv2 =~~= rv.insert(p as int, xv));
            assert(sorted_lex(rv2)) by {
                assert forall|q1: int, q2: int| 0 <= q1 < q2 < rv2.len() implies lex_le(
                    rv2[q1],
                    rv2[q2],
                ) by {
                    if q2 < p {
                        assert(rv2[q1] == rv[q1] && rv2[q2] == rv[q2]);
                    } else if q1 < p && q2 == p {
                        assert(rv2[q1] == rv[q1] && rv2[q2] == xv);
                    } else if q1 < p {
                        assert(rv2[q1] == rv[q1] && rv2[q2] == rv[q2 - 1]);
                    } else if q1 == p {
                        assert(rv2[q1] == xv && rv2[q2] == rv[q2 - 1]);
                        lemma_lex_total_at(rv[p as int], xv, 0);
                        assert(!lex_le(rv[p as int], xv));
                        if q2 - 1 > p {
                            assert(lex_le(rv[p as int], rv[q2 - 1]));
                            lemma_lex_trans_at(xv, rv[p as int], rv[q2 - 1], 0);
                        }
                    } else {
                        assert(rv2[q1] == rv[q1 - 1] && rv2[q2] == rv[q2 - 1]);
                    }
                }
            }
            assert(rv2.to_multiset() =~= v.deep_view().take(i + 1 as int).to_multiset()) by {
                vstd::seq_lib::to_multiset_insert(rv, p as int, xv);
                assert(v.deep_view()[i as int] == v@[i as int]@);
                assert(v.deep_view().take(i + 1 as int) =~= v.deep_view().take(i as int).push(
                    v.deep_view()[i as int],
                ));
                vstd::seq_lib::to_multiset_build(v.deep_view().take(i as int), v.deep_view()[i as int]);
            }
        }
        i += 1;
    }
    proof {
        assert(v.deep_view().take(v.len() as int) =~= v.deep_view());
    }
    r
}

/// A feature entry that is a pure alias: it has no direct package
/// dependencies, and beyond the mandatory base edge it references at most
/// one sibling feature. The base and default features are never collapsed.
pub open spec fn is_alias_candidate(e: EntryView) -> bool {
    e.name != empty_name() && e.name != default_name() && e.deps.len() == 0 && (e.edges.len() == 1
        || e.edges.len() == 2)
}

/// The feature an alias stands for: the single real reference, or the base
/// feature when there is none.
pub open spec fn alias_key(e: EntryView) -> Seq<u8> {
    if e.edges.len() == 1 {
        e.edges[0]
    } else {
        e.edges[1]
    }
}

/// The table with every alias candidate removed, in order.
pub open spec fn surviving(t: Seq<EntryView>) -> Seq<EntryView>
    decreases t.len(),
{
    if t.len() == 0 {
        Seq::empty()
    } else {
        let rest = surviving(t.drop_last());
        if is_alias_candidate(t.last()) {
            rest
        } else {
            rest.push(t.last())
        }
    }
}

/// A table with no alias candidates left.
pub open spec fn minimized(t: Seq<EntryView>) -> bool {
    forall|i: int| 0 <= i < t.len() ==> !is_alias_candidate(#[trigger] t[i])
}

/// One step of alias chasing: `a` is an alias candidate whose key is `b`.
pub open spec fn alias_step(t: Seq<EntryView>, a: Seq<u8>, b: Seq<u8>) -> bool {
    table_has(t, a) && is_alias_candidate(table_find(t, a)->Some_0) && alias_key(
        table_find(t, a)->Some_0,
    ) == b
}

/// A chain of alias steps.
pub open spec fn alias_chain(t: Seq<EntryView>, p: Seq<Seq<u8>>) -> bool {
    forall|i: int| 0 <= i < p.len() - 1 ==> alias_step(t, #[trigger] p[i], p[i + 1])
}

/// Alias chasing from `f` ends at the surviving feature `s`.
pub open spec fn alias_resolves_to(t: Seq<EntryView>, f: Seq<u8>, s: Seq<u8>) -> bool {
    exists|p: Seq<Seq<u8>>|
        alias_chain(t, p) && p.len() >= 2 && p[0] == f && p.last() == s && table_has(t, s)
            && !is_alias_candidate(table_find(t, s)->Some_0)
}

/// Alias chasing runs in a circle through `c`.
pub open spec fn alias_cycles_at(t: Seq<EntryView>, c: Seq<u8>) -> bool {
    exists|p: Seq<Seq<u8>>| alias_chain(t, p) && p.len() >= 2 && p[0] == c && p.last() == c
}

/// Alias chasing reaches the name `n`, which has no entry.
pub open spec fn alias_dangles_at(t: Seq<EntryView>, n: Seq<u8>) -> bool {
    !table_has(t, n) && exists|p: Seq<Seq<u8>>|
        alias_chain(t, p) && p.len() >= 2 && p.last() == n
}

/// Whether this entry is a pure alias.
fn is_candidate_exec(e: &FeatureEntry) -> (r: bool)
    ensures
        r == is_alias_candidate(e.deep_view()),
{
    let r = e.name.len() > 0 && !crate::bytes::is_default_name(&e.name) && e.deps.len() == 0 && (
    e.edges.len() == 1 || e.edges.len() == 2);
    proof {
        if e.name@.len() == 0 {
            assert(e.name@ =~= empty_name());
        }
        if e.name@ == empty_name() {
            assert(e.name@.len() == 0);
        }
    }
    r
}

/// The alias key of a candidate entry, copied.
fn alias_key_exec(e: &FeatureEntry) -> (r: Vec<u8>)
    requires
        e.deep_view().edges.len() == 1 || e.deep_view().edges.len() == 2,
    ensures
        r@ == alias_key(e.deep_view()),
{
    if e.edges.len() == 1 {
        let r = crate::bytes::dup_bytes(&e.edges[0]);
        proof {
            assert(e.edges.deep_view()[0] == e.edges@[0]@);
        }
        r
    } else {
        let r = crate::bytes::dup_bytes(&e.edges[1]);
        proof {
            assert(e.edges.deep_view()[1] == e.edges@[1]@);
        }
        r
    }
}

/// Follows the alias chain from the candidate at `idx` until it reaches a
/// surviving feature, which it returns; fails on a cycle or on a key with
/// no entry.
fn resolve_candidate(t: &FeatureTable, idx: usize) -> (r: Result<Vec<u8>, Error>)
    requires
        table_wf(t@),
        idx < t.entries.len(),
        is_alias_candidate(t@[idx as int]),
    ensures
        r is Ok ==> alias_resolves_to(t@, t@[idx as int].name, (r->Ok_0)@),
        r is Ok ==> table_has(t@, (r->Ok_0)@) && !is_alias_candidate(
            table_find(t@, (r->Ok_0)@)->Some_0,
        ),
        r is Err ==> ((r->Err_0 matches Error::CyclicFeatureGraph(c) && alias_cycles_at(t@, c@))
            || (r->Err_0 matches Error::UnresolvedFeatureDependency(n) && alias_dangles_at(
            t@,
            n@,
        ))),
{
    let ghost tv = t@;
    let ghost startn = tv[idx as int].name;
    let mut visited: Vec<Vec<u8>> = Vec::new();
    visited.push(crate::bytes::dup_bytes(&t.entries[idx].name));
    let mut cur = alias_key_exec(&t.entries[idx]);
    proof {
        assert(tv[idx as int] == t.entries@[idx as int].deep_view());
        assert(visited.deep_view() =~~= seq![startn]);
        lemma_table_find_at(tv, idx as int);
        lemma_has_at(tv, idx as int);
        assert(alias_step(tv, startn, cur@));
    }
    loop
        invariant
            tv == t@,
            table_wf(tv),
            startn == tv[idx as int].name,
            idx < tv.len(),
            visited.deep_view().len() >= 1,
            visited.deep_view()[0] == startn,
            visited.deep_view().no_duplicates(),
            forall|q: int|
                0 <= q < visited.deep_view().len() ==> table_has(
                    tv,
                    #[trigger] visited.deep_view()[q],
                ),
            alias_chain(tv, visited.deep_view()),
            alias_step(tv, visited.deep_view().last(), cur@),
        decreases tv.len() - visited.deep_view().len(),
    {
        let ghost vis = visited.deep_view();
        if crate::bytes::byte_list_contains(&visited, &cur) {
            proof {
                let j0 = choose|j0: int| 0 <= j0 < vis.len() && vis[j0] == cur@;
                let p = vis.subrange(j0, vis.len() as int).push(cur@);
                assert(p[0] == cur@ && p.last() == cur@ && p.len() >= 2);
                assert forall|q: int| 0 <= q < p.len() - 1 implies alias_step(
                    tv,
                    #[trigger] p[q],
                    p[q + 1],
                ) by {
                    assert(p[q] == vis[j0 + q]);
                    if q + 1 < p.len() - 1 {
                        assert(p[q + 1] == vis[j0 + q + 1]);
                    } else {
                        assert(p[q + 1] == cur@);
                        assert(vis[j0 + q] == vis.last());
                    }
                }
                assert(alias_cycles_at(tv, cur@));
            }
            return Err(Error::CyclicFeatureGraph(cur));
        }
        match t.find_index(&cur) {
            None => {
                proof {
                    let p = vis.push(cur@);
                    assert(p.len() >= 2 && p.last() == cur@);
                    assert forall|q: int| 0 <= q < p.len() - 1 implies alias_step(
                        tv,
                        #[trigger] p[q],
                        p[q + 1],
                    ) by {
                        assert(p[q] == vis[q]);
                        if q + 1 < p.len() - 1 {
                            assert(p[q + 1] == vis[q + 1]);
                        } else {
                            assert(p[q + 1] == cur@);
                            assert(vis[q] == vis.last());
                        }
                    }
                    assert(alias_dangles_at(tv, cur@));
                }
                return Err(Error::UnresolvedFeatureDependency(cur));
            },
            Some(j) => {
                proof {
                    assert(tv[j as int] == t.entries@[j as int].deep_view());
                }
                if !is_candidate_exec(&t.entries[j]) {
                    proof {
                        let p = vis.push(cur@);
                        assert(p.len() >= 2 && p[0] == startn && p.last() == cur@);
                        assert forall|q: int| 0 <= q < p.len() - 1 implies alias_step(
                            tv,
                            #[trigger] p[q],
                            p[q + 1],
                        ) by {
                            assert(p[q] == vis[q]);
                            if q + 1 < p.len() - 1 {
                                assert(p[q + 1] == vis[q + 1]);
                            } else {
                                assert(p[q + 1] == cur@);
                                assert(vis[q] == vis.last());
                            }
                        }
                        assert(alias_resolves_to(tv, startn, cur@));
                    }
                    return Ok(cur);
                }
                let ghost curv = cur@;
                proof {
                    crate::closure::lemma_name_list_bound(tv, vis.push(curv));
                }
                let nextkey = alias_key_exec(&t.entries[j]);
                visited.push(cur);
                cur = nextkey;
                proof {
                    assert(visited.deep_view() =~~= vis.push(curv));
                    assert forall|q: int| 0 <= q < visited.deep_view().len() - 1 implies alias_step(
                        tv,
                        #[trigger] visited.deep_view()[q],
                        visited.deep_view()[q + 1],
                    ) by {
                        if q + 1 < visited.deep_view().len() - 1 {
                            assert(visited.deep_view()[q] == vis[q]);
                            assert(visited.deep_view()[q + 1] == vis[q + 1]);
                        } else {
                            assert(visited.deep_view()[q] == vis.last());
                            assert(visited.deep_view()[q + 1] == curv);
                        }
                    }
                    assert(alias_step(tv, curv, cur@));
                }
            },
        }
    }
}

/// Every surviving entry is an entry of the table it came from, none is an
/// alias candidate, and a well-formed table survives well-formed.
pub proof fn lemma_surviving_props(t: Seq<EntryView>)
    ensures
        forall|x: int|
            0 <= x < surviving(t).len() ==> exists|i: int|
                0 <= i < t.len() && t[i] == #[trigger] surviving(t)[x],
        minimized(surviving(t)),
        table_wf(t) ==> table_wf(surviving(t)),
    decreases t.len(),
{
    if t.len() > 0 {
        let prefix = t.drop_last();
        lemma_surviving_props(prefix);
        let rest = surviving(prefix);
        let s = surviving(t);
        assert forall|x: int| 0 <= x < s.len() implies exists|i: int|
            0 <= i < t.len() && t[i] == #[trigger] s[x] by {
            if x < rest.len() {
                let i = choose|i: int| 0 <= i < prefix.len() && prefix[i] == rest[x];
                assert(t[i] == s[x]);
            } else {
                assert(t[t.len() - 1] == s[x]);
            }
        }
        if table_wf(t) {
            assert(table_wf(prefix)) by {
                assert forall|a: int, b: int| 0 <= a < b < prefix.len() implies prefix[a].name
                    != prefix[b].name by {
                    assert(prefix[a] == t[a] && prefix[b] == t[b]);
                }
            }
            assert forall|a: int, b: int| 0 <= a < b < s.len() implies s[a].name != s[b].name by {
                if b < rest.len() {
                } else if !is_alias_candidate(t.last()) {
                    assert(s[b] == t.last());
                    let i = choose|i: int| 0 <= i < prefix.len() && prefix[i] == rest[a];
                    assert(t[i] == s[a]);
                    assert(t[i].name != t[t.len() - 1].name);
                }
            }
        }
    }
}

/// A non-candidate entry of the table survives, under its own name.
pub proof fn lemma_surviving_member(t: Seq<EntryView>, s: Seq<u8>)
    requires
        table_has(t, s),
        !is_alias_candidate(table_find(t, s)->Some_0),
    ensures
        exists|k: int| 0 <= k < surviving(t).len() && (#[trigger] surviving(t)[k]).name == s,
    decreases t.len(),
{
    let sv = surviving(t);
    if t.last().name == s {
        if !is_alias_candidate(t.last()) {
            assert(sv[sv.len() - 1] == t.last());
        } else {
            assert(false);
        }
    } else {
        lemma_surviving_member(t.drop_last(), s);
        let rest = surviving(t.drop_last());
        let k = choose|k: int| 0 <= k < rest.len() && rest[k].name == s;
        assert(sv[k].name == s);
    }
}

/// A minimized table survives provides synthesis unchanged: running the
/// synthesis on its own output removes nothing further.
pub proof fn lemma_minimized_fixed(t: Seq<EntryView>)
    requires
        minimized(t),
    ensures
        surviving(t) == t,
    decreases t.len(),
{
    if t.len() > 0 {
        assert(minimized(t.drop_last())) by {
            assert(forall|i: int|
                0 <= i < t.drop_last().len() ==> #[trigger] t.drop_last()[i] == t[i]);
        }
        lemma_minimized_fixed(t.drop_last());
        assert(!is_alias_candidate(t[t.len() - 1]));
        assert(surviving(t) =~= t);
    }
}

/// The base and default features are never alias candidates, so provides
/// synthesis never removes them.
pub proof fn lemma_protected_survive(t: Seq<EntryView>)
    requires
        table_wf(t),
    ensures
        table_has(t, empty_name()) ==> table_has(surviving(t), empty_name()),
        table_has(t, default_name()) ==> table_has(surviving(t), default_name()),
{
    if table_has(t, empty_name()) {
        assert((table_find(t, empty_name())->Some_0).name == empty_name()) by {
            lemma_find_name(t, empty_name());
        }
        lemma_surviving_member(t, empty_name());
        let k = choose|k: int|
            0 <= k < surviving(t).len() && (#[trigger] surviving(t)[k]).name == empty_name();
        lemma_has_at(surviving(t), k);
    }
    if table_has(t, default_name()) {
        assert((table_find(t, default_name())->Some_0).name == default_name()) by {
            lemma_find_name(t, default_name());
        }
        lemma_surviving_member(t, default_name());
        let k = choose|k: int|
            0 <= k < surviving(t).len() && (#[trigger] surviving(t)[k]).name == default_name();
        lemma_has_at(surviving(t), k);
    }
}

/// What `table_find` returns carries the searched name.
pub proof fn lemma_find_name(t: Seq<EntryView>, n: Seq<u8>)
    requires
        table_has(t, n),
    ensures
        (table_find(t, n)->Some_0).name == n,
    decreases t.len(),
{
    if t.last().name != n {
        lemma_find_name(t.drop_last(), n);
    }
}

/// What `table_find` returns is one of the table's entries.
pub proof fn lemma_find_is_entry(t: Seq<EntryView>, n: Seq<u8>)
    requires
        table_has(t, n),
    ensures
        exists|i: int| 0 <= i < t.len() && #[trigger] t[i] == table_find(t, n)->Some_0,
    decreases t.len(),
{
    if t.last().name == n {
        assert(t[t.len() - 1] == table_find(t, n)->Some_0);
    } else {
        lemma_find_is_entry(t.drop_last(), n);
        let i = choose|i: int|
            0 <= i < t.drop_last().len() && #[trigger] t.drop_last()[i] == table_find(
                t.drop_last(),
                n,
            )->Some_0;
        assert(t[i] == table_find(t, n)->Some_0);
    }
}

/// Provides synthesis is idempotent. Its output table is minimized, so a
/// second run removes nothing — the surviving table is the table itself —
/// and, since a provides set only ever holds alias candidates of the input
/// table, every provides set of that second run is empty.
pub proof fn lemma_synthesis_idempotent(t: Seq<EntryView>, m: Seq<ProvidesEntryView>)
    requires
        minimized(t),
        forall|k: int, a: Seq<u8>|
            0 <= k < m.len() && (#[trigger] m[k].aliases.contains(a)) ==> table_has(t, a)
                && is_alias_candidate(table_find(t, a)->Some_0),
    ensures
        surviving(t) == t,
        forall|k: int| 0 <= k < m.len() ==> (#[trigger] m[k]).aliases.len() == 0,
{
    lemma_minimized_fixed(t);
    assert forall|k: int| 0 <= k < m.len() implies (#[trigger] m[k]).aliases.len() == 0 by {
        if m[k].aliases.len() > 0 {
            let a = m[k].aliases[0];
            assert(m[k].aliases.contains(a));
            lemma_find_is_entry(t, a);
            let i = choose|i: int|
                0 <= i < t.len() && #[trigger] t[i] == table_find(t, a)->Some_0;
            assert(!is_alias_candidate(t[i]));
        }
    }
}

/// One surviving feature and the aliases collapsed into it.
pub struct ProvidesEntry {
    pub key: Vec<u8>,
    pub aliases: Vec<Vec<u8>>,
}

#[verifier::ext_equal]
pub struct ProvidesEntryView {
    pub key: Seq<u8>,
    pub aliases: Seq<Seq<u8>>,
}

impl View for ProvidesEntry {
    type V = ProvidesEntryView;

    open spec fn view(&self) -> ProvidesEntryView {
        ProvidesEntryView { key: self.key@, aliases: self.aliases.deep_view() }
    }
}

impl DeepView for ProvidesEntry {
    type V = ProvidesEntryView;

    open spec fn deep_view(&self) -> ProvidesEntryView {
        self.view()
    }
}

/// Every alias candidate of the table appears in some provides set of the
/// map.
pub open spec fn covers_all_candidates(t: Seq<EntryView>, m: Seq<ProvidesEntryView>) -> bool {
    forall|x: int|
        0 <= x < t.len() && is_alias_candidate(#[trigger] t[x]) ==> exists|k: int|
            0 <= k < m.len() && (#[trigger] m[k]).aliases.contains(t[x].name)
}

/// No name appears in two distinct provides sets of the map.
pub open spec fn buckets_disjoint(m: Seq<ProvidesEntryView>) -> bool {
    forall|k1: int, k2: int, a: Seq<u8>|
        0 <= k1 < m.len() && 0 <= k2 < m.len() && (#[trigger] m[k1].aliases.contains(a)) && (
        #[trigger] m[k2].aliases.contains(a)) ==> k1 == k2
}

impl FeatureTable {
    /// Collapses every pure alias feature into the surviving feature its
    /// chain of aliases denotes, removes the collapsed entries from the
    /// table, and returns, for each surviving feature in table order, the
    /// sorted set of features that prove redundant with it. Each removed
    /// feature lands in exactly one surviving feature's provides set. The
    /// base and default features are never candidates and always survive.
    /// Fails, leaving the table untouched, when alias chasing runs in a
    /// circle or reaches a name with no entry.
    #[verifier::rlimit(100)]
    pub fn synthesize_provides(&mut self) -> (r: Result<Vec<ProvidesEntry>, Error>)
        requires
            table_wf(old(self)@),
        ensures
            r is Err ==> final(self)@ == old(self)@,
            r is Err ==> ((r->Err_0 matches Error::CyclicFeatureGraph(c) && alias_cycles_at(
                old(self)@,
                c@,
            )) || (r->Err_0 matches Error::UnresolvedFeatureDependency(n) && alias_dangles_at(
                old(self)@,
                n@,
            ))),
            r is Ok ==> final(self)@ == surviving(old(self)@),
            r is Ok ==> minimized(final(self)@) && table_wf(final(self)@),
            r is Ok ==> (r->Ok_0).deep_view().len() == surviving(old(self)@).len(),
            r is Ok ==> forall|k: int|
                0 <= k < (r->Ok_0).deep_view().len() ==> (#[trigger] (r->Ok_0).deep_view()[k]).key
                    == surviving(old(self)@)[k].name && sorted_lex(
                    (r->Ok_0).deep_view()[k].aliases,
                ),
            r is Ok ==> forall|k: int, a: Seq<u8>|
                0 <= k < (r->Ok_0).deep_view().len() && (#[trigger] (r->Ok_0).deep_view()[k].aliases.contains(
                    a,
                )) ==> table_has(old(self)@, a) && is_alias_candidate(
                    table_find(old(self)@, a)->Some_0,
                ) && alias_resolves_to(old(self)@, a, (r->Ok_0).deep_view()[k].key),
            r is Ok ==> covers_all_candidates(old(self)@, (r->Ok_0).deep_view()),
            r is Ok ==> buckets_disjoint((r->Ok_0).deep_view()),
    {
        let ghost t0 = self@;
        proof {
            lemma_surviving_props(t0);
        }
        let ghost sv = surviving(t0);
        let n = self.entries.len();
        let mut buckets: Vec<ProvidesEntry> = Vec::new();
        let mut i: usize = 0;
        proof {
            assert(buckets.deep_view() =~= Seq::<ProvidesEntryView>::empty());
            assert(surviving(t0.take(0)) =~= Seq::<EntryView>::empty());
        }
        while i < n
            invariant
                t0 == self@,
                n == self.entries.len(),
                i <= n,
                buckets.deep_view().len() == surviving(t0.take(i as int)).len(),
                forall|k: int|
                    0 <= k < buckets.deep_view().len() ==> (#[trigger] buckets.deep_view()[k]).key
                        == surviving(t0.take(i as int))[k].name
                        && buckets.deep_view()[k].aliases.len() == 0,
            decreases n - i,
        {
            proof {
                assert(t0[i as int] == self.entries@[i as int].deep_view());
                assert(t0.take(i + 1 as int).drop_last() =~= t0.take(i as int));
                assert(t0.take(i + 1 as int).last() == t0[i as int]);
            }
            if !is_candidate_exec(&self.entries[i]) {
                let ghost prev = buckets.deep_view();
                buckets.push(
                    ProvidesEntry {
                        key: crate::bytes::dup_bytes(&self.entries[i].name),
                        aliases: Vec::new(),
                    },
                );
                proof {
                    assert(buckets.deep_view() =~~= prev.push(
                        ProvidesEntryView { key: t0[i as int].name, aliases: Seq::empty() },
                    ));
                }
            }
            i += 1;
        }
        proof {
            assert(t0.take(n as int) =~= t0);
        }
        let mut i: usize = 0;
        while i < n
            invariant
                t0 == self@,
                table_wf(t0),
                sv == surviving(t0),
                n == self.entries.len(),
                i <= n,
                buckets.deep_view().len() == sv.len(),
                forall|k: int|
                    0 <= k < buckets.deep_view().len() ==> (#[trigger] buckets.deep_view()[k]).key
                        == sv[k].name,
                forall|k: int, a: Seq<u8>|
                    0 <= k < buckets.deep_view().len() && (
                    #[trigger] buckets.deep_view()[k].aliases.contains(a)) ==> table_has(t0, a)
                        && is_alias_candidate(table_find(t0, a)->Some_0) && alias_resolves_to(
                        t0,
                        a,
                        buckets.deep_view()[k].key,
                    ) && (exists|x: int|
                        0 <= x < i && #[trigger] t0[x].name == a && is_alias_candidate(t0[x])),
                forall|x: int|
                    0 <= x < i && is_alias_candidate(#[trigger] t0[x]) ==> exists|k: int|
                        0 <= k < buckets.deep_view().len()
                            && (#[trigger] buckets.deep_view()[k]).aliases.contains(t0[x].name),
                forall|k1: int, k2: int, a: Seq<u8>|
                    0 <= k1 < buckets.deep_view().len() && 0 <= k2 < buckets.deep_view().len() && (
                    #[trigger] buckets.deep_view()[k1].aliases.contains(a)) && (
                    #[trigger] buckets.deep_view()[k2].aliases.contains(a)) ==> k1 == k2,
            decreases n - i,
        {
            proof {
                assert(t0[i as int] == self.entries@[i as int].deep_view());
            }
            if is_candidate_exec(&self.entries[i]) {
                let s = match resolve_candidate(self, i) {
                    Err(e) => {
                        return Err(e);
                    },
                    Ok(s) => s,
                };
                proof {
                    lemma_surviving_member(t0, s@);
                }
                let mut bidx: usize = 0;
                let mut found = false;
                while !found && bidx < buckets.len()
                    invariant
                        bidx <= buckets.len(),
                        buckets.deep_view().len() == sv.len(),
                        forall|q: int|
                            0 <= q < buckets.deep_view().len()
                                ==> (#[trigger] buckets.deep_view()[q]).key == sv[q].name,
                        forall|q: int|
                            0 <= q < bidx ==> (#[trigger] buckets.deep_view()[q]).key != s@,
                        found ==> bidx < buckets.len() && buckets.deep_view()[bidx as int].key
                            == s@,
                    decreases buckets.len() - bidx, 1int - (if found {
                        1int
                    } else {
                        0int
                    }),
                {
                    proof {
                        assert(buckets.deep_view()[bidx as int] == buckets@[bidx as int].deep_view());
                    }
                    if crate::bytes::bytes_eq(&buckets[bidx].key, &s) {
                        found = true;
                    } else {
                        bidx += 1;
                    }
                }
                if !found {
                    proof {
                        let k = choose|k: int|
                            0 <= k < surviving(t0).len() && (#[trigger] surviving(t0)[k]).name
                                == s@;
                        assert(buckets.deep_view()[k].key == s@);
                    }
                    return vstd::pervasive::unreached();
                }
                let ghost prevb = buckets.deep_view();
                let ghost fname = t0[i as int].name;
                let newkey = crate::bytes::dup_bytes(&buckets[bidx].key);
                let mut newal = crate::bytes::dup_byte_list(&buckets[bidx].aliases);
                newal.push(crate::bytes::dup_bytes(&self.entries[i].name));
                buckets.set(
                    bidx,
                    ProvidesEntry { key: newkey, aliases: newal },
                );
                proof {
                    let newb = buckets.deep_view();
                    assert(newb =~~= prevb.update(
                        bidx as int,
                        ProvidesEntryView {
                            key: prevb[bidx as int].key,
                            aliases: prevb[bidx as int].aliases.push(fname),
                        },
                    ));
                    lemma_has_at(t0, i as int);
                    lemma_table_find_at(t0, i as int);
                    assert forall|k: int, a: Seq<u8>|
                        0 <= k < newb.len() && (#[trigger] newb[k].aliases.contains(a)) implies
                        table_has(t0, a) && is_alias_candidate(table_find(t0, a)->Some_0)
                        && alias_resolves_to(t0, a, newb[k].key) && (exists|x: int|
                        0 <= x < i + 1 && #[trigger] t0[x].name == a && is_alias_candidate(
                            t0[x],
                        )) by {
                        if k == bidx {
                            let w = choose|w: int|
                                0 <= w < newb[k].aliases.len() && newb[k].aliases[w] == a;
                            if w < prevb[bidx as int].aliases.len() {
                                assert(prevb[bidx as int].aliases[w] == a);
                                assert(prevb[bidx as int].aliases.contains(a));
                            } else {
                                assert(a == fname);
                                assert(t0[i as int].name == a && is_alias_candidate(
                                    t0[i as int],
                                ));
                            }
                        } else {
                            assert(newb[k] == prevb[k]);
                            assert(prevb[k].aliases.contains(a));
                        }
                    }
                    assert forall|x: int|
                        0 <= x < i + 1 && is_alias_candidate(#[trigger] t0[x]) implies exists|k: int|
                        0 <= k < newb.len() && (#[trigger] newb[k]).aliases.contains(
                            t0[x].name,
                        ) by {
                        if x < i {
                            let k = choose|k: int|
                                0 <= k < prevb.len() && (#[trigger] prevb[k]).aliases.contains(
                                    t0[x].name,
                                );
                            if k == bidx {
                                let w = choose|w: int|
                                    0 <= w < prevb[k].aliases.len() && prevb[k].aliases[w]
                                        == t0[x].name;
                                assert(newb[k].aliases[w] == t0[x].name);
                                assert(newb[k].aliases.contains(t0[x].name));
                            } else {
                                assert(newb[k] == prevb[k]);
                            }
                        } else {
                            assert(newb[bidx as int].aliases.last() == fname);
                            assert(newb[bidx as int].aliases.contains(fname));
                        }
                    }
                    assert forall|k1: int, k2: int, a: Seq<u8>|
                        0 <= k1 < newb.len() && 0 <= k2 < newb.len() && (
                        #[trigger] newb[k1].aliases.contains(a)) && (
                        #[trigger] newb[k2].aliases.contains(a)) implies k1 == k2 by {
                        if a == fname {
                            if prevb[k1].aliases.contains(a) {
                                let x = choose|x: int|
                                    0 <= x < i && #[trigger] t0[x].name == a
                                        && is_alias_candidate(t0[x]);
                                assert(t0[x].name == t0[i as int].name);
                                assert(false);
                            }
                            if prevb[k2].aliases.contains(a) {
                                let x = choose|x: int|
                                    0 <= x < i && #[trigger] t0[x].name == a
                                        && is_alias_candidate(t0[x]);
                                assert(t0[x].name == t0[i as int].name);
                                assert(false);
                            }
                            if k1 != bidx {
                                assert(newb[k1] == prevb[k1]);
                                assert(false);
                            }
                            if k2 != bidx {
                                assert(newb[k2] == prevb[k2]);
                                assert(false);
                            }
                        } else {
                            assert(prevb[k1].aliases.contains(a)) by {
                                if k1 == bidx {
                                    let w = choose|w: int|
                                        0 <= w < newb[k1].aliases.len() && newb[k1].aliases[w]
                                            == a;
                                    assert(prevb[k1].aliases[w] == a);
                                } else {
                                    assert(newb[k1] == prevb[k1]);
                                }
                            }
                            assert(prevb[k2].aliases.contains(a)) by {
                                if k2 == bidx {
                                    let w = choose|w: int|
                                        0 <= w < newb[k2].aliases.len() && newb[k2].aliases[w]
                                            == a;
                                    assert(prevb[k2].aliases[w] == a);
                                } else {
                                    assert(newb[k2] == prevb[k2]);
                                }
                            }
                        }
                    }
                }
            }
            i += 1;
        }
        let mut newentries: Vec<FeatureEntry> = Vec::new();
        let mut i: usize = 0;
        proof {
            assert(newentries.deep_view() =~= surviving(t0.take(0)));
        }
        while i < n
            invariant
                t0 == self@,
                n == self.entries.len(),
                i <= n,
                newentries.deep_view() == surviving(t0.take(i as int)),
            decreases n - i,
        {
            proof {
                assert(t0[i as int] == self.entries@[i as int].deep_view());
                assert(t0.take(i + 1 as int).drop_last() =~= t0.take(i as int));
                assert(t0.take(i + 1 as int).last() == t0[i as int]);
            }
            if !is_candidate_exec(&self.entries[i]) {
                let ghost prev = newentries.deep_view();
                newentries.push(self.entries[i].dup());
                proof {
                    assert(newentries.deep_view() =~= prev.push(t0[i as int]));
                }
            }
            i += 1;
        }
        proof {
            assert(t0.take(n as int) =~= t0);
        }
        self.entries = newentries;
        let mut out: Vec<ProvidesEntry> = Vec::new();
        let mut k: usize = 0;
        while k < buckets.len()
            invariant
                k <= buckets.len(),
                out.deep_view().len() == k,
                forall|q: int|
                    0 <= q < k ==> (#[trigger] out.deep_view()[q]).key
                        == buckets.deep_view()[q].key && sorted_lex(out.deep_view()[q].aliases)
                        && out.deep_view()[q].aliases.to_multiset()
                        == buckets.deep_view()[q].aliases.to_multiset(),
            decreases buckets.len() - k,
        {
            proof {
                assert(buckets.deep_view()[k as int] == buckets@[k as int].deep_view());
            }
            let sa = sort_names(crate::bytes::dup_byte_list(&buckets[k].aliases));
            let ghost sav = sa.deep_view();
            let ghost prev = out.deep_view();
            out.push(ProvidesEntry { key: crate::bytes::dup_bytes(&buckets[k].key), aliases: sa });
            proof {
                assert(out.deep_view() =~~= prev.push(
                    ProvidesEntryView { key: buckets.deep_view()[k as int].key, aliases: sav },
                ));
            }
            k += 1;
        }
        proof {
            let ob = out.deep_view();
            let bb = buckets.deep_view();
            assert forall|q: int, a: Seq<u8>| 0 <= q < ob.len() implies ((
            #[trigger] ob[q].aliases.contains(a)) == bb[q].aliases.contains(a)) by {
                ob[q].aliases.to_multiset_ensures();
                bb[q].aliases.to_multiset_ensures();
                assert(ob[q].aliases.to_multiset().count(a) == bb[q].aliases.to_multiset().count(
                    a,
                ));
            }
            assert forall|x: int|
                0 <= x < t0.len() && is_alias_candidate(#[trigger] t0[x]) implies exists|k: int|
                0 <= k < ob.len() && (#[trigger] ob[k]).aliases.contains(t0[x].name) by {
                let k = choose|k: int|
                    0 <= k < bb.len() && (#[trigger] bb[k]).aliases.contains(t0[x].name);
                assert(ob[k].aliases.contains(t0[x].name));
            }
            assert(covers_all_candidates(t0, ob));
            assert(buckets_disjoint(ob)) by {
                assert forall|k1: int, k2: int, a: Seq<u8>|
                    0 <= k1 < ob.len() && 0 <= k2 < ob.len() && (
                    #[trigger] ob[k1].aliases.contains(a)) && (
                    #[trigger] ob[k2].aliases.contains(a)) implies k1 == k2 by {
                    assert(bb[k1].aliases.contains(a));
                    assert(bb[k2].aliases.contains(a));
                }
            }
        }
        Ok(out)
    }
}

} // verus!
