//! The transitive closure of a feature: every feature reachable over the
//! table's edges, with the package dependencies they activate. The traversal
//! must never hang: a cyclic feature graph is detected and reported.

use vstd::prelude::*;
use crate::deps::{DepView, PackageDependency};
use crate::table::{EntryView, FeatureTable, table_find, table_has, table_wf, lemma_has_at,
    lemma_table_has_index};
use crate::errors::Error;

verus! {

/// The edge list of the entry named `n` (meaningful when the table has it).
pub open spec fn entry_edges(t: Seq<EntryView>, n: Seq<u8>) -> Seq<Seq<u8>> {
    (table_find(t, n)->Some_0).edges
}

/// The dependency list of the entry named `n`.
pub open spec fn entry_deps(t: Seq<EntryView>, n: Seq<u8>) -> Seq<DepView> {
    (table_find(t, n)->Some_0).deps
}

/// A walk over the table: each node but the last has an entry, and each
/// step follows one of its edges.
pub open spec fn is_path(t: Seq<EntryView>, p: Seq<Seq<u8>>) -> bool {
    forall|i: int|
        0 <= i < p.len() - 1 ==> table_has(t, #[trigger] p[i]) && entry_edges(t, p[i]).contains(
            p[i + 1],
        )
}

/// `b` is reachable from `a` (in zero or more steps).
pub open spec fn reaches(t: Seq<EntryView>, a: Seq<u8>, b: Seq<u8>) -> bool {
    exists|p: Seq<Seq<u8>>| is_path(t, p) && p.len() >= 1 && p[0] == a && p.last() == b
}

/// A non-empty walk leads from `n` back to `n`.
pub open spec fn cycles_at(t: Seq<EntryView>, n: Seq<u8>) -> bool {
    exists|p: Seq<Seq<u8>>| is_path(t, p) && p.len() >= 2 && p[0] == n && p.last() == n
}

/// Some feature reachable from `start` references itself, directly or
/// indirectly.
pub open spec fn has_cycle_from(t: Seq<EntryView>, start: Seq<u8>) -> bool {
    exists|c: Seq<u8>| reaches(t, start, c) && cycles_at(t, c)
}

/// Some feature name reachable from `start` has no entry in the table.
pub open spec fn missing_from(t: Seq<EntryView>, start: Seq<u8>) -> bool {
    exists|c: Seq<u8>| reaches(t, start, c) && !table_has(t, c)
}

pub proof fn lemma_reaches_refl(t: Seq<EntryView>, a: Seq<u8>)
    ensures
        reaches(t, a, a),
{
    let p = seq![a];
    assert(is_path(t, p) && p.len() >= 1 && p[0] == a && p.last() == a);
}

pub proof fn lemma_reaches_step(t: Seq<EntryView>, a: Seq<u8>, b: Seq<u8>, c: Seq<u8>)
    requires
        reaches(t, a, b),
        table_has(t, b),
        entry_edges(t, b).contains(c),
    ensures
        reaches(t, a, c),
{
    let p = choose|p: Seq<Seq<u8>>| is_path(t, p) && p.len() >= 1 && p[0] == a && p.last() == b;
    let q = p.push(c);
    assert forall|i: int| 0 <= i < q.len() - 1 implies table_has(t, #[trigger] q[i]) && entry_edges(
        t,
        q[i],
    ).contains(q[i + 1]) by {
        if i < p.len() - 1 {
            assert(q[i] == p[i]);
            assert(q[i + 1] == p[i + 1]);
        } else {
            assert(q[i] == p.last());
            assert(q[i + 1] == c);
        }
    }
    assert(is_path(t, q) && q.len() >= 1 && q[0] == a && q.last() == c);
}

pub proof fn lemma_reaches_trans(t: Seq<EntryView>, a: Seq<u8>, b: Seq<u8>, c: Seq<u8>)
    requires
        reaches(t, a, b),
        reaches(t, b, c),
    ensures
        reaches(t, a, c),
{
    let p1 = choose|p: Seq<Seq<u8>>| is_path(t, p) && p.len() >= 1 && p[0] == a && p.last() == b;
    let p2 = choose|p: Seq<Seq<u8>>| is_path(t, p) && p.len() >= 1 && p[0] == b && p.last() == c;
    let q = p1 + p2.subrange(1, p2.len() as int);
    assert(q.len() == p1.len() + p2.len() - 1);
    assert forall|i: int| 0 <= i < q.len() - 1 implies table_has(t, #[trigger] q[i]) && entry_edges(
        t,
        q[i],
    ).contains(q[i + 1]) by {
        if i < p1.len() - 1 {
            assert(q[i] == p1[i]);
            assert(q[i + 1] == p1[i + 1]);
        } else if i == p1.len() - 1 {
            assert(q[i] == p1.last());
            assert(p1.last() == p2[0]);
            assert(q[i + 1] == p2[1]);
        } else {
            assert(q[i] == p2[i - p1.len() + 1]);
            assert(q[i + 1] == p2[i - p1.len() + 2]);
        }
    }
    assert(q[0] == a);
    if p2.len() == 1 {
        assert(q =~= p1);
        assert(q.last() == b);
        assert(b == c);
    } else {
        assert(q.last() == p2[p2.len() - 1]);
    }
    assert(is_path(t, q) && q.len() >= 1 && q[0] == a && q.last() == c);
}

/// Every finished feature has an entry.
pub open spec fn done_has(t: Seq<EntryView>, done: Seq<Seq<u8>>) -> bool {
    forall|i: int| 0 <= i < done.len() ==> table_has(t, #[trigger] done[i])
}

/// Every finished feature's edges lead to strictly earlier finished
/// features: the finish order is a topological order.
pub open spec fn done_closed(t: Seq<EntryView>, done: Seq<Seq<u8>>) -> bool {
    forall|i: int, j: int|
        #![trigger entry_edges(t, done[i])[j]]
        0 <= i < done.len() && 0 <= j < entry_edges(t, done[i]).len() ==> done.take(i).contains(
            entry_edges(t, done[i])[j],
        )
}

/// A walk that starts in a topologically ordered list stays in it, and its
/// end lies at least the walk's length earlier in the list.
pub proof fn lemma_path_stays(t: Seq<EntryView>, done: Seq<Seq<u8>>, p: Seq<Seq<u8>>)
    requires
        done_closed(t, done),
        done.no_duplicates(),
        is_path(t, p),
        p.len() >= 1,
        done.contains(p[0]),
    ensures
        done.contains(p.last()),
        done.index_of(p.last()) <= done.index_of(p[0]) - (p.len() - 1),
    decreases p.len(),
{
    let i0 = done.index_of(p[0]);
    assert(0 <= i0 < done.len() && done[i0] == p[0]);
    if p.len() == 1 {
        assert(p.last() == p[0]);
    } else {
        assert(table_has(t, p[0]) && entry_edges(t, p[0]).contains(p[1]));
        let j = choose|j: int|
            0 <= j < entry_edges(t, done[i0]).len() && entry_edges(t, done[i0])[j] == p[1];
        assert(done.take(i0).contains(entry_edges(t, done[i0])[j]));
        let k = choose|k: int| 0 <= k < done.take(i0).len() && done.take(i0)[k] == p[1];
        assert(done[k] == p[1] && k < i0);
        assert(done.contains(p[1]));
        let i1 = done.index_of(p[1]);
        assert(done[i1] == p[1]);
        assert(i1 == k) by {
            if i1 != k {
                assert(done[i1] == done[k]);
            }
        }
        let p_rest = p.subrange(1, p.len() as int);
        assert forall|x: int| 0 <= x < p_rest.len() - 1 implies table_has(
            t,
            #[trigger] p_rest[x],
        ) && entry_edges(t, p_rest[x]).contains(p_rest[x + 1]) by {
            assert(p_rest[x] == p[x + 1]);
            assert(p_rest[x + 1] == p[x + 2]);
        }
        assert(p_rest[0] == p[1]);
        lemma_path_stays(t, done, p_rest);
        assert(p_rest.last() == p.last());
    }
}

/// The concatenation of the dependency lists of the finished features, in
/// finish order.
pub open spec fn done_deps(t: Seq<EntryView>, done: Seq<Seq<u8>>) -> Seq<DepView>
    decreases done.len(),
{
    if done.len() == 0 {
        Seq::empty()
    } else {
        done_deps(t, done.drop_last()) + entry_deps(t, done.last())
    }
}

/// The visiting stack of the traversal: distinct features, each present in
/// the table, each a direct edge of its predecessor.
pub open spec fn stack_ok(t: Seq<EntryView>, st: Seq<Seq<u8>>) -> bool {
    st.no_duplicates() && (forall|i: int| 0 <= i < st.len() ==> table_has(t, #[trigger] st[i]))
        && (forall|i: int|
        0 <= i < st.len() - 1 ==> entry_edges(t, #[trigger] st[i]).contains(st[i + 1]))
}

/// Distinct feature names that all have entries are no more numerous than
/// the entries.
pub proof fn lemma_name_list_bound(t: Seq<EntryView>, st: Seq<Seq<u8>>)
    requires
        st.no_duplicates(),
        forall|i: int| 0 <= i < st.len() ==> table_has(t, #[trigger] st[i]),
    ensures
        st.len() <= t.len(),
{
    broadcast use vstd::seq_lib::seq_to_set_is_finite;

    st.unique_seq_to_set();
    let names = t.map_values(|e: EntryView| e.name);
    names.lemma_cardinality_of_set();
    assert(st.to_set().subset_of(names.to_set())) by {
        assert forall|x: Seq<u8>| st.to_set().contains(x) implies names.to_set().contains(x) by {
            assert(st.contains(x));
            lemma_table_has_index(t, x);
            let i = choose|i: int| 0 <= i < t.len() && t[i].name == x;
            assert(names[i] == x);
            assert(names.contains(x));
        }
    }
    vstd::set_lib::lemma_len_subset(st.to_set(), names.to_set());
}

/// Nothing in a topologically ordered list lies on a cycle.
pub proof fn lemma_closed_no_cycle(t: Seq<EntryView>, done: Seq<Seq<u8>>, c: Seq<u8>)
    requires
        done_closed(t, done),
        done.no_duplicates(),
        done.contains(c),
    ensures
        !cycles_at(t, c),
{
    if cycles_at(t, c) {
        let p = choose|p: Seq<Seq<u8>>|
            is_path(t, p) && p.len() >= 2 && p[0] == c && p.last() == c;
        lemma_path_stays(t, done, p);
    }
}

/// Depth-first traversal from `name`. The visiting stack bounds the
/// recursion: revisiting a feature on the stack is a cycle and fails rather
/// than recursing forever. Finished features accumulate in `done` in
/// topological (finish) order, their dependencies in `out`.
fn dfs(
    t: &FeatureTable,
    name: &Vec<u8>,
    stack: &mut Vec<Vec<u8>>,
    done: &mut Vec<Vec<u8>>,
    out: &mut Vec<PackageDependency>,
) -> (r: Result<(), Error>)
    requires
        table_wf(t@),
        stack_ok(t@, old(stack).deep_view()),
        old(stack).deep_view().len() > 0 ==> entry_edges(
            t@,
            old(stack).deep_view().last(),
        ).contains(name@),
        old(done).deep_view().no_duplicates(),
        done_has(t@, old(done).deep_view()),
        done_closed(t@, old(done).deep_view()),
        forall|i: int|
            0 <= i < old(stack).deep_view().len() ==> !old(done).deep_view().contains(
                #[trigger] old(stack).deep_view()[i],
            ),
        old(out).deep_view() == done_deps(t@, old(done).deep_view()),
    ensures
        final(stack).deep_view() == old(stack).deep_view(),
        old(done).deep_view().is_prefix_of(final(done).deep_view()),
        final(done).deep_view().no_duplicates(),
        done_has(t@, final(done).deep_view()),
        done_closed(t@, final(done).deep_view()),
        forall|i: int|
            0 <= i < old(stack).deep_view().len() ==> !final(done).deep_view().contains(
                #[trigger] old(stack).deep_view()[i],
            ),
        final(out).deep_view() == done_deps(t@, final(done).deep_view()),
        forall|x: int|
            old(done).deep_view().len() <= x < final(done).deep_view().len() ==> reaches(
                t@,
                name@,
                #[trigger] final(done).deep_view()[x],
            ),
        r is Ok ==> final(done).deep_view().contains(name@),
        r is Err ==> ((r->Err_0 matches Error::CyclicFeatureGraph(c) && reaches(t@, name@, c@)
            && cycles_at(t@, c@)) || (r->Err_0 matches Error::UnresolvedFeatureDependency(m)
            && reaches(t@, name@, m@) && !table_has(t@, m@))),
    decreases t@.len() + 1 - old(stack).deep_view().len(),
{
    let ghost tv = t@;
    let ghost st0 = stack.deep_view();
    let ghost dn0 = done.deep_view();
    if crate::bytes::byte_list_contains(stack, name) {
        proof {
            lemma_reaches_refl(tv, name@);
            let j0 = choose|j0: int| 0 <= j0 < st0.len() && st0[j0] == name@;
            let p = st0.subrange(j0, st0.len() as int).push(name@);
            assert(p[0] == name@);
            assert(p.last() == name@);
            assert(p.len() >= 2);
            assert forall|i: int| 0 <= i < p.len() - 1 implies table_has(tv, #[trigger] p[i])
                && entry_edges(tv, p[i]).contains(p[i + 1]) by {
                assert(p[i] == st0[j0 + i]);
                if i + 1 < p.len() - 1 {
                    assert(p[i + 1] == st0[j0 + i + 1]);
                } else {
                    assert(p[i + 1] == name@);
                    assert(j0 + i == st0.len() - 1);
                    assert(st0[j0 + i] == st0.last());
                }
            }
            assert(cycles_at(tv, name@));
        }
        return Err(Error::CyclicFeatureGraph(crate::bytes::dup_bytes(name)));
    }
    if crate::bytes::byte_list_contains(done, name) {
        return Ok(());
    }
    let idx = match t.find_index(name) {
        None => {
            proof {
                lemma_reaches_refl(tv, name@);
            }
            return Err(Error::UnresolvedFeatureDependency(crate::bytes::dup_bytes(name)));
        },
        Some(i) => i,
    };
    stack.push(crate::bytes::dup_bytes(name));
    proof {
        assert(stack.deep_view() =~~= st0.push(name@));
        assert(stack_ok(tv, stack.deep_view())) by {
            let st1 = st0.push(name@);
            assert(st1.drop_last() =~= st0);
            assert forall|i: int| 0 <= i < st1.len() implies table_has(tv, #[trigger] st1[i]) by {
                if i < st0.len() {
                    assert(st1[i] == st0[i]);
                } else {
                    lemma_has_at(tv, idx as int);
                }
            }
            assert forall|i: int| 0 <= i < st1.len() - 1 implies entry_edges(
                tv,
                #[trigger] st1[i],
            ).contains(st1[i + 1]) by {
                if i < st0.len() - 1 {
                    assert(st1[i] == st0[i]);
                    assert(st1[i + 1] == st0[i + 1]);
                } else {
                    assert(st1[i] == st0.last());
                    assert(st1[i + 1] == name@);
                }
            }
        }
        lemma_name_list_bound(tv, stack.deep_view());
    }
    let ghost st1 = stack.deep_view();
    let edge_count = t.entries[idx].edges.len();
    let mut j: usize = 0;
    while j < edge_count
        invariant
            table_wf(tv),
            tv == t@,
            idx < t.entries.len(),
            tv[idx as int].name == name@,
            table_find(tv, name@) == Some(tv[idx as int]),
            edge_count == t.entries@[idx as int].edges.len(),
            j <= edge_count,
            st0 == old(stack).deep_view(),
            dn0 == old(done).deep_view(),
            st1 == st0.push(name@),
            st1.len() <= tv.len(),
            stack.deep_view() == st1,
            stack_ok(tv, st1),
            done.deep_view().no_duplicates(),
            done_has(tv, done.deep_view()),
            done_closed(tv, done.deep_view()),
            dn0.is_prefix_of(done.deep_view()),
            forall|i: int|
                0 <= i < st1.len() ==> !done.deep_view().contains(#[trigger] st1[i]),
            out.deep_view() == done_deps(tv, done.deep_view()),
            forall|x: int|
                dn0.len() <= x < done.deep_view().len() ==> reaches(
                    tv,
                    name@,
                    #[trigger] done.deep_view()[x],
                ),
            forall|jj: int|
                0 <= jj < j ==> done.deep_view().contains(
                    #[trigger] entry_edges(tv, name@)[jj],
                ),
        decreases edge_count - j,
    {
        proof {
            assert(entry_edges(tv, name@) == tv[idx as int].edges);
            assert(tv[idx as int] == t.entries@[idx as int].deep_view());
            assert(t.entries@[idx as int].edges.deep_view()[j as int] == t.entries@[idx as int].edges@[j as int]@);
            assert(entry_edges(tv, name@).contains(entry_edges(tv, name@)[j as int]));
            assert(st1.last() == name@);
        }
        let ghost dmid = done.deep_view();
        let r = dfs(t, &t.entries[idx].edges[j], stack, done, out);
        proof {
            lemma_reaches_refl(tv, name@);
            lemma_reaches_step(tv, name@, name@, entry_edges(tv, name@)[j as int]);
        }
        match r {
            Err(e) => {
                proof {
                    let ghost ed = entry_edges(tv, name@)[j as int];
                    if e is CyclicFeatureGraph {
                        lemma_reaches_trans(tv, name@, ed, (e->CyclicFeatureGraph_0)@);
                    }
                    if e is UnresolvedFeatureDependency {
                        lemma_reaches_trans(tv, name@, ed, (e->UnresolvedFeatureDependency_0)@);
                    }
                    assert forall|x: int|
                        dn0.len() <= x < done.deep_view().len() implies reaches(
                        tv,
                        name@,
                        #[trigger] done.deep_view()[x],
                    ) by {
                        if x < dmid.len() {
                            assert(done.deep_view()[x] == dmid[x]);
                        } else {
                            lemma_reaches_trans(tv, name@, ed, done.deep_view()[x]);
                        }
                    }
                    assert(dn0.is_prefix_of(done.deep_view())) by {
                        assert(dn0 =~= done.deep_view().take(dn0.len() as int));
                    }
                    assert forall|i: int| 0 <= i < st0.len() implies !done.deep_view().contains(
                        #[trigger] st0[i],
                    ) by {
                        assert(st1[i] == st0[i]);
                    }
                }
                let _ = stack.pop();
                proof {
                    assert(stack.deep_view() =~= st1.drop_last());
                    assert(st1.drop_last() =~= st0);
                }
                return Err(e);
            },
            Ok(()) => {},
        }
        proof {
            let ghost ed = entry_edges(tv, name@)[j as int];
            assert forall|x: int|
                dn0.len() <= x < done.deep_view().len() implies reaches(
                tv,
                name@,
                #[trigger] done.deep_view()[x],
            ) by {
                if x < dmid.len() {
                    assert(done.deep_view()[x] == dmid[x]);
                } else {
                    lemma_reaches_trans(tv, name@, ed, done.deep_view()[x]);
                }
            }
            assert(dn0.is_prefix_of(done.deep_view())) by {
                assert(dn0 =~= done.deep_view().take(dn0.len() as int));
            }
            assert forall|jj: int| 0 <= jj < j + 1 implies done.deep_view().contains(
                #[trigger] entry_edges(tv, name@)[jj],
            ) by {
                if jj < j {
                    let w = choose|w: int| 0 <= w < dmid.len() && dmid[w] == entry_edges(tv, name@)[jj];
                    assert(done.deep_view()[w] == dmid[w]);
                }
            }
        }
        j += 1;
    }
    let _ = stack.pop();
    proof {
        assert(stack.deep_view() =~= st1.drop_last());
        assert(st1.drop_last() =~= st0);
    }
    let ghost dpre = done.deep_view();
    done.push(crate::bytes::dup_bytes(name));
    let ghost dnew = done.deep_view();
    proof {
        assert(dnew =~~= dpre.push(name@));
        assert(!dpre.contains(name@)) by {
            assert(st1[st1.len() - 1] == name@);
        }
        assert(dnew.no_duplicates());
        assert forall|i: int| 0 <= i < dnew.len() implies table_has(tv, #[trigger] dnew[i]) by {
            if i < dpre.len() {
                assert(dnew[i] == dpre[i]);
            } else {
                assert(dnew[i] == name@);
            }
        }
        assert forall|i: int, j2: int|
            0 <= i < dnew.len() && 0 <= j2 < entry_edges(tv, dnew[i]).len() implies dnew.take(
            i,
        ).contains(#[trigger] entry_edges(tv, dnew[i])[j2]) by {
            if i < dpre.len() {
                assert(dnew[i] == dpre[i]);
                assert(dnew.take(i) =~= dpre.take(i));
                assert(dpre.take(i).contains(entry_edges(tv, dpre[i])[j2]));
            } else {
                assert(dnew[i] == name@);
                assert(dnew.take(i) =~= dpre);
                assert(dpre.contains(entry_edges(tv, name@)[j2]));
            }
        }
        assert(done_closed(tv, dnew));
        assert forall|i: int| 0 <= i < st0.len() implies !dnew.contains(#[trigger] st0[i]) by {
            assert(st1[i] == st0[i]);
            if dnew.contains(st0[i]) {
                let w = choose|w: int| 0 <= w < dnew.len() && dnew[w] == st0[i];
                if w < dpre.len() {
                    assert(dpre[w] == st0[i]);
                } else {
                    assert(name@ == st0[i]);
                    assert(st1[st1.len() - 1] == name@);
                }
            }
        }
        assert(dn0.is_prefix_of(dnew)) by {
            assert(dn0 =~= dnew.take(dn0.len() as int));
        }
        assert forall|x: int| dn0.len() <= x < dnew.len() implies reaches(
            tv,
            name@,
            #[trigger] dnew[x],
        ) by {
            if x < dpre.len() {
                assert(dnew[x] == dpre[x]);
            } else {
                assert(dnew[x] == name@);
                lemma_reaches_refl(tv, name@);
            }
        }
        assert(dnew.contains(name@)) by {
            assert(dnew[dnew.len() - 1] == name@);
        }
    }
    let dep_count = t.entries[idx].deps.len();
    let ghost opre = out.deep_view();
    let mut k: usize = 0;
    while k < dep_count
        invariant
            tv == t@,
            idx < t.entries.len(),
            dep_count == t.entries@[idx as int].deps.len(),
            k <= dep_count,
            out.deep_view() == opre + tv[idx as int].deps.take(k as int),
        decreases dep_count - k,
    {
        proof {
            assert(tv[idx as int] == t.entries@[idx as int].deep_view());
            assert(tv[idx as int].deps[k as int] == t.entries@[idx as int].deps@[k as int].deep_view());
        }
        let ghost obefore = out.deep_view();
        out.push(t.entries[idx].deps[k].dup());
        proof {
            assert(out.deep_view() =~= obefore.push(tv[idx as int].deps[k as int]));
            assert(out.deep_view() =~= opre + tv[idx as int].deps.take(k + 1 as int));
        }
        k += 1;
    }
    proof {
        assert(tv[idx as int].deps.take(dep_count as int) =~= tv[idx as int].deps);
        assert(entry_deps(tv, name@) == tv[idx as int].deps);
        assert(dnew.drop_last() =~= dpre);
        assert(done_deps(tv, dnew) == done_deps(tv, dpre) + entry_deps(tv, name@));
        assert(out.deep_view() =~= done_deps(tv, dnew));
    }
    Ok(())
}

/// A topologically ordered, duplicate-free list of table features that
/// contains `feature` holds everything reachable from it, and rules out
/// reachable cycles and reachable missing names.
/// A topologically ordered, duplicate-free list of table features that
/// contains `feature` holds everything reachable from it.
proof fn lemma_closure_complete(t: Seq<EntryView>, feature: Seq<u8>, names: Seq<Seq<u8>>)
    requires
        done_closed(t, names),
        names.no_duplicates(),
        names.contains(feature),
    ensures
        forall|c: Seq<u8>| reaches(t, feature, c) ==> names.contains(c),
{
    assert forall|c: Seq<u8>| reaches(t, feature, c) implies names.contains(c) by {
        let p = choose|p: Seq<Seq<u8>>|
            is_path(t, p) && p.len() >= 1 && p[0] == feature && p.last() == c;
        lemma_path_stays(t, names, p);
    }
}

/// No cycle is reachable from a feature of such a list.
proof fn lemma_closure_acyclic(t: Seq<EntryView>, feature: Seq<u8>, names: Seq<Seq<u8>>)
    requires
        done_closed(t, names),
        names.no_duplicates(),
        names.contains(feature),
    ensures
        !has_cycle_from(t, feature),
{
    if has_cycle_from(t, feature) {
        let c = choose|c: Seq<u8>| reaches(t, feature, c) && cycles_at(t, c);
        lemma_closure_complete(t, feature, names);
        lemma_closed_no_cycle(t, names, c);
    }
}

/// Every name reachable from a feature of such a list has an entry.
proof fn lemma_closure_resolved(t: Seq<EntryView>, feature: Seq<u8>, names: Seq<Seq<u8>>)
    requires
        done_closed(t, names),
        names.no_duplicates(),
        done_has(t, names),
        names.contains(feature),
    ensures
        !missing_from(t, feature),
{
    if missing_from(t, feature) {
        let c = choose|c: Seq<u8>| reaches(t, feature, c) && !table_has(t, c);
        let p = choose|p: Seq<Seq<u8>>|
            is_path(t, p) && p.len() >= 1 && p[0] == feature && p.last() == c;
        lemma_path_stays(t, names, p);
        let w = choose|w: int| 0 <= w < names.len() && names[w] == c;
        assert(table_has(t, names[w]));
    }
}

/// A package with no features section and no non-development dependencies
/// has an empty dependency closure for every feature set: the built table
/// holds only the base and default entries, both without dependencies, so
/// any closure over it (the default feature's included) yields no package
/// dependency.
pub proof fn lemma_featureless_closure_empty(deps: Seq<DepView>, names: Seq<Seq<u8>>)
    requires
        forall|i: int| 0 <= i < deps.len() ==> (#[trigger] deps[i]).kind is Development,
        done_has(crate::table::built_table(deps, Seq::<crate::table::DeclView>::empty()), names),
    ensures
        done_deps(crate::table::built_table(deps, Seq::<crate::table::DeclView>::empty()), names)
            == Seq::<DepView>::empty(),
    decreases names.len(),
{
    let decls = Seq::<crate::table::DeclView>::empty();
    let t = crate::table::built_table(deps, decls);
    if names.len() > 0 {
        assert(done_has(t, names.drop_last())) by {
            assert(forall|i: int|
                0 <= i < names.drop_last().len() ==> #[trigger] names.drop_last()[i] == names[i]);
        }
        lemma_featureless_closure_empty(deps, names.drop_last());
        let n = names.last();
        assert(table_has(t, n)) by {
            assert(names[names.len() - 1] == n);
        }
        assert(entry_deps(t, n) == Seq::<DepView>::empty()) by {
            crate::provides::lemma_find_is_entry(t, n);
            let i = choose|i: int| 0 <= i < t.len() && #[trigger] t[i] == table_find(t, n)->Some_0;
            crate::table::lemma_required_all_dev(deps, decls);
            crate::table::lemma_optional_entries_all_dev(
                deps,
                seq![crate::table::base_entry(deps, decls)] + crate::table::decl_entries(
                    deps,
                    decls,
                ),
                deps.len() as int,
            );
            assert(crate::table::decl_entries(deps, decls) =~= Seq::<EntryView>::empty());
            let t1 = seq![crate::table::base_entry(deps, decls)] + crate::table::decl_entries(
                deps,
                decls,
            );
            let t2 = t1 + crate::table::optional_entries(deps, t1, deps.len() as int);
            assert(t2 =~= t1);
            assert(t1 =~= seq![crate::table::base_entry(deps, decls)]);
            assert(forall|x: int|
                0 <= x < t.len() ==> (#[trigger] t[x]).deps == Seq::<DepView>::empty());
        }
        assert(done_deps(t, names) =~= done_deps(t, names.drop_last()) + entry_deps(t, n));
        assert(done_deps(t, names) =~= Seq::<DepView>::empty());
    }
}

impl FeatureTable {
    /// The transitive closure of `feature`: the set of features reachable
    /// over the table's edges (as a duplicate-free list in finish order,
    /// `feature` included) and the concatenation of their dependency lists.
    /// Fails with `CyclicFeatureGraph` when a reachable feature references
    /// itself, directly or indirectly, and with
    /// `UnresolvedFeatureDependency` when a reachable feature name has no
    /// entry; succeeds exactly when neither occurs.
    #[verifier::rlimit(100)]
    pub fn transitive_closure(&self, feature: &Vec<u8>) -> (r: Result<
        (Vec<Vec<u8>>, Vec<PackageDependency>),
        Error,
    >)
        requires
            table_wf(self@),
        ensures
            (r is Ok) == (!has_cycle_from(self@, feature@) && !missing_from(self@, feature@)),
            r is Ok ==> (r->Ok_0).0.deep_view().no_duplicates(),
            r is Ok ==> (r->Ok_0).0.deep_view().contains(feature@),
            r is Ok ==> forall|x: int|
                0 <= x < (r->Ok_0).0.deep_view().len() ==> reaches(
                    self@,
                    feature@,
                    #[trigger] (r->Ok_0).0.deep_view()[x],
                ) && table_has(self@, (r->Ok_0).0.deep_view()[x]),
            r is Ok ==> forall|c: Seq<u8>|
                reaches(self@, feature@, c) ==> (r->Ok_0).0.deep_view().contains(c),
            r is Ok ==> (r->Ok_0).1.deep_view() == done_deps(self@, (r->Ok_0).0.deep_view()),
            r is Err ==> ((r->Err_0 matches Error::CyclicFeatureGraph(c) && reaches(
                self@,
                feature@,
                c@,
            ) && cycles_at(self@, c@)) || (r->Err_0 matches Error::UnresolvedFeatureDependency(m)
                && reaches(self@, feature@, m@) && !table_has(self@, m@))),
    {
        let ghost tv = self@;
        let mut stack: Vec<Vec<u8>> = Vec::new();
        let mut done: Vec<Vec<u8>> = Vec::new();
        let mut out: Vec<PackageDependency> = Vec::new();
        proof {
            assert(stack.deep_view() =~= Seq::<Seq<u8>>::empty());
            assert(done.deep_view() =~= Seq::<Seq<u8>>::empty());
            assert(out.deep_view() =~= Seq::<DepView>::empty());
        }
        let r = dfs(self, feature, &mut stack, &mut done, &mut out);
        match r {
            Err(e) => {
                proof {
                    if e is CyclicFeatureGraph {
                        assert(has_cycle_from(tv, feature@));
                    } else {
                        assert(missing_from(tv, feature@));
                    }
                }
                Err(e)
            },
            Ok(()) => {
                proof {
                    lemma_closure_complete(tv, feature@, done.deep_view());
                    lemma_closure_acyclic(tv, feature@, done.deep_view());
                    lemma_closure_resolved(tv, feature@, done.deep_view());
                }
                Ok((done, out))
            },
        }
    }
}

} // verus!
