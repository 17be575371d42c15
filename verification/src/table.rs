//! Building the feature table: the mapping from feature name to its ordered
//! feature references and its package dependencies, as declared in the
//! manifest and completed with the implicit base and default features.

use vstd::prelude::*;
use crate::bytes::{empty_name, default_name};
use crate::deps::{DepView, DepKind, PackageDependency, sub_feature_view};
use crate::errors::Error;

verus! {

/// One raw edge of a declared feature, already classified as one of the
/// three kinds a manifest may write.
pub enum RawEdge {
    /// Another feature of the same package.
    FeatureRef(Vec<u8>),
    /// An external dependency, activated unconditionally.
    PackageRef(Vec<u8>),
    /// A named sub-feature of an external dependency.
    QualifiedRef(Vec<u8>, Vec<u8>),
}

#[verifier::ext_equal]
pub enum EdgeView {
    FeatureRef(Seq<u8>),
    PackageRef(Seq<u8>),
    QualifiedRef(Seq<u8>, Seq<u8>),
}

impl View for RawEdge {
    type V = EdgeView;

    open spec fn view(&self) -> EdgeView {
        match self {
            RawEdge::FeatureRef(f) => EdgeView::FeatureRef(f@),
            RawEdge::PackageRef(n) => EdgeView::PackageRef(n@),
            RawEdge::QualifiedRef(n, s) => EdgeView::QualifiedRef(n@, s@),
        }
    }
}

impl DeepView for RawEdge {
    type V = EdgeView;

    open spec fn deep_view(&self) -> EdgeView {
        self.view()
    }
}

/// A feature as declared in the manifest: its name and its raw edge list.
pub struct FeatureDecl {
    pub name: Vec<u8>,
    pub edges: Vec<RawEdge>,
}

#[verifier::ext_equal]
pub struct DeclView {
    pub name: Seq<u8>,
    pub edges: Seq<EdgeView>,
}

impl View for FeatureDecl {
    type V = DeclView;

    open spec fn view(&self) -> DeclView {
        DeclView { name: self.name@, edges: self.edges.deep_view() }
    }
}

impl DeepView for FeatureDecl {
    type V = DeclView;

    open spec fn deep_view(&self) -> DeclView {
        self.view()
    }
}

/// One resolved row of the feature table.
pub struct FeatureEntry {
    pub name: Vec<u8>,
    /// Ordered references to sibling features; the base feature comes first.
    pub edges: Vec<Vec<u8>>,
    /// The package dependencies this feature activates directly.
    pub deps: Vec<PackageDependency>,
}

#[verifier::ext_equal]
pub struct EntryView {
    pub name: Seq<u8>,
    pub edges: Seq<Seq<u8>>,
    pub deps: Seq<DepView>,
}

impl View for FeatureEntry {
    type V = EntryView;

    open spec fn view(&self) -> EntryView {
        EntryView { name: self.name@, edges: self.edges.deep_view(), deps: self.deps.deep_view() }
    }
}

impl DeepView for FeatureEntry {
    type V = EntryView;

    open spec fn deep_view(&self) -> EntryView {
        self.view()
    }
}

/// The feature table: one entry per feature, names unique.
pub struct FeatureTable {
    pub entries: Vec<FeatureEntry>,
}

impl View for FeatureTable {
    type V = Seq<EntryView>;

    open spec fn view(&self) -> Seq<EntryView> {
        self.entries.deep_view()
    }
}

/// The non-development dependencies named `name`, in declaration order.
pub open spec fn dep_group(deps: Seq<DepView>, name: Seq<u8>) -> Seq<DepView>
    decreases deps.len(),
{
    if deps.len() == 0 {
        Seq::empty()
    } else {
        let rest = dep_group(deps.drop_last(), name);
        let d = deps.last();
        if !(d.kind is Development) && d.name == name {
            rest.push(d)
        } else {
            rest
        }
    }
}

/// `dep_group`, with each member overridden for one sub-feature.
pub open spec fn qualified_group(deps: Seq<DepView>, name: Seq<u8>, sub: Seq<u8>) -> Seq<DepView>
    decreases deps.len(),
{
    if deps.len() == 0 {
        Seq::empty()
    } else {
        let rest = qualified_group(deps.drop_last(), name, sub);
        let d = deps.last();
        if !(d.kind is Development) && d.name == name {
            rest.push(sub_feature_view(d, sub))
        } else {
            rest
        }
    }
}

/// The names of the sibling features an edge list references, in order.
pub open spec fn feature_refs(edges: Seq<EdgeView>) -> Seq<Seq<u8>>
    decreases edges.len(),
{
    if edges.len() == 0 {
        Seq::empty()
    } else {
        let rest = feature_refs(edges.drop_last());
        match edges.last() {
            EdgeView::FeatureRef(f) => rest.push(f),
            _ => rest,
        }
    }
}

/// The full edge list of a declared feature: the base feature first, then
/// the declared feature references in order.
pub open spec fn decl_edges(edges: Seq<EdgeView>) -> Seq<Seq<u8>> {
    seq![empty_name()] + feature_refs(edges)
}

/// The package dependencies an edge list activates, in edge order.
pub open spec fn edge_deps(deps: Seq<DepView>, edges: Seq<EdgeView>) -> Seq<DepView>
    decreases edges.len(),
{
    if edges.len() == 0 {
        Seq::empty()
    } else {
        let rest = edge_deps(deps, edges.drop_last());
        match edges.last() {
            EdgeView::FeatureRef(_) => rest,
            EdgeView::PackageRef(n) => rest + dep_group(deps, n),
            EdgeView::QualifiedRef(n, s) => rest + qualified_group(deps, n, s),
        }
    }
}

/// An edge resolves when it is a feature reference or names a package with
/// at least one non-development dependency entry.
pub open spec fn edge_resolved(deps: Seq<DepView>, e: EdgeView) -> bool {
    match e {
        EdgeView::FeatureRef(_) => true,
        EdgeView::PackageRef(n) => dep_group(deps, n).len() > 0,
        EdgeView::QualifiedRef(n, _) => dep_group(deps, n).len() > 0,
    }
}

pub open spec fn decl_resolved(deps: Seq<DepView>, d: DeclView) -> bool {
    forall|j: int| 0 <= j < d.edges.len() ==> edge_resolved(deps, d.edges[j])
}

/// Every edge of every declared feature (the overridden base declaration
/// aside) resolves.
pub open spec fn all_resolved(deps: Seq<DepView>, decls: Seq<DeclView>) -> bool {
    forall|i: int|
        0 <= i < decls.len() && decls[i].name != empty_name() ==> decl_resolved(deps, decls[i])
}

/// Some edge names package `n`, and no non-development dependency has that
/// name.
pub open spec fn unresolved_name(deps: Seq<DepView>, decls: Seq<DeclView>, n: Seq<u8>) -> bool {
    dep_group(deps, n).len() == 0 && exists|i: int, j: int|
        0 <= i < decls.len() && decls[i].name != empty_name() && 0 <= j < decls[i].edges.len()
            && (decls[i].edges[j] == EdgeView::PackageRef(n) || (decls[i].edges[j] matches
        EdgeView::QualifiedRef(m, _) && m == n))
}

pub open spec fn is_declared(decls: Seq<DeclView>, n: Seq<u8>) -> bool {
    exists|i: int| 0 <= i < decls.len() && decls[i].name == n
}

/// The dependency list of the base feature: every non-development
/// dependency that is required, or that is optional but shadowed by an
/// explicitly declared feature of the same name.
pub open spec fn required_deps(deps: Seq<DepView>, decls: Seq<DeclView>) -> Seq<DepView>
    decreases deps.len(),
{
    if deps.len() == 0 {
        Seq::empty()
    } else {
        let rest = required_deps(deps.drop_last(), decls);
        let d = deps.last();
        if !(d.kind is Development) && (!d.optional || is_declared(decls, d.name)) {
            rest.push(d)
        } else {
            rest
        }
    }
}

pub open spec fn is_optional_name(deps: Seq<DepView>, n: Seq<u8>) -> bool {
    exists|i: int|
        0 <= i < deps.len() && !(deps[i].kind is Development) && deps[i].optional && deps[i].name
            == n
}

/// The optional non-development dependencies named `n`, in order.
pub open spec fn optional_group(deps: Seq<DepView>, n: Seq<u8>) -> Seq<DepView>
    decreases deps.len(),
{
    if deps.len() == 0 {
        Seq::empty()
    } else {
        let rest = optional_group(deps.drop_last(), n);
        let d = deps.last();
        if !(d.kind is Development) && d.optional && d.name == n {
            rest.push(d)
        } else {
            rest
        }
    }
}

/// The entry for a feature name, if the table holds one.
pub open spec fn table_find(t: Seq<EntryView>, n: Seq<u8>) -> Option<EntryView>
    decreases t.len(),
{
    if t.len() == 0 {
        None
    } else if t.last().name == n {
        Some(t.last())
    } else {
        table_find(t.drop_last(), n)
    }
}

pub open spec fn table_has(t: Seq<EntryView>, n: Seq<u8>) -> bool {
    table_find(t, n) is Some
}

/// Well-formedness of a table: feature names are unique.
pub open spec fn table_wf(t: Seq<EntryView>) -> bool {
    forall|i: int, j: int| 0 <= i < j < t.len() ==> t[i].name != t[j].name
}

/// A name is found exactly when some entry carries it.
pub proof fn lemma_table_has_index(t: Seq<EntryView>, n: Seq<u8>)
    ensures
        table_has(t, n) <==> exists|i: int| 0 <= i < t.len() && t[i].name == n,
    decreases t.len(),
{
    if t.len() > 0 {
        lemma_table_has_index(t.drop_last(), n);
        if t.last().name == n {
            assert(t[t.len() - 1].name == n);
        } else if exists|i: int| 0 <= i < t.drop_last().len() && t.drop_last()[i].name == n {
            let i = choose|i: int| 0 <= i < t.drop_last().len() && t.drop_last()[i].name == n;
            assert(t[i].name == n);
        } else if exists|i: int| 0 <= i < t.len() && t[i].name == n {
            let i = choose|i: int| 0 <= i < t.len() && t[i].name == n;
            assert(i < t.len() - 1 ==> t.drop_last()[i].name == n);
        }
    }
}

/// Any entry's name is found.
pub proof fn lemma_has_at(t: Seq<EntryView>, i: int)
    requires
        0 <= i < t.len(),
    ensures
        table_has(t, t[i].name),
    decreases t.len(),
{
    if i < t.len() - 1 {
        lemma_has_at(t.drop_last(), i);
        assert(t.drop_last()[i] == t[i]);
    }
}

/// In a well-formed table, finding a name yields the entry at any index
/// that carries it.
pub proof fn lemma_table_find_at(t: Seq<EntryView>, i: int)
    requires
        table_wf(t),
        0 <= i < t.len(),
    ensures
        table_find(t, t[i].name) == Some(t[i]),
    decreases t.len(),
{
    if i == t.len() - 1 {
        assert(t.last() == t[i]);
    } else {
        assert(t.last().name != t[i].name);
        assert(table_wf(t.drop_last())) by {
            assert forall|a: int, b: int| 0 <= a < b < t.drop_last().len() implies t.drop_last()[a].name
                != t.drop_last()[b].name by {
                assert(t.drop_last()[a] == t[a]);
                assert(t.drop_last()[b] == t[b]);
            }
        }
        assert(t.drop_last()[i] == t[i]);
        lemma_table_find_at(t.drop_last(), i);
    }
}

/// The base feature's entry: no edges, the required dependencies.
pub open spec fn base_entry(deps: Seq<DepView>, decls: Seq<DeclView>) -> EntryView {
    EntryView { name: empty_name(), edges: Seq::empty(), deps: required_deps(deps, decls) }
}

/// The entry a feature declaration produces.
pub open spec fn decl_entry(deps: Seq<DepView>, d: DeclView) -> EntryView {
    EntryView { name: d.name, edges: decl_edges(d.edges), deps: edge_deps(deps, d.edges) }
}

/// The entries of the declared features, in declaration order; a
/// declaration of the base feature itself is superseded by `base_entry`.
pub open spec fn decl_entries(deps: Seq<DepView>, decls: Seq<DeclView>) -> Seq<EntryView>
    decreases decls.len(),
{
    if decls.len() == 0 {
        Seq::empty()
    } else {
        let rest = decl_entries(deps, decls.drop_last());
        let d = decls.last();
        if d.name == empty_name() {
            rest
        } else {
            rest.push(decl_entry(deps, d))
        }
    }
}

/// The singleton entry an optional dependency turns into.
pub open spec fn optional_entry(deps: Seq<DepView>, n: Seq<u8>) -> EntryView {
    EntryView { name: n, edges: seq![empty_name()], deps: optional_group(deps, n) }
}

/// The entries added for the first `k` dependencies: each optional
/// non-development dependency whose name the table does not yet carry.
pub open spec fn optional_entries(deps: Seq<DepView>, prior: Seq<EntryView>, k: int) -> Seq<
    EntryView,
>
    decreases k,
{
    if k <= 0 {
        Seq::empty()
    } else {
        let rest = optional_entries(deps, prior, k - 1);
        let d = deps[k - 1];
        if !(d.kind is Development) && d.optional && !table_has(prior + rest, d.name) {
            rest.push(optional_entry(deps, d.name))
        } else {
            rest
        }
    }
}

/// The implicit default feature: the base feature and nothing else.
pub open spec fn default_entry() -> EntryView {
    EntryView { name: default_name(), edges: seq![empty_name()], deps: Seq::empty() }
}

/// The whole table `build_feature_table` produces.
pub open spec fn built_table(deps: Seq<DepView>, decls: Seq<DeclView>) -> Seq<EntryView> {
    let t1 = seq![base_entry(deps, decls)] + decl_entries(deps, decls);
    let t2 = t1 + optional_entries(deps, t1, deps.len() as int);
    if table_has(t2, default_name()) {
        t2
    } else {
        t2.push(default_entry())
    }
}


proof fn lemma_decl_entries_props(deps: Seq<DepView>, decls: Seq<DeclView>)
    ensures
        forall|x: int|
            0 <= x < decl_entries(deps, decls).len() ==> decl_entries(deps, decls)[x].name
                != empty_name(),
        forall|x: int|
            0 <= x < decl_entries(deps, decls).len() ==> exists|i: int|
                0 <= i < decls.len() && decls[i].name == #[trigger] decl_entries(deps, decls)[x].name,
        (forall|i: int, j: int| 0 <= i < j < decls.len() ==> decls[i].name != decls[j].name)
            ==> table_wf(decl_entries(deps, decls)),
    decreases decls.len(),
{
    if decls.len() > 0 {
        let prefix = decls.drop_last();
        lemma_decl_entries_props(deps, prefix);
        let rest = decl_entries(deps, prefix);
        let t = decl_entries(deps, decls);
        assert forall|x: int| 0 <= x < t.len() implies exists|i: int|
            0 <= i < decls.len() && decls[i].name == #[trigger] t[x].name by {
            if x < rest.len() {
                let i = choose|i: int| 0 <= i < prefix.len() && prefix[i].name == rest[x].name;
                assert(decls[i].name == t[x].name);
            } else {
                assert(decls[decls.len() - 1].name == t[x].name);
            }
        }
        if forall|i: int, j: int| 0 <= i < j < decls.len() ==> decls[i].name != decls[j].name {
            assert forall|a: int, b: int| 0 <= a < b < t.len() implies t[a].name != t[b].name by {
                if b < rest.len() {
                } else if decls.last().name != empty_name() {
                    assert(t[b].name == decls.last().name);
                    let i = choose|i: int|
                        0 <= i < prefix.len() && prefix[i].name == rest[a].name;
                    assert(decls[i].name == rest[a].name);
                    assert(decls[i].name != decls.last().name);
                }
            }
        }
    }
}

proof fn lemma_wf_push(t: Seq<EntryView>, e: EntryView)
    requires
        table_wf(t),
        !table_has(t, e.name),
    ensures
        table_wf(t.push(e)),
{
    lemma_table_has_index(t, e.name);
    assert forall|a: int, b: int| 0 <= a < b < t.push(e).len() implies t.push(e)[a].name != t.push(
        e,
    )[b].name by {
        if b < t.len() {
        } else {
            assert(t.push(e)[a] == t[a]);
        }
    }
}

proof fn lemma_optional_entries_wf(deps: Seq<DepView>, prior: Seq<EntryView>, k: int)
    requires
        table_wf(prior),
    ensures
        table_wf(prior + optional_entries(deps, prior, k)),
    decreases k,
{
    if k <= 0 {
        assert(prior + optional_entries(deps, prior, k) =~= prior);
    } else {
        lemma_optional_entries_wf(deps, prior, k - 1);
        let rest = optional_entries(deps, prior, k - 1);
        let d = deps[k - 1];
        if !(d.kind is Development) && d.optional && !table_has(prior + rest, d.name) {
            lemma_wf_push(prior + rest, optional_entry(deps, d.name));
            assert(prior + optional_entries(deps, prior, k) =~= (prior + rest).push(
                optional_entry(deps, d.name),
            ));
        } else {
            assert(optional_entries(deps, prior, k) == rest);
        }
    }
}

/// The table `build_feature_table` produces has unique feature names.
pub proof fn lemma_built_table_wf(deps: Seq<DepView>, decls: Seq<DeclView>)
    requires
        forall|i: int, j: int| 0 <= i < j < decls.len() ==> decls[i].name != decls[j].name,
    ensures
        table_wf(built_table(deps, decls)),
{
    lemma_decl_entries_props(deps, decls);
    let de = decl_entries(deps, decls);
    let t1 = seq![base_entry(deps, decls)] + de;
    assert forall|a: int, b: int| 0 <= a < b < t1.len() implies t1[a].name != t1[b].name by {
        if a == 0 {
            assert(t1[a].name == empty_name());
            assert(t1[b] == de[b - 1]);
        } else {
            assert(t1[a] == de[a - 1]);
            assert(t1[b] == de[b - 1]);
        }
    }
    lemma_optional_entries_wf(deps, t1, deps.len() as int);
    let t2 = t1 + optional_entries(deps, t1, deps.len() as int);
    if !table_has(t2, default_name()) {
        lemma_wf_push(t2, default_entry());
    }
}

/// Every entry that optional dependencies add carries an optional
/// dependency's name.
proof fn lemma_optional_entries_names(deps: Seq<DepView>, prior: Seq<EntryView>, k: int)
    requires
        k <= deps.len(),
    ensures
        forall|x: int|
            0 <= x < optional_entries(deps, prior, k).len() ==> is_optional_name(
                deps,
                (#[trigger] optional_entries(deps, prior, k)[x]).name,
            ),
    decreases k,
{
    if k > 0 {
        lemma_optional_entries_names(deps, prior, k - 1);
        let rest = optional_entries(deps, prior, k - 1);
        let oe = optional_entries(deps, prior, k);
        let d = deps[k - 1];
        assert forall|x: int| 0 <= x < oe.len() implies is_optional_name(
            deps,
            (#[trigger] oe[x]).name,
        ) by {
            if x < rest.len() {
                assert(oe[x] == rest[x]);
            } else {
                assert(oe[x].name == d.name);
                assert(0 <= k - 1 < deps.len() && !(deps[k - 1].kind is Development) && deps[k
                    - 1].optional && deps[k - 1].name == d.name);
            }
        }
    }
}

/// A package with no features section still gets the implicit default
/// feature: after the build it is present, references only the base
/// feature and carries no dependencies of its own.
pub proof fn lemma_featureless_default(deps: Seq<DepView>, decls: Seq<DeclView>)
    requires
        decls.len() == 0,
        !is_optional_name(deps, default_name()),
    ensures
        table_find(built_table(deps, decls), default_name()) == Some(default_entry()),
{
    let base = base_entry(deps, decls);
    let t1 = seq![base] + decl_entries(deps, decls);
    assert(decl_entries(deps, decls) =~= Seq::<EntryView>::empty());
    assert(t1 =~= seq![base]);
    let oe = optional_entries(deps, t1, deps.len() as int);
    lemma_optional_entries_names(deps, t1, deps.len() as int);
    let t2 = t1 + oe;
    assert(!table_has(t2, default_name())) by {
        lemma_table_has_index(t2, default_name());
        if exists|i: int| 0 <= i < t2.len() && t2[i].name == default_name() {
            let i = choose|i: int| 0 <= i < t2.len() && t2[i].name == default_name();
            if i == 0 {
                assert(t2[0].name == empty_name());
                assert(empty_name().len() == 0 && default_name().len() == 7);
            } else {
                assert(t2[i] == oe[i - 1]);
            }
        }
    }
    assert(built_table(deps, decls) == t2.push(default_entry()));
    assert(table_find(t2.push(default_entry()), default_name()) == Some(default_entry()));
}

/// With no non-development dependencies at all, the base feature's
/// dependency list is empty.
pub proof fn lemma_required_all_dev(deps: Seq<DepView>, decls: Seq<DeclView>)
    requires
        forall|i: int| 0 <= i < deps.len() ==> (#[trigger] deps[i]).kind is Development,
    ensures
        required_deps(deps, decls) == Seq::<DepView>::empty(),
    decreases deps.len(),
{
    if deps.len() > 0 {
        assert(forall|i: int|
            0 <= i < deps.drop_last().len() ==> #[trigger] deps.drop_last()[i] == deps[i]);
        lemma_required_all_dev(deps.drop_last(), decls);
        assert(deps[deps.len() - 1].kind is Development);
    }
}

/// With no non-development dependencies, no optional-dependency features
/// are added either.
pub proof fn lemma_optional_entries_all_dev(deps: Seq<DepView>, prior: Seq<EntryView>, k: int)
    requires
        k <= deps.len(),
        forall|i: int| 0 <= i < deps.len() ==> (#[trigger] deps[i]).kind is Development,
    ensures
        optional_entries(deps, prior, k) == Seq::<EntryView>::empty(),
    decreases k,
{
    if k > 0 {
        lemma_optional_entries_all_dev(deps, prior, k - 1);
        if 0 <= k - 1 < deps.len() {
            assert(deps[k - 1].kind is Development);
        }
    }
}

/// Whether some declaration carries the name `n`.
fn is_declared_exec(decls: &Vec<FeatureDecl>, n: &Vec<u8>) -> (r: bool)
    ensures
        r == is_declared(decls.deep_view(), n@),
{
    let mut i: usize = 0;
    while i < decls.len()
        invariant
            i <= decls.len(),
            forall|j: int| 0 <= j < i ==> decls.deep_view()[j].name != n@,
        decreases decls.len() - i,
    {
        proof {
            assert(decls.deep_view()[i as int] == decls@[i as int].deep_view());
        }
        if crate::bytes::bytes_eq(&decls[i].name, n) {
            assert(decls.deep_view()[i as int].name == n@);
            return true;
        }
        i += 1;
    }
    false
}

/// Whether the table already holds an entry named `n`.
fn table_contains(entries: &Vec<FeatureEntry>, n: &Vec<u8>) -> (r: bool)
    ensures
        r == table_has(entries.deep_view(), n@),
{
    proof {
        lemma_table_has_index(entries.deep_view(), n@);
    }
    let mut i: usize = 0;
    while i < entries.len()
        invariant
            i <= entries.len(),
            forall|j: int| 0 <= j < i ==> entries.deep_view()[j].name != n@,
        decreases entries.len() - i,
    {
        proof {
            assert(entries.deep_view()[i as int] == entries@[i as int].deep_view());
        }
        if crate::bytes::bytes_eq(&entries[i].name, n) {
            proof {
                assert(entries.deep_view()[i as int].name == n@);
                lemma_has_at(entries.deep_view(), i as int);
            }
            return true;
        }
        i += 1;
    }
    false
}

/// The base feature's dependency list.
fn collect_required(deps: &Vec<PackageDependency>, decls: &Vec<FeatureDecl>) -> (r: Vec<
    PackageDependency,
>)
    ensures
        r.deep_view() == required_deps(deps.deep_view(), decls.deep_view()),
{
    let mut r: Vec<PackageDependency> = Vec::new();
    let mut i: usize = 0;
    while i < deps.len()
        invariant
            i <= deps.len(),
            r.deep_view() == required_deps(deps.deep_view().take(i as int), decls.deep_view()),
        decreases deps.len() - i,
    {
        proof {
            assert(deps.deep_view()[i as int] == deps@[i as int].deep_view());
            assert(deps.deep_view().take(i + 1 as int).drop_last() =~= deps.deep_view().take(
                i as int,
            ));
            assert(deps.deep_view().take(i + 1 as int).last() == deps.deep_view()[i as int]);
        }
        if deps[i].kind != DepKind::Development && (!deps[i].optional || is_declared_exec(
            decls,
            &deps[i].name,
        )) {
            r.push(deps[i].dup());
        }
        i += 1;
    }
    proof {
        assert(deps.deep_view().take(deps.len() as int) =~= deps.deep_view());
    }
    r
}

/// The optional dependencies named `n`, copied in order.
fn collect_optional_group(deps: &Vec<PackageDependency>, n: &Vec<u8>) -> (r: Vec<
    PackageDependency,
>)
    ensures
        r.deep_view() == optional_group(deps.deep_view(), n@),
{
    let mut r: Vec<PackageDependency> = Vec::new();
    let mut i: usize = 0;
    while i < deps.len()
        invariant
            i <= deps.len(),
            r.deep_view() == optional_group(deps.deep_view().take(i as int), n@),
        decreases deps.len() - i,
    {
        proof {
            assert(deps.deep_view()[i as int] == deps@[i as int].deep_view());
            assert(deps.deep_view().take(i + 1 as int).drop_last() =~= deps.deep_view().take(
                i as int,
            ));
            assert(deps.deep_view().take(i + 1 as int).last() == deps.deep_view()[i as int]);
        }
        if deps[i].kind != DepKind::Development && deps[i].optional && crate::bytes::bytes_eq(
            &deps[i].name,
            n,
        ) {
            r.push(deps[i].dup());
        }
        i += 1;
    }
    proof {
        assert(deps.deep_view().take(deps.len() as int) =~= deps.deep_view());
    }
    r
}

impl FeatureEntry {
    /// A fresh copy with the same value.
    pub fn dup(&self) -> (r: FeatureEntry)
        ensures
            r.deep_view() == self.deep_view(),
    {
        let r = FeatureEntry {
            name: crate::bytes::dup_bytes(&self.name),
            edges: crate::bytes::dup_byte_list(&self.edges),
            deps: crate::deps::dup_dep_list(&self.deps),
        };
        proof {
            assert(r.deep_view() =~= self.deep_view());
        }
        r
    }
}

impl FeatureTable {
    /// The index of the entry named `n`, if the table holds one.
    pub fn find_index(&self, n: &Vec<u8>) -> (r: Option<usize>)
        requires
            table_wf(self@),
        ensures
            r matches Some(i) ==> i < self.entries.len() && self@[i as int].name == n@
                && table_find(self@, n@) == Some(self@[i as int]),
            r is None ==> !table_has(self@, n@),
    {
        proof {
            lemma_table_has_index(self@, n@);
        }
        let mut i: usize = 0;
        while i < self.entries.len()
            invariant
                i <= self.entries.len(),
                table_wf(self@),
                forall|j: int| 0 <= j < i ==> self@[j].name != n@,
            decreases self.entries.len() - i,
        {
            proof {
                assert(self@[i as int] == self.entries@[i as int].deep_view());
            }
            if crate::bytes::bytes_eq(&self.entries[i].name, n) {
                proof {
                    lemma_table_find_at(self@, i as int);
                }
                return Some(i);
            }
            i += 1;
        }
        proof {
            lemma_table_has_index(self@, n@);
        }
        None
    }

    /// Builds the feature table of a package from its dependency list and
    /// its declared features. Development-only dependencies are excluded
    /// throughout. Every feature's edge list starts with the base feature;
    /// uncovered optional dependencies become singleton features; required
    /// dependencies gather under the base feature; the default feature is
    /// synthesized if absent. Fails exactly when some feature edge names a
    /// package that no non-development dependency provides.
    pub fn build_feature_table(deps: &Vec<PackageDependency>, decls: &Vec<FeatureDecl>) -> (r:
        Result<FeatureTable, Error>)
        requires
            forall|i: int, j: int|
                0 <= i < j < decls.deep_view().len() ==> decls.deep_view()[i].name
                    != decls.deep_view()[j].name,
        ensures
            (r is Ok) == all_resolved(deps.deep_view(), decls.deep_view()),
            r is Ok ==> (r->Ok_0)@ == built_table(deps.deep_view(), decls.deep_view()),
            r is Ok ==> table_wf((r->Ok_0)@),
            r is Ok ==> table_has((r->Ok_0)@, empty_name()),
            r is Ok ==> table_has((r->Ok_0)@, default_name()),
            r is Err ==> ((r->Err_0) matches Error::UnresolvedFeatureDependency(n)
                && unresolved_name(deps.deep_view(), decls.deep_view(), n@)),
    {
        let ghost depsv = deps.deep_view();
        let ghost declsv = decls.deep_view();
        let required = collect_required(deps, decls);
        let mut entries: Vec<FeatureEntry> = Vec::new();
        entries.push(FeatureEntry { name: Vec::new(), edges: Vec::new(), deps: required });
        proof {
            assert(entries.deep_view() =~~= seq![base_entry(depsv, declsv)]);
        }
        let mut i: usize = 0;
        while i < decls.len()
            invariant
                i <= decls.len(),
                depsv == deps.deep_view(),
                declsv == decls.deep_view(),
                entries.deep_view() == seq![base_entry(depsv, declsv)] + decl_entries(
                    depsv,
                    declsv.take(i as int),
                ),
                forall|a: int|
                    0 <= a < i && declsv[a].name != empty_name() ==> decl_resolved(
                        depsv,
                        declsv[a],
                    ),
            decreases decls.len() - i,
        {
            let decl = &decls[i];
            proof {
                assert(decl.deep_view() == declsv[i as int]);
                assert(declsv.take(i + 1 as int).drop_last() =~= declsv.take(i as int));
                assert(declsv.take(i + 1 as int).last() == declsv[i as int]);
            }
            if decl.name.len() > 0 {
                let mut edges: Vec<Vec<u8>> = Vec::new();
                edges.push(Vec::new());
                let mut edeps: Vec<PackageDependency> = Vec::new();
                let ghost es = declsv[i as int].edges;
                proof {
                    assert(edges.deep_view() =~~= decl_edges(es.take(0)));
                    assert(edeps.deep_view() =~= edge_deps(depsv, es.take(0)));
                    assert(declsv[i as int].name != empty_name()) by {
                        assert(declsv[i as int].name.len() > 0);
                    }
                }
                let mut j: usize = 0;
                while j < decl.edges.len()
                    invariant
                        j <= decl.edges.len(),
                        depsv == deps.deep_view(),
                        declsv == decls.deep_view(),
                        0 <= i < decls.len(),
                        decl == &decls@[i as int],
                        es == declsv[i as int].edges,
                        es.len() == decl.edges.len(),
                        declsv[i as int].name != empty_name(),
                        edges.deep_view() == decl_edges(es.take(j as int)),
                        edeps.deep_view() == edge_deps(depsv, es.take(j as int)),
                        forall|b: int| 0 <= b < j ==> edge_resolved(depsv, es[b]),
                    decreases decl.edges.len() - j,
                {
                    proof {
                        assert(decl.edges.deep_view()[j as int] == decl.edges@[j as int].deep_view());
                        assert(es.take(j + 1 as int).drop_last() =~= es.take(j as int));
                        assert(es.take(j + 1 as int).last() == es[j as int]);
                    }
                    match &decl.edges[j] {
                        RawEdge::FeatureRef(f) => {
                            let ghost before = edges.deep_view();
                            edges.push(crate::bytes::dup_bytes(f));
                            proof {
                                assert(edges.deep_view() =~~= before.push(f@));
                                assert(edges.deep_view() =~= decl_edges(es.take(j + 1 as int)));
                            }
                        },
                        RawEdge::PackageRef(n) => {
                            let ghost before = edeps.deep_view();
                            let mut found = false;
                            let mut k: usize = 0;
                            while k < deps.len()
                                invariant
                                    k <= deps.len(),
                                    depsv == deps.deep_view(),
                                    edeps.deep_view() == before + dep_group(
                                        depsv.take(k as int),
                                        n@,
                                    ),
                                    found == (dep_group(depsv.take(k as int), n@).len() > 0),
                                decreases deps.len() - k,
                            {
                                proof {
                                    assert(depsv[k as int] == deps@[k as int].deep_view());
                                    assert(depsv.take(k + 1 as int).drop_last() =~= depsv.take(
                                        k as int,
                                    ));
                                    assert(depsv.take(k + 1 as int).last() == depsv[k as int]);
                                }
                                let ghost prevd = edeps.deep_view();
                                if deps[k].kind != DepKind::Development && crate::bytes::bytes_eq(
                                    &deps[k].name,
                                    n,
                                ) {
                                    edeps.push(deps[k].dup());
                                    found = true;
                                    proof {
                                        assert(edeps.deep_view() =~= prevd.push(depsv[k as int]));
                                        assert(dep_group(depsv.take(k + 1 as int), n@)
                                            =~= dep_group(depsv.take(k as int), n@).push(
                                            depsv[k as int],
                                        ));
                                        assert(edeps.deep_view() =~= before + dep_group(
                                            depsv.take(k + 1 as int),
                                            n@,
                                        ));
                                    }
                                } else {
                                    proof {
                                        assert(dep_group(depsv.take(k + 1 as int), n@)
                                            =~= dep_group(depsv.take(k as int), n@));
                                    }
                                }
                                k += 1;
                            }
                            proof {
                                assert(depsv.take(deps.len() as int) =~= depsv);
                            }
                            if !found {
                                proof {
                                    assert(es[j as int] == EdgeView::PackageRef(n@));
                                    assert(!edge_resolved(depsv, es[j as int]));
                                    assert(!decl_resolved(depsv, declsv[i as int])) by {
                                        assert(!edge_resolved(
                                            depsv,
                                            declsv[i as int].edges[j as int],
                                        ));
                                    }
                                    assert(!all_resolved(depsv, declsv));
                                    assert(unresolved_name(depsv, declsv, n@)) by {
                                        assert(declsv[i as int].edges[j as int]
                                            == EdgeView::PackageRef(n@));
                                    }
                                }
                                return Err(Error::UnresolvedFeatureDependency(
                                    crate::bytes::dup_bytes(n),
                                ));
                            }
                            proof {
                                assert(edeps.deep_view() =~= edge_deps(
                                    depsv,
                                    es.take(j + 1 as int),
                                ));
                            }
                        },
                        RawEdge::QualifiedRef(n, s) => {
                            let ghost before = edeps.deep_view();
                            let mut found = false;
                            let mut k: usize = 0;
                            while k < deps.len()
                                invariant
                                    k <= deps.len(),
                                    depsv == deps.deep_view(),
                                    edeps.deep_view() == before + qualified_group(
                                        depsv.take(k as int),
                                        n@,
                                        s@,
                                    ),
                                    found == (dep_group(depsv.take(k as int), n@).len() > 0),
                                decreases deps.len() - k,
                            {
                                proof {
                                    assert(depsv[k as int] == deps@[k as int].deep_view());
                                    assert(depsv.take(k + 1 as int).drop_last() =~= depsv.take(
                                        k as int,
                                    ));
                                    assert(depsv.take(k + 1 as int).last() == depsv[k as int]);
                                }
                                let ghost prevd = edeps.deep_view();
                                if deps[k].kind != DepKind::Development && crate::bytes::bytes_eq(
                                    &deps[k].name,
                                    n,
                                ) {
                                    edeps.push(deps[k].with_sub_feature(s));
                                    found = true;
                                    proof {
                                        assert(edeps.deep_view() =~= prevd.push(
                                            sub_feature_view(depsv[k as int], s@),
                                        ));
                                        assert(qualified_group(depsv.take(k + 1 as int), n@, s@)
                                            =~= qualified_group(depsv.take(k as int), n@, s@).push(
                                            sub_feature_view(depsv[k as int], s@),
                                        ));
                                        assert(edeps.deep_view() =~= before + qualified_group(
                                            depsv.take(k + 1 as int),
                                            n@,
                                            s@,
                                        ));
                                    }
                                } else {
                                    proof {
                                        assert(qualified_group(depsv.take(k + 1 as int), n@, s@)
                                            =~= qualified_group(depsv.take(k as int), n@, s@));
                                    }
                                }
                                k += 1;
                            }
                            proof {
                                assert(depsv.take(deps.len() as int) =~= depsv);
                            }
                            if !found {
                                proof {
                                    assert(es[j as int] == EdgeView::QualifiedRef(n@, s@));
                                    assert(!edge_resolved(depsv, es[j as int]));
                                    assert(!decl_resolved(depsv, declsv[i as int])) by {
                                        assert(!edge_resolved(
                                            depsv,
                                            declsv[i as int].edges[j as int],
                                        ));
                                    }
                                    assert(!all_resolved(depsv, declsv));
                                    assert(unresolved_name(depsv, declsv, n@)) by {
                                        assert(declsv[i as int].edges[j as int] matches
                                            EdgeView::QualifiedRef(m, _) && m == n@);
                                    }
                                }
                                return Err(Error::UnresolvedFeatureDependency(
                                    crate::bytes::dup_bytes(n),
                                ));
                            }
                            proof {
                                assert(edeps.deep_view() =~= edge_deps(
                                    depsv,
                                    es.take(j + 1 as int),
                                ));
                            }
                        },
                    }
                    j += 1;
                }
                proof {
                    assert(es.take(decl.edges.len() as int) =~= es);
                }
                let ghost prev = entries.deep_view();
                entries.push(
                    FeatureEntry { name: crate::bytes::dup_bytes(&decl.name), edges, deps: edeps },
                );
                proof {
                    assert(declsv[i as int].name != empty_name()) by {
                        assert(declsv[i as int].name.len() > 0);
                    }
                    assert(entries.deep_view() =~= prev.push(decl_entry(depsv, declsv[i as int])));
                    assert(entries.deep_view() =~= seq![base_entry(depsv, declsv)] + decl_entries(
                        depsv,
                        declsv.take(i + 1 as int),
                    ));
                }
            } else {
                proof {
                    assert(declsv[i as int].name =~= empty_name());
                    assert(decl_entries(depsv, declsv.take(i + 1 as int)) == decl_entries(
                        depsv,
                        declsv.take(i as int),
                    ));
                }
            }
            i += 1;
        }
        proof {
            assert(declsv.take(decls.len() as int) =~= declsv);
        }
        let ghost t1 = seq![base_entry(depsv, declsv)] + decl_entries(depsv, declsv);
        let mut k: usize = 0;
        while k < deps.len()
            invariant
                k <= deps.len(),
                depsv == deps.deep_view(),
                declsv == decls.deep_view(),
                t1 == seq![base_entry(depsv, declsv)] + decl_entries(depsv, declsv),
                entries.deep_view() == t1 + optional_entries(depsv, t1, k as int),
            decreases deps.len() - k,
        {
            proof {
                assert(depsv[k as int] == deps@[k as int].deep_view());
            }
            let d = &deps[k];
            if d.kind != DepKind::Development && d.optional && !table_contains(&entries, &d.name) {
                let og = collect_optional_group(deps, &d.name);
                let mut oe: Vec<Vec<u8>> = Vec::new();
                oe.push(Vec::new());
                let ghost prev = entries.deep_view();
                entries.push(
                    FeatureEntry { name: crate::bytes::dup_bytes(&d.name), edges: oe, deps: og },
                );
                proof {
                    assert(entries.deep_view() =~~= prev.push(optional_entry(depsv, d.name@)));
                    assert(entries.deep_view() =~= t1 + optional_entries(
                        depsv,
                        t1,
                        k + 1 as int,
                    ));
                }
            } else {
                proof {
                    assert(optional_entries(depsv, t1, k + 1 as int) == optional_entries(
                        depsv,
                        t1,
                        k as int,
                    ));
                }
            }
            k += 1;
        }
        let ghost t2 = t1 + optional_entries(depsv, t1, depsv.len() as int);
        proof {
            assert(entries.deep_view() == t2);
        }
        let dn = crate::bytes::default_name_vec();
        if !table_contains(&entries, &dn) {
            let mut de: Vec<Vec<u8>> = Vec::new();
            de.push(Vec::new());
            let ghost prev = entries.deep_view();
            entries.push(FeatureEntry { name: dn, edges: de, deps: Vec::new() });
            proof {
                assert(entries.deep_view() =~~= prev.push(default_entry()));
            }
        }
        proof {
            assert(entries.deep_view() == built_table(depsv, declsv));
            lemma_built_table_wf(depsv, declsv);
            assert(entries.deep_view()[0] == base_entry(depsv, declsv));
            lemma_has_at(entries.deep_view(), 0);
            if table_has(t2, default_name()) {
                lemma_table_has_index(t2, default_name());
                let w = choose|w: int| 0 <= w < t2.len() && t2[w].name == default_name();
                lemma_has_at(entries.deep_view(), w);
            } else {
                lemma_has_at(entries.deep_view(), entries.deep_view().len() - 1);
            }
        }
        Ok(FeatureTable { entries })
    }
}

} // verus!

