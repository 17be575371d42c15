use debcargo::deps::{DepKind, PackageDependency};
use debcargo::errors::Error;
use debcargo::provides::ProvidesEntry;
use debcargo::table::{FeatureDecl, FeatureTable, RawEdge};

fn dep(name: &str, optional: bool, kind: DepKind) -> PackageDependency {
    PackageDependency {
        name: name.as_bytes().to_vec(),
        req: b"^1".to_vec(),
        optional,
        kind,
        default_features: true,
        features: Vec::new(),
    }
}

fn decl(name: &str, edges: Vec<RawEdge>) -> FeatureDecl {
    FeatureDecl { name: name.as_bytes().to_vec(), edges }
}

fn entry_of(t: &FeatureTable, name: &str) -> (Vec<Vec<u8>>, Vec<Vec<u8>>) {
    let idx = t
        .find_index(&name.as_bytes().to_vec())
        .unwrap_or_else(|| panic!("feature {name} missing"));
    let e = &t.entries[idx];
    (
        e.edges.clone(),
        e.deps.iter().map(|d| d.name.clone()).collect(),
    )
}

fn has_feature(t: &FeatureTable, name: &str) -> bool {
    t.find_index(&name.as_bytes().to_vec()).is_some()
}

#[test]
fn build_inserts_base_and_default() {
    let deps = vec![dep("log", false, DepKind::Normal)];
    let decls = vec![];
    let t = FeatureTable::build_feature_table(&deps, &decls).unwrap();
    assert!(has_feature(&t, ""));
    assert!(has_feature(&t, "default"));
    let (edges, d) = entry_of(&t, "");
    assert!(edges.is_empty());
    assert_eq!(d, vec![b"log".to_vec()]);
    let (edges, d) = entry_of(&t, "default");
    assert_eq!(edges, vec![b"".to_vec()]);
    assert!(d.is_empty());
}

#[test]
fn build_classifies_edges() {
    let deps = vec![
        dep("log", false, DepKind::Normal),
        dep("serde_json", true, DepKind::Normal),
        dep("openssl", true, DepKind::Normal),
        dep("criterion", false, DepKind::Development),
    ];
    let decls = vec![
        decl("json", vec![RawEdge::PackageRef(b"serde_json".to_vec())]),
        decl(
            "tls",
            vec![RawEdge::QualifiedRef(b"openssl".to_vec(), b"ssl3".to_vec())],
        ),
        decl("full", vec![RawEdge::FeatureRef(b"json".to_vec())]),
    ];
    let t = FeatureTable::build_feature_table(&deps, &decls).unwrap();
    // declared features carry the base edge first, then their references
    let (edges, d) = entry_of(&t, "full");
    assert_eq!(edges, vec![b"".to_vec(), b"json".to_vec()]);
    assert!(d.is_empty());
    let (edges, d) = entry_of(&t, "json");
    assert_eq!(edges, vec![b"".to_vec()]);
    assert_eq!(d, vec![b"serde_json".to_vec()]);
    // a qualified edge derives a dependency with exactly that sub-feature
    let idx = t.find_index(&b"tls".to_vec()).unwrap();
    let tls_dep = &t.entries[idx].deps[0];
    assert_eq!(tls_dep.name, b"openssl".to_vec());
    assert!(!tls_dep.default_features);
    assert_eq!(tls_dep.features, vec![b"ssl3".to_vec()]);
    // development-only dependencies never appear
    assert!(!has_feature(&t, "criterion"));
    let (_, base_deps) = entry_of(&t, "");
    assert_eq!(base_deps, vec![b"log".to_vec()]);
}

#[test]
fn build_rejects_unresolved_package_edge() {
    let deps = vec![dep("log", false, DepKind::Normal)];
    let decls = vec![decl("bad", vec![RawEdge::PackageRef(b"nope".to_vec())])];
    match FeatureTable::build_feature_table(&deps, &decls) {
        Err(Error::UnresolvedFeatureDependency(n)) => assert_eq!(n, b"nope".to_vec()),
        _ => panic!("expected UnresolvedFeatureDependency"),
    }
}

#[test]
fn build_rejects_edge_to_development_dependency() {
    let deps = vec![dep("criterion", false, DepKind::Development)];
    let decls = vec![decl("bench", vec![RawEdge::PackageRef(b"criterion".to_vec())])];
    assert!(matches!(
        FeatureTable::build_feature_table(&deps, &decls),
        Err(Error::UnresolvedFeatureDependency(_))
    ));
}

#[test]
fn uncovered_optional_dependency_becomes_feature() {
    let deps = vec![dep("serde", true, DepKind::Normal)];
    let t = FeatureTable::build_feature_table(&deps, &vec![]).unwrap();
    let (edges, d) = entry_of(&t, "serde");
    assert_eq!(edges, vec![b"".to_vec()]);
    assert_eq!(d, vec![b"serde".to_vec()]);
    // not collected under the base feature
    let (_, base_deps) = entry_of(&t, "");
    assert!(base_deps.is_empty());
}

#[test]
fn covered_optional_dependency_merges_into_base() {
    let deps = vec![dep("serde", true, DepKind::Normal)];
    let decls = vec![decl("serde", vec![RawEdge::PackageRef(b"serde".to_vec())])];
    let t = FeatureTable::build_feature_table(&deps, &decls).unwrap();
    // the explicit feature wins; the optional dependency lands in the base
    let (edges, d) = entry_of(&t, "serde");
    assert_eq!(edges, vec![b"".to_vec()]);
    assert_eq!(d, vec![b"serde".to_vec()]);
    let (_, base_deps) = entry_of(&t, "");
    assert_eq!(base_deps, vec![b"serde".to_vec()]);
}

#[test]
fn closure_follows_edges() {
    let deps = vec![
        dep("log", false, DepKind::Normal),
        dep("serde_json", true, DepKind::Normal),
    ];
    let decls = vec![
        decl("json", vec![RawEdge::PackageRef(b"serde_json".to_vec())]),
        decl("full", vec![RawEdge::FeatureRef(b"json".to_vec())]),
    ];
    let t = FeatureTable::build_feature_table(&deps, &decls).unwrap();
    let (names, cdeps) = t.transitive_closure(&b"full".to_vec()).unwrap();
    assert!(names.contains(&b"full".to_vec()));
    assert!(names.contains(&b"json".to_vec()));
    assert!(names.contains(&b"".to_vec()));
    let dep_names: Vec<Vec<u8>> = cdeps.iter().map(|d| d.name.clone()).collect();
    assert!(dep_names.contains(&b"serde_json".to_vec()));
    assert!(dep_names.contains(&b"log".to_vec()));
}

#[test]
fn closure_detects_direct_cycle() {
    let decls = vec![decl("a", vec![RawEdge::FeatureRef(b"a".to_vec())])];
    let t = FeatureTable::build_feature_table(&vec![], &decls).unwrap();
    assert!(matches!(
        t.transitive_closure(&b"a".to_vec()),
        Err(Error::CyclicFeatureGraph(_))
    ));
}

#[test]
fn closure_detects_indirect_cycle() {
    let decls = vec![
        decl("a", vec![RawEdge::FeatureRef(b"b".to_vec())]),
        decl("b", vec![RawEdge::FeatureRef(b"a".to_vec())]),
    ];
    let t = FeatureTable::build_feature_table(&vec![], &decls).unwrap();
    assert!(matches!(
        t.transitive_closure(&b"a".to_vec()),
        Err(Error::CyclicFeatureGraph(_))
    ));
}

#[test]
fn closure_rejects_missing_feature() {
    let decls = vec![decl("a", vec![RawEdge::FeatureRef(b"ghost".to_vec())])];
    let t = FeatureTable::build_feature_table(&vec![], &decls).unwrap();
    match t.transitive_closure(&b"a".to_vec()) {
        Err(Error::UnresolvedFeatureDependency(n)) => assert_eq!(n, b"ghost".to_vec()),
        _ => panic!("expected UnresolvedFeatureDependency"),
    }
}

#[test]
fn featureless_package_default_closure_is_empty() {
    let t = FeatureTable::build_feature_table(&vec![], &vec![]).unwrap();
    let (names, cdeps) = t.transitive_closure(&b"default".to_vec()).unwrap();
    assert!(names.contains(&b"default".to_vec()));
    assert!(names.contains(&b"".to_vec()));
    assert_eq!(names.len(), 2);
    assert!(cdeps.is_empty());
}

#[test]
fn duplicate_edges_survive_the_build_but_not_the_closure() {
    // duplicates are kept in declaration order at build time and fall away
    // only in the closure's duplicate-free feature set
    let deps = vec![dep("serde_json", true, DepKind::Normal)];
    let decls = vec![
        decl(
            "a",
            vec![
                RawEdge::FeatureRef(b"b".to_vec()),
                RawEdge::FeatureRef(b"b".to_vec()),
            ],
        ),
        decl("b", vec![RawEdge::PackageRef(b"serde_json".to_vec())]),
    ];
    let t = FeatureTable::build_feature_table(&deps, &decls).unwrap();
    let (edges, _) = entry_of(&t, "a");
    assert_eq!(edges, vec![b"".to_vec(), b"b".to_vec(), b"b".to_vec()]);
    let (names, _) = t.transitive_closure(&b"a".to_vec()).unwrap();
    assert_eq!(
        names.iter().filter(|n| **n == b"b".to_vec()).count(),
        1
    );
}

fn provides_for<'a>(m: &'a [ProvidesEntry], key: &str) -> &'a ProvidesEntry {
    m.iter()
        .find(|e| e.key == key.as_bytes().to_vec())
        .unwrap_or_else(|| panic!("no provides entry for {key}"))
}

#[test]
fn direct_dependency_feature_is_not_collapsed() {
    // A feature with a direct package dependency is no alias candidate and
    // must remain in the table untouched.
    let deps = vec![
        dep("serde", false, DepKind::Normal),
        dep("serde_json", true, DepKind::Normal),
    ];
    let decls = vec![decl("json", vec![RawEdge::PackageRef(b"serde_json".to_vec())])];
    let mut t = FeatureTable::build_feature_table(&deps, &decls).unwrap();
    let m = t.synthesize_provides().unwrap();
    assert!(has_feature(&t, "json"));
    let (edges, d) = entry_of(&t, "json");
    assert_eq!(edges, vec![b"".to_vec()]);
    assert_eq!(d, vec![b"serde_json".to_vec()]);
    for e in &m {
        assert!(!e.aliases.contains(&b"json".to_vec()));
    }
}

#[test]
fn alias_chain_collapses_into_survivor() {
    let deps = vec![dep("serde_json", true, DepKind::Normal)];
    let decls = vec![
        decl("a", vec![RawEdge::FeatureRef(b"b".to_vec())]),
        decl("b", vec![RawEdge::FeatureRef(b"c".to_vec())]),
        decl("c", vec![RawEdge::PackageRef(b"serde_json".to_vec())]),
    ];
    let mut t = FeatureTable::build_feature_table(&deps, &decls).unwrap();
    let m = t.synthesize_provides().unwrap();
    assert!(!has_feature(&t, "a"));
    assert!(!has_feature(&t, "b"));
    assert!(has_feature(&t, "c"));
    assert!(has_feature(&t, ""));
    assert!(has_feature(&t, "default"));
    let c = provides_for(&m, "c");
    assert_eq!(c.aliases, vec![b"a".to_vec(), b"b".to_vec()]);
    // each removed feature sits in exactly one surviving set
    let mut seen_a = 0;
    let mut seen_b = 0;
    for e in &m {
        seen_a += e.aliases.iter().filter(|x| **x == b"a".to_vec()).count();
        seen_b += e.aliases.iter().filter(|x| **x == b"b".to_vec()).count();
    }
    assert_eq!(seen_a, 1);
    assert_eq!(seen_b, 1);
}

#[test]
fn provides_keeps_base_and_default() {
    let decls = vec![decl("a", vec![])];
    let mut t = FeatureTable::build_feature_table(&vec![], &decls).unwrap();
    let m = t.synthesize_provides().unwrap();
    assert!(has_feature(&t, ""));
    assert!(has_feature(&t, "default"));
    // the empty-edged declared feature collapses into the base feature
    assert!(!has_feature(&t, "a"));
    let base = provides_for(&m, "");
    assert_eq!(base.aliases, vec![b"a".to_vec()]);
}

#[test]
fn provides_is_idempotent() {
    let deps = vec![dep("serde_json", true, DepKind::Normal)];
    let decls = vec![
        decl("a", vec![RawEdge::FeatureRef(b"c".to_vec())]),
        decl("c", vec![RawEdge::PackageRef(b"serde_json".to_vec())]),
    ];
    let mut t = FeatureTable::build_feature_table(&deps, &decls).unwrap();
    let _ = t.synthesize_provides().unwrap();
    let names_after_first: Vec<Vec<u8>> = t.entries.iter().map(|e| e.name.clone()).collect();
    let m2 = t.synthesize_provides().unwrap();
    let names_after_second: Vec<Vec<u8>> = t.entries.iter().map(|e| e.name.clone()).collect();
    assert_eq!(names_after_first, names_after_second);
    for e in &m2 {
        assert!(e.aliases.is_empty());
    }
}

#[test]
fn provides_detects_alias_cycle() {
    let decls = vec![
        decl("a", vec![RawEdge::FeatureRef(b"b".to_vec())]),
        decl("b", vec![RawEdge::FeatureRef(b"a".to_vec())]),
    ];
    let mut t = FeatureTable::build_feature_table(&vec![], &decls).unwrap();
    let before: Vec<Vec<u8>> = t.entries.iter().map(|e| e.name.clone()).collect();
    assert!(matches!(
        t.synthesize_provides(),
        Err(Error::CyclicFeatureGraph(_))
    ));
    let after: Vec<Vec<u8>> = t.entries.iter().map(|e| e.name.clone()).collect();
    assert_eq!(before, after);
}
