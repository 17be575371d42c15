use debcargo::errors::Error;
use debcargo::extract::{plan_manifest, EntryMeta, Policy};

fn entry(path: &str, is_dir: bool, mtime: u64) -> EntryMeta {
    EntryMeta { path: path.as_bytes().to_vec(), is_dir, mtime }
}

fn pats(xs: &[&str]) -> Vec<Vec<u8>> {
    xs.iter().map(|x| x.as_bytes().to_vec()).collect()
}

fn empty_policy() -> Policy {
    Policy::new(&Vec::new(), &Vec::new()).unwrap()
}

#[test]
fn traversal_is_fatal_before_any_write() {
    let policy = empty_policy();
    let entries = vec![
        entry("pkg-1.0/", true, 10),
        entry("../../etc/passwd", false, 11),
    ];
    match policy.plan_extraction(&entries) {
        Err(Error::PathTraversal(p)) => assert_eq!(p, b"../../etc/passwd".to_vec()),
        _ => panic!("expected PathTraversal"),
    }
}

#[test]
fn absolute_path_is_traversal() {
    let policy = empty_policy();
    let entries = vec![entry("/etc/passwd", false, 1)];
    assert!(matches!(
        policy.plan_extraction(&entries),
        Err(Error::PathTraversal(_))
    ));
}

#[test]
fn two_top_level_directories_are_malformed() {
    let policy = empty_policy();
    let entries = vec![
        entry("pkg-1.0/", true, 1),
        entry("pkg-1.0/src/lib.rs", false, 2),
        entry("other-2.0/", true, 3),
    ];
    assert!(matches!(
        policy.plan_extraction(&entries),
        Err(Error::MalformedArchiveLayout)
    ));
}

#[test]
fn top_level_file_is_malformed() {
    let policy = empty_policy();
    let entries = vec![entry("pkg-1.0", false, 1)];
    assert!(matches!(
        policy.plan_extraction(&entries),
        Err(Error::MalformedArchiveLayout)
    ));
}

#[test]
fn empty_archive_is_malformed() {
    let policy = empty_policy();
    assert!(matches!(
        policy.plan_extraction(&Vec::new()),
        Err(Error::MalformedArchiveLayout)
    ));
}

#[test]
fn suspicious_files_are_gathered_over_the_whole_archive() {
    let policy = empty_policy();
    let entries = vec![
        entry("pkg-1.0/", true, 1),
        entry("pkg-1.0/native.c", false, 2),
        entry("pkg-1.0/src/lib.rs", false, 3),
        entry("pkg-1.0/libfoo.a", false, 4),
    ];
    match policy.plan_extraction(&entries) {
        Err(Error::SuspiciousContent(l)) => {
            assert_eq!(
                l,
                vec![b"pkg-1.0/native.c".to_vec(), b"pkg-1.0/libfoo.a".to_vec()]
            );
        },
        _ => panic!("expected SuspiciousContent"),
    }
}

#[test]
fn excluded_entries_are_skipped_and_mark_the_tree_modified() {
    let policy = Policy::new(&pats(&["*.bak"]), &Vec::new()).unwrap();
    let entries = vec![
        entry("pkg-1.0/", true, 1),
        entry("pkg-1.0/notes.bak", false, 9),
        entry("pkg-1.0/src/lib.rs", false, 2),
    ];
    let plan = policy.plan_extraction(&entries).unwrap();
    assert!(plan.source_modified);
    assert_eq!(plan.unpack, vec![0, 2]);
    assert_eq!(plan.root, b"pkg-1.0".to_vec());
    // the skipped entry's mtime does not count
    assert_eq!(plan.last_mtime, 2);
}

#[test]
fn whitelisted_suspicious_file_is_unpacked_with_a_warning() {
    let policy = Policy::new(&Vec::new(), &pats(&["shim.c"])).unwrap();
    let entries = vec![
        entry("pkg-1.0/", true, 1),
        entry("pkg-1.0/shim.c", false, 2),
    ];
    let plan = policy.plan_extraction(&entries).unwrap();
    assert_eq!(plan.unpack, vec![0, 1]);
    assert_eq!(plan.warnings, vec![b"pkg-1.0/shim.c".to_vec()]);
    assert!(!plan.source_modified);
}

#[test]
fn clean_archive_yields_unmodified_plan() {
    let policy = empty_policy();
    let entries = vec![
        entry("pkg-1.0/", true, 5),
        entry("pkg-1.0/Cargo.toml", false, 99),
        entry("pkg-1.0/src/lib.rs", false, 42),
    ];
    let plan = policy.plan_extraction(&entries).unwrap();
    assert!(!plan.source_modified);
    assert_eq!(plan.unpack, vec![0, 1, 2]);
    assert_eq!(plan.root, b"pkg-1.0".to_vec());
    assert_eq!(plan.last_mtime, 99);
    assert!(plan.warnings.is_empty());
}

#[test]
fn invalid_glob_pattern_is_rejected() {
    assert!(Policy::new(&pats(&["a[b"]), &Vec::new()).is_none());
}

#[test]
fn manifest_rewrite_follows_byte_comparison() {
    // a manifest differing from its canonical form is rewritten and the
    // tree counts as modified
    let (rewrite, modified) = plan_manifest(
        &b"[package]\nname = \"x\"\n".to_vec(),
        &b"[package]\nname = \"x\"\nversion = \"1.0.0\"\n".to_vec(),
        false,
    );
    assert!(rewrite);
    assert!(modified);
    // an already-canonical manifest is left alone
    let text = b"[package]\nname = \"x\"\n".to_vec();
    let (rewrite, modified) = plan_manifest(&text, &text.clone(), false);
    assert!(!rewrite);
    assert!(!modified);
    // an earlier modification is not forgotten
    let (_, modified) = plan_manifest(&text, &text.clone(), true);
    assert!(modified);
}
