use pkgcache::package::Pkg;
use pkgcache::prompt::confirms;
use pkgcache::purge::{Purge, PurgeOutcome, Removal, Step};

fn plan() -> Vec<Pkg> {
    vec![
        Pkg::new("a.pkg.tar.zst".to_string(), 100),
        Pkg::new("b.pkg.tar.zst".to_string(), 20),
    ]
}

#[test]
fn archive_then_signature() {
    let mut purge = Purge::new("/cache".to_string(), plan());
    assert_eq!(purge.next_step(), Step::RemovePackage("/cache/a.pkg.tar.zst".to_string()));
    assert!(!purge.record(Removal::Removed));
    assert_eq!(
        purge.next_step(),
        Step::RemoveSignature("/cache/a.pkg.tar.zst.sig".to_string())
    );
    // A missing signature is no fault and keeps the archive counted.
    assert!(!purge.record(Removal::NotFound));
    assert_eq!(purge.outcome(), PurgeOutcome { removed_count: 1, removed_bytes: 100 });
    assert_eq!(purge.next_step(), Step::RemovePackage("/cache/b.pkg.tar.zst".to_string()));
    assert!(!purge.record(Removal::Removed));
    assert!(purge.record(Removal::Failed));
    assert!(purge.is_done());
    assert_eq!(purge.next_step(), Step::Done);
    assert_eq!(purge.outcome(), PurgeOutcome { removed_count: 2, removed_bytes: 120 });
}

#[test]
fn second_purge_finds_nothing() {
    let mut purge = Purge::new("/cache".to_string(), plan());
    let mut warnings = 0;
    while let Step::RemovePackage(_) = purge.next_step() {
        if purge.record(Removal::NotFound) {
            warnings += 1;
        }
    }
    assert_eq!(purge.next_step(), Step::Done);
    assert_eq!(warnings, 0);
    assert_eq!(purge.outcome(), PurgeOutcome { removed_count: 0, removed_bytes: 0 });
}

#[test]
fn failed_archive_is_skipped_and_warned() {
    let mut purge = Purge::new("/cache".to_string(), plan());
    assert!(purge.record(Removal::Failed));
    // No signature step for a package whose archive stayed.
    assert_eq!(purge.next_step(), Step::RemovePackage("/cache/b.pkg.tar.zst".to_string()));
    assert!(!purge.record(Removal::Removed));
    assert!(!purge.record(Removal::Removed));
    assert!(purge.is_done());
    assert_eq!(purge.outcome(), PurgeOutcome { removed_count: 1, removed_bytes: 20 });
}

#[test]
fn empty_plan_is_done_at_once() {
    let mut purge = Purge::new("/cache".to_string(), vec![]);
    assert!(purge.is_done());
    assert_eq!(purge.next_step(), Step::Done);
    assert!(!purge.record(Removal::Failed));
    assert_eq!(purge.outcome(), PurgeOutcome { removed_count: 0, removed_bytes: 0 });
}

#[test]
fn removed_bytes_saturate() {
    let big = vec![
        Pkg::new("a".to_string(), u64::MAX),
        Pkg::new("b".to_string(), 5),
    ];
    let mut purge = Purge::new("/c".to_string(), big);
    for _ in 0..4 {
        purge.record(Removal::Removed);
    }
    assert_eq!(purge.outcome(), PurgeOutcome { removed_count: 2, removed_bytes: u64::MAX });
}

#[test]
fn answers() {
    assert!(confirms(b'\n'));
    assert!(confirms(b'y'));
    assert!(confirms(b'Y'));
    assert!(!confirms(b'n'));
    assert!(!confirms(b'N'));
    assert!(!confirms(b' '));
}
