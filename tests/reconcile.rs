use pkgcache::package::{total_size, Pkg};
use pkgcache::reconcile::{filter_pkgs, MissingDb, ReconcileError, RepoListing};

fn pkgs(list: &[(&str, u64)]) -> Vec<Pkg> {
    list.iter().map(|(n, s)| Pkg::new(n.to_string(), *s)).collect()
}

fn listing(repo: &str, files: &[&str]) -> RepoListing {
    RepoListing {
        repo: repo.to_string(),
        files: Some(files.iter().map(|f| f.to_string()).collect()),
    }
}

fn unavailable(repo: &str) -> RepoListing {
    RepoListing { repo: repo.to_string(), files: None }
}

fn names(v: &[Pkg]) -> Vec<&str> {
    v.iter().map(|p| p.name()).collect()
}

#[test]
fn orphans_are_what_no_repository_provides() {
    let cached = pkgs(&[("A.pkg.tar.zst", 1), ("B.pkg.tar.zst", 2), ("C.pkg.tar.zst", 3)]);
    let listings = vec![listing("core", &["A.pkg.tar.zst"]), listing("extra", &["B.pkg.tar.zst"])];
    let plan = filter_pkgs(cached, &listings, MissingDb::Skip).unwrap();
    assert_eq!(names(&plan), ["C.pkg.tar.zst"]);
    assert_eq!(plan[0].size(), 3);
}

#[test]
fn plan_is_sorted_by_name() {
    let cached = pkgs(&[("z.pkg.tar.zst", 1), ("a.pkg.tar.zst", 2)]);
    let plan = filter_pkgs(cached, &vec![], MissingDb::Skip).unwrap();
    assert_eq!(names(&plan), ["a.pkg.tar.zst", "z.pkg.tar.zst"]);
}

#[test]
fn order_is_byte_wise_and_case_sensitive() {
    let cached = pkgs(&[
        ("b.pkg.tar", 1),
        ("B.pkg.tar", 1),
        ("a.pkg.tar", 1),
        ("a.pkg.tar.zst", 1),
        ("\u{e9}.pkg.tar", 1),
        ("Z.pkg.tar", 1),
    ]);
    let plan = filter_pkgs(cached, &vec![], MissingDb::Skip).unwrap();
    assert_eq!(
        names(&plan),
        ["B.pkg.tar", "Z.pkg.tar", "a.pkg.tar", "a.pkg.tar.zst", "b.pkg.tar", "\u{e9}.pkg.tar"]
    );
}

#[test]
fn repositories_may_list_uncached_and_repeated_files() {
    let cached = pkgs(&[("A.pkg.tar.zst", 1), ("B.pkg.tar.zst", 2)]);
    let listings = vec![listing(
        "core",
        &["X.pkg.tar.zst", "A.pkg.tar.zst", "A.pkg.tar.zst", "Y.pkg.tar.zst"],
    )];
    let plan = filter_pkgs(cached, &listings, MissingDb::Skip).unwrap();
    assert_eq!(names(&plan), ["B.pkg.tar.zst"]);
}

#[test]
fn everything_provided_leaves_nothing() {
    let cached = pkgs(&[("A.pkg.tar.zst", 1)]);
    let listings = vec![listing("core", &["A.pkg.tar.zst"])];
    assert!(filter_pkgs(cached, &listings, MissingDb::Skip).unwrap().is_empty());
    assert!(filter_pkgs(vec![], &listings, MissingDb::Skip).unwrap().is_empty());
}

#[test]
fn unavailable_repository_protects_nothing_when_skipped() {
    let cached = pkgs(&[("A.pkg.tar.zst", 1), ("B.pkg.tar.zst", 2)]);
    let listings = vec![unavailable("core"), listing("extra", &["B.pkg.tar.zst"])];
    let plan = filter_pkgs(cached, &listings, MissingDb::Skip).unwrap();
    assert_eq!(names(&plan), ["A.pkg.tar.zst"]);
}

#[test]
fn unavailable_repository_aborts_when_asked() {
    let cached = pkgs(&[("A.pkg.tar.zst", 1)]);
    let listings = vec![listing("core", &[]), unavailable("extra"), unavailable("multilib")];
    match filter_pkgs(cached, &listings, MissingDb::Abort) {
        Err(ReconcileError::RepositoryUnavailable(repo)) => assert_eq!(repo, "extra"),
        Ok(_) => panic!("expected an unavailable repository"),
    }
}

#[test]
fn abort_policy_with_all_available_succeeds() {
    let cached = pkgs(&[("A.pkg.tar.zst", 1), ("B.pkg.tar.zst", 2)]);
    let listings = vec![listing("core", &["A.pkg.tar.zst"])];
    let plan = filter_pkgs(cached, &listings, MissingDb::Abort).unwrap();
    assert_eq!(names(&plan), ["B.pkg.tar.zst"]);
}

#[test]
fn last_entry_under_a_name_stands() {
    let cached = pkgs(&[("A.pkg.tar.zst", 1), ("A.pkg.tar.zst", 7)]);
    let plan = filter_pkgs(cached, &vec![], MissingDb::Skip).unwrap();
    assert_eq!(names(&plan), ["A.pkg.tar.zst"]);
    assert_eq!(plan[0].size(), 7);
}

#[test]
fn total_of_sizes() {
    assert_eq!(total_size(&pkgs(&[("a", 1), ("b", 1024), ("c", 5)])), 1030);
    assert_eq!(total_size(&vec![]), 0);
    assert_eq!(total_size(&pkgs(&[("a", u64::MAX), ("b", 2)])), u64::MAX);
}

#[test]
fn package_pair_round_trip() {
    let p = Pkg::new("a.pkg.tar".to_string(), 9);
    let (name, size) = p.into_hash();
    assert_eq!(name, "a.pkg.tar");
    assert_eq!(size, 9);
    let q = Pkg::from_hash((name, size));
    assert_eq!(q.name(), "a.pkg.tar");
    assert_eq!(q.size(), 9);
}
