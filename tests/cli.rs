use pkgcache::cli::{read_args, Config, Error};

fn strings(a: &[&str]) -> Vec<String> {
    a.iter().map(|s| s.to_string()).collect()
}

fn cmp(a: &[String], b: &[&str]) {
    assert_eq!(a.len(), b.len());
    for i in 0..a.len() {
        assert_eq!(a[i].as_str(), b[i]);
    }
}

#[test]
fn args() {
    const DBPATH: &str = "/path/to/db";
    const CACHEDIR: &str = "/path/to/cache";

    let repos = [
        "core-testing",
        "core",
        "extra-testing",
        "extra",
        "multilib-testing",
        "multilib",
    ];

    let joined = repos.join(",");
    let args = strings(&[
        "--dbpath",
        DBPATH,
        "--cachedir",
        CACHEDIR,
        "--repos",
        &joined,
        "",
    ]);

    let config = read_args(&args).unwrap().unwrap();
    assert_eq!(config.dbpath(), Some(DBPATH));
    assert_eq!(config.cachedir(), Some(CACHEDIR));
    cmp(config.repos().unwrap(), &repos);
}

#[test]
fn no_args() {
    assert_eq!(read_args(&strings(&[])).unwrap(), Some(Config::new()));
}

#[test]
fn help() {
    assert_eq!(
        read_args(&strings(&["--dbpath", "foo", "--help", "--foo"])).unwrap(),
        None
    );
}

#[test]
fn error_no_value() {
    assert!(matches!(
        read_args(&strings(&["--dbpath"])),
        Err(Error::NoValue(_))
    ));
}

#[test]
fn error_unknown() {
    assert!(matches!(
        read_args(&strings(&["--foo"])),
        Err(Error::Unknown(_))
    ));
}

#[test]
fn short_help_flag() {
    assert_eq!(read_args(&strings(&["-h"])).unwrap(), None);
}

#[test]
fn repos_list_drops_empty_items() {
    let config = read_args(&strings(&["--repos", ",core,,extra,"]))
        .unwrap()
        .unwrap();
    cmp(config.repos().unwrap(), &["core", "extra"]);
    assert_eq!(config.dbpath(), None);
    assert_eq!(config.cachedir(), None);
}

#[test]
fn repos_list_of_commas_is_empty() {
    let config = read_args(&strings(&["--repos", ",,"])).unwrap().unwrap();
    cmp(config.repos().unwrap(), &[]);
}

#[test]
fn later_option_overrides() {
    let config = read_args(&strings(&["--cachedir", "/a", "--cachedir", "/b"]))
        .unwrap()
        .unwrap();
    assert_eq!(config.cachedir(), Some("/b"));
}

#[test]
fn option_value_may_look_like_an_option() {
    let config = read_args(&strings(&["--dbpath", "--help"])).unwrap().unwrap();
    assert_eq!(config.dbpath(), Some("--help"));
}

#[test]
fn error_names_the_argument() {
    match read_args(&strings(&["--cachedir", "/c", "--repos"])) {
        Err(Error::NoValue(a)) => assert_eq!(a, "--repos"),
        _ => panic!("expected a missing value"),
    }
    match read_args(&strings(&["", "-x", "--help"])) {
        Err(Error::Unknown(a)) => assert_eq!(a, "-x"),
        _ => panic!("expected an unknown option"),
    }
}

#[test]
fn error_messages() {
    assert_eq!(
        Error::NoValue("--dbpath".to_string()).message(),
        "option '--dbpath' requires value"
    );
    assert_eq!(
        Error::Unknown("--foo".to_string()).message(),
        "unknown option '--foo'"
    );
}
