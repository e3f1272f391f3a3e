use pkgcache::pacman_conf::read_config;

const TEST_CONFIG: &str = "\
#
# /etc/pacman.conf
#
# See the pacman.conf(5) manpage for option and repository directives

[options]
# The following paths are commented out with their default values listed.
#RootDir     = /
DBPath      = /var/lib/pacman/
#CacheDir    = /var/cache/pacman/pkg/
#LogFile     = /var/log/pacman.log
HoldPkg     = pacman glibc
Architecture = auto

#[core-testing]
#Include = /etc/pacman.d/mirrorlist

[core]
Include = /etc/pacman.d/mirrorlist

[extra]
Include = /etc/pacman.d/mirrorlist

[multilib]
Include = /etc/pacman.d/mirrorlist
";

const TEST_CONFIG_NO_DBPATH: &str = "\
[options]
#DBPath      = /var/lib/pacman/
HoldPkg     = pacman glibc

[core]
Include = /etc/pacman.d/mirrorlist
";

#[test]
fn config() {
    let conf = read_config(TEST_CONFIG);
    assert_eq!(conf.dbpath.as_deref(), Some("/var/lib/pacman/"));
    assert_eq!(conf.repos, ["core", "extra", "multilib"]);
}

#[test]
fn config_no_dbpath() {
    let conf = read_config(TEST_CONFIG_NO_DBPATH);
    assert!(conf.dbpath.is_none());
    assert_eq!(conf.repos, ["core"]);
}

#[test]
fn config_empty() {
    let conf = read_config("");
    assert!(conf.dbpath.is_none());
    assert!(conf.repos.is_empty());
    assert!(conf.cachedir.is_none());
}

#[test]
fn same_text_same_configuration() {
    let a = read_config(TEST_CONFIG);
    let b = read_config(TEST_CONFIG);
    assert_eq!(a.dbpath, b.dbpath);
    assert_eq!(a.cachedir, b.cachedir);
    assert_eq!(a.repos, b.repos);
}

#[test]
fn options_after_repository_section() {
    let conf = read_config("[core]\nDBPath = /wrong\nCacheDir = /wrong\n[options]\nDBPath = /db\nCacheDir = /cache\n");
    assert_eq!(conf.dbpath.as_deref(), Some("/db"));
    assert_eq!(conf.cachedir.as_deref(), Some("/cache"));
    assert_eq!(conf.repos, ["core"]);
}

#[test]
fn first_dbpath_wins() {
    let conf = read_config("[options]\nDBPath = /first\nDBPath = /second\nCacheDir=/c1\nCacheDir=/c2\n");
    assert_eq!(conf.dbpath.as_deref(), Some("/first"));
    assert_eq!(conf.cachedir.as_deref(), Some("/c1"));
}

#[test]
fn repository_listed_twice_appears_twice() {
    let conf = read_config("[core]\n[extra]\n[core]\n");
    assert_eq!(conf.repos, ["core", "extra", "core"]);
}

#[test]
fn section_headers_are_trimmed_and_options_are_not() {
    let conf = read_config(
        "  [options]  \r\n\tDBPath\t=\u{3000}/db path \r\n  # CacheDir = /x\n [ core ]\n#[skipped]\n[]\n[unterminated\n",
    );
    assert_eq!(conf.dbpath.as_deref(), Some("/db path"));
    assert!(conf.cachedir.is_none());
    assert_eq!(conf.repos, [" core ", ""]);
}

#[test]
fn value_keeps_later_equals_signs() {
    let conf = read_config("[options]\nCacheDir = /a=b\n");
    assert_eq!(conf.cachedir.as_deref(), Some("/a=b"));
}

#[test]
fn last_line_without_newline() {
    let conf = read_config("[options]\nDBPath = /db");
    assert_eq!(conf.dbpath.as_deref(), Some("/db"));
}

#[test]
fn keys_match_exactly() {
    let conf = read_config("[options]\ndbpath = /lower\nDBPathX = /x\nDBPath = /db\n");
    assert_eq!(conf.dbpath.as_deref(), Some("/db"));
}
