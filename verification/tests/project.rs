//! Project layout resolution, configuration, matching, and list scanning.

use lupdate_core::config::{Config, GeneralConfig, ProjectConfig, SelectError};
use lupdate_core::matcher::Matcher;
use lupdate_core::scan::{backslashify, normalize_listed_path, strip_prefix_bytes, trim_bytes};
use lupdate_core::{Paths, ProjectArgs, file_name_of, join_path};

fn b(s: &str) -> Vec<u8> {
    s.as_bytes().to_vec()
}

fn project(dir: Option<&str>, prefix: Option<&str>, res: Option<&str>) -> ProjectConfig {
    ProjectConfig {
        dir: dir.map(b),
        src: None,
        config: b("config.txt"),
        select: Vec::new(),
        exclude: Vec::new(),
        cache: b("cache"),
        key: None,
        pki: b("primary"),
        manifest: b("trunk"),
        res: res.map(b),
        prefix: prefix.map(b),
    }
}

fn general() -> GeneralConfig {
    GeneralConfig { src: b("src"), res: b("res") }
}

#[test]
fn paths_resolve_defaults() {
    let args = ProjectArgs::new(b("."), general(), project(None, None, None), b("client"), ());
    let p: Paths = args.paths();
    assert_eq!(p.proj_dir, b("./src/client"));
    assert_eq!(p.res_dir, b("./src/client/res"));
    assert_eq!(p.cache_dir_parent, b("./cache"));
    assert_eq!(p.cache_dir, b("./cache/client"));
    assert_eq!(p.prefix, b("client"));
    assert_eq!(p.res_prefix, b("client\\res"));
    assert_eq!(p.res_prefix_path(), b("client\\res\\"));
}

#[test]
fn paths_resolve_overrides() {
    let mut proj = project(Some("theproj"), Some("pre/fix"), Some(""));
    proj.key = Some(b("thekey"));
    let args = ProjectArgs::new(b("/w"), general(), proj, b("client"), ());
    let p = args.paths();
    assert_eq!(p.proj_dir, b("/w/src/theproj"));
    // an empty resource name keeps the project directory itself
    assert_eq!(p.res_dir, b("/w/src/theproj"));
    // prefixes are expressed with logical backslashes
    assert_eq!(p.prefix, b("pre\\fix"));
    assert_eq!(p.res_prefix, b("pre\\fix"));
    assert_eq!(p.cache_dir, b("/w/cache/thekey"));
    assert_eq!(p.res_prefix_path(), b("pre\\fix\\"));
}

#[test]
fn paths_helpers_behave() {
    assert_eq!(join_path(b"a".as_slice(), b"b".as_slice()), b("a/b"));
    assert_eq!(file_name_of(b"x/y/name".as_slice()), b("name"));
    assert_eq!(file_name_of(b"plain".as_slice()), b("plain"));
    assert_eq!(file_name_of(b"dir/".as_slice()), b(""));
}

#[test]
fn config_selects_named_project() {
    let cfg = Config {
        project: vec![(b("one"), project(None, None, None)), (b("two"), project(None, None, None))],
        general: general(),
    };
    assert_eq!(cfg.select_project(Some(b"two".as_slice())).unwrap(), 1);
    assert!(matches!(
        cfg.select_project(Some(b"three".as_slice())),
        Err(SelectError::NotFound)
    ));
    assert!(matches!(cfg.select_project(None), Err(SelectError::Ambiguous)));
}

#[test]
fn config_selects_sole_project() {
    let cfg = Config {
        project: vec![(b("only"), project(None, None, None))],
        general: general(),
    };
    assert_eq!(cfg.select_project(None).unwrap(), 0);
    let empty = Config { project: Vec::new(), general: general() };
    assert!(matches!(empty.select_project(None), Err(SelectError::Ambiguous)));
}

#[test]
fn matcher_empty_select_admits_all() {
    let m = Matcher::new(&Vec::new(), &Vec::new()).unwrap();
    assert!(m.accepts(b"anything/at\\all.txt"));
}

#[test]
fn matcher_select_and_exclude() {
    let m = Matcher::new(
        &vec![String::from("*.txt"), String::from("res/**")],
        &vec![String::from("*.pk")],
    )
    .unwrap();
    assert!(m.accepts(b"notes.txt"));
    assert!(m.accepts(b"res/deep/file.bin"));
    assert!(!m.accepts(b"image.png"));
    assert!(!m.accepts(b"huge.pk"));
}

#[test]
fn matcher_rejects_invalid_pattern() {
    assert!(Matcher::new(&vec![String::from("a[")], &Vec::new()).is_err());
}

#[test]
fn scan_normalizes_listed_lines() {
    let (logical, rel) = normalize_listed_path(b"client/res/a.txt \n", b"client\\").unwrap();
    assert_eq!(logical, b("client\\res\\a.txt \n"));
    assert_eq!(rel, b("res\\a.txt"));
    // a line without the prefix is reported, not resolved
    assert!(normalize_listed_path(b"other/res/a.txt", b"client\\").is_none());
    // relative mode strips nothing
    let (logical2, rel2) = normalize_listed_path(b"res/a.txt", b"").unwrap();
    assert_eq!(logical2, b("res\\a.txt"));
    assert_eq!(rel2, b("res\\a.txt"));
}

#[test]
fn scan_byte_helpers() {
    assert_eq!(backslashify(b"a/b\\c".as_slice()), b("a\\b\\c"));
    assert_eq!(trim_bytes(b"  x y\t\r\n".as_slice()), b("x y"));
    assert_eq!(trim_bytes(b" \t ".as_slice()), b(""));
    assert_eq!(strip_prefix_bytes(b"abc".as_slice(), b"ab".as_slice()).unwrap(), b("c"));
    assert!(strip_prefix_bytes(b"abc".as_slice(), b"zz".as_slice()).is_none());
}
