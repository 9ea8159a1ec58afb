use dep_resolution::choice::{choose_dep, Failure};
use dep_resolution::lock::{add_locked, found_in_locked, non_locked_reqs};
use dep_resolution::pydeps::ReqCache;
use dep_resolution::req::{Os, Req};
use dep_resolution::select::select_reqs;
use dep_resolution::settings::{LockPack, Settings};
use dep_resolution::version::Version;

fn v(major: u32, minor: u32, patch: u32) -> Version {
    Version::new(major, minor, patch)
}

fn req(s: &str) -> Req {
    Req::from_str(s).unwrap()
}

fn reqs(texts: &[&str]) -> Vec<Req> {
    texts.iter().map(|s| req(s)).collect()
}

fn settings(locked: Vec<LockPack>) -> Settings {
    Settings {
        locked,
        os: Os::Linux,
        extras: vec!["test".to_string()],
        py_vers: v(3, 7, 0),
    }
}

fn pack(name: &str, version: Version, deps: &[(&str, Version)]) -> LockPack {
    (name.to_string(), version, deps.iter().map(|d| (d.0.to_string(), d.1)).collect())
}

fn data(name: &str, version: &str, requires: &[&str]) -> ReqCache {
    ReqCache {
        name: Some(name.to_string()),
        version: version.to_string(),
        requires_python: None,
        requires_dist: requires.iter().map(|s| s.to_string()).collect(),
    }
}

#[test]
fn requirements_that_stand_are_selected() {
    let given = reqs(&[
        "a",
        "b; extra == 'test'",
        "c; extra == 'doc'",
        "d; sys_platform == 'linux'",
        "e; sys_platform == 'win32'",
        "f; sys_platform != 'win32'",
        "g; sys_platform != 'linux'",
        "h; python_version >= '3.6'",
        "i; python_version < '3.6'",
        "j (>=1.0)",
    ]);
    let searched = reqs(&["j (>=1.0)", "a (>=1.0)"]);
    let names: Vec<String> = select_reqs(&settings(vec![]), &searched, &given)
        .unwrap()
        .into_iter()
        .map(|r| r.name)
        .collect();
    assert_eq!(names, vec!["a", "b", "d", "f", "h"]);
}

#[test]
fn selecting_again_selects_nothing() {
    let given = reqs(&["a", "b; extra == 'test'", "c; extra == 'doc'", "a"]);
    let s = settings(vec![]);
    let selected = select_reqs(&s, &vec![], &given).unwrap();
    assert_eq!(selected.len(), 3);
    assert_eq!(select_reqs(&s, &selected, &given).unwrap(), vec![]);
}

#[test]
fn platforms_are_compared_by_equality_alone() {
    let s = settings(vec![]);
    let odd = req("a; sys_platform >= 'linux'");
    assert!(select_reqs(&s, &vec![], &vec![odd.clone()]).is_none());
    assert_eq!(select_reqs(&s, &vec![odd.clone()], &vec![odd]).unwrap(), vec![]);
    let skipped = req("a; sys_platform >= 'linux' and extra == 'doc'");
    assert_eq!(select_reqs(&s, &vec![], &vec![skipped]).unwrap(), vec![]);
}

#[test]
fn the_lock_file_answers_by_name_and_version() {
    let s = settings(vec![pack("a", v(1, 2, 0), &[]), pack("b", v(1, 0, 0), &[])]);
    assert!(found_in_locked(&s, &req("a (>=1.0)")));
    assert!(!found_in_locked(&s, &req("a (>=2.0)")));
    assert!(!found_in_locked(&s, &req("A")));
    let given = reqs(&["a", "c", "b (==1.0)", "b (<1.0)"]);
    let open: Vec<&Req> = non_locked_reqs(&s, &given);
    assert_eq!(open, vec![&given[1], &given[3]]);
}

#[test]
fn the_lock_file_speaks_as_the_service_does() {
    let s = settings(vec![pack("a", v(1, 2, 0), &[("b", v(0, 9, 1)), ("c", v(2, 0, 0))])]);
    let mut d = vec![data("x", "1.0", &[])];
    add_locked(&s, &reqs(&["q", "a (>=1.0)"]), &mut d);
    assert_eq!(d.len(), 2);
    assert_eq!(d[1].name, Some("a".to_string()));
    assert_eq!(d[1].version, "1.2.0");
    assert_eq!(d[1].requires_python, None);
    assert_eq!(d[1].requires_dist, vec!["b (==0.9.1)", "c (==2.0.0)"]);
    assert_eq!(d[1].reqs(), reqs(&["b (==0.9.1)", "c (==2.0.0)"]));
}

#[test]
fn the_lock_file_is_searched_without_regard_to_case() {
    let s = settings(vec![pack("FOO", v(1, 0, 0), &[]), pack("foo", v(2, 0, 0), &[])]);
    let mut d = vec![];
    add_locked(&s, &reqs(&["foo (>=2.0)"]), &mut d);
    assert_eq!(d.len(), 1);
    assert_eq!(d[0].name, Some("FOO".to_string()));
    assert_eq!(d[0].version, "1.0.0");
    let s = settings(vec![pack("Ä", v(1, 0, 0), &[]), pack("ä", v(2, 0, 0), &[])]);
    let mut d = vec![];
    add_locked(&s, &vec![Req { name: "ä".to_string(), ..req("a (>=2.0)") }], &mut d);
    assert_eq!(d[0].name, Some("Ä".to_string()));
}

#[test]
fn the_newest_version_is_taken() {
    let d = vec![
        data("a", "1.9", &["old"]),
        data("b", "7.0", &[]),
        data("a", "1.10", &["first"]),
        data("a", "1.10.0", &["second"]),
        data("a", "1.2", &[]),
    ];
    let (name, version, requires) = choose_dep(&d, &req("a")).unwrap();
    assert_eq!(name, "a");
    assert_eq!(version, v(1, 10, 0));
    assert_eq!(requires, reqs(&["second"]));
}

#[test]
fn versions_that_the_constraints_exclude_are_not_taken() {
    let d = vec![data("a", "1.9", &["old"]), data("a", "1.10", &[]), data("a", "1.2", &["b"])];
    let (_, version, requires) = choose_dep(&d, &req("a (<1.5)")).unwrap();
    assert_eq!(version, v(1, 2, 0));
    assert_eq!(requires, reqs(&["b"]));
    let (_, version, requires) = choose_dep(&d, &req("a (!=1.10)")).unwrap();
    assert_eq!(version, v(1, 9, 0));
    assert_eq!(requires, reqs(&["old"]));
    match choose_dep(&d, &req("a (>=2.0)")) {
        Err(Failure::NoPackage(r)) => assert_eq!(r, req("a (>=2.0)")),
        other => panic!("{:?}", other),
    }
}

#[test]
fn a_locked_package_is_taken_as_it_is() {
    let s = settings(vec![pack("a", v(1, 2, 0), &[("b", v(0, 9, 1))])]);
    let given = reqs(&["c", "a (>=1.0)"]);
    let mut d = vec![data("c", "3.0", &[])];
    add_locked(&s, &given, &mut d);
    let (name, version, requires) = choose_dep(&d, &given[1]).unwrap();
    assert_eq!((name.as_str(), version), ("a", v(1, 2, 0)));
    assert_eq!(requires, reqs(&["b (==0.9.1)"]));
}

#[test]
fn no_package_can_be_taken_without_data() {
    let mut unnamed = data("a", "1.0", &[]);
    unnamed.name = None;
    let d = vec![data("A", "1.0", &[]), unnamed];
    match choose_dep(&d, &req("a (>=1.0)")) {
        Err(Failure::NoPackage(r)) => assert_eq!(r, req("a (>=1.0)")),
        other => panic!("{:?}", other),
    }
}

#[test]
fn no_package_can_be_taken_with_a_version_that_cannot_be_read() {
    let d = vec![data("a", "1.0", &[]), data("a", "1.0b1", &[]), data("a", "dev", &[])];
    match choose_dep(&d, &req("a")) {
        Err(Failure::VersionText(s)) => assert_eq!(s, "1.0b1"),
        other => panic!("{:?}", other),
    }
}
