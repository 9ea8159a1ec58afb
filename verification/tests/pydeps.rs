use dep_resolution::pydeps::{fetch_req_data, multiple_body, ReqCache, ReqQuery, VersionInfo};
use dep_resolution::req::Req;
use dep_resolution::table::Table;
use dep_resolution::version::Version;

fn v(major: u32, minor: u32, patch: u32) -> Version {
    Version::new(major, minor, patch)
}

fn known(name: &str, latest: Version, all: Vec<Version>) -> Table<VersionInfo> {
    let mut t = Table::new();
    t.insert(name.to_string(), (name.to_string(), latest, all));
    t
}

fn asked(text: &str, latest: Version, all: Vec<Version>) -> Vec<Version> {
    let req = Req::from_str(text).unwrap();
    let cache = known(&req.name, latest, all);
    match fetch_req_data(&[&req], &cache) {
        ReqQuery::Packages(t) => t.get(&req.name).unwrap().clone(),
        ReqQuery::Versions(name) => panic!("asks for {}", name),
    }
}

#[test]
fn unreadable_requirements_are_left_out() {
    let cache = ReqCache {
        name: None,
        version: "1.0".to_string(),
        requires_python: None,
        requires_dist: vec![
            "a (>=1.0)".to_string(),
            "b (what)".to_string(),
            "c".to_string(),
        ],
    };
    let reqs = cache.reqs();
    assert_eq!(reqs, vec![Req::from_str("a (>=1.0)").unwrap(), Req::from_str("c").unwrap()]);
}

#[test]
fn versions_are_sent_in_full() {
    let mut packages = Table::new();
    packages.insert("a".to_string(), vec![v(1, 2, 0), v(3, 0, 0)]);
    packages.insert("b".to_string(), vec![]);
    let body = multiple_body(&packages);
    assert_eq!(body.packages.len(), 2);
    assert_eq!(
        body.packages.entry(0),
        (&"a".to_string(), &vec!["1.2.0".to_string(), "3.0.0".to_string()])
    );
    assert_eq!(body.packages.entry(1), (&"b".to_string(), &vec![]));
}

#[test]
fn versions_of_unknown_packages_are_asked_for_first() {
    let a = Req::from_str("a").unwrap();
    let b = Req::from_str("b").unwrap();
    let c = Req::from_str("c").unwrap();
    let cache = known("a", v(1, 0, 0), vec![v(1, 0, 0)]);
    match fetch_req_data(&[&a, &b, &c], &cache) {
        ReqQuery::Versions(name) => assert_eq!(name, "b"),
        ReqQuery::Packages(_) => panic!("asks for requirements"),
    }
}

#[test]
fn nothing_is_asked_about_nothing() {
    let cache = known("a", v(1, 0, 0), vec![v(1, 0, 0)]);
    match fetch_req_data(&[], &cache) {
        ReqQuery::Packages(t) => assert_eq!(t.len(), 0),
        ReqQuery::Versions(name) => panic!("asks for {}", name),
    }
}

#[test]
fn the_newest_compatible_version_is_asked_for() {
    let all = vec![v(1, 0, 0), v(2, 1, 0), v(1, 5, 3), v(3, 0, 0)];
    assert_eq!(asked("a", v(3, 0, 0), all.clone()), vec![v(3, 0, 0)]);
    assert_eq!(asked("a (<2.1)", v(3, 0, 0), all.clone()), vec![v(1, 5, 3)]);
    assert_eq!(asked("a (<=2.1,>=1.2)", v(3, 0, 0), all.clone()), vec![v(2, 1, 0)]);
    assert_eq!(asked("a (~=1.0)", v(3, 0, 0), all.clone()), vec![v(1, 5, 3)]);
    assert_eq!(asked("a (==1.0)", v(3, 0, 0), all), vec![v(1, 0, 0)]);
}

#[test]
fn nothing_past_the_latest_version_is_asked_for() {
    let all = vec![v(1, 0, 0), v(2, 0, 0), v(3, 0, 0)];
    assert_eq!(asked("a (>=1.0)", v(2, 0, 0), all), vec![v(2, 0, 0)]);
}

#[test]
fn versions_that_the_constraints_exclude_are_not_asked_for() {
    let all = vec![v(1, 0, 0), v(2, 0, 0)];
    assert_eq!(asked("a (!=2.0.0)", v(2, 0, 0), all.clone()), vec![v(1, 0, 0)]);
    assert_eq!(asked("a (!=1.0)", v(2, 0, 0), all.clone()), vec![v(2, 0, 0)]);
    assert_eq!(asked("a (!=2.0,!=1.0)", v(2, 0, 0), all.clone()), vec![]);
    assert_eq!(asked("a (>=5.0)", v(2, 0, 0), all.clone()), vec![]);
    assert_eq!(asked("a (<1.0)", v(2, 0, 0), all), vec![]);
    let top = v(u32::MAX, u32::MAX, u32::MAX);
    let last = v(u32::MAX, u32::MAX, u32::MAX - 1);
    let text = format!("a (!={})", top.to_string());
    assert_eq!(asked(&text, top, vec![v(1, 0, 0), last, top]), vec![last]);
}

#[test]
fn the_best_version_for_each_requirement_is_asked_for() {
    let a = Req::from_str("a (<2.0)").unwrap();
    let b = Req::from_str("a (<3.0)").unwrap();
    let c = Req::from_str("a (<=2.0)").unwrap();
    let d = Req::from_str("a (>=4.0)").unwrap();
    let cache = known("a", v(3, 0, 0), vec![v(1, 0, 0), v(2, 0, 0), v(3, 0, 0)]);
    match fetch_req_data(&[&a, &b, &c, &d], &cache) {
        ReqQuery::Packages(t) => {
            assert_eq!(t.len(), 1);
            assert_eq!(t.entry(0), (&"a".to_string(), &vec![v(1, 0, 0), v(2, 0, 0)]));
        }
        ReqQuery::Versions(name) => panic!("asks for {}", name),
    }
}
