use dep_resolution::choice::Failure;
use dep_resolution::graph::{Action, GuessGraph};
use dep_resolution::pydeps::ReqCache;
use dep_resolution::req::{Os, Req};
use dep_resolution::resolve::{resolve, specified_more_than_once};
use dep_resolution::settings::LockPack;
use dep_resolution::version::Version;

fn v(major: u32, minor: u32, patch: u32) -> Version {
    Version::new(major, minor, patch)
}

fn reqs(texts: &[&str]) -> Vec<Req> {
    texts.iter().map(|s| Req::from_str(s).unwrap()).collect()
}

/// An index of packages: name, proper name, version, requirements.
type Index<'a> = &'a [(&'a str, &'a str, Version, &'a [&'a str])];

/// Runs a search against an index, and notes what is asked.
fn run(mut graph: GuessGraph, index: Index) -> (GuessGraph, Vec<String>) {
    let mut asked = Vec::new();
    loop {
        match graph.action() {
            Action::Versions(name) => {
                asked.push(format!("versions of {}", name));
                let all: Vec<Version> =
                    index.iter().filter(|p| p.0 == name).map(|p| p.2).collect();
                let proper = index.iter().find(|p| p.0 == name).map(|p| p.1.to_string());
                let latest = all.iter().max().cloned();
                graph.versions(proper.map(|n| (n, latest.unwrap(), all)));
            }
            Action::Dependencies(packages) => {
                let mut answer = Vec::new();
                for i in 0..packages.len() {
                    let (name, versions) = packages.entry(i);
                    for version in versions {
                        asked.push(format!("{} {}", name, version.to_string()));
                        let p = index.iter().find(|p| p.0 == name && p.2 == *version).unwrap();
                        answer.push(ReqCache {
                            name: Some(name.clone()),
                            version: version.to_string(),
                            requires_python: None,
                            requires_dist: p.3.iter().map(|s| s.to_string()).collect(),
                        });
                    }
                }
                graph.dependencies(Some(answer));
            }
            Action::Done => break,
            Action::Failed(_) => break,
        }
    }
    (graph, asked)
}

fn search(given: &[&str], locked: Vec<LockPack>, index: Index) -> (GuessGraph, Vec<String>) {
    let graph = GuessGraph::new(reqs(given), locked, Os::Linux, vec![], v(3, 7, 0));
    run(graph, index)
}

fn names(graph: &GuessGraph) -> Vec<String> {
    graph.found().iter().map(|d| format!("{} {}", d.0, d.1.to_string())).collect()
}

fn pack(name: &str, version: Version, deps: &[(&str, Version)]) -> LockPack {
    (name.to_string(), version, deps.iter().map(|d| (d.0.to_string(), d.1)).collect())
}

const INDEX: Index = &[
    ("ipython", "IPython", Version { major: 7, minor: 8, patch: 0 }, &["traits (>=4.2)", "pickle"]),
    ("traits", "traits", Version { major: 4, minor: 3, patch: 2 }, &["six"]),
    ("traits", "traits", Version { major: 4, minor: 1, patch: 0 }, &[]),
    ("pickle", "pickle", Version { major: 0, minor: 7, patch: 5 }, &["win ; sys_platform == 'win32'"]),
    ("six", "six", Version { major: 1, minor: 12, patch: 0 }, &[]),
    ("six", "six", Version { major: 1, minor: 10, patch: 0 }, &[]),
];

#[test]
fn a_search_goes_depth_first_and_asks_once_for_each_list() {
    let (graph, asked) = search(&["ipython"], vec![], INDEX);
    assert_eq!(names(&graph), vec!["ipython 7.8.0", "traits 4.3.2", "six 1.12.0", "pickle 0.7.5"]);
    assert_eq!(
        asked,
        vec![
            "versions of ipython",
            "ipython 7.8.0",
            "versions of traits",
            "versions of pickle",
            "traits 4.3.2",
            "pickle 0.7.5",
            "versions of six",
            "six 1.12.0",
        ]
    );
}

#[test]
fn resolved_packages_name_what_they_depend_on() {
    let (graph, _) = search(&["ipython"], vec![], INDEX);
    assert_eq!(
        resolve(&graph),
        vec![
            pack("IPython", v(7, 8, 0), &[("traits", v(4, 3, 2)), ("pickle", v(0, 7, 5))]),
            pack("traits", v(4, 3, 2), &[("six", v(1, 12, 0))]),
            pack("six", v(1, 12, 0), &[]),
            pack("pickle", v(0, 7, 5), &[]),
        ]
    );
    assert!(specified_more_than_once(&graph).is_empty());
}

#[test]
fn one_package_is_found_for_each_requirement_searched_for() {
    let (graph, _) = search(&["traits (<4.2)", "six", "pickle"], vec![], INDEX);
    assert_eq!(names(&graph), vec!["traits 4.1.0", "six 1.12.0", "pickle 0.7.5"]);
}

#[test]
fn packages_found_several_times_are_installed_once() {
    let (graph, _) = search(&["six (<1.11)", "traits", "ipython"], vec![], INDEX);
    assert_eq!(
        names(&graph),
        vec![
            "six 1.10.0",
            "traits 4.3.2",
            "six 1.12.0",
            "ipython 7.8.0",
            "traits 4.3.2",
            "pickle 0.7.5",
        ]
    );
    assert_eq!(
        resolve(&graph),
        vec![
            pack("six", v(1, 10, 0), &[]),
            pack("traits", v(4, 3, 2), &[("six", v(1, 10, 0))]),
            pack("IPython", v(7, 8, 0), &[("traits", v(4, 3, 2)), ("pickle", v(0, 7, 5))]),
            pack("pickle", v(0, 7, 5), &[]),
        ]
    );
    assert_eq!(specified_more_than_once(&graph), vec!["six", "traits"]);
}

#[test]
fn a_package_specified_twice_in_the_lock_file_version_is_installed_once() {
    let locked = vec![pack("a", v(1, 0, 0), &[])];
    let (graph, asked) = search(&["a", "a (==1.0.0)"], locked, &[]);
    assert!(asked.is_empty());
    assert_eq!(names(&graph), vec!["a 1.0.0", "a 1.0.0"]);
    assert_eq!(resolve(&graph), vec![pack("a", v(1, 0, 0), &[])]);
    assert_eq!(specified_more_than_once(&graph), vec!["a"]);
}

const TWO: Index = &[
    ("a", "A", Version { major: 1, minor: 0, patch: 0 }, &[]),
    ("a", "A", Version { major: 2, minor: 0, patch: 0 }, &[]),
];

#[test]
fn a_package_specified_twice_has_a_version_that_meets_both() {
    for given in [["a", "a (==1.0.0)"], ["a (==1.0.0)", "a"]] {
        let (graph, _) = search(&given, vec![], TWO);
        assert_eq!(graph.searched().len(), 2);
        assert_eq!(resolve(&graph), vec![pack("A", v(1, 0, 0), &[])]);
        assert_eq!(specified_more_than_once(&graph), vec!["A"]);
    }
}

#[test]
fn a_package_without_a_version_that_meets_all_is_left_out_and_named() {
    let index: Index = &[
        ("a", "A", Version { major: 1, minor: 0, patch: 0 }, &[]),
        ("a", "A", Version { major: 2, minor: 0, patch: 0 }, &[]),
        ("b", "b", Version { major: 1, minor: 0, patch: 0 }, &["a (==1.0)", "c"]),
        ("c", "c", Version { major: 1, minor: 0, patch: 0 }, &["a (==2.0)"]),
    ];
    let (graph, _) = search(&["b"], vec![], index);
    assert_eq!(names(&graph), vec!["b 1.0.0", "a 1.0.0", "c 1.0.0", "a 2.0.0"]);
    assert_eq!(
        resolve(&graph),
        vec![pack("b", v(1, 0, 0), &[("c", v(1, 0, 0))]), pack("c", v(1, 0, 0), &[])]
    );
    assert_eq!(specified_more_than_once(&graph), vec!["A"]);
}

#[test]
fn dependencies_are_listed_once_for_each_requirement() {
    let index: Index = &[
        ("a", "a", Version { major: 1, minor: 0, patch: 0 }, &["b", "c", "b (<2.0)"]),
        ("b", "b", Version { major: 1, minor: 0, patch: 0 }, &[]),
        ("b", "b", Version { major: 2, minor: 0, patch: 0 }, &[]),
        ("c", "c", Version { major: 1, minor: 0, patch: 0 }, &["b (>=1.0)"]),
    ];
    let (graph, _) = search(&["a"], vec![], index);
    let (b, c) = (("b", v(1, 0, 0)), ("c", v(1, 0, 0)));
    assert_eq!(
        resolve(&graph),
        vec![
            pack("a", v(1, 0, 0), &[b, c, b]),
            pack("b", v(1, 0, 0), &[]),
            pack("c", v(1, 0, 0), &[b]),
        ]
    );
}

#[test]
fn a_version_left_out_by_a_constraint_is_not_installed() {
    let (graph, asked) = search(&["a (!=2.0.0)"], vec![], TWO);
    assert_eq!(asked, vec!["versions of a", "a 1.0.0"]);
    assert_eq!(resolve(&graph), vec![pack("A", v(1, 0, 0), &[])]);
}

#[test]
fn what_is_installed_reproduces_itself() {
    let locked = vec![
        pack("unused", v(9, 0, 0), &[]),
        pack("b", v(0, 9, 0), &[("Cc", v(3, 0, 0))]),
        pack("Cc", v(3, 0, 0), &[]),
        pack("a", v(1, 0, 0), &[("b", v(0, 9, 0)), ("Cc", v(3, 0, 0))]),
    ];
    let given = ["a (>=1.0)", "b"];
    let (graph, asked) = search(&given, locked, &[]);
    assert!(asked.is_empty());
    let out = resolve(&graph);
    assert_eq!(
        out,
        vec![
            pack("a", v(1, 0, 0), &[("b", v(0, 9, 0)), ("Cc", v(3, 0, 0))]),
            pack("b", v(0, 9, 0), &[("Cc", v(3, 0, 0))]),
            pack("Cc", v(3, 0, 0), &[]),
        ]
    );
    let (again, asked) = search(&given, out.clone(), &[]);
    assert!(asked.is_empty());
    assert_eq!(names(&again), names(&graph));
    assert_eq!(resolve(&again), out);
}

#[test]
fn the_newest_version_that_meets_several_requirements_is_installed() {
    let index: Index = &[
        ("a", "a", Version { major: 1, minor: 0, patch: 0 }, &[]),
        ("a", "a", Version { major: 2, minor: 0, patch: 0 }, &[]),
        ("a", "a", Version { major: 2, minor: 5, patch: 0 }, &[]),
        ("a", "a", Version { major: 3, minor: 0, patch: 0 }, &[]),
        ("b", "b", Version { major: 1, minor: 0, patch: 0 }, &["a (<3.0)", "a (>=1.0)"]),
    ];
    let locked = vec![pack("a", v(0, 9, 0), &[])];
    let (graph, _) = search(&["b", "a (!=3.0,>=1.0)"], locked, index);
    assert_eq!(
        resolve(&graph),
        vec![
            pack("b", v(1, 0, 0), &[("a", v(2, 5, 0)), ("a", v(2, 5, 0))]),
            pack("a", v(2, 5, 0), &[]),
        ]
    );
    assert_eq!(specified_more_than_once(&graph), vec!["a"]);
}

#[test]
fn a_requirement_is_answered_by_the_locked_version_that_meets_it() {
    let locked = vec![pack("a", v(1, 0, 0), &[]), pack("a", v(2, 0, 0), &[])];
    let (graph, asked) = search(&["a (>=2.0.0)"], locked, &[]);
    assert!(asked.is_empty());
    assert_eq!(resolve(&graph), vec![pack("a", v(2, 0, 0), &[])]);
    assert!(specified_more_than_once(&graph).is_empty());
}

#[test]
fn a_locked_version_is_kept() {
    let locked = vec![pack("a", v(1, 0, 0), &[])];
    let (graph, asked) = search(&["a (>=1.0)"], locked, TWO);
    assert!(asked.is_empty());
    assert_eq!(resolve(&graph), vec![pack("a", v(1, 0, 0), &[])]);
}

#[test]
fn names_that_cannot_be_read_are_dropped_once() {
    let locked = vec![
        pack("a", v(1, 0, 0), &[("what?", v(1, 0, 0)), ("b", v(2, 0, 0))]),
        pack("b", v(2, 0, 0), &[]),
    ];
    let (graph, asked) = search(&["a"], locked, &[]);
    assert!(asked.is_empty());
    let out = resolve(&graph);
    assert_eq!(
        out,
        vec![pack("a", v(1, 0, 0), &[("b", v(2, 0, 0))]), pack("b", v(2, 0, 0), &[])]
    );
    let (again, asked) = search(&["a"], out.clone(), &[]);
    assert!(asked.is_empty());
    assert_eq!(resolve(&again), out);
}

#[test]
fn circles_come_to_an_end() {
    let index: Index = &[
        ("a", "a", Version { major: 1, minor: 0, patch: 0 }, &["b"]),
        ("b", "b", Version { major: 1, minor: 0, patch: 0 }, &["a", "b", "a (>=1.0)"]),
    ];
    let (graph, _) = search(&["a"], vec![], index);
    assert_eq!(names(&graph), vec!["a 1.0.0", "b 1.0.0", "a 1.0.0"]);
    let (a, b) = (("a", v(1, 0, 0)), ("b", v(1, 0, 0)));
    assert_eq!(
        resolve(&graph),
        vec![pack("a", v(1, 0, 0), &[b]), pack("b", v(1, 0, 0), &[a, b, a])]
    );
}

#[test]
fn the_lock_file_saves_asking() {
    let locked = vec![
        pack("ipython", v(7, 0, 0), &[("traits", v(4, 1, 0)), ("six", v(1, 10, 0))]),
        pack("traits", v(4, 1, 0), &[]),
        pack("six", v(1, 10, 0), &[]),
    ];
    let (graph, asked) = search(&["ipython (>=7.0)"], locked, &[]);
    assert!(asked.is_empty());
    assert_eq!(names(&graph), vec!["ipython 7.0.0", "traits 4.1.0", "six 1.10.0"]);
    assert_eq!(
        resolve(&graph),
        vec![
            pack("ipython", v(7, 0, 0), &[("traits", v(4, 1, 0)), ("six", v(1, 10, 0))]),
            pack("traits", v(4, 1, 0), &[]),
            pack("six", v(1, 10, 0), &[]),
        ]
    );
}

#[test]
fn what_the_lock_file_does_not_answer_is_asked_for() {
    let locked = vec![pack("ipython", v(7, 0, 0), &[("traits", v(4, 3, 2))])];
    let (graph, asked) = search(&["pickle", "ipython"], locked, INDEX);
    assert_eq!(
        names(&graph),
        vec!["pickle 0.7.5", "ipython 7.0.0", "traits 4.3.2", "six 1.12.0"]
    );
    assert_eq!(
        asked,
        vec![
            "versions of pickle",
            "pickle 0.7.5",
            "versions of traits",
            "traits 4.3.2",
            "versions of six",
            "six 1.12.0",
        ]
    );
}

#[test]
fn no_requirements_lead_to_no_packages() {
    let (graph, asked) = search(&["ipython; python_version < '3.0'"], vec![], INDEX);
    assert!(asked.is_empty());
    assert!(matches!(graph.action(), Action::Done));
    assert!(resolve(&graph).is_empty());
}

#[test]
fn extras_and_platform_decide() {
    let given = reqs(&["six; extra == 'x'", "traits; sys_platform == 'win32'"]);
    let graph = GuessGraph::new(given, vec![], Os::Windows, vec!["x".to_string()], v(3, 7, 0));
    let (graph, _) = run(graph, INDEX);
    assert_eq!(names(&graph), vec!["six 1.12.0", "traits 4.3.2", "six 1.12.0"]);
}

#[test]
fn a_search_fails_on_an_unclear_platform() {
    let (graph, asked) = search(&["six", "a; sys_platform > 'linux'"], vec![], INDEX);
    assert!(asked.is_empty());
    assert!(matches!(graph.action(), Action::Failed(Failure::Platform)));
}

#[test]
fn a_search_fails_without_versions() {
    let (graph, asked) = search(&["six", "nope"], vec![], INDEX);
    assert_eq!(asked, vec!["versions of six", "versions of nope"]);
    match graph.action() {
        Action::Failed(Failure::VersionInfo(name)) => assert_eq!(name, "nope"),
        other => panic!("{:?}", other),
    }
}

#[test]
fn a_search_fails_without_requirements() {
    let mut graph = GuessGraph::new(reqs(&["six"]), vec![], Os::Linux, vec![], v(3, 7, 0));
    graph.versions(Some(("six".to_string(), v(1, 0, 0), vec![v(1, 0, 0)])));
    graph.dependencies(None);
    assert!(matches!(graph.action(), Action::Failed(Failure::DependencyData)));
}

#[test]
fn a_search_fails_if_the_service_knows_no_such_package() {
    let (graph, _) = search(&["six (<1.0)"], vec![], INDEX);
    match graph.action() {
        Action::Failed(Failure::NoPackage(r)) => {
            assert_eq!(*r, Req::from_str("six (<1.0)").unwrap())
        }
        other => panic!("{:?}", other),
    }
}

#[test]
fn a_search_fails_on_a_version_that_cannot_be_read() {
    let mut graph = GuessGraph::new(reqs(&["six"]), vec![], Os::Linux, vec![], v(3, 7, 0));
    graph.versions(Some(("six".to_string(), v(1, 0, 0), vec![v(1, 0, 0)])));
    graph.dependencies(Some(vec![ReqCache {
        name: Some("six".to_string()),
        version: "1.0.dev0".to_string(),
        requires_python: None,
        requires_dist: vec![],
    }]));
    match graph.action() {
        Action::Failed(Failure::VersionText(s)) => assert_eq!(s, "1.0.dev0"),
        other => panic!("{:?}", other),
    }
}

#[test]
fn versions_of_a_package_are_asked_for_once() {
    let (_, asked) = search(&["six (<1.11)", "traits", "six", "ipython"], vec![], INDEX);
    for name in ["six", "traits", "ipython", "pickle"] {
        let question = format!("versions of {}", name);
        assert_eq!(asked.iter().filter(|a| **a == question).count(), 1);
    }
}

#[test]
fn what_was_found_stays_found() {
    let given = reqs(&["six", "traits"]);
    let mut graph = GuessGraph::new(given, vec![], Os::Linux, vec![], v(3, 7, 0));
    let mut found = names(&graph);
    assert!(found.is_empty());
    graph.versions(Some(("six".to_string(), v(1, 0, 0), vec![v(1, 0, 0)])));
    graph.versions(Some(("traits".to_string(), v(4, 0, 0), vec![v(4, 0, 0)])));
    let say = |name: &str, requires: &[&str]| ReqCache {
        name: Some(name.to_string()),
        version: "1.0".to_string(),
        requires_python: None,
        requires_dist: requires.iter().map(|s| s.to_string()).collect(),
    };
    graph.dependencies(Some(vec![say("six", &[]), say("traits", &["six (>=1.0)"])]));
    let now = names(&graph);
    assert_eq!(now, vec!["six 1.0.0", "traits 1.0.0"]);
    found = now;
    graph.dependencies(Some(vec![say("six", &["nothing (oops)"])]));
    assert_eq!(names(&graph)[..2], found[..]);
    assert_eq!(names(&graph), vec!["six 1.0.0", "traits 1.0.0", "six 1.0.0"]);
    assert!(matches!(graph.action(), Action::Done));
}

#[test]
fn the_newest_version_that_meets_the_constraints_is_installed() {
    let index: Index = &[
        ("a", "a", Version { major: 1, minor: 0, patch: 0 }, &[]),
        ("a", "a", Version { major: 1, minor: 9, patch: 4 }, &[]),
        ("a", "a", Version { major: 1, minor: 10, patch: 0 }, &[]),
        ("a", "a", Version { major: 2, minor: 0, patch: 0 }, &[]),
    ];
    let (graph, _) = search(&["a (>=1.0,<2.0)"], vec![], index);
    assert_eq!(resolve(&graph), vec![pack("a", v(1, 10, 0), &[])]);
}

#[test]
fn packages_required_are_followed_with_their_extras_left_out() {
    let index: Index = &[
        ("a", "a", Version { major: 1, minor: 0, patch: 0 }, &["b", "c ; extra == 'more'"]),
        ("b", "b", Version { major: 1, minor: 0, patch: 0 }, &["d (~=0.3)"]),
        ("d", "d", Version { major: 0, minor: 9, patch: 0 }, &[]),
    ];
    let (graph, _) = search(&["a"], vec![], index);
    assert_eq!(names(&graph), vec!["a 1.0.0", "b 1.0.0", "d 0.9.0"]);
}
