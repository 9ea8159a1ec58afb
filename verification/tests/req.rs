use dep_resolution::constraint::{Constraint, ReqType};
use dep_resolution::req::{Os, Req};
use dep_resolution::version::Version;

fn con(type_: ReqType, major: u32, minor: u32, patch: u32) -> Constraint {
    Constraint::new(type_, Version::new(major, minor, patch))
}

#[test]
fn requirements_with_constraints_are_read() {
    assert_eq!(
        Req::from_str("chardet (<3.1.0,>=3.0.2)").unwrap(),
        Req::new(
            "chardet".to_string(),
            vec![con(ReqType::Lt, 3, 1, 0), con(ReqType::Gte, 3, 0, 2)]
        )
    );
    assert_eq!(
        Req::from_str("idna>=2.5").unwrap(),
        Req::new("idna".to_string(), vec![con(ReqType::Gte, 2, 5, 0)])
    );
    assert_eq!(
        Req::from_str("zope.interface").unwrap(),
        Req::new("zope.interface".to_string(), vec![])
    );
    assert_eq!(Req::from_str("six ()").unwrap(), Req::new("six".to_string(), vec![]));
}

#[test]
fn markers_are_read() {
    let r = Req::from_str("pyOpenSSL (>=0.14) ; extra == 'security'").unwrap();
    assert_eq!(r.name, "pyOpenSSL");
    assert_eq!(r.constraints, vec![con(ReqType::Gte, 0, 14, 0)]);
    assert_eq!(r.extra, Some("security".to_string()));
    assert_eq!(r.sys_platform, None);
    assert_eq!(r.python_version, None);

    let r = Req::from_str(
        "win-inet-pton ; (sys_platform == \"win32\" and python_version == \"2.7\") and extra == 'socks'",
    )
    .unwrap();
    assert_eq!(r.name, "win-inet-pton");
    assert_eq!(r.constraints, vec![]);
    assert_eq!(r.extra, Some("socks".to_string()));
    assert_eq!(r.sys_platform, Some((ReqType::Exact, Os::Windows)));
    assert_eq!(r.python_version, Some(con(ReqType::Exact, 2, 7, 0)));
}

#[test]
fn later_conditions_count_and_others_are_passed_over() {
    let r = Req::from_str("a; os_name == 'nt' and extra == 'x' or extra=='y'").unwrap();
    assert_eq!(r.extra, Some("y".to_string()));
    let r = Req::from_str("a; sys_platform != 'darwin'").unwrap();
    assert_eq!(r.sys_platform, Some((ReqType::Ne, Os::Mac)));
    let r = Req::from_str("a; sys_platform == 'linux2'").unwrap();
    assert_eq!(r.sys_platform, Some((ReqType::Exact, Os::Linux)));
    let r = Req::from_str("a; sys_platform >= 'plan9'").unwrap();
    assert_eq!(r.sys_platform, Some((ReqType::Gte, Os::Other)));
    let r = Req::from_str("a; python_version ~= '3.6'").unwrap();
    assert_eq!(r.python_version, Some(con(ReqType::Caret, 3, 6, 0)));
}

#[test]
fn unreadable_requirements_are_refused() {
    for s in [
        "",
        " six",
        "(>=1.0)",
        "six (1.0)",
        "six (>=1.0",
        "six[all]",
        "six; python_version < 'three'",
        "six; extra != 'x'",
    ] {
        let e = Req::from_str(s).unwrap_err();
        assert_eq!(e.details, format!("Problem parsing requirement: {}", s));
    }
}

#[test]
fn requirements_are_the_same_if_all_their_parts_are() {
    let texts = [
        "a (>=1.0)",
        "b (>=1.0)",
        "a (>=1.1)",
        "a (>=1.0,<2.0)",
        "a (>=1.0); extra == 'x'",
        "a (>=1.0); extra == 'y'",
        "a (>=1.0); sys_platform == 'linux'",
        "a (>=1.0); sys_platform != 'linux'",
        "a (>=1.0); sys_platform == 'win32'",
        "a (>=1.0); python_version < '3.0'",
        "a (>=1.0); python_version < '3.1'",
    ];
    for (i, s) in texts.iter().enumerate() {
        for (j, t) in texts.iter().enumerate() {
            let r = Req::from_str(s).unwrap();
            let q = Req::from_str(t).unwrap();
            assert_eq!(r.same(&q), i == j);
        }
    }
    let r = Req::from_str("a (>=1.0); extra == 'x' and sys_platform == 'linux'").unwrap();
    assert!(r.clone().same(&r));
    assert_eq!(r.clone(), r);
}
