use dep_resolution::constraint::{is_compat, read_constraints, Constraint, ReqType};
use dep_resolution::version::Version;

fn v(major: u32, minor: u32, patch: u32) -> Version {
    Version::new(major, minor, patch)
}

fn c(type_: ReqType, version: Version) -> Constraint {
    Constraint::new(type_, version)
}

fn read(s: &str) -> Option<Vec<Constraint>> {
    let chars: Vec<char> = s.chars().collect();
    read_constraints(&chars)
}

#[test]
fn constraints_admit_versions() {
    let w = v(1, 4, 5);
    assert!(c(ReqType::Exact, w).is_compatible(&w));
    assert!(!c(ReqType::Exact, w).is_compatible(&v(1, 4, 6)));
    assert!(!c(ReqType::Ne, w).is_compatible(&w));
    assert!(c(ReqType::Ne, w).is_compatible(&v(0, 0, 0)));
    assert!(c(ReqType::Gte, w).is_compatible(&w));
    assert!(!c(ReqType::Gte, w).is_compatible(&v(1, 4, 4)));
    assert!(c(ReqType::Lte, w).is_compatible(&w));
    assert!(!c(ReqType::Lte, w).is_compatible(&v(1, 5, 0)));
    assert!(!c(ReqType::Gt, w).is_compatible(&w));
    assert!(c(ReqType::Gt, w).is_compatible(&v(2, 0, 0)));
    assert!(!c(ReqType::Lt, w).is_compatible(&w));
    assert!(c(ReqType::Lt, w).is_compatible(&v(1, 3, 99)));
    assert!(c(ReqType::Caret, w).is_compatible(&v(1, 9, 0)));
    assert!(!c(ReqType::Caret, w).is_compatible(&v(2, 0, 0)));
    assert!(!c(ReqType::Caret, w).is_compatible(&v(1, 4, 4)));
    assert!(c(ReqType::Tilde, w).is_compatible(&v(1, 4, 9)));
    assert!(!c(ReqType::Tilde, w).is_compatible(&v(1, 5, 0)));
}

#[test]
fn all_constraints_must_be_met() {
    let both = vec![c(ReqType::Gte, v(3, 0, 2)), c(ReqType::Lt, v(3, 1, 0))];
    assert!(is_compat(&both, &v(3, 0, 4)));
    assert!(!is_compat(&both, &v(3, 1, 0)));
    assert!(!is_compat(&both, &v(3, 0, 1)));
    assert!(is_compat(&[], &v(9, 9, 9)));
}

#[test]
fn ranges_of_constraints() {
    let w = v(1, 4, 5);
    let top = v(u32::MAX, u32::MAX, u32::MAX);
    let zero = v(0, 0, 0);
    assert_eq!(c(ReqType::Exact, w).compatible_range(), vec![(w, w)]);
    assert_eq!(c(ReqType::Gte, w).compatible_range(), vec![(w, top)]);
    assert_eq!(c(ReqType::Lte, w).compatible_range(), vec![(zero, w)]);
    assert_eq!(c(ReqType::Gt, w).compatible_range(), vec![(v(1, 4, 6), top)]);
    assert_eq!(c(ReqType::Lt, w).compatible_range(), vec![(zero, v(1, 4, 4))]);
    assert_eq!(
        c(ReqType::Ne, w).compatible_range(),
        vec![(zero, v(1, 4, 4)), (v(1, 4, 6), top)]
    );
    assert_eq!(c(ReqType::Caret, w).compatible_range(), vec![(w, v(1, u32::MAX, u32::MAX))]);
    assert_eq!(c(ReqType::Tilde, w).compatible_range(), vec![(w, v(1, 4, u32::MAX))]);
}

#[test]
fn ranges_at_the_ends() {
    let top = v(u32::MAX, u32::MAX, u32::MAX);
    let zero = v(0, 0, 0);
    assert_eq!(c(ReqType::Lt, v(2, 0, 0)).compatible_range()[0].1, v(1, u32::MAX, u32::MAX));
    assert_eq!(c(ReqType::Lt, v(2, 1, 0)).compatible_range()[0].1, v(2, 0, u32::MAX));
    assert_eq!(c(ReqType::Gt, v(2, 1, u32::MAX)).compatible_range()[0].0, v(2, 2, 0));
    assert_eq!(c(ReqType::Gt, v(2, u32::MAX, u32::MAX)).compatible_range()[0].0, v(3, 0, 0));
    assert_eq!(c(ReqType::Lt, zero).compatible_range(), vec![(top, zero)]);
    assert_eq!(c(ReqType::Gt, top).compatible_range(), vec![(top, zero)]);
}

#[test]
fn admitted_versions_lie_in_the_ranges() {
    let types = [
        ReqType::Exact,
        ReqType::Ne,
        ReqType::Gte,
        ReqType::Lte,
        ReqType::Gt,
        ReqType::Lt,
        ReqType::Caret,
        ReqType::Tilde,
    ];
    let versions = [v(0, 0, 0), v(1, 4, 4), v(1, 4, 5), v(1, 4, 6), v(1, 5, 0), v(2, 0, 0)];
    for t in types {
        for w in versions {
            for x in versions {
                let con = c(t, w);
                let inside = con.compatible_range().iter().any(|r| r.0 <= x && x <= r.1);
                assert_eq!(con.is_compatible(&x), inside);
            }
        }
    }
}

#[test]
fn constraints_are_read() {
    assert_eq!(
        read(">=3.0.2, <3.1"),
        Some(vec![c(ReqType::Gte, v(3, 0, 2)), c(ReqType::Lt, v(3, 1, 0))])
    );
    assert_eq!(read(" == 2.0 "), Some(vec![c(ReqType::Exact, v(2, 0, 0))]));
    assert_eq!(
        read("!=1.5.7,<=2,>0.1"),
        Some(vec![
            c(ReqType::Ne, v(1, 5, 7)),
            c(ReqType::Lte, v(2, 0, 0)),
            c(ReqType::Gt, v(0, 1, 0))
        ])
    );
    assert_eq!(read("~=1.4.5"), Some(vec![c(ReqType::Tilde, v(1, 4, 5))]));
    assert_eq!(read("~=1.4"), Some(vec![c(ReqType::Caret, v(1, 4, 0))]));
    assert_eq!(read("  "), Some(vec![]));
}

#[test]
fn unreadable_constraints_are_refused() {
    for s in ["1.0", "=1.0", "===1.0", ">=", ">=1.0,", "~=1", ">=1.0 <2.0", "==2.7.*"] {
        assert_eq!(read(s), None);
    }
}
