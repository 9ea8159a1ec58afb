use dep_resolution::table::Table;
use dep_resolution::version::Version;
use dep_resolution::warehouse::{
    get_version_info, get_warehouse_release, has_release, has_version, warehouse_url,
    WarehouseData, WarehouseDigests, WarehouseInfo, WarehouseRelease,
};

fn file(filename: &str) -> WarehouseRelease {
    WarehouseRelease {
        filename: filename.to_string(),
        has_sig: true,
        digests: WarehouseDigests { md5: "0a".to_string(), sha256: "1b".to_string() },
        packagetype: "sdist".to_string(),
        python_version: "source".to_string(),
        requires_python: Some(">=3.5".to_string()),
        url: format!("https://files/{}", filename),
        dependencies: Some(vec!["numpy".to_string()]),
    }
}

fn data(name: &str, version: &str, releases: &[&str]) -> WarehouseData {
    let mut table = Table::new();
    for r in releases {
        table.insert(r.to_string(), vec![file(&format!("{}-{}.tar.gz", name, r))]);
    }
    WarehouseData {
        info: WarehouseInfo {
            name: name.to_string(),
            requires_dist: None,
            requires_python: None,
            version: version.to_string(),
        },
        releases: table,
        urls: vec![],
    }
}

#[test]
fn warehouse_versions() {
    let releases = [
        "0.0.11", "0.0.1", "0.0.2", "0.0.3", "0.0.4", "0.0.5", "0.0.6", "0.0.7", "0.0.8", "0.0.9",
        "0.0.10",
    ];
    let mut versions = get_version_info(data("scinot", "0.0.11", &releases)).2;
    versions.sort();
    assert_eq!(
        versions,
        vec![
            Version::new(0, 0, 1),
            Version::new(0, 0, 2),
            Version::new(0, 0, 3),
            Version::new(0, 0, 4),
            Version::new(0, 0, 5),
            Version::new(0, 0, 6),
            Version::new(0, 0, 7),
            Version::new(0, 0, 8),
            Version::new(0, 0, 9),
            Version::new(0, 0, 10),
            Version::new(0, 0, 11),
        ]
    );
}

#[test]
fn where_the_warehouse_tells_of_a_package() {
    assert_eq!(warehouse_url("scinot"), "https://pypi.org/pypi/scinot/json");
}

#[test]
fn the_latest_version_is_the_one_given() {
    let (name, latest, all) = get_version_info(data("IPython", "7.8", &["7.8.0", "8.0.0rc1", "9"]));
    assert_eq!(name, "IPython");
    assert_eq!(latest, Version::new(7, 8, 0));
    assert_eq!(all, vec![Version::new(7, 8, 0), Version::new(9, 0, 0)]);
}

#[test]
fn the_latest_version_is_the_greatest_if_none_can_be_read() {
    let d = data("x", "2.0.dev1", &["1.9", "1.10", "2.0.dev1", "1.2.3"]);
    assert!(has_version(&d));
    let (_, latest, all) = get_version_info(d);
    assert_eq!(latest, Version::new(1, 10, 0));
    assert_eq!(all.len(), 3);
}

#[test]
fn a_package_may_have_no_version() {
    assert!(!has_version(&data("x", "dev", &["1.0rc1"])));
    assert!(has_version(&data("x", "1", &[])));
}

#[test]
fn releases_are_found_in_full_or_shorter() {
    let d = data("x", "1", &["1.0.0", "1.0", "2.0", "2", "3", "4.1", "5.0.1"]);
    let found = |a, b, c| get_warehouse_release(&d, &Version::new(a, b, c))[0].filename.clone();
    assert_eq!(found(1, 0, 0), "x-1.0.0.tar.gz");
    assert_eq!(found(2, 0, 0), "x-2.0.tar.gz");
    assert_eq!(found(3, 0, 0), "x-3.tar.gz");
    assert_eq!(found(4, 1, 0), "x-4.1.tar.gz");
    assert_eq!(found(5, 0, 1), "x-5.0.1.tar.gz");
}

#[test]
fn releases_that_are_not_listed() {
    let d = data("x", "1", &["1", "2.0", "3.1"]);
    assert!(has_release(&d, &Version::new(1, 0, 0)));
    assert!(!has_release(&d, &Version::new(1, 1, 0)));
    assert!(!has_release(&d, &Version::new(2, 0, 1)));
    assert!(!has_release(&d, &Version::new(3, 0, 0)));
    assert!(has_release(&d, &Version::new(3, 1, 0)));
}

#[test]
fn the_files_of_a_release_are_given_whole() {
    let d = data("x", "1", &["1.0.0"]);
    let files = get_warehouse_release(&d, &Version::new(1, 0, 0));
    assert_eq!(format!("{:?}", files), format!("{:?}", vec![file("x-1.0.0.tar.gz")]));
}
