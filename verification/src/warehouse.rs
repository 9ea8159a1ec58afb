//! What the package warehouse says of a package: its versions and its files.

use crate::table::Table;
use crate::version::{
    greatest, greatest_is_greatest, max_version, parse_version, shorter_forms_read_back, written,
    written_med, written_reads_back, written_short, Version,
};
use vstd::prelude::*;
use vstd::string::StringExecFns;

verus! {

/// The general part of what the warehouse says of a package.
#[derive(Debug)]
pub struct WarehouseInfo {
    /// The name of the package in its proper spelling.
    pub name: String,
    pub requires_dist: Option<Vec<String>>,
    pub requires_python: Option<String>,
    /// The latest version.
    pub version: String,
}

/// The digests of a file.
#[derive(Debug)]
pub struct WarehouseDigests {
    pub md5: String,
    pub sha256: String,
}

/// A file of a release.
#[derive(Debug)]
pub struct WarehouseRelease {
    pub filename: String,
    pub has_sig: bool,
    pub digests: WarehouseDigests,
    pub packagetype: String,
    pub python_version: String,
    pub requires_python: Option<String>,
    pub url: String,
    pub dependencies: Option<Vec<String>>,
}

/// What is known of the digests of a file.
pub struct WarehouseDigestsView {
    pub md5: Seq<char>,
    pub sha256: Seq<char>,
}

/// What is known of a file of a release.
pub struct WarehouseReleaseView {
    pub filename: Seq<char>,
    pub has_sig: bool,
    pub digests: WarehouseDigestsView,
    pub packagetype: Seq<char>,
    pub python_version: Seq<char>,
    pub requires_python: Option<Seq<char>>,
    pub url: Seq<char>,
    pub dependencies: Option<Seq<Seq<char>>>,
}

impl DeepView for WarehouseDigests {
    type V = WarehouseDigestsView;

    open spec fn deep_view(&self) -> WarehouseDigestsView {
        WarehouseDigestsView { md5: self.md5@, sha256: self.sha256@ }
    }
}

impl DeepView for WarehouseRelease {
    type V = WarehouseReleaseView;

    open spec fn deep_view(&self) -> WarehouseReleaseView {
        WarehouseReleaseView {
            filename: self.filename@,
            has_sig: self.has_sig,
            digests: self.digests.deep_view(),
            packagetype: self.packagetype@,
            python_version: self.python_version@,
            requires_python: self.requires_python.deep_view(),
            url: self.url@,
            dependencies: self.dependencies.deep_view(),
        }
    }
}

impl Clone for WarehouseDigests {
    fn clone(&self) -> (d: WarehouseDigests)
        ensures
            d.deep_view() == self.deep_view(),
    {
        WarehouseDigests { md5: self.md5.clone(), sha256: self.sha256.clone() }
    }
}

impl Clone for WarehouseRelease {
    fn clone(&self) -> (r: WarehouseRelease)
        ensures
            r.deep_view() == self.deep_view(),
    {
        WarehouseRelease {
            filename: self.filename.clone(),
            has_sig: self.has_sig,
            digests: self.digests.clone(),
            packagetype: self.packagetype.clone(),
            python_version: self.python_version.clone(),
            requires_python: match &self.requires_python {
                Some(s) => Some(s.clone()),
                None => None,
            },
            url: self.url.clone(),
            dependencies: match &self.dependencies {
                Some(d) => Some(copied_texts(d)),
                None => None,
            },
        }
    }
}

fn copied_texts(texts: &Vec<String>) -> (out: Vec<String>)
    ensures
        out.deep_view() == texts.deep_view(),
{
    let mut out: Vec<String> = Vec::new();
    let mut i: usize = 0;
    while i < texts.len()
        invariant
            i <= texts@.len(),
            out@.len() == i,
            forall|j: int| 0 <= j < i ==> (#[trigger] out@[j])@ == texts@[j]@,
        decreases texts@.len() - i,
    {
        out.push(texts[i].clone());
        i += 1;
    }
    proof {
        assert(out.deep_view() =~= texts.deep_view());
    }
    out
}

/// What the warehouse says of a package, as far as resolution needs it.
#[derive(Debug)]
pub struct WarehouseData {
    pub info: WarehouseInfo,
    /// The files of each release, by the text of its version.
    pub releases: Table<Vec<WarehouseRelease>>,
    pub urls: Vec<WarehouseRelease>,
}

/// Where the warehouse tells of a package.
pub fn warehouse_url(name: &str) -> (url: String)
    ensures
        url@ == "https://pypi.org/pypi/"@ + name@ + "/json"@,
{
    let mut url = String::new();
    url.append("https://pypi.org/pypi/");
    url.append(name);
    url.append("/json");
    proof {
        assert(url@ =~= "https://pypi.org/pypi/"@ + name@ + "/json"@);
    }
    url
}

/// The versions among some texts, in the same order.
pub open spec fn versions_in(texts: Seq<Seq<char>>) -> Seq<Version> {
    texts.filter_map(|s: Seq<char>| parse_version(s))
}

proof fn lemma_versions_in_push(texts: Seq<Seq<char>>, s: Seq<char>)
    ensures
        versions_in(texts.push(s)) == match parse_version(s) {
            Some(v) => versions_in(texts).push(v),
            None => versions_in(texts),
        },
{
    assert(texts.push(s).drop_last() =~= texts);
}

/// Reads the texts of the releases, and keeps those that are versions.
fn versions_of(data: &WarehouseData) -> (versions: Vec<Version>)
    ensures
        versions@ == versions_in(data.releases.names()),
{
    let mut versions: Vec<Version> = Vec::new();
    let ghost names = data.releases.names();
    let n = data.releases.len();
    let mut i: usize = 0;
    proof {
        assert(versions@ =~= versions_in(names.take(0)));
    }
    while i < n
        invariant
            i <= n == names.len(),
            names == data.releases.names(),
            versions@ == versions_in(names.take(i as int)),
        decreases n - i,
    {
        let (name, _) = data.releases.entry(i);
        proof {
            lemma_versions_in_push(names.take(i as int), names[i as int]);
            assert(names.take(i + 1) =~= names.take(i as int).push(names[i as int]));
        }
        if let Ok(v) = Version::from_str(name.as_str()) {
            versions.push(v);
        }
        i += 1;
    }
    proof {
        assert(names.take(n as int) =~= names);
    }
    versions
}

/// The latest version of a package: the one that the warehouse gives, or the
/// greatest of its releases where that one cannot be read.
pub open spec fn latest_version(data: WarehouseData) -> Option<Version> {
    match parse_version(data.info.version@) {
        Some(v) => Some(v),
        None => greatest(versions_in(data.releases.names())),
    }
}

/// Whether the warehouse knows a version of the package.
pub fn has_version(data: &WarehouseData) -> (b: bool)
    ensures
        b == (latest_version(*data) is Some),
        b <==> parse_version(data.info.version@) is Some || versions_in(
            data.releases.names(),
        ).len() > 0,
{
    proof {
        latest_version_is_the_one_given(*data);
    }
    match Version::from_str(data.info.version.as_str()) {
        Ok(_) => true,
        Err(_) => max_version(versions_of(data).as_slice()).is_some(),
    }
}

/// The name of a package in its proper spelling, its latest version, and all
/// of its versions.
pub fn get_version_info(data: WarehouseData) -> (r: (String, Version, Vec<Version>))
    requires
        latest_version(data) is Some,
    ensures
        r.0@ == data.info.name@,
        latest_version(data) == Some(r.1),
        r.2@ == versions_in(data.releases.names()),
        forall|v: Version| #[trigger] is_form_of(data.info.version@, v) ==> r.1 == v,
        parse_version(data.info.version@) matches Some(v) ==> r.1 == v,
        parse_version(data.info.version@) is None ==> r.2@.contains(r.1) && forall|i: int|
            0 <= i < r.2@.len() ==> (#[trigger] r.2@[i]).at_most(r.1),
{
    proof {
        latest_version_is_the_one_given(data);
    }
    let all_versions = versions_of(&data);
    match Version::from_str(data.info.version.as_str()) {
        Ok(v) => (data.info.name, v, all_versions),
        Err(_) => {
            let v = max_version(all_versions.as_slice()).unwrap();
            (data.info.name, v, all_versions)
        },
    }
}

/// The text under which a table of releases lists a version: the version in
/// full or, where its last numbers are zero, without them.
pub open spec fn release_name<V>(releases: Map<Seq<char>, V>, v: Version) -> Option<Seq<char>> {
    if releases.dom().contains(written(v)) {
        Some(written(v))
    } else if v.patch == 0 && releases.dom().contains(written_med(v)) {
        Some(written_med(v))
    } else if v.patch == 0 && v.minor == 0 && releases.dom().contains(written_short(v)) {
        Some(written_short(v))
    } else {
        None
    }
}

fn find_release<'a>(data: &'a WarehouseData, version: &Version) -> (r: Option<
    &'a Vec<WarehouseRelease>,
>)
    ensures
        match release_name(data.releases@, *version) {
            Some(name) => r matches Some(files) && files.deep_view() == data.releases@[name],
            None => r is None,
        },
{
    let mut release_data = data.releases.get(&version.to_string2());
    if release_data.is_none() && version.patch == 0 {
        release_data = data.releases.get(&version.to_string_med());
        if release_data.is_none() && version.minor == 0 {
            release_data = data.releases.get(&version.to_string_short());
        }
    }
    release_data
}

/// Whether the warehouse lists a version of the package.
pub fn has_release(data: &WarehouseData, version: &Version) -> (b: bool)
    ensures
        b == (release_name(data.releases@, *version) is Some),
        b <==> data.releases@.dom().contains(written(*version)) || version.patch == 0
            && data.releases@.dom().contains(written_med(*version)) || version.patch == 0
            && version.minor == 0 && data.releases@.dom().contains(written_short(*version)),
{
    find_release(data, version).is_some()
}

/// The files of a version: where each is, its name and its digests.
pub fn get_warehouse_release(data: &WarehouseData, version: &Version) -> (r: Vec<WarehouseRelease>)
    requires
        release_name(data.releases@, *version) is Some,
    ensures
        r.deep_view() == data.releases@[release_name(data.releases@, *version)->0],
        data.releases@.dom().contains(written(*version)) ==> r.deep_view()
            == data.releases@[written(*version)],
        !data.releases@.dom().contains(written(*version)) && data.releases@.dom().contains(
            written_med(*version),
        ) && version.patch == 0 ==> r.deep_view() == data.releases@[written_med(*version)],
        !data.releases@.dom().contains(written(*version)) && !data.releases@.dom().contains(
            written_med(*version),
        ) ==> r.deep_view() == data.releases@[written_short(*version)],
{
    let files = find_release(data, version).unwrap();
    let mut r: Vec<WarehouseRelease> = Vec::new();
    let mut i: usize = 0;
    while i < files.len()
        invariant
            i <= files@.len(),
            r@.len() == i,
            forall|j: int| 0 <= j < i ==> (#[trigger] r@[j]).deep_view() == files@[j].deep_view(),
        decreases files@.len() - i,
    {
        r.push(files[i].clone());
        i += 1;
    }
    proof {
        assert(r.deep_view() =~= files.deep_view());
    }
    r
}

/// The text under which a version is listed reads as that version.
pub proof fn release_name_reads_as_version<V>(releases: Map<Seq<char>, V>, v: Version)
    ensures
        release_name(releases, v) matches Some(name) ==> parse_version(name) == Some(v)
            && releases.dom().contains(name),
{
    written_reads_back(v);
    shorter_forms_read_back(v);
}

/// Whether a text is a version in full, or without last numbers that are zero.
pub open spec fn is_form_of(s: Seq<char>, v: Version) -> bool {
    ||| s == written(v)
    ||| v.patch == 0 && s == written_med(v)
    ||| v.patch == 0 && v.minor == 0 && s == written_short(v)
}

/// A text that is a form of a version is read as that version.
pub proof fn forms_read_as_their_version(s: Seq<char>, v: Version)
    requires
        is_form_of(s, v),
    ensures
        parse_version(s) == Some(v),
{
    written_reads_back(v);
    shorter_forms_read_back(v);
}

/// The versions are read one by one from the texts of the releases: one more
/// text adds the version that it is read as, if it is read as one.
pub proof fn versions_are_read_one_by_one(texts: Seq<Seq<char>>, s: Seq<char>)
    ensures
        versions_in(seq![]).len() == 0,
        versions_in(texts.push(s)) == (match parse_version(s) {
            Some(v) => versions_in(texts).push(v),
            None => versions_in(texts),
        }),
{
    lemma_versions_in_push(texts, s);
}

/// Each release whose text is a form of a version is among the versions.
pub proof fn released_versions_are_known(texts: Seq<Seq<char>>, i: int, v: Version)
    requires
        0 <= i < texts.len(),
        is_form_of(texts[i], v),
    ensures
        versions_in(texts).contains(v),
    decreases texts.len(),
{
    let front = texts.drop_last();
    let before = versions_in(front);
    forms_read_as_their_version(texts[i], v);
    assert(texts =~= front.push(texts.last()));
    lemma_versions_in_push(front, texts.last());
    if i < front.len() {
        released_versions_are_known(front, i, v);
        assert(versions_in(texts)[before.index_of(v)] == v);
    } else {
        assert(versions_in(texts)[before.len() as int] == v);
    }
}

/// The latest version is the one that the warehouse gives, whatever releases
/// there are. Where that is no version, the latest one is among the versions of
/// the releases and none of them is later; and where there are none, there is no
/// latest one.
pub proof fn latest_version_is_the_one_given(data: WarehouseData)
    ensures
        forall|v: Version| #[trigger]
            is_form_of(data.info.version@, v) ==> latest_version(data) == Some(v),
        parse_version(data.info.version@) matches Some(v) ==> latest_version(data) == Some(v),
        parse_version(data.info.version@) is None ==> match latest_version(data) {
            Some(v) => versions_in(data.releases.names()).contains(v) && forall|i: int|
                0 <= i < versions_in(data.releases.names()).len() ==> (#[trigger] versions_in(
                    data.releases.names(),
                )[i]).at_most(v),
            None => versions_in(data.releases.names()).len() == 0,
        },
{
    assert forall|v: Version| #[trigger] is_form_of(data.info.version@, v) implies latest_version(
        data,
    ) == Some(v) by {
        forms_read_as_their_version(data.info.version@, v);
    }
    greatest_is_greatest(versions_in(data.releases.names()));
}

/// A version that is listed under one of its forms is found, under the fullest
/// form that is listed; one that is listed under none is not.
pub proof fn listed_versions_are_found<V>(releases: Map<Seq<char>, V>, v: Version)
    ensures
        releases.dom().contains(written(v)) ==> release_name(releases, v) == Some(written(v)),
        !releases.dom().contains(written(v)) && v.patch == 0 && releases.dom().contains(
            written_med(v),
        ) ==> release_name(releases, v) == Some(written_med(v)),
        !releases.dom().contains(written(v)) && !releases.dom().contains(written_med(v)) && v.patch
            == 0 && v.minor == 0 && releases.dom().contains(written_short(v)) ==> release_name(
            releases,
            v,
        ) == Some(written_short(v)),
        (forall|s: Seq<char>| #[trigger] releases.dom().contains(s) ==> !is_form_of(s, v))
            ==> release_name(releases, v) is None,
{
    if forall|s: Seq<char>| #[trigger] releases.dom().contains(s) ==> !is_form_of(s, v) {
        assert(releases.dom().contains(written(v)) ==> !is_form_of(written(v), v));
        assert(releases.dom().contains(written_med(v)) ==> !is_form_of(written_med(v), v));
        assert(releases.dom().contains(written_short(v)) ==> !is_form_of(written_short(v), v));
    }
}

/// What is known of a file of a release is all that the file says: nothing is
/// left out, and nothing is changed.
pub proof fn files_are_seen_whole(r: WarehouseRelease)
    ensures
        r.deep_view().filename == r.filename@,
        r.deep_view().has_sig == r.has_sig,
        r.deep_view().digests.md5 == r.digests.md5@,
        r.deep_view().digests.sha256 == r.digests.sha256@,
        r.deep_view().packagetype == r.packagetype@,
        r.deep_view().python_version == r.python_version@,
        r.deep_view().url == r.url@,
        match r.requires_python {
            Some(s) => r.deep_view().requires_python == Some(s@),
            None => r.deep_view().requires_python is None,
        },
        match r.dependencies {
            Some(d) => r.deep_view().dependencies matches Some(texts) && texts.len() == d@.len()
                && forall|i: int| 0 <= i < d@.len() ==> #[trigger] texts[i] == d@[i]@,
            None => r.deep_view().dependencies is None,
        },
{
}

} // verus!
