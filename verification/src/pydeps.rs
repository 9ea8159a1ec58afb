//! What the dependency service says of packages, and what it is asked.

use crate::constraint::{all_admit, is_compat, Constraint, ReqType};
use crate::req::{is_name, is_name_char, name_char, parse_req, Req, ReqView};
use crate::table::Table;
use crate::text::{lemma_span_holds, split};
use crate::version::{
    greatest, greatest_is_greatest, lemma_written_pieces, max_version, min_version, parse_version,
    written, written_reads_back, Version,
};
use vstd::prelude::*;

verus! {

/// What the service says of one version of a package.
#[derive(Debug)]
pub struct ReqCache {
    /// The package. Left out where only one was asked for.
    pub name: Option<String>,
    pub version: String,
    pub requires_python: Option<String>,
    /// The requirements of this version.
    pub requires_dist: Vec<String>,
}

/// What is known of one version of a package.
#[verifier::ext_equal]
pub struct ReqCacheView {
    pub name: Option<Seq<char>>,
    pub version: Seq<char>,
    pub requires_python: Option<Seq<char>>,
    pub requires_dist: Seq<Seq<char>>,
}

impl DeepView for ReqCache {
    type V = ReqCacheView;

    open spec fn deep_view(&self) -> ReqCacheView {
        ReqCacheView {
            name: self.name.deep_view(),
            version: self.version@,
            requires_python: self.requires_python.deep_view(),
            requires_dist: self.requires_dist.deep_view(),
        }
    }
}

/// The requirements among some texts, in the same order.
pub open spec fn reqs_in(texts: Seq<Seq<char>>) -> Seq<ReqView> {
    texts.filter_map(|s: Seq<char>| parse_req(s))
}

proof fn lemma_reqs_in_push(texts: Seq<Seq<char>>, s: Seq<char>)
    ensures
        reqs_in(texts.push(s)) == match parse_req(s) {
            Some(r) => reqs_in(texts).push(r),
            None => reqs_in(texts),
        },
{
    assert(texts.push(s).drop_last() =~= texts);
}

/// A requirement that can be read is on a package whose name can be read.
pub proof fn lemma_names_are_readable(texts: Seq<Seq<char>>, r: ReqView)
    requires
        reqs_in(texts).contains(r),
    ensures
        is_name(r.name),
    decreases texts.len(),
{
    if texts.len() > 0 {
        let front = texts.drop_last();
        let s = texts.last();
        assert(texts =~= front.push(s));
        lemma_reqs_in_push(front, s);
        if parse_req(s) == Some(r) {
            lemma_span_holds(s, name_char());
            assert forall|i: int| 0 <= i < r.name.len() implies is_name_char(
                #[trigger] r.name[i],
            ) by {
                assert(name_char()(s[i]));
            }
        } else {
            let k = reqs_in(texts).index_of(r);
            assert(reqs_in(front)[k] == r);
            lemma_names_are_readable(front, r);
        }
    } else {
        assert(reqs_in(texts) =~= seq![]);
    }
}

impl ReqCache {
    /// The requirements that can be read.
    pub fn reqs(&self) -> (out: Vec<Req>)
        ensures
            out.deep_view() == reqs_in(self.requires_dist.deep_view()),
    {
        let mut out: Vec<Req> = Vec::new();
        let ghost texts = self.requires_dist.deep_view();
        let mut i: usize = 0;
        proof {
            assert(out.deep_view() =~= reqs_in(texts.take(0)));
        }
        while i < self.requires_dist.len()
            invariant
                i <= self.requires_dist@.len(),
                texts == self.requires_dist.deep_view(),
                out.deep_view() == reqs_in(texts.take(i as int)),
            decreases self.requires_dist@.len() - i,
        {
            proof {
                lemma_reqs_in_push(texts.take(i as int), texts[i as int]);
                assert(texts.take(i + 1) =~= texts.take(i as int).push(texts[i as int]));
            }
            if let Ok(r) = Req::from_str(self.requires_dist[i].as_str()) {
                let ghost before = out.deep_view();
                let ghost read = r.deep_view();
                out.push(r);
                proof {
                    assert(out.deep_view() =~= before.push(read));
                }
            }
            i += 1;
        }
        proof {
            assert(texts.take(texts.len() as int) =~= texts);
        }
        out
    }
}

/// What the service is sent: for each package the versions asked for.
#[derive(Debug)]
pub struct MultipleBody {
    pub packages: Table<Vec<String>>,
}

/// Some versions in full.
pub open spec fn written_all(versions: Seq<Version>) -> Seq<Seq<char>> {
    versions.map_values(|v: Version| written(v))
}

/// The question to the service about some packages.
pub fn multiple_body(packages: &Table<Vec<Version>>) -> (body: MultipleBody)
    ensures
        body.packages.names() == packages.names(),
        body.packages@ == packages@.map_values(|versions: Seq<Version>| written_all(versions)),
{
    let mut packages2: Table<Vec<String>> = Table::new();
    let n = packages.len();
    let ghost names = packages.names();
    let mut i: usize = 0;
    proof {
        assert(packages2.names() =~= names.take(0));
    }
    while i < n
        invariant
            i <= n == names.len(),
            names == packages.names(),
            names.no_duplicates(),
            forall|name: Seq<char>| #[trigger]
                packages@.dom().contains(name) <==> names.contains(name),
            packages2.names() == names.take(i as int),
            forall|name: Seq<char>| #[trigger]
                packages2@.dom().contains(name) <==> names.take(i as int).contains(name),
            forall|name: Seq<char>| #[trigger]
                packages2@.dom().contains(name) ==> packages2@[name] == written_all(
                    packages@[name],
                ),
        decreases n - i,
    {
        let (name, versions) = packages.entry(i);
        let written = written_versions(versions);
        let ghost before = packages2@;
        packages2.insert(name.clone(), written);
        proof {
            let seen = names.take(i as int);
            let new = names[i as int];
            assert(names.take(i + 1) =~= seen.push(new));
            assert(versions.deep_view() =~= versions@);
            assert forall|k: Seq<char>| #[trigger]
                packages2@.dom().contains(k) <==> seen.push(new).contains(k) by {
                if seen.contains(k) {
                    let j = seen.index_of(k);
                    assert(seen.push(new)[j] == k);
                }
                if seen.push(new).contains(k) && k != new {
                    let j = seen.push(new).index_of(k);
                    assert(seen[j] == k);
                }
                assert(seen.push(new)[i as int] == new);
            }
            if seen.contains(new) {
                let j = seen.index_of(new);
                assert(names[j] == new);
                assert(false);
            }
        }
        i += 1;
    }
    proof {
        assert(names.take(n as int) =~= names);
        assert(packages2@ =~= packages@.map_values(
            |versions: Seq<Version>| written_all(versions),
        ));
    }
    MultipleBody { packages: packages2 }
}

fn written_versions(versions: &Vec<Version>) -> (out: Vec<String>)
    ensures
        out.deep_view() == written_all(versions@),
{
    let mut out: Vec<String> = Vec::new();
    let mut i: usize = 0;
    while i < versions.len()
        invariant
            i <= versions@.len(),
            out@.len() == i,
            forall|j: int| 0 <= j < i ==> (#[trigger] out@[j])@ == written(versions@[j]),
        decreases versions@.len() - i,
    {
        out.push(versions[i].to_string2());
        i += 1;
    }
    proof {
        assert(out.deep_view() =~= written_all(versions@));
    }
    out
}

/// A package in its proper spelling, its latest version, and its versions.
pub type VersionInfo = (String, Version, Vec<Version>);

/// What is known of the versions of a package.
pub type VersionInfoView = (Seq<char>, Version, Seq<Version>);

/// Whether a version is no later than `latest` and meets all of the constraints.
pub open spec fn worth_asking(constraints: Seq<Constraint>, latest: Version) -> spec_fn(
    Version,
) -> bool {
    |v: Version| v.at_most(latest) && all_admit(constraints, v)
}

/// The version to ask for: the greatest up to the latest one that meets all of
/// the constraints, if there is one.
pub open spec fn best_version(constraints: Seq<Constraint>, info: VersionInfoView) -> Seq<
    Version,
> {
    match greatest(info.2.filter(worth_asking(constraints, info.1))) {
        Some(v) => seq![v],
        None => seq![],
    }
}

/// The first package required of which no versions are known.
pub open spec fn first_unknown(
    reqs: Seq<ReqView>,
    known: Map<Seq<char>, VersionInfoView>,
) -> Option<Seq<char>>
    decreases reqs.len(),
{
    if reqs.len() == 0 {
        None
    } else if !known.dom().contains(reqs[0].name) {
        Some(reqs[0].name)
    } else {
        first_unknown(reqs.skip(1), known)
    }
}

/// Versions to ask about, with the best one added unless it is among them.
pub open spec fn with_best(asked: Seq<Version>, best: Seq<Version>) -> Seq<Version> {
    if best.len() > 0 && !asked.contains(best[0]) {
        asked.push(best[0])
    } else {
        asked
    }
}

/// The versions to ask the service about: of each package required, the best
/// version for each requirement on it.
pub open spec fn question(
    reqs: Seq<ReqView>,
    known: Map<Seq<char>, VersionInfoView>,
) -> Map<Seq<char>, Seq<Version>>
    decreases reqs.len(),
{
    if reqs.len() == 0 {
        Map::empty()
    } else {
        let before = question(reqs.drop_last(), known);
        let name = reqs.last().name;
        let asked = if before.dom().contains(name) {
            before[name]
        } else {
            seq![]
        };
        before.insert(name, with_best(asked, best_version(reqs.last().constraints, known[name])))
    }
}

/// What is wanted next to learn the requirements of packages.
#[derive(Debug)]
pub enum ReqQuery {
    /// The versions of a package.
    Versions(String),
    /// The requirements of these versions.
    Packages(Table<Vec<Version>>),
}

/// The last version to look at: no version up to the latest one that meets all
/// of the constraints is past it.
fn last_version_to_ask(constraints: &Vec<Constraint>, latest: Version) -> (max: Version)
    ensures
        max.at_most(latest),
        forall|v: Version|
            v.at_most(latest) && #[trigger] all_admit(constraints@, v) ==> v.at_most(max),
{
    let mut max_v_to_query = latest;
    let mut i: usize = 0;
    while i < constraints.len()
        invariant
            i <= constraints@.len(),
            max_v_to_query.at_most(latest),
            forall|v: Version|
                v.at_most(latest) && #[trigger] all_admit(constraints@, v) ==> v.at_most(
                    max_v_to_query,
                ),
        decreases constraints@.len() - i,
    {
        let constr = constraints[i];
        let ranges = constr.compatible_range();
        let last = match constr.type_ {
            ReqType::Ne => if ranges[0].1 <= ranges[1].1 { ranges[1].1 } else { ranges[0].1 },
            _ => ranges[0].1,
        };
        proof {
            assert forall|v: Version|
                v.at_most(latest) && #[trigger] all_admit(constraints@, v) implies v.at_most(
                last,
            ) by {
                assert(constraints@[i as int].admits(v));
            }
        }
        max_v_to_query = min_version(last, max_v_to_query);
        i += 1;
    }
    max_v_to_query
}

fn version_to_ask(constraints: &Vec<Constraint>, info: &VersionInfo) -> (best: Vec<Version>)
    ensures
        best@ == best_version(constraints@, info.deep_view()),
{
    let max_v_to_query = last_version_to_ask(constraints, info.1);
    let all_versions = &info.2;
    let mut compatible: Vec<Version> = Vec::new();
    let ghost fits = worth_asking(constraints@, info.1);
    let mut i: usize = 0;
    proof {
        reveal(Seq::filter);
    }
    while i < all_versions.len()
        invariant
            i <= all_versions@.len(),
            fits == worth_asking(constraints@, info.1),
            max_v_to_query.at_most(info.1),
            forall|v: Version|
                v.at_most(info.1) && #[trigger] all_admit(constraints@, v) ==> v.at_most(
                    max_v_to_query,
                ),
            compatible@ == all_versions@.take(i as int).filter(fits),
        decreases all_versions@.len() - i,
    {
        proof {
            reveal(Seq::filter);
            assert(all_versions@.take(i + 1).drop_last() =~= all_versions@.take(i as int));
        }
        let v = all_versions[i];
        if v <= max_v_to_query && is_compat(constraints.as_slice(), &v) {
            compatible.push(v);
        }
        i += 1;
    }
    proof {
        assert(all_versions@.take(i as int) =~= info.deep_view().2);
    }
    match max_version(compatible.as_slice()) {
        Some(v) => vec![v],
        None => vec![],
    }
}

fn add_best(asked: &Vec<Version>, best: &Vec<Version>) -> (r: Vec<Version>)
    ensures
        r@ == with_best(asked@, best@),
{
    let mut out: Vec<Version> = Vec::new();
    let mut among = false;
    let mut i: usize = 0;
    while i < asked.len()
        invariant
            i <= asked@.len(),
            out@ == asked@.take(i as int),
            among <==> best@.len() > 0 && asked@.take(i as int).contains(best@[0]),
        decreases asked@.len() - i,
    {
        let v = asked[i];
        proof {
            let (some, more) = (asked@.take(i as int), asked@.take(i + 1));
            assert(more =~= some.push(v));
            assert(more[i as int] == v);
            if best@.len() > 0 && some.contains(best@[0]) {
                assert(more[some.index_of(best@[0])] == best@[0]);
            }
            if best@.len() > 0 && more.contains(best@[0]) && v != best@[0] {
                assert(some[more.index_of(best@[0])] == best@[0]);
            }
        }
        if best.len() > 0 && v == best[0] {
            among = true;
        }
        out.push(v);
        i += 1;
    }
    proof {
        assert(asked@.take(i as int) =~= asked@);
    }
    if best.len() > 0 && !among {
        out.push(best[0]);
    }
    out
}

/// Decides what to ask to learn the requirements of the packages required:
/// the versions of the first package of which none are known or, once all are
/// known, the requirements of the best version for each requirement.
pub fn fetch_req_data(reqs: &[&Req], vers_cache: &Table<VersionInfo>) -> (q: ReqQuery)
    ensures
        match q {
            ReqQuery::Versions(name) => first_unknown(reqs.deep_view(), vers_cache@) == Some(
                name@,
            ),
            ReqQuery::Packages(packages) => first_unknown(reqs.deep_view(), vers_cache@) is None
                && packages@ == question(reqs.deep_view(), vers_cache@) && (
            packages.names().len() == 0 <==> reqs@.len() == 0),
        },
{
    let mut query_data: Table<Vec<Version>> = Table::new();
    let ghost all = reqs.deep_view();
    let mut i: usize = 0;
    proof {
        assert(all.skip(0) =~= all);
    }
    while i < reqs.len()
        invariant
            i <= reqs@.len(),
            all == reqs.deep_view(),
            first_unknown(all, vers_cache@) == first_unknown(all.skip(i as int), vers_cache@),
            query_data@ == question(all.take(i as int), vers_cache@),
            query_data.names().len() == 0 <==> i == 0,
        decreases reqs@.len() - i,
    {
        let req = reqs[i];
        proof {
            assert(all.skip(i as int)[0] == req.deep_view());
            assert(all.skip(i as int).skip(1) =~= all.skip(i + 1));
            assert(all.take(i + 1).drop_last() =~= all.take(i as int));
        }
        match vers_cache.get(&req.name) {
            Some(info) => {
                let best = version_to_ask(&req.constraints, info);
                let versions = match query_data.get(&req.name) {
                    Some(asked) => {
                        proof {
                            assert(asked.deep_view() =~= asked@);
                        }
                        add_best(asked, &best)
                    },
                    None => {
                        proof {
                            assert(best@ =~= with_best(seq![], best@));
                        }
                        best
                    },
                };
                proof {
                    assert(versions.deep_view() =~= versions@);
                }
                query_data.insert(req.name.clone(), versions);
            },
            None => {
                return ReqQuery::Versions(req.name.clone());
            },
        }
        i += 1;
    }
    proof {
        assert(all.take(i as int) =~= all);
    }
    ReqQuery::Packages(query_data)
}

/// The version to ask for is a version of the package, no later than the
/// latest one, and meets all of the constraints. No other one that does is
/// later. If any does, there is a version to ask for, and never more than one.
pub proof fn newest_compatible_version_is_asked_for(
    constraints: Seq<Constraint>,
    info: VersionInfoView,
)
    ensures
        best_version(constraints, info).len() <= 1,
        best_version(constraints, info).len() == 1 ==> {
            &&& info.2.contains(best_version(constraints, info)[0])
            &&& best_version(constraints, info)[0].at_most(info.1)
            &&& all_admit(constraints, best_version(constraints, info)[0])
        },
        forall|v: Version|
            info.2.contains(v) && v.at_most(info.1) && #[trigger] all_admit(constraints, v) ==> {
                &&& best_version(constraints, info).len() == 1
                &&& v.at_most(best_version(constraints, info)[0])
            },
{
    let fits = worth_asking(constraints, info.1);
    let few = info.2.filter(fits);
    greatest_is_greatest(few);
    assert forall|v: Version| #[trigger] few.contains(v) implies info.2.contains(v) && fits(v) by {
        info.2.lemma_filter_contains_rev(fits, v);
        info.2.lemma_filter_pred(fits, few.index_of(v));
    }
    assert forall|v: Version|
        info.2.contains(v) && v.at_most(info.1) && #[trigger] all_admit(constraints, v) implies {
        &&& best_version(constraints, info).len() == 1
        &&& v.at_most(best_version(constraints, info)[0])
    } by {
        assert(fits(v));
        info.2.lemma_filter_contains(fits, info.2.index_of(v));
        let k = few.index_of(v);
        assert(few[k] == v);
    }
}

/// The packages asked about are those required.
pub proof fn question_is_about_the_packages_required(
    reqs: Seq<ReqView>,
    known: Map<Seq<char>, VersionInfoView>,
)
    ensures
        forall|name: Seq<char>| #[trigger]
            question(reqs, known).dom().contains(name) <==> exists|i: int|
                0 <= i < reqs.len() && (#[trigger] reqs[i]).name == name,
    decreases reqs.len(),
{
    if reqs.len() > 0 {
        let front = reqs.drop_last();
        question_is_about_the_packages_required(front, known);
        assert forall|name: Seq<char>| #[trigger]
            question(reqs, known).dom().contains(name) <==> exists|i: int|
                0 <= i < reqs.len() && (#[trigger] reqs[i]).name == name by {
            if question(front, known).dom().contains(name) {
                let i = choose|i: int| 0 <= i < front.len() && (#[trigger] front[i]).name == name;
                assert(reqs[i].name == name);
            }
            assert(reqs[reqs.len() - 1] == reqs.last());
            if exists|i: int| 0 <= i < reqs.len() && (#[trigger] reqs[i]).name == name {
                let i = choose|i: int| 0 <= i < reqs.len() && (#[trigger] reqs[i]).name == name;
                if i < front.len() {
                    assert(front[i].name == name);
                }
            }
        }
    }
}

/// Whether a version is the best one for some requirement on a package.
pub open spec fn best_for_one(
    reqs: Seq<ReqView>,
    known: Map<Seq<char>, VersionInfoView>,
    name: Seq<char>,
    v: Version,
) -> bool {
    exists|i: int|
        0 <= i < reqs.len() && (#[trigger] reqs[i]).name == name && best_version(
            reqs[i].constraints,
            known[name],
        ).contains(v)
}

/// Of a package, just those versions are asked about that are the best for
/// some requirement on it, and none twice.
pub proof fn best_version_for_each_requirement_is_asked_for(
    reqs: Seq<ReqView>,
    known: Map<Seq<char>, VersionInfoView>,
    name: Seq<char>,
)
    requires
        question(reqs, known).dom().contains(name),
    ensures
        forall|v: Version| #[trigger]
            question(reqs, known)[name].contains(v) <==> best_for_one(reqs, known, name, v),
        question(reqs, known)[name].no_duplicates(),
    decreases reqs.len(),
{
    let front = reqs.drop_last();
    let before = question(front, known);
    let asked = if before.dom().contains(name) {
        before[name]
    } else {
        seq![]
    };
    question_is_about_the_packages_required(front, known);
    if before.dom().contains(name) {
        best_version_for_each_requirement_is_asked_for(front, known, name);
    }
    assert(reqs.last() == reqs[reqs.len() - 1]);
    assert forall|v: Version| #[trigger]
        question(reqs, known)[name].contains(v) <==> best_for_one(reqs, known, name, v) by {
        let here = reqs.last().name == name && best_version(
            reqs.last().constraints,
            known[name],
        ).contains(v);
        assert(asked.contains(v) <==> best_for_one(front, known, name, v));
        assert(best_for_one(reqs, known, name, v) <==> best_for_one(front, known, name, v) || here)
            by {
            if best_for_one(front, known, name, v) {
                let i = choose|i: int|
                    0 <= i < front.len() && (#[trigger] front[i]).name == name && best_version(
                        front[i].constraints,
                        known[name],
                    ).contains(v);
                assert(reqs[i].name == name);
            }
            if best_for_one(reqs, known, name, v) {
                let i = choose|i: int|
                    0 <= i < reqs.len() && (#[trigger] reqs[i]).name == name && best_version(
                        reqs[i].constraints,
                        known[name],
                    ).contains(v);
                if i < front.len() {
                    assert(front[i].name == name);
                }
            }
        }
        if reqs.last().name == name {
            let best = best_version(reqs.last().constraints, known[name]);
            let all = with_best(asked, best);
            if best.len() > 0 && !asked.contains(best[0]) {
                assert(all[asked.len() as int] == best[0]);
                if asked.contains(v) {
                    assert(all[asked.index_of(v)] == v);
                }
                if all.contains(v) && v != best[0] {
                    assert(asked[all.index_of(v)] == v);
                }
            }
            if best.len() > 0 {
                assert(best.contains(v) <==> v == best[0]);
            }
        }
    }
}

/// Requirements are read one by one: one more text adds the requirement that it
/// is read as, if it is read as one.
pub proof fn requirements_are_read_one_by_one(texts: Seq<Seq<char>>, s: Seq<char>)
    ensures
        reqs_in(seq![]).len() == 0,
        reqs_in(texts.push(s)) == (match parse_req(s) {
            Some(r) => reqs_in(texts).push(r),
            None => reqs_in(texts),
        }),
{
    lemma_reqs_in_push(texts, s);
}

/// Each version is sent in full, at its place.
pub proof fn versions_are_sent_in_full(versions: Seq<Version>)
    ensures
        written_all(versions).len() == versions.len(),
        forall|i: int|
            0 <= i < versions.len() ==> parse_version(#[trigger] written_all(versions)[i]) == Some(
                versions[i],
            ) && split(written_all(versions)[i], '.').len() == 3,
{
    assert forall|i: int| 0 <= i < versions.len() implies parse_version(
        #[trigger] written_all(versions)[i],
    ) == Some(versions[i]) && split(written_all(versions)[i], '.').len() == 3 by {
        written_reads_back(versions[i]);
        lemma_written_pieces(versions[i]);
    }
}

/// The package whose versions are asked for is required, its versions are not
/// known, and those of all packages required before it are. If there is none,
/// the versions of all packages required are known.
pub proof fn first_package_without_versions_is_asked_for(
    reqs: Seq<ReqView>,
    known: Map<Seq<char>, VersionInfoView>,
)
    ensures
        match first_unknown(reqs, known) {
            Some(name) => !known.dom().contains(name) && exists|i: int|
                {
                    &&& 0 <= i < reqs.len()
                    &&& (#[trigger] reqs[i]).name == name
                    &&& forall|j: int|
                        0 <= j < i ==> known.dom().contains((#[trigger] reqs[j]).name)
                },
            None => forall|i: int|
                0 <= i < reqs.len() ==> known.dom().contains((#[trigger] reqs[i]).name),
        },
    decreases reqs.len(),
{
    if reqs.len() > 0 {
        if known.dom().contains(reqs[0].name) {
            let rest = reqs.skip(1);
            first_package_without_versions_is_asked_for(rest, known);
            if let Some(name) = first_unknown(rest, known) {
                let i = choose|i: int|
                    {
                        &&& 0 <= i < rest.len()
                        &&& (#[trigger] rest[i]).name == name
                        &&& forall|j: int|
                            0 <= j < i ==> known.dom().contains((#[trigger] rest[j]).name)
                    };
                assert(reqs[i + 1].name == name);
                assert forall|j: int| 0 <= j < i + 1 implies known.dom().contains(
                    (#[trigger] reqs[j]).name,
                ) by {
                    if j > 0 {
                        assert(rest[j - 1] == reqs[j]);
                    }
                }
            } else {
                assert forall|i: int| 0 <= i < reqs.len() implies known.dom().contains(
                    (#[trigger] reqs[i]).name,
                ) by {
                    if i > 0 {
                        assert(rest[i - 1] == reqs[i]);
                    }
                }
            }
        } else {
            assert(reqs[0].name == first_unknown(reqs, known)->0);
        }
    }
}

/// What is known of one version of a package is all that the service says of
/// it.
pub proof fn replies_are_seen_whole(d: ReqCache)
    ensures
        match d.name {
            Some(s) => d.deep_view().name == Some(s@),
            None => d.deep_view().name is None,
        },
        d.deep_view().version == d.version@,
        match d.requires_python {
            Some(s) => d.deep_view().requires_python == Some(s@),
            None => d.deep_view().requires_python is None,
        },
        d.deep_view().requires_dist.len() == d.requires_dist@.len(),
        forall|i: int|
            0 <= i < d.requires_dist@.len() ==> #[trigger] d.deep_view().requires_dist[i]
                == d.requires_dist@[i]@,
{
}

} // verus!
