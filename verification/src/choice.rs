//! Which package is taken for a requirement.

use crate::constraint::{all_admit, is_compat};
use crate::pydeps::{reqs_in, ReqCache, ReqCacheView};
use crate::req::{Req, ReqView};
use crate::version::{parse_version, Version};
use vstd::prelude::*;

verus! {

/// A package that was found: its name, its version and its requirements.
pub type Dep = (String, Version, Vec<Req>);

/// What is known of a package that was found.
pub type DepView = (Seq<char>, Version, Seq<ReqView>);

/// Why a resolution cannot go on.
#[derive(Debug)]
pub enum Failure {
    /// A requirement compares the operating system otherwise than by `==` or
    /// `!=`.
    Platform,
    /// Nothing can be learnt of the versions of a package.
    VersionInfo(String),
    /// Nothing can be learnt of the requirements of packages.
    DependencyData,
    /// No version that meets the requirement is known of.
    NoPackage(Req),
    /// A package has a version that cannot be read.
    VersionText(String),
}

/// Why a resolution cannot go on.
pub enum FailureView {
    Platform,
    VersionInfo(Seq<char>),
    DependencyData,
    NoPackage(ReqView),
    VersionText(Seq<char>),
}

impl DeepView for Failure {
    type V = FailureView;

    open spec fn deep_view(&self) -> FailureView {
        match self {
            Failure::Platform => FailureView::Platform,
            Failure::VersionInfo(name) => FailureView::VersionInfo(name@),
            Failure::DependencyData => FailureView::DependencyData,
            Failure::NoPackage(req) => FailureView::NoPackage(req.deep_view()),
            Failure::VersionText(text) => FailureView::VersionText(text@),
        }
    }
}

/// The first version given for a package that cannot be read.
pub open spec fn first_unreadable(data: Seq<ReqCacheView>, name: Seq<char>) -> Option<Seq<char>>
    decreases data.len(),
{
    if data.len() == 0 {
        None
    } else {
        match first_unreadable(data.drop_last(), name) {
            Some(text) => Some(text),
            None => if data.last().name == Some(name) && parse_version(data.last().version)
                is None {
                Some(data.last().version)
            } else {
                None
            },
        }
    }
}

/// What is said of a version of the package required that meets all of the
/// constraints.
pub open spec fn meets(d: ReqCacheView, r: ReqView) -> bool {
    &&& d.name == Some(r.name)
    &&& parse_version(d.version) is Some
    &&& all_admit(r.constraints, parse_version(d.version)->0)
}

/// Of what is said of versions that meet a requirement, that on the greatest
/// version; where two versions are equal, the later of the two.
pub open spec fn newest(data: Seq<ReqCacheView>, r: ReqView) -> Option<ReqCacheView>
    decreases data.len(),
{
    if data.len() == 0 {
        None
    } else if meets(data.last(), r) {
        match newest(data.drop_last(), r) {
            Some(d) => if (parse_version(d.version)->0).at_most(
                parse_version(data.last().version)->0,
            ) {
                Some(data.last())
            } else {
                Some(d)
            },
            None => Some(data.last()),
        }
    } else {
        newest(data.drop_last(), r)
    }
}

/// The package taken for a requirement, or why none is.
pub open spec fn choice(data: Seq<ReqCacheView>, r: ReqView) -> Result<DepView, FailureView> {
    match first_unreadable(data, r.name) {
        Some(text) => Err(FailureView::VersionText(text)),
        None => match newest(data, r) {
            None => Err(FailureView::NoPackage(r)),
            Some(d) => Ok((r.name, parse_version(d.version)->0, reqs_in(d.requires_dist))),
        },
    }
}

/// The package taken for a requirement, or why none is.
pub fn choose_dep(data: &Vec<ReqCache>, req: &Req) -> (r: Result<Dep, Failure>)
    ensures
        match r {
            Ok(dep) => choice(data.deep_view(), req.deep_view()) == Ok::<DepView, FailureView>(
                dep.deep_view(),
            ),
            Err(f) => choice(data.deep_view(), req.deep_view()) == Err::<DepView, FailureView>(
                f.deep_view(),
            ),
        },
{
    let ghost all = data.deep_view();
    let ghost r = req.deep_view();
    let mut best: Option<(usize, Version)> = None;
    let mut i: usize = 0;
    while i < data.len()
        invariant
            i <= data@.len(),
            all == data.deep_view(),
            r == req.deep_view(),
            first_unreadable(all.take(i as int), r.name) is None,
            match best {
                Some((k, v)) => k < i && newest(all.take(i as int), r) == Some(all[k as int])
                    && parse_version(all[k as int].version) == Some(v),
                None => newest(all.take(i as int), r) is None,
            },
        decreases data@.len() - i,
    {
        let d = &data[i];
        proof {
            assert(all[i as int] == d.deep_view());
            assert(all.take(i + 1).drop_last() =~= all.take(i as int));
        }
        let same_name = match &d.name {
            Some(n) => *n == req.name,
            None => false,
        };
        if same_name {
            match Version::from_str(d.version.as_str()) {
                Ok(v) => {
                    if is_compat(req.constraints.as_slice(), &v) {
                        best = match best {
                            Some((k, w)) => if w <= v { Some((i, v)) } else { Some((k, w)) },
                            None => Some((i, v)),
                        };
                    }
                },
                Err(_) => {
                    proof {
                        lemma_unreadable_stays(all, r.name, i + 1);
                    }
                    return Err(Failure::VersionText(d.version.clone()));
                },
            }
        }
        i += 1;
    }
    proof {
        assert(all.take(i as int) =~= all);
    }
    match best {
        Some((k, v)) => Ok((req.name.clone(), v, data[k].reqs())),
        None => Err(Failure::NoPackage(req.clone())),
    }
}

proof fn lemma_unreadable_stays(data: Seq<ReqCacheView>, name: Seq<char>, k: int)
    requires
        0 <= k <= data.len(),
        first_unreadable(data.take(k), name) is Some,
    ensures
        first_unreadable(data, name) == first_unreadable(data.take(k), name),
    decreases data.len(),
{
    if k < data.len() {
        assert(data.drop_last().take(k) =~= data.take(k));
        lemma_unreadable_stays(data.drop_last(), name, k);
    } else {
        assert(data.take(k) =~= data);
    }
}

/// The package taken is in the data under the name required, with a version
/// that meets the constraints. No version of that package that meets them is
/// greater, and none behind it is the same.
pub proof fn newest_package_is_taken(data: Seq<ReqCacheView>, r: ReqView)
    ensures
        choice(data, r) matches Ok(dep) ==> all_admit(r.constraints, dep.1) && exists|k: int|
            {
                &&& 0 <= k < data.len()
                &&& (#[trigger] data[k]).name == Some(r.name)
                &&& parse_version(data[k].version) == Some(dep.1)
                &&& dep == (r.name, dep.1, reqs_in(data[k].requires_dist))
                &&& forall|i: int|
                    0 <= i < data.len() && meets(#[trigger] data[i], r) ==> {
                        &&& (parse_version(data[i].version)->0).at_most(dep.1)
                        &&& i > k ==> parse_version(data[i].version)->0 != dep.1
                    }
            },
{
    if let Ok(dep) = choice(data, r) {
        let k = lemma_newest(data, r);
        assert(data[k].name == Some(r.name));
        assert(dep.1 == parse_version(data[k].version)->0);
    }
}

proof fn lemma_newest(data: Seq<ReqCacheView>, r: ReqView) -> (k: int)
    requires
        newest(data, r) is Some,
    ensures
        0 <= k < data.len(),
        newest(data, r) == Some(data[k]),
        meets(data[k], r),
        forall|i: int|
            0 <= i < data.len() && meets(#[trigger] data[i], r) ==> (parse_version(
                data[i].version,
            )->0).at_most(parse_version(data[k].version)->0) && (i > k ==> parse_version(
                data[i].version,
            )->0 != parse_version(data[k].version)->0),
    decreases data.len(),
{
    let front = data.drop_last();
    let last = data.len() - 1;
    assert(forall|i: int| 0 <= i < front.len() ==> front[i] == #[trigger] data[i]);
    if newest(front, r) is Some {
        let k = lemma_newest(front, r);
        if meets(data.last(), r) && (parse_version(front[k].version)->0).at_most(
            parse_version(data.last().version)->0,
        ) {
            last
        } else {
            k
        }
    } else {
        lemma_no_newest(front, r);
        last
    }
}

proof fn lemma_no_newest(data: Seq<ReqCacheView>, r: ReqView)
    ensures
        newest(data, r) is None <==> forall|i: int|
            0 <= i < data.len() ==> !meets(#[trigger] data[i], r),
    decreases data.len(),
{
    if data.len() > 0 {
        let front = data.drop_last();
        lemma_no_newest(front, r);
        assert(forall|i: int| 0 <= i < front.len() ==> front[i] == #[trigger] data[i]);
        assert(data.last() == data[data.len() - 1]);
    }
}

/// No package is taken exactly if nothing is said of a version that meets the
/// requirement, or if a package by that name has a version that cannot be
/// read, which is reported first. There is no other reason.
pub proof fn no_package_is_taken_without_data(data: Seq<ReqCacheView>, r: ReqView)
    ensures
        choice(data, r) == Err::<DepView, FailureView>(FailureView::NoPackage(r)) <==> {
            &&& forall|i: int| 0 <= i < data.len() ==> !meets(#[trigger] data[i], r)
            &&& forall|i: int|
                0 <= i < data.len() && (#[trigger] data[i]).name == Some(r.name)
                    ==> parse_version(data[i].version) is Some
        },
        choice(data, r) matches Err(f) && f is VersionText <==> exists|i: int|
            0 <= i < data.len() && (#[trigger] data[i]).name == Some(r.name) && parse_version(
                data[i].version,
            ) is None,
        choice(data, r) matches Err(f) ==> f is VersionText || f == FailureView::NoPackage(r),
{
    lemma_no_newest(data, r);
    lemma_first_unreadable(data, r.name);
}

proof fn lemma_first_unreadable(data: Seq<ReqCacheView>, name: Seq<char>)
    ensures
        first_unreadable(data, name) is Some <==> exists|i: int|
            0 <= i < data.len() && (#[trigger] data[i]).name == Some(name) && parse_version(
                data[i].version,
            ) is None,
    decreases data.len(),
{
    if data.len() > 0 {
        let front = data.drop_last();
        lemma_first_unreadable(front, name);
        assert(forall|i: int| 0 <= i < front.len() ==> #[trigger] front[i] == data[i]);
        assert(forall|i: int| 0 <= i < front.len() ==> front[i] == #[trigger] data[i]);
        assert(data.last() == data[data.len() - 1]);
    }
}

/// The package taken for a requirement is one that the data have under the name
/// required, with its version and its requirements. The version meets every
/// constraint, and no version of that package in the data that does is greater.
pub proof fn taken_package_is_the_newest_that_fits(data: Seq<ReqCacheView>, r: ReqView)
    ensures
        choice(data, r) matches Ok(dep) ==> {
            &&& dep.0 == r.name
            &&& all_admit(r.constraints, dep.1)
            &&& exists|k: int|
                {
                    &&& 0 <= k < data.len()
                    &&& (#[trigger] data[k]).name == Some(r.name)
                    &&& parse_version(data[k].version) == Some(dep.1)
                    &&& dep.2 == reqs_in(data[k].requires_dist)
                }
            &&& forall|i: int|
                0 <= i < data.len() && (#[trigger] data[i]).name == Some(r.name) ==> (
                parse_version(data[i].version) matches Some(v) && (all_admit(r.constraints, v)
                    ==> v.at_most(dep.1)))
        },
{
    newest_package_is_taken(data, r);
    no_package_is_taken_without_data(data, r);
    if let Ok(dep) = choice(data, r) {
        assert forall|i: int| 0 <= i < data.len() && (#[trigger] data[i]).name == Some(
            r.name,
        ) implies (parse_version(data[i].version) matches Some(v) && (all_admit(r.constraints, v)
            ==> v.at_most(dep.1))) by {
            assert(parse_version(data[i].version) is Some);
            if all_admit(r.constraints, parse_version(data[i].version)->0) {
                assert(meets(data[i], r));
            }
        }
    }
}

/// A package is taken for a requirement exactly if the data have one under the
/// name required in a version that meets every constraint, and can read every
/// version that they have under that name. Where one cannot be read, the first
/// such text is reported; otherwise the requirement is.
pub proof fn package_is_taken_if_one_fits(data: Seq<ReqCacheView>, r: ReqView)
    ensures
        match choice(data, r) {
            Ok(_) => true,
            Err(FailureView::VersionText(text)) => exists|k: int|
                {
                    &&& 0 <= k < data.len()
                    &&& (#[trigger] data[k]).name == Some(r.name)
                    &&& data[k].version == text
                    &&& parse_version(text) is None
                    &&& forall|i: int|
                        0 <= i < k && (#[trigger] data[i]).name == Some(r.name) ==> parse_version(
                            data[i].version,
                        ) is Some
                },
            Err(f) => {
                &&& f == FailureView::NoPackage(r)
                &&& forall|i: int|
                    0 <= i < data.len() && (#[trigger] data[i]).name == Some(r.name) ==> (
                    parse_version(data[i].version) matches Some(v) && !all_admit(
                        r.constraints,
                        v,
                    ))
            },
        },
{
    no_package_is_taken_without_data(data, r);
    match choice(data, r) {
        Err(FailureView::VersionText(text)) => {
            lemma_first_text(data, r.name);
        },
        Err(f) => {
            assert forall|i: int| 0 <= i < data.len() && (#[trigger] data[i]).name == Some(
                r.name,
            ) implies (parse_version(data[i].version) matches Some(v) && !all_admit(
                r.constraints,
                v,
            )) by {
                assert(!meets(data[i], r));
            }
        },
        Ok(_) => {},
    }
}

proof fn lemma_first_text(data: Seq<ReqCacheView>, name: Seq<char>)
    ensures
        first_unreadable(data, name) matches Some(text) ==> exists|k: int|
            {
                &&& 0 <= k < data.len()
                &&& (#[trigger] data[k]).name == Some(name)
                &&& data[k].version == text
                &&& parse_version(text) is None
                &&& forall|i: int|
                    0 <= i < k && (#[trigger] data[i]).name == Some(name) ==> parse_version(
                        data[i].version,
                    ) is Some
            },
    decreases data.len(),
{
    if let Some(text) = first_unreadable(data, name) {
        let front = data.drop_last();
        lemma_first_text(front, name);
        if first_unreadable(front, name) is Some {
            let k = choose|k: int|
                {
                    &&& 0 <= k < front.len()
                    &&& (#[trigger] front[k]).name == Some(name)
                    &&& front[k].version == text
                    &&& parse_version(text) is None
                    &&& forall|i: int|
                        0 <= i < k && (#[trigger] front[i]).name == Some(name) ==> parse_version(
                            front[i].version,
                        ) is Some
                };
            assert(data[k].name == Some(name));
            assert forall|i: int| 0 <= i < k && (#[trigger] data[i]).name == Some(
                name,
            ) implies parse_version(data[i].version) is Some by {
                assert(front[i] == data[i]);
            }
        } else {
            lemma_first_unreadable(front, name);
            let k = data.len() - 1;
            assert(data[k].name == Some(name));
            assert forall|i: int| 0 <= i < k && (#[trigger] data[i]).name == Some(
                name,
            ) implies parse_version(data[i].version) is Some by {
                assert(front[i] == data[i]);
            }
        }
    }
}

/// Each failure is seen as what it is, with what it is about.
pub proof fn failures_are_seen_whole(f: Failure)
    ensures
        match f {
            Failure::Platform => f.deep_view() == FailureView::Platform,
            Failure::VersionInfo(name) => f.deep_view() == FailureView::VersionInfo(name@),
            Failure::DependencyData => f.deep_view() == FailureView::DependencyData,
            Failure::NoPackage(req) => f.deep_view() == FailureView::NoPackage(req.deep_view()),
            Failure::VersionText(text) => f.deep_view() == FailureView::VersionText(text@),
        },
{
}

} // verus!
