//! What holds of the packages to be installed once a search is complete.

use crate::choice::{newest_package_is_taken, DepView};
use crate::constraint::all_admit;
use crate::follow::{
    complete_search_follows_every_requirement, found_names, lemma_found_names_push,
    lemma_required_names_add, one_package_is_found_for_each_requirement, required_names, stands,
};
use crate::graph::start;
use crate::guess::{complete, leads, Service, Work};
use crate::lock::{
    held, held_data, is_locked, lemma_lock_place, lemma_locked_found,
    requirements_are_held_or_unheld, unheld,
};
use crate::origin::{comes_from, every_package_found_was_taken, meets_one, taken, Origin};
use crate::pydeps::{
    best_for_one, best_version, best_version_for_each_requirement_is_asked_for,
    newest_compatible_version_is_asked_for, question, question_is_about_the_packages_required,
    ReqCacheView, VersionInfoView,
};
use crate::req::ReqView;
use crate::resolve::{
    each_name_is_resolved_once_or_left_out, greatest_version_that_meets_all_is_picked,
    lemma_row_place, lemma_row_version, meets_all, names_are_found_once, names_found,
    names_left_out, names_repeated, names_resolved, pick, repeated_names_are_named_once, resolved,
    times,
};
use crate::settings::SettingsView;
use crate::version::{parse_version, written_reads_back, Version};
use vstd::prelude::*;

verus! {

/// For every requirement searched for, a package was found under the name
/// required.
pub proof fn lemma_requirement_is_found(
    c: SettingsView,
    s: Service,
    reqs: Seq<ReqView>,
    w: Work,
    r: ReqView,
)
    requires
        leads(c, s, start(reqs), complete(w)),
        w.searched.contains(r),
    ensures
        names_found(w.result).contains(r.name),
{
    broadcast use vstd::seq_lib::group_to_multiset_ensures;

    one_package_is_found_for_each_requirement(c, s, reqs, w);
    let names = w.result.map_values(|d: DepView| d.0);
    let wanted = w.searched.map_values(|r: ReqView| r.name);
    let k = w.searched.index_of(r);
    assert(wanted[k] == r.name);
    assert(wanted.contains(r.name));
    assert(wanted.to_multiset().count(r.name) > 0);
    assert(names.to_multiset().count(r.name) > 0);
    assert(names.contains(r.name));
    let i = names.index_of(r.name);
    assert(w.result[i].0 == r.name);
    names_are_found_once(w.result);
}

/// When the search is complete, the version of each package to be installed
/// meets every requirement on the package that was searched for.
pub proof fn resolved_versions_meet_every_requirement(
    c: SettingsView,
    s: Service,
    reqs: Seq<ReqView>,
    w: Work,
    r: ReqView,
    k: int,
)
    requires
        leads(c, s, start(reqs), complete(w)),
        w.searched.contains(r),
        0 <= k < resolved(w.result, w.searched, w.vers).len(),
        names_resolved(w.result, w.searched)[k] == r.name,
    ensures
        all_admit(r.constraints, resolved(w.result, w.searched, w.vers)[k].1),
{
    lemma_row_version(w.result, w.searched, w.vers, k);
    greatest_version_that_meets_all_is_picked(w.result, w.searched, r.name);
    let i = w.searched.index_of(r);
    assert(w.searched[i].name == r.name);
}

/// Whether what is to be installed has a row for the package required, with a
/// version that meets the requirement.
pub open spec fn row_meets(w: Work, r: ReqView) -> bool {
    exists|k: int|
        {
            &&& 0 <= k < resolved(w.result, w.searched, w.vers).len()
            &&& #[trigger] names_resolved(w.result, w.searched)[k] == r.name
            &&& all_admit(r.constraints, resolved(w.result, w.searched, w.vers)[k].1)
        }
}

/// When the search is complete, every requirement that stands, of those it
/// started from and of every package that it found, was searched for. Either a
/// package is to be installed that meets it, or the package is named as left
/// out because no version found meets every requirement on it.
pub proof fn standing_requirements_are_resolved(
    c: SettingsView,
    s: Service,
    reqs: Seq<ReqView>,
    w: Work,
    r: ReqView,
)
    requires
        leads(c, s, start(reqs), complete(w)),
        stands(c, r),
        reqs.contains(r) || exists|i: int|
            0 <= i < w.result.len() && (#[trigger] w.result[i]).2.contains(r),
    ensures
        w.searched.contains(r),
        names_left_out(w.result, w.searched).contains(r.name) <==> !row_meets(w, r),
{
    complete_search_follows_every_requirement(c, s, reqs, w);
    if reqs.contains(r) {
        let k = reqs.index_of(r);
        assert(stands(c, reqs[k]));
    } else {
        let i = choose|i: int|
            0 <= i < w.result.len() && (#[trigger] w.result[i]).2.contains(r);
        let k = w.result[i].2.index_of(r);
        assert(stands(c, w.result[i].2[k]));
    }
    lemma_requirement_is_found(c, s, reqs, w, r);
    each_name_is_resolved_once_or_left_out(w.result, w.searched, w.vers);
    assert(names_left_out(w.result, w.searched).contains(r.name) <==> pick(
        w.result,
        w.searched,
        r.name,
    ) is None);
    if pick(w.result, w.searched, r.name) is Some {
        let k = lemma_row_place(w.result, w.searched, w.vers, r.name);
        resolved_versions_meet_every_requirement(c, s, reqs, w, r, k);
    }
    if row_meets(w, r) {
        let k = choose|k: int|
            {
                &&& 0 <= k < resolved(w.result, w.searched, w.vers).len()
                &&& #[trigger] names_resolved(w.result, w.searched)[k] == r.name
                &&& all_admit(r.constraints, resolved(w.result, w.searched, w.vers)[k].1)
            };
        lemma_row_version(w.result, w.searched, w.vers, k);
    }
}

/// Where all requirements on a package are one and the same, a version that
/// meets one of them meets them all.
proof fn lemma_meets_all(w: Work, d: DepView, j: int)
    requires
        0 <= j < w.searched.len(),
        w.searched[j].name == d.0,
        all_admit(w.searched[j].constraints, d.1),
        w.result.contains(d),
        forall|i: int|
            0 <= i < w.searched.len() && (#[trigger] w.searched[i]).name == d.0 ==> w.searched[i]
                == w.searched[j],
    ensures
        pick(w.result, w.searched, d.0) is Some,
{
    assert(meets_all(w.searched, d.0, d.1));
    greatest_version_that_meets_all_is_picked(w.result, w.searched, d.0);
    let i = w.result.index_of(d);
    assert(w.result[i] == d);
}

/// How often a package was found, said over the names found.
proof fn lemma_times(found: Seq<DepView>, name: Seq<char>)
    ensures
        times(found, name) == found_names(found).count(name),
    decreases found.len(),
{
    broadcast use vstd::multiset::group_multiset_axioms;
    broadcast use vstd::seq_lib::group_to_multiset_ensures;

    reveal(Seq::filter);
    if found.len() > 0 {
        let front = found.drop_last();
        lemma_times(front, name);
        lemma_found_names_push(front, found.last());
        assert(front.push(found.last()) =~= found);
    } else {
        assert(found.map_values(|d: DepView| d.0) =~= Seq::<Seq<char>>::empty());
    }
}

/// Two requirements on a package count as two.
proof fn lemma_required_twice(searched: Seq<ReqView>, name: Seq<char>, i: int, j: int)
    requires
        0 <= i < j < searched.len(),
        searched[i].name == name,
        searched[j].name == name,
    ensures
        required_names(searched).count(name) > 1,
{
    broadcast use vstd::multiset::group_multiset_axioms;
    broadcast use vstd::seq_lib::group_to_multiset_ensures;

    let f = |r: ReqView| r.name;
    let (a, b) = (searched.take(j), searched.skip(j));
    assert(a + b =~= searched);
    lemma_required_names_add(a, b);
    assert(a.map_values(f)[i] == name);
    assert(a.map_values(f).contains(name));
    assert(b.map_values(f)[0] == name);
    assert(b.map_values(f).contains(name));
    assert(required_names(a).count(name) > 0);
    assert(required_names(b).count(name) > 0);
}

/// When the search is complete, a package is left out only if it was specified
/// more than once: there are two different requirements on it, and it is named
/// as found more than once.
pub proof fn packages_left_out_were_specified_more_than_once(
    c: SettingsView,
    s: Service,
    reqs: Seq<ReqView>,
    w: Work,
    name: Seq<char>,
)
    requires
        leads(c, s, start(reqs), complete(w)),
        names_left_out(w.result, w.searched).contains(name),
    ensures
        exists|i: int, j: int|
            {
                &&& 0 <= i < j < w.searched.len()
                &&& (#[trigger] w.searched[i]).name == name
                &&& (#[trigger] w.searched[j]).name == name
                &&& w.searched[i] != w.searched[j]
            },
        names_repeated(w.result).contains(name),
{
    each_name_is_resolved_once_or_left_out(w.result, w.searched, w.vers);
    names_are_found_once(w.result);
    every_package_found_was_taken(c, s, reqs, w);
    let i = choose|i: int| 0 <= i < w.result.len() && (#[trigger] w.result[i]).0 == name;
    let d = w.result[i];
    assert(meets_one(w.searched, d));
    let j = choose|j: int|
        0 <= j < w.searched.len() && (#[trigger] w.searched[j]).name == d.0 && all_admit(
            w.searched[j].constraints,
            d.1,
        );
    if forall|i: int|
        0 <= i < w.searched.len() && (#[trigger] w.searched[i]).name == d.0 ==> w.searched[i]
            == w.searched[j] {
        lemma_meets_all(w, d, j);
    }
    let m = choose|m: int|
        0 <= m < w.searched.len() && (#[trigger] w.searched[m]).name == d.0 && w.searched[m]
            != w.searched[j];
    let (first, second) = if m < j {
        (m, j)
    } else {
        (j, m)
    };
    assert(w.searched[first] != w.searched[second]);
    lemma_required_twice(w.searched, name, first, second);
    one_package_is_found_for_each_requirement(c, s, reqs, w);
    lemma_times(w.result, name);
    repeated_names_are_named_once(w.result);
}

/// Whether an answer speaks of nothing but the packages and versions asked
/// about.
pub open spec fn only_about(
    packages: Map<Seq<char>, Seq<Version>>,
    answer: Seq<ReqCacheView>,
) -> bool {
    forall|i: int|
        0 <= i < answer.len() ==> {
            &&& (#[trigger] answer[i]).name matches Some(name)
            &&& packages.dom().contains(name)
            &&& parse_version(answer[i].version) matches Some(v)
            &&& packages[name].contains(v)
        }
}

/// Whether the service replies with just the versions asked about.
pub open spec fn says_just_what_is_asked(s: Service) -> bool {
    forall|packages: Map<Seq<char>, Seq<Version>>|
        (#[trigger] (s.dependencies)(packages)) matches Some(answer) ==> only_about(
            packages,
            answer,
        )
}

/// Whether a version is the newest known one up to the latest that meets every
/// requirement on a package.
pub open spec fn is_newest(
    info: VersionInfoView,
    searched: Seq<ReqView>,
    name: Seq<char>,
    v: Version,
) -> bool {
    &&& info.2.contains(v)
    &&& v.at_most(info.1)
    &&& meets_all(searched, name, v)
    &&& forall|u: Version|
        info.2.contains(u) && u.at_most(info.1) && #[trigger] meets_all(searched, name, u)
            ==> u.at_most(v)
}

/// Where the lock file does not answer every requirement on a package and the
/// service says just what it is asked, a package found under that name whose
/// version meets every requirement has a known version, and no known version
/// that meets every requirement is newer.
proof fn lemma_none_newer_is_found(
    c: SettingsView,
    s: Service,
    w: Work,
    name: Seq<char>,
    d: DepView,
)
    requires
        says_just_what_is_asked(s),
        taken(c, s, w, d),
        d.0 == name,
        meets_all(w.searched, name, d.1),
        exists|i: int|
            0 <= i < w.searched.len() && (#[trigger] w.searched[i]).name == name && !is_locked(
                c,
                w.searched[i],
            ),
    ensures
        w.vers.dom().contains(name),
        w.vers[name].2.contains(d.1),
        d.1.at_most(w.vers[name].1),
        forall|u: Version|
            w.vers[name].2.contains(u) && u.at_most(w.vers[name].1) && #[trigger] meets_all(
                w.searched,
                name,
                u,
            ) ==> u.at_most(d.1),
{
    let o = choose|o: Origin| #[trigger] comes_from(c, s, w, d, o);
    let open = unheld(c, o.list);
    let data = o.answer + held_data(c, o.list);
    newest_package_is_taken(data, o.req);
    let k = choose|k: int|
        0 <= k < data.len() && (#[trigger] data[k]).name == Some(o.req.name) && parse_version(
            data[k].version,
        ) == Some(d.1);
    if k >= o.answer.len() {
        // What the lock file says does not meet a requirement that it does not answer.
        let q = held(c, o.list)[k - o.answer.len()];
        requirements_are_held_or_unheld(c, o.list);
        assert(held(c, o.list).contains(q));
        lemma_locked_found(c, q);
        let m = lemma_lock_place(c.locked, q);
        written_reads_back(c.locked[m].1);
        assert(c.locked[m].0 == name && c.locked[m].1 == d.1);
        let i = choose|i: int|
            0 <= i < w.searched.len() && (#[trigger] w.searched[i]).name == name && !is_locked(
                c,
                w.searched[i],
            );
        assert(is_locked(c, w.searched[i]));
    }
    assert(data[k] == o.answer[k]);
    assert(only_about(question(open, o.known), o.answer));
    best_version_for_each_requirement_is_asked_for(open, o.known, name);
    assert(best_for_one(open, o.known, name, d.1));
    let i = choose|i: int|
        0 <= i < open.len() && (#[trigger] open[i]).name == name && best_version(
            open[i].constraints,
            o.known[name],
        ).contains(d.1);
    let q = open[i];
    let best = best_version(q.constraints, o.known[name]);
    newest_compatible_version_is_asked_for(q.constraints, o.known[name]);
    assert(best[best.index_of(d.1)] == d.1);
    requirements_are_held_or_unheld(c, o.list);
    assert(open.contains(q));
    assert(o.list[o.list.index_of(q)] == q);
    assert(o.known.dom().contains(open[i].name));
    let j = w.searched.index_of(q);
    assert(w.searched[j] == q);
    assert forall|u: Version|
        w.vers[name].2.contains(u) && u.at_most(w.vers[name].1) && #[trigger] meets_all(
            w.searched,
            name,
            u,
        ) implies u.at_most(d.1) by {
        assert(all_admit(w.searched[j].constraints, u));
    }
}

/// When the search is complete, the version of each package to be installed is
/// the newest known one up to the latest that meets every requirement on the
/// package. There is a requirement among them that the lock file does not
/// answer, and the service says just what it is asked.
pub proof fn newest_version_that_meets_all_is_resolved(
    c: SettingsView,
    s: Service,
    reqs: Seq<ReqView>,
    w: Work,
    name: Seq<char>,
) -> (k: int)
    requires
        leads(c, s, start(reqs), complete(w)),
        says_just_what_is_asked(s),
        exists|i: int|
            0 <= i < w.searched.len() && (#[trigger] w.searched[i]).name == name && !is_locked(
                c,
                w.searched[i],
            ),
        pick(w.result, w.searched, name) is Some,
    ensures
        0 <= k < resolved(w.result, w.searched, w.vers).len(),
        names_resolved(w.result, w.searched)[k] == name,
        w.vers.dom().contains(name),
        is_newest(
            w.vers[name],
            w.searched,
            name,
            resolved(w.result, w.searched, w.vers)[k].1,
        ),
{
    every_package_found_was_taken(c, s, reqs, w);
    let k = lemma_row_place(w.result, w.searched, w.vers, name);
    lemma_row_version(w.result, w.searched, w.vers, k);
    greatest_version_that_meets_all_is_picked(w.result, w.searched, name);
    let d = pick(w.result, w.searched, name)->0;
    let i = w.result.index_of(d);
    assert(taken(c, s, w, w.result[i]));
    lemma_none_newer_is_found(c, s, w, name, d);
    k
}

/// When the search is complete, a package on which there is one requirement has
/// a row in what is to be installed. Where the lock file does not answer the
/// requirement, it has the newest known version up to the latest that meets it.
/// The service says just what it is asked.
pub proof fn newest_version_is_resolved(
    c: SettingsView,
    s: Service,
    reqs: Seq<ReqView>,
    w: Work,
    r: ReqView,
) -> (k: int)
    requires
        leads(c, s, start(reqs), complete(w)),
        says_just_what_is_asked(s),
        w.searched.contains(r),
        forall|i: int|
            0 <= i < w.searched.len() && (#[trigger] w.searched[i]).name == r.name
                ==> w.searched[i] == r,
    ensures
        0 <= k < resolved(w.result, w.searched, w.vers).len(),
        names_resolved(w.result, w.searched)[k] == r.name,
        !is_locked(c, r) ==> w.vers.dom().contains(r.name) && is_newest(
            w.vers[r.name],
            w.searched,
            r.name,
            resolved(w.result, w.searched, w.vers)[k].1,
        ),
{
    lemma_requirement_is_found(c, s, reqs, w, r);
    names_are_found_once(w.result);
    every_package_found_was_taken(c, s, reqs, w);
    let i = choose|i: int| 0 <= i < w.result.len() && (#[trigger] w.result[i]).0 == r.name;
    let d = w.result[i];
    assert(meets_one(w.searched, d));
    let j = choose|j: int|
        0 <= j < w.searched.len() && (#[trigger] w.searched[j]).name == d.0 && all_admit(
            w.searched[j].constraints,
            d.1,
        );
    lemma_meets_all(w, d, j);
    if is_locked(c, r) {
        lemma_row_place(w.result, w.searched, w.vers, r.name)
    } else {
        assert(w.searched[w.searched.index_of(r)] == r);
        newest_version_that_meets_all_is_resolved(c, s, reqs, w, r.name)
    }
}

/// When the search is complete and the lock file answers every requirement on a
/// package, the package is to be installed in a version that the lock file has,
/// if it is to be installed at all. The service says just what it is asked.
pub proof fn locked_version_is_kept(
    c: SettingsView,
    s: Service,
    reqs: Seq<ReqView>,
    w: Work,
    name: Seq<char>,
) -> (k: int)
    requires
        leads(c, s, start(reqs), complete(w)),
        says_just_what_is_asked(s),
        forall|i: int|
            0 <= i < w.searched.len() && (#[trigger] w.searched[i]).name == name ==> is_locked(
                c,
                w.searched[i],
            ),
        pick(w.result, w.searched, name) is Some,
    ensures
        0 <= k < resolved(w.result, w.searched, w.vers).len(),
        names_resolved(w.result, w.searched)[k] == name,
        exists|m: int|
            0 <= m < c.locked.len() && (#[trigger] c.locked[m]).0 == name && c.locked[m].1
                == resolved(w.result, w.searched, w.vers)[k].1,
{
    every_package_found_was_taken(c, s, reqs, w);
    let row = lemma_row_place(w.result, w.searched, w.vers, name);
    lemma_row_version(w.result, w.searched, w.vers, row);
    greatest_version_that_meets_all_is_picked(w.result, w.searched, name);
    let d = pick(w.result, w.searched, name)->0;
    assert(taken(c, s, w, w.result[w.result.index_of(d)]));
    let o = choose|o: Origin| #[trigger] comes_from(c, s, w, d, o);
    let open = unheld(c, o.list);
    let data = o.answer + held_data(c, o.list);
    newest_package_is_taken(data, o.req);
    let k = choose|k: int|
        0 <= k < data.len() && (#[trigger] data[k]).name == Some(o.req.name) && parse_version(
            data[k].version,
        ) == Some(d.1);
    requirements_are_held_or_unheld(c, o.list);
    if k < o.answer.len() {
        assert(data[k] == o.answer[k]);
        assert(only_about(question(open, o.known), o.answer));
        question_is_about_the_packages_required(open, o.known);
        let i = choose|i: int| 0 <= i < open.len() && (#[trigger] open[i]).name == name;
        assert(open.contains(open[i]));
        assert(o.list[o.list.index_of(open[i])] == open[i]);
        assert(w.searched[w.searched.index_of(open[i])] == open[i]);
    }
    let q = held(c, o.list)[k - o.answer.len()];
    assert(held(c, o.list).contains(q));
    lemma_locked_found(c, q);
    let m = lemma_lock_place(c.locked, q);
    written_reads_back(c.locked[m].1);
    assert(c.locked[m].0 == name);
    row
}

} // verus!
