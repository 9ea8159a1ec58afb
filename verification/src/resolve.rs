//! What is to be installed, from the packages that were found.

use crate::choice::{Dep, DepView};
use crate::constraint::{all_admit, is_compat};
use crate::graph::GuessGraph;
use crate::pydeps::{VersionInfo, VersionInfoView};
use crate::req::{Req, ReqView};
use crate::settings::{LockPack, LockPackView};
use crate::table::Table;
use crate::text::place_of;
use crate::version::Version;
use vstd::prelude::*;

verus! {

/// The names of the packages found, each once, in the order in which they were
/// first found.
pub open spec fn names_found(found: Seq<DepView>) -> Seq<Seq<char>>
    decreases found.len(),
{
    if found.len() == 0 {
        seq![]
    } else {
        let before = names_found(found.drop_last());
        if before.contains(found.last().0) {
            before
        } else {
            before.push(found.last().0)
        }
    }
}

/// Whether a version of a package meets every requirement on the package.
pub open spec fn meets_all(searched: Seq<ReqView>, name: Seq<char>, v: Version) -> bool {
    forall|i: int|
        0 <= i < searched.len() && (#[trigger] searched[i]).name == name ==> all_admit(
            searched[i].constraints,
            v,
        )
}

/// The package to be installed under a name: of those found, the one with the
/// greatest version that meets every requirement on the package; where two
/// versions are equal, the later of the two.
pub open spec fn pick(
    found: Seq<DepView>,
    searched: Seq<ReqView>,
    name: Seq<char>,
) -> Option<DepView>
    decreases found.len(),
{
    if found.len() == 0 {
        None
    } else {
        let before = pick(found.drop_last(), searched, name);
        let d = found.last();
        if d.0 == name && meets_all(searched, name, d.1) {
            match before {
                Some(p) => if p.1.at_most(d.1) {
                    Some(d)
                } else {
                    Some(p)
                },
                None => Some(d),
            }
        } else {
            before
        }
    }
}

/// Being a name under which a package is to be installed.
pub open spec fn has_pick(found: Seq<DepView>, searched: Seq<ReqView>) -> spec_fn(
    Seq<char>,
) -> bool {
    |name: Seq<char>| pick(found, searched, name) is Some
}

/// Being a name under which no package is to be installed.
pub open spec fn has_no_pick(found: Seq<DepView>, searched: Seq<ReqView>) -> spec_fn(
    Seq<char>,
) -> bool {
    |name: Seq<char>| pick(found, searched, name) is None
}

/// The names under which a package is to be installed.
pub open spec fn names_resolved(found: Seq<DepView>, searched: Seq<ReqView>) -> Seq<Seq<char>> {
    names_found(found).filter(has_pick(found, searched))
}

/// The names under which packages were found, but none whose version meets
/// every requirement.
pub open spec fn names_left_out(found: Seq<DepView>, searched: Seq<ReqView>) -> Seq<Seq<char>> {
    names_found(found).filter(has_no_pick(found, searched))
}

/// Being a package of this name.
pub open spec fn called(name: Seq<char>) -> spec_fn(DepView) -> bool {
    |d: DepView| d.0 == name
}

/// How often a package was found.
pub open spec fn times(found: Seq<DepView>, name: Seq<char>) -> nat {
    found.filter(called(name)).len()
}

/// Being the name of a package that was found more than once.
pub open spec fn found_again(found: Seq<DepView>) -> spec_fn(Seq<char>) -> bool {
    |name: Seq<char>| times(found, name) > 1
}

/// The names under which packages were found more than once.
pub open spec fn names_repeated(found: Seq<DepView>) -> Seq<Seq<char>> {
    names_found(found).filter(found_again(found))
}

/// A name in its proper spelling, as far as that is known.
pub open spec fn proper_name(
    known: Map<Seq<char>, VersionInfoView>,
    name: Seq<char>,
) -> Seq<char> {
    if known.dom().contains(name) {
        known[name].0
    } else {
        name
    }
}

/// Being a requirement on a package that is to be installed.
pub open spec fn on_picked(found: Seq<DepView>, searched: Seq<ReqView>) -> spec_fn(
    ReqView,
) -> bool {
    |r: ReqView| pick(found, searched, r.name) is Some
}

/// The name required, and the version that is to be installed under it.
pub open spec fn subdep(found: Seq<DepView>, searched: Seq<ReqView>) -> spec_fn(ReqView) -> (
    Seq<char>,
    Version,
) {
    |r: ReqView| (r.name, (pick(found, searched, r.name)->0).1)
}

/// What a package depends on: for each of its requirements in turn the package
/// that is to be installed under the name required, if there is one.
pub open spec fn subdeps(
    reqs: Seq<ReqView>,
    found: Seq<DepView>,
    searched: Seq<ReqView>,
) -> Seq<(Seq<char>, Version)> {
    reqs.filter(on_picked(found, searched)).map_values(subdep(found, searched))
}

/// What is to be installed under a name.
pub open spec fn row(
    found: Seq<DepView>,
    searched: Seq<ReqView>,
    known: Map<Seq<char>, VersionInfoView>,
) -> spec_fn(Seq<char>) -> LockPackView {
    |name: Seq<char>|
        {
            let d = pick(found, searched, name)->0;
            (proper_name(known, name), d.1, subdeps(d.2, found, searched))
        }
}

/// What is to be installed: one package for each name found, with the greatest
/// version found that meets every requirement on it. Where no version found
/// does, the package is left out.
pub open spec fn resolved(
    found: Seq<DepView>,
    searched: Seq<ReqView>,
    known: Map<Seq<char>, VersionInfoView>,
) -> Seq<LockPackView> {
    names_resolved(found, searched).map_values(row(found, searched, known))
}

fn distinct_names(found: &Vec<Dep>) -> (names: Vec<String>)
    ensures
        names.deep_view() == names_found(found.deep_view()),
{
    let ghost all = found.deep_view();
    let mut names: Vec<String> = Vec::new();
    let mut i: usize = 0;
    proof {
        assert(names.deep_view() =~= names_found(all.take(0)));
    }
    while i < found.len()
        invariant
            i <= found@.len(),
            all == found.deep_view(),
            names.deep_view() == names_found(all.take(i as int)),
        decreases found@.len() - i,
    {
        let name = &found[i].0;
        let ghost before = names.deep_view();
        proof {
            assert(all[i as int].0 == name@);
            assert(all.take(i + 1).drop_last() =~= all.take(i as int));
        }
        match place_of(&names, name) {
            Some(k) => {
                proof {
                    assert(before[k as int] == name@);
                }
            },
            None => {
                proof {
                    if before.contains(name@) {
                        let k = before.index_of(name@);
                        assert(names@[k]@ == name@);
                    }
                }
                names.push(name.clone());
                proof {
                    assert(names.deep_view() =~= before.push(name@));
                }
            },
        }
        i += 1;
    }
    proof {
        assert(all.take(i as int) =~= all);
    }
    names
}

fn meets_every(searched: &Vec<Req>, name: &String, v: &Version) -> (b: bool)
    ensures
        b == meets_all(searched.deep_view(), name@, *v),
{
    let ghost all = searched.deep_view();
    let mut i: usize = 0;
    while i < searched.len()
        invariant
            i <= searched@.len(),
            all == searched.deep_view(),
            forall|j: int|
                0 <= j < i && (#[trigger] all[j]).name == name@ ==> all_admit(
                    all[j].constraints,
                    *v,
                ),
        decreases searched@.len() - i,
    {
        let req = &searched[i];
        proof {
            assert(all[i as int] == req.deep_view());
        }
        if req.name == *name && !is_compat(req.constraints.as_slice(), v) {
            return false;
        }
        i += 1;
    }
    true
}

fn place_of_pick(found: &Vec<Dep>, searched: &Vec<Req>, name: &String) -> (p: Option<usize>)
    ensures
        match p {
            Some(k) => k < found@.len() && pick(
                found.deep_view(),
                searched.deep_view(),
                name@,
            ) == Some(found.deep_view()[k as int]),
            None => pick(found.deep_view(), searched.deep_view(), name@) is None,
        },
{
    let ghost all = found.deep_view();
    let ghost wanted = searched.deep_view();
    let mut best: Option<usize> = None;
    let mut i: usize = 0;
    while i < found.len()
        invariant
            i <= found@.len(),
            all == found.deep_view(),
            wanted == searched.deep_view(),
            match best {
                Some(k) => k < i && pick(all.take(i as int), wanted, name@) == Some(
                    all[k as int],
                ),
                None => pick(all.take(i as int), wanted, name@) is None,
            },
        decreases found@.len() - i,
    {
        let dep = &found[i];
        proof {
            assert(all[i as int] == dep.deep_view());
            assert(all.take(i + 1).drop_last() =~= all.take(i as int));
        }
        if dep.0 == *name && meets_every(searched, name, &dep.1) {
            best = match best {
                Some(k) => if found[k].1 <= dep.1 { Some(i) } else { Some(k) },
                None => Some(i),
            };
        }
        i += 1;
    }
    proof {
        assert(all.take(i as int) =~= all);
    }
    best
}

fn subdeps_of(reqs: &Vec<Req>, found: &Vec<Dep>, searched: &Vec<Req>) -> (out: Vec<
    (String, Version),
>)
    ensures
        out.deep_view() == subdeps(reqs.deep_view(), found.deep_view(), searched.deep_view()),
{
    let ghost all = reqs.deep_view();
    let ghost p = on_picked(found.deep_view(), searched.deep_view());
    let ghost f = subdep(found.deep_view(), searched.deep_view());
    let mut out: Vec<(String, Version)> = Vec::new();
    let mut i: usize = 0;
    proof {
        reveal(Seq::filter);
        assert(out.deep_view() =~= all.take(0).filter(p).map_values(f));
    }
    while i < reqs.len()
        invariant
            i <= reqs@.len(),
            all == reqs.deep_view(),
            p == on_picked(found.deep_view(), searched.deep_view()),
            f == subdep(found.deep_view(), searched.deep_view()),
            out.deep_view() == all.take(i as int).filter(p).map_values(f),
        decreases reqs@.len() - i,
    {
        let name = &reqs[i].name;
        let ghost r = all[i as int];
        let ghost before = out.deep_view();
        proof {
            reveal(Seq::filter);
            assert(r.name == name@);
            assert(all.take(i + 1).drop_last() =~= all.take(i as int));
        }
        if let Some(k) = place_of_pick(found, searched, name) {
            out.push((name.clone(), found[k].1));
            proof {
                let few = all.take(i as int).filter(p);
                assert(out.deep_view() =~= before.push(f(r)));
                assert(few.push(r).map_values(f) =~= few.map_values(f).push(f(r)));
            }
        }
        i += 1;
    }
    proof {
        assert(all.take(i as int) =~= all);
    }
    out
}

fn spelled(known: &Table<VersionInfo>, name: &String) -> (s: String)
    ensures
        s@ == proper_name(known@, name@),
{
    match known.get(name) {
        Some(info) => info.0.clone(),
        None => name.clone(),
    }
}

/// Determines what is to be installed once the search is complete: one package
/// for each name found, with the greatest version found that meets every
/// requirement on it. For each package it gives the name, the version, and the
/// names and versions of the packages that it depends on.
pub fn resolve(graph: &GuessGraph) -> (out: Vec<LockPack>)
    requires
        graph@.phase is Done,
    ensures
        out.deep_view() == resolved(graph@.result, graph@.searched, graph@.vers),
{
    let found = graph.found();
    let searched = graph.searched();
    let known = graph.known();
    let ghost p = has_pick(found.deep_view(), searched.deep_view());
    let ghost f = row(found.deep_view(), searched.deep_view(), known@);
    let names = distinct_names(found);
    let ghost all = names.deep_view();
    let mut out: Vec<LockPack> = Vec::new();
    let mut i: usize = 0;
    proof {
        reveal(Seq::filter);
        assert(out.deep_view() =~= all.take(0).filter(p).map_values(f));
    }
    while i < names.len()
        invariant
            i <= names@.len(),
            all == names.deep_view(),
            p == has_pick(found.deep_view(), searched.deep_view()),
            f == row(found.deep_view(), searched.deep_view(), known@),
            out.deep_view() == all.take(i as int).filter(p).map_values(f),
        decreases names@.len() - i,
    {
        let name = &names[i];
        let ghost before = out.deep_view();
        proof {
            reveal(Seq::filter);
            assert(all[i as int] == name@);
            assert(all.take(i + 1).drop_last() =~= all.take(i as int));
        }
        if let Some(k) = place_of_pick(found, searched, name) {
            let dep = &found[k];
            let pack = (spelled(known, name), dep.1, subdeps_of(&dep.2, found, searched));
            let ghost view = pack.deep_view();
            out.push(pack);
            proof {
                let few = all.take(i as int).filter(p);
                assert(found.deep_view()[k as int] == dep.deep_view());
                assert(view == f(name@));
                assert(out.deep_view() =~= before.push(view));
                assert(few.push(name@).map_values(f) =~= few.map_values(f).push(view));
            }
        }
        i += 1;
    }
    proof {
        assert(all.take(i as int) =~= all);
    }
    out
}

fn count_named(found: &Vec<Dep>, name: &String) -> (n: usize)
    ensures
        n == times(found.deep_view(), name@),
{
    let ghost all = found.deep_view();
    let mut n: usize = 0;
    let mut i: usize = 0;
    proof {
        reveal(Seq::filter);
    }
    while i < found.len()
        invariant
            i <= found@.len(),
            all == found.deep_view(),
            n <= i,
            n == times(all.take(i as int), name@),
        decreases found@.len() - i,
    {
        proof {
            reveal(Seq::filter);
            assert(all.take(i + 1).drop_last() =~= all.take(i as int));
            assert(all[i as int].0 == found@[i as int].0@);
        }
        if found[i].0 == *name {
            n += 1;
        }
        i += 1;
    }
    proof {
        assert(all.take(i as int) =~= all);
    }
    n
}

/// The packages that were found more than once. Those that are left out of what
/// is to be installed are among them.
pub fn specified_more_than_once(graph: &GuessGraph) -> (out: Vec<String>)
    requires
        graph@.phase is Done,
    ensures
        out.deep_view() == names_repeated(graph@.result).map_values(
            |name: Seq<char>| proper_name(graph@.vers, name),
        ),
{
    let found = graph.found();
    let known = graph.known();
    let ghost p = found_again(found.deep_view());
    let ghost vers = known@;
    let names = distinct_names(found);
    let ghost all = names.deep_view();
    let mut out: Vec<String> = Vec::new();
    let mut i: usize = 0;
    proof {
        reveal(Seq::filter);
        assert(out.deep_view() =~= all.take(0).filter(p).map_values(
            |name: Seq<char>| proper_name(vers, name),
        ));
    }
    while i < names.len()
        invariant
            i <= names@.len(),
            all == names.deep_view(),
            p == found_again(found.deep_view()),
            vers == known@,
            out.deep_view() == all.take(i as int).filter(p).map_values(
                |name: Seq<char>| proper_name(vers, name),
            ),
        decreases names@.len() - i,
    {
        let name = &names[i];
        let ghost before = out.deep_view();
        proof {
            reveal(Seq::filter);
            assert(all[i as int] == name@);
            assert(all.take(i + 1).drop_last() =~= all.take(i as int));
        }
        if count_named(found, name) > 1 {
            let s = spelled(known, name);
            let ghost view = s@;
            out.push(s);
            proof {
                let few = all.take(i as int).filter(p);
                assert(out.deep_view() =~= before.push(view));
                assert(few.push(name@).map_values(|name: Seq<char>| proper_name(vers, name))
                    =~= few.map_values(|name: Seq<char>| proper_name(vers, name)).push(view));
            }
        }
        i += 1;
    }
    proof {
        assert(all.take(i as int) =~= all);
    }
    out
}

/// Filtering leaves names that differ.
proof fn lemma_filter_distinct(names: Seq<Seq<char>>, p: spec_fn(Seq<char>) -> bool)
    requires
        names.no_duplicates(),
    ensures
        names.filter(p).no_duplicates(),
    decreases names.len(),
{
    reveal(Seq::filter);
    if names.len() > 0 {
        let front = names.drop_last();
        lemma_filter_distinct(front, p);
        if front.filter(p).contains(names.last()) {
            front.lemma_filter_contains_rev(p, names.last());
            let i = front.index_of(names.last());
            assert(names[i] == names[names.len() - 1]);
        }
    }
}

/// Filtering leaves just the names that it is to leave.
proof fn lemma_filter_names(names: Seq<Seq<char>>, p: spec_fn(Seq<char>) -> bool, name: Seq<char>)
    ensures
        names.filter(p).contains(name) <==> names.contains(name) && p(name),
{
    let few = names.filter(p);
    if few.contains(name) {
        names.lemma_filter_contains_rev(p, name);
        names.lemma_filter_pred(p, few.index_of(name));
    }
    if names.contains(name) && p(name) {
        names.lemma_filter_contains(p, names.index_of(name));
    }
}

/// The names found are those of the packages found, each once.
pub proof fn names_are_found_once(found: Seq<DepView>)
    ensures
        forall|name: Seq<char>| #[trigger]
            names_found(found).contains(name) <==> exists|i: int|
                0 <= i < found.len() && (#[trigger] found[i]).0 == name,
        names_found(found).no_duplicates(),
    decreases found.len(),
{
    if found.len() > 0 {
        let front = found.drop_last();
        let before = names_found(front);
        let last = found.last().0;
        names_are_found_once(front);
        assert(found[found.len() - 1].0 == last);
        assert forall|name: Seq<char>| #[trigger]
            names_found(found).contains(name) <==> exists|i: int|
                0 <= i < found.len() && (#[trigger] found[i]).0 == name by {
            assert(before.contains(name) <==> exists|i: int|
                0 <= i < front.len() && (#[trigger] front[i]).0 == name);
            if before.contains(name) {
                let i = choose|i: int| 0 <= i < front.len() && (#[trigger] front[i]).0 == name;
                assert(found[i].0 == name);
                if !before.contains(last) {
                    assert(before.push(last)[before.index_of(name)] == name);
                }
            }
            if !before.contains(last) {
                assert(before.push(last)[before.len() as int] == last);
                if before.push(last).contains(name) && name != last {
                    assert(before[before.push(last).index_of(name)] == name);
                }
            }
            if exists|i: int| 0 <= i < found.len() && (#[trigger] found[i]).0 == name {
                let i = choose|i: int| 0 <= i < found.len() && (#[trigger] found[i]).0 == name;
                if i < front.len() {
                    assert(front[i].0 == name);
                }
            }
        }
    }
}

/// The package picked under a name was found under it, its version meets every
/// requirement on the package, and no version found that does is greater. None
/// is picked exactly if no version found does.
pub proof fn greatest_version_that_meets_all_is_picked(
    found: Seq<DepView>,
    searched: Seq<ReqView>,
    name: Seq<char>,
)
    ensures
        pick(found, searched, name) matches Some(d) ==> {
            &&& found.contains(d)
            &&& d.0 == name
            &&& meets_all(searched, name, d.1)
            &&& forall|i: int|
                0 <= i < found.len() && (#[trigger] found[i]).0 == name && meets_all(
                    searched,
                    name,
                    found[i].1,
                ) ==> found[i].1.at_most(d.1)
        },
        pick(found, searched, name) is None <==> forall|i: int|
            0 <= i < found.len() && (#[trigger] found[i]).0 == name ==> !meets_all(
                searched,
                name,
                found[i].1,
            ),
    decreases found.len(),
{
    if found.len() > 0 {
        let front = found.drop_last();
        greatest_version_that_meets_all_is_picked(front, searched, name);
        assert(found[found.len() - 1] == found.last());
        assert(forall|i: int| 0 <= i < front.len() ==> front[i] == #[trigger] found[i]);
        if let Some(p) = pick(front, searched, name) {
            assert(found[front.index_of(p)] == p);
        }
    }
}

/// Each name under which packages were found either has one row in what is to
/// be installed or is named once as left out, never both.
pub proof fn each_name_is_resolved_once_or_left_out(
    found: Seq<DepView>,
    searched: Seq<ReqView>,
    known: Map<Seq<char>, VersionInfoView>,
)
    ensures
        resolved(found, searched, known).len() == names_resolved(found, searched).len(),
        names_resolved(found, searched).no_duplicates(),
        names_left_out(found, searched).no_duplicates(),
        forall|name: Seq<char>| #[trigger]
            names_resolved(found, searched).contains(name) <==> pick(found, searched, name)
                is Some,
        forall|name: Seq<char>| #[trigger]
            names_left_out(found, searched).contains(name) <==> names_found(found).contains(name)
                && pick(found, searched, name) is None,
{
    let names = names_found(found);
    let (p, q) = (has_pick(found, searched), has_no_pick(found, searched));
    names_are_found_once(found);
    lemma_filter_distinct(names, p);
    lemma_filter_distinct(names, q);
    assert forall|name: Seq<char>| #[trigger]
        names_resolved(found, searched).contains(name) <==> pick(found, searched, name)
            is Some by {
        lemma_filter_names(names, p, name);
        greatest_version_that_meets_all_is_picked(found, searched, name);
        if let Some(d) = pick(found, searched, name) {
            assert(found[found.index_of(d)].0 == name);
        }
    }
    assert forall|name: Seq<char>| #[trigger]
        names_left_out(found, searched).contains(name) <==> names_found(found).contains(name)
            && pick(found, searched, name) is None by {
        lemma_filter_names(names, q, name);
    }
}

/// A name is repeated exactly if packages were found more than once under it,
/// and then it is named once.
pub proof fn repeated_names_are_named_once(found: Seq<DepView>)
    ensures
        names_repeated(found).no_duplicates(),
        forall|name: Seq<char>| #[trigger]
            names_repeated(found).contains(name) <==> times(found, name) > 1,
{
    let names = names_found(found);
    let p = found_again(found);
    names_are_found_once(found);
    lemma_filter_distinct(names, p);
    assert forall|name: Seq<char>| #[trigger]
        names_repeated(found).contains(name) <==> times(found, name) > 1 by {
        lemma_filter_names(names, p, name);
        let some = found.filter(called(name));
        if times(found, name) > 1 {
            found.lemma_filter_pred(called(name), 0);
            assert(some.contains(some[0]));
            found.lemma_filter_contains_rev(called(name), some[0]);
            let i = found.index_of(some[0]);
            assert(found[i].0 == name);
        }
    }
}

/// The place of the row for a name under which a package is to be installed.
pub proof fn lemma_row_place(
    found: Seq<DepView>,
    searched: Seq<ReqView>,
    known: Map<Seq<char>, VersionInfoView>,
    name: Seq<char>,
) -> (k: int)
    requires
        pick(found, searched, name) is Some,
    ensures
        0 <= k < names_resolved(found, searched).len(),
        names_resolved(found, searched)[k] == name,
        resolved(found, searched, known)[k] == row(found, searched, known)(name),
{
    each_name_is_resolved_once_or_left_out(found, searched, known);
    assert(names_resolved(found, searched).contains(name));
    names_resolved(found, searched).index_of(name)
}

/// Where a row of what is to be installed stands for a name, its version is
/// that of the package picked under the name.
pub proof fn lemma_row_version(
    found: Seq<DepView>,
    searched: Seq<ReqView>,
    known: Map<Seq<char>, VersionInfoView>,
    k: int,
)
    requires
        0 <= k < names_resolved(found, searched).len(),
    ensures
        pick(found, searched, names_resolved(found, searched)[k]) matches Some(d) && resolved(
            found,
            searched,
            known,
        )[k].1 == d.1,
{
    each_name_is_resolved_once_or_left_out(found, searched, known);
    assert(names_resolved(found, searched).contains(names_resolved(found, searched)[k]));
}

/// Whether what is to be installed has a row for this name, of this version.
pub open spec fn has_row(
    found: Seq<DepView>,
    searched: Seq<ReqView>,
    known: Map<Seq<char>, VersionInfoView>,
    d: (Seq<char>, Version),
) -> bool {
    exists|k: int|
        {
            &&& 0 <= k < resolved(found, searched, known).len()
            &&& #[trigger] names_resolved(found, searched)[k] == d.0
            &&& resolved(found, searched, known)[k].1 == d.1
        }
}

/// Being an entry under this name.
pub open spec fn listed(name: Seq<char>) -> spec_fn((Seq<char>, Version)) -> bool {
    |d: (Seq<char>, Version)| d.0 == name
}

/// Being a requirement on this package.
pub open spec fn requiring(name: Seq<char>) -> spec_fn(ReqView) -> bool {
    |r: ReqView| r.name == name
}

/// What a package depends on has a row in what is to be installed, of just that
/// version, and is required by the package. A name that has a row is listed
/// once for each requirement of the package on it; another name is not listed.
pub proof fn subdeps_are_required_and_resolved(
    reqs: Seq<ReqView>,
    found: Seq<DepView>,
    searched: Seq<ReqView>,
    known: Map<Seq<char>, VersionInfoView>,
)
    ensures
        forall|i: int|
            0 <= i < subdeps(reqs, found, searched).len() ==> has_row(
                found,
                searched,
                known,
                #[trigger] subdeps(reqs, found, searched)[i],
            ),
        forall|name: Seq<char>|
            (#[trigger] subdeps(reqs, found, searched).filter(listed(name))).len() == (if pick(
                found,
                searched,
                name,
            ) is Some {
                reqs.filter(requiring(name)).len()
            } else {
                0
            }),
{
    let p = on_picked(found, searched);
    let few = reqs.filter(p);
    let out = subdeps(reqs, found, searched);
    assert forall|i: int| 0 <= i < out.len() implies has_row(
        found,
        searched,
        known,
        #[trigger] out[i],
    ) by {
        reqs.lemma_filter_pred(p, i);
        let k = lemma_row_place(found, searched, known, few[i].name);
        assert(names_resolved(found, searched)[k] == out[i].0);
    }
    assert forall|name: Seq<char>|
        (#[trigger] out.filter(listed(name))).len() == (if pick(found, searched, name) is Some {
            reqs.filter(requiring(name)).len()
        } else {
            0
        }) by {
        lemma_listed(reqs, found, searched, name);
    }
}

proof fn lemma_listed(
    reqs: Seq<ReqView>,
    found: Seq<DepView>,
    searched: Seq<ReqView>,
    name: Seq<char>,
)
    ensures
        subdeps(reqs, found, searched).filter(listed(name)).len() == (if pick(
            found,
            searched,
            name,
        ) is Some {
            reqs.filter(requiring(name)).len()
        } else {
            0
        }),
    decreases reqs.len(),
{
    reveal(Seq::filter);
    if reqs.len() > 0 {
        let front = reqs.drop_last();
        let r = reqs.last();
        let few = front.filter(on_picked(found, searched));
        let f = subdep(found, searched);
        lemma_listed(front, found, searched, name);
        if on_picked(found, searched)(r) {
            assert(few.push(r).map_values(f) =~= few.map_values(f).push(f(r)));
            assert(few.map_values(f).push(f(r)).drop_last() =~= few.map_values(f));
        }
    }
}

/// A version meets no requirements on a package; one more requirement leaves
/// just those versions that meet its constraints too, if it is on the package,
/// and all of them otherwise.
pub proof fn requirements_are_met_one_by_one(
    searched: Seq<ReqView>,
    r: ReqView,
    name: Seq<char>,
    v: Version,
)
    ensures
        meets_all(seq![], name, v),
        meets_all(searched.push(r), name, v) <==> meets_all(searched, name, v) && (r.name == name
            ==> all_admit(r.constraints, v)),
{
    let more = searched.push(r);
    if meets_all(more, name, v) {
        assert forall|i: int| 0 <= i < searched.len() && (#[trigger] searched[i]).name
            == name implies all_admit(searched[i].constraints, v) by {
            assert(more[i] == searched[i]);
        }
        assert(more[searched.len() as int] == r);
    }
}

/// A package found once more is counted once more.
pub proof fn packages_are_counted_one_by_one(found: Seq<DepView>, d: DepView, name: Seq<char>)
    ensures
        times(seq![], name) == 0,
        times(found.push(d), name) == times(found, name) + (if d.0 == name {
            1nat
        } else {
            0nat
        }),
{
    reveal(Seq::filter);
    assert(found.push(d).drop_last() =~= found);
}

/// A name is spelled as the warehouse spells it where its versions are known,
/// and as it is required otherwise.
pub proof fn names_are_spelled_properly(known: Map<Seq<char>, VersionInfoView>, name: Seq<char>)
    ensures
        known.dom().contains(name) ==> proper_name(known, name) == known[name].0,
        !known.dom().contains(name) ==> proper_name(known, name) == name,
{
}

/// Each row of what is to be installed has the name in its proper spelling, and
/// the version and the requirements of a package that was found under the name.
/// What it says of dependencies follows from these requirements alone: a name is
/// listed as often as the package requires it if there is a row for the name,
/// and not at all otherwise, and each time with the version of that row.
pub proof fn rows_list_what_the_package_requires(
    found: Seq<DepView>,
    searched: Seq<ReqView>,
    known: Map<Seq<char>, VersionInfoView>,
    k: int,
)
    requires
        0 <= k < resolved(found, searched, known).len(),
    ensures
        k < names_resolved(found, searched).len(),
        pick(found, searched, names_resolved(found, searched)[k]) matches Some(d) && {
            &&& found.contains(d)
            &&& d.0 == names_resolved(found, searched)[k]
            &&& resolved(found, searched, known)[k].0 == (if known.dom().contains(d.0) {
                known[d.0].0
            } else {
                d.0
            })
            &&& resolved(found, searched, known)[k].1 == d.1
            &&& resolved(found, searched, known)[k].2 == subdeps(d.2, found, searched)
            &&& forall|name: Seq<char>|
                (#[trigger] resolved(found, searched, known)[k].2.filter(listed(name))).len() == (
                if names_resolved(found, searched).contains(name) {
                    d.2.filter(requiring(name)).len()
                } else {
                    0
                })
            &&& forall|i: int|
                0 <= i < resolved(found, searched, known)[k].2.len() ==> has_row(
                    found,
                    searched,
                    known,
                    #[trigger] resolved(found, searched, known)[k].2[i],
                )
        },
{
    lemma_row_version(found, searched, known, k);
    each_name_is_resolved_once_or_left_out(found, searched, known);
    let name = names_resolved(found, searched)[k];
    let d = pick(found, searched, name)->0;
    greatest_version_that_meets_all_is_picked(found, searched, name);
    subdeps_are_required_and_resolved(d.2, found, searched, known);
    assert(resolved(found, searched, known)[k].2 == subdeps(d.2, found, searched));
}

/// The dependencies of a row stand in the order of the requirements of its
/// package: one more requirement at the end puts its name and the version of
/// that name's row at the end, if there is such a row, and adds nothing
/// otherwise.
pub proof fn dependencies_follow_the_requirements(
    reqs: Seq<ReqView>,
    r: ReqView,
    found: Seq<DepView>,
    searched: Seq<ReqView>,
)
    ensures
        subdeps(seq![], found, searched).len() == 0,
        subdeps(reqs.push(r), found, searched) == (match pick(found, searched, r.name) {
            Some(d) => subdeps(reqs, found, searched).push((r.name, d.1)),
            None => subdeps(reqs, found, searched),
        }),
{
    reveal(Seq::filter);
    let f = subdep(found, searched);
    let few = reqs.filter(on_picked(found, searched));
    assert(reqs.push(r).drop_last() =~= reqs);
    if pick(found, searched, r.name) is Some {
        assert(few.push(r).map_values(f) =~= few.map_values(f).push(f(r)));
    }
}

/// Names stand in the order in which they were first found: a package found
/// later adds its name at the end, unless the name is there.
pub proof fn names_keep_the_order_in_which_they_were_found(found: Seq<DepView>, d: DepView)
    ensures
        names_found(seq![]).len() == 0,
        names_found(found.push(d)) == (if names_found(found).contains(d.0) {
            names_found(found)
        } else {
            names_found(found).push(d.0)
        }),
{
    assert(found.push(d).drop_last() =~= found);
}

/// If nothing is left out, the rows stand for all names found, in that order.
pub proof fn rows_keep_the_order_in_which_names_were_found(
    found: Seq<DepView>,
    searched: Seq<ReqView>,
)
    requires
        names_left_out(found, searched).len() == 0,
    ensures
        names_resolved(found, searched) == names_found(found),
{
    lemma_all_resolved(names_found(found), found, searched);
}

proof fn lemma_all_resolved(names: Seq<Seq<char>>, found: Seq<DepView>, searched: Seq<ReqView>)
    requires
        names.filter(has_no_pick(found, searched)).len() == 0,
    ensures
        names.filter(has_pick(found, searched)) == names,
    decreases names.len(),
{
    reveal(Seq::filter);
    if names.len() > 0 {
        lemma_all_resolved(names.drop_last(), found, searched);
        assert(has_no_pick(found, searched)(names.last()) == !has_pick(found, searched)(
            names.last(),
        ));
    }
    assert(names.filter(has_pick(found, searched)) =~= names);
}

} // verus!
