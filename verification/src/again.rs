//! A resolution made again, with what came out of it as the lock file.

use crate::choice::{choice, newest_package_is_taken, DepView};
use crate::constraint::{all_admit, Constraint, ReqType};
use crate::follow::{
    complete_search_follows_every_requirement, goes_on, lemma_visit_follows, stands,
};
use crate::graph::{
    all_lock_data, data_reqs, lemma_data_reqs, settles, start, unsearched, within,
};
use crate::guess::{
    complete, fetch, guess_graph, leads, lemma_guess_ends, nothing,
    search_finds_what_guess_graph_finds, search_that_is_told_nothing_needs_nothing, silent, visit,
    Outcome, Service, Work,
};
use crate::installed::{lemma_requirement_is_found, resolved_versions_meet_every_requirement};
use crate::lock::{
    distinct_names, exact_reqs, first_lock, held, held_data, is_locked, lemma_first_lock_at,
    lemma_held_under_own_name, lock_data, lock_data_reads_back, lock_reqs,
    locked_package_is_taken, unheld,
};
use crate::origin::{comes_from, every_package_found_was_taken, taken, Origin};
use crate::pydeps::{lemma_names_are_readable, ReqCacheView, VersionInfoView};
use crate::req::{is_name, ReqView};
use crate::resolve::{
    each_name_is_resolved_once_or_left_out, greatest_version_that_meets_all_is_picked,
    lemma_row_place, meets_all, names_are_found_once, names_found, names_left_out,
    names_resolved, on_picked, pick, resolved, row, subdep, subdeps,
};
use crate::select::{
    considered, platform_unclear, select, selected_requirements_stand, unclear, wanted,
};
use crate::settings::{LockPackView, SettingsView};
use crate::text::lowercase;
use crate::version::Version;
use vstd::prelude::*;

verus! {

/// Whether the packages of a lock file depend on names that can be read.
pub open spec fn readable_names(locked: Seq<LockPackView>) -> bool {
    forall|i: int, j: int|
        0 <= i < locked.len() && 0 <= j < locked[i].2.len() ==> is_name(
            (#[trigger] locked[i].2[j]).0,
        )
}

/// Whether the lock file answers all of the requirements.
pub open spec fn all_locked(c: SettingsView, reqs: Seq<ReqView>) -> bool {
    forall|i: int| 0 <= i < reqs.len() ==> is_locked(c, #[trigger] reqs[i])
}

/// Whether two resolutions are made alike but for the lock file.
spec fn alike(c: SettingsView, d: SettingsView) -> bool {
    c.os == d.os && c.extras == d.extras && c.py_vers == d.py_vers
}

/// Whether two lock files answer a requirement alike.
spec fn held_alike(c: SettingsView, d: SettingsView, r: ReqView) -> bool {
    is_locked(c, r) && is_locked(d, r) && first_lock(c.locked, r) == first_lock(d.locked, r)
}

/// Whether two lock files answer all of the requirements alike.
spec fn all_held_alike(c: SettingsView, d: SettingsView, reqs: Seq<ReqView>) -> bool {
    forall|i: int| 0 <= i < reqs.len() ==> held_alike(c, d, #[trigger] reqs[i])
}

proof fn lemma_all_held(c: SettingsView, list: Seq<ReqView>)
    requires
        all_locked(c, list),
    ensures
        held(c, list) == list,
        unheld(c, list).len() == 0,
    decreases list.len(),
{
    reveal(Seq::filter);
    if list.len() > 0 {
        let front = list.drop_last();
        assert(forall|i: int| 0 <= i < front.len() ==> #[trigger] front[i] == list[i]);
        lemma_all_held(c, front);
        assert(list.last() == list[list.len() - 1]);
        assert(held(c, list) =~= list);
    } else {
        assert(held(c, list) =~= list);
    }
}

proof fn lemma_data_alike(c: SettingsView, d: SettingsView, list: Seq<ReqView>)
    requires
        all_held_alike(c, d, list),
    ensures
        unheld(c, list).len() == 0,
        unheld(d, list).len() == 0,
        held_data(c, list) == held_data(d, list),
{
    assert(all_locked(c, list));
    assert(all_locked(d, list)) by {
        assert forall|i: int| 0 <= i < list.len() implies is_locked(d, #[trigger] list[i]) by {
            assert(held_alike(c, d, list[i]));
        }
    }
    lemma_all_held(c, list);
    lemma_all_held(d, list);
    assert forall|i: int| 0 <= i < list.len() implies #[trigger] held_data(c, list)[i] == held_data(
        d,
        list,
    )[i] by {
        assert(held_alike(c, d, list[i]));
    }
    assert(held_data(c, list) =~= held_data(d, list));
}

/// Where the lock files answer alike all requirements that are searched for,
/// the search comes to the same, whatever the services say, and learns nothing
/// of versions.
proof fn lemma_guess_alike(
    c: SettingsView,
    d: SettingsView,
    s: Service,
    t: Service,
    reqs: Seq<ReqView>,
    w: Work,
    depth: nat,
    all: Seq<ReqView>,
)
    requires
        alike(c, d),
        all_held_alike(c, d, all),
        guess_graph(c, s, reqs, w, depth) matches Outcome::Found(end) && forall|r: ReqView|
            #[trigger] end.searched.contains(r) ==> all.contains(r),
    ensures
        guess_graph(d, t, reqs, w, depth) == guess_graph(c, s, reqs, w, depth),
        (guess_graph(c, s, reqs, w, depth)->Found_0).vers == w.vers,
    decreases depth, 0nat,
{
    let end = guess_graph(c, s, reqs, w, depth)->Found_0;
    let list = select(c, w.searched, reqs);
    assert(wanted(c, w.searched) =~= wanted(d, w.searched));
    assert(select(d, w.searched, reqs) == list);
    assert(unclear(c, w.searched, reqs) == unclear(d, w.searched, reqs));
    let (known, answer) = fetch(s, unheld(c, list), w.vers)->Ok_0;
    let next = Work { vers: known, searched: w.searched + list, ..w };
    let data = answer + held_data(c, list);
    lemma_visit_follows(c, s, list, data, next, (depth - 1) as nat);
    assert forall|i: int| 0 <= i < list.len() implies held_alike(c, d, #[trigger] list[i]) by {
        assert(next.searched[w.searched.len() + i] == list[i]);
        assert(next.searched.contains(list[i]));
        assert(end.searched.contains(list[i]));
        let k = all.index_of(list[i]);
        assert(all[k] == list[i]);
    }
    lemma_data_alike(c, d, list);
    assert(answer.len() == 0 && known == w.vers);
    assert(fetch(t, unheld(d, list), w.vers)->Ok_0 == (w.vers, answer)) by {
        assert(answer =~= seq![]);
    }
    lemma_visit_alike(c, d, s, t, list, data, next, (depth - 1) as nat, all);
}

proof fn lemma_visit_alike(
    c: SettingsView,
    d: SettingsView,
    s: Service,
    t: Service,
    todo: Seq<ReqView>,
    data: Seq<ReqCacheView>,
    w: Work,
    depth: nat,
    all: Seq<ReqView>,
)
    requires
        alike(c, d),
        all_held_alike(c, d, all),
        visit(c, s, todo, data, w, depth) matches Outcome::Found(end) && forall|r: ReqView|
            #[trigger] end.searched.contains(r) ==> all.contains(r),
    ensures
        visit(d, t, todo, data, w, depth) == visit(c, s, todo, data, w, depth),
        (visit(c, s, todo, data, w, depth)->Found_0).vers == w.vers,
    decreases depth, todo.len(),
{
    if todo.len() > 0 {
        let end = visit(c, s, todo, data, w, depth)->Found_0;
        let dep = choice(data, todo[0])->Ok_0;
        let first = Work { result: w.result.push(dep), ..w };
        let next = guess_graph(c, s, dep.2, first, depth)->Found_0;
        lemma_visit_follows(c, s, todo.skip(1), data, next, depth);
        assert(goes_on(c, next, end));
        assert forall|r: ReqView| #[trigger] next.searched.contains(r) implies all.contains(r) by {
            assert(end.searched.contains(r));
        }
        lemma_guess_alike(c, d, s, t, dep.2, first, depth, all);
        lemma_visit_alike(c, d, s, t, todo.skip(1), data, next, depth, all);
    }
}

/// Where the lock file answers all that is searched for, each package found is
/// one of the lock file.
proof fn lemma_found_is_locked(c: SettingsView, s: Service, w: Work, d: DepView) -> (k: int)
    requires
        taken(c, s, w, d),
        distinct_names(c.locked),
        all_locked(c, w.searched),
    ensures
        0 <= k < c.locked.len(),
        c.locked[k].0 == d.0,
        d == (c.locked[k].0, c.locked[k].1, lock_reqs(c.locked[k])),
{
    let o = choose|o: Origin| #[trigger] comes_from(c, s, w, d, o);
    assert forall|i: int| 0 <= i < o.list.len() implies is_locked(c, #[trigger] o.list[i]) by {
        assert(w.searched.contains(o.list[i]));
        let j = w.searched.index_of(o.list[i]);
        assert(w.searched[j] == o.list[i]);
    }
    lemma_all_held(c, o.list);
    let m = o.list.index_of(o.req);
    assert(o.list[m] == o.req);
    let k = lemma_held_under_own_name(c, o.req);
    locked_package_is_taken(c, o.answer, o.list, o.req, k);
    k
}

/// Under each name found the package of the lock file is picked.
proof fn lemma_pick_is_locked(
    c: SettingsView,
    s: Service,
    reqs: Seq<ReqView>,
    w: Work,
    name: Seq<char>,
) -> (k: int)
    requires
        leads(c, s, start(reqs), complete(w)),
        distinct_names(c.locked),
        all_locked(c, w.searched),
        names_found(w.result).contains(name),
    ensures
        0 <= k < c.locked.len(),
        c.locked[k].0 == name,
        pick(w.result, w.searched, name) == Some((name, c.locked[k].1, lock_reqs(c.locked[k]))),
        meets_all(w.searched, name, c.locked[k].1),
{
    names_are_found_once(w.result);
    every_package_found_was_taken(c, s, reqs, w);
    let i = choose|i: int| 0 <= i < w.result.len() && (#[trigger] w.result[i]).0 == name;
    let k = lemma_found_is_locked(c, s, w, w.result[i]);
    assert forall|j: int| 0 <= j < w.searched.len() && (#[trigger] w.searched[j]).name
        == name implies all_admit(w.searched[j].constraints, c.locked[k].1) by {
        let m = lemma_held_under_own_name(c, w.searched[j]);
        assert(lowercase(c.locked[m].0) == lowercase(c.locked[k].0));
    }
    greatest_version_that_meets_all_is_picked(w.result, w.searched, name);
    let d = pick(w.result, w.searched, name)->0;
    assert(w.result[w.result.index_of(d)] == d);
    let m = lemma_found_is_locked(c, s, w, d);
    assert(lowercase(c.locked[m].0) == lowercase(c.locked[k].0));
    k
}

proof fn lemma_filter_all(reqs: Seq<ReqView>, p: spec_fn(ReqView) -> bool)
    requires
        forall|i: int| 0 <= i < reqs.len() ==> p(#[trigger] reqs[i]),
    ensures
        reqs.filter(p) == reqs,
    decreases reqs.len(),
{
    reveal(Seq::filter);
    if reqs.len() > 0 {
        let front = reqs.drop_last();
        assert(forall|i: int| 0 <= i < front.len() ==> #[trigger] front[i] == reqs[i]);
        lemma_filter_all(front, p);
        assert(p(reqs[reqs.len() - 1]));
    }
    assert(reqs.filter(p) =~= reqs);
}

/// The row for each name found is the package of the lock file.
proof fn lemma_row_is_locked(
    c: SettingsView,
    s: Service,
    reqs: Seq<ReqView>,
    w: Work,
    name: Seq<char>,
) -> (k: int)
    requires
        leads(c, s, start(reqs), complete(w)),
        distinct_names(c.locked),
        readable_names(c.locked),
        all_locked(c, w.searched),
        w.vers == Map::<Seq<char>, VersionInfoView>::empty(),
        names_found(w.result).contains(name),
    ensures
        0 <= k < c.locked.len(),
        c.locked[k].0 == name,
        pick(w.result, w.searched, name) is Some,
        row(w.result, w.searched, w.vers)(name) == c.locked[k],
{
    let k = lemma_pick_is_locked(c, s, reqs, w, name);
    let d = pick(w.result, w.searched, name)->0;
    let deps = c.locked[k].2;
    assert forall|i: int| 0 <= i < deps.len() implies is_name((#[trigger] deps[i]).0) by {
        assert(is_name(c.locked[k].2[i].0));
    }
    lock_data_reads_back(c.locked[k]);
    let p = on_picked(w.result, w.searched);
    let f = subdep(w.result, w.searched);
    greatest_version_that_meets_all_is_picked(w.result, w.searched, name);
    complete_search_follows_every_requirement(c, s, reqs, w);
    let m = w.result.index_of(d);
    assert(w.result[m] == d);
    assert forall|i: int| 0 <= i < d.2.len() implies p(#[trigger] d.2[i]) && f(d.2[i])
        == deps[i] by {
        let q = d.2[i];
        let exact = Constraint { type_: ReqType::Exact, version: deps[i].1 };
        assert(stands(c, w.result[m].2[i]));
        assert(w.searched.contains(q));
        lemma_requirement_is_found(c, s, reqs, w, q);
        let n = lemma_pick_is_locked(c, s, reqs, w, q.name);
        let j = w.searched.index_of(q);
        assert(w.searched[j].name == q.name);
        assert(q.constraints[0] == exact);
        assert(exact.admits(c.locked[n].1));
    }
    lemma_filter_all(d.2, p);
    assert(subdeps(d.2, w.result, w.searched) =~= deps);
    k
}

/// Where the lock file answers all that is searched for, nothing is learnt of
/// versions.
proof fn lemma_nothing_is_learnt(c: SettingsView, s: Service, reqs: Seq<ReqView>, w: Work)
    requires
        leads(c, s, start(reqs), complete(w)),
        all_locked(c, w.searched),
    ensures
        w.vers == Map::<Seq<char>, VersionInfoView>::empty(),
{
    search_finds_what_guess_graph_finds(c, s, reqs, w);
    let depth = choose|depth: nat| #[trigger]
        guess_graph(c, s, reqs, nothing(), depth) == Outcome::Found(w);
    assert forall|i: int| 0 <= i < w.searched.len() implies held_alike(
        c,
        c,
        #[trigger] w.searched[i],
    ) by {
        assert(is_locked(c, w.searched[i]));
    }
    lemma_guess_alike(c, c, s, s, reqs, nothing(), depth, w.searched);
}

/// If the lock file answers every requirement that is searched for, then with
/// what is to be installed as the lock file the very same search is made again,
/// with nothing to be told. No two packages of the lock file have the same
/// name, and the names that they depend on can be read.
pub proof fn same_search_is_made_again(
    c: SettingsView,
    s: Service,
    reqs: Seq<ReqView>,
    w: Work,
)
    requires
        leads(c, s, start(reqs), complete(w)),
        all_locked(c, w.searched),
        distinct_names(c.locked),
        readable_names(c.locked),
    ensures
        w.vers == Map::<Seq<char>, VersionInfoView>::empty(),
        names_left_out(w.result, w.searched).len() == 0,
        settles(
            (SettingsView { locked: resolved(w.result, w.searched, w.vers), ..c }),
            start(reqs),
            complete(w),
        ),
{
    let out = resolved(w.result, w.searched, w.vers);
    let names = names_resolved(w.result, w.searched);
    let d = SettingsView { locked: out, ..c };
    search_finds_what_guess_graph_finds(c, s, reqs, w);
    let depth = choose|depth: nat| #[trigger]
        guess_graph(c, s, reqs, nothing(), depth) == Outcome::Found(w);
    lemma_nothing_is_learnt(c, s, reqs, w);
    each_name_is_resolved_once_or_left_out(w.result, w.searched, w.vers);
    // Each row is a package of the lock file, under its own name.
    assert forall|j: int| 0 <= j < out.len() implies exists|k: int|
        0 <= k < c.locked.len() && (#[trigger] c.locked[k]) == (#[trigger] out[j]) && out[j].0
            == names[j] by {
        assert(names.contains(names[j]));
        greatest_version_that_meets_all_is_picked(w.result, w.searched, names[j]);
        names_are_found_once(w.result);
        let p = pick(w.result, w.searched, names[j])->0;
        assert(w.result[w.result.index_of(p)].0 == names[j]);
        let k = lemma_row_is_locked(c, s, reqs, w, names[j]);
        assert(c.locked[k] == out[j]);
    }
    if names_left_out(w.result, w.searched).len() > 0 {
        let name = names_left_out(w.result, w.searched)[0];
        assert(names_left_out(w.result, w.searched).contains(name));
        let k = lemma_row_is_locked(c, s, reqs, w, name);
    }
    assert forall|i: int| 0 <= i < w.searched.len() implies held_alike(
        c,
        d,
        #[trigger] w.searched[i],
    ) by {
        let r = w.searched[i];
        assert(w.searched.contains(r));
        lemma_requirement_is_found(c, s, reqs, w, r);
        let m = lemma_held_under_own_name(c, r);
        let k = lemma_row_is_locked(c, s, reqs, w, r.name);
        assert(lowercase(c.locked[m].0) == lowercase(c.locked[k].0));
        let n = lemma_row_place(w.result, w.searched, w.vers, r.name);
        assert(out[n] == c.locked[m]);
        assert(is_locked(d, r)) by {
            assert(d.locked[n].0 == r.name);
        }
        assert forall|j: int| 0 <= j < n implies lowercase((#[trigger] out[j]).0) != lowercase(
            r.name,
        ) by {
            let kj = choose|k: int|
                0 <= k < c.locked.len() && (#[trigger] c.locked[k]) == out[j] && out[j].0
                    == names[j];
            if lowercase(out[j].0) == lowercase(r.name) {
                assert(lowercase(c.locked[kj].0) == lowercase(c.locked[m].0));
                assert(names[j] == names[n]);
            }
        }
        lemma_first_lock_at(out, r, n);
    }
    lemma_guess_alike(c, d, s, silent(), reqs, nothing(), depth, w.searched);
    search_finds_what_guess_graph_finds(d, silent(), reqs, w);
    search_that_is_told_nothing_needs_nothing(d, start(reqs), w);
}

/// Whether a lock file has a package of this name in this version.
pub open spec fn has_entry(locked: Seq<LockPackView>, d: (Seq<char>, Version)) -> bool {
    exists|k: int|
        0 <= k < locked.len() && (#[trigger] locked[k]).0 == d.0 && locked[k].1 == d.1
}

/// Whether a lock file has all that its packages depend on, no two packages of
/// the same name, and names that can be read.
spec fn closed_lock(locked: Seq<LockPackView>) -> bool {
    &&& distinct_names(locked)
    &&& readable_names(locked)
    &&& forall|i: int, j: int|
        0 <= i < locked.len() && 0 <= j < locked[i].2.len() ==> has_entry(
            locked,
            #[trigger] locked[i].2[j],
        )
}

/// Whether it can be told which of the requirements stand, and the lock file
/// answers all that do.
spec fn answers(c: SettingsView, reqs: Seq<ReqView>) -> bool {
    &&& !unclear(c, seq![], reqs)
    &&& forall|i: int|
        0 <= i < reqs.len() && stands(c, #[trigger] reqs[i]) ==> is_locked(c, reqs[i])
}

/// What a package of such a lock file requires is answered by the lock file.
proof fn lemma_answers_own(c: SettingsView, k: int)
    requires
        closed_lock(c.locked),
        0 <= k < c.locked.len(),
    ensures
        lock_reqs(c.locked[k]) == exact_reqs(c.locked[k].2),
        answers(c, lock_reqs(c.locked[k])),
{
    let deps = c.locked[k].2;
    let list = exact_reqs(deps);
    assert forall|i: int| 0 <= i < deps.len() implies is_name((#[trigger] deps[i]).0) by {
        assert(is_name(c.locked[k].2[i].0));
    }
    lock_data_reads_back(c.locked[k]);
    assert forall|i: int| 0 <= i < list.len() implies is_locked(c, #[trigger] list[i]) by {
        assert(has_entry(c.locked, c.locked[k].2[i]));
        let m = choose|m: int|
            0 <= m < c.locked.len() && (#[trigger] c.locked[m]).0 == deps[i].0 && c.locked[m].1
                == deps[i].1;
        assert(list[i].constraints[0].admits(c.locked[m].1));
        assert(all_admit(list[i].constraints, c.locked[m].1));
    }
    assert(forall|i: int| 0 <= i < list.len() ==> !platform_unclear(#[trigger] list[i]));
}

/// With such a lock file, a search from requirements that it answers does not
/// fail, and it answers all that is searched for.
proof fn lemma_guess_answered(
    c: SettingsView,
    s: Service,
    reqs: Seq<ReqView>,
    w: Work,
    depth: nat,
)
    requires
        closed_lock(c.locked),
        answers(c, reqs),
        all_locked(c, w.searched),
    ensures
        guess_graph(c, s, reqs, w, depth) !is Failed,
        guess_graph(c, s, reqs, w, depth) matches Outcome::Found(next) ==> all_locked(
            c,
            next.searched,
        ),
    decreases depth, 0nat,
{
    if depth > 0 {
        let list = select(c, w.searched, reqs);
        assert(!unclear(c, w.searched, reqs)) by {
            assert forall|i: int| 0 <= i < reqs.len() && considered(
                c,
                w.searched,
                #[trigger] reqs[i],
            ) implies !platform_unclear(reqs[i]) by {
                assert(considered(c, seq![], reqs[i]));
            }
        }
        assert forall|i: int| 0 <= i < list.len() implies is_locked(c, #[trigger] list[i]) by {
            assert(list.contains(list[i]));
            selected_requirements_stand(c, w.searched, reqs, list[i]);
            let k = reqs.index_of(list[i]);
            assert(stands(c, reqs[k]));
        }
        lemma_all_held(c, list);
        let next = Work { searched: w.searched + list, ..w };
        let data = Seq::<ReqCacheView>::empty() + held_data(c, list);
        assert forall|i: int| 0 <= i < next.searched.len() implies is_locked(
            c,
            #[trigger] next.searched[i],
        ) by {
            if i < w.searched.len() {
                assert(next.searched[i] == w.searched[i]);
            } else {
                assert(next.searched[i] == list[i - w.searched.len()]);
            }
        }
        lemma_visit_answered(c, s, list, list, next, (depth - 1) as nat);
        assert(guess_graph(c, s, reqs, w, depth) == visit(
            c,
            s,
            list,
            data,
            next,
            (depth - 1) as nat,
        ));
    }
}

proof fn lemma_visit_answered(
    c: SettingsView,
    s: Service,
    todo: Seq<ReqView>,
    list: Seq<ReqView>,
    w: Work,
    depth: nat,
)
    requires
        closed_lock(c.locked),
        all_locked(c, list),
        all_locked(c, w.searched),
        forall|i: int| 0 <= i < todo.len() ==> list.contains(#[trigger] todo[i]),
    ensures
        visit(c, s, todo, Seq::<ReqCacheView>::empty() + held_data(c, list), w, depth) !is Failed,
        visit(c, s, todo, Seq::<ReqCacheView>::empty() + held_data(c, list), w, depth) matches
            Outcome::Found(next) ==> all_locked(c, next.searched),
    decreases depth, todo.len(),
{
    if todo.len() > 0 {
        let none = Seq::<ReqCacheView>::empty();
        let data = none + held_data(c, list);
        let r = todo[0];
        assert(list[list.index_of(r)] == r);
        let k = lemma_held_under_own_name(c, r);
        locked_package_is_taken(c, none, list, r, k);
        lemma_answers_own(c, k);
        let dep = choice(data, r)->Ok_0;
        let first = Work { result: w.result.push(dep), ..w };
        lemma_guess_answered(c, s, dep.2, first, depth);
        if let Outcome::Found(next) = guess_graph(c, s, dep.2, first, depth) {
            lemma_visit_answered(c, s, todo.skip(1), list, next, depth);
        }
    }
}

/// With such a lock file, a search from requirements that it answers completes
/// though the service says nothing.
proof fn lemma_answered_search_completes(c: SettingsView, reqs: Seq<ReqView>) -> (w: Work)
    requires
        closed_lock(c.locked),
        answers(c, reqs),
    ensures
        leads(c, silent(), start(reqs), complete(w)),
        all_locked(c, w.searched),
{
    let all = data_reqs(all_lock_data(c)).union(reqs.to_set());
    lemma_data_reqs(all_lock_data(c));
    reqs.lemma_cardinality_of_set();
    assert(within(all_lock_data(c), all));
    assert forall|i: int| 0 <= i < reqs.len() implies all.contains(#[trigger] reqs[i]) by {
        assert(reqs.to_set().contains(reqs[i]));
    }
    let depth = unsearched(all, nothing().searched) + 1;
    lemma_guess_ends(c, silent(), reqs, nothing(), all, depth);
    lemma_guess_answered(c, silent(), reqs, nothing(), depth);
    let w = guess_graph(c, silent(), reqs, nothing(), depth)->Found_0;
    search_finds_what_guess_graph_finds(c, silent(), reqs, w);
    w
}

/// Whether a package found since the `from`th was required under its name: in
/// the list that the search went out from, or by a package found since then and
/// before it.
spec fn required_before(
    c: SettingsView,
    list: Seq<ReqView>,
    result: Seq<DepView>,
    from: int,
    i: int,
) -> bool {
    exists|r: ReqView| #[trigger]
        stands(c, r) && r.name == result[i].0 && (list.contains(r) || required_since(
            result,
            from,
            i,
            r,
        ))
}

spec fn required_since(result: Seq<DepView>, from: int, i: int, r: ReqView) -> bool {
    exists|j: int| from <= j < i && (#[trigger] result[j]).2.contains(r)
}

/// Whether nothing that was found is lost, and all that was found since was
/// required before.
spec fn all_required_before(
    c: SettingsView,
    list: Seq<ReqView>,
    before: Seq<DepView>,
    result: Seq<DepView>,
) -> bool {
    &&& before.len() <= result.len()
    &&& forall|i: int| 0 <= i < before.len() ==> #[trigger] result[i] == before[i]
    &&& forall|i: int|
        before.len() <= i < result.len() ==> #[trigger] required_before(
            c,
            list,
            result,
            before.len() as int,
            i,
        )
}

proof fn lemma_guess_required(
    c: SettingsView,
    s: Service,
    reqs: Seq<ReqView>,
    w: Work,
    depth: nat,
)
    ensures
        guess_graph(c, s, reqs, w, depth) matches Outcome::Found(end) ==> all_required_before(
            c,
            reqs,
            w.result,
            end.result,
        ),
    decreases depth, 0nat,
{
    if let Outcome::Found(end) = guess_graph(c, s, reqs, w, depth) {
        let list = select(c, w.searched, reqs);
        let (vers, answer) = fetch(s, unheld(c, list), w.vers)->Ok_0;
        let next = Work { vers, searched: w.searched + list, ..w };
        assert forall|i: int| 0 <= i < list.len() implies stands(c, #[trigger] list[i]) by {
            assert(list.contains(list[i]));
            selected_requirements_stand(c, w.searched, reqs, list[i]);
        }
        lemma_visit_required(
            c,
            s,
            list,
            answer + held_data(c, list),
            next,
            (depth - 1) as nat,
        );
        let from = w.result.len() as int;
        assert forall|i: int| from <= i < end.result.len() implies #[trigger] required_before(
            c,
            reqs,
            end.result,
            from,
            i,
        ) by {
            assert(required_before(c, list, end.result, from, i));
            let r = choose|r: ReqView| #[trigger]
                stands(c, r) && r.name == end.result[i].0 && (list.contains(r) || required_since(
                    end.result,
                    from,
                    i,
                    r,
                ));
            selected_requirements_stand(c, w.searched, reqs, r);
            assert(stands(c, r));
        }
    }
}

proof fn lemma_visit_required(
    c: SettingsView,
    s: Service,
    todo: Seq<ReqView>,
    data: Seq<ReqCacheView>,
    w: Work,
    depth: nat,
)
    requires
        forall|i: int| 0 <= i < todo.len() ==> stands(c, #[trigger] todo[i]),
    ensures
        visit(c, s, todo, data, w, depth) matches Outcome::Found(end) ==> all_required_before(
            c,
            todo,
            w.result,
            end.result,
        ),
    decreases depth, todo.len(),
{
    if todo.len() > 0 {
        if let Outcome::Found(end) = visit(c, s, todo, data, w, depth) {
            let from = w.result.len() as int;
            let dep = choice(data, todo[0])->Ok_0;
            let first = Work { result: w.result.push(dep), ..w };
            let next = guess_graph(c, s, dep.2, first, depth)->Found_0;
            lemma_guess_required(c, s, dep.2, first, depth);
            lemma_visit_required(c, s, todo.skip(1), data, next, depth);
            assert(next.result[from] == first.result[from]);
            assert(end.result[from] == dep);
            assert forall|i: int| 0 <= i < w.result.len() implies #[trigger] end.result[i]
                == w.result[i] by {
                assert(next.result[i] == first.result[i]);
            }
            newest_package_is_taken(data, todo[0]);
            assert forall|i: int| from <= i < end.result.len() implies #[trigger] required_before(
                c,
                todo,
                end.result,
                from,
                i,
            ) by {
                if i == from {
                    assert(stands(c, todo[0]));
                    assert(todo.contains(todo[0]));
                } else if i < next.result.len() {
                    assert(required_before(c, dep.2, next.result, from + 1, i));
                    let r = choose|r: ReqView| #[trigger]
                        stands(c, r) && r.name == next.result[i].0 && (dep.2.contains(r)
                            || required_since(next.result, from + 1, i, r));
                    assert(end.result[i] == next.result[i]);
                    assert(required_since(end.result, from, i, r)) by {
                        if dep.2.contains(r) {
                            assert(end.result[from].2.contains(r));
                        } else {
                            let j = choose|j: int|
                                from + 1 <= j < i && (#[trigger] next.result[j]).2.contains(r);
                            assert(end.result[j] == next.result[j]);
                        }
                    }
                    assert(stands(c, r));
                } else {
                    let start = next.result.len() as int;
                    let rest = todo.skip(1);
                    assert(required_before(c, rest, end.result, start, i));
                    let r = choose|r: ReqView| #[trigger]
                        stands(c, r) && r.name == end.result[i].0 && (rest.contains(r)
                            || required_since(end.result, start, i, r));
                    if rest.contains(r) {
                        assert(todo[rest.index_of(r) + 1] == r);
                    } else {
                        let j = choose|j: int|
                            start <= j < i && (#[trigger] end.result[j]).2.contains(r);
                        assert(end.result[j].2.contains(r));
                        assert(required_since(end.result, from, i, r));
                    }
                    assert(stands(c, r));
                }
            }
        }
    }
}

/// What is to be installed is a lock file that has all that its packages depend
/// on, each row under the name of the package, if the lock file answered all
/// that was searched for.
proof fn lemma_rows_are_closed(c: SettingsView, s: Service, reqs: Seq<ReqView>, w: Work)
    requires
        leads(c, s, start(reqs), complete(w)),
        all_locked(c, w.searched),
        distinct_names(c.locked),
        w.vers == Map::<Seq<char>, VersionInfoView>::empty(),
    ensures
        closed_lock(resolved(w.result, w.searched, w.vers)),
        forall|j: int|
            0 <= j < resolved(w.result, w.searched, w.vers).len() ==> (#[trigger] resolved(
                w.result,
                w.searched,
                w.vers,
            )[j]).0 == names_resolved(w.result, w.searched)[j],
        forall|name: Seq<char>| #[trigger]
            names_found(w.result).contains(name) ==> pick(w.result, w.searched, name) is Some,
{
    let out = resolved(w.result, w.searched, w.vers);
    let names = names_resolved(w.result, w.searched);
    let p = on_picked(w.result, w.searched);
    each_name_is_resolved_once_or_left_out(w.result, w.searched, w.vers);
    assert forall|name: Seq<char>| #[trigger] names_found(w.result).contains(name) implies pick(
        w.result,
        w.searched,
        name,
    ) is Some by {
        let k = lemma_pick_is_locked(c, s, reqs, w, name);
    }
    assert forall|j: int| 0 <= j < out.len() implies names_found(w.result).contains(
        #[trigger] names[j],
    ) by {
        assert(names.contains(names[j]));
        lemma_picked_is_found(w, names[j]);
    }
    assert forall|i: int, j: int|
        0 <= i < out.len() && 0 <= j < out.len() && lowercase((#[trigger] out[i]).0) == lowercase(
            (#[trigger] out[j]).0,
        ) implies i == j by {
        assert(out[i].0 == names[i] && out[j].0 == names[j]);
        let a = lemma_pick_is_locked(c, s, reqs, w, names[i]);
        let b = lemma_pick_is_locked(c, s, reqs, w, names[j]);
        assert(lowercase(c.locked[a].0) == lowercase(c.locked[b].0));
    }
    assert forall|i: int, j: int| 0 <= i < out.len() && 0 <= j < out[i].2.len() implies is_name(
        (#[trigger] out[i].2[j]).0,
    ) && has_entry(out, out[i].2[j]) by {
        let k = lemma_pick_is_locked(c, s, reqs, w, names[i]);
        let list = lock_reqs(c.locked[k]);
        let few = list.filter(p);
        let r = few[j];
        assert(out[i].2 == subdeps(list, w.result, w.searched));
        assert(out[i].2[j] == subdep(w.result, w.searched)(r));
        list.lemma_filter_pred(p, j);
        assert(few.contains(r));
        list.lemma_filter_contains_rev(p, r);
        lemma_names_are_readable(lock_data(c.locked[k]).requires_dist, r);
        let n = lemma_row_place(w.result, w.searched, w.vers, r.name);
        assert(out[n].0 == out[i].2[j].0);
    }
}

/// A package that is to be installed was found.
proof fn lemma_picked_is_found(w: Work, name: Seq<char>)
    requires
        pick(w.result, w.searched, name) is Some,
    ensures
        names_found(w.result).contains(name),
{
    greatest_version_that_meets_all_is_picked(w.result, w.searched, name);
    names_are_found_once(w.result);
    let d = pick(w.result, w.searched, name)->0;
    assert(w.result[w.result.index_of(d)].0 == name);
}

/// Whatever is found with the first lock file is found with what came out of it
/// as the lock file.
proof fn lemma_found_again(
    c: SettingsView,
    s: Service,
    d: SettingsView,
    reqs: Seq<ReqView>,
    w: Work,
    again: Work,
    i: int,
)
    requires
        leads(c, s, start(reqs), complete(w)),
        all_locked(c, w.searched),
        distinct_names(c.locked),
        w.vers == Map::<Seq<char>, VersionInfoView>::empty(),
        alike(c, d),
        d.locked == resolved(w.result, w.searched, w.vers),
        leads(d, silent(), start(reqs), complete(again)),
        all_locked(d, again.searched),
        all_required_before(c, reqs, seq![], w.result),
        0 <= i < w.result.len(),
    ensures
        names_found(again.result).contains(w.result[i].0),
    decreases i,
{
    let name = w.result[i].0;
    assert(required_before(c, reqs, w.result, 0, i));
    let r = choose|r: ReqView| #[trigger]
        stands(c, r) && r.name == name && (reqs.contains(r) || required_since(
            w.result,
            0,
            i,
            r,
        ));
    complete_search_follows_every_requirement(d, silent(), reqs, again);
    if reqs.contains(r) {
        assert(stands(d, reqs[reqs.index_of(r)]));
        lemma_requirement_is_found(d, silent(), reqs, again, r);
    } else {
        let j = choose|j: int| 0 <= j < i && (#[trigger] w.result[j]).2.contains(r);
        let parent = w.result[j].0;
        lemma_found_again(c, s, d, reqs, w, again, j);
        names_are_found_once(w.result);
        every_package_found_was_taken(c, s, reqs, w);
        lemma_rows_are_closed(c, s, reqs, w);
        // The row of the parent lists the package.
        let k = lemma_pick_is_locked(c, s, reqs, w, parent);
        let a = lemma_found_is_locked(c, s, w, w.result[j]);
        assert(lowercase(c.locked[a].0) == lowercase(c.locked[k].0));
        let list = lock_reqs(c.locked[k]);
        let p = on_picked(w.result, w.searched);
        let f = subdep(w.result, w.searched);
        assert(w.result[i].0 == name);
        assert(names_found(w.result).contains(name));
        assert(p(r));
        list.lemma_filter_contains(p, list.index_of(r));
        let m = list.filter(p).index_of(r);
        let n = lemma_row_place(w.result, w.searched, w.vers, parent);
        let deps = d.locked[n].2;
        assert(deps[m] == f(r));
        // So the package found again under the name of the parent requires it.
        let b = lemma_pick_is_locked(d, silent(), reqs, again, parent);
        assert(d.locked[n].0 == parent);
        assert(lowercase(d.locked[n].0) == lowercase(d.locked[b].0));
        lemma_answers_own(d, b);
        greatest_version_that_meets_all_is_picked(again.result, again.searched, parent);
        let found = pick(again.result, again.searched, parent)->0;
        let x = again.result.index_of(found);
        assert(again.result[x] == found);
        let e = found.2[m];
        assert(e == exact_reqs(deps)[m]);
        assert(stands(d, again.result[x].2[m]));
        lemma_requirement_is_found(d, silent(), reqs, again, e);
    }
}

/// If the lock file answers every requirement that is searched for, nothing is
/// asked for, no package is left out, and what is to be installed reproduces
/// itself: with it as the lock file the search completes by itself, with
/// nothing to be told, and the same packages are to be installed. No two
/// packages of the lock file have the same name.
pub proof fn what_is_installed_reproduces_itself(
    c: SettingsView,
    s: Service,
    reqs: Seq<ReqView>,
    w: Work,
) -> (again: Work)
    requires
        leads(c, s, start(reqs), complete(w)),
        all_locked(c, w.searched),
        distinct_names(c.locked),
    ensures
        w.vers == Map::<Seq<char>, VersionInfoView>::empty(),
        names_left_out(w.result, w.searched).len() == 0,
        settles(
            (SettingsView { locked: resolved(w.result, w.searched, w.vers), ..c }),
            start(reqs),
            complete(again),
        ),
        resolved(again.result, again.searched, again.vers).to_multiset() == resolved(
            w.result,
            w.searched,
            w.vers,
        ).to_multiset(),
{
    let out = resolved(w.result, w.searched, w.vers);
    let names = names_resolved(w.result, w.searched);
    let d = SettingsView { locked: out, ..c };
    lemma_nothing_is_learnt(c, s, reqs, w);
    lemma_rows_are_closed(c, s, reqs, w);
    each_name_is_resolved_once_or_left_out(w.result, w.searched, w.vers);
    if names_left_out(w.result, w.searched).len() > 0 {
        let name = names_left_out(w.result, w.searched)[0];
        assert(names_left_out(w.result, w.searched).contains(name));
    }
    lemma_first_list_is_answered(c, s, d, reqs, w);
    let again = lemma_answered_search_completes(d, reqs);
    search_that_is_told_nothing_needs_nothing(d, start(reqs), again);
    lemma_nothing_is_learnt(d, silent(), reqs, again);
    search_finds_what_guess_graph_finds(c, s, reqs, w);
    let depth = choose|depth: nat| #[trigger]
        guess_graph(c, s, reqs, nothing(), depth) == Outcome::Found(w);
    lemma_guess_required(c, s, reqs, nothing(), depth);
    let rows = resolved(again.result, again.searched, again.vers);
    let more = names_resolved(again.result, again.searched);
    each_name_is_resolved_once_or_left_out(again.result, again.searched, again.vers);
    // Each row made again is a row.
    assert forall|j: int| 0 <= j < rows.len() implies rows[j].0 == more[j] && out.contains(
        #[trigger] rows[j],
    ) by {
        assert(more.contains(more[j]));
        lemma_picked_is_found(again, more[j]);
        let k = lemma_row_is_locked(d, silent(), reqs, again, more[j]);
        assert(rows[j] == out[k]);
    }
    // Each row is made again.
    assert forall|j: int| 0 <= j < out.len() implies rows.contains(#[trigger] out[j]) by {
        let name = names[j];
        assert(names.contains(name));
        lemma_picked_is_found(w, name);
        names_are_found_once(w.result);
        let i = choose|i: int| 0 <= i < w.result.len() && (#[trigger] w.result[i]).0 == name;
        lemma_found_again(c, s, d, reqs, w, again, i);
        let k = lemma_row_is_locked(d, silent(), reqs, again, name);
        assert(lowercase(out[k].0) == lowercase(out[j].0));
        let n = lemma_row_place(again.result, again.searched, again.vers, name);
        assert(rows[n] == out[j]);
    }
    assert(out.no_duplicates()) by {
        assert forall|i: int, j: int| 0 <= i < out.len() && 0 <= j < out.len() && i
            != j implies out[i] != out[j] by {
            assert(out[i].0 == names[i] && out[j].0 == names[j]);
        }
    }
    assert(rows.no_duplicates()) by {
        assert forall|i: int, j: int| 0 <= i < rows.len() && 0 <= j < rows.len() && i
            != j implies rows[i] != rows[j] by {
            assert(rows[i].0 == more[i] && rows[j].0 == more[j]);
        }
    }
    lemma_same_rows(rows, out);
    again
}

/// What came out of a search as the lock file answers the requirements that the
/// search went out from.
proof fn lemma_first_list_is_answered(
    c: SettingsView,
    s: Service,
    d: SettingsView,
    reqs: Seq<ReqView>,
    w: Work,
)
    requires
        leads(c, s, start(reqs), complete(w)),
        all_locked(c, w.searched),
        distinct_names(c.locked),
        w.vers == Map::<Seq<char>, VersionInfoView>::empty(),
        alike(c, d),
        d.locked == resolved(w.result, w.searched, w.vers),
    ensures
        answers(d, reqs),
{
    search_finds_what_guess_graph_finds(c, s, reqs, w);
    let depth = choose|depth: nat| #[trigger]
        guess_graph(c, s, reqs, nothing(), depth) == Outcome::Found(w);
    assert(!unclear(c, seq![], reqs));
    assert(!unclear(d, seq![], reqs)) by {
        assert forall|i: int| 0 <= i < reqs.len() && considered(
            d,
            seq![],
            #[trigger] reqs[i],
        ) implies !platform_unclear(reqs[i]) by {
            assert(considered(c, seq![], reqs[i]));
        }
    }
    complete_search_follows_every_requirement(c, s, reqs, w);
    lemma_rows_are_closed(c, s, reqs, w);
    assert forall|i: int| 0 <= i < reqs.len() && stands(d, #[trigger] reqs[i]) implies is_locked(
        d,
        reqs[i],
    ) by {
        let r = reqs[i];
        assert(stands(c, r));
        assert(w.searched.contains(r));
        lemma_requirement_is_found(c, s, reqs, w, r);
        let k = lemma_row_place(w.result, w.searched, w.vers, r.name);
        resolved_versions_meet_every_requirement(c, s, reqs, w, r, k);
        assert(d.locked[k].0 == r.name);
    }
}

/// Two lists without repetition that hold the same are the same but for order.
proof fn lemma_same_rows(a: Seq<LockPackView>, b: Seq<LockPackView>)
    requires
        a.no_duplicates(),
        b.no_duplicates(),
        forall|i: int| 0 <= i < a.len() ==> b.contains(#[trigger] a[i]),
        forall|i: int| 0 <= i < b.len() ==> a.contains(#[trigger] b[i]),
    ensures
        a.to_multiset() == b.to_multiset(),
{
    broadcast use vstd::multiset::group_multiset_axioms;
    broadcast use vstd::seq_lib::group_to_multiset_ensures;

    a.lemma_multiset_has_no_duplicates();
    b.lemma_multiset_has_no_duplicates();
    assert forall|x: LockPackView| a.to_multiset().count(x) == b.to_multiset().count(x) by {
        if a.contains(x) {
            assert(b.contains(a[a.index_of(x)]));
            assert(a.to_multiset().contains(x) && b.to_multiset().contains(x));
        }
        if b.contains(x) {
            assert(a.contains(b[b.index_of(x)]));
            assert(a.to_multiset().contains(x) && b.to_multiset().contains(x));
        }
    }
    assert(a.to_multiset() =~= b.to_multiset());
}

} // verus!
