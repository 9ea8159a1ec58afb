//! What a search guarantees: it follows every requirement, it finds a package
//! for each, and it takes the newest version that meets the constraints.

use crate::choice::{choice, newest_package_is_taken, no_package_is_taken_without_data, DepView};
use crate::constraint::all_admit;
use crate::graph::start;
use crate::guess::{
    complete, fetch, guess_graph, leads, nothing, search_finds_what_guess_graph_finds, visit,
    Outcome, Service, Work,
};
use crate::lock::{by_lock, held, held_data, lemma_lock_place, lemma_locked_found, unheld};
use crate::pydeps::{
    best_version, newest_compatible_version_is_asked_for, question,
    question_is_about_the_packages_required, ReqCacheView, VersionInfoView,
};
use crate::req::ReqView;
use crate::select::{platform_fits, python_fits, select, selected_requirements_stand};
use crate::settings::SettingsView;
use crate::version::{parse_version, Version};
use vstd::multiset::Multiset;
use vstd::prelude::*;
use vstd::seq_lib::group_to_multiset_ensures;

verus! {

/// Whether a requirement stands: with its extra, on the operating system, and
/// with the version of Python.
pub open spec fn stands(c: SettingsView, r: ReqView) -> bool {
    (r.extra matches Some(e) ==> c.extras.contains(e)) && platform_fits(c, r) && python_fits(c, r)
}

/// Whether of some requirements all that stand were searched for.
pub open spec fn followed(c: SettingsView, searched: Seq<ReqView>, reqs: Seq<ReqView>) -> bool {
    forall|i: int|
        0 <= i < reqs.len() && stands(c, #[trigger] reqs[i]) ==> searched.contains(reqs[i])
}

/// Whether `b` goes on from where `a` was: nothing found is lost, nothing
/// searched for is forgotten, and the requirements of what was found since were
/// followed.
pub open spec fn goes_on(c: SettingsView, a: Work, b: Work) -> bool {
    &&& a.result.len() <= b.result.len()
    &&& forall|i: int| 0 <= i < a.result.len() ==> #[trigger] b.result[i] == a.result[i]
    &&& forall|r: ReqView| a.searched.contains(r) ==> #[trigger] b.searched.contains(r)
    &&& forall|i: int|
        a.result.len() <= i < b.result.len() ==> followed(
            c,
            b.searched,
            #[trigger] b.result[i].2,
        )
}

proof fn lemma_goes_on(c: SettingsView, x: Work, y: Work, z: Work)
    requires
        goes_on(c, x, y),
        goes_on(c, y, z),
    ensures
        goes_on(c, x, z),
{
    assert forall|i: int| 0 <= i < x.result.len() implies #[trigger] z.result[i]
        == x.result[i] by {
        assert(y.result[i] == x.result[i]);
    }
    assert forall|r: ReqView| x.searched.contains(r) implies #[trigger] z.searched.contains(r) by {
        assert(y.searched.contains(r));
    }
    assert forall|i: int| x.result.len() <= i < z.result.len() implies followed(
        c,
        z.searched,
        #[trigger] z.result[i].2,
    ) by {
        if i < y.result.len() {
            assert(z.result[i] == y.result[i]);
            assert(followed(c, y.searched, y.result[i].2));
            assert forall|k: int|
                0 <= k < z.result[i].2.len() && stands(
                    c,
                    #[trigger] z.result[i].2[k],
                ) implies z.searched.contains(z.result[i].2[k]) by {
                assert(y.searched.contains(y.result[i].2[k]));
            }
        }
    }
}

proof fn lemma_guess_follows(
    c: SettingsView,
    s: Service,
    reqs: Seq<ReqView>,
    w: Work,
    depth: nat,
)
    ensures
        guess_graph(c, s, reqs, w, depth) matches Outcome::Found(next) ==> goes_on(c, w, next)
            && followed(c, next.searched, reqs),
    decreases depth, 0nat,
{
    if let Outcome::Found(end) = guess_graph(c, s, reqs, w, depth) {
        let selected = select(c, w.searched, reqs);
        let (vers, answer) = fetch(s, unheld(c, selected), w.vers)->Ok_0;
        let next = Work { vers, searched: w.searched + selected, ..w };
        lemma_visit_follows(
            c,
            s,
            selected,
            answer + held_data(c, selected),
            next,
            (depth - 1) as nat,
        );
        assert(goes_on(c, w, next)) by {
            assert forall|r: ReqView| w.searched.contains(r) implies #[trigger]
                next.searched.contains(r) by {
                let i = w.searched.index_of(r);
                assert(next.searched[i] == r);
            }
        }
        assert forall|i: int| 0 <= i < reqs.len() && stands(c, #[trigger] reqs[i]) implies
            end.searched.contains(reqs[i]) by {
            selected_requirements_stand(c, w.searched, reqs, reqs[i]);
            if w.searched.contains(reqs[i]) {
                assert(next.searched.contains(reqs[i]));
            } else {
                let k = selected.index_of(reqs[i]);
                assert(next.searched[w.searched.len() + k] == reqs[i]);
                assert(next.searched.contains(reqs[i]));
            }
        }
        lemma_goes_on(c, w, next, end);
    }
}

/// What is found in visiting requirements is followed.
pub proof fn lemma_visit_follows(
    c: SettingsView,
    s: Service,
    todo: Seq<ReqView>,
    data: Seq<ReqCacheView>,
    w: Work,
    depth: nat,
)
    ensures
        visit(c, s, todo, data, w, depth) matches Outcome::Found(next) ==> goes_on(c, w, next),
    decreases depth, todo.len(),
{
    if todo.len() > 0 {
        if let Outcome::Found(end) = visit(c, s, todo, data, w, depth) {
            let dep = choice(data, todo[0])->Ok_0;
            let taken = Work { result: w.result.push(dep), ..w };
            lemma_guess_follows(c, s, dep.2, taken, depth);
            let next = guess_graph(c, s, dep.2, taken, depth)->Found_0;
            assert(goes_on(c, w, next)) by {
                assert forall|i: int| 0 <= i < w.result.len() implies #[trigger] next.result[i]
                    == w.result[i] by {
                    assert(taken.result[i] == w.result[i]);
                }
                assert forall|i: int| w.result.len() <= i < next.result.len() implies followed(
                    c,
                    next.searched,
                    #[trigger] next.result[i].2,
                ) by {
                    if i == w.result.len() {
                        assert(next.result[i] == taken.result[i]);
                    }
                }
            }
            lemma_visit_follows(c, s, todo.skip(1), data, next, depth);
            lemma_goes_on(c, w, next, end);
        }
    }
}

/// When the search is complete, every requirement that stands was searched
/// for: of those it started from, and of every package that it found.
pub proof fn complete_search_follows_every_requirement(
    c: SettingsView,
    s: Service,
    reqs: Seq<ReqView>,
    w: Work,
)
    requires
        leads(c, s, start(reqs), complete(w)),
    ensures
        followed(c, w.searched, reqs),
        forall|i: int|
            0 <= i < w.result.len() ==> followed(c, w.searched, #[trigger] w.result[i].2),
{
    search_finds_what_guess_graph_finds(c, s, reqs, w);
    let depth = choose|depth: nat| #[trigger]
        guess_graph(c, s, reqs, nothing(), depth) == Outcome::Found(w);
    lemma_guess_follows(c, s, reqs, nothing(), depth);
}

/// The names of the packages found, each as often as it was found.
pub open spec fn found_names(result: Seq<DepView>) -> Multiset<Seq<char>> {
    result.map_values(|d: DepView| d.0).to_multiset()
}

/// The names required, each as often as it was required.
pub open spec fn required_names(reqs: Seq<ReqView>) -> Multiset<Seq<char>> {
    reqs.map_values(|r: ReqView| r.name).to_multiset()
}

/// One package more is found.
pub proof fn lemma_found_names_push(result: Seq<DepView>, d: DepView)
    ensures
        found_names(result.push(d)) == found_names(result).insert(d.0),
{
    broadcast use group_to_multiset_ensures;

    assert(result.push(d).map_values(|d: DepView| d.0) =~= result.map_values(
        |d: DepView| d.0,
    ).push(d.0));
}

/// Names are required by one list or by the other.
pub proof fn lemma_required_names_add(a: Seq<ReqView>, b: Seq<ReqView>)
    ensures
        required_names(a + b) == required_names(a).add(required_names(b)),
{
    let f = |r: ReqView| r.name;
    assert((a + b).map_values(f) =~= a.map_values(f) + b.map_values(f));
    vstd::seq_lib::lemma_multiset_commutative(a.map_values(f), b.map_values(f));
}

proof fn lemma_required_names_first(todo: Seq<ReqView>)
    requires
        todo.len() > 0,
    ensures
        required_names(todo) == required_names(todo.skip(1)).insert(todo[0].name),
{
    broadcast use group_to_multiset_ensures;

    let first = seq![todo[0]];
    let f = |r: ReqView| r.name;
    assert(todo =~= first + todo.skip(1));
    lemma_required_names_add(first, todo.skip(1));
    let none = Seq::<Seq<char>>::empty();
    assert(first.map_values(f) =~= none.push(todo[0].name));
    assert(required_names(first) =~= Multiset::<Seq<char>>::empty().insert(todo[0].name));
    assert(required_names(todo) =~= required_names(todo.skip(1)).insert(todo[0].name));
}

proof fn lemma_guess_balance(
    c: SettingsView,
    s: Service,
    reqs: Seq<ReqView>,
    w: Work,
    depth: nat,
)
    ensures
        guess_graph(c, s, reqs, w, depth) matches Outcome::Found(next) ==> found_names(
            next.result,
        ).add(required_names(w.searched)) == found_names(w.result).add(
            required_names(next.searched),
        ),
    decreases depth, 0nat,
{
    if let Outcome::Found(end) = guess_graph(c, s, reqs, w, depth) {
        let selected = select(c, w.searched, reqs);
        let (vers, answer) = fetch(s, unheld(c, selected), w.vers)->Ok_0;
        let next = Work { vers, searched: w.searched + selected, ..w };
        lemma_visit_balance(
            c,
            s,
            selected,
            answer + held_data(c, selected),
            next,
            (depth - 1) as nat,
        );
        lemma_required_names_add(w.searched, selected);
        lemma_cancel(
            found_names(end.result),
            required_names(w.searched),
            required_names(selected),
            found_names(w.result),
            required_names(end.searched),
        );
    }
}

/// If `a + (b + d) == (e + d) + f` then `a + b == e + f`.
proof fn lemma_cancel(
    a: Multiset<Seq<char>>,
    b: Multiset<Seq<char>>,
    d: Multiset<Seq<char>>,
    e: Multiset<Seq<char>>,
    f: Multiset<Seq<char>>,
)
    requires
        a.add(b.add(d)) == e.add(d).add(f),
    ensures
        a.add(b) == e.add(f),
{
    broadcast use vstd::multiset::group_multiset_axioms;

    assert forall|x: Seq<char>| a.add(b).count(x) == e.add(f).count(x) by {
        assert(a.add(b.add(d)).count(x) == a.count(x) + b.add(d).count(x));
        assert(e.add(d).add(f).count(x) == e.add(d).count(x) + f.count(x));
    }
    assert(a.add(b) =~= e.add(f));
}

proof fn lemma_visit_balance(
    c: SettingsView,
    s: Service,
    todo: Seq<ReqView>,
    data: Seq<ReqCacheView>,
    w: Work,
    depth: nat,
)
    ensures
        visit(c, s, todo, data, w, depth) matches Outcome::Found(next) ==> found_names(
            next.result,
        ).add(required_names(w.searched)) == found_names(w.result).add(required_names(todo)).add(
            required_names(next.searched),
        ),
    decreases depth, todo.len(),
{
    broadcast use vstd::multiset::group_multiset_axioms;

    if todo.len() == 0 {
        assert(todo.map_values(|r: ReqView| r.name) =~= Seq::<Seq<char>>::empty());
        assert(required_names(todo) =~= Multiset::<Seq<char>>::empty()) by {
            broadcast use group_to_multiset_ensures;

        }
        assert(found_names(w.result).add(required_names(w.searched)) =~= found_names(
            w.result,
        ).add(required_names(todo)).add(required_names(w.searched)));
    } else if let Outcome::Found(end) = visit(c, s, todo, data, w, depth) {
        let dep = choice(data, todo[0])->Ok_0;
        let taken = Work { result: w.result.push(dep), ..w };
        lemma_guess_balance(c, s, dep.2, taken, depth);
        let next = guess_graph(c, s, dep.2, taken, depth)->Found_0;
        lemma_visit_balance(c, s, todo.skip(1), data, next, depth);
        lemma_found_names_push(w.result, dep);
        lemma_required_names_first(todo);
        let (e, n, t) = (found_names(end.result), found_names(next.result), found_names(w.result));
        let (se, sn, sw) = (
            required_names(end.searched),
            required_names(next.searched),
            required_names(w.searched),
        );
        let rest = required_names(todo.skip(1));
        assert forall|x: Seq<char>| e.add(sw).count(x) == t.add(required_names(todo)).add(
            se,
        ).count(x) by {
            assert(n.add(sw).count(x) == t.insert(dep.0).add(sn).count(x));
            assert(e.add(sn).count(x) == n.add(rest).add(se).count(x));
        }
        assert(e.add(sw) =~= t.add(required_names(todo)).add(se));
    }
}

/// When the search is complete, just one package was found for each
/// requirement searched for, under the name required.
pub proof fn one_package_is_found_for_each_requirement(
    c: SettingsView,
    s: Service,
    reqs: Seq<ReqView>,
    w: Work,
)
    requires
        leads(c, s, start(reqs), complete(w)),
    ensures
        w.result.len() == w.searched.len(),
        found_names(w.result) == required_names(w.searched),
{
    broadcast use group_to_multiset_ensures;
    broadcast use vstd::multiset::group_multiset_axioms;

    search_finds_what_guess_graph_finds(c, s, reqs, w);
    let depth = choose|depth: nat| #[trigger]
        guess_graph(c, s, reqs, nothing(), depth) == Outcome::Found(w);
    lemma_guess_balance(c, s, reqs, nothing(), depth);
    let none = nothing();
    assert(none.result.map_values(|d: DepView| d.0) =~= Seq::<Seq<char>>::empty());
    assert(none.searched.map_values(|r: ReqView| r.name) =~= Seq::<Seq<char>>::empty());
    assert(found_names(w.result) =~= found_names(w.result).add(required_names(none.searched)));
    assert(required_names(w.searched) =~= found_names(none.result).add(
        required_names(w.searched),
    ));
    let names = w.result.map_values(|d: DepView| d.0);
    let wanted = w.searched.map_values(|r: ReqView| r.name);
    assert(names.to_multiset().len() == names.len());
    assert(wanted.to_multiset().len() == wanted.len());
}

/// Where all requirements on a package are one and the same, that one decides
/// which version is asked for.
proof fn lemma_question_at(
    reqs: Seq<ReqView>,
    known: Map<Seq<char>, VersionInfoView>,
    r: ReqView,
)
    requires
        reqs.contains(r),
        forall|i: int| 0 <= i < reqs.len() && (#[trigger] reqs[i]).name == r.name ==> reqs[i] == r,
    ensures
        question(reqs, known).dom().contains(r.name),
        question(reqs, known)[r.name] == best_version(r.constraints, known[r.name]),
    decreases reqs.len(),
{
    let front = reqs.drop_last();
    let best = best_version(r.constraints, known[r.name]);
    assert(reqs.last() == reqs[reqs.len() - 1]);
    assert(forall|i: int| 0 <= i < front.len() ==> #[trigger] front[i] == reqs[i]);
    if front.contains(r) {
        lemma_question_at(front, known, r);
        if best.len() > 0 {
            assert(best.contains(best[0]));
        }
    } else {
        let i = reqs.index_of(r);
        assert(i < front.len() ==> front[i] == r);
        assert(reqs.last() == r);
        question_is_about_the_packages_required(front, known);
        if question(front, known).dom().contains(r.name) {
            let j = choose|j: int| 0 <= j < front.len() && (#[trigger] front[j]).name == r.name;
            assert(front[j] == r);
        }
        assert(question(reqs, known)[r.name] =~= best);
    }
}

/// If the service says of a package just what it is asked, and the lock file
/// has no such package, then the newest version that meets the requirement is
/// the one that is taken: it is a version of the package, it meets every
/// constraint, and no other version up to the latest that does is later. The
/// requirement is the only one on the package in its list, and is met by some
/// version.
pub proof fn newest_compatible_version_is_taken(
    c: SettingsView,
    known: Map<Seq<char>, VersionInfoView>,
    answer: Seq<ReqCacheView>,
    reqs: Seq<ReqView>,
    r: ReqView,
    some: Version,
)
    requires
        unheld(c, reqs).contains(r),
        forall|i: int|
            0 <= i < unheld(c, reqs).len() && (#[trigger] unheld(c, reqs)[i]).name == r.name
                ==> unheld(c, reqs)[i] == r,
        forall|i: int| 0 <= i < c.locked.len() ==> (#[trigger] c.locked[i]).0 != r.name,
        known[r.name].2.contains(some),
        some.at_most(known[r.name].1),
        all_admit(r.constraints, some),
        exists|i: int| 0 <= i < answer.len() && (#[trigger] answer[i]).name == Some(r.name),
        forall|i: int|
            0 <= i < answer.len() && (#[trigger] answer[i]).name == Some(r.name) ==> (
            parse_version(answer[i].version) matches Some(v) && question(
                unheld(c, reqs),
                known,
            )[r.name].contains(v)),
    ensures
        choice(answer + held_data(c, reqs), r) matches Ok(dep) && {
            &&& dep.0 == r.name
            &&& known[r.name].2.contains(dep.1)
            &&& dep.1.at_most(known[r.name].1)
            &&& all_admit(r.constraints, dep.1)
            &&& forall|v: Version|
                known[r.name].2.contains(v) && v.at_most(known[r.name].1) && #[trigger] all_admit(
                    r.constraints,
                    v,
                ) ==> v.at_most(dep.1)
        },
{
    let data = answer + held_data(c, reqs);
    let best = best_version(r.constraints, known[r.name]);
    lemma_question_at(unheld(c, reqs), known, r);
    newest_compatible_version_is_asked_for(r.constraints, known[r.name]);
    assert forall|i: int| 0 <= i < data.len() && (#[trigger] data[i]).name == Some(
        r.name,
    ) implies parse_version(data[i].version) == Some(best[0]) by {
        if i < answer.len() {
            assert(data[i] == answer[i]);
            let v = parse_version(answer[i].version)->0;
            assert(best.contains(v));
            let k = best.index_of(v);
            assert(best[k] == v);
        } else {
            let k = i - answer.len();
            reqs.lemma_filter_pred(by_lock(c), k);
            let q = held(c, reqs)[k];
            lemma_locked_found(c, q);
            let m = lemma_lock_place(c.locked, q);
            assert(c.locked[m].0 != r.name);
        }
    }
    let j = choose|i: int| 0 <= i < answer.len() && (#[trigger] answer[i]).name == Some(r.name);
    assert(data[j] == answer[j]);
    no_package_is_taken_without_data(data, r);
    newest_package_is_taken(data, r);
}

} // verus!
