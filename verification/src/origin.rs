//! Where the packages that a search finds come from.

use crate::choice::{choice, newest_package_is_taken, DepView, FailureView};
use crate::constraint::all_admit;
use crate::graph::start;
use crate::guess::{
    complete, fetch, guess_graph, leads, learn, nothing, search_finds_what_guess_graph_finds,
    visit, Outcome, Service, Work,
};
use crate::lock::{held_data, unheld};
use crate::pydeps::{question, ReqCacheView, VersionInfoView};
use crate::req::ReqView;
use crate::select::select;
use crate::settings::SettingsView;
use vstd::prelude::*;

verus! {

/// Where a package comes from: the requirement it was taken for, the list that
/// the requirement stood in, what was known of versions, and what the service
/// said of the packages in the list.
pub struct Origin {
    pub req: ReqView,
    pub list: Seq<ReqView>,
    pub known: Map<Seq<char>, VersionInfoView>,
    pub answer: Seq<ReqCacheView>,
}

/// Whether the service was asked for the list and gave this answer, or was not
/// asked because the lock file answers all of the list.
pub open spec fn answered(c: SettingsView, s: Service, o: Origin) -> bool {
    let open = unheld(c, o.list);
    if open.len() == 0 {
        o.answer.len() == 0
    } else {
        &&& forall|i: int| 0 <= i < open.len() ==> o.known.dom().contains((#[trigger] open[i]).name)
        &&& (s.dependencies)(question(open, o.known)) == Some(o.answer)
    }
}

/// Whether all of `known` is known in `vers` too.
pub open spec fn still_known(
    known: Map<Seq<char>, VersionInfoView>,
    vers: Map<Seq<char>, VersionInfoView>,
) -> bool {
    forall|name: Seq<char>| #[trigger]
        known.dom().contains(name) ==> vers.dom().contains(name) && vers[name] == known[name]
}

/// Whether all of `list` was searched for.
pub open spec fn all_searched(list: Seq<ReqView>, searched: Seq<ReqView>) -> bool {
    forall|i: int| 0 <= i < list.len() ==> searched.contains(#[trigger] list[i])
}

/// Whether the list was searched for, and the service answered for it.
pub open spec fn gathered_for(c: SettingsView, s: Service, w: Work, o: Origin) -> bool {
    &&& all_searched(o.list, w.searched)
    &&& still_known(o.known, w.vers)
    &&& answered(c, s, o)
}

/// Whether a package comes from there.
pub open spec fn comes_from(
    c: SettingsView,
    s: Service,
    w: Work,
    d: DepView,
    o: Origin,
) -> bool {
    &&& gathered_for(c, s, w, o)
    &&& o.list.contains(o.req)
    &&& choice(o.answer + held_data(c, o.list), o.req) == Ok::<DepView, FailureView>(d)
}

/// Whether a package was taken for a requirement that was searched for, from
/// what the service and the lock file say.
pub open spec fn taken(c: SettingsView, s: Service, w: Work, d: DepView) -> bool {
    exists|o: Origin| #[trigger] comes_from(c, s, w, d, o)
}

/// Whether `b` goes on from where `a` was: what was known and searched for
/// still is, what was found stays, and what was found since was taken.
spec fn goes_on(c: SettingsView, s: Service, a: Work, b: Work) -> bool {
    &&& still_known(a.vers, b.vers)
    &&& all_searched(a.searched, b.searched)
    &&& a.result.len() <= b.result.len()
    &&& forall|i: int| 0 <= i < a.result.len() ==> #[trigger] b.result[i] == a.result[i]
    &&& forall|i: int|
        a.result.len() <= i < b.result.len() ==> taken(c, s, b, #[trigger] b.result[i])
}

proof fn lemma_gathered_for_stays(c: SettingsView, s: Service, a: Work, b: Work, o: Origin)
    requires
        still_known(a.vers, b.vers),
        all_searched(a.searched, b.searched),
        gathered_for(c, s, a, o),
    ensures
        gathered_for(c, s, b, o),
{
    assert forall|i: int| 0 <= i < o.list.len() implies b.searched.contains(
        #[trigger] o.list[i],
    ) by {
        assert(a.searched.contains(o.list[i]));
        let k = a.searched.index_of(o.list[i]);
        assert(a.searched[k] == o.list[i]);
    }
    assert forall|name: Seq<char>| #[trigger] o.known.dom().contains(name) implies {
        b.vers.dom().contains(name) && b.vers[name] == o.known[name]
    } by {
        assert(a.vers.dom().contains(name));
    }
}

proof fn lemma_goes_on(c: SettingsView, s: Service, x: Work, y: Work, z: Work)
    requires
        goes_on(c, s, x, y),
        goes_on(c, s, y, z),
    ensures
        goes_on(c, s, x, z),
{
    assert forall|i: int| 0 <= i < x.searched.len() implies z.searched.contains(
        #[trigger] x.searched[i],
    ) by {
        assert(y.searched.contains(x.searched[i]));
        let k = y.searched.index_of(x.searched[i]);
        assert(y.searched[k] == x.searched[i]);
    }
    assert forall|i: int| 0 <= i < x.result.len() implies #[trigger] z.result[i]
        == x.result[i] by {
        assert(y.result[i] == x.result[i]);
    }
    assert forall|name: Seq<char>| #[trigger] x.vers.dom().contains(name) implies {
        z.vers.dom().contains(name) && z.vers[name] == x.vers[name]
    } by {
        assert(y.vers.dom().contains(name));
    }
    assert forall|i: int| x.result.len() <= i < z.result.len() implies taken(
        c,
        s,
        z,
        #[trigger] z.result[i],
    ) by {
        if i < y.result.len() {
            assert(z.result[i] == y.result[i]);
            let o = choose|o: Origin| #[trigger] comes_from(c, s, y, y.result[i], o);
            lemma_gathered_for_stays(c, s, y, z, o);
            assert(comes_from(c, s, z, z.result[i], o));
        }
    }
}

proof fn lemma_learn_keeps(s: Service, reqs: Seq<ReqView>, vers: Map<Seq<char>, VersionInfoView>)
    ensures
        learn(s, reqs, vers) matches Ok(known) ==> {
            &&& still_known(vers, known)
            &&& forall|i: int|
                0 <= i < reqs.len() ==> known.dom().contains((#[trigger] reqs[i]).name)
        },
    decreases reqs.len(),
{
    if reqs.len() > 0 {
        let rest = reqs.skip(1);
        let name = reqs[0].name;
        if vers.dom().contains(name) {
            lemma_learn_keeps(s, rest, vers);
            if let Ok(known) = learn(s, reqs, vers) {
                assert(known.dom().contains(name));
                assert forall|i: int| 0 <= i < reqs.len() implies known.dom().contains(
                    (#[trigger] reqs[i]).name,
                ) by {
                    assert(i > 0 ==> rest[i - 1] == reqs[i]);
                }
            }
        } else if let Some(info) = (s.versions)(name) {
            let more = vers.insert(name, info);
            lemma_learn_keeps(s, rest, more);
            if let Ok(known) = learn(s, reqs, vers) {
                assert(more.dom().contains(name));
                assert forall|n: Seq<char>| #[trigger] vers.dom().contains(n) implies {
                    known.dom().contains(n) && known[n] == vers[n]
                } by {
                    assert(more.dom().contains(n));
                }
                assert forall|i: int| 0 <= i < reqs.len() implies known.dom().contains(
                    (#[trigger] reqs[i]).name,
                ) by {
                    assert(i > 0 ==> rest[i - 1] == reqs[i]);
                }
            }
        }
    }
}

proof fn lemma_guess_takes(
    c: SettingsView,
    s: Service,
    reqs: Seq<ReqView>,
    w: Work,
    depth: nat,
)
    ensures
        guess_graph(c, s, reqs, w, depth) matches Outcome::Found(next) ==> goes_on(c, s, w, next),
    decreases depth, 0nat,
{
    if let Outcome::Found(end) = guess_graph(c, s, reqs, w, depth) {
        let list = select(c, w.searched, reqs);
        let open = unheld(c, list);
        let (known, answer) = fetch(s, open, w.vers)->Ok_0;
        let next = Work { vers: known, searched: w.searched + list, ..w };
        let o = Origin { req: list[0], list, known, answer };
        lemma_learn_keeps(s, open, w.vers);
        assert forall|i: int| 0 <= i < list.len() implies next.searched.contains(
            #[trigger] list[i],
        ) by {
            assert(next.searched[w.searched.len() + i] == list[i]);
        }
        assert forall|i: int| 0 <= i < w.searched.len() implies next.searched.contains(
            #[trigger] w.searched[i],
        ) by {
            assert(next.searched[i] == w.searched[i]);
        }
        assert(gathered_for(c, s, next, o));
        lemma_visit_takes(c, s, list, o, next, (depth - 1) as nat);
        lemma_goes_on(c, s, w, next, end);
    }
}

proof fn lemma_visit_takes(
    c: SettingsView,
    s: Service,
    todo: Seq<ReqView>,
    o: Origin,
    w: Work,
    depth: nat,
)
    requires
        gathered_for(c, s, w, o),
        forall|i: int| 0 <= i < todo.len() ==> o.list.contains(#[trigger] todo[i]),
    ensures
        visit(c, s, todo, o.answer + held_data(c, o.list), w, depth) matches Outcome::Found(next)
            ==> goes_on(c, s, w, next),
    decreases depth, todo.len(),
{
    let data = o.answer + held_data(c, o.list);
    assert(all_searched(w.searched, w.searched));
    if todo.len() > 0 {
        if let Outcome::Found(end) = visit(c, s, todo, data, w, depth) {
            let dep = choice(data, todo[0])->Ok_0;
            let first = Work { result: w.result.push(dep), ..w };
            assert(comes_from(c, s, first, dep, Origin { req: todo[0], ..o }));
            assert(goes_on(c, s, w, first));
            lemma_guess_takes(c, s, dep.2, first, depth);
            let next = guess_graph(c, s, dep.2, first, depth)->Found_0;
            lemma_gathered_for_stays(c, s, first, next, o);
            lemma_visit_takes(c, s, todo.skip(1), o, next, depth);
            lemma_goes_on(c, s, w, first, next);
            lemma_goes_on(c, s, w, next, end);
        }
    }
}

/// Whether the version of a package meets some requirement on the package.
pub open spec fn meets_one(searched: Seq<ReqView>, d: DepView) -> bool {
    exists|j: int|
        0 <= j < searched.len() && (#[trigger] searched[j]).name == d.0 && all_admit(
            searched[j].constraints,
            d.1,
        )
}

/// Every package that a complete search found was taken for a requirement that
/// was searched for, from what the service and the lock file say, and its
/// version meets that requirement.
pub proof fn every_package_found_was_taken(
    c: SettingsView,
    s: Service,
    reqs: Seq<ReqView>,
    w: Work,
)
    requires
        leads(c, s, start(reqs), complete(w)),
    ensures
        forall|i: int| 0 <= i < w.result.len() ==> taken(c, s, w, #[trigger] w.result[i]),
        forall|i: int|
            0 <= i < w.result.len() ==> meets_one(w.searched, #[trigger] w.result[i]),
{
    search_finds_what_guess_graph_finds(c, s, reqs, w);
    let depth = choose|depth: nat| #[trigger]
        guess_graph(c, s, reqs, nothing(), depth) == Outcome::Found(w);
    lemma_guess_takes(c, s, reqs, nothing(), depth);
    assert forall|i: int| 0 <= i < w.result.len() implies meets_one(
        w.searched,
        #[trigger] w.result[i],
    ) by {
        let d = w.result[i];
        assert(taken(c, s, w, d));
        let o = choose|o: Origin| #[trigger] comes_from(c, s, w, d, o);
        newest_package_is_taken(o.answer + held_data(c, o.list), o.req);
        let k = o.list.index_of(o.req);
        assert(o.list[k] == o.req);
        assert(w.searched.contains(o.req));
        let j = w.searched.index_of(o.req);
        assert(w.searched[j].name == d.0);
    }
}

} // verus!
