//! What the search for the graph of dependencies comes to, said by recursion,
//! and that the search comes to just that.

use crate::choice::{choice, DepView, FailureView};
use crate::graph::{
    all_lock_data, gathered, lemma_choice_within, lemma_held_within, lemma_select, lemma_unsearched,
    settled, settles, start, step, steps, told_dependencies, told_versions, unsearched, wants,
    within, ActionView, FrameView, Graph, PhaseView,
};
use crate::lock::{held_data, unheld};
use crate::pydeps::{first_unknown, question, ReqCacheView, VersionInfoView};
use crate::req::ReqView;
use crate::select::{select, unclear};
use crate::settings::SettingsView;
use crate::version::Version;
use vstd::prelude::*;

verus! {

/// What can be learnt from outside: the versions of a package, and the
/// requirements of versions of packages.
pub struct Service {
    pub versions: spec_fn(Seq<char>) -> Option<VersionInfoView>,
    pub dependencies: spec_fn(Map<Seq<char>, Seq<Version>>) -> Option<Seq<ReqCacheView>>,
}

/// What a search has gathered: the packages found, what is known of versions,
/// and the requirements searched for.
#[verifier::ext_equal]
pub struct Work {
    pub result: Seq<DepView>,
    pub vers: Map<Seq<char>, VersionInfoView>,
    pub searched: Seq<ReqView>,
}

/// What a search comes to.
pub enum Outcome {
    Found(Work),
    Failed(FailureView),
    /// Requirements lead on beyond the depth given.
    Unfinished,
}

/// The versions of the packages required are asked for one after another,
/// unless they are known.
pub open spec fn learn(
    s: Service,
    reqs: Seq<ReqView>,
    vers: Map<Seq<char>, VersionInfoView>,
) -> Result<Map<Seq<char>, VersionInfoView>, FailureView>
    decreases reqs.len(),
{
    if reqs.len() == 0 {
        Ok(vers)
    } else if vers.dom().contains(reqs[0].name) {
        learn(s, reqs.skip(1), vers)
    } else {
        match (s.versions)(reqs[0].name) {
            None => Err(FailureView::VersionInfo(reqs[0].name)),
            Some(info) => learn(s, reqs.skip(1), vers.insert(reqs[0].name, info)),
        }
    }
}

/// Then the requirements of the best version for each requirement are asked
/// for. If no package is required, nothing is asked.
pub open spec fn fetch(
    s: Service,
    reqs: Seq<ReqView>,
    vers: Map<Seq<char>, VersionInfoView>,
) -> Result<(Map<Seq<char>, VersionInfoView>, Seq<ReqCacheView>), FailureView> {
    match learn(s, reqs, vers) {
        Err(f) => Err(f),
        Ok(known) => if reqs.len() == 0 {
            Ok((known, seq![]))
        } else {
            match (s.dependencies)(question(reqs, known)) {
                None => Err(FailureView::DependencyData),
                Some(answer) => Ok((known, answer)),
            }
        },
    }
}

/// The search from a list of requirements on, no more than `depth` lists deep.
/// Of the list, the requirements are selected that stand and were not searched
/// for; for those that the lock file does not answer the service is asked; and
/// then each of those selected is visited.
pub open spec fn guess_graph(
    c: SettingsView,
    s: Service,
    reqs: Seq<ReqView>,
    w: Work,
    depth: nat,
) -> Outcome
    decreases depth, 0nat,
{
    if depth == 0 {
        Outcome::Unfinished
    } else if unclear(c, w.searched, reqs) {
        Outcome::Failed(FailureView::Platform)
    } else {
        let selected = select(c, w.searched, reqs);
        match fetch(s, unheld(c, selected), w.vers) {
            Err(f) => Outcome::Failed(f),
            Ok((vers, answer)) => visit(
                c,
                s,
                selected,
                answer + held_data(c, selected),
                Work { vers, searched: w.searched + selected, ..w },
                (depth - 1) as nat,
            ),
        }
    }
}

/// The visit of requirements, one after another: for each a package is taken,
/// and the search goes on from the requirements of that package.
pub open spec fn visit(
    c: SettingsView,
    s: Service,
    todo: Seq<ReqView>,
    data: Seq<ReqCacheView>,
    w: Work,
    depth: nat,
) -> Outcome
    decreases depth, todo.len(),
{
    if todo.len() == 0 {
        Outcome::Found(w)
    } else {
        match choice(data, todo[0]) {
            Err(f) => Outcome::Failed(f),
            Ok(dep) => match guess_graph(
                c,
                s,
                dep.2,
                Work { result: w.result.push(dep), ..w },
                depth,
            ) {
                Outcome::Found(next) => visit(c, s, todo.skip(1), data, next, depth),
                other => other,
            },
        }
    }
}

/// A search that nothing was done in.
pub open spec fn nothing() -> Work {
    Work { result: seq![], vers: Map::empty(), searched: seq![] }
}

/// What a search has gathered so far.
pub open spec fn work(g: Graph) -> Work {
    Work { result: g.result, vers: g.vers, searched: g.searched }
}

/// The search that has gathered `w`.
pub open spec fn search(w: Work, stack: Seq<FrameView>, phase: PhaseView) -> Graph {
    Graph { result: w.result, vers: w.vers, searched: w.searched, stack, phase }
}

/// Whether the search is over.
pub open spec fn over(g: Graph) -> bool {
    g.phase is Done || g.phase is Failed
}

/// One turn of a search that is told what it wants by the service.
pub open spec fn turn(c: SettingsView, s: Service, g: Graph) -> Graph {
    if settled(c, g) {
        match wants(c, g) {
            ActionView::Versions(name) => told_versions(c, g, (s.versions)(name)),
            ActionView::Dependencies(packages) => told_dependencies(
                c,
                g,
                (s.dependencies)(packages),
            ),
            _ => g,
        }
    } else {
        step(c, g)
    }
}

/// Some turns of a search that is told what it wants by the service.
pub open spec fn turns(c: SettingsView, s: Service, g: Graph, n: nat) -> Graph
    decreases n,
{
    if n == 0 {
        g
    } else {
        turns(c, s, turn(c, s, g), (n - 1) as nat)
    }
}

/// Whether the search comes from `g` to `h` if the service tells it what it
/// wants.
pub open spec fn leads(c: SettingsView, s: Service, g: Graph, h: Graph) -> bool {
    exists|n: nat| #[trigger] turns(c, s, g, n) == h
}

/// Whether the search is not over for at least `k` turns.
spec fn busy_for(c: SettingsView, s: Service, g: Graph, k: nat) -> bool {
    exists|n: nat| n >= k && !over(#[trigger] turns(c, s, g, n))
}

proof fn lemma_turns_add(c: SettingsView, s: Service, g: Graph, m: nat, n: nat)
    ensures
        turns(c, s, g, m + n) == turns(c, s, turns(c, s, g, m), n),
    decreases m,
{
    if m > 0 {
        lemma_turns_add(c, s, turn(c, s, g), (m - 1) as nat, n);
    }
}

proof fn lemma_turns_over(c: SettingsView, s: Service, g: Graph, n: nat)
    requires
        over(g),
    ensures
        turns(c, s, g, n) == g,
    decreases n,
{
    if n > 0 {
        lemma_turns_over(c, s, g, (n - 1) as nat);
    }
}

proof fn lemma_leads_self(c: SettingsView, s: Service, g: Graph)
    ensures
        leads(c, s, g, g),
{
    assert(turns(c, s, g, 0) == g);
}

proof fn lemma_leads_turn(c: SettingsView, s: Service, g: Graph)
    ensures
        leads(c, s, g, turn(c, s, g)),
{
    reveal_with_fuel(turns, 2);
    assert(turns(c, s, g, 1) == turn(c, s, g));
}

proof fn lemma_leads_on(c: SettingsView, s: Service, a: Graph, b: Graph, d: Graph)
    requires
        leads(c, s, a, b),
        leads(c, s, b, d),
    ensures
        leads(c, s, a, d),
{
    let m = choose|m: nat| #[trigger] turns(c, s, a, m) == b;
    let n = choose|n: nat| #[trigger] turns(c, s, b, n) == d;
    lemma_turns_add(c, s, a, m, n);
    assert(turns(c, s, a, m + n) == d);
}

proof fn lemma_busy_on(c: SettingsView, s: Service, a: Graph, b: Graph, k: nat)
    requires
        leads(c, s, a, b),
        busy_for(c, s, b, k),
    ensures
        busy_for(c, s, a, k),
{
    let m = choose|m: nat| #[trigger] turns(c, s, a, m) == b;
    let n = choose|n: nat| n >= k && !over(#[trigger] turns(c, s, b, n));
    lemma_turns_add(c, s, a, m, n);
    assert(m + n >= k && !over(turns(c, s, a, m + n)));
}

proof fn lemma_busy_turn(c: SettingsView, s: Service, a: Graph, k: nat)
    requires
        busy_for(c, s, turn(c, s, a), k),
    ensures
        busy_for(c, s, a, k + 1),
{
    let n = choose|n: nat| n >= k && !over(#[trigger] turns(c, s, turn(c, s, a), n));
    assert(turns(c, s, a, n + 1) == turns(c, s, turn(c, s, a), n));
    assert(n + 1 >= k + 1 && !over(turns(c, s, a, n + 1)));
}

/// Where the first packages are known, the first unknown one is among the
/// rest.
proof fn lemma_first_unknown_skip(
    reqs: Seq<ReqView>,
    vers: Map<Seq<char>, VersionInfoView>,
    k: int,
)
    requires
        0 <= k <= reqs.len(),
        forall|i: int| 0 <= i < k ==> vers.dom().contains((#[trigger] reqs[i]).name),
    ensures
        first_unknown(reqs, vers) == first_unknown(reqs.skip(k), vers),
    decreases k,
{
    if k > 0 {
        assert(vers.dom().contains(reqs[0].name));
        assert forall|i: int| 0 <= i < k - 1 implies vers.dom().contains(
            (#[trigger] reqs.skip(1)[i]).name,
        ) by {
            assert(reqs.skip(1)[i] == reqs[i + 1]);
        }
        lemma_first_unknown_skip(reqs.skip(1), vers, k - 1);
        assert(reqs.skip(1).skip(k - 1) =~= reqs.skip(k));
    } else {
        assert(reqs.skip(0) =~= reqs);
    }
}

/// A search that gathers learns the versions that are to be learnt.
proof fn lemma_learn(c: SettingsView, s: Service, g: Graph, reqs: Seq<ReqView>, k: int)
    requires
        g.phase == PhaseView::Collect(reqs),
        0 <= k <= unheld(c, reqs).len(),
        unheld(c, reqs).len() > 0,
        forall|i: int|
            0 <= i < k ==> g.vers.dom().contains((#[trigger] unheld(c, reqs)[i]).name),
    ensures
        match learn(s, unheld(c, reqs).skip(k), g.vers) {
            Ok(known) => leads(c, s, g, Graph { vers: known, ..g }) && first_unknown(
                unheld(c, reqs),
                known,
            ) is None,
            Err(f) => exists|h: Graph| #[trigger]
                leads(c, s, g, h) && h.phase == PhaseView::Failed(f),
        },
    decreases unheld(c, reqs).len() - k,
{
    let open = unheld(c, reqs);
    let rest = open.skip(k);
    lemma_first_unknown_skip(open, g.vers, k);
    if k == open.len() {
        lemma_leads_self(c, s, g);
        assert(g == (Graph { vers: g.vers, ..g }));
    } else {
        let name = rest[0].name;
        assert(rest[0] == open[k]);
        assert(rest.skip(1) =~= open.skip(k + 1));
        if g.vers.dom().contains(name) {
            lemma_learn(c, s, g, reqs, k + 1);
        } else {
            assert(wants(c, g) == ActionView::Versions(name));
            let h = turn(c, s, g);
            lemma_leads_turn(c, s, g);
            if let Some(info) = (s.versions)(name) {
                lemma_learn(c, s, h, reqs, k + 1);
                match learn(s, open.skip(k + 1), h.vers) {
                    Ok(known) => {
                        lemma_leads_on(c, s, g, h, Graph { vers: known, ..h });
                        assert((Graph { vers: known, ..h }) == (Graph { vers: known, ..g }));
                    },
                    Err(f) => {
                        let d = choose|d: Graph| #[trigger]
                            leads(c, s, h, d) && d.phase == PhaseView::Failed(f);
                        lemma_leads_on(c, s, g, h, d);
                    },
                }
            }
        }
    }
}

/// A search that gathers comes to hold the data that are to be fetched.
proof fn lemma_fetch(c: SettingsView, s: Service, g: Graph, reqs: Seq<ReqView>)
    requires
        g.phase == PhaseView::Collect(reqs),
    ensures
        match fetch(s, unheld(c, reqs), g.vers) {
            Ok((known, answer)) => leads(
                c,
                s,
                g,
                gathered(c, Graph { vers: known, ..g }, answer),
            ),
            Err(f) => exists|h: Graph| #[trigger]
                leads(c, s, g, h) && h.phase == PhaseView::Failed(f),
        },
{
    let open = unheld(c, reqs);
    if open.len() == 0 {
        lemma_leads_turn(c, s, g);
        assert((Graph { vers: g.vers, ..g }) == g);
    } else {
        assert(open.skip(0) =~= open);
        lemma_learn(c, s, g, reqs, 0);
        if let Ok(known) = learn(s, open, g.vers) {
            let h = Graph { vers: known, ..g };
            assert(wants(c, h) == ActionView::Dependencies(question(open, known)));
            lemma_leads_turn(c, s, h);
            lemma_leads_on(c, s, g, h, turn(c, s, h));
        }
    }
}

/// What the search does from a list of requirements on.
proof fn lemma_guess(
    c: SettingsView,
    s: Service,
    reqs: Seq<ReqView>,
    w: Work,
    stack: Seq<FrameView>,
    depth: nat,
)
    ensures
        match guess_graph(c, s, reqs, w, depth) {
            Outcome::Found(next) => leads(
                c,
                s,
                search(w, stack, PhaseView::Enter(reqs)),
                search(next, stack, PhaseView::Walk),
            ),
            Outcome::Failed(f) => exists|h: Graph| #[trigger]
                leads(c, s, search(w, stack, PhaseView::Enter(reqs)), h) && h.phase
                    == PhaseView::Failed(f),
            Outcome::Unfinished => busy_for(
                c,
                s,
                search(w, stack, PhaseView::Enter(reqs)),
                depth,
            ),
        },
    decreases depth, 0nat,
{
    let g = search(w, stack, PhaseView::Enter(reqs));
    let h = turn(c, s, g);
    lemma_leads_turn(c, s, g);
    if depth == 0 {
        assert(turns(c, s, g, 0) == g);
        assert(!over(turns(c, s, g, 0)));
    } else if !unclear(c, w.searched, reqs) {
        let selected = select(c, w.searched, reqs);
        lemma_fetch(c, s, h, selected);
        match fetch(s, unheld(c, selected), w.vers) {
            Err(f) => {
                let d = choose|d: Graph| #[trigger]
                    leads(c, s, h, d) && d.phase == PhaseView::Failed(f);
                lemma_leads_on(c, s, g, h, d);
            },
            Ok((known, answer)) => {
                let data = answer + held_data(c, selected);
                let next = Work { vers: known, searched: w.searched + selected, ..w };
                let d = gathered(c, Graph { vers: known, ..h }, answer);
                let top = FrameView { todo: selected, data };
                assert(d == search(next, stack.push(top), PhaseView::Walk));
                lemma_visit(c, s, selected, data, next, stack, (depth - 1) as nat);
                match visit(c, s, selected, data, next, (depth - 1) as nat) {
                    Outcome::Found(end) => {
                        lemma_leads_on(c, s, h, d, search(end, stack, PhaseView::Walk));
                        lemma_leads_on(c, s, g, h, search(end, stack, PhaseView::Walk));
                    },
                    Outcome::Failed(f) => {
                        let e = choose|e: Graph| #[trigger]
                            leads(c, s, d, e) && e.phase == PhaseView::Failed(f);
                        lemma_leads_on(c, s, h, d, e);
                        lemma_leads_on(c, s, g, h, e);
                    },
                    Outcome::Unfinished => {
                        lemma_busy_on(c, s, h, d, (depth - 1) as nat);
                        lemma_busy_turn(c, s, g, (depth - 1) as nat);
                    },
                }
            },
        }
    }
}

/// What the search does from a list of requirements that it goes through on.
proof fn lemma_visit(
    c: SettingsView,
    s: Service,
    todo: Seq<ReqView>,
    data: Seq<ReqCacheView>,
    w: Work,
    stack: Seq<FrameView>,
    depth: nat,
)
    ensures
        match visit(c, s, todo, data, w, depth) {
            Outcome::Found(next) => leads(
                c,
                s,
                search(w, stack.push(FrameView { todo, data }), PhaseView::Walk),
                search(next, stack, PhaseView::Walk),
            ),
            Outcome::Failed(f) => exists|h: Graph| #[trigger]
                leads(
                    c,
                    s,
                    search(w, stack.push(FrameView { todo, data }), PhaseView::Walk),
                    h,
                ) && h.phase == PhaseView::Failed(f),
            Outcome::Unfinished => busy_for(
                c,
                s,
                search(w, stack.push(FrameView { todo, data }), PhaseView::Walk),
                depth,
            ),
        },
    decreases depth, todo.len(),
{
    let top = FrameView { todo, data };
    let g = search(w, stack.push(top), PhaseView::Walk);
    let h = turn(c, s, g);
    lemma_leads_turn(c, s, g);
    assert(stack.push(top).drop_last() =~= stack);
    assert(stack.push(top).last() == top);
    if todo.len() == 0 {
        assert(h == search(w, stack, PhaseView::Walk));
    } else if let Ok(dep) = choice(data, todo[0]) {
        let rest = FrameView { todo: todo.skip(1), data };
        let taken = Work { result: w.result.push(dep), ..w };
        assert(h == search(taken, stack.push(rest), PhaseView::Enter(dep.2)));
        lemma_guess(c, s, dep.2, taken, stack.push(rest), depth);
        match guess_graph(c, s, dep.2, taken, depth) {
            Outcome::Found(next) => {
                let d = search(next, stack.push(rest), PhaseView::Walk);
                lemma_leads_on(c, s, g, h, d);
                lemma_visit(c, s, todo.skip(1), data, next, stack, depth);
                match visit(c, s, todo.skip(1), data, next, depth) {
                    Outcome::Found(end) => {
                        lemma_leads_on(c, s, g, d, search(end, stack, PhaseView::Walk));
                    },
                    Outcome::Failed(f) => {
                        let e = choose|e: Graph| #[trigger]
                            leads(c, s, d, e) && e.phase == PhaseView::Failed(f);
                        lemma_leads_on(c, s, g, d, e);
                    },
                    Outcome::Unfinished => {
                        lemma_busy_on(c, s, g, d, depth);
                    },
                }
            },
            Outcome::Failed(f) => {
                let e = choose|e: Graph| #[trigger]
                    leads(c, s, h, e) && e.phase == PhaseView::Failed(f);
                lemma_leads_on(c, s, g, h, e);
            },
            Outcome::Unfinished => {
                lemma_busy_on(c, s, g, h, depth);
            },
        }
    }
}

/// A search that ends, ends in one way.
proof fn lemma_one_end(c: SettingsView, s: Service, g: Graph, a: Graph, b: Graph)
    requires
        leads(c, s, g, a),
        leads(c, s, g, b),
        over(a),
        over(b),
    ensures
        a == b,
{
    let m = choose|m: nat| #[trigger] turns(c, s, g, m) == a;
    let n = choose|n: nat| #[trigger] turns(c, s, g, n) == b;
    if m <= n {
        lemma_turns_add(c, s, g, m, (n - m) as nat);
        lemma_turns_over(c, s, a, (n - m) as nat);
    } else {
        lemma_turns_add(c, s, g, n, (m - n) as nat);
        lemma_turns_over(c, s, b, (m - n) as nat);
    }
}

/// A search that is over after `n` turns is not busy any more.
proof fn lemma_not_busy(c: SettingsView, s: Service, g: Graph, n: nat)
    requires
        over(turns(c, s, g, n)),
    ensures
        !busy_for(c, s, g, n),
{
    if busy_for(c, s, g, n) {
        let m = choose|m: nat| m >= n && !over(#[trigger] turns(c, s, g, m));
        lemma_turns_add(c, s, g, n, (m - n) as nat);
        lemma_turns_over(c, s, turns(c, s, g, n), (m - n) as nat);
    }
}

/// A search that ends is deep enough to be told by recursion.
#[verifier::spinoff_prover]
proof fn lemma_end_has_depth(
    c: SettingsView,
    s: Service,
    reqs: Seq<ReqView>,
    end: Graph,
) -> (depth: nat)
    requires
        leads(c, s, start(reqs), end),
        over(end),
    ensures
        guess_graph(c, s, reqs, nothing(), depth) !is Unfinished,
{
    let n = choose|n: nat| #[trigger] turns(c, s, start(reqs), n) == end;
    lemma_not_busy(c, s, start(reqs), n);
    assert(start(reqs) == search(nothing(), seq![], PhaseView::Enter(reqs)));
    lemma_guess(c, s, reqs, nothing(), seq![], n);
    n
}

/// The search that has found all and gathered `w`.
pub open spec fn complete(w: Work) -> Graph {
    search(w, seq![], PhaseView::Done)
}

proof fn lemma_found(c: SettingsView, s: Service, reqs: Seq<ReqView>, depth: nat)
    ensures
        match guess_graph(c, s, reqs, nothing(), depth) {
            Outcome::Found(w) => leads(c, s, start(reqs), complete(w)),
            Outcome::Failed(f) => exists|h: Graph| #[trigger]
                leads(c, s, start(reqs), h) && h.phase == PhaseView::Failed(f),
            Outcome::Unfinished => true,
        },
{
    assert(start(reqs) == search(nothing(), seq![], PhaseView::Enter(reqs)));
    lemma_guess(c, s, reqs, nothing(), seq![], depth);
    if let Outcome::Found(w) = guess_graph(c, s, reqs, nothing(), depth) {
        let g = search(w, seq![], PhaseView::Walk);
        lemma_leads_turn(c, s, g);
        assert(turn(c, s, g) == complete(w));
        lemma_leads_on(c, s, start(reqs), g, complete(w));
    }
}

/// A service that says nothing.
pub open spec fn silent() -> Service {
    Service {
        versions: |name: Seq<char>| None::<VersionInfoView>,
        dependencies: |packages: Map<Seq<char>, Seq<Version>>| None::<Seq<ReqCacheView>>,
    }
}

proof fn lemma_silent(c: SettingsView, g: Graph, n: nat)
    requires
        turns(c, silent(), g, n).phase is Done,
    ensures
        steps(c, g, n) == turns(c, silent(), g, n),
    decreases n,
{
    if n > 0 {
        let next = turn(c, silent(), g);
        if settled(c, g) && !(g.phase is Done) {
            assert(next.phase is Failed);
            lemma_turns_over(c, silent(), next, (n - 1) as nat);
        }
        lemma_silent(c, next, (n - 1) as nat);
    }
}

/// A search that completes though the service says nothing completes by
/// itself: it wants nothing on its way.
pub proof fn search_that_is_told_nothing_needs_nothing(c: SettingsView, g: Graph, w: Work)
    requires
        leads(c, silent(), g, complete(w)),
    ensures
        settles(c, g, complete(w)),
{
    let n = choose|n: nat| #[trigger] turns(c, silent(), g, n) == complete(w);
    lemma_silent(c, g, n);
    assert(steps(c, g, n) == complete(w));
}

/// Whatever the service, the search completes with just the packages that the
/// recursion finds, and it completes if and only if the recursion does.
pub proof fn search_finds_what_guess_graph_finds(
    c: SettingsView,
    s: Service,
    reqs: Seq<ReqView>,
    w: Work,
)
    ensures
        leads(c, s, start(reqs), complete(w)) <==> exists|depth: nat| #[trigger]
            guess_graph(c, s, reqs, nothing(), depth) == Outcome::Found(w),
{
    if leads(c, s, start(reqs), complete(w)) {
        let depth = lemma_end_has_depth(c, s, reqs, complete(w));
        lemma_found(c, s, reqs, depth);
        match guess_graph(c, s, reqs, nothing(), depth) {
            Outcome::Found(v) => {
                lemma_one_end(c, s, start(reqs), complete(w), complete(v));
                assert(v =~= work(complete(v)));
                assert(w =~= work(complete(w)));
            },
            Outcome::Failed(f) => {
                let h = choose|h: Graph| #[trigger]
                    leads(c, s, start(reqs), h) && h.phase == PhaseView::Failed(f);
                lemma_one_end(c, s, start(reqs), complete(w), h);
            },
            Outcome::Unfinished => {},
        }
    }
    if exists|depth: nat| #[trigger]
        guess_graph(c, s, reqs, nothing(), depth) == Outcome::Found(w) {
        let depth = choose|depth: nat| #[trigger]
            guess_graph(c, s, reqs, nothing(), depth) == Outcome::Found(w);
        lemma_found(c, s, reqs, depth);
    }
}

/// Whatever the service, the search fails if and only if the recursion does,
/// and for the same reason.
pub proof fn search_fails_as_guess_graph_fails(
    c: SettingsView,
    s: Service,
    reqs: Seq<ReqView>,
    f: FailureView,
)
    ensures
        (exists|h: Graph| #[trigger]
            leads(c, s, start(reqs), h) && h.phase == PhaseView::Failed(f)) <==> exists|
            depth: nat,
        | #[trigger]
            guess_graph(c, s, reqs, nothing(), depth) == Outcome::Failed(f),
{
    if exists|h: Graph| #[trigger]
        leads(c, s, start(reqs), h) && h.phase == PhaseView::Failed(f) {
        let h = choose|h: Graph| #[trigger]
            leads(c, s, start(reqs), h) && h.phase == PhaseView::Failed(f);
        let depth = lemma_end_has_depth(c, s, reqs, h);
        lemma_found(c, s, reqs, depth);
        match guess_graph(c, s, reqs, nothing(), depth) {
            Outcome::Found(v) => {
                lemma_one_end(c, s, start(reqs), h, complete(v));
            },
            Outcome::Failed(e) => {
                let d = choose|d: Graph| #[trigger]
                    leads(c, s, start(reqs), d) && d.phase == PhaseView::Failed(e);
                lemma_one_end(c, s, start(reqs), h, d);
            },
            Outcome::Unfinished => {},
        }
    }
    if exists|depth: nat| #[trigger]
        guess_graph(c, s, reqs, nothing(), depth) == Outcome::Failed(f) {
        let depth = choose|depth: nat| #[trigger]
            guess_graph(c, s, reqs, nothing(), depth) == Outcome::Failed(f);
        lemma_found(c, s, reqs, depth);
    }
}

proof fn lemma_steps_lead(c: SettingsView, s: Service, g: Graph, n: nat)
    ensures
        leads(c, s, g, steps(c, g, n)),
    decreases n,
{
    if n == 0 {
        lemma_leads_self(c, s, g);
    } else if settled(c, g) {
        assert(step(c, g) == g);
        lemma_steps_lead(c, s, g, (n - 1) as nat);
    } else {
        lemma_leads_turn(c, s, g);
        lemma_steps_lead(c, s, step(c, g), (n - 1) as nat);
        lemma_leads_on(c, s, g, step(c, g), steps(c, g, n));
    }
}

/// A search that is started and, whenever it wants something, is told what the
/// service says of it, goes the way that the service leads it.
pub proof fn told_search_is_led_by_service(
    c: SettingsView,
    s: Service,
    reqs: Seq<ReqView>,
    g: Graph,
    h: Graph,
)
    ensures
        settles(c, start(reqs), h) ==> leads(c, s, start(reqs), h),
        leads(c, s, start(reqs), g) && settled(c, g) && (match wants(c, g) {
            ActionView::Versions(name) => settles(
                c,
                told_versions(c, g, (s.versions)(name)),
                h,
            ),
            ActionView::Dependencies(packages) => settles(
                c,
                told_dependencies(c, g, (s.dependencies)(packages)),
                h,
            ),
            _ => false,
        }) ==> leads(c, s, start(reqs), h),
{
    if settles(c, start(reqs), h) {
        let n = choose|n: nat| #[trigger] steps(c, start(reqs), n) == h;
        lemma_steps_lead(c, s, start(reqs), n);
    }
    let t = turn(c, s, g);
    if leads(c, s, start(reqs), g) && settled(c, g) && settles(c, t, h) {
        let n = choose|n: nat| #[trigger] steps(c, t, n) == h;
        lemma_leads_turn(c, s, g);
        lemma_steps_lead(c, s, t, n);
        lemma_leads_on(c, s, start(reqs), g, t);
        lemma_leads_on(c, s, start(reqs), t, h);
    }
}

proof fn lemma_steps_settled(c: SettingsView, g: Graph, n: nat)
    requires
        settled(c, g),
    ensures
        steps(c, g, n) == g,
    decreases n,
{
    if n > 0 {
        assert(step(c, g) == g);
        lemma_steps_settled(c, g, (n - 1) as nat);
    }
}

proof fn lemma_steps_add(c: SettingsView, g: Graph, m: nat, n: nat)
    ensures
        steps(c, g, m + n) == steps(c, steps(c, g, m), n),
    decreases m,
{
    if m > 0 {
        lemma_steps_add(c, step(c, g), (m - 1) as nat, n);
    }
}

/// By itself a search comes to one state, and to no other.
pub proof fn search_settles_in_one_state(c: SettingsView, g: Graph, a: Graph, b: Graph)
    requires
        settles(c, g, a),
        settles(c, g, b),
    ensures
        a == b,
{
    let m = choose|m: nat| #[trigger] steps(c, g, m) == a;
    let n = choose|n: nat| #[trigger] steps(c, g, n) == b;
    if m <= n {
        lemma_steps_add(c, g, m, (n - m) as nat);
        lemma_steps_settled(c, a, (n - m) as nat);
    } else {
        lemma_steps_add(c, g, n, (m - n) as nat);
        lemma_steps_settled(c, b, (m - n) as nat);
    }
}

/// Whether all the requirements that the service ever names are among `all`.
pub open spec fn service_within(s: Service, all: Set<ReqView>) -> bool {
    forall|packages: Map<Seq<char>, Seq<Version>>|
        (#[trigger] (s.dependencies)(packages)) matches Some(data) ==> within(data, all)
}

/// The recursion ends within a depth that is greater than the number of
/// requirements that can still be searched for.
pub proof fn lemma_guess_ends(
    c: SettingsView,
    s: Service,
    reqs: Seq<ReqView>,
    w: Work,
    all: Set<ReqView>,
    depth: nat,
)
    requires
        all.finite(),
        within(all_lock_data(c), all),
        service_within(s, all),
        forall|i: int| 0 <= i < reqs.len() ==> all.contains(#[trigger] reqs[i]),
        unsearched(all, w.searched) < depth,
    ensures
        guess_graph(c, s, reqs, w, depth) !is Unfinished,
        guess_graph(c, s, reqs, w, depth) matches Outcome::Found(next) ==> unsearched(
            all,
            next.searched,
        ) <= unsearched(all, w.searched),
    decreases depth, 0nat,
{
    if !unclear(c, w.searched, reqs) {
        let selected = select(c, w.searched, reqs);
        lemma_select(c, w.searched, reqs);
        lemma_unsearched(all, w.searched, selected);
        if let Ok((vers, answer)) = fetch(s, unheld(c, selected), w.vers) {
            let data = answer + held_data(c, selected);
            lemma_held_within(c, selected, all);
            assert(within(answer, all));
            assert(within(data, all)) by {
                assert forall|i: int, r: ReqView|
                    0 <= i < data.len() && #[trigger] crate::pydeps::reqs_in(
                        data[i].requires_dist,
                    ).contains(r) implies all.contains(r) by {
                    if i < answer.len() {
                        assert(data[i] == answer[i]);
                    } else {
                        assert(data[i] == held_data(c, selected)[i - answer.len()]);
                    }
                }
            }
            let next = Work { vers, searched: w.searched + selected, ..w };
            lemma_visit_ends(c, s, selected, data, next, all, (depth - 1) as nat);
        }
    }
}

proof fn lemma_visit_ends(
    c: SettingsView,
    s: Service,
    todo: Seq<ReqView>,
    data: Seq<ReqCacheView>,
    w: Work,
    all: Set<ReqView>,
    depth: nat,
)
    requires
        all.finite(),
        within(all_lock_data(c), all),
        service_within(s, all),
        within(data, all),
        todo.len() > 0 ==> unsearched(all, w.searched) < depth,
    ensures
        visit(c, s, todo, data, w, depth) !is Unfinished,
        visit(c, s, todo, data, w, depth) matches Outcome::Found(next) ==> unsearched(
            all,
            next.searched,
        ) <= unsearched(all, w.searched),
    decreases depth, todo.len(),
{
    if todo.len() > 0 {
        lemma_choice_within(data, todo[0], all);
        if let Ok(dep) = choice(data, todo[0]) {
            let taken = Work { result: w.result.push(dep), ..w };
            lemma_guess_ends(c, s, dep.2, taken, all, depth);
            if let Outcome::Found(next) = guess_graph(c, s, dep.2, taken, depth) {
                lemma_visit_ends(c, s, todo.skip(1), data, next, all, depth);
            }
        }
    }
}

/// As long as only finitely many requirements are ever named, by the caller,
/// by the lock file and by the service, the search ends: no requirement is
/// searched for again, so that it cannot go round in circles.
pub proof fn search_ends(c: SettingsView, s: Service, reqs: Seq<ReqView>, all: Set<ReqView>)
    requires
        all.finite(),
        within(all_lock_data(c), all),
        service_within(s, all),
        forall|i: int| 0 <= i < reqs.len() ==> all.contains(#[trigger] reqs[i]),
    ensures
        exists|end: Graph| #[trigger] leads(c, s, start(reqs), end) && over(end),
{
    let depth = unsearched(all, nothing().searched) + 1;
    lemma_guess_ends(c, s, reqs, nothing(), all, depth);
    lemma_found(c, s, reqs, depth);
    if let Outcome::Found(w) = guess_graph(c, s, reqs, nothing(), depth) {
        assert(leads(c, s, start(reqs), complete(w)) && over(complete(w)));
    }
}

} // verus!
