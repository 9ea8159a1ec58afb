//! The search for the graph of dependencies, as a machine that says what it
//! has to be told next.

use crate::choice::{choice, choose_dep, Dep, DepView, Failure, FailureView};
use crate::lock::{
    add_locked, held, held_data, is_locked, lock_data, non_locked_reqs,
    requirements_are_held_or_unheld, unheld,
};
use crate::pydeps::{
    best_for_one, best_version_for_each_requirement_is_asked_for, fetch_req_data,
    first_package_without_versions_is_asked_for, first_unknown, question,
    question_is_about_the_packages_required, reqs_in, ReqCache, ReqCacheView, ReqQuery,
    VersionInfo, VersionInfoView,
};
use crate::req::{Os, Req, ReqView};
use crate::select::{select, select_reqs, unclear};
use crate::settings::{LockPack, LockPackView, Settings, SettingsView};
use crate::table::Table;
use crate::version::Version;
use vstd::prelude::*;

verus! {

/// What the search is doing.
#[derive(Debug)]
enum Phase {
    /// Taking up a list of requirements.
    Enter(Vec<Req>),
    /// Gathering what is known of the packages required.
    Collect(Vec<Req>),
    /// Going through the requirements that were taken up.
    Walk,
    /// Nothing is left to do.
    Done,
    /// The search cannot go on.
    Failed(Failure),
}

/// What the search is doing.
pub enum PhaseView {
    Enter(Seq<ReqView>),
    Collect(Seq<ReqView>),
    Walk,
    Done,
    Failed(FailureView),
}

/// A list of requirements that was taken up, how far it was gone through, and
/// what is known of the packages required.
#[derive(Debug)]
struct Frame {
    reqs: Vec<Req>,
    next: usize,
    data: Vec<ReqCache>,
}

/// The requirements of a list that are still to be gone through, and what is
/// known of the packages required.
#[verifier::ext_equal]
pub struct FrameView {
    pub todo: Seq<ReqView>,
    pub data: Seq<ReqCacheView>,
}

/// The state of a search.
#[verifier::ext_equal]
pub struct Graph {
    /// The packages found, in the order in which they were.
    pub result: Seq<DepView>,
    /// What is known of the versions of packages.
    pub vers: Map<Seq<char>, VersionInfoView>,
    /// The requirements searched for.
    pub searched: Seq<ReqView>,
    /// The lists of requirements under way, the innermost one last.
    pub stack: Seq<FrameView>,
    pub phase: PhaseView,
}

/// What the search wants.
pub enum ActionView {
    /// The versions of a package.
    Versions(Seq<char>),
    /// The requirements of versions of packages.
    Dependencies(Map<Seq<char>, Seq<Version>>),
    /// Nothing: the graph is complete.
    Done,
    /// Nothing: the search has failed.
    Failed(FailureView),
}

/// What the search wants.
#[derive(Debug)]
pub enum Action<'a> {
    /// The versions of this package.
    Versions(String),
    /// The requirements of these versions of these packages.
    Dependencies(Table<Vec<Version>>),
    /// Nothing: the graph is complete.
    Done,
    /// Nothing: the search has failed.
    Failed(&'a Failure),
}

impl<'a> DeepView for Action<'a> {
    type V = ActionView;

    open spec fn deep_view(&self) -> ActionView {
        match self {
            Action::Versions(name) => ActionView::Versions(name@),
            Action::Dependencies(packages) => ActionView::Dependencies(packages@),
            Action::Done => ActionView::Done,
            Action::Failed(f) => ActionView::Failed(f.deep_view()),
        }
    }
}

/// The search for the packages that `reqs` lead to, before its first step.
pub open spec fn start(reqs: Seq<ReqView>) -> Graph {
    Graph {
        result: seq![],
        vers: Map::empty(),
        searched: seq![],
        stack: seq![],
        phase: PhaseView::Enter(reqs),
    }
}

/// Whether the search can do nothing by itself.
pub open spec fn settled(c: SettingsView, g: Graph) -> bool {
    match g.phase {
        PhaseView::Collect(reqs) => unheld(c, reqs).len() > 0,
        PhaseView::Done => true,
        PhaseView::Failed(_) => true,
        _ => false,
    }
}

/// What a search that can do nothing by itself wants.
pub open spec fn wants(c: SettingsView, g: Graph) -> ActionView {
    match g.phase {
        PhaseView::Collect(reqs) => match first_unknown(unheld(c, reqs), g.vers) {
            Some(name) => ActionView::Versions(name),
            None => ActionView::Dependencies(question(unheld(c, reqs), g.vers)),
        },
        PhaseView::Failed(f) => ActionView::Failed(f),
        _ => ActionView::Done,
    }
}

/// The search with the requirements gathered for, once the requirements of
/// the packages are known. What the lock file says comes last.
pub open spec fn gathered(c: SettingsView, g: Graph, answer: Seq<ReqCacheView>) -> Graph {
    let reqs = g.phase->Collect_0;
    Graph {
        stack: g.stack.push(FrameView { todo: reqs, data: answer + held_data(c, reqs) }),
        phase: PhaseView::Walk,
        ..g
    }
}

/// One step of the search by itself.
pub open spec fn step(c: SettingsView, g: Graph) -> Graph {
    match g.phase {
        PhaseView::Enter(reqs) => if unclear(c, g.searched, reqs) {
            Graph { phase: PhaseView::Failed(FailureView::Platform), ..g }
        } else {
            let selected = select(c, g.searched, reqs);
            Graph {
                searched: g.searched + selected,
                phase: PhaseView::Collect(selected),
                ..g
            }
        },
        PhaseView::Collect(reqs) => if unheld(c, reqs).len() == 0 {
            gathered(c, g, seq![])
        } else {
            g
        },
        PhaseView::Walk => if g.stack.len() == 0 {
            Graph { phase: PhaseView::Done, ..g }
        } else if g.stack.last().todo.len() == 0 {
            Graph { stack: g.stack.drop_last(), ..g }
        } else {
            let top = g.stack.last();
            match choice(top.data, top.todo[0]) {
                Err(f) => Graph { phase: PhaseView::Failed(f), ..g },
                Ok(dep) => Graph {
                    result: g.result.push(dep),
                    stack: g.stack.drop_last().push(
                        FrameView { todo: top.todo.skip(1), data: top.data },
                    ),
                    phase: PhaseView::Enter(dep.2),
                    ..g
                },
            }
        },
        PhaseView::Done => g,
        PhaseView::Failed(_) => g,
    }
}

/// Some steps of the search by itself.
pub open spec fn steps(c: SettingsView, g: Graph, n: nat) -> Graph
    decreases n,
{
    if n == 0 {
        g
    } else {
        steps(c, step(c, g), (n - 1) as nat)
    }
}

/// Whether the search comes from `g` to `h` by itself and then can do nothing
/// more by itself.
pub open spec fn settles(c: SettingsView, g: Graph, h: Graph) -> bool {
    settled(c, h) && exists|n: nat| #[trigger] steps(c, g, n) == h
}

/// The search that wanted the versions of a package, once it is told them, or
/// that there is nothing to be told.
pub open spec fn told_versions(
    c: SettingsView,
    g: Graph,
    info: Option<VersionInfoView>,
) -> Graph {
    let name = wants(c, g)->Versions_0;
    match info {
        Some(info) => Graph { vers: g.vers.insert(name, info), ..g },
        None => Graph { phase: PhaseView::Failed(FailureView::VersionInfo(name)), ..g },
    }
}

/// The search that wanted the requirements of packages, once it is told them,
/// or that there is nothing to be told.
pub open spec fn told_dependencies(
    c: SettingsView,
    g: Graph,
    answer: Option<Seq<ReqCacheView>>,
) -> Graph {
    match answer {
        Some(data) => gathered(c, g, data),
        None => Graph { phase: PhaseView::Failed(FailureView::DependencyData), ..g },
    }
}

/// The search for the graph of dependencies. It starts by assuming that the
/// newest package can be taken for each requirement.
#[derive(Debug)]
pub struct GuessGraph {
    settings: Settings,
    result: Vec<Dep>,
    vers_cache: Table<VersionInfo>,
    reqs_searched: Vec<Req>,
    stack: Vec<Frame>,
    phase: Phase,
}

impl DeepView for Phase {
    type V = PhaseView;

    closed spec fn deep_view(&self) -> PhaseView {
        match self {
            Phase::Enter(reqs) => PhaseView::Enter(reqs.deep_view()),
            Phase::Collect(reqs) => PhaseView::Collect(reqs.deep_view()),
            Phase::Walk => PhaseView::Walk,
            Phase::Done => PhaseView::Done,
            Phase::Failed(f) => PhaseView::Failed(f.deep_view()),
        }
    }
}

impl DeepView for Frame {
    type V = FrameView;

    closed spec fn deep_view(&self) -> FrameView {
        FrameView {
            todo: if self.next <= self.reqs@.len() {
                self.reqs.deep_view().skip(self.next as int)
            } else {
                seq![]
            },
            data: self.data.deep_view(),
        }
    }
}

impl View for GuessGraph {
    type V = Graph;

    closed spec fn view(&self) -> Graph {
        Graph {
            result: self.result.deep_view(),
            vers: self.vers_cache@,
            searched: self.reqs_searched.deep_view(),
            stack: self.stack.deep_view(),
            phase: self.phase.deep_view(),
        }
    }
}

/// All the requirements that some data hold.
pub open spec fn data_reqs(data: Seq<ReqCacheView>) -> Set<ReqView>
    decreases data.len(),
{
    if data.len() == 0 {
        Set::empty()
    } else {
        data_reqs(data.drop_last()).union(reqs_in(data.last().requires_dist).to_set())
    }
}

/// All the requirements that the data of some lists hold.
spec fn stack_reqs(stack: Seq<FrameView>) -> Set<ReqView>
    decreases stack.len(),
{
    if stack.len() == 0 {
        Set::empty()
    } else {
        stack_reqs(stack.drop_last()).union(data_reqs(stack.last().data))
    }
}

/// Whether all the requirements that some data hold are among `all`.
pub open spec fn within(data: Seq<ReqCacheView>, all: Set<ReqView>) -> bool {
    forall|i: int, r: ReqView|
        0 <= i < data.len() && #[trigger] reqs_in(data[i].requires_dist).contains(r)
            ==> all.contains(r)
}

/// Some data hold finitely many requirements.
pub proof fn lemma_data_reqs(data: Seq<ReqCacheView>)
    ensures
        data_reqs(data).finite(),
        within(data, data_reqs(data)),
    decreases data.len(),
{
    if data.len() > 0 {
        let front = data.drop_last();
        lemma_data_reqs(front);
        reqs_in(data.last().requires_dist).lemma_cardinality_of_set();
        assert forall|i: int, r: ReqView|
            0 <= i < data.len() && #[trigger] reqs_in(data[i].requires_dist).contains(
                r,
            ) implies data_reqs(data).contains(r) by {
            if i < front.len() {
                assert(front[i] == data[i]);
            }
        }
    }
}

proof fn lemma_stack_reqs(stack: Seq<FrameView>)
    ensures
        stack_reqs(stack).finite(),
        forall|i: int|
            0 <= i < stack.len() ==> within(#[trigger] stack[i].data, stack_reqs(stack)),
    decreases stack.len(),
{
    if stack.len() > 0 {
        let front = stack.drop_last();
        lemma_stack_reqs(front);
        lemma_data_reqs(stack.last().data);
        assert forall|i: int| 0 <= i < stack.len() implies within(
            #[trigger] stack[i].data,
            stack_reqs(stack),
        ) by {
            if i < front.len() {
                assert(front[i] == stack[i]);
            }
        }
    }
}

/// All that the lock file says, in the form in which the dependency service
/// says it.
pub open spec fn all_lock_data(c: SettingsView) -> Seq<ReqCacheView> {
    c.locked.map_values(|p: LockPackView| lock_data(p))
}

/// What the lock file says of the packages required is among all it says.
pub proof fn lemma_held_within(c: SettingsView, reqs: Seq<ReqView>, all: Set<ReqView>)
    requires
        within(all_lock_data(c), all),
    ensures
        within(held_data(c, reqs), all),
{
    let data = held_data(c, reqs);
    let some = held(c, reqs);
    assert forall|i: int, r: ReqView|
        0 <= i < data.len() && #[trigger] reqs_in(data[i].requires_dist).contains(r) implies all
        .contains(r) by {
        reqs.lemma_filter_pred(crate::lock::by_lock(c), i);
        crate::lock::lemma_locked_found(c, some[i]);
        let k = crate::lock::lemma_lock_place(c.locked, some[i]);
        assert(all_lock_data(c)[k] == data[i]);
    }
}

/// What is left to do before the search has to be told something.
spec fn weight(g: Graph) -> nat {
    stack_weight(g.stack) + match g.phase {
        PhaseView::Enter(_) => 4,
        PhaseView::Collect(reqs) => 4 * reqs.len() + 3,
        PhaseView::Walk => 1,
        _ => 0,
    }
}

spec fn stack_weight(stack: Seq<FrameView>) -> nat
    decreases stack.len(),
{
    if stack.len() == 0 {
        0
    } else {
        stack_weight(stack.drop_last()) + 4 * stack.last().todo.len() + 1
    }
}

/// How many of the requirements were not searched for yet.
pub open spec fn unsearched(all: Set<ReqView>, searched: Seq<ReqView>) -> nat {
    all.difference(searched.to_set()).len()
}

/// Searching for requirements never leaves more of them, and leaves fewer
/// where there was one that had not been searched for.
pub proof fn lemma_unsearched(all: Set<ReqView>, searched: Seq<ReqView>, more: Seq<ReqView>)
    requires
        all.finite(),
        forall|i: int|
            0 <= i < more.len() ==> all.contains(#[trigger] more[i]) && !searched.contains(
                more[i],
            ),
    ensures
        unsearched(all, searched + more) <= unsearched(all, searched),
        more.len() > 0 ==> unsearched(all, searched + more) < unsearched(all, searched),
{
    let before = all.difference(searched.to_set());
    let after = all.difference((searched + more).to_set());
    assert(after.subset_of(before)) by {
        assert forall|r: ReqView| after.contains(r) implies before.contains(r) by {
            if searched.contains(r) {
                let i = searched.index_of(r);
                assert((searched + more)[i] == r);
                assert((searched + more).contains(r));
            }
        }
    }
    vstd::set_lib::lemma_len_subset(after, before);
    if more.len() > 0 {
        let r = more[0];
        assert(before.contains(r));
        assert((searched + more)[searched.len() as int] == r);
        assert((searched + more).contains(r));
        assert(after.subset_of(before.remove(r)));
        vstd::set_lib::lemma_len_subset(after, before.remove(r));
    }
}

/// The requirements selected are among those given and were not searched for.
pub proof fn lemma_select(c: SettingsView, searched: Seq<ReqView>, reqs: Seq<ReqView>)
    ensures
        forall|i: int|
            0 <= i < select(c, searched, reqs).len() ==> reqs.contains(
                #[trigger] select(c, searched, reqs)[i],
            ) && !searched.contains(select(c, searched, reqs)[i]),
{
    let p = crate::select::wanted(c, searched);
    assert forall|i: int| 0 <= i < select(c, searched, reqs).len() implies reqs.contains(
        #[trigger] select(c, searched, reqs)[i],
    ) && !searched.contains(select(c, searched, reqs)[i]) by {
        reqs.lemma_filter_pred(p, i);
        assert(select(c, searched, reqs).contains(select(c, searched, reqs)[i]));
        reqs.lemma_filter_contains_rev(p, select(c, searched, reqs)[i]);
    }
}

/// The package taken for a requirement has the requirements of one of the
/// data.
pub proof fn lemma_choice_within(data: Seq<ReqCacheView>, r: ReqView, all: Set<ReqView>)
    requires
        within(data, all),
    ensures
        choice(data, r) matches Ok(dep) ==> forall|i: int|
            0 <= i < dep.2.len() ==> all.contains(#[trigger] dep.2[i]),
{
    if let Ok(dep) = choice(data, r) {
        let k = lemma_newest_place(data, r);
        assert forall|i: int| 0 <= i < dep.2.len() implies all.contains(#[trigger] dep.2[i]) by {
            assert(reqs_in(data[k].requires_dist).contains(dep.2[i]));
        }
    }
}

proof fn lemma_newest_place(data: Seq<ReqCacheView>, r: ReqView) -> (k: int)
    requires
        crate::choice::newest(data, r) is Some,
    ensures
        0 <= k < data.len(),
        crate::choice::newest(data, r) == Some(data[k]),
    decreases data.len(),
{
    if crate::choice::newest(data, r) == Some(data.last()) {
        data.len() - 1
    } else {
        lemma_newest_place(data.drop_last(), r)
    }
}

/// One step more.
proof fn lemma_steps_more(c: SettingsView, g: Graph, n: nat)
    ensures
        steps(c, g, n + 1) == step(c, steps(c, g, n)),
    decreases n,
{
    reveal_with_fuel(steps, 2);
    if n > 0 {
        lemma_steps_more(c, step(c, g), (n - 1) as nat);
    }
}

impl GuessGraph {
    /// What the search is made for.
    pub closed spec fn settings(self) -> SettingsView {
        self.settings.deep_view()
    }

    /// Starts the search for the packages that `reqs` lead to.
    pub fn new(
        reqs: Vec<Req>,
        locked: Vec<LockPack>,
        os: Os,
        extras: Vec<String>,
        py_vers: Version,
    ) -> (g: GuessGraph)
        ensures
            g.settings() == (SettingsView {
                locked: locked.deep_view(),
                os,
                extras: extras.deep_view(),
                py_vers,
            }),
            settles(g.settings(), start(reqs.deep_view()), g@),
    {
        let mut g = GuessGraph {
            settings: Settings { locked, os, extras, py_vers },
            result: Vec::new(),
            vers_cache: Table::new(),
            reqs_searched: Vec::new(),
            stack: Vec::new(),
            phase: Phase::Enter(reqs),
        };
        proof {
            assert(g@ =~= start(reqs.deep_view()));
        }
        g.run();
        g
    }

    /// The packages found.
    pub fn found(&self) -> (r: &Vec<Dep>)
        ensures
            r.deep_view() == self@.result,
    {
        &self.result
    }

    /// The requirements searched for.
    pub fn searched(&self) -> (r: &Vec<Req>)
        ensures
            r.deep_view() == self@.searched,
    {
        &self.reqs_searched
    }

    /// What is known of the versions of packages.
    pub fn known(&self) -> (r: &Table<VersionInfo>)
        ensures
            r@ == self@.vers,
    {
        &self.vers_cache
    }

    /// What the search wants.
    pub fn action(&self) -> (a: Action<'_>)
        requires
            settled(self.settings(), self@),
        ensures
            a.deep_view() == wants(self.settings(), self@),
    {
        match &self.phase {
            Phase::Collect(reqs) => {
                let open = non_locked_reqs(&self.settings, reqs);
                let open_reqs = open.as_slice();
                proof {
                    assert(open_reqs.deep_view() =~= open.deep_view());
                }
                match fetch_req_data(open_reqs, &self.vers_cache) {
                    ReqQuery::Versions(name) => Action::Versions(name),
                    ReqQuery::Packages(packages) => Action::Dependencies(packages),
                }
            },
            Phase::Failed(f) => Action::Failed(f),
            _ => Action::Done,
        }
    }

    /// Tells the search the versions of the package that it wants them of, or
    /// that there is nothing to tell, and lets it go on.
    pub fn versions(&mut self, info: Option<VersionInfo>)
        requires
            settled(old(self).settings(), old(self)@),
            wants(old(self).settings(), old(self)@) is Versions,
        ensures
            final(self).settings() == old(self).settings(),
            settles(
                old(self).settings(),
                told_versions(old(self).settings(), old(self)@, info.deep_view()),
                final(self)@,
            ),
    {
        let ghost c = self.settings();
        let ghost before = self@;
        let name = match self.action() {
            Action::Versions(name) => name,
            _ => String::new(),
        };
        match info {
            Some(info) => {
                self.vers_cache.insert(name, info);
            },
            None => {
                self.phase = Phase::Failed(Failure::VersionInfo(name));
            },
        }
        proof {
            assert(self@ =~= told_versions(c, before, info.deep_view()));
        }
        self.run();
    }

    /// Tells the search the requirements of the packages that it wants them
    /// of, or that there is nothing to tell, and lets it go on.
    pub fn dependencies(&mut self, answer: Option<Vec<ReqCache>>)
        requires
            settled(old(self).settings(), old(self)@),
            wants(old(self).settings(), old(self)@) is Dependencies,
        ensures
            final(self).settings() == old(self).settings(),
            settles(
                old(self).settings(),
                told_dependencies(old(self).settings(), old(self)@, answer.deep_view()),
                final(self)@,
            ),
    {
        let ghost c = self.settings();
        let ghost before = self@;
        match answer {
            Some(data) => {
                let mut phase = Phase::Walk;
                std::mem::swap(&mut phase, &mut self.phase);
                if let Phase::Collect(reqs) = phase {
                    self.gather(reqs, data);
                }
            },
            None => {
                self.phase = Phase::Failed(Failure::DependencyData);
            },
        }
        proof {
            assert(self@ =~= told_dependencies(c, before, answer.deep_view()));
        }
        self.run();
    }

    /// Puts the requirements gathered for on the stack.
    fn gather(&mut self, reqs: Vec<Req>, answer: Vec<ReqCache>)
        requires
            old(self)@.phase is Walk,
        ensures
            final(self).settings() == old(self).settings(),
            final(self)@ == gathered(
                old(self).settings(),
                Graph { phase: PhaseView::Collect(reqs.deep_view()), ..old(self)@ },
                answer.deep_view(),
            ),
    {
        let ghost before = self@;
        let ghost todo = reqs.deep_view();
        let mut data = answer;
        add_locked(&self.settings, &reqs, &mut data);
        let frame = Frame { reqs, next: 0, data };
        let ghost top = frame.deep_view();
        proof {
            assert(top.todo =~= todo);
        }
        self.stack.push(frame);
        proof {
            assert(self.stack.deep_view() =~= before.stack.push(top));
            assert(self@ =~= gathered(
                old(self).settings(),
                Graph { phase: PhaseView::Collect(todo), ..before },
                answer.deep_view(),
            ));
        }
    }

    /// Takes up a list of requirements.
    fn enter(&mut self, reqs: Vec<Req>)
        ensures
            final(self).settings() == old(self).settings(),
            final(self)@ == step(
                old(self).settings(),
                Graph { phase: PhaseView::Enter(reqs.deep_view()), ..old(self)@ },
            ),
    {
        let ghost before = self@;
        match select_reqs(&self.settings, &self.reqs_searched, &reqs) {
            Some(selected) => {
                let mut i: usize = 0;
                proof {
                    assert(before.searched =~= before.searched + selected.deep_view().take(0));
                }
                while i < selected.len()
                    invariant
                        i <= selected@.len(),
                        self.settings == old(self).settings,
                        self.result == old(self).result,
                        self.vers_cache == old(self).vers_cache,
                        self.stack == old(self).stack,
                        self.reqs_searched.deep_view() == before.searched
                            + selected.deep_view().take(i as int),
                    decreases selected@.len() - i,
                {
                    let ghost searched = self.reqs_searched.deep_view();
                    let copy = selected[i].clone();
                    let ghost view = copy.deep_view();
                    self.reqs_searched.push(copy);
                    proof {
                        assert(self.reqs_searched.deep_view() =~= searched.push(view));
                        assert(searched.push(view) =~= before.searched + selected.deep_view().take(
                            i + 1,
                        ));
                    }
                    i += 1;
                }
                proof {
                    assert(selected.deep_view().take(i as int) =~= selected.deep_view());
                }
                self.phase = Phase::Collect(selected);
            },
            None => {
                self.phase = Phase::Failed(Failure::Platform);
            },
        }
    }

    /// Goes one requirement further.
    fn walk(&mut self)
        requires
            old(self)@.phase is Walk,
        ensures
            final(self).settings() == old(self).settings(),
            final(self)@ == step(old(self).settings(), old(self)@),
    {
        let ghost c = self.settings();
        let ghost before = self@;
        let top = self.stack.pop();
        proof {
            if before.stack.len() > 0 {
                assert(self.stack.deep_view() =~= before.stack.drop_last());
            }
        }
        match top {
            None => {
                self.phase = Phase::Done;
            },
            Some(mut frame) => {
                let ghost last = frame.deep_view();
                proof {
                    assert(last == before.stack.last());
                }
                if frame.next >= frame.reqs.len() {
                    proof {
                        assert(last.todo.len() == 0);
                        assert(self@ =~= step(c, before));
                    }
                    return;
                }
                match choose_dep(&frame.data, &frame.reqs[frame.next]) {
                    Err(f) => {
                        self.stack.push(frame);
                        self.phase = Phase::Failed(f);
                        proof {
                            assert(self.stack.deep_view() =~= before.stack);
                            assert(self@ =~= step(c, before));
                        }
                    },
                    Ok(dep) => {
                        let reqs = copied_reqs(&dep.2);
                        let ghost view = dep.deep_view();
                        let ghost base = self.stack.deep_view();
                        frame.next = frame.next + 1;
                        proof {
                            assert(frame.deep_view().todo =~= last.todo.skip(1));
                            assert(frame.deep_view() =~= (FrameView {
                                todo: last.todo.skip(1),
                                data: last.data,
                            }));
                        }
                        let ghost new_top = frame.deep_view();
                        self.stack.push(frame);
                        self.result.push(dep);
                        self.phase = Phase::Enter(reqs);
                        proof {
                            assert(self.stack.deep_view() =~= base.push(new_top));
                            assert(self.result.deep_view() =~= before.result.push(view));
                            assert(self@ =~= step(c, before));
                        }
                    },
                }
            },
        }
    }

    /// Lets the search go on until it has to be told something.
    fn run(&mut self)
        ensures
            final(self).settings() == old(self).settings(),
            settles(old(self).settings(), old(self)@, final(self)@),
    {
        let ghost c = self.settings();
        let ghost from = self@;
        let ghost mut n: nat = 0;
        let ghost all = stack_reqs(from.stack).union(data_reqs(all_lock_data(c))).union(
            match from.phase {
                PhaseView::Enter(reqs) => reqs.to_set(),
                _ => Set::empty(),
            },
        );
        proof {
            lemma_stack_reqs(from.stack);
            lemma_data_reqs(all_lock_data(c));
            if let PhaseView::Enter(reqs) = from.phase {
                reqs.lemma_cardinality_of_set();
            }
            assert forall|i: int| 0 <= i < from.stack.len() implies within(
                #[trigger] from.stack[i].data,
                all,
            ) by {
                assert(within(from.stack[i].data, stack_reqs(from.stack)));
            }
            assert(within(all_lock_data(c), all)) by {
                assert(within(all_lock_data(c), data_reqs(all_lock_data(c))));
            }
        }
        loop
            invariant
                c == self.settings(),
                c == old(self).settings(),
                from == old(self)@,
                self@ == steps(c, from, n),
                all.finite(),
                within(all_lock_data(c), all),
                forall|i: int|
                    0 <= i < self@.stack.len() ==> within(#[trigger] self@.stack[i].data, all),
                self@.phase matches PhaseView::Enter(reqs) ==> forall|i: int|
                    0 <= i < reqs.len() ==> all.contains(#[trigger] reqs[i]),
            decreases unsearched(all, self@.searched), weight(self@),
        {
            let ghost g = self@;
            let mut phase = Phase::Walk;
            std::mem::swap(&mut phase, &mut self.phase);
            match phase {
                Phase::Enter(reqs) => {
                    self.enter(reqs);
                    proof {
                        assert(g == (Graph { phase: PhaseView::Enter(reqs.deep_view()), ..g }));
                        lemma_select(c, g.searched, reqs.deep_view());
                        if !unclear(c, g.searched, reqs.deep_view()) {
                            lemma_unsearched(
                                all,
                                g.searched,
                                select(c, g.searched, reqs.deep_view()),
                            );
                        }
                    }
                },
                Phase::Collect(reqs) => {
                    if non_locked_reqs(&self.settings, &reqs).len() > 0 {
                        self.phase = Phase::Collect(reqs);
                        return;
                    }
                    let none: Vec<ReqCache> = Vec::new();
                    proof {
                        assert(none.deep_view() =~= seq![]);
                        lemma_held_within(c, reqs.deep_view(), all);
                    }
                    self.gather(reqs, none);
                    proof {
                        assert(self@.stack.drop_last() =~= g.stack);
                    }
                },
                Phase::Walk => {
                    proof {
                        if g.stack.len() > 0 && g.stack.last().todo.len() > 0 {
                            lemma_choice_within(g.stack.last().data, g.stack.last().todo[0], all);
                        }
                    }
                    self.walk();
                    proof {
                        if g.stack.len() > 0 && g.stack.last().todo.len() > 0 {
                            assert(self@.stack.drop_last() =~= g.stack.drop_last());
                        }
                    }
                },
                Phase::Done => {
                    self.phase = Phase::Done;
                    return;
                },
                Phase::Failed(f) => {
                    self.phase = Phase::Failed(f);
                    return;
                },
            }
            proof {
                lemma_steps_more(c, from, n);
                n = n + 1;
            }
        }
    }
}

fn copied_reqs(reqs: &Vec<Req>) -> (out: Vec<Req>)
    ensures
        out.deep_view() == reqs.deep_view(),
{
    let mut out: Vec<Req> = Vec::new();
    let mut i: usize = 0;
    while i < reqs.len()
        invariant
            i <= reqs@.len(),
            out@.len() == i,
            forall|j: int|
                0 <= j < i ==> (#[trigger] out@[j]).deep_view() == reqs@[j].deep_view(),
        decreases reqs@.len() - i,
    {
        out.push(reqs[i].clone());
        i += 1;
    }
    proof {
        assert(out.deep_view() =~= reqs.deep_view());
    }
    out
}

/// If the lock file answers all the requirements of a list that stand, the
/// search goes on without being told anything, with what the lock file says.
pub proof fn locked_requirements_need_no_answer(c: SettingsView, g: Graph, reqs: Seq<ReqView>)
    requires
        g.phase == PhaseView::Enter(reqs),
        !unclear(c, g.searched, reqs),
        forall|r: ReqView| #[trigger]
            select(c, g.searched, reqs).contains(r) ==> is_locked(c, r),
    ensures
        !settled(c, g),
        !settled(c, step(c, g)),
        step(c, step(c, g)) == (Graph {
            searched: g.searched + select(c, g.searched, reqs),
            stack: g.stack.push(
                FrameView {
                    todo: select(c, g.searched, reqs),
                    data: held_data(c, select(c, g.searched, reqs)),
                },
            ),
            phase: PhaseView::Walk,
            ..g
        }),
{
    let selected = select(c, g.searched, reqs);
    requirements_are_held_or_unheld(c, selected);
    if unheld(c, selected).len() > 0 {
        assert(unheld(c, selected).contains(unheld(c, selected)[0]));
    }
    assert(seq![] + held_data(c, selected) =~= held_data(c, selected));
}

/// The versions of a package are asked for only while they are not known; once
/// told they are known, and what is known stays known.
pub proof fn versions_are_asked_for_once(c: SettingsView, g: Graph, info: VersionInfoView)
    ensures
        wants(c, g) matches ActionView::Versions(name) ==> !g.vers.dom().contains(name)
            && told_versions(c, g, Some(info)).vers == g.vers.insert(name, info),
        step(c, g).vers == g.vers,
        forall|answer: Option<Seq<ReqCacheView>>| #[trigger]
            told_dependencies(c, g, answer).vers == g.vers,
{
    if let PhaseView::Collect(reqs) = g.phase {
        lemma_first_unknown(unheld(c, reqs), g.vers);
    }
}

proof fn lemma_first_unknown(reqs: Seq<ReqView>, vers: Map<Seq<char>, VersionInfoView>)
    ensures
        first_unknown(reqs, vers) matches Some(name) ==> !vers.dom().contains(name),
    decreases reqs.len(),
{
    if reqs.len() > 0 {
        lemma_first_unknown(reqs.skip(1), vers);
    }
}

/// The search wants requirements only of packages that are required and that
/// the lock file does not answer, and of these just of the best version for
/// each requirement.
pub proof fn only_the_best_versions_are_asked_about(c: SettingsView, g: Graph)
    requires
        settled(c, g),
        wants(c, g) is Dependencies,
    ensures
        g.phase is Collect,
        forall|name: Seq<char>| #[trigger]
            (wants(c, g)->Dependencies_0).dom().contains(name) <==> exists|i: int|
                0 <= i < unheld(c, g.phase->Collect_0).len() && (#[trigger] unheld(
                    c,
                    g.phase->Collect_0,
                )[i]).name == name,
        forall|name: Seq<char>, v: Version|
            (wants(c, g)->Dependencies_0).dom().contains(name) ==> (#[trigger] (
            wants(c, g)->Dependencies_0)[name].contains(v) <==> best_for_one(
                unheld(c, g.phase->Collect_0),
                g.vers,
                name,
                v,
            )),
{
    let reqs = unheld(c, g.phase->Collect_0);
    question_is_about_the_packages_required(reqs, g.vers);
    assert forall|name: Seq<char>, v: Version|
        question(reqs, g.vers).dom().contains(name) implies (#[trigger] question(
        reqs,
        g.vers,
    )[name].contains(v) <==> best_for_one(reqs, g.vers, name, v)) by {
        best_version_for_each_requirement_is_asked_for(reqs, g.vers, name);
    }
}

/// Nothing that was found is lost or changed, and nothing that was searched
/// for is forgotten, whatever the search does or is told.
pub proof fn search_only_adds(
    c: SettingsView,
    g: Graph,
    info: Option<VersionInfoView>,
    answer: Option<Seq<ReqCacheView>>,
)
    ensures
        g.result.is_prefix_of(step(c, g).result),
        g.searched.is_prefix_of(step(c, g).searched),
        told_versions(c, g, info).result == g.result,
        told_versions(c, g, info).searched == g.searched,
        told_dependencies(c, g, answer).result == g.result,
        told_dependencies(c, g, answer).searched == g.searched,
{
}

/// A search starts with nothing found, known or searched for.
pub proof fn search_starts_with_nothing(reqs: Seq<ReqView>)
    ensures
        start(reqs).result.len() == 0,
        start(reqs).searched.len() == 0,
        start(reqs).vers.dom() == Set::<Seq<char>>::empty(),
        start(reqs).stack.len() == 0,
        start(reqs).phase == PhaseView::Enter(reqs),
{
    assert(start(reqs).vers.dom() =~= Set::<Seq<char>>::empty());
}

/// A search that can do nothing by itself either is complete, or has failed and
/// says why, or wants to know of packages that the lock file does not answer.
pub proof fn search_says_what_it_wants(c: SettingsView, g: Graph)
    requires
        settled(c, g),
    ensures
        wants(c, g) is Done <==> g.phase is Done,
        match g.phase {
            PhaseView::Failed(f) => wants(c, g) == ActionView::Failed(f),
            _ => !(wants(c, g) is Failed),
        },
        match g.phase {
            PhaseView::Collect(reqs) => unheld(c, reqs).len() > 0 && (wants(c, g) is Versions
                || wants(c, g) is Dependencies),
            _ => wants(c, g) is Done || wants(c, g) is Failed,
        },
        wants(c, g) matches ActionView::Versions(name) ==> !g.vers.dom().contains(name)
            && exists|i: int|
            0 <= i < unheld(c, g.phase->Collect_0).len() && (#[trigger] unheld(
                c,
                g.phase->Collect_0,
            )[i]).name == name,
        wants(c, g) is Dependencies ==> forall|i: int|
            0 <= i < unheld(c, g.phase->Collect_0).len() ==> g.vers.dom().contains(
                (#[trigger] unheld(c, g.phase->Collect_0)[i]).name,
            ),
{
    if g.phase is Collect {
        first_package_without_versions_is_asked_for(unheld(c, g.phase->Collect_0), g.vers);
    }
}

/// Once it is told the versions of a package, a search knows them as they were
/// told and is otherwise as it was; if there is nothing to tell, it has failed
/// for want of just that package.
pub proof fn versions_told_are_known(c: SettingsView, g: Graph, info: VersionInfoView)
    requires
        settled(c, g),
        wants(c, g) is Versions,
    ensures
        told_versions(c, g, Some(info)).vers == g.vers.insert(wants(c, g)->Versions_0, info),
        told_versions(c, g, Some(info)).result == g.result,
        told_versions(c, g, Some(info)).searched == g.searched,
        told_versions(c, g, Some(info)).stack == g.stack,
        told_versions(c, g, Some(info)).phase == g.phase,
        settles(
            c,
            told_versions(c, g, None),
            (Graph {
                phase: PhaseView::Failed(FailureView::VersionInfo(wants(c, g)->Versions_0)),
                ..g
            }),
        ),
{
    let h = told_versions(c, g, None);
    assert(steps(c, h, 0) == h);
}

/// Once it is told the requirements of packages, a search goes through the
/// requirements that it gathered for, with what it was told and what the lock
/// file says; if there is nothing to tell, it has failed.
pub proof fn requirements_told_are_gone_through(
    c: SettingsView,
    g: Graph,
    answer: Seq<ReqCacheView>,
)
    requires
        settled(c, g),
        wants(c, g) is Dependencies,
    ensures
        told_dependencies(c, g, Some(answer)).phase is Walk,
        told_dependencies(c, g, Some(answer)).stack.len() == g.stack.len() + 1,
        told_dependencies(c, g, Some(answer)).stack.drop_last() == g.stack,
        g.phase matches PhaseView::Collect(reqs) && told_dependencies(
            c,
            g,
            Some(answer),
        ).stack.last().todo == reqs && told_dependencies(c, g, Some(answer)).stack.last().data
            == answer + held_data(c, reqs),
        told_dependencies(c, g, Some(answer)).result == g.result,
        told_dependencies(c, g, Some(answer)).searched == g.searched,
        told_dependencies(c, g, Some(answer)).vers == g.vers,
        settles(
            c,
            told_dependencies(c, g, None),
            (Graph { phase: PhaseView::Failed(FailureView::DependencyData), ..g }),
        ),
{
    let h = told_dependencies(c, g, None);
    assert(steps(c, h, 0) == h);
    assert(told_dependencies(c, g, Some(answer)).stack.drop_last() =~= g.stack);
}

/// A search fails at once if it cannot be told which requirements of a list
/// stand, and if no package can be taken for the requirement that is next.
pub proof fn search_fails_at_once(c: SettingsView, g: Graph)
    ensures
        g.phase matches PhaseView::Enter(reqs) ==> unclear(c, g.searched, reqs) ==> settles(
            c,
            g,
            (Graph { phase: PhaseView::Failed(FailureView::Platform), ..g }),
        ),
        g.phase is Walk && g.stack.len() > 0 && g.stack.last().todo.len() > 0 ==> (choice(
            g.stack.last().data,
            g.stack.last().todo[0],
        ) matches Err(f) ==> settles(c, g, (Graph { phase: PhaseView::Failed(f), ..g }))),
{
    let h = step(c, g);
    reveal_with_fuel(steps, 2);
    assert(steps(c, g, 1) == h);
}

/// What a search wants is said as it is wanted.
pub proof fn actions_are_seen_whole(a: Action)
    ensures
        match a {
            Action::Versions(name) => a.deep_view() == ActionView::Versions(name@),
            Action::Dependencies(packages) => a.deep_view() == ActionView::Dependencies(packages@),
            Action::Done => a.deep_view() == ActionView::Done,
            Action::Failed(f) => a.deep_view() == ActionView::Failed(f.deep_view()),
        },
{
}

/// A search takes up a list of requirements by those that stand and were not
/// searched for, and notes them as searched for. It goes through them in turn,
/// with what was gathered for them: for each it finds the package taken, and
/// takes up the requirements of that package before it goes on. When all are
/// gone through it goes on with the list before, and with no list before it is
/// complete.
pub proof fn search_goes_depth_first(c: SettingsView, g: Graph)
    ensures
        g.phase matches PhaseView::Enter(reqs) ==> !unclear(c, g.searched, reqs) ==> {
            &&& step(c, g).searched == g.searched + select(c, g.searched, reqs)
            &&& step(c, g).phase == PhaseView::Collect(select(c, g.searched, reqs))
            &&& step(c, g).result == g.result
            &&& step(c, g).vers == g.vers
            &&& step(c, g).stack == g.stack
        },
        g.phase is Walk && g.stack.len() == 0 ==> step(c, g) == (Graph {
            phase: PhaseView::Done,
            ..g
        }),
        g.phase is Walk && g.stack.len() > 0 && g.stack.last().todo.len() == 0 ==> step(c, g) == (
        Graph { stack: g.stack.drop_last(), ..g }),
        g.phase is Walk && g.stack.len() > 0 && g.stack.last().todo.len() > 0 ==> (choice(
            g.stack.last().data,
            g.stack.last().todo[0],
        ) matches Ok(dep) ==> {
            &&& step(c, g).result == g.result.push(dep)
            &&& step(c, g).phase == PhaseView::Enter(dep.2)
            &&& step(c, g).stack.len() == g.stack.len()
            &&& step(c, g).stack.drop_last() == g.stack.drop_last()
            &&& step(c, g).stack.last().todo == g.stack.last().todo.skip(1)
            &&& step(c, g).stack.last().data == g.stack.last().data
            &&& step(c, g).searched == g.searched
            &&& step(c, g).vers == g.vers
        }),
{
    if g.phase is Walk && g.stack.len() > 0 && g.stack.last().todo.len() > 0 {
        assert(step(c, g).stack.drop_last() =~= g.stack.drop_last());
    }
}

} // verus!
