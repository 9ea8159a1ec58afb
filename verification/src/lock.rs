//! The requirements that the lock file answers, and its answers.

use crate::choice::{
    choice, meets, newest_package_is_taken, no_package_is_taken_without_data, DepView, FailureView,
};
use crate::constraint::{
    all_admit, is_compat, parse_constraint, parse_constraints, Constraint, ReqType,
};
use crate::pydeps::{reqs_in, ReqCache, ReqCacheView};
use crate::req::{is_name, name_char, parse_req, unbracketed, Req, ReqView};
use crate::settings::{LockPack, LockPackView, Settings, SettingsView};
use crate::text::{
    find, is_blank, is_digit, lemma_numeral_digits, lemma_span, lemma_split_none, lowercase,
    numeral, other_than, span, split, trim,
};
use crate::version::{parse_version, written, written_reads_back, Version};
use vstd::prelude::*;
use vstd::string::StringExecFns;

verus! {

/// Whether the lock file has a package of the name required in a version
/// that will do.
pub open spec fn is_locked(c: SettingsView, r: ReqView) -> bool {
    exists|i: int|
        0 <= i < c.locked.len() && (#[trigger] c.locked[i]).0 == r.name && all_admit(
            r.constraints,
            c.locked[i].1,
        )
}

/// Being answered by the lock file.
pub open spec fn by_lock(c: SettingsView) -> spec_fn(ReqView) -> bool {
    |r: ReqView| is_locked(c, r)
}

/// Not being answered by the lock file.
pub open spec fn not_by_lock(c: SettingsView) -> spec_fn(ReqView) -> bool {
    |r: ReqView| !is_locked(c, r)
}

/// The requirements that the lock file answers.
pub open spec fn held(c: SettingsView, reqs: Seq<ReqView>) -> Seq<ReqView> {
    reqs.filter(by_lock(c))
}

/// The requirements that the lock file does not answer.
pub open spec fn unheld(c: SettingsView, reqs: Seq<ReqView>) -> Seq<ReqView> {
    reqs.filter(not_by_lock(c))
}

/// Whether a package of the lock file is the one that a requirement names,
/// upper and lower case being the same. One that has just the name required
/// must be in a version that will do.
pub open spec fn corresponds(p: LockPackView, r: ReqView) -> bool {
    &&& lowercase(p.0) == lowercase(r.name)
    &&& p.0 == r.name ==> all_admit(r.constraints, p.1)
}

/// The first package of the lock file that a requirement names.
pub open spec fn first_lock(locked: Seq<LockPackView>, r: ReqView) -> Option<LockPackView>
    decreases locked.len(),
{
    if locked.len() == 0 {
        None
    } else if corresponds(locked[0], r) {
        Some(locked[0])
    } else {
        first_lock(locked.skip(1), r)
    }
}

/// Whether no two packages of a lock file have the same name, upper and lower
/// case being the same.
pub open spec fn distinct_names(locked: Seq<LockPackView>) -> bool {
    forall|i: int, j: int|
        0 <= i < locked.len() && 0 <= j < locked.len() && lowercase((#[trigger] locked[i]).0)
            == lowercase((#[trigger] locked[j]).0) ==> i == j
}

/// The requirement on a package in one version, as a text.
pub open spec fn exact_req(d: (Seq<char>, Version)) -> Seq<char> {
    d.0 + " (=="@ + written(d.1) + ")"@
}

/// What the lock file says of a package, in the form in which the dependency
/// service says it.
pub open spec fn lock_data(p: LockPackView) -> ReqCacheView {
    ReqCacheView {
        name: Some(p.0),
        version: written(p.1),
        requires_python: None,
        requires_dist: p.2.map_values(|d: (Seq<char>, Version)| exact_req(d)),
    }
}

/// The requirements of a package of the lock file, as far as they can be read.
pub open spec fn lock_reqs(p: LockPackView) -> Seq<ReqView> {
    reqs_in(lock_data(p).requires_dist)
}

/// What the lock file says of the packages required.
pub open spec fn held_data(c: SettingsView, reqs: Seq<ReqView>) -> Seq<ReqCacheView> {
    held(c, reqs).map_values(|r: ReqView| lock_data(first_lock(c.locked, r)->0))
}

/// Whether the lock file has a package of the name required in a version
/// that will do.
pub fn found_in_locked(settings: &Settings, req: &Req) -> (b: bool)
    ensures
        b == is_locked(settings.deep_view(), req.deep_view()),
{
    let ghost c = settings.deep_view();
    let mut i: usize = 0;
    while i < settings.locked.len()
        invariant
            i <= settings.locked@.len(),
            c == settings.deep_view(),
            forall|j: int|
                0 <= j < i ==> !((#[trigger] c.locked[j]).0 == req.name@ && all_admit(
                    req.constraints@,
                    c.locked[j].1,
                )),
        decreases settings.locked@.len() - i,
    {
        let pack = &settings.locked[i];
        proof {
            assert(c.locked[i as int].0 == pack.0@);
            assert(c.locked[i as int].1 == pack.1);
        }
        if pack.0 == req.name && is_compat(req.constraints.as_slice(), &pack.1) {
            return true;
        }
        i += 1;
    }
    false
}

/// The requirements that the lock file does not answer.
pub fn non_locked_reqs<'a>(settings: &Settings, reqs: &'a Vec<Req>) -> (out: Vec<&'a Req>)
    ensures
        out.deep_view() == unheld(settings.deep_view(), reqs.deep_view()),
{
    let ghost c = settings.deep_view();
    let ghost all = reqs.deep_view();
    let mut out: Vec<&'a Req> = Vec::new();
    let mut i: usize = 0;
    proof {
        reveal(Seq::filter);
        assert(out.deep_view() =~= unheld(c, all.take(0)));
    }
    while i < reqs.len()
        invariant
            i <= reqs@.len(),
            c == settings.deep_view(),
            all == reqs.deep_view(),
            out.deep_view() == unheld(c, all.take(i as int)),
        decreases reqs@.len() - i,
    {
        let r = &reqs[i];
        proof {
            reveal(Seq::filter);
            assert(all[i as int] == r.deep_view());
            assert(all.take(i + 1).drop_last() =~= all.take(i as int));
        }
        if !found_in_locked(settings, r) {
            let ghost before = out.deep_view();
            out.push(r);
            proof {
                assert(out.deep_view() =~= before.push(r.deep_view()));
            }
        }
        i += 1;
    }
    proof {
        assert(all.take(i as int) =~= all);
    }
    out
}

fn exact_req_text(name: &String, version: &Version) -> (s: String)
    ensures
        s@ == exact_req((name@, *version)),
{
    let mut s = name.clone();
    s.append(" (==");
    let v = version.to_string();
    s.append(v.as_str());
    s.append(")");
    s
}

fn lock_req_cache(pack: &LockPack) -> (r: ReqCache)
    ensures
        r.deep_view() == lock_data(pack.deep_view()),
{
    let mut requires_dist: Vec<String> = Vec::new();
    let mut i: usize = 0;
    while i < pack.2.len()
        invariant
            i <= pack.2@.len(),
            requires_dist@.len() == i,
            forall|j: int|
                0 <= j < i ==> (#[trigger] requires_dist@[j])@ == exact_req(
                    pack.2@[j].deep_view(),
                ),
        decreases pack.2@.len() - i,
    {
        requires_dist.push(exact_req_text(&pack.2[i].0, &pack.2[i].1));
        i += 1;
    }
    let r = ReqCache {
        name: Some(pack.0.clone()),
        version: pack.1.to_string(),
        requires_python: None,
        requires_dist,
    };
    proof {
        assert(r.deep_view().requires_dist =~= lock_data(pack.deep_view()).requires_dist);
    }
    r
}

/// A requirement that the lock file answers names a package of the lock file.
pub proof fn lemma_locked_found(c: SettingsView, r: ReqView)
    requires
        is_locked(c, r),
    ensures
        first_lock(c.locked, r) is Some,
{
    let i = choose|i: int|
        0 <= i < c.locked.len() && (#[trigger] c.locked[i]).0 == r.name && all_admit(
            r.constraints,
            c.locked[i].1,
        );
    lemma_first_lock(c.locked, r, i);
}

proof fn lemma_first_lock(locked: Seq<LockPackView>, r: ReqView, i: int)
    requires
        0 <= i < locked.len(),
        corresponds(locked[i], r),
    ensures
        first_lock(locked, r) is Some,
    decreases locked.len(),
{
    if !corresponds(locked[0], r) {
        assert(locked.skip(1)[i - 1] == locked[i]);
        lemma_first_lock(locked.skip(1), r, i - 1);
    }
}

fn find_lock<'a>(settings: &'a Settings, req: &Req) -> (p: Option<&'a LockPack>)
    ensures
        match p {
            Some(pack) => first_lock(settings.deep_view().locked, req.deep_view()) == Some(
                pack.deep_view(),
            ),
            None => first_lock(settings.deep_view().locked, req.deep_view()) is None,
        },
{
    let ghost locked = settings.deep_view().locked;
    let ghost r = req.deep_view();
    let name = req.name.as_str().to_lowercase();
    let mut i: usize = 0;
    proof {
        assert(locked.skip(0) =~= locked);
    }
    while i < settings.locked.len()
        invariant
            i <= settings.locked@.len(),
            locked == settings.deep_view().locked,
            r == req.deep_view(),
            name@ == lowercase(r.name),
            first_lock(locked, r) == first_lock(locked.skip(i as int), r),
        decreases settings.locked@.len() - i,
    {
        let pack = &settings.locked[i];
        proof {
            assert(locked[i as int] == pack.deep_view());
            assert(locked.skip(i as int)[0] == locked[i as int]);
            assert(locked.skip(i as int).skip(1) =~= locked.skip(i + 1));
        }
        if pack.0.as_str().to_lowercase() == name {
            if pack.0 != req.name || is_compat(req.constraints.as_slice(), &pack.1) {
                return Some(pack);
            }
        }
        i += 1;
    }
    None
}

/// Where the first package that a requirement names stands.
pub proof fn lemma_first_lock_at(locked: Seq<LockPackView>, r: ReqView, k: int)
    requires
        0 <= k < locked.len(),
        forall|j: int| 0 <= j < k ==> !corresponds(#[trigger] locked[j], r),
        corresponds(locked[k], r),
    ensures
        first_lock(locked, r) == Some(locked[k]),
    decreases locked.len(),
{
    if k > 0 {
        assert(!corresponds(locked[0], r));
        let rest = locked.skip(1);
        assert forall|j: int| 0 <= j < k - 1 implies !corresponds(#[trigger] rest[j], r) by {
            assert(rest[j] == locked[j + 1]);
        }
        lemma_first_lock_at(rest, r, k - 1);
    }
}

/// Puts what the lock file says of the packages required behind `data`.
pub fn add_locked(settings: &Settings, reqs: &Vec<Req>, data: &mut Vec<ReqCache>)
    ensures
        final(data).deep_view() == old(data).deep_view() + held_data(
            settings.deep_view(),
            reqs.deep_view(),
        ),
{
    let ghost c = settings.deep_view();
    let ghost all = reqs.deep_view();
    let ghost given = data.deep_view();
    let mut i: usize = 0;
    proof {
        reveal(Seq::filter);
        assert(given =~= given + held_data(c, all.take(0)));
    }
    while i < reqs.len()
        invariant
            i <= reqs@.len(),
            c == settings.deep_view(),
            all == reqs.deep_view(),
            data.deep_view() == given + held_data(c, all.take(i as int)),
        decreases reqs@.len() - i,
    {
        let r = &reqs[i];
        let ghost before = data.deep_view();
        proof {
            reveal(Seq::filter);
            assert(all[i as int] == r.deep_view());
            assert(all.take(i + 1).drop_last() =~= all.take(i as int));
        }
        if found_in_locked(settings, r) {
            proof {
                lemma_locked_found(c, r.deep_view());
            }
            let pack = find_lock(settings, r).unwrap();
            let entry = lock_req_cache(pack);
            let ghost view = entry.deep_view();
            data.push(entry);
            proof {
                assert(held_data(c, all.take(i + 1)) =~= held_data(c, all.take(i as int)).push(
                    view,
                ));
                assert(data.deep_view() =~= before.push(view));
                assert(before.push(view) =~= given + held_data(c, all.take(i as int)).push(view));
            }
        }
        i += 1;
    }
    proof {
        assert(all.take(i as int) =~= all);
    }
}

/// Every requirement is either answered by the lock file or asked about.
pub proof fn requirements_are_held_or_unheld(c: SettingsView, reqs: Seq<ReqView>)
    ensures
        held(c, reqs).len() + unheld(c, reqs).len() == reqs.len(),
        forall|r: ReqView| #[trigger]
            held(c, reqs).contains(r) <==> reqs.contains(r) && is_locked(c, r),
        forall|r: ReqView| #[trigger]
            unheld(c, reqs).contains(r) <==> reqs.contains(r) && !is_locked(c, r),
    decreases reqs.len(),
{
    reveal(Seq::filter);
    if reqs.len() > 0 {
        requirements_are_held_or_unheld(c, reqs.drop_last());
        let front = reqs.drop_last();
        let last = reqs.last();
        assert forall|r: ReqView| reqs.contains(r) <==> front.contains(r) || r == last by {
            if reqs.contains(r) {
                let i = reqs.index_of(r);
                if i < front.len() {
                    assert(front[i] == r);
                }
            }
            if front.contains(r) {
                let i = front.index_of(r);
                assert(reqs[i] == r);
            }
            assert(reqs[reqs.len() - 1] == last);
        }
        lemma_push_contains(held(c, front), last);
        lemma_push_contains(unheld(c, front), last);
    }
}

proof fn lemma_push_contains(s: Seq<ReqView>, x: ReqView)
    ensures
        forall|r: ReqView| #[trigger] s.push(x).contains(r) <==> s.contains(r) || r == x,
{
    assert forall|r: ReqView| #[trigger] s.push(x).contains(r) <==> s.contains(r) || r == x by {
        if s.contains(r) {
            let i = s.index_of(r);
            assert(s.push(x)[i] == r);
        }
        if s.push(x).contains(r) {
            let i = s.push(x).index_of(r);
            if i < s.len() {
                assert(s[i] == r);
            }
        }
        assert(s.push(x)[s.len() as int] == x);
    }
}

proof fn lemma_written_chars(v: Version)
    ensures
        written(v).len() > 0,
        forall|i: int|
            0 <= i < written(v).len() ==> is_digit(#[trigger] written(v)[i]) || written(v)[i]
                == '.',
{
    lemma_numeral_digits(v.major as nat);
    lemma_numeral_digits(v.minor as nat);
    lemma_numeral_digits(v.patch as nat);
    let (a, b, d) = (
        numeral(v.major as nat),
        numeral(v.minor as nat),
        numeral(v.patch as nat),
    );
    let s = written(v);
    assert forall|i: int| 0 <= i < s.len() implies is_digit(#[trigger] s[i]) || s[i] == '.' by {
        if i < a.len() {
            assert(s[i] == a[i]);
        } else if i > a.len() && i - a.len() - 1 < b.len() {
            assert(s[i] == b[i - a.len() - 1]);
        } else if i > a.len() + 1 + b.len() {
            assert(s[i] == d[i - a.len() - 1 - b.len() - 1]);
        }
    }
}

/// Nothing is trimmed off a text that neither begins nor ends with a blank.
proof fn lemma_trim_nothing(s: Seq<char>)
    requires
        s.len() > 0,
        !is_blank(s[0]),
        !is_blank(s.last()),
    ensures
        trim(s) == s,
{
    assert(s.skip(0) =~= s);
}

/// A comparison by `==` with a version written in full is read as such.
proof fn lemma_exact_constraint(v: Version)
    ensures
        parse_constraints(seq!['=', '='] + written(v)) == Some(
            seq![Constraint { type_: ReqType::Exact, version: v }],
        ),
{
    let text = written(v);
    let s = seq!['=', '='] + text;
    let c = Constraint { type_: ReqType::Exact, version: v };
    lemma_written_chars(v);
    assert(s.last() == text.last());
    assert(is_digit(text[0]) || text[0] == '.');
    assert(is_digit(text.last()) || text.last() == '.');
    lemma_trim_nothing(s);
    lemma_trim_nothing(text);
    written_reads_back(v);
    assert(s.skip(2) =~= text);
    assert(parse_constraint(s) == Some(c));
    assert forall|i: int| 0 <= i < s.len() implies s[i] != ',' by {
        if i >= 2 {
            assert(s[i] == text[i - 2]);
        }
    }
    lemma_split_none(s, ',');
    assert(split(s, ',')[0] == s);
    assert(parse_constraints(s)->0 =~= seq![c]);
}

/// The requirement on one version that a text was made for is read back from
/// the text.
pub proof fn exact_requirement_reads_back(d: (Seq<char>, Version))
    requires
        is_name(d.0),
    ensures
        parse_req(exact_req(d)) == Some(
            ReqView {
                name: d.0,
                constraints: seq![Constraint { type_: ReqType::Exact, version: d.1 }],
                extra: None,
                sys_platform: None,
                python_version: None,
            },
        ),
{
    let v = written(d.1);
    let s = exact_req(d);
    let n = d.0.len() as int;
    let tail = seq![' ', '(', '=', '='] + v + seq![')'];
    let part = seq!['(', '=', '='] + v + seq![')'];
    let inner = seq!['=', '='] + v;
    assert(s =~= d.0 + tail) by {
        reveal_strlit(" (==");
        reveal_strlit(")");
    }
    assert(span(s, name_char()) == n) by {
        lemma_span(s, name_char(), n);
    }
    assert(s.take(n) =~= d.0);
    assert(s.skip(n) =~= tail);
    assert(find(tail, ';') == tail.len()) by {
        lemma_written_chars(d.1);
        assert forall|i: int| 0 <= i < tail.len() implies other_than(';')(
            #[trigger] tail[i],
        ) by {
            if 4 <= i < 4 + v.len() {
                assert(tail[i] == v[i - 4]);
            }
        }
        lemma_span(tail, other_than(';'), tail.len() as int);
    }
    assert(tail.take(tail.len() as int) =~= tail);
    assert(trim(tail) == part) by {
        lemma_span(tail, |c: char| is_blank(c), 1);
        assert(tail.skip(1) =~= part);
    }
    assert(unbracketed(part) =~= inner);
    lemma_exact_constraint(d.1);
}

/// The requirements of a package of the lock file, once they are read: each
/// of the packages that it depends on, in the version that the file gives.
pub open spec fn exact_reqs(deps: Seq<(Seq<char>, Version)>) -> Seq<ReqView> {
    deps.map_values(
        |d: (Seq<char>, Version)|
            ReqView {
                name: d.0,
                constraints: seq![Constraint { type_: ReqType::Exact, version: d.1 }],
                extra: None,
                sys_platform: None,
                python_version: None,
            },
    )
}

/// What the lock file says of a package loses nothing by being put in the form
/// of the dependency service: version and requirements are read back.
pub proof fn lock_data_reads_back(p: LockPackView)
    requires
        forall|i: int| 0 <= i < p.2.len() ==> is_name((#[trigger] p.2[i]).0),
    ensures
        lock_data(p).name == Some(p.0),
        parse_version(lock_data(p).version) == Some(p.1),
        lock_reqs(p) == exact_reqs(p.2),
    decreases p.2.len(),
{
    written_reads_back(p.1);
    let texts = lock_data(p).requires_dist;
    if p.2.len() > 0 {
        let front = (p.0, p.1, p.2.drop_last());
        assert forall|i: int| 0 <= i < front.2.len() implies is_name((#[trigger] front.2[i]).0) by {
            assert(front.2[i] == p.2[i]);
        }
        lock_data_reads_back(front);
        assert(p.2.last() == p.2[p.2.len() - 1]);
        exact_requirement_reads_back(p.2.last());
        assert(texts.drop_last() =~= lock_data(front).requires_dist);
        assert(texts.last() == exact_req(p.2.last()));
        assert(exact_reqs(p.2) =~= exact_reqs(front.2).push(exact_reqs(p.2).last()));
        assert(reqs_in(texts) =~= reqs_in(texts.drop_last()).push(exact_reqs(p.2).last()));
    } else {
        assert(reqs_in(texts) =~= exact_reqs(p.2));
    }
}

/// If the lock file has one package by a name, whatever the case of its
/// letters, and that package meets a requirement, and the service says nothing
/// of a package by that name, then the package is taken for the requirement as
/// the lock file has it, with the requirements that can be read.
pub proof fn locked_package_is_taken(
    c: SettingsView,
    answer: Seq<ReqCacheView>,
    reqs: Seq<ReqView>,
    r: ReqView,
    k: int,
)
    requires
        0 <= k < c.locked.len(),
        c.locked[k].0 == r.name,
        all_admit(r.constraints, c.locked[k].1),
        forall|i: int|
            0 <= i < c.locked.len() && lowercase((#[trigger] c.locked[i]).0) == lowercase(r.name)
                ==> i == k,
        forall|i: int| 0 <= i < answer.len() ==> (#[trigger] answer[i]).name != Some(r.name),
        reqs.contains(r),
    ensures
        choice(answer + held_data(c, reqs), r) == Ok::<DepView, FailureView>(
            (r.name, c.locked[k].1, lock_reqs(c.locked[k])),
        ),
{
    let p = c.locked[k];
    let data = answer + held_data(c, reqs);
    let some = held(c, reqs);
    assert(is_locked(c, r));
    written_reads_back(p.1);
    requirements_are_held_or_unheld(c, reqs);
    lemma_first_lock_at(c.locked, r, k);
    assert(some.contains(r));
    let j = some.index_of(r);
    assert(data[answer.len() + j] == lock_data(p));
    // Under the name required the data say nothing but what the lock file says.
    assert forall|i: int| 0 <= i < data.len() && (#[trigger] data[i]).name == Some(
        r.name,
    ) implies data[i] == lock_data(p) by {
        if i >= answer.len() {
            let q = some[i - answer.len()];
            assert(some.contains(q));
            lemma_locked_found(c, q);
            let m = lemma_lock_place(c.locked, q);
            assert(data[i] == lock_data(c.locked[m]));
            assert(lowercase(c.locked[m].0) == lowercase(r.name));
        } else {
            assert(data[i] == answer[i]);
        }
    }
    no_package_is_taken_without_data(data, r);
    newest_package_is_taken(data, r);
    assert(choice(data, r) is Ok);
}

/// A requirement that the lock file answers is met: a package is taken for it,
/// also where the lock file has several packages of the name required. No name
/// in the lock file differs from it by the case of its letters alone, and the
/// service says nothing of a version of the package that cannot be read.
pub proof fn locked_requirement_is_met(
    c: SettingsView,
    answer: Seq<ReqCacheView>,
    reqs: Seq<ReqView>,
    r: ReqView,
)
    requires
        is_locked(c, r),
        reqs.contains(r),
        forall|i: int|
            0 <= i < c.locked.len() && lowercase((#[trigger] c.locked[i]).0) == lowercase(r.name)
                ==> c.locked[i].0 == r.name,
        forall|i: int|
            0 <= i < answer.len() && (#[trigger] answer[i]).name == Some(r.name)
                ==> parse_version(answer[i].version) is Some,
    ensures
        choice(answer + held_data(c, reqs), r) matches Ok(dep) && dep.0 == r.name && all_admit(
            r.constraints,
            dep.1,
        ),
{
    let data = answer + held_data(c, reqs);
    let some = held(c, reqs);
    requirements_are_held_or_unheld(c, reqs);
    assert(some.contains(r));
    let j = some.index_of(r);
    lemma_locked_found(c, r);
    let k = lemma_lock_place(c.locked, r);
    written_reads_back(c.locked[k].1);
    assert(data[answer.len() + j] == lock_data(c.locked[k]));
    assert(meets(data[answer.len() + j], r));
    assert forall|i: int| 0 <= i < data.len() && (#[trigger] data[i]).name == Some(
        r.name,
    ) implies parse_version(data[i].version) is Some by {
        if i >= answer.len() {
            let q = some[i - answer.len()];
            assert(some.contains(q));
            lemma_locked_found(c, q);
            let m = lemma_lock_place(c.locked, q);
            written_reads_back(c.locked[m].1);
            assert(data[i] == lock_data(c.locked[m]));
        } else {
            assert(data[i] == answer[i]);
        }
    }
    no_package_is_taken_without_data(data, r);
    newest_package_is_taken(data, r);
}

/// The place at which the package that a requirement names is found.
pub proof fn lemma_lock_place(locked: Seq<LockPackView>, r: ReqView) -> (k: int)
    requires
        first_lock(locked, r) is Some,
    ensures
        0 <= k < locked.len(),
        first_lock(locked, r) == Some(locked[k]),
        corresponds(locked[k], r),
    decreases locked.len(),
{
    if corresponds(locked[0], r) {
        0
    } else {
        let k = lemma_lock_place(locked.skip(1), r);
        k + 1
    }
}

/// Where no two packages of the lock file have the same name, what it says for
/// a requirement that it answers is what it says of the package required.
pub proof fn lemma_held_under_own_name(c: SettingsView, r: ReqView) -> (k: int)
    requires
        is_locked(c, r),
        distinct_names(c.locked),
    ensures
        0 <= k < c.locked.len(),
        c.locked[k].0 == r.name,
        all_admit(r.constraints, c.locked[k].1),
        first_lock(c.locked, r) == Some(c.locked[k]),
{
    let k = choose|i: int|
        0 <= i < c.locked.len() && (#[trigger] c.locked[i]).0 == r.name && all_admit(
            r.constraints,
            c.locked[i].1,
        );
    lemma_first_lock_at(c.locked, r, k);
    k
}

/// An empty lock file answers nothing; one more package in the lock file lets
/// it answer besides just those requirements that have its name and whose
/// constraints its version meets.
pub proof fn lock_file_answers_by_name_and_version(c: SettingsView, p: LockPackView, r: ReqView)
    ensures
        !is_locked(SettingsView { locked: seq![], ..c }, r),
        is_locked(SettingsView { locked: c.locked.push(p), ..c }, r) <==> is_locked(c, r) || p.0
            == r.name && all_admit(r.constraints, p.1),
{
    let d = SettingsView { locked: c.locked.push(p), ..c };
    if is_locked(c, r) {
        let i = choose|i: int|
            0 <= i < c.locked.len() && (#[trigger] c.locked[i]).0 == r.name && all_admit(
                r.constraints,
                c.locked[i].1,
            );
        assert(d.locked[i] == c.locked[i]);
    }
    if p.0 == r.name && all_admit(r.constraints, p.1) {
        assert(d.locked[c.locked.len() as int] == p);
    }
    if is_locked(d, r) {
        let i = choose|i: int|
            0 <= i < d.locked.len() && (#[trigger] d.locked[i]).0 == r.name && all_admit(
                r.constraints,
                d.locked[i].1,
            );
        if i < c.locked.len() {
            assert(c.locked[i] == d.locked[i]);
        }
    }
}

/// One more requirement at the end of a list is put behind those that the lock
/// file answers, or behind the others, and its answer behind the answers.
pub proof fn requirements_are_answered_one_by_one(c: SettingsView, reqs: Seq<ReqView>, r: ReqView)
    ensures
        held(c, seq![]).len() == 0 && unheld(c, seq![]).len() == 0,
        is_locked(c, r) ==> {
            &&& held(c, reqs.push(r)) == held(c, reqs).push(r)
            &&& unheld(c, reqs.push(r)) == unheld(c, reqs)
            &&& exists|k: int|
                0 <= k < c.locked.len() && first_lock(c.locked, r) == Some(#[trigger] c.locked[k])
                    && held_data(c, reqs.push(r)) == held_data(c, reqs).push(
                    lock_data(c.locked[k]),
                )
        },
        !is_locked(c, r) ==> {
            &&& held(c, reqs.push(r)) == held(c, reqs)
            &&& unheld(c, reqs.push(r)) == unheld(c, reqs).push(r)
            &&& held_data(c, reqs.push(r)) == held_data(c, reqs)
        },
{
    reveal(Seq::filter);
    assert(reqs.push(r).drop_last() =~= reqs);
    if is_locked(c, r) {
        lemma_locked_found(c, r);
        let k = lemma_lock_place(c.locked, r);
        assert(first_lock(c.locked, r) == Some(c.locked[k]));
        assert(held_data(c, reqs.push(r)) =~= held_data(c, reqs).push(lock_data(c.locked[k])));
    }
}

/// The package of the lock file that answers a requirement has the name
/// required, upper and lower case being the same; if it has just that name, its
/// version meets the constraints; and no package before it is such. If there is
/// none, no package of the lock file is such.
pub proof fn first_package_of_the_name_answers(locked: Seq<LockPackView>, r: ReqView)
    ensures
        match first_lock(locked, r) {
            Some(p) => exists|k: int|
                {
                    &&& 0 <= k < locked.len()
                    &&& #[trigger] locked[k] == p
                    &&& lowercase(p.0) == lowercase(r.name)
                    &&& p.0 == r.name ==> all_admit(r.constraints, p.1)
                    &&& forall|j: int|
                        0 <= j < k && lowercase((#[trigger] locked[j]).0) == lowercase(r.name)
                            ==> locked[j].0 == r.name && !all_admit(r.constraints, locked[j].1)
                },
            None => forall|j: int|
                0 <= j < locked.len() && lowercase((#[trigger] locked[j]).0) == lowercase(r.name)
                    ==> locked[j].0 == r.name && !all_admit(r.constraints, locked[j].1),
        },
    decreases locked.len(),
{
    if locked.len() > 0 {
        if corresponds(locked[0], r) {
            assert(locked[0] == first_lock(locked, r)->0);
        } else {
            let rest = locked.skip(1);
            first_package_of_the_name_answers(rest, r);
            if let Some(p) = first_lock(rest, r) {
                let k = choose|k: int|
                    {
                        &&& 0 <= k < rest.len()
                        &&& #[trigger] rest[k] == p
                        &&& lowercase(p.0) == lowercase(r.name)
                        &&& p.0 == r.name ==> all_admit(r.constraints, p.1)
                        &&& forall|j: int|
                            0 <= j < k && lowercase((#[trigger] rest[j]).0) == lowercase(r.name)
                                ==> rest[j].0 == r.name && !all_admit(r.constraints, rest[j].1)
                    };
                assert(locked[k + 1] == p);
                assert forall|j: int|
                    0 <= j < k + 1 && lowercase((#[trigger] locked[j]).0) == lowercase(
                        r.name,
                    ) implies locked[j].0 == r.name && !all_admit(r.constraints, locked[j].1) by {
                    if j > 0 {
                        assert(rest[j - 1] == locked[j]);
                    }
                }
            } else {
                assert forall|j: int|
                    0 <= j < locked.len() && lowercase((#[trigger] locked[j]).0) == lowercase(
                        r.name,
                    ) implies locked[j].0 == r.name && !all_admit(r.constraints, locked[j].1) by {
                    if j > 0 {
                        assert(rest[j - 1] == locked[j]);
                    }
                }
            }
        }
    }
}

/// A package of the lock file is put as the service would put it: its name, its
/// version in full, and for each package that it depends on a text of the name
/// and, in brackets, `==` and the version in full.
pub proof fn locked_packages_are_put_as_the_service_would(p: LockPackView)
    ensures
        lock_data(p).name == Some(p.0),
        lock_data(p).version == written(p.1),
        lock_data(p).requires_python is None,
        lock_data(p).requires_dist.len() == p.2.len(),
        forall|i: int|
            0 <= i < p.2.len() ==> #[trigger] lock_data(p).requires_dist[i] == p.2[i].0 + seq![
                ' ',
                '(',
                '=',
                '=',
            ] + written(p.2[i].1) + seq![')'],
{
    reveal_strlit(" (==");
    reveal_strlit(")");
    assert(" (=="@ =~= seq![' ', '(', '=', '=']);
    assert(")"@ =~= seq![')']);
}

} // verus!
