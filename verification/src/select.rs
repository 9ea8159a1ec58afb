//! Which requirements of a list stand and are still to be searched for.

use crate::constraint::{comparisons_go_by_the_order, ReqType};
use crate::req::{Req, ReqView};
use crate::settings::{Settings, SettingsView};
use crate::text::place_of;
use crate::version::rank;
use vstd::prelude::*;

verus! {

/// Whether a requirement is new and its extra, if any, is asked for.
pub open spec fn considered(c: SettingsView, searched: Seq<ReqView>, r: ReqView) -> bool {
    !searched.contains(r) && (r.extra matches Some(e) ==> c.extras.contains(e))
}

/// Whether the operating system is compared in a way that has no meaning.
pub open spec fn platform_unclear(r: ReqView) -> bool {
    r.sys_platform matches Some((t, _)) && t != ReqType::Exact && t != ReqType::Ne
}

/// Whether a requirement stands on the operating system.
pub open spec fn platform_fits(c: SettingsView, r: ReqView) -> bool {
    match r.sys_platform {
        Some((ReqType::Exact, os)) => os == c.os,
        Some((ReqType::Ne, os)) => os != c.os,
        Some(_) => false,
        None => true,
    }
}

/// Whether a requirement stands with the version of Python.
pub open spec fn python_fits(c: SettingsView, r: ReqView) -> bool {
    r.python_version matches Some(v) ==> v.admits(c.py_vers)
}

/// Being a requirement that stands and was not searched for before.
pub open spec fn wanted(c: SettingsView, searched: Seq<ReqView>) -> spec_fn(ReqView) -> bool {
    |r: ReqView| considered(c, searched, r) && platform_fits(c, r) && python_fits(c, r)
}

/// The requirements that stand and were not searched for before.
pub open spec fn select(c: SettingsView, searched: Seq<ReqView>, reqs: Seq<ReqView>) -> Seq<
    ReqView,
> {
    reqs.filter(wanted(c, searched))
}

/// Whether it cannot be told which of the requirements stand.
pub open spec fn unclear(c: SettingsView, searched: Seq<ReqView>, reqs: Seq<ReqView>) -> bool {
    exists|i: int|
        0 <= i < reqs.len() && considered(c, searched, #[trigger] reqs[i]) && platform_unclear(
            reqs[i],
        )
}

fn contains_req(reqs: &Vec<Req>, r: &Req) -> (b: bool)
    ensures
        b == reqs.deep_view().contains(r.deep_view()),
{
    let mut i: usize = 0;
    while i < reqs.len()
        invariant
            i <= reqs@.len(),
            forall|j: int| 0 <= j < i ==> reqs.deep_view()[j] != r.deep_view(),
        decreases reqs@.len() - i,
    {
        if reqs[i].same(r) {
            proof {
                assert(reqs.deep_view()[i as int] == r.deep_view());
            }
            return true;
        }
        i += 1;
    }
    false
}

fn contains_text(texts: &Vec<String>, s: &String) -> (b: bool)
    ensures
        b == texts.deep_view().contains(s@),
{
    match place_of(texts, s) {
        Some(i) => {
            proof {
                assert(texts.deep_view()[i as int] == s@);
            }
            true
        },
        None => {
            proof {
                if texts.deep_view().contains(s@) {
                    let j = texts.deep_view().index_of(s@);
                    assert(texts@[j]@ == s@);
                }
            }
            false
        },
    }
}

/// The requirements that stand and were not searched for before; `None` if
/// that cannot be told.
pub fn select_reqs(settings: &Settings, searched: &Vec<Req>, reqs: &Vec<Req>) -> (r: Option<
    Vec<Req>,
>)
    ensures
        match r {
            Some(out) => !unclear(
                settings.deep_view(),
                searched.deep_view(),
                reqs.deep_view(),
            ) && out.deep_view() == select(
                settings.deep_view(),
                searched.deep_view(),
                reqs.deep_view(),
            ),
            None => unclear(settings.deep_view(), searched.deep_view(), reqs.deep_view()),
        },
{
    let ghost c = settings.deep_view();
    let ghost seen = searched.deep_view();
    let ghost all = reqs.deep_view();
    let mut out: Vec<Req> = Vec::new();
    let mut i: usize = 0;
    proof {
        reveal(Seq::filter);
        assert(out.deep_view() =~= select(c, seen, all.take(0)));
    }
    while i < reqs.len()
        invariant
            i <= reqs@.len(),
            c == settings.deep_view(),
            seen == searched.deep_view(),
            all == reqs.deep_view(),
            out.deep_view() == select(c, seen, all.take(i as int)),
            !unclear(c, seen, all.take(i as int)),
        decreases reqs@.len() - i,
    {
        let r = &reqs[i];
        let ghost view = r.deep_view();
        proof {
            reveal(Seq::filter);
            assert(all[i as int] == view);
            assert(all.take(i + 1).drop_last() =~= all.take(i as int));
        }
        let considered = !contains_req(searched, r) && match &r.extra {
            Some(e) => contains_text(&settings.extras, e),
            None => true,
        };
        let stands = if considered {
            let platform = match r.sys_platform {
                Some((ReqType::Exact, os)) => os == settings.os,
                Some((ReqType::Ne, os)) => os != settings.os,
                Some(_) => {
                    return None;
                },
                None => true,
            };
            platform && match r.python_version {
                Some(v) => v.is_compatible(&settings.py_vers),
                None => true,
            }
        } else {
            false
        };
        if stands {
            let ghost before = out.deep_view();
            let copy = r.clone();
            out.push(copy);
            proof {
                assert(out.deep_view() =~= before.push(view));
            }
        }
        proof {
            assert forall|j: int|
                0 <= j < all.take(i + 1).len() implies !(crate::select::considered(
                c,
                seen,
                #[trigger] all.take(i + 1)[j],
            ) && platform_unclear(all.take(i + 1)[j])) by {
                if j < i {
                    assert(all.take(i + 1)[j] == all.take(i as int)[j]);
                }
            }
        }
        i += 1;
    }
    proof {
        assert(all.take(i as int) =~= all);
    }
    Some(out)
}

/// A list of requirements that was searched for once yields nothing more,
/// whatever else was searched for in between.
pub proof fn nothing_is_searched_for_again(
    c: SettingsView,
    searched: Seq<ReqView>,
    reqs: Seq<ReqView>,
    since: Seq<ReqView>,
)
    ensures
        select(c, searched + select(c, searched, reqs) + since, reqs).len() == 0,
{
    let selected = select(c, searched, reqs);
    let later = searched + selected + since;
    let again = select(c, later, reqs);
    if again.len() > 0 {
        let r = again[0];
        reqs.lemma_filter_pred(wanted(c, later), 0);
        assert(again.contains(r));
        reqs.lemma_filter_contains_rev(wanted(c, later), r);
        if searched.contains(r) {
            let i = searched.index_of(r);
            assert(later[i] == r);
        } else {
            let i = reqs.index_of(r);
            reqs.lemma_filter_contains(wanted(c, searched), i);
            let k = selected.index_of(r);
            assert(later[searched.len() + k] == r);
        }
        assert(later.contains(r));
    }
}

/// A requirement is selected exactly if it is in the list, was not searched
/// for, and stands: with its extra, on the operating system, and with the
/// version of Python.
pub proof fn selected_requirements_stand(
    c: SettingsView,
    searched: Seq<ReqView>,
    reqs: Seq<ReqView>,
    r: ReqView,
)
    ensures
        select(c, searched, reqs).contains(r) <==> {
            &&& reqs.contains(r)
            &&& !searched.contains(r)
            &&& (r.extra matches Some(e) ==> c.extras.contains(e))
            &&& platform_fits(c, r)
            &&& python_fits(c, r)
        },
{
    let p = wanted(c, searched);
    if select(c, searched, reqs).contains(r) {
        let i = select(c, searched, reqs).index_of(r);
        reqs.lemma_filter_pred(p, i);
        reqs.lemma_filter_contains_rev(p, r);
    }
    if reqs.contains(r) && p(r) {
        let i = reqs.index_of(r);
        reqs.lemma_filter_contains(p, i);
    }
}

/// A requirement of a list is selected exactly if it was not searched for, its
/// extra, if it has one, is asked for, the operating system is the one that it
/// names with `==` or another than the one that it names with `!=`, and the
/// version of Python compares with the one that it names as it says.
pub proof fn requirements_are_selected_by_extra_platform_and_python(
    c: SettingsView,
    searched: Seq<ReqView>,
    reqs: Seq<ReqView>,
    r: ReqView,
)
    ensures
        select(c, searched, reqs).contains(r) <==> {
            &&& reqs.contains(r)
            &&& !searched.contains(r)
            &&& match r.extra {
                Some(e) => c.extras.contains(e),
                None => true,
            }
            &&& match r.sys_platform {
                Some((t, os)) => t == ReqType::Exact && os == c.os || t == ReqType::Ne && os
                    != c.os,
                None => true,
            }
            &&& match r.python_version {
                Some(w) => match w.type_ {
                    ReqType::Exact => rank(c.py_vers) == rank(w.version),
                    ReqType::Ne => rank(c.py_vers) != rank(w.version),
                    ReqType::Gte => rank(c.py_vers) >= rank(w.version),
                    ReqType::Lte => rank(c.py_vers) <= rank(w.version),
                    ReqType::Gt => rank(c.py_vers) > rank(w.version),
                    ReqType::Lt => rank(c.py_vers) < rank(w.version),
                    ReqType::Caret => rank(c.py_vers) >= rank(w.version) && c.py_vers.major
                        == w.version.major,
                    ReqType::Tilde => rank(c.py_vers) >= rank(w.version) && c.py_vers.major
                        == w.version.major && c.py_vers.minor == w.version.minor,
                },
                None => true,
            }
        },
{
    selected_requirements_stand(c, searched, reqs, r);
    if let Some(w) = r.python_version {
        comparisons_go_by_the_order(w, c.py_vers);
    }
}

/// Requirements are selected one by one, in the order of the list: one more at
/// its end is put behind those selected, if it is selected from a list of its
/// own, and changes nothing otherwise.
pub proof fn requirements_are_selected_one_by_one(
    c: SettingsView,
    searched: Seq<ReqView>,
    reqs: Seq<ReqView>,
    r: ReqView,
)
    ensures
        select(c, searched, seq![]).len() == 0,
        select(c, searched, reqs.push(r)) == (if select(c, searched, seq![r]).contains(r) {
            select(c, searched, reqs).push(r)
        } else {
            select(c, searched, reqs)
        }),
{
    reveal(Seq::filter);
    selected_requirements_stand(c, searched, seq![r], r);
    assert(seq![r][0] == r);
    assert(reqs.push(r).drop_last() =~= reqs);
}

/// Which requirements stand cannot be told exactly if one of them, not searched
/// for and with its extra asked for if it has one, compares the operating
/// system otherwise than by `==` or `!=`.
pub proof fn platforms_are_compared_for_equality(
    c: SettingsView,
    searched: Seq<ReqView>,
    reqs: Seq<ReqView>,
)
    ensures
        unclear(c, searched, reqs) <==> exists|i: int|
            {
                &&& 0 <= i < reqs.len()
                &&& !searched.contains(#[trigger] reqs[i])
                &&& match reqs[i].extra {
                    Some(e) => c.extras.contains(e),
                    None => true,
                }
                &&& match reqs[i].sys_platform {
                    Some((t, _)) => t != ReqType::Exact && t != ReqType::Ne,
                    None => false,
                }
            },
{
    if unclear(c, searched, reqs) {
        let i = choose|i: int|
            0 <= i < reqs.len() && considered(c, searched, #[trigger] reqs[i])
                && platform_unclear(reqs[i]);
        assert(!searched.contains(reqs[i]));
    }
    if exists|i: int|
        {
            &&& 0 <= i < reqs.len()
            &&& !searched.contains(#[trigger] reqs[i])
            &&& match reqs[i].extra {
                Some(e) => c.extras.contains(e),
                None => true,
            }
            &&& match reqs[i].sys_platform {
                Some((t, _)) => t != ReqType::Exact && t != ReqType::Ne,
                None => false,
            }
        } {
        let i = choose|i: int|
            {
                &&& 0 <= i < reqs.len()
                &&& !searched.contains(#[trigger] reqs[i])
                &&& match reqs[i].extra {
                    Some(e) => c.extras.contains(e),
                    None => true,
                }
                &&& match reqs[i].sys_platform {
                    Some((t, _)) => t != ReqType::Exact && t != ReqType::Ne,
                    None => false,
                }
            };
        assert(considered(c, searched, reqs[i]) && platform_unclear(reqs[i]));
    }
}

} // verus!
