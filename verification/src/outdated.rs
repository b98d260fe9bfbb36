//! The outdated-detection engine. For each component, the remote tag
//! listing is diffed against the ledger; versions never seen before are
//! recorded, and the component is reported as outdated exactly when the
//! greatest newly seen version exceeds the pinned one. A fetch failure is
//! confined to its component; a component whose remote versions are all
//! already on the ledger yields no report, whatever its pinned version.

use vstd::prelude::*;

use crate::component::{Component, Project};
use crate::store::{
    knows, lemma_filter_congruent, lemma_has_version_push, lemma_prefix_transitive, owners_of,
    Store,
};
use crate::tags::{remote_versions, str_views};
use crate::version::{
    has_version, lemma_cmp_equal_iff, lemma_cmp_flip, lemma_order_antisymmetric,
    lemma_order_total, lemma_order_transitive, version_le, version_lt, views_of, Version,
};

verus! {

/// Report for a component whose pinned version is exceeded by a version
/// that first became known this run.
#[derive(Debug)]
pub struct OutdatedComponent {
    pub name: String,
    pub latest_version: Version,
    pub current_version: Version,
    pub projects: Vec<Project>,
}

/// The mathematical image of a report.
pub ghost struct ReportView {
    pub name: Seq<char>,
    pub latest: Seq<u64>,
    pub current: Seq<u64>,
    pub projects: Seq<Seq<char>>,
}

impl View for OutdatedComponent {
    type V = ReportView;

    open spec fn view(&self) -> ReportView {
        ReportView {
            name: self.name@,
            latest: self.latest_version@,
            current: self.current_version@,
            projects: self.projects@.map_values(|p: Project| p.name@),
        }
    }
}

/// A source of raw remote tag listings for a component. Implementations
/// live outside the core; a failure is reported per component and must not
/// abort the run.
pub trait FetchVersions {
    type Error;

    fn fetch_versions(&mut self, component: &Component) -> Result<Vec<String>, Self::Error>;
}

/// A greatest element of a list of part sequences.
pub open spec fn is_max_of(vs: Seq<Seq<u64>>, m: Seq<u64>) -> bool {
    vs.contains(m) && forall|i: int| 0 <= i < vs.len() ==> version_le(#[trigger] vs[i], m)
}

/// The greatest element; by antisymmetry there is at most one.
pub open spec fn max_of(vs: Seq<Seq<u64>>) -> Seq<u64> {
    choose|m: Seq<u64>| is_max_of(vs, m)
}

pub proof fn lemma_max_exists(vs: Seq<Seq<u64>>)
    requires
        vs.len() > 0,
    ensures
        is_max_of(vs, max_of(vs)),
    decreases vs.len(),
{
    if vs.len() == 1 {
        lemma_cmp_equal_iff(vs[0], vs[0]);
        assert(vs.contains(vs[0]));
        assert(is_max_of(vs, vs[0]));
    } else {
        lemma_max_exists(vs.drop_last());
        let m = max_of(vs.drop_last());
        lemma_order_total(m, vs.last());
        let cand = if version_le(m, vs.last()) {
            vs.last()
        } else {
            m
        };
        assert(vs.drop_last().contains(m));
        let k = choose|k: int| 0 <= k < vs.drop_last().len() && vs.drop_last()[k] == m;
        assert(vs[k] == m);
        assert(vs.contains(cand));
        assert forall|i: int| 0 <= i < vs.len() implies version_le(#[trigger] vs[i], cand) by {
            lemma_cmp_equal_iff(cand, cand);
            if i < vs.len() - 1 {
                assert(vs.drop_last()[i] == vs[i]);
                if version_le(m, vs.last()) {
                    lemma_order_transitive(vs[i], m, vs.last());
                }
            } else {
                if !version_le(m, vs.last()) {
                    lemma_order_total(vs.last(), m);
                }
            }
        }
        assert(is_max_of(vs, cand));
    }
}

pub proof fn lemma_max_unique(vs: Seq<Seq<u64>>, m1: Seq<u64>, m2: Seq<u64>)
    requires
        is_max_of(vs, m1),
        is_max_of(vs, m2),
    ensures
        m1 == m2,
{
    let i = choose|i: int| 0 <= i < vs.len() && vs[i] == m1;
    let j = choose|j: int| 0 <= j < vs.len() && vs[j] == m2;
    assert(version_le(m1, m2));
    assert(version_le(m2, m1));
    lemma_order_antisymmetric(m1, m2);
}

proof fn lemma_has_version_contains(vs: Seq<Version>, v: Seq<u64>)
    ensures
        has_version(vs, v) <==> views_of(vs).contains(v),
{
    if has_version(vs, v) {
        let i = choose|i: int| 0 <= i < vs.len() && (#[trigger] vs[i])@ == v;
        assert(views_of(vs)[i] == v);
    }
    if views_of(vs).contains(v) {
        let i = choose|i: int| 0 <= i < views_of(vs).len() && views_of(vs)[i] == v;
        assert(vs[i]@ == v);
    }
}

/// The versions in a listing that the ledger does not know for a component.
pub open spec fn unknown_of(
    ledger: Seq<(i32, Version)>,
    id: i32,
    tags: Seq<Seq<char>>,
) -> Seq<Seq<u64>> {
    remote_versions(tags).filter(|v: Seq<u64>| !knows(ledger, id, v))
}

/// The report, if any, that one component yields from one fetched listing,
/// against the ledger as it stood when the component was taken up.
pub open spec fn component_outcome(store0: Store, c: Component, tags: Seq<Seq<char>>) -> Option<
    ReportView,
> {
    let unknown = unknown_of(store0.known@, c.id, tags);
    if unknown.len() > 0 && version_lt(c.current_version@, max_of(unknown)) {
        Some(
            ReportView {
                name: c.name@,
                latest: max_of(unknown),
                current: c.current_version@,
                projects: owners_of(store0.projects@, store0.project_components@, c.id),
            },
        )
    } else {
        None
    }
}

/// How one component's processing changes the ledger: exactly its unknown
/// remote versions are added under its id.
pub open spec fn ledger_after_component(
    ledger0: Seq<(i32, Version)>,
    ledger1: Seq<(i32, Version)>,
    c: Component,
    tags: Seq<Seq<char>>,
) -> bool {
    forall|id: i32, v: Seq<u64>|
        #[trigger] knows(ledger1, id, v) <==> knows(ledger0, id, v) || (id == c.id && unknown_of(
            ledger0,
            c.id,
            tags,
        ).contains(v))
}

/// The outcome of one component does not change when the ledger is swapped
/// for one that knows the same versions for that component.
proof fn lemma_outcome_congruent(s1: Store, s2: Store, c: Component, tags: Seq<Seq<char>>)
    requires
        forall|v: Seq<u64>| knows(s1.known@, c.id, v) <==> knows(s2.known@, c.id, v),
        s1.projects == s2.projects,
        s1.project_components == s2.project_components,
    ensures
        component_outcome(s1, c, tags) == component_outcome(s2, c, tags),
        unknown_of(s1.known@, c.id, tags) == unknown_of(s2.known@, c.id, tags),
{
    lemma_filter_congruent(
        remote_versions(tags),
        |v: Seq<u64>| !knows(s1.known@, c.id, v),
        |v: Seq<u64>| !knows(s2.known@, c.id, v),
    );
}

/// The remote versions a listing yields that are not yet on the ledger for
/// a component, in listing order.
pub fn unknown_versions(remote: &Vec<Version>, known: &Vec<Version>) -> (r: Vec<Version>)
    ensures
        views_of(r@) == views_of(remote@).filter(|v: Seq<u64>| !has_version(known@, v)),
{
    let ghost pred = |v: Seq<u64>| !has_version(known@, v);
    let ghost rv = views_of(remote@);
    let mut out: Vec<Version> = Vec::new();
    let mut i: usize = 0;
    proof {
        assert(rv.take(0) =~= Seq::<Seq<u64>>::empty());
        assert(views_of(out@) =~= rv.take(0).filter(pred));
    }
    while i < remote.len()
        invariant
            i <= remote@.len(),
            rv == views_of(remote@),
            pred == (|v: Seq<u64>| !has_version(known@, v)),
            views_of(out@) == rv.take(i as int).filter(pred),
        decreases remote@.len() - i,
    {
        let ghost prev = out@;
        let candidate = &remote[i];
        let mut seen: bool = false;
        let mut k: usize = 0;
        while k < known.len()
            invariant
                k <= known@.len(),
                seen ==> has_version(known@, candidate@),
                !seen ==> forall|j: int| 0 <= j < k ==> (#[trigger] known@[j])@ != candidate@,
                candidate == remote@[i as int],
                i < remote@.len(),
            decreases known@.len() - k,
        {
            if known[k] == *candidate {
                seen = true;
            }
            k = k + 1;
        }
        if !seen {
            out.push(candidate.clone());
        }
        proof {
            crate::store::lemma_filter_take_succ(rv, pred, i as int);
            assert(rv[i as int] == candidate@);
            assert(seen == has_version(known@, candidate@));
            if !seen {
                assert(views_of(out@) =~= views_of(prev).push(candidate@));
                assert(out@[out@.len() - 1]@ == remote@[i as int]@);
            }
            assert(views_of(out@) =~= rv.take(i as int + 1).filter(pred));
        }
        i = i + 1;
    }
    proof {
        assert(rv.take(rv.len() as int) =~= rv);
    }
    out
}

/// The greatest version in a list, by the version order; `None` exactly on
/// an empty list.
pub fn latest_version(vs: &Vec<Version>) -> (r: Option<Version>)
    ensures
        r is Some <==> vs@.len() > 0,
        r is Some ==> is_max_of(views_of(vs@), r->0@),
{
    if vs.len() == 0 {
        return None;
    }
    let mut best: Version = vs[0].clone();
    let mut i: usize = 1;
    proof {
        lemma_cmp_equal_iff(best@, best@);
        assert(views_of(vs@.take(1))[0] == vs@[0]@);
        assert(is_max_of(views_of(vs@.take(1)), best@));
    }
    while i < vs.len()
        invariant
            1 <= i <= vs@.len(),
            is_max_of(views_of(vs@.take(i as int)), best@),
        decreases vs@.len() - i,
    {
        let ghost old_best = best@;
        let ghost prefix = views_of(vs@.take(i as int));
        if best.lt(&vs[i]) {
            best = vs[i].clone();
        }
        proof {
            let next = views_of(vs@.take(i as int + 1));
            assert(next =~= prefix.push(vs@[i as int]@));
            lemma_cmp_flip(old_best, vs@[i as int]@);
            lemma_cmp_equal_iff(old_best, vs@[i as int]@);
            lemma_cmp_equal_iff(best@, best@);
            assert forall|k: int| 0 <= k < next.len() implies version_le(
                #[trigger] next[k],
                best@,
            ) by {
                if k < prefix.len() {
                    assert(prefix[k] == next[k]);
                    if version_lt(old_best, vs@[i as int]@) {
                        crate::version::lemma_le_lt_transitive(next[k], old_best, best@);
                    }
                } else {
                    assert(next[k] == vs@[i as int]@);
                }
            }
            let w = choose|w: int| 0 <= w < prefix.len() && prefix[w] == old_best;
            if version_lt(old_best, vs@[i as int]@) {
                assert(next[next.len() - 1] == best@);
            } else {
                assert(next[w] == best@);
            }
            assert(next.contains(best@));
        }
        i = i + 1;
    }
    proof {
        assert(vs@.take(vs@.len() as int) =~= vs@);
    }
    Some(best)
}

/// Processes one component: diffs its fetched listing against the ledger,
/// records every newly seen version, and reports the component when the
/// greatest newly seen version exceeds the pinned one. A fetch failure is
/// handed back and the ledger is untouched.
pub fn is_outdated<E>(store: &mut Store, component: &Component, fetched: Result<Vec<String>, E>)
    -> (r: Result<Option<OutdatedComponent>, E>)
    ensures
        final(store).components == old(store).components,
        final(store).projects == old(store).projects,
        final(store).project_components == old(store).project_components,
        old(store).known@.is_prefix_of(final(store).known@),
        r is Err <==> fetched is Err,
        fetched is Err ==> r->Err_0 == fetched->Err_0 && final(store).known == old(store).known,
        fetched is Ok ==> ledger_after_component(
            old(store).known@,
            final(store).known@,
            *component,
            str_views(fetched->Ok_0@),
        ),
        fetched is Ok ==> (match r->Ok_0 {
            Some(oc) => component_outcome(
                *old(store),
                *component,
                str_views(fetched->Ok_0@),
            ) == Some(oc@),
            None => component_outcome(
                *old(store),
                *component,
                str_views(fetched->Ok_0@),
            ) is None,
        }),
{
    match fetched {
        Err(e) => {
            proof {
                assert(old(store).known@.subrange(0, old(store).known@.len() as int)
                    =~= old(store).known@);
            }
            Err(e)
        },
        Ok(tags) => {
            let ghost tag_views = str_views(tags@);
            let ghost ledger0 = store.known@;
            let remote: Vec<Version> = crate::tags::versions_from_tags(&tags);
            let known: Vec<Version> = store.known_versions(component);
            let unknown: Vec<Version> = unknown_versions(&remote, &known);
            proof {
                lemma_filter_congruent(
                    remote_versions(tag_views),
                    |v: Seq<u64>| !has_version(known@, v),
                    |v: Seq<u64>| !knows(ledger0, component.id, v),
                );
                assert(views_of(unknown@) == unknown_of(ledger0, component.id, tag_views));
            }
            let mut j: usize = 0;
            proof {
                assert(ledger0.subrange(0, ledger0.len() as int) =~= ledger0);
            }
            while j < unknown.len()
                invariant
                    j <= unknown@.len(),
                    store.components == old(store).components,
                    store.projects == old(store).projects,
                    store.project_components == old(store).project_components,
                    ledger0 == old(store).known@,
                    ledger0.is_prefix_of(store.known@),
                    forall|id: i32, v: Seq<u64>|
                        #[trigger] knows(store.known@, id, v) <==> knows(ledger0, id, v) || (id
                            == component.id && has_version(unknown@.take(j as int), v)),
                decreases unknown@.len() - j,
            {
                let ghost mid = store.known@;
                store.add_known_version(component, &unknown[j]);
                proof {
                    lemma_prefix_transitive(ledger0, mid, store.known@);
                    assert(unknown@.take(j as int + 1) =~= unknown@.take(j as int).push(
                        unknown@[j as int],
                    ));
                    assert forall|id: i32, v: Seq<u64>| #[trigger] knows(store.known@, id, v)
                        <==> knows(ledger0, id, v) || (id == component.id && has_version(
                        unknown@.take(j as int + 1),
                        v,
                    )) by {
                        lemma_has_version_push(unknown@.take(j as int), unknown@[j as int], v);
                    }
                }
                j = j + 1;
            }
            proof {
                assert(unknown@.take(unknown@.len() as int) =~= unknown@);
                assert forall|id: i32, v: Seq<u64>| #[trigger] knows(store.known@, id, v) <==> knows(
                    ledger0,
                    id,
                    v,
                ) || (id == component.id && unknown_of(ledger0, component.id, tag_views).contains(
                    v,
                )) by {
                    lemma_has_version_contains(unknown@, v);
                }
            }
            let latest = match latest_version(&unknown) {
                None => {
                    return Ok(None);
                },
                Some(latest) => latest,
            };
            proof {
                lemma_max_exists(views_of(unknown@));
                lemma_max_unique(views_of(unknown@), latest@, max_of(views_of(unknown@)));
            }
            if component.current_version.lt(&latest) {
                let projects = store.projects_with(component.id);
                Ok(
                    Some(
                        OutdatedComponent {
                            name: component.name.clone(),
                            latest_version: latest,
                            current_version: component.current_version.clone(),
                            projects,
                        },
                    ),
                )
            } else {
                Ok(None)
            }
        },
    }
}

/// The error payload a fetch result carries, if any.
pub open spec fn err_of<E>(f: Result<Vec<String>, E>) -> Option<E> {
    if f is Err {
        Some(f->Err_0)
    } else {
        None
    }
}

/// The fetch errors of a run, in component order.
pub open spec fn run_errors<E>(fs: Seq<Result<Vec<String>, E>>) -> Seq<E> {
    fs.filter_map(|f: Result<Vec<String>, E>| err_of(f))
}

/// The reports of a run, in component order, each computed against the
/// ledger as it stood at the start of the run: component ids are unique,
/// so no component's processing can change another's outcome.
pub open spec fn run_reports<E>(
    store0: Store,
    cs: Seq<Component>,
    fs: Seq<Result<Vec<String>, E>>,
) -> Seq<ReportView>
    decreases cs.len(),
{
    if cs.len() == 0 {
        Seq::empty()
    } else {
        let rest = run_reports(store0, cs.drop_first(), fs.drop_first());
        if fs[0] is Ok {
            match component_outcome(store0, cs[0], str_views(fs[0]->Ok_0@)) {
                Some(o) => seq![o] + rest,
                None => rest,
            }
        } else {
            rest
        }
    }
}

/// What a whole run adds to the ledger: for each component whose fetch
/// succeeded, exactly its unknown remote versions, under its id.
pub open spec fn run_ledger<E>(
    ledger0: Seq<(i32, Version)>,
    ledger1: Seq<(i32, Version)>,
    cs: Seq<Component>,
    fs: Seq<Result<Vec<String>, E>>,
) -> bool {
    forall|id: i32, v: Seq<u64>|
        #[trigger] knows(ledger1, id, v) <==> knows(ledger0, id, v) || (exists|j: int|
            0 <= j < cs.len() && (#[trigger] cs[j]).id == id && fs[j] is Ok && unknown_of(
                ledger0,
                id,
                str_views(fs[j]->Ok_0@),
            ).contains(v))
}

/// One run over every component, with the fetch results supplied per
/// component in component order. Fetch errors are collected, not fatal:
/// each component is processed regardless of the others' failures. Returns
/// the reports and the errors, each in component order.
pub fn find_outdated<E>(store: &mut Store, fetched: Vec<Result<Vec<String>, E>>) -> (r: (
    Vec<OutdatedComponent>,
    Vec<E>,
))
    requires
        old(store).wf(),
        fetched@.len() == old(store).components@.len(),
    ensures
        final(store).components == old(store).components,
        final(store).projects == old(store).projects,
        final(store).project_components == old(store).project_components,
        final(store).wf(),
        old(store).known@.is_prefix_of(final(store).known@),
        run_ledger(old(store).known@, final(store).known@, old(store).components@, fetched@),
        r.0@.map_values(|oc: OutdatedComponent| oc@) == run_reports(
            *old(store),
            old(store).components@,
            fetched@,
        ),
        r.1@ == run_errors(fetched@),
{
    let ghost store0 = *store;
    let ghost cs = store.components@;
    let ghost fs = fetched@;
    let ghost err_fn = |f: Result<Vec<String>, E>| err_of::<E>(f);
    let mut rest = fetched;
    let mut reports: Vec<OutdatedComponent> = Vec::new();
    let mut errs: Vec<E> = Vec::new();
    let mut i: usize = 0;
    let n = store.components.len();
    proof {
        assert(fs.skip(0) =~= fs);
        assert(cs.skip(0) =~= cs);
        assert(reports@.map_values(|oc: OutdatedComponent| oc@) + run_reports(store0, cs, fs)
            =~= run_reports(store0, cs, fs));
        assert(fs.take(0) =~= Seq::<Result<Vec<String>, E>>::empty());
        assert(errs@ =~= fs.take(0).filter_map(err_fn));
        assert(store0.known@.subrange(0, store0.known@.len() as int) =~= store0.known@);
    }
    while i < n
        invariant
            i <= n,
            n == cs.len(),
            fs.len() == cs.len(),
            store0.wf(),
            cs == store0.components@,
            store.components == store0.components,
            store.projects == store0.projects,
            store.project_components == store0.project_components,
            rest@ == fs.skip(i as int),
            store0.known@.is_prefix_of(store.known@),
            err_fn == (|f: Result<Vec<String>, E>| err_of::<E>(f)),
            errs@ == fs.take(i as int).filter_map(err_fn),
            reports@.map_values(|oc: OutdatedComponent| oc@) + run_reports(
                store0,
                cs.skip(i as int),
                fs.skip(i as int),
            ) == run_reports(store0, cs, fs),
            forall|id: i32, v: Seq<u64>|
                #[trigger] knows(store.known@, id, v) <==> knows(store0.known@, id, v) || (
                exists|j: int|
                    0 <= j < i && (#[trigger] cs[j]).id == id && fs[j] is Ok && unknown_of(
                        store0.known@,
                        id,
                        str_views(fs[j]->Ok_0@),
                    ).contains(v)),
        decreases n - i,
    {
        let component = store.components[i].clone();
        proof {
            assert(fs.skip(i as int)[0] == fs[i as int]);
            assert(fs.skip(i as int).remove(0) =~= fs.skip(i as int + 1));
        }
        let f = rest.remove(0);
        let ghost pre = *store;
        proof {
            // The ids already processed are not this component's id, so the
            // ledger still knows exactly what the initial one knew for it.
            assert forall|v: Seq<u64>| knows(pre.known@, component.id, v) <==> knows(
                store0.known@,
                component.id,
                v,
            ) by {
                if knows(pre.known@, component.id, v) {
                    if !knows(store0.known@, component.id, v) {
                        let j = choose|j: int|
                            0 <= j < i && (#[trigger] cs[j]).id == component.id && fs[j] is Ok
                                && unknown_of(
                                store0.known@,
                                component.id,
                                str_views(fs[j]->Ok_0@),
                            ).contains(v);
                        assert(cs[j].id != cs[i as int].id);
                    }
                }
            }
        }
        let outcome = is_outdated(store, &component, f);
        proof {
            lemma_outcome_congruent(pre, store0, component, str_views(fs[i as int]->Ok_0@));
            assert(component_outcome(store0, component, str_views(fs[i as int]->Ok_0@))
                == component_outcome(store0, cs[i as int], str_views(fs[i as int]->Ok_0@)));
            lemma_prefix_transitive(store0.known@, pre.known@, store.known@);
            // Re-establish the ledger characterization with this component done.
            assert forall|id: i32, v: Seq<u64>| #[trigger] knows(store.known@, id, v) <==> knows(
                store0.known@,
                id,
                v,
            ) || (exists|j: int|
                0 <= j < i + 1 && (#[trigger] cs[j]).id == id && fs[j] is Ok && unknown_of(
                    store0.known@,
                    id,
                    str_views(fs[j]->Ok_0@),
                ).contains(v)) by {
                if fs[i as int] is Ok {
                    if knows(store.known@, id, v) {
                        if !knows(pre.known@, id, v) {
                            assert(id == component.id && unknown_of(
                                pre.known@,
                                component.id,
                                str_views(fs[i as int]->Ok_0@),
                            ).contains(v));
                            assert(cs[i as int].id == id && fs[i as int] is Ok && unknown_of(
                                store0.known@,
                                id,
                                str_views(fs[i as int]->Ok_0@),
                            ).contains(v));
                        } else if !knows(store0.known@, id, v) {
                            let j = choose|j: int|
                                0 <= j < i && (#[trigger] cs[j]).id == id && fs[j] is Ok
                                    && unknown_of(
                                    store0.known@,
                                    id,
                                    str_views(fs[j]->Ok_0@),
                                ).contains(v);
                            assert(0 <= j < i + 1 && cs[j].id == id && fs[j] is Ok);
                        }
                    } else {
                        assert(!knows(pre.known@, id, v));
                        assert(!knows(store0.known@, id, v));
                        if exists|j: int|
                            0 <= j < i + 1 && (#[trigger] cs[j]).id == id && fs[j] is Ok
                                && unknown_of(
                                store0.known@,
                                id,
                                str_views(fs[j]->Ok_0@),
                            ).contains(v) {
                            let j = choose|j: int|
                                0 <= j < i + 1 && (#[trigger] cs[j]).id == id && fs[j] is Ok
                                    && unknown_of(
                                    store0.known@,
                                    id,
                                    str_views(fs[j]->Ok_0@),
                                ).contains(v);
                            if j < i {
                                assert(knows(pre.known@, id, v));
                            } else {
                                assert(id == component.id);
                                assert(knows(store.known@, id, v));
                            }
                        }
                    }
                } else {
                    // Fetch failed: the ledger is unchanged, and no new
                    // disjunct can hold for this component.
                    assert(store.known@ == pre.known@);
                    if exists|j: int|
                        0 <= j < i + 1 && (#[trigger] cs[j]).id == id && fs[j] is Ok && unknown_of(
                            store0.known@,
                            id,
                            str_views(fs[j]->Ok_0@),
                        ).contains(v) {
                        let j = choose|j: int|
                            0 <= j < i + 1 && (#[trigger] cs[j]).id == id && fs[j] is Ok
                                && unknown_of(
                                store0.known@,
                                id,
                                str_views(fs[j]->Ok_0@),
                            ).contains(v);
                        assert(j < i);
                    }
                }
            }
            // Unfold the run model one component.
            assert(cs.skip(i as int)[0] == cs[i as int]);
            assert(cs.skip(i as int).drop_first() =~= cs.skip(i as int + 1));
            assert(fs.skip(i as int).drop_first() =~= fs.skip(i as int + 1));
            fs.lemma_filter_map_take_succ(err_fn, i as int);
        }
        let ghost prev_reports = reports@;
        let ghost prev_errs = errs@;
        match outcome {
            Ok(report) => {
                match report {
                    Some(oc) => {
                        reports.push(oc);
                        proof {
                            assert(reports@.map_values(|x: OutdatedComponent| x@)
                                =~= prev_reports.map_values(|x: OutdatedComponent| x@).push(
                                reports@.last()@,
                            ));
                            assert(prev_reports.map_values(|x: OutdatedComponent| x@).push(
                                reports@.last()@,
                            ) + run_reports(store0, cs.skip(i as int + 1), fs.skip(i as int + 1))
                                =~= prev_reports.map_values(|x: OutdatedComponent| x@) + (seq![
                                reports@.last()@,
                            ] + run_reports(store0, cs.skip(i as int + 1), fs.skip(i as int + 1))));
                        }
                    },
                    None => {},
                }
            },
            Err(e) => {
                errs.push(e);
                proof {
                    assert(errs@ =~= fs.take(i as int + 1).filter_map(err_fn));
                }
            },
        }
        proof {
            assert(fs.take(i as int + 1).filter_map(err_fn) == errs@);
        }
        i = i + 1;
    }
    proof {
        assert(cs.skip(n as int) =~= Seq::<Component>::empty());
        assert(fs.skip(n as int) =~= Seq::<Result<Vec<String>, E>>::empty());
        assert(reports@.map_values(|oc: OutdatedComponent| oc@) + run_reports(
            store0,
            cs.skip(n as int),
            fs.skip(n as int),
        ) =~= reports@.map_values(|oc: OutdatedComponent| oc@));
        assert(fs.take(n as int) =~= fs);
    }
    (reports, errs)
}

/// A source failure for one component cannot suppress another's report:
/// whenever a component's own fetch succeeded and its outcome is a report,
/// that report is in the run's output, whatever happened to the others.
pub proof fn lemma_component_isolation<E>(
    store0: Store,
    cs: Seq<Component>,
    fs: Seq<Result<Vec<String>, E>>,
    j: int,
)
    requires
        fs.len() == cs.len(),
        0 <= j < cs.len(),
        fs[j] is Ok,
        component_outcome(store0, cs[j], str_views(fs[j]->Ok_0@)) is Some,
    ensures
        run_reports(store0, cs, fs).contains(
            component_outcome(store0, cs[j], str_views(fs[j]->Ok_0@))->0,
        ),
    decreases cs.len(),
{
    let o = component_outcome(store0, cs[j], str_views(fs[j]->Ok_0@))->0;
    let rest = run_reports(store0, cs.drop_first(), fs.drop_first());
    if j == 0 {
        assert((seq![o] + rest)[0] == o);
    } else {
        assert(cs.drop_first()[j - 1] == cs[j]);
        assert(fs.drop_first()[j - 1] == fs[j]);
        lemma_component_isolation(store0, cs.drop_first(), fs.drop_first(), j - 1);
        let k = choose|k: int| 0 <= k < rest.len() && rest[k] == o;
        if fs[0] is Ok && component_outcome(store0, cs[0], str_views(fs[0]->Ok_0@)) is Some {
            let head = component_outcome(store0, cs[0], str_views(fs[0]->Ok_0@))->0;
            assert((seq![head] + rest)[k + 1] == o);
        }
    }
}

/// After a run has recorded a component's unknown versions, the ledger
/// knows every version its fetched listing denoted.
pub proof fn lemma_run_records_remote(
    ledger0: Seq<(i32, Version)>,
    ledger1: Seq<(i32, Version)>,
    c: Component,
    tags: Seq<Seq<char>>,
)
    requires
        ledger_after_component(ledger0, ledger1, c, tags),
    ensures
        forall|v: Seq<u64>|
            #[trigger] remote_versions(tags).contains(v) ==> knows(ledger1, c.id, v),
{
    assert forall|v: Seq<u64>| #[trigger] remote_versions(tags).contains(v) implies knows(
        ledger1,
        c.id,
        v,
    ) by {
        if !knows(ledger0, c.id, v) {
            let k = choose|k: int|
                0 <= k < remote_versions(tags).len() && remote_versions(tags)[k] == v;
            remote_versions(tags).lemma_filter_contains(
                |x: Seq<u64>| !knows(ledger0, c.id, x),
                k,
            );
            assert(unknown_of(ledger0, c.id, tags).contains(v));
        }
    }
}

/// A component is flagged only on the run in which a newer version first
/// appears: once the ledger knows every version a listing denotes, the
/// same listing yields no report, whatever the pinned version.
pub proof fn lemma_no_repeat_report(store1: Store, c: Component, tags: Seq<Seq<char>>)
    requires
        forall|v: Seq<u64>|
            #[trigger] remote_versions(tags).contains(v) ==> knows(store1.known@, c.id, v),
    ensures
        component_outcome(store1, c, tags) is None,
{
    let unknown = unknown_of(store1.known@, c.id, tags);
    if unknown.len() > 0 {
        remote_versions(tags).lemma_filter_pred(|x: Seq<u64>| !knows(store1.known@, c.id, x), 0);
        remote_versions(tags).lemma_filter_contains_rev(
            |x: Seq<u64>| !knows(store1.known@, c.id, x),
            unknown[0],
        );
        assert(unknown.contains(unknown[0]));
        assert(remote_versions(tags).contains(unknown[0]));
        assert(false);
    }
}

} // verus!
