//! An in-memory image of the persistent store: the tracked components, the
//! append-only ledger of versions already observed per component, and the
//! projects with their ownership links. The engine reads and grows this
//! image; loading it and persisting the growth is the caller's concern.

use vstd::prelude::*;

use crate::component::{Component, Project};
use crate::version::{has_version, views_of, Version};

verus! {

/// The store's records as plain values. Components are unique by id; the
/// ledger holds one entry per (component id, version) ever observed;
/// `projects` lists project ids and names, `project_components` the
/// (project id, component id) ownership links.
pub struct Store {
    pub components: Vec<Component>,
    pub known: Vec<(i32, Version)>,
    pub projects: Vec<(i32, String)>,
    pub project_components: Vec<(i32, i32)>,
}

/// Whether the ledger holds the given version for the given component id.
pub open spec fn knows(ledger: Seq<(i32, Version)>, id: i32, v: Seq<u64>) -> bool {
    exists|i: int| 0 <= i < ledger.len() && (#[trigger] ledger[i]).0 == id && ledger[i].1@ == v
}

/// Whether a project owns a component.
pub open spec fn owns(links: Seq<(i32, i32)>, project_id: i32, component_id: i32) -> bool {
    exists|i: int| 0 <= i < links.len() && #[trigger] links[i] == (project_id, component_id)
}

/// The names of the projects owning a component, in project-list order.
pub open spec fn owners_of(
    projects: Seq<(i32, String)>,
    links: Seq<(i32, i32)>,
    component_id: i32,
) -> Seq<Seq<char>> {
    projects.filter(|p: (i32, String)| owns(links, p.0, component_id)).map_values(
        |p: (i32, String)| p.1@,
    )
}

/// Filtering one more element keeps or drops it by the predicate.
pub proof fn lemma_filter_take_succ<A>(s: Seq<A>, pred: spec_fn(A) -> bool, i: int)
    requires
        0 <= i < s.len(),
    ensures
        s.take(i + 1).filter(pred) == if pred(s[i]) {
            s.take(i).filter(pred).push(s[i])
        } else {
            s.take(i).filter(pred)
        },
{
    assert(s.take(i + 1).drop_last() =~= s.take(i));
    assert(s.take(i + 1).last() == s[i]);
    reveal(Seq::filter);
}

/// Being a prefix is transitive.
pub proof fn lemma_prefix_transitive<A>(a: Seq<A>, b: Seq<A>, c: Seq<A>)
    requires
        a.is_prefix_of(b),
        b.is_prefix_of(c),
    ensures
        a.is_prefix_of(c),
{
    assert(a =~= c.subrange(0, a.len() as int));
}

/// Pointwise equal predicates filter a sequence identically.
pub proof fn lemma_filter_congruent<A>(s: Seq<A>, p: spec_fn(A) -> bool, q: spec_fn(A) -> bool)
    requires
        forall|x: A| #[trigger] p(x) == q(x),
    ensures
        s.filter(p) == s.filter(q),
    decreases s.len(),
{
    reveal(Seq::filter);
    if s.len() > 0 {
        lemma_filter_congruent(s.drop_last(), p, q);
    }
}

/// What the ledger knows after appending one entry.
proof fn lemma_knows_push(ledger: Seq<(i32, Version)>, e: (i32, Version), id: i32, v: Seq<u64>)
    ensures
        knows(ledger.push(e), id, v) <==> knows(ledger, id, v) || (e.0 == id && e.1@ == v),
{
    if knows(ledger, id, v) {
        let i = choose|i: int|
            0 <= i < ledger.len() && (#[trigger] ledger[i]).0 == id && ledger[i].1@ == v;
        assert(ledger.push(e)[i].0 == id && ledger.push(e)[i].1@ == v);
    }
    if e.0 == id && e.1@ == v {
        assert(ledger.push(e)[ledger.len() as int].0 == id && ledger.push(e)[
            ledger.len() as int
        ].1@ == v);
    }
    if knows(ledger.push(e), id, v) {
        let i = choose|i: int|
            0 <= i < ledger.push(e).len() && (#[trigger] ledger.push(e)[i]).0 == id && ledger.push(
                e,
            )[i].1@ == v;
        if i < ledger.len() {
            assert(ledger[i].0 == id && ledger[i].1@ == v);
        }
    }
}

/// What a version list holds after appending one version.
pub proof fn lemma_has_version_push(vs: Seq<Version>, w: Version, v: Seq<u64>)
    ensures
        has_version(vs.push(w), v) <==> has_version(vs, v) || w@ == v,
{
    if has_version(vs, v) {
        let i = choose|i: int| 0 <= i < vs.len() && (#[trigger] vs[i])@ == v;
        assert(vs.push(w)[i]@ == v);
    }
    if w@ == v {
        assert(vs.push(w)[vs.len() as int]@ == v);
    }
    if has_version(vs.push(w), v) {
        let i = choose|i: int| 0 <= i < vs.push(w).len() && (#[trigger] vs.push(w)[i])@ == v;
        if i < vs.len() {
            assert(vs[i]@ == v);
        }
    }
}

impl Store {
    /// Component ids are unique.
    pub open spec fn wf(&self) -> bool {
        forall|i: int, j: int|
            0 <= i < j < self.components@.len() ==> (#[trigger] self.components@[i]).id != (
            #[trigger] self.components@[j]).id
    }

    /// The tracked components.
    pub fn components(&self) -> (r: &Vec<Component>)
        ensures
            r == &self.components,
    {
        &self.components
    }

    /// Every version the ledger holds for a component, in ledger order.
    pub fn known_versions(&self, component: &Component) -> (r: Vec<Version>)
        ensures
            forall|v: Seq<u64>| has_version(r@, v) <==> knows(self.known@, component.id, v),
            views_of(r@) == self.known@.filter(
                |e: (i32, Version)| e.0 == component.id,
            ).map_values(|e: (i32, Version)| e.1@),
    {
        let ghost pred = |e: (i32, Version)| e.0 == component.id;
        let mut out: Vec<Version> = Vec::new();
        let mut i: usize = 0;
        proof {
            assert(self.known@.take(0) =~= Seq::<(i32, Version)>::empty());
            assert(views_of(out@) =~= self.known@.take(0).filter(pred).map_values(
                |e: (i32, Version)| e.1@,
            ));
        }
        while i < self.known.len()
            invariant
                i <= self.known@.len(),
                pred == (|e: (i32, Version)| e.0 == component.id),
                forall|v: Seq<u64>|
                    has_version(out@, v) <==> knows(self.known@.take(i as int), component.id, v),
                views_of(out@) == self.known@.take(i as int).filter(
                    pred,
                ).map_values(|e: (i32, Version)| e.1@),
            decreases self.known@.len() - i,
        {
            let ghost prev = out@;
            let entry = &self.known[i];
            if entry.0 == component.id {
                out.push(entry.1.clone());
            }
            proof {
                lemma_filter_take_succ(self.known@, pred, i as int);
                if pred(self.known@[i as int]) {
                    assert(views_of(out@) =~= views_of(prev).push(
                        self.known@[i as int].1@,
                    ));
                    assert(self.known@.take(i as int + 1).filter(pred).map_values(
                        |e: (i32, Version)| e.1@,
                    ) =~= self.known@.take(i as int).filter(pred).map_values(
                        |e: (i32, Version)| e.1@,
                    ).push(self.known@[i as int].1@));
                } else {
                    assert(views_of(out@) == self.known@.take(i as int + 1).filter(
                        pred,
                    ).map_values(|e: (i32, Version)| e.1@));
                }
                assert(self.known@.take(i as int + 1).drop_last() =~= self.known@.take(i as int));
                assert(self.known@.take(i as int + 1).last() == self.known@[i as int]);
                assert forall|v: Seq<u64>| has_version(out@, v) <==> knows(
                    self.known@.take(i as int + 1),
                    component.id,
                    v,
                ) by {
                    assert(self.known@.take(i as int + 1) =~= self.known@.take(i as int).push(
                        self.known@[i as int],
                    ));
                    lemma_knows_push(
                        self.known@.take(i as int),
                        self.known@[i as int],
                        component.id,
                        v,
                    );
                    if self.known@[i as int].0 == component.id {
                        lemma_has_version_push(prev, out@.last(), v);
                    }
                }
            }
            i = i + 1;
        }
        proof {
            assert(self.known@.take(self.known@.len() as int) =~= self.known@);
        }
        out
    }

    /// Records one observed version for a component; appends only, and a
    /// version already on the ledger is left as it is, so duplicate calls
    /// cannot corrupt the ledger.
    pub fn add_known_version(&mut self, component: &Component, version: &Version)
        ensures
            final(self).components == old(self).components,
            final(self).projects == old(self).projects,
            final(self).project_components == old(self).project_components,
            old(self).known@.is_prefix_of(final(self).known@),
            final(self).known@.len() <= old(self).known@.len() + 1,
            forall|id: i32, v: Seq<u64>|
                knows(final(self).known@, id, v) <==> knows(old(self).known@, id, v) || (id
                    == component.id && v == version@),
    {
        let mut i: usize = 0;
        while i < self.known.len()
            invariant
                i <= self.known@.len(),
                forall|j: int|
                    0 <= j < i ==> !((#[trigger] self.known@[j]).0 == component.id
                        && self.known@[j].1@ == version@),
            decreases self.known@.len() - i,
        {
            let entry = &self.known[i];
            if entry.0 == component.id && entry.1 == *version {
                proof {
                    assert(knows(self.known@, component.id, version@));
                    assert(old(self).known@.is_prefix_of(self.known@));
                }
                return ;
            }
            i = i + 1;
        }
        proof {
            assert(!knows(self.known@, component.id, version@));
        }
        let ghost prev = self.known@;
        self.known.push((component.id, version.clone()));
        proof {
            assert(prev.is_prefix_of(self.known@)) by {
                assert(self.known@.subrange(0, prev.len() as int) =~= prev);
            }
            assert forall|id: i32, v: Seq<u64>| knows(self.known@, id, v) <==> knows(
                prev,
                id,
                v,
            ) || (id == component.id && v == version@) by {
                lemma_knows_push(prev, self.known@.last(), id, v);
            }
        }
    }

    /// The projects owning a component, in project-list order.
    pub fn projects_with(&self, component_id: i32) -> (r: Vec<Project>)
        ensures
            r@.map_values(|p: Project| p.name@) == owners_of(
                self.projects@,
                self.project_components@,
                component_id,
            ),
    {
        let ghost pred = |p: (i32, String)| owns(self.project_components@, p.0, component_id);
        let mut out: Vec<Project> = Vec::new();
        let mut i: usize = 0;
        proof {
            assert(self.projects@.take(0) =~= Seq::<(i32, String)>::empty());
            assert(out@.map_values(|p: Project| p.name@) =~= self.projects@.take(0).filter(
                pred,
            ).map_values(|p: (i32, String)| p.1@));
        }
        while i < self.projects.len()
            invariant
                i <= self.projects@.len(),
                pred == (|p: (i32, String)| owns(self.project_components@, p.0, component_id)),
                out@.map_values(|p: Project| p.name@) == self.projects@.take(i as int).filter(
                    pred,
                ).map_values(|p: (i32, String)| p.1@),
            decreases self.projects@.len() - i,
        {
            let ghost prev = out@;
            let entry = &self.projects[i];
            let mut found: bool = false;
            let mut k: usize = 0;
            while k < self.project_components.len()
                invariant
                    k <= self.project_components@.len(),
                    found ==> owns(self.project_components@, entry.0, component_id),
                    !found ==> forall|j: int|
                        0 <= j < k ==> #[trigger] self.project_components@[j] != (
                        entry.0,
                        component_id,
                        ),
                    entry == self.projects@[i as int],
                    i < self.projects@.len(),
                decreases self.project_components@.len() - k,
            {
                let link = &self.project_components[k];
                if link.0 == entry.0 && link.1 == component_id {
                    found = true;
                }
                k = k + 1;
            }
            if found {
                out.push(Project { name: entry.1.clone() });
            }
            proof {
                lemma_filter_take_succ(self.projects@, pred, i as int);
                assert(found == pred(self.projects@[i as int]));
                if found {
                    assert(out@ =~= prev.push(Project { name: self.projects@[i as int].1 }));
                    assert(out@.map_values(|p: Project| p.name@) =~= prev.map_values(
                        |p: Project| p.name@,
                    ).push(self.projects@[i as int].1@));
                    assert(self.projects@.take(i as int + 1).filter(pred).map_values(
                        |p: (i32, String)| p.1@,
                    ) =~= self.projects@.take(i as int).filter(pred).map_values(
                        |p: (i32, String)| p.1@,
                    ).push(self.projects@[i as int].1@));
                } else {
                    assert(out@.map_values(|p: Project| p.name@) == self.projects@.take(
                        i as int + 1,
                    ).filter(pred).map_values(|p: (i32, String)| p.1@));
                }
            }
            i = i + 1;
        }
        proof {
            assert(self.projects@.take(self.projects@.len() as int) =~= self.projects@);
        }
        out
    }
}

} // verus!
