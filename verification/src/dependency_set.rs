//! A duplicate-free collection of functional dependencies, viewed as the set
//! of its (determinant, dependent) pairs.

use vstd::prelude::*;

use crate::attribute_set::AttributeSet;
use crate::attribute_set::lemma_to_set_push;
use crate::dependency::Dependency;
use crate::model;

verus! {

/// A set of functional dependencies.
pub struct DependencySet {
    pub deps: Vec<Dependency>,
}

impl View for DependencySet {
    type V = Set<(Set<Seq<u8>>, Set<Seq<u8>>)>;

    open spec fn view(&self) -> Set<(Set<Seq<u8>>, Set<Seq<u8>>)> {
        self.dep_views().to_set()
    }
}

impl DependencySet {
    /// The sequence of dependency views, in storage order.
    pub open spec fn dep_views(&self) -> Seq<(Set<Seq<u8>>, Set<Seq<u8>>)> {
        self.deps@.map_values(|d: Dependency| d@)
    }

    /// Well-formed: every stored dependency is well-formed and no two are
    /// equal as pairs of sets.
    pub open spec fn wf(&self) -> bool {
        (forall|i: int| 0 <= i < self.deps@.len() ==> (#[trigger] self.deps@[i]).wf())
            && self.dep_views().no_duplicates()
    }

    /// The empty dependency set.
    pub fn new() -> (r: DependencySet)
        ensures
            r.wf(),
            r@ == Set::<(Set<Seq<u8>>, Set<Seq<u8>>)>::empty(),
            r.deps@.len() == 0,
    {
        let r = DependencySet { deps: Vec::new() };
        assert(r@ =~= Set::<(Set<Seq<u8>>, Set<Seq<u8>>)>::empty());
        r
    }

    /// The stored dependencies.
    pub fn list(&self) -> (r: &Vec<Dependency>)
        ensures
            r == &self.deps,
    {
        &self.deps
    }

    /// How many dependencies the set holds.
    pub fn len(&self) -> (n: usize)
        ensures
            n == self.deps@.len(),
    {
        self.deps.len()
    }

    /// Whether the set holds a dependency relating the same sets.
    pub fn contains_dep(&self, d: &Dependency) -> (r: bool)
        ensures
            r == self@.contains(d@),
    {
        let n: usize = self.deps.len();
        let mut i: usize = 0;
        while i < n
            invariant
                n == self.deps@.len(),
                i <= n,
                forall|j: int| 0 <= j < i ==> self.dep_views()[j] != d@,
            decreases n - i,
        {
            if self.deps[i].dep_eq(d) {
                assert(self.dep_views()[i as int] == d@);
                assert(self.dep_views().contains(d@));
                return true;
            }
            i += 1;
        }
        assert(!self.dep_views().contains(d@));
        false
    }

    /// Adds a dependency; nothing changes when an equal one is present.
    pub fn insert(&mut self, d: Dependency)
        requires
            old(self).wf(),
            d.wf(),
        ensures
            final(self).wf(),
            final(self)@ == old(self)@.insert(d@),
    {
        if self.contains_dep(&d) {
            assert(final(self)@ =~= old(self)@.insert(d@));
        } else {
            let ghost pre = self.dep_views();
            self.deps.push(d);
            proof {
                assert(self.dep_views() =~= pre.push(d@));
                assert(!pre.contains(d@));
                assert(self.dep_views().no_duplicates());
                lemma_to_set_push(pre, d@);
                assert(self@ =~= old(self)@.insert(d@));
            }
        }
    }

    /// A fresh copy of this dependency set.
    pub fn duplicate(&self) -> (r: DependencySet)
        requires
            self.wf(),
        ensures
            r.wf(),
            r@ == self@,
            r.dep_views() == self.dep_views(),
    {
        let n: usize = self.deps.len();
        let mut deps: Vec<Dependency> = Vec::new();
        let mut i: usize = 0;
        while i < n
            invariant
                n == self.deps@.len(),
                i <= n,
                self.wf(),
                deps@.len() == i,
                forall|j: int| 0 <= j < i ==> (#[trigger] deps@[j])@ == self.deps@[j]@,
                forall|j: int| 0 <= j < i ==> (#[trigger] deps@[j]).wf(),
            decreases n - i,
        {
            deps.push(self.deps[i].duplicate());
            i += 1;
        }
        let r = DependencySet { deps };
        assert(r.dep_views() =~= self.dep_views());
        r
    }

    /// A minimal (canonical) cover of this dependency set: an equivalent
    /// rewrite from which no dependency, no dependent-side attribute and no
    /// determinant-side attribute can be removed without changing some
    /// closure. Trivial dependencies are dropped first; then union-rule
    /// merging and right- and left-hand-side reduction repeat to a fixpoint.
    pub fn minimal_cover(&self) -> (g: DependencySet)
        requires
            self.wf(),
        ensures
            g.wf(),
            model::equiv(g@, self@),
            model::reduced(g@),
    {
        let n: usize = self.deps.len();
        let mut cover = DependencySet::new();
        let mut i: usize = 0;
        while i < n
            invariant
                self.wf(),
                n == self.deps@.len(),
                i <= n,
                cover.wf(),
                cover@.subset_of(self@),
                forall|j: int|
                    0 <= j < i ==> (#[trigger] self.dep_views()[j]).1.subset_of(
                        model::closure_set(self.dep_views()[j].0, cover@),
                    ),
            decreases n - i,
        {
            let d = &self.deps[i];
            let ghost dv = self.dep_views()[i as int];
            let ghost pre = cover@;
            let trivial = d.left.set_eq(&d.right);
            if !trivial {
                cover.insert(d.duplicate());
            }
            proof {
                assert(dv == d@);
                assert(self.dep_views().contains(dv));
                assert(self@.contains(dv));
                assert forall|j: int| 0 <= j < i + 1 implies (
                #[trigger] self.dep_views()[j]).1.subset_of(
                    model::closure_set(self.dep_views()[j].0, cover@),
                ) by {
                    if j < i {
                        model::lemma_closure_monotone_deps(self.dep_views()[j].0, pre, cover@);
                    } else {
                        if trivial {
                            model::lemma_closure_reflexive(dv.0, cover@);
                        } else {
                            assert(cover@.contains(dv));
                            model::lemma_member_dependency(dv, cover@);
                        }
                    }
                }
            }
            i += 1;
        }
        proof {
            assert forall|e: (Set<Seq<u8>>, Set<Seq<u8>>)| #[trigger]
                cover@.contains(e) implies e.1.subset_of(model::closure_set(e.0, self@)) by {
                model::lemma_member_dependency(e, self@);
            }
            assert forall|e: (Set<Seq<u8>>, Set<Seq<u8>>)| #[trigger]
                self@.contains(e) implies e.1.subset_of(model::closure_set(e.0, cover@)) by {
                let j = choose|j: int|
                    0 <= j < self.dep_views().len() && self.dep_views()[j] == e;
                assert(self.dep_views()[j].1.subset_of(
                    model::closure_set(self.dep_views()[j].0, cover@),
                ));
            }
            model::lemma_mutually_implied_equiv(cover@, self@);
        }
        loop
            invariant
                self.wf(),
                cover.wf(),
                model::equiv(cover@, self@),
            decreases crate::cover::cover_measure(cover.dep_views()),
        {
            let ghost m0 = crate::cover::cover_measure(cover.dep_views());
            let pre_len: usize = cover.deps.len();
            let merged = crate::cover::union_merge(&cover);
            let mchanged = merged.deps.len() < pre_len;
            let (next, rchanged) = crate::cover::reduce_pass(&merged);
            proof {
                model::lemma_equiv_transitive(next@, merged@, cover@);
                model::lemma_equiv_transitive(next@, cover@, self@);
            }
            if !mchanged && !rchanged {
                proof {
                    assert forall|d1: (Set<Seq<u8>>, Set<Seq<u8>>), d2: (Set<Seq<u8>>, Set<Seq<u8>>)|
                        next@.contains(d1) && next@.contains(d2) && d1.0 == d2.0 implies d1
                        == d2 by {
                        let p = choose|p: int|
                            0 <= p < next.dep_views().len() && next.dep_views()[p] == d1;
                        let q = choose|q: int|
                            0 <= q < next.dep_views().len() && next.dep_views()[q] == d2;
                        if p < q {
                            assert(merged.dep_views()[p].0 != merged.dep_views()[q].0);
                        }
                        if q < p {
                            assert(merged.dep_views()[q].0 != merged.dep_views()[p].0);
                        }
                    }
                    assert(model::reduced(next@));
                }
                return next;
            }
            proof {
                assert(crate::cover::cover_measure(next.dep_views()) < m0);
            }
            cover = next;
        }
    }

    /// Every candidate key of the attribute universe `attributes` under this
    /// dependency set: each returned set is minimal with a closure covering
    /// the whole universe, and no two returned sets are equal. The search
    /// seeds with a minimised determinant of the whole universe and expands
    /// each found key through every dependency, keeping only undominated,
    /// minimised candidates.
    #[verifier::rlimit(100)]
    #[verifier::spinoff_prover]
    pub fn candidate_keys(&self, attributes: &AttributeSet) -> (keys: Vec<AttributeSet>)
        requires
            self.wf(),
            attributes.wf(),
            model::attrs_of(self@).subset_of(attributes@),
        ensures
            keys@.len() >= 1,
            forall|i: int| 0 <= i < keys@.len() ==> (#[trigger] keys@[i]).wf(),
            forall|i: int| 0 <= i < keys@.len() ==> (#[trigger] keys@[i])@.subset_of(attributes@),
            forall|i: int|
                0 <= i < keys@.len() ==> attributes@.subset_of(
                    model::closure_set((#[trigger] keys@[i])@, self@),
                ),
            forall|i: int|
                0 <= i < keys@.len() ==> forall|a: Seq<u8>|
                    (#[trigger] keys@[i])@.contains(a) ==> !attributes@.subset_of(
                        model::closure_set(keys@[i]@.remove(a), self@),
                    ),
            forall|i: int, j: int| 0 <= i < j < keys@.len() ==> keys@[i]@ != keys@[j]@,
    {
        proof {
            model::lemma_closure_reflexive(attributes@, self@);
            attributes.lemma_card();
            vstd::arithmetic::power2::lemma_pow2_pos(attributes@.len());
        }
        let seed_dep = Dependency::from_set_pair((attributes.duplicate(), attributes.duplicate()));
        let seed = seed_dep.minimize(self);
        let mut keys: Vec<AttributeSet> = Vec::new();
        keys.push(seed.left);
        let nd: usize = self.deps.len();
        let mut i: usize = 0;
        while i < keys.len()
            invariant
                self.wf(),
                attributes.wf(),
                model::attrs_of(self@).subset_of(attributes@),
                nd == self.deps@.len(),
                i <= keys@.len(),
                1 <= keys@.len(),
                keys@.len() <= vstd::arithmetic::power2::pow2(attributes@.len()),
                forall|k: int| 0 <= k < keys@.len() ==> (#[trigger] keys@[k]).wf(),
                forall|k: int|
                    0 <= k < keys@.len() ==> (#[trigger] keys@[k])@.subset_of(attributes@),
                forall|k: int|
                    0 <= k < keys@.len() ==> attributes@.subset_of(
                        model::closure_set((#[trigger] keys@[k])@, self@),
                    ),
                forall|k: int|
                    0 <= k < keys@.len() ==> forall|a: Seq<u8>|
                        (#[trigger] keys@[k])@.contains(a) ==> !attributes@.subset_of(
                            model::closure_set(keys@[k]@.remove(a), self@),
                        ),
                forall|p: int, q: int| 0 <= p < q < keys@.len() ==> keys@[p]@ != keys@[q]@,
            decreases
                    vstd::arithmetic::power2::pow2(attributes@.len()) - keys@.len(),
                    keys@.len() - i,
        {
            let ghost len0 = keys@.len();
            let mut j: usize = 0;
            while j < nd
                invariant
                    keys@.len() >= len0,
                    self.wf(),
                    attributes.wf(),
                    model::attrs_of(self@).subset_of(attributes@),
                    nd == self.deps@.len(),
                    j <= nd,
                    i < keys@.len(),
                    keys@.len() <= vstd::arithmetic::power2::pow2(attributes@.len()),
                    forall|k: int| 0 <= k < keys@.len() ==> (#[trigger] keys@[k]).wf(),
                    forall|k: int|
                        0 <= k < keys@.len() ==> (#[trigger] keys@[k])@.subset_of(attributes@),
                    forall|k: int|
                        0 <= k < keys@.len() ==> attributes@.subset_of(
                            model::closure_set((#[trigger] keys@[k])@, self@),
                        ),
                    forall|k: int|
                        0 <= k < keys@.len() ==> forall|a: Seq<u8>|
                            (#[trigger] keys@[k])@.contains(a) ==> !attributes@.subset_of(
                                model::closure_set(keys@[k]@.remove(a), self@),
                            ),
                    forall|p: int, q: int| 0 <= p < q < keys@.len() ==> keys@[p]@ != keys@[q]@,
                decreases nd - j,
            {
                let d = &self.deps[j];
                let ghost dv = self.dep_views()[j as int];
                let mut cand = d.left.duplicate();
                let diff = keys[i].difference(&d.right);
                cand.union_into(&diff);
                proof {
                    assert(dv == d@);
                    assert(self.dep_views().contains(dv));
                    assert(self@.contains(dv));
                    // The candidate stays inside the universe.
                    assert forall|x: Seq<u8>| cand@.contains(x) implies attributes@.contains(
                        x,
                    ) by {
                        if d.left@.contains(x) {
                            assert(model::attrs_of(self@).contains(x));
                        } else {
                            assert(keys@[i as int]@.contains(x));
                        }
                    }
                    // The whole universe lies in the candidate's closure.
                    model::lemma_member_dependency(dv, self@);
                    model::lemma_closure_monotone(d.left@, cand@, self@);
                    model::lemma_closure_reflexive(cand@, self@);
                    assert forall|x: Seq<u8>| keys@[i as int]@.contains(x) implies
                        model::closure_set(cand@, self@).contains(x) by {
                        if d.right@.contains(x) {
                            assert(model::closure_set(d.left@, self@).contains(x));
                        } else {
                            assert(cand@.contains(x));
                        }
                    }
                    model::lemma_closure_monotone(keys@[i as int]@, model::closure_set(cand@, self@), self@);
                    model::lemma_closure_idempotent(cand@, self@);
                    assert(attributes@.subset_of(model::closure_set(keys@[i as int]@, self@)));
                    assert(attributes@.subset_of(model::closure_set(cand@, self@)));
                }
                let cd = Dependency::from_set_pair((cand, attributes.duplicate()));
                let ck = cd.minimize(self);
                let knew = ck.left;
                let m: usize = keys.len();
                let mut dominated = false;
                let mut t: usize = 0;
                while t < m
                    invariant
                        t <= m,
                        m == keys@.len(),
                        !dominated ==> forall|tt: int|
                            0 <= tt < t ==> !(#[trigger] keys@[tt])@.subset_of(knew@),
                    decreases m - t,
                {
                    if keys[t].is_subset(&knew) {
                        dominated = true;
                    }
                    t += 1;
                }
                if !dominated {
                    proof {
                        assert forall|tt: int| 0 <= tt < keys@.len() implies (
                        #[trigger] keys@[tt])@ != knew@ by {
                            assert(!keys@[tt]@.subset_of(knew@));
                        }
                        let vs = keys@.map_values(|k: AttributeSet| k@).push(knew@);
                        assert forall|p: int| 0 <= p < vs.len() implies (
                        #[trigger] vs[p]).subset_of(attributes@) by {
                            if p < vs.len() - 1 {
                                assert(vs[p] == keys@[p]@);
                            }
                        }
                        assert forall|p: int, q: int| 0 <= p < q < vs.len() implies vs[p]
                            != vs[q] by {
                            if q < vs.len() - 1 {
                                assert(vs[p] == keys@[p]@ && vs[q] == keys@[q]@);
                            } else {
                                assert(vs[p] == keys@[p]@ && vs[q] == knew@);
                            }
                        }
                        crate::counting::lemma_distinct_subsets_bound(vs, attributes@);
                    }
                    keys.push(knew);
                }
                j += 1;
            }
            i += 1;
        }
        keys
    }

    /// The union of all attributes appearing on either side of any
    /// dependency: the effective attribute universe of the set.
    pub fn effective_attributes(&self) -> (r: AttributeSet)
        requires
            self.wf(),
        ensures
            r.wf(),
            r@ == model::attrs_of(self@),
    {
        let n: usize = self.deps.len();
        let mut r = AttributeSet::new();
        let mut i: usize = 0;
        while i < n
            invariant
                n == self.deps@.len(),
                i <= n,
                self.wf(),
                r.wf(),
                r@.subset_of(model::attrs_of(self@)),
                forall|j: int|
                    0 <= j < i ==> (#[trigger] self.dep_views()[j]).0.subset_of(r@) && self.dep_views()[j].1.subset_of(r@),
            decreases n - i,
        {
            let ghost pre = r@;
            r.union_into(&self.deps[i].left);
            r.union_into(&self.deps[i].right);
            proof {
                let dv = self.dep_views()[i as int];
                assert(self.dep_views().contains(dv));
                assert(self@.contains(dv));
                assert forall|a: Seq<u8>| r@.contains(a) implies model::attrs_of(self@).contains(
                    a,
                ) by {
                    if !pre.contains(a) {
                        assert(dv.0.contains(a) || dv.1.contains(a));
                    }
                }
            }
            i += 1;
        }
        proof {
            assert forall|a: Seq<u8>| model::attrs_of(self@).contains(a) implies r@.contains(
                a,
            ) by {
                let d = choose|d: (Set<Seq<u8>>, Set<Seq<u8>>)|
                    #[trigger] self@.contains(d) && (d.0.contains(a) || d.1.contains(a));
                let j = choose|j: int| 0 <= j < self.dep_views().len() && self.dep_views()[j] == d;
                assert(self.dep_views()[j].0.subset_of(r@) && self.dep_views()[j].1.subset_of(r@));
            }
            assert(r@ =~= model::attrs_of(self@));
        }
        r
    }
}

} // verus!
