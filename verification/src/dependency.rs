//! A functional dependency: an ordered pair of attribute sets read as
//! "determinant functionally determines dependent".

use vstd::prelude::*;

use crate::attribute_set::AttributeSet;
use crate::dependency_set::DependencySet;
use crate::model;

verus! {

/// One functional dependency `left -> right`.
pub struct Dependency {
    pub left: AttributeSet,
    pub right: AttributeSet,
}

impl View for Dependency {
    type V = (Set<Seq<u8>>, Set<Seq<u8>>);

    open spec fn view(&self) -> (Set<Seq<u8>>, Set<Seq<u8>>) {
        (self.left@, self.right@)
    }
}

impl Dependency {
    /// Well-formed: both sides are duplicate-free.
    pub open spec fn wf(&self) -> bool {
        self.left.wf() && self.right.wf()
    }

    /// Builds the dependency `pair.0 -> pair.1`.
    pub fn from_set_pair(pair: (AttributeSet, AttributeSet)) -> (r: Dependency)
        ensures
            r.left == pair.0,
            r.right == pair.1,
            r@ == (pair.0@, pair.1@),
    {
        let (l, r) = pair;
        Dependency { left: l, right: r }
    }

    /// The determinant side.
    pub fn left(&self) -> (r: &AttributeSet)
        ensures
            r == &self.left,
    {
        &self.left
    }

    /// Mutable access to the determinant side.
    pub fn left_mut(&mut self) -> (r: &mut AttributeSet)
        ensures
            *r == old(self).left,
            final(self).left == *final(r),
            final(self).right == old(self).right,
    {
        &mut self.left
    }

    /// The dependent side.
    pub fn right(&self) -> (r: &AttributeSet)
        ensures
            r == &self.right,
    {
        &self.right
    }

    /// Mutable access to the dependent side.
    pub fn right_mut(&mut self) -> (r: &mut AttributeSet)
        ensures
            *r == old(self).right,
            final(self).right == *final(r),
            final(self).left == old(self).left,
    {
        &mut self.right
    }

    /// Whether two dependencies relate the same attribute sets.
    pub fn dep_eq(&self, other: &Dependency) -> (r: bool)
        ensures
            r == (self@ == other@),
    {
        let l = self.left.set_eq(&other.left);
        let r = self.right.set_eq(&other.right);
        l && r
    }

    /// Shrinks the determinant to a minimal subset that still determines the
    /// dependent under `deps`: no single attribute of the result's left side
    /// can be dropped without losing the dependent from the closure. When the
    /// dependent is not determined by the left side at all, the dependency
    /// comes back unchanged.
    pub fn minimize(&self, deps: &DependencySet) -> (m: Dependency)
        requires
            self.wf(),
            deps.wf(),
        ensures
            m.wf(),
            m.right@ == self.right@,
            m.left@.subset_of(self.left@),
            self.right@.subset_of(model::closure_set(self.left@, deps@)) ==> {
                &&& self.right@.subset_of(model::closure_set(m.left@, deps@))
                &&& forall|a: Seq<u8>|
                    m.left@.contains(a) ==> !self.right@.subset_of(
                        model::closure_set(m.left@.remove(a), deps@),
                    )
            },
            !self.right@.subset_of(model::closure_set(self.left@, deps@)) ==> m.left@
                == self.left@,
    {
        let n: usize = self.left.attrs.len();
        let mut min_left = self.left.duplicate();
        let mut i: usize = 0;
        while i < n
            invariant
                n == self.left.attrs@.len(),
                i <= n,
                self.wf(),
                deps.wf(),
                min_left.wf(),
                min_left@.subset_of(self.left@),
                forall|j: int| i <= j < n ==> min_left@.contains(self.left.names()[j]),
                self.right@.subset_of(model::closure_set(self.left@, deps@))
                    ==> self.right@.subset_of(model::closure_set(min_left@, deps@)),
                forall|j: int|
                    0 <= j < i && min_left@.contains(#[trigger] self.left.names()[j])
                        ==> !self.right@.subset_of(
                        model::closure_set(min_left@.remove(self.left.names()[j]), deps@),
                    ),
                !self.right@.subset_of(model::closure_set(self.left@, deps@)) ==> min_left@
                    == self.left@,
            decreases n - i,
        {
            let a = &self.left.attrs[i];
            let ghost pre = min_left@;
            let mut trial = min_left.duplicate();
            trial.remove(a);
            let cl = trial.closure(deps);
            if cl.is_superset(&self.right) {
                min_left.remove(a);
                proof {
                    assert(min_left@ == trial@);
                    // The left side could still determine the dependent, so
                    // the unchanged-on-failure case cannot arise here.
                    model::lemma_closure_monotone(trial@, self.left@, deps@);
                    assert(self.right@.subset_of(model::closure_set(self.left@, deps@)));
                    // Unprocessed names differ from the one just dropped.
                    assert forall|j: int| i + 1 <= j < n implies min_left@.contains(
                        #[trigger] self.left.names()[j],
                    ) by {
                        assert(pre.contains(self.left.names()[j]));
                        assert(self.left.names()[j] != self.left.names()[i as int]);
                    }
                    // Earlier survivors stay necessary in the smaller set.
                    assert forall|j: int|
                        0 <= j < i + 1 && min_left@.contains(
                            #[trigger] self.left.names()[j],
                        ) implies !self.right@.subset_of(
                        model::closure_set(min_left@.remove(self.left.names()[j]), deps@),
                    ) by {
                        let x = self.left.names()[j];
                        if j < i {
                            assert(pre.contains(x));
                            assert(!self.right@.subset_of(
                                model::closure_set(pre.remove(x), deps@),
                            ));
                            model::lemma_closure_monotone(
                                min_left@.remove(x),
                                pre.remove(x),
                                deps@,
                            );
                        } else {
                            assert(x == a@);
                            assert(!min_left@.contains(x));
                        }
                    }
                }
            } else {
                proof {
                    assert(min_left@ == pre);
                    assert(trial@ == pre.remove(a@));
                    assert forall|j: int|
                        0 <= j < i + 1 && min_left@.contains(
                            #[trigger] self.left.names()[j],
                        ) implies !self.right@.subset_of(
                        model::closure_set(min_left@.remove(self.left.names()[j]), deps@),
                    ) by {
                        let x = self.left.names()[j];
                        if j == i {
                            assert(x == a@);
                            assert(!self.right@.subset_of(
                                model::closure_set(pre.remove(x), deps@),
                            ));
                        }
                    }
                }
            }
            i += 1;
        }
        proof {
            assert forall|a: Seq<u8>| min_left@.contains(a) implies !self.right@.subset_of(
                model::closure_set(min_left@.remove(a), deps@),
            ) || !self.right@.subset_of(model::closure_set(self.left@, deps@)) by {
                assert(self.left@.contains(a));
                let j = choose|j: int|
                    0 <= j < self.left.names().len() && self.left.names()[j] == a;
                assert(min_left@.contains(self.left.names()[j]));
            }
        }
        Dependency { left: min_left, right: self.right.duplicate() }
    }

    /// A fresh copy of this dependency.
    pub fn duplicate(&self) -> (r: Dependency)
        ensures
            r@ == self@,
            r.left@ == self.left@,
            r.right@ == self.right@,
            r.left.names() == self.left.names(),
            r.right.names() == self.right.names(),
            r.left.attrs@.len() == self.left.attrs@.len(),
            r.right.attrs@.len() == self.right.attrs@.len(),
            r.wf() == self.wf(),
    {
        let r = Dependency { left: self.left.duplicate(), right: self.right.duplicate() };
        r
    }
}

} // verus!
