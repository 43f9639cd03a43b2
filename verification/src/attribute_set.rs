//! A duplicate-free collection of attributes, viewed as the set of its
//! attribute names. All algebraic operations state their effect on that view.

use vstd::prelude::*;

use crate::attribute::Attribute;
use crate::dependency_set::DependencySet;
use crate::model;

verus! {

/// A set of attributes: a vector free of duplicate names.
pub struct AttributeSet {
    pub attrs: Vec<Attribute>,
}

impl View for AttributeSet {
    type V = Set<Seq<u8>>;

    open spec fn view(&self) -> Set<Seq<u8>> {
        self.names().to_set()
    }
}

/// Appending one name and then collecting the set is inserting that name.
pub proof fn lemma_to_set_push<A>(s: Seq<A>, x: A)
    ensures
        s.push(x).to_set() == s.to_set().insert(x),
{
    assert forall|a: A| s.push(x).to_set().contains(a) implies s.to_set().insert(x).contains(
        a,
    ) by {
        let j = choose|j: int| 0 <= j < s.push(x).len() && s.push(x)[j] == a;
        if j < s.len() {
            assert(s[j] == a);
            assert(s.contains(a));
        } else {
            assert(a == x);
        }
    }
    assert forall|a: A| s.to_set().insert(x).contains(a) implies s.push(x).to_set().contains(
        a,
    ) by {
        if a == x {
            assert(s.push(x)[s.len() as int] == a);
        } else {
            let j = choose|j: int| 0 <= j < s.len() && s[j] == a;
            assert(s.push(x)[j] == a);
        }
        assert(s.push(x).contains(a));
    }
    assert(s.push(x).to_set() =~= s.to_set().insert(x));
}

impl AttributeSet {
    /// The sequence of attribute names, in storage order.
    pub open spec fn names(&self) -> Seq<Seq<u8>> {
        self.attrs@.map_values(|a: Attribute| a@)
    }

    /// Well-formed: no two stored attributes share a name.
    pub open spec fn wf(&self) -> bool {
        self.names().no_duplicates()
    }

    /// The view is finite and as large as the storage.
    pub proof fn lemma_card(&self)
        requires
            self.wf(),
        ensures
            self@.finite(),
            self@.len() == self.attrs@.len(),
    {
        self.names().unique_seq_to_set();
    }

    /// The view of any attribute set is finite.
    pub proof fn lemma_finite(&self)
        ensures
            self@.finite(),
    {
    }

    /// The empty attribute set.
    pub fn new() -> (r: AttributeSet)
        ensures
            r.wf(),
            r@ == Set::<Seq<u8>>::empty(),
            r.attrs@.len() == 0,
    {
        let r = AttributeSet { attrs: Vec::new() };
        assert(r@ =~= Set::<Seq<u8>>::empty());
        r
    }

    /// The stored attributes.
    pub fn set(&self) -> (r: &Vec<Attribute>)
        ensures
            r == &self.attrs,
    {
        &self.attrs
    }

    /// Mutable access to the stored attributes. The caller is responsible for
    /// keeping the names free of duplicates.
    pub fn set_mut(&mut self) -> (r: &mut Vec<Attribute>)
        ensures
            *r == old(self).attrs,
            final(self).attrs == *final(r),
    {
        &mut self.attrs
    }

    /// How many attributes the set holds.
    pub fn len(&self) -> (n: usize)
        ensures
            n == self.attrs@.len(),
    {
        self.attrs.len()
    }

    /// Whether the set holds an attribute of the given name.
    pub fn contains_attr(&self, a: &Attribute) -> (r: bool)
        ensures
            r == self@.contains(a@),
    {
        let n: usize = self.attrs.len();
        let mut i: usize = 0;
        while i < n
            invariant
                n == self.attrs@.len(),
                i <= n,
                forall|j: int| 0 <= j < i ==> self.names()[j] != a@,
            decreases n - i,
        {
            if self.attrs[i].same_as(a) {
                assert(self.names()[i as int] == a@);
                assert(self.names().contains(a@));
                return true;
            }
            i += 1;
        }
        assert(!self.names().contains(a@));
        false
    }

    /// A fresh copy of this set.
    pub fn duplicate(&self) -> (r: AttributeSet)
        ensures
            r.names() == self.names(),
            r@ == self@,
            r.attrs@.len() == self.attrs@.len(),
    {
        let n: usize = self.attrs.len();
        let mut attrs: Vec<Attribute> = Vec::new();
        let mut i: usize = 0;
        while i < n
            invariant
                n == self.attrs@.len(),
                i <= n,
                attrs@.len() == i,
                forall|j: int| 0 <= j < i ==> attrs@[j]@ == self.names()[j],
            decreases n - i,
        {
            attrs.push(self.attrs[i].duplicate());
            i += 1;
        }
        let r = AttributeSet { attrs };
        assert(r.names() =~= self.names());
        r
    }

    /// Adds an attribute; nothing changes when the name is already present.
    pub fn insert(&mut self, a: Attribute)
        requires
            old(self).wf(),
        ensures
            final(self).wf(),
            final(self)@ == old(self)@.insert(a@),
            final(self).attrs@.len() == old(self).attrs@.len() + (if old(self)@.contains(a@) {
                0int
            } else {
                1int
            }),
    {
        if self.contains_attr(&a) {
            assert(final(self)@ =~= old(self)@.insert(a@));
        } else {
            let ghost pre = self.names();
            self.attrs.push(a);
            proof {
                assert(self.names() =~= pre.push(a@));
                assert(!pre.contains(a@));
                assert(self.names().no_duplicates());
                lemma_to_set_push(pre, a@);
                assert(self@ =~= old(self)@.insert(a@));
            }
        }
    }

    /// Removes the attribute of the given name, when present.
    pub fn remove(&mut self, a: &Attribute)
        requires
            old(self).wf(),
        ensures
            final(self).wf(),
            final(self)@ == old(self)@.remove(a@),
            final(self).attrs@.len() == old(self).attrs@.len() - (if old(self)@.contains(a@) {
                1int
            } else {
                0int
            }),
    {
        let n: usize = self.attrs.len();
        let mut i: usize = 0;
        while i < n
            invariant
                n == self.attrs@.len(),
                i <= n,
                self == old(self),
                old(self).wf(),
                forall|j: int| 0 <= j < i ==> self.names()[j] != a@,
            decreases n - i,
        {
            if self.attrs[i].same_as(a) {
                let ghost pre = self.names();
                let ghost idx = i as int;
                self.attrs.remove(i);
                proof {
                    pre.remove_ensures(idx);
                    assert(self.names() =~= pre.remove(idx));
                    assert(pre[idx] == a@);
                    assert(self.names().no_duplicates()) by {
                        assert forall|p: int, q: int|
                            0 <= p < q < self.names().len() implies self.names()[p]
                            != self.names()[q] by {
                            let p0 = if p < idx {
                                p
                            } else {
                                p + 1
                            };
                            let q0 = if q < idx {
                                q
                            } else {
                                q + 1
                            };
                            assert(self.names()[p] == pre[p0]);
                            assert(self.names()[q] == pre[q0]);
                        }
                    }
                    assert(self@ =~= old(self)@.remove(a@)) by {
                        assert forall|x: Seq<u8>| self.names().contains(x) implies old(
                            self,
                        )@.remove(a@).contains(x) by {
                            let j = choose|j: int|
                                0 <= j < self.names().len() && self.names()[j] == x;
                            let j0 = if j < idx {
                                j
                            } else {
                                j + 1
                            };
                            assert(pre[j0] == x);
                            assert(pre.contains(x));
                            assert(pre[j0] != pre[idx]);
                            assert(x != a@);
                        }
                        assert forall|x: Seq<u8>| old(self)@.remove(a@).contains(x) implies self
                            .names().contains(x) by {
                            let j = choose|j: int| 0 <= j < pre.len() && pre[j] == x;
                            assert(j != idx);
                            let j1 = if j < idx {
                                j
                            } else {
                                j - 1
                            };
                            assert(self.names()[j1] == x);
                        }
                    }
                    assert(old(self)@.contains(a@)) by {
                        assert(pre.contains(a@));
                    }
                }
                return ;
            }
            i += 1;
        }
        proof {
            assert(!self.names().contains(a@));
            assert(final(self)@ =~= old(self)@.remove(a@));
        }
    }

    /// Whether every attribute of `other` lies in this set.
    pub fn is_superset(&self, other: &AttributeSet) -> (r: bool)
        ensures
            r == other@.subset_of(self@),
    {
        let n: usize = other.attrs.len();
        let mut i: usize = 0;
        while i < n
            invariant
                n == other.attrs@.len(),
                i <= n,
                forall|j: int| 0 <= j < i ==> self@.contains(other.names()[j]),
            decreases n - i,
        {
            if !self.contains_attr(&other.attrs[i]) {
                assert(other.names().contains(other.names()[i as int]));
                assert(other@.contains(other.names()[i as int]));
                return false;
            }
            i += 1;
        }
        assert forall|x: Seq<u8>| other@.contains(x) implies self@.contains(x) by {
            let j = choose|j: int| 0 <= j < other.names().len() && other.names()[j] == x;
            assert(self@.contains(other.names()[j]));
        }
        true
    }

    /// Whether every attribute of this set lies in `other`.
    pub fn is_subset(&self, other: &AttributeSet) -> (r: bool)
        ensures
            r == self@.subset_of(other@),
    {
        other.is_superset(self)
    }

    /// Whether the two sets hold the same attributes.
    pub fn set_eq(&self, other: &AttributeSet) -> (r: bool)
        ensures
            r == (self@ == other@),
    {
        let sup = self.is_superset(other);
        let sub = self.is_subset(other);
        if sup && sub {
            assert(self@ =~= other@);
            true
        } else {
            false
        }
    }

    /// Adds every attribute of `other` to this set.
    pub fn union_into(&mut self, other: &AttributeSet)
        requires
            old(self).wf(),
        ensures
            final(self).wf(),
            final(self)@ == old(self)@.union(other@),
            final(self).attrs@.len() >= old(self).attrs@.len(),
            !other@.subset_of(old(self)@) ==> final(self).attrs@.len() > old(
                self,
            ).attrs@.len(),
    {
        let n: usize = other.attrs.len();
        let mut i: usize = 0;
        while i < n
            invariant
                n == other.attrs@.len(),
                i <= n,
                self.wf(),
                self@ == old(self)@.union(other.names().take(i as int).to_set()),
                self.attrs@.len() >= old(self).attrs@.len(),
                other.names().take(i as int).to_set().subset_of(old(self)@) ==> self.attrs@.len()
                    == old(self).attrs@.len(),
                !other.names().take(i as int).to_set().subset_of(old(self)@) ==> self.attrs@.len()
                    > old(self).attrs@.len(),
            decreases n - i,
        {
            let ghost pre_view = self@;
            let ghost pre_len = self.attrs@.len();
            let ghost x = other.names()[i as int];
            self.insert(other.attrs[i].duplicate());
            proof {
                assert(other.names().take(i as int + 1) =~= other.names().take(i as int).push(x));
                lemma_to_set_push(other.names().take(i as int), x);
                assert(self@ =~= old(self)@.union(other.names().take(i as int + 1).to_set()));
                if other.names().take(i as int + 1).to_set().subset_of(old(self)@) {
                    assert(other.names().take(i as int).to_set().subset_of(old(self)@));
                    assert(pre_view.contains(x));
                } else {
                    if other.names().take(i as int).to_set().subset_of(old(self)@) {
                        assert(other.names().take(i as int + 1).to_set().contains(x));
                        assert(!old(self)@.contains(x));
                        assert(!pre_view.contains(x));
                        assert(self.attrs@.len() == pre_len + 1);
                    }
                }
            }
            i += 1;
        }
        proof {
            assert(other.names().take(n as int) =~= other.names());
            assert(final(self)@ =~= old(self)@.union(other@));
            if !other@.subset_of(old(self)@) {
                assert(!other.names().take(n as int).to_set().subset_of(old(self)@));
            }
        }
    }


    /// The closure of this attribute set under the given dependencies: the
    /// least superset closed under every dependency, reached by saturating
    /// with each dependency whose determinant is already covered.
    pub fn closure(&self, deps: &DependencySet) -> (r: AttributeSet)
        requires
            self.wf(),
            deps.wf(),
        ensures
            r.wf(),
            r@ == model::closure_set(self@, deps@),
    {
        let nd: usize = deps.deps.len();
        // An upper bound for the growing result: this set joined with every
        // dependent side.
        let mut bound = self.duplicate();
        let mut i: usize = 0;
        while i < nd
            invariant
                nd == deps.deps@.len(),
                i <= nd,
                bound.wf(),
                self@.subset_of(bound@),
                forall|j: int| 0 <= j < i ==> (#[trigger] deps.dep_views()[j]).1.subset_of(bound@),
            decreases nd - i,
        {
            bound.union_into(&deps.deps[i].right);
            i += 1;
        }
        let mut result = self.duplicate();
        proof {
            model::lemma_closure_reflexive(self@, deps@);
            result.lemma_card();
            bound.lemma_card();
            vstd::set_lib::lemma_len_subset(result@, bound@);
        }
        loop
            invariant
                nd == deps.deps@.len(),
                deps.wf(),
                result.wf(),
                bound.wf(),
                self@.subset_of(result@),
                result@.subset_of(model::closure_set(self@, deps@)),
                result@.subset_of(bound@),
                forall|j: int| 0 <= j < nd ==> (#[trigger] deps.dep_views()[j]).1.subset_of(bound@),
                result.attrs@.len() <= bound.attrs@.len(),
            decreases bound.attrs@.len() - result.attrs@.len(),
        {
            let ghost start = result@;
            let ghost start_len = result.attrs@.len();
            let mut changed = false;
            let mut k: usize = 0;
            while k < nd
                invariant
                    nd == deps.deps@.len(),
                    k <= nd,
                    deps.wf(),
                    result.wf(),
                    bound.wf(),
                    self@.subset_of(result@),
                    result@.subset_of(model::closure_set(self@, deps@)),
                    result@.subset_of(bound@),
                    forall|j: int|
                        0 <= j < nd ==> (#[trigger] deps.dep_views()[j]).1.subset_of(bound@),
                    result.attrs@.len() >= start_len,
                    changed ==> result.attrs@.len() > start_len,
                    !changed ==> result@ == start && result.attrs@.len() == start_len,
                    !changed ==> forall|j: int|
                        0 <= j < k ==> ((#[trigger] deps.dep_views()[j]).0.subset_of(result@)
                            ==> deps.dep_views()[j].1.subset_of(result@)),
                decreases nd - k,
            {
                let d = &deps.deps[k];
                if result.is_superset(&d.left) && !result.is_superset(&d.right) {
                    proof {
                        let dv = deps.dep_views()[k as int];
                        assert(deps.dep_views().contains(dv));
                        assert(deps@.contains(dv));
                        model::lemma_closure_closed(self@, deps@);
                        assert(dv.0.subset_of(model::closure_set(self@, deps@)));
                        assert(dv.1.subset_of(model::closure_set(self@, deps@)));
                    }
                    result.union_into(&d.right);
                    changed = true;
                }
                k = k + 1;
            }
            proof {
                result.lemma_card();
                bound.lemma_card();
                vstd::set_lib::lemma_len_subset(result@, bound@);
            }
            if !changed {
                proof {
                    assert forall|d: (Set<Seq<u8>>, Set<Seq<u8>>)| #[trigger]
                        deps@.contains(d) && d.0.subset_of(result@) implies d.1.subset_of(
                        result@,
                    ) by {
                        let j = choose|j: int|
                            0 <= j < deps.dep_views().len() && deps.dep_views()[j] == d;
                        assert(deps.dep_views()[j].0.subset_of(result@) ==> deps.dep_views()[j].1.subset_of(result@));
                    }
                    assert(model::closed_under(result@, deps@));
                    model::lemma_closure_least(self@, result@, deps@);
                    assert(result@ =~= model::closure_set(self@, deps@));
                }
                return result;
            }
        }
    }

    /// The attributes of this set that `other` does not hold.
    pub fn difference(&self, other: &AttributeSet) -> (r: AttributeSet)
        requires
            self.wf(),
        ensures
            r.wf(),
            r@ == self@.difference(other@),
    {
        let n: usize = self.attrs.len();
        let mut r = AttributeSet::new();
        let mut i: usize = 0;
        while i < n
            invariant
                n == self.attrs@.len(),
                i <= n,
                self.wf(),
                r.wf(),
                r@ == self.names().take(i as int).to_set().difference(other@),
            decreases n - i,
        {
            if !other.contains_attr(&self.attrs[i]) {
                r.insert(self.attrs[i].duplicate());
            }
            proof {
                assert(self.names().take(i as int + 1) =~= self.names().take(i as int).push(
                    self.names()[i as int],
                ));
                lemma_to_set_push(self.names().take(i as int), self.names()[i as int]);
                assert(r@ =~= self.names().take(i as int + 1).to_set().difference(other@));
            }
            i += 1;
        }
        proof {
            assert(self.names().take(n as int) =~= self.names());
            assert(r@ =~= self@.difference(other@));
        }
        r
    }
}

} // verus!
