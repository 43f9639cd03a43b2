//! The library's headline theorems about minimal covers and candidate keys.
//!
//! Together with the closure lemmas of `model` (reflexivity, monotonicity,
//! idempotence) and the `ensures` of `minimal_cover` (equivalence with the
//! input) and `candidate_keys` (every key reaches the universe), these state
//! that a reduced cover is non-redundant in every sense and that a key with
//! no droppable attribute has no smaller superkey inside it.

use vstd::prelude::*;

use crate::attribute_set::AttributeSet;
use crate::dependency_set::DependencySet;
use crate::model;

verus! {

/// Reflexivity: for every attribute set `x` and dependency set `f`, the
/// closure of `x` under `f` contains `x`.
pub proof fn lemma_closure_reflexivity(x: AttributeSet, f: DependencySet)
    ensures
        x@.subset_of(model::closure_set(x@, f@)),
{
    model::lemma_closure_reflexive(x@, f@);
}

/// Monotonicity: when `x` lies inside `y`, the closure of `x` lies inside
/// the closure of `y` under any dependency set `f`.
pub proof fn lemma_closure_monotonicity(x: AttributeSet, y: AttributeSet, f: DependencySet)
    requires
        x@.subset_of(y@),
    ensures
        model::closure_set(x@, f@).subset_of(model::closure_set(y@, f@)),
{
    model::lemma_closure_monotone(x@, y@, f@);
}

/// Idempotence: closing a closure adds nothing.
pub proof fn lemma_closure_idempotence(x: AttributeSet, f: DependencySet)
    ensures
        model::closure_set(model::closure_set(x@, f@), f@) == model::closure_set(x@, f@),
{
    model::lemma_closure_idempotent(x@, f@);
}

/// No dependency may be removed from a reduced cover: dropping `d` changes
/// the closure of `d`'s own determinant.
pub proof fn lemma_cover_dependency_necessary(
    g: Set<(Set<Seq<u8>>, Set<Seq<u8>>)>,
    d: (Set<Seq<u8>>, Set<Seq<u8>>),
)
    requires
        model::reduced(g),
        g.contains(d),
    ensures
        !model::equiv(g.remove(d), g),
{
    assert(model::nonempty_rhs(d));
    let a = choose|a: Seq<u8>| d.1.contains(a);
    model::lemma_member_dependency(d, g);
    assert(model::rhs_irreducible(g, d));
    let g2 = g.remove(d).insert((d.0, d.1.remove(a)));
    assert(!model::closure_set(d.0, g2).contains(a));
    model::lemma_closure_monotone_deps(d.0, g.remove(d), g2);
    assert(!model::closure_set(d.0, g.remove(d)).contains(a));
    assert(model::closure_set(d.0, g).contains(a));
    if model::equiv(g.remove(d), g) {
        assert(model::closure_set(d.0, g.remove(d)) == model::closure_set(d.0, g));
        assert(false);
    }
}

/// No dependent-side attribute may be removed from a reduced cover:
/// shrinking `d`'s dependent by `a` changes the closure of `d`'s
/// determinant.
pub proof fn lemma_cover_rhs_necessary(
    g: Set<(Set<Seq<u8>>, Set<Seq<u8>>)>,
    d: (Set<Seq<u8>>, Set<Seq<u8>>),
    a: Seq<u8>,
)
    requires
        model::reduced(g),
        g.contains(d),
        d.1.contains(a),
    ensures
        !model::equiv(g.remove(d).insert((d.0, d.1.remove(a))), g),
{
    let g2 = g.remove(d).insert((d.0, d.1.remove(a)));
    model::lemma_member_dependency(d, g);
    assert(model::rhs_irreducible(g, d));
    assert(!model::closure_set(d.0, g2).contains(a));
    assert(model::closure_set(d.0, g).contains(a));
    if model::equiv(g2, g) {
        assert(model::closure_set(d.0, g2) == model::closure_set(d.0, g));
        assert(false);
    }
}

/// No determinant-side attribute may be removed from a reduced cover:
/// shrinking `d`'s determinant by `a` changes the closure of that shrunken
/// determinant.
pub proof fn lemma_cover_lhs_necessary(
    g: Set<(Set<Seq<u8>>, Set<Seq<u8>>)>,
    d: (Set<Seq<u8>>, Set<Seq<u8>>),
    a: Seq<u8>,
)
    requires
        model::reduced(g),
        g.contains(d),
        d.0.contains(a),
    ensures
        !model::equiv(g.remove(d).insert((d.0.remove(a), d.1)), g),
{
    let g2 = g.remove(d).insert((d.0.remove(a), d.1));
    assert(g2.contains((d.0.remove(a), d.1)));
    model::lemma_member_dependency((d.0.remove(a), d.1), g2);
    assert(d.1.subset_of(model::closure_set(d.0.remove(a), g2)));
    assert(model::lhs_irreducible(g, d));
    assert(!d.1.subset_of(model::closure_set(d.0.remove(a), g)));
    if model::equiv(g2, g) {
        assert(model::closure_set(d.0.remove(a), g2) == model::closure_set(d.0.remove(a), g));
        assert(false);
    }
}

/// A key from which no single attribute can be dropped has no proper subset
/// reaching the universe either: single-attribute minimality is full
/// minimality, because closure is monotone.
pub proof fn lemma_key_minimality(
    k: Set<Seq<u8>>,
    u: Set<Seq<u8>>,
    f: Set<(Set<Seq<u8>>, Set<Seq<u8>>)>,
    s: Set<Seq<u8>>,
)
    requires
        forall|a: Seq<u8>| #[trigger]
            k.contains(a) ==> !u.subset_of(model::closure_set(k.remove(a), f)),
        s.subset_of(k),
        s != k,
    ensures
        !u.subset_of(model::closure_set(s, f)),
{
    assert(exists|a: Seq<u8>| k.contains(a) && !s.contains(a)) by {
        if !(exists|a: Seq<u8>| k.contains(a) && !s.contains(a)) {
            assert(k =~= s);
        }
    }
    let a = choose|a: Seq<u8>| k.contains(a) && !s.contains(a);
    assert(s.subset_of(k.remove(a)));
    model::lemma_closure_monotone(s, k.remove(a), f);
    if u.subset_of(model::closure_set(s, f)) {
        assert(u.subset_of(model::closure_set(k.remove(a), f)));
        assert(false);
    }
}

} // verus!
