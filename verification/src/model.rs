//! The mathematical model of the functional-dependency algebra.
//!
//! An attribute is modelled by its name, a `Seq<u8>`; an attribute set by a
//! `Set<Seq<u8>>`; a dependency by a pair (determinant, dependent) of such
//! sets; a dependency set by a set of pairs. The closure of an attribute set
//! `x` under a dependency set `f` is the least superset of `x` closed under
//! every dependency of `f` — equivalently, the set of attributes lying in
//! every closed superset of `x`.

use vstd::prelude::*;

verus! {

/// Whether the attribute set `c` is closed under the dependency set `f`:
/// whenever a determinant lies inside `c`, so does its dependent.
pub open spec fn closed_under(c: Set<Seq<u8>>, f: Set<(Set<Seq<u8>>, Set<Seq<u8>>)>) -> bool {
    forall|d: (Set<Seq<u8>>, Set<Seq<u8>>)|
        #[trigger] f.contains(d) ==> (d.0.subset_of(c) ==> d.1.subset_of(c))
}

/// Whether attribute `a` belongs to the closure of `x` under `f`: it lies in
/// every closed superset of `x`.
pub open spec fn in_closure(
    a: Seq<u8>,
    x: Set<Seq<u8>>,
    f: Set<(Set<Seq<u8>>, Set<Seq<u8>>)>,
) -> bool {
    forall|c: Set<Seq<u8>>| x.subset_of(c) && closed_under(c, f) ==> #[trigger] c.contains(a)
}

/// The closure of `x` under `f`: the intersection of all closed supersets of
/// `x`, which is itself the least closed superset of `x`.
pub open spec fn closure_set(
    x: Set<Seq<u8>>,
    f: Set<(Set<Seq<u8>>, Set<Seq<u8>>)>,
) -> Set<Seq<u8>> {
    Set::new(|a: Seq<u8>| in_closure(a, x, f))
}

/// All attributes mentioned on either side of any dependency of `f`.
pub open spec fn attrs_of(f: Set<(Set<Seq<u8>>, Set<Seq<u8>>)>) -> Set<Seq<u8>> {
    Set::new(
        |a: Seq<u8>|
            exists|d: (Set<Seq<u8>>, Set<Seq<u8>>)|
                #[trigger] f.contains(d) && (d.0.contains(a) || d.1.contains(a)),
    )
}

/// Two dependency sets are equivalent when every attribute set has the same
/// closure under both.
pub open spec fn equiv(
    f: Set<(Set<Seq<u8>>, Set<Seq<u8>>)>,
    g: Set<(Set<Seq<u8>>, Set<Seq<u8>>)>,
) -> bool {
    forall|x: Set<Seq<u8>>| #[trigger] closure_set(x, f) == closure_set(x, g)
}

/// The closure of `x` contains `x` (the reflexive rule).
pub proof fn lemma_closure_reflexive(x: Set<Seq<u8>>, f: Set<(Set<Seq<u8>>, Set<Seq<u8>>)>)
    ensures
        x.subset_of(closure_set(x, f)),
{
    assert forall|a: Seq<u8>| x.contains(a) implies closure_set(x, f).contains(a) by {
        assert forall|c: Set<Seq<u8>>| x.subset_of(c) && closed_under(c, f) implies #[trigger] c
            .contains(a) by {}
    }
}

/// The closure of `x` is itself closed under `f`.
pub proof fn lemma_closure_closed(x: Set<Seq<u8>>, f: Set<(Set<Seq<u8>>, Set<Seq<u8>>)>)
    ensures
        closed_under(closure_set(x, f), f),
{
    assert forall|d: (Set<Seq<u8>>, Set<Seq<u8>>)| #[trigger]
        f.contains(d) && d.0.subset_of(closure_set(x, f)) implies d.1.subset_of(
        closure_set(x, f),
    ) by {
        assert forall|a: Seq<u8>| d.1.contains(a) implies closure_set(x, f).contains(a) by {
            assert forall|c: Set<Seq<u8>>| x.subset_of(c) && closed_under(c, f) implies #[trigger] c
                .contains(a) by {
                assert forall|b: Seq<u8>| d.0.contains(b) implies c.contains(b) by {
                    assert(closure_set(x, f).contains(b));
                }
                assert(d.0.subset_of(c));
            }
        }
    }
}

/// The closure of `x` lies inside every closed superset of `x`.
pub proof fn lemma_closure_least(
    x: Set<Seq<u8>>,
    c: Set<Seq<u8>>,
    f: Set<(Set<Seq<u8>>, Set<Seq<u8>>)>,
)
    requires
        x.subset_of(c),
        closed_under(c, f),
    ensures
        closure_set(x, f).subset_of(c),
{
    assert forall|a: Seq<u8>| closure_set(x, f).contains(a) implies c.contains(a) by {}
}

/// Growing the base set grows the closure.
pub proof fn lemma_closure_monotone(
    x: Set<Seq<u8>>,
    y: Set<Seq<u8>>,
    f: Set<(Set<Seq<u8>>, Set<Seq<u8>>)>,
)
    requires
        x.subset_of(y),
    ensures
        closure_set(x, f).subset_of(closure_set(y, f)),
{
    lemma_closure_reflexive(y, f);
    lemma_closure_closed(y, f);
    lemma_closure_least(x, closure_set(y, f), f);
}

/// Taking the closure twice adds nothing.
pub proof fn lemma_closure_idempotent(x: Set<Seq<u8>>, f: Set<(Set<Seq<u8>>, Set<Seq<u8>>)>)
    ensures
        closure_set(closure_set(x, f), f) == closure_set(x, f),
{
    lemma_closure_reflexive(closure_set(x, f), f);
    lemma_closure_closed(x, f);
    lemma_closure_least(closure_set(x, f), closure_set(x, f), f);
    assert(closure_set(closure_set(x, f), f) =~= closure_set(x, f));
}

/// Growing the dependency set grows every closure.
pub proof fn lemma_closure_monotone_deps(
    x: Set<Seq<u8>>,
    f: Set<(Set<Seq<u8>>, Set<Seq<u8>>)>,
    g: Set<(Set<Seq<u8>>, Set<Seq<u8>>)>,
)
    requires
        f.subset_of(g),
    ensures
        closure_set(x, f).subset_of(closure_set(x, g)),
{
    lemma_closure_reflexive(x, g);
    lemma_closure_closed(x, g);
    assert(closed_under(closure_set(x, g), f));
    lemma_closure_least(x, closure_set(x, g), f);
}

/// A dependency of `f` is honoured by closures under `f`: the dependent lies
/// in the closure of the determinant.
pub proof fn lemma_member_dependency(
    d: (Set<Seq<u8>>, Set<Seq<u8>>),
    f: Set<(Set<Seq<u8>>, Set<Seq<u8>>)>,
)
    requires
        f.contains(d),
    ensures
        d.1.subset_of(closure_set(d.0, f)),
{
    lemma_closure_reflexive(d.0, f);
    lemma_closure_closed(d.0, f);
}

/// If every dependency of `g` is derivable from `f` (its dependent lies in
/// the `f`-closure of its determinant), then `f`-closures dominate
/// `g`-closures.
pub proof fn lemma_implied_cover(
    f: Set<(Set<Seq<u8>>, Set<Seq<u8>>)>,
    g: Set<(Set<Seq<u8>>, Set<Seq<u8>>)>,
)
    requires
        forall|d: (Set<Seq<u8>>, Set<Seq<u8>>)| #[trigger]
            g.contains(d) ==> d.1.subset_of(closure_set(d.0, f)),
    ensures
        forall|x: Set<Seq<u8>>|
            #![trigger closure_set(x, g)]
            closure_set(x, g).subset_of(closure_set(x, f)),
{
    assert forall|x: Set<Seq<u8>>|
        closure_set(x, g).subset_of(#[trigger] closure_set(x, f)) by {
        lemma_closure_reflexive(x, f);
        assert(closed_under(closure_set(x, f), g)) by {
            assert forall|d: (Set<Seq<u8>>, Set<Seq<u8>>)| #[trigger]
                g.contains(d) && d.0.subset_of(closure_set(x, f)) implies d.1.subset_of(
                closure_set(x, f),
            ) by {
                lemma_closure_monotone(d.0, closure_set(x, f), f);
                lemma_closure_idempotent(x, f);
                assert(closure_set(d.0, f).subset_of(closure_set(x, f)));
            }
        }
        lemma_closure_least(x, closure_set(x, f), g);
    }
}

/// Mutual derivability gives equivalence.
pub proof fn lemma_mutually_implied_equiv(
    f: Set<(Set<Seq<u8>>, Set<Seq<u8>>)>,
    g: Set<(Set<Seq<u8>>, Set<Seq<u8>>)>,
)
    requires
        forall|d: (Set<Seq<u8>>, Set<Seq<u8>>)| #[trigger]
            g.contains(d) ==> d.1.subset_of(closure_set(d.0, f)),
        forall|d: (Set<Seq<u8>>, Set<Seq<u8>>)| #[trigger]
            f.contains(d) ==> d.1.subset_of(closure_set(d.0, g)),
    ensures
        equiv(f, g),
{
    lemma_implied_cover(f, g);
    lemma_implied_cover(g, f);
    assert forall|x: Set<Seq<u8>>| #[trigger] closure_set(x, f) == closure_set(x, g) by {
        assert(closure_set(x, f) =~= closure_set(x, g));
    }
}

/// Equivalence read in the other direction.
pub proof fn lemma_equiv_symmetric(
    f: Set<(Set<Seq<u8>>, Set<Seq<u8>>)>,
    g: Set<(Set<Seq<u8>>, Set<Seq<u8>>)>,
)
    requires
        equiv(f, g),
    ensures
        equiv(g, f),
{
    assert forall|x: Set<Seq<u8>>| #[trigger] closure_set(x, g) == closure_set(x, f) by {
        assert(closure_set(x, f) == closure_set(x, g));
    }
}

/// Equivalence is symmetric and transitive along a chain of rewrites.
pub proof fn lemma_equiv_transitive(
    f: Set<(Set<Seq<u8>>, Set<Seq<u8>>)>,
    g: Set<(Set<Seq<u8>>, Set<Seq<u8>>)>,
    h: Set<(Set<Seq<u8>>, Set<Seq<u8>>)>,
)
    requires
        equiv(f, g),
        equiv(g, h),
    ensures
        equiv(f, h),
{
}

/// Adding a dependency already derivable from `g` changes no closure.
pub proof fn lemma_add_implied(
    g: Set<(Set<Seq<u8>>, Set<Seq<u8>>)>,
    d: (Set<Seq<u8>>, Set<Seq<u8>>),
)
    requires
        d.1.subset_of(closure_set(d.0, g)),
    ensures
        equiv(g, g.insert(d)),
{
    assert forall|e: (Set<Seq<u8>>, Set<Seq<u8>>)| #[trigger]
        g.insert(d).contains(e) implies e.1.subset_of(closure_set(e.0, g)) by {
        if g.contains(e) {
            lemma_member_dependency(e, g);
        }
    }
    assert forall|e: (Set<Seq<u8>>, Set<Seq<u8>>)| #[trigger] g.contains(e) implies e.1.subset_of(
        closure_set(e.0, g.insert(d)),
    ) by {
        lemma_member_dependency(e, g.insert(d));
    }
    lemma_mutually_implied_equiv(g, g.insert(d));
}

/// Dropping one attribute from a dependent side keeps the cover equivalent
/// whenever the attribute is still derivable from the determinant once it is
/// dropped.
pub proof fn lemma_rhs_step(
    g: Set<(Set<Seq<u8>>, Set<Seq<u8>>)>,
    l: Set<Seq<u8>>,
    r: Set<Seq<u8>>,
    a: Seq<u8>,
)
    requires
        closure_set(l, g.insert((l, r.remove(a)))).contains(a),
    ensures
        equiv(g.insert((l, r)), g.insert((l, r.remove(a)))),
{
    let g1 = g.insert((l, r));
    let g2 = g.insert((l, r.remove(a)));
    assert forall|e: (Set<Seq<u8>>, Set<Seq<u8>>)| #[trigger] g2.contains(e) implies e.1.subset_of(
        closure_set(e.0, g1),
    ) by {
        if g.contains(e) {
            lemma_member_dependency(e, g1);
        } else {
            assert(e == (l, r.remove(a)));
            lemma_member_dependency((l, r), g1);
            assert(r.remove(a).subset_of(r));
        }
    }
    assert forall|e: (Set<Seq<u8>>, Set<Seq<u8>>)| #[trigger] g1.contains(e) implies e.1.subset_of(
        closure_set(e.0, g2),
    ) by {
        if g.contains(e) {
            lemma_member_dependency(e, g2);
        } else {
            assert(e == (l, r));
            lemma_member_dependency((l, r.remove(a)), g2);
            assert forall|x: Seq<u8>| r.contains(x) implies closure_set(l, g2).contains(x) by {
                if x != a {
                    assert(r.remove(a).contains(x));
                }
            }
        }
    }
    lemma_mutually_implied_equiv(g1, g2);
}

/// Replacing a determinant by a subset that still determines the dependent
/// keeps the cover equivalent.
pub proof fn lemma_lhs_step(
    g: Set<(Set<Seq<u8>>, Set<Seq<u8>>)>,
    l: Set<Seq<u8>>,
    l2: Set<Seq<u8>>,
    r: Set<Seq<u8>>,
)
    requires
        l2.subset_of(l),
        r.subset_of(closure_set(l2, g.insert((l, r)))),
    ensures
        equiv(g.insert((l, r)), g.insert((l2, r))),
{
    let g1 = g.insert((l, r));
    let g2 = g.insert((l2, r));
    assert forall|e: (Set<Seq<u8>>, Set<Seq<u8>>)| #[trigger] g2.contains(e) implies e.1.subset_of(
        closure_set(e.0, g1),
    ) by {
        if g.contains(e) {
            lemma_member_dependency(e, g1);
        } else {
            assert(e == (l2, r));
        }
    }
    assert forall|e: (Set<Seq<u8>>, Set<Seq<u8>>)| #[trigger] g1.contains(e) implies e.1.subset_of(
        closure_set(e.0, g2),
    ) by {
        if g.contains(e) {
            lemma_member_dependency(e, g2);
        } else {
            assert(e == (l, r));
            lemma_member_dependency((l2, r), g2);
            lemma_closure_monotone(l2, l, g2);
        }
    }
    lemma_mutually_implied_equiv(g1, g2);
}

/// The dependent side of `d` holds at least one attribute.
pub open spec fn nonempty_rhs(d: (Set<Seq<u8>>, Set<Seq<u8>>)) -> bool {
    exists|a: Seq<u8>| d.1.contains(a)
}

/// No attribute of the dependent side of `d` is derivable once dropped from
/// `d` within `g`.
pub open spec fn rhs_irreducible(
    g: Set<(Set<Seq<u8>>, Set<Seq<u8>>)>,
    d: (Set<Seq<u8>>, Set<Seq<u8>>),
) -> bool {
    forall|a: Seq<u8>| #[trigger]
        d.1.contains(a) ==> !closure_set(d.0, g.remove(d).insert((d.0, d.1.remove(a)))).contains(a)
}

/// No attribute of the determinant side of `d` can be dropped while `g`
/// still derives the dependent from the shrunken determinant.
pub open spec fn lhs_irreducible(
    g: Set<(Set<Seq<u8>>, Set<Seq<u8>>)>,
    d: (Set<Seq<u8>>, Set<Seq<u8>>),
) -> bool {
    forall|a: Seq<u8>| #[trigger]
        d.0.contains(a) ==> !d.1.subset_of(closure_set(d.0.remove(a), g))
}

/// A non-redundant cover: determinants are pairwise distinct, every
/// dependent side is non-empty, and neither side of any dependency can lose
/// an attribute.
pub open spec fn reduced(g: Set<(Set<Seq<u8>>, Set<Seq<u8>>)>) -> bool {
    &&& forall|d1: (Set<Seq<u8>>, Set<Seq<u8>>), d2: (Set<Seq<u8>>, Set<Seq<u8>>)|
        g.contains(d1) && g.contains(d2) && d1.0 == d2.0 ==> d1 == d2
    &&& forall|d: (Set<Seq<u8>>, Set<Seq<u8>>)| #[trigger] g.contains(d) ==> nonempty_rhs(d)
    &&& forall|d: (Set<Seq<u8>>, Set<Seq<u8>>)| #[trigger] g.contains(d) ==> rhs_irreducible(g, d)
    &&& forall|d: (Set<Seq<u8>>, Set<Seq<u8>>)| #[trigger] g.contains(d) ==> lhs_irreducible(g, d)
}

} // verus!
