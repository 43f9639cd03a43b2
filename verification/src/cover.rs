//! Internal machinery of the minimal-cover computation: the termination
//! measure on working covers, the union-rule merge pass, and the per-pass
//! right- and left-hand-side reductions.

use vstd::prelude::*;

use crate::dependency::Dependency;
use crate::dependency_set::DependencySet;
use crate::model;

verus! {

/// The views of a stored dependency list, in order.
pub open spec fn views_of(v: Seq<Dependency>) -> Seq<(Set<Seq<u8>>, Set<Seq<u8>>)> {
    v.map_values(|d: Dependency| d@)
}

/// The weight of one dependency: one more than the attributes it holds.
pub open spec fn dep_weight(d: (Set<Seq<u8>>, Set<Seq<u8>>)) -> nat {
    d.0.len() + d.1.len() + 1
}

/// The total weight of a working cover; it shrinks on every productive pass.
pub open spec fn cover_measure(s: Seq<(Set<Seq<u8>>, Set<Seq<u8>>)>) -> nat
    decreases s.len(),
{
    if s.len() == 0 {
        0
    } else {
        cover_measure(s.drop_last()) + dep_weight(s.last())
    }
}

/// Appending a dependency adds its weight.
pub proof fn lemma_measure_push(s: Seq<(Set<Seq<u8>>, Set<Seq<u8>>)>, d: (Set<Seq<u8>>, Set<Seq<u8>>))
    ensures
        cover_measure(s.push(d)) == cover_measure(s) + dep_weight(d),
{
    assert(s.push(d).drop_last() =~= s);
    assert(s.push(d).last() == d);
}

/// One more taken element adds that element's weight.
pub proof fn lemma_measure_take(s: Seq<(Set<Seq<u8>>, Set<Seq<u8>>)>, i: int)
    requires
        0 <= i < s.len(),
    ensures
        cover_measure(s.take(i + 1)) == cover_measure(s.take(i)) + dep_weight(s[i]),
{
    assert(s.take(i + 1) =~= s.take(i).push(s[i]));
    lemma_measure_push(s.take(i), s[i]);
}

/// Removing a dependency takes away exactly its weight.
pub proof fn lemma_measure_remove(s: Seq<(Set<Seq<u8>>, Set<Seq<u8>>)>, i: int)
    requires
        0 <= i < s.len(),
    ensures
        cover_measure(s.remove(i)) + dep_weight(s[i]) == cover_measure(s),
    decreases s.len(),
{
    if i == s.len() - 1 {
        assert(s.remove(i) =~= s.drop_last());
    } else {
        assert(s.remove(i).drop_last() =~= s.drop_last().remove(i));
        assert(s.remove(i).last() == s.last());
        lemma_measure_remove(s.drop_last(), i);
    }
}

/// The union-rule pass: dependencies sharing a determinant are merged into
/// one whose dependent side is the union of theirs. The result is
/// equivalent to the input, has pairwise-distinct determinants, and weighs
/// no more; every merge makes it strictly lighter than the input by at
/// least the number of dependencies lost.
#[verifier::rlimit(100)]
#[verifier::spinoff_prover]
pub(crate) fn union_merge(input: &DependencySet) -> (r: DependencySet)
    requires
        input.wf(),
    ensures
        r.wf(),
        model::equiv(r@, input@),
        forall|p: int, q: int|
            0 <= p < q < r.dep_views().len() ==> (#[trigger] r.dep_views()[p]).0 != (
            #[trigger] r.dep_views()[q]).0,
        r.deps@.len() <= input.deps@.len(),
        cover_measure(r.dep_views()) + (input.deps@.len() - r.deps@.len()) <= cover_measure(
            input.dep_views(),
        ),
{
    let n: usize = input.deps.len();
    let mut out: Vec<Dependency> = Vec::new();
    let mut i: usize = 0;
    while i < n
        invariant
            input.wf(),
            n == input.deps@.len(),
            i <= n,
            forall|k: int| 0 <= k < out@.len() ==> (#[trigger] out@[k]).wf(),
            forall|p: int, q: int|
                0 <= p < q < out@.len() ==> (#[trigger] views_of(out@)[p]).0 != (
                #[trigger] views_of(out@)[q]).0,
            out@.len() <= i,
            forall|k: int|
                0 <= k < out@.len() ==> (#[trigger] views_of(out@)[k]).1.subset_of(
                    model::closure_set(
                        views_of(out@)[k].0,
                        input.dep_views().take(i as int).to_set(),
                    ),
                ),
            forall|j: int|
                0 <= j < i ==> (#[trigger] input.dep_views()[j]).1.subset_of(
                    model::closure_set(input.dep_views()[j].0, views_of(out@).to_set()),
                ),
            cover_measure(views_of(out@)) + (i - out@.len()) <= cover_measure(
                input.dep_views().take(i as int),
            ),
        decreases n - i,
    {
        let d = &input.deps[i];
        let m: usize = out.len();
        let mut found = false;
        let mut idx: usize = 0;
        let mut j: usize = 0;
        while j < m
            invariant
                m == out@.len(),
                j <= m,
                !found ==> forall|k: int|
                    0 <= k < j ==> (#[trigger] views_of(out@)[k]).0 != d.left@,
                found ==> idx < m && views_of(out@)[idx as int].0 == d.left@,
            decreases m - j,
        {
            if !found && out[j].left.set_eq(&d.left) {
                found = true;
                idx = j;
                assert(views_of(out@)[j as int].0 == d.left@);
            }
            j += 1;
        }
        let ghost prefix = input.dep_views().take(i as int).to_set();
        let ghost prefix2 = input.dep_views().take(i as int + 1).to_set();
        let ghost dv = input.dep_views()[i as int];
        proof {
            assert(dv == d@);
            assert(input.dep_views().take(i as int + 1) =~= input.dep_views().take(i as int).push(
                dv,
            ));
            crate::attribute_set::lemma_to_set_push(input.dep_views().take(i as int), dv);
            assert(prefix2 == prefix.insert(dv));
            lemma_measure_take(input.dep_views(), i as int);
        }
        if found {
            let ghost pre_out = out@;
            let ghost vs0 = views_of(out@);
            let ghost e0 = views_of(out@)[idx as int];
            let mut e = out.remove(idx);
            proof {
                (pre_out[idx as int]).right.lemma_finite();
                (d.right).lemma_finite();
            }
            e.right.union_into(&d.right);
            out.push(e);
            proof {
                let vs1 = views_of(out@);
                let ev = (e0.0, e0.1.union(dv.1));
                pre_out.remove_ensures(idx as int);
                vs0.remove_ensures(idx as int);
                assert(vs1 =~= vs0.remove(idx as int).push(ev)) by {
                    assert forall|k: int| 0 <= k < vs1.len() implies vs1[k] == vs0.remove(
                        idx as int,
                    ).push(ev)[k] by {
                        if k < vs1.len() - 1 {
                            assert(out@[k] == pre_out.remove(idx as int)[k]);
                        }
                    }
                }
                let old_set = vs0.to_set();
                let new_set = vs1.to_set();
                // every dependency of the old build is derivable from the new
                assert forall|x: (Set<Seq<u8>>, Set<Seq<u8>>)| #[trigger]
                    old_set.contains(x) implies x.1.subset_of(model::closure_set(x.0, new_set)) by {
                    let k = choose|k: int| 0 <= k < vs0.len() && vs0[k] == x;
                    if k == idx {
                        assert(vs1[vs1.len() - 1] == ev);
                        assert(vs1.contains(ev));
                        assert(new_set.contains(ev));
                        model::lemma_member_dependency(ev, new_set);
                        assert(e0.1.subset_of(ev.1));
                    } else {
                        let k1 = if k < idx {
                            k
                        } else {
                            k - 1
                        };
                        assert(vs1[k1] == x);
                        assert(vs1.contains(x));
                        model::lemma_member_dependency(x, new_set);
                    }
                }
                model::lemma_implied_cover(new_set, old_set);
                // distinct determinants
                assert forall|p: int, q: int| 0 <= p < q < vs1.len() implies (
                #[trigger] vs1[p]).0 != (#[trigger] vs1[q]).0 by {
                    if q == vs1.len() - 1 {
                        let p0 = if p < idx {
                            p
                        } else {
                            p + 1
                        };
                        assert(vs1[p] == vs0[p0]);
                        assert(vs0[p0].0 != vs0[idx as int].0);
                    } else {
                        let p0 = if p < idx {
                            p
                        } else {
                            p + 1
                        };
                        let q0 = if q < idx {
                            q
                        } else {
                            q + 1
                        };
                        assert(vs1[p] == vs0[p0]);
                        assert(vs1[q] == vs0[q0]);
                    }
                }
                // derivability of the new build from the longer prefix
                assert forall|k: int| 0 <= k < vs1.len() implies (
                #[trigger] vs1[k]).1.subset_of(
                    model::closure_set(vs1[k].0, prefix2),
                ) by {
                    if k == vs1.len() - 1 {
                        assert(vs1[k] == ev);
                        assert(e0.1.subset_of(model::closure_set(e0.0, prefix)));
                        model::lemma_closure_monotone_deps(e0.0, prefix, prefix2);
                        assert(prefix2.contains(dv));
                        model::lemma_member_dependency(dv, prefix2);
                        assert(dv.0 == e0.0);
                    } else {
                        let k0 = if k < idx {
                            k
                        } else {
                            k + 1
                        };
                        assert(vs1[k] == vs0[k0]);
                        assert(vs0[k0].1.subset_of(model::closure_set(vs0[k0].0, prefix)));
                        model::lemma_closure_monotone_deps(vs0[k0].0, prefix, prefix2);
                    }
                }
                // processed dependencies stay derivable
                assert forall|jj: int| 0 <= jj < i + 1 implies (
                #[trigger] input.dep_views()[jj]).1.subset_of(
                    model::closure_set(input.dep_views()[jj].0, new_set),
                ) by {
                    if jj < i {
                        assert(input.dep_views()[jj].1.subset_of(
                            model::closure_set(input.dep_views()[jj].0, old_set),
                        ));
                    } else {
                        assert(vs1[vs1.len() - 1] == ev);
                        assert(vs1.contains(ev));
                        model::lemma_member_dependency(ev, new_set);
                        assert(dv.1.subset_of(ev.1));
                        assert(dv.0 == ev.0);
                    }
                }
                // the measure bookkeeping
                lemma_measure_remove(vs0, idx as int);
                lemma_measure_push(vs0.remove(idx as int), ev);
                vstd::set_lib::lemma_len_union::<Seq<u8>>(e0.1, dv.1);
                assert(dep_weight(ev) <= dep_weight(e0) + dv.1.len());
                assert(cover_measure(vs1) + (i + 1 - out@.len()) <= cover_measure(
                    input.dep_views().take(i as int + 1),
                ));
            }
        } else {
            let ghost pre_out = out@;
            let ghost vs0 = views_of(out@);
            out.push(d.duplicate());
            proof {
                let vs1 = views_of(out@);
                assert(vs1 =~= vs0.push(dv));
                let old_set = vs0.to_set();
                let new_set = vs1.to_set();
                crate::attribute_set::lemma_to_set_push(vs0, dv);
                assert(new_set == old_set.insert(dv));
                assert forall|k: int| 0 <= k < vs1.len() implies (
                #[trigger] vs1[k]).1.subset_of(
                    model::closure_set(vs1[k].0, prefix2),
                ) by {
                    if k == vs1.len() - 1 {
                        assert(vs1[k] == dv);
                        assert(prefix2.contains(dv));
                        model::lemma_member_dependency(dv, prefix2);
                    } else {
                        assert(vs1[k] == vs0[k]);
                        assert(vs0[k].1.subset_of(model::closure_set(vs0[k].0, prefix)));
                        model::lemma_closure_monotone_deps(vs0[k].0, prefix, prefix2);
                    }
                }
                assert forall|jj: int| 0 <= jj < i + 1 implies (
                #[trigger] input.dep_views()[jj]).1.subset_of(
                    model::closure_set(input.dep_views()[jj].0, new_set),
                ) by {
                    if jj < i {
                        model::lemma_closure_monotone_deps(input.dep_views()[jj].0, old_set, new_set);
                    } else {
                        assert(new_set.contains(dv));
                        model::lemma_member_dependency(dv, new_set);
                    }
                }
                lemma_measure_push(vs0, dv);
            }
        }
        i += 1;
    }
    let r = DependencySet { deps: out };
    proof {
        assert(r.dep_views() =~= views_of(out@));
        assert(r.dep_views().no_duplicates()) by {
            assert forall|p: int, q: int|
                0 <= p < q < r.dep_views().len() implies r.dep_views()[p] != r.dep_views()[q] by {
                assert(views_of(out@)[p].0 != views_of(out@)[q].0);
            }
        }
        assert(input.dep_views().take(n as int) =~= input.dep_views());
        let out_set = views_of(out@).to_set();
        assert forall|x: (Set<Seq<u8>>, Set<Seq<u8>>)| #[trigger]
            input@.contains(x) implies x.1.subset_of(model::closure_set(x.0, out_set)) by {
            let jj = choose|jj: int|
                0 <= jj < input.dep_views().len() && input.dep_views()[jj] == x;
            assert(input.dep_views()[jj].1.subset_of(
                model::closure_set(input.dep_views()[jj].0, out_set),
            ));
        }
        assert forall|x: (Set<Seq<u8>>, Set<Seq<u8>>)| #[trigger]
            r@.contains(x) implies x.1.subset_of(model::closure_set(x.0, input@)) by {
            let k = choose|k: int| 0 <= k < views_of(out@).len() && views_of(out@)[k] == x;
            assert(views_of(out@)[k].1.subset_of(
                model::closure_set(views_of(out@)[k].0, input.dep_views().take(n as int).to_set()),
            ));
        }
        model::lemma_mutually_implied_equiv(r@, input@);
    }
    r
}

/// Splitting off the head of a suffix splits its set.
pub proof fn lemma_skip_set(s: Seq<(Set<Seq<u8>>, Set<Seq<u8>>)>, i: int)
    requires
        0 <= i < s.len(),
    ensures
        s.skip(i).to_set() == s.skip(i + 1).to_set().insert(s[i]),
{
    assert forall|x: (Set<Seq<u8>>, Set<Seq<u8>>)| s.skip(i).to_set().contains(x) implies s.skip(
        i + 1,
    ).to_set().insert(s[i]).contains(x) by {
        let j = choose|j: int| 0 <= j < s.skip(i).len() && s.skip(i)[j] == x;
        if j == 0 {
            assert(x == s[i]);
        } else {
            assert(s.skip(i + 1)[j - 1] == x);
            assert(s.skip(i + 1).contains(x));
        }
    }
    assert forall|x: (Set<Seq<u8>>, Set<Seq<u8>>)|
        s.skip(i + 1).to_set().insert(s[i]).contains(x) implies s.skip(i).to_set().contains(x) by {
        if x == s[i] {
            assert(s.skip(i)[0] == x);
        } else {
            let j = choose|j: int| 0 <= j < s.skip(i + 1).len() && #[trigger] s.skip(i + 1)[j] == x;
            assert(s.skip(i)[j + 1] == x);
        }
        assert(s.skip(i).contains(x));
    }
    assert(s.skip(i).to_set() =~= s.skip(i + 1).to_set().insert(s[i]));
}

/// A prefix and the matching suffix together hold the whole set.
pub proof fn lemma_take_skip_set(s: Seq<(Set<Seq<u8>>, Set<Seq<u8>>)>, i: int)
    requires
        0 <= i <= s.len(),
    ensures
        s.take(i).to_set().union(s.skip(i).to_set()) == s.to_set(),
{
    assert forall|x: (Set<Seq<u8>>, Set<Seq<u8>>)|
        s.take(i).to_set().union(s.skip(i).to_set()).contains(x) implies s.to_set().contains(x) by {
        if s.take(i).to_set().contains(x) {
            let j = choose|j: int| 0 <= j < s.take(i).len() && s.take(i)[j] == x;
            assert(s[j] == x);
        } else {
            let j = choose|j: int| 0 <= j < s.skip(i).len() && s.skip(i)[j] == x;
            assert(s[j + i] == x);
        }
        assert(s.contains(x));
    }
    assert forall|x: (Set<Seq<u8>>, Set<Seq<u8>>)| s.to_set().contains(x) implies s.take(
        i,
    ).to_set().union(s.skip(i).to_set()).contains(x) by {
        let j = choose|j: int| 0 <= j < s.len() && s[j] == x;
        if j < i {
            assert(s.take(i)[j] == x);
            assert(s.take(i).contains(x));
        } else {
            assert(s.skip(i)[j - i] == x);
            assert(s.skip(i).contains(x));
        }
    }
    assert(s.take(i).to_set().union(s.skip(i).to_set()) =~= s.to_set());
}

/// Reduces one dependency against the rest of the working cover: drops each
/// dependent-side attribute that stays derivable without it, then shrinks
/// the determinant. The flag reports whether anything was dropped; when
/// nothing was, the dependency is irreducible within `rest` plus itself.
pub(crate) fn reduce_dep(d: &Dependency, rest: &DependencySet) -> (r: (Dependency, bool))
    requires
        d.wf(),
        rest.wf(),
    ensures
        r.0.wf(),
        model::equiv(rest@.insert(r.0@), rest@.insert(d@)),
        r.0.left@.subset_of(d.left@),
        r.0.right@.subset_of(d.right@),
        r.0.left.attrs@.len() <= d.left.attrs@.len(),
        r.0.right.attrs@.len() <= d.right.attrs@.len(),
        r.1 ==> r.0.left.attrs@.len() + r.0.right.attrs@.len() < d.left.attrs@.len()
            + d.right.attrs@.len(),
        !r.1 ==> r.0@ == d@ && r.0.left.attrs@.len() == d.left.attrs@.len()
            && r.0.right.attrs@.len() == d.right.attrs@.len(),
        (!r.1 && !rest@.contains(d@)) ==> model::rhs_irreducible(rest@.insert(d@), d@),
        !r.1 ==> model::lhs_irreducible(rest@.insert(d@), d@),
{
    let mut cur = d.duplicate();
    let mut rchanged = false;
    let n: usize = d.right.attrs.len();
    let mut i: usize = 0;
    while i < n
        invariant
            d.wf(),
            rest.wf(),
            cur.wf(),
            n == d.right.attrs@.len(),
            i <= n,
            cur.left.names() == d.left.names(),
            cur.right@.subset_of(d.right@),
            cur.right.attrs@.len() <= d.right.attrs@.len(),
            !rchanged ==> cur.right@ == d.right@ && cur.right.attrs@.len()
                == d.right.attrs@.len(),
            rchanged ==> cur.right.attrs@.len() < d.right.attrs@.len(),
            model::equiv(rest@.insert(cur@), rest@.insert(d@)),
            forall|j: int| i <= j < n ==> cur.right@.contains(#[trigger] d.right.names()[j]),
            !rchanged ==> forall|j: int|
                0 <= j < i ==> !model::closure_set(
                    d.left@,
                    rest@.insert((d.left@, d.right@.remove(#[trigger] d.right.names()[j]))),
                ).contains(d.right.names()[j]),
        decreases n - i,
    {
        let a = &d.right.attrs[i];
        let ghost pre = cur@;
        let mut trial = cur.duplicate();
        trial.right.remove(a);
        let mut ctx = rest.duplicate();
        ctx.insert(trial.duplicate());
        proof {
            assert(trial@ == (cur.left@, cur.right@.remove(a@)));
            assert(ctx@ == rest@.insert((cur.left@, cur.right@.remove(a@))));
        }
        let cl = cur.left.closure(&ctx);
        if cl.contains_attr(a) {
            proof {
                model::lemma_rhs_step(rest@, cur.left@, cur.right@, a@);
            }
            cur.right.remove(a);
            rchanged = true;
            proof {
                assert(cur@ == (pre.0, pre.1.remove(a@)));
                assert(model::equiv(rest@.insert(pre), rest@.insert(cur@)));
                model::lemma_equiv_symmetric(rest@.insert(pre), rest@.insert(cur@));
                model::lemma_equiv_transitive(rest@.insert(cur@), rest@.insert(pre), rest@.insert(d@));
                assert(model::equiv(rest@.insert(cur@), rest@.insert(d@)));
                assert(d.right.names()[i as int] == a@);
                assert(pre.1.contains(d.right.names()[i as int]));
                assert(pre.1.contains(a@));
                assert forall|j: int| i + 1 <= j < n implies cur.right@.contains(
                    #[trigger] d.right.names()[j],
                ) by {
                    assert(d.right.names()[j] != d.right.names()[i as int]);
                }
            }
        } else {
            proof {
                if !rchanged {
                    assert(cur.right@ == d.right@);
                    assert(cur.left@ == d.left@);
                    assert forall|j: int| 0 <= j < i + 1 implies !model::closure_set(
                        d.left@,
                        rest@.insert((d.left@, d.right@.remove(#[trigger] d.right.names()[j]))),
                    ).contains(d.right.names()[j]) by {
                        if j == i {
                            assert(d.right.names()[j] == a@);
                        }
                    }
                }
            }
        }
        i += 1;
    }
    // Shrink the determinant against the rest of the cover plus this
    // dependency itself.
    let mut ctx2 = rest.duplicate();
    ctx2.insert(cur.duplicate());
    proof {
        assert(ctx2@ == rest@.insert(cur@));
        assert(ctx2@.contains(cur@));
        model::lemma_member_dependency(cur@, ctx2@);
        assert(cur.right@.subset_of(model::closure_set(cur.left@, ctx2@)));
    }
    let m = cur.minimize(&ctx2);
    let lchanged = m.left.len() < cur.left.len();
    proof {
        m.left.lemma_card();
        cur.left.lemma_card();
        d.left.lemma_card();
        d.right.lemma_card();
        cur.right.lemma_card();
        m.right.lemma_card();
        vstd::set_lib::lemma_len_subset(m.left@, cur.left@);
        if !lchanged {
            vstd::set_lib::lemma_subset_equality(m.left@, cur.left@);
            assert(m.left@ == cur.left@);
        }
        model::lemma_lhs_step(rest@, cur.left@, m.left@, cur.right@);
        assert((cur.left@, cur.right@) == cur@);
        assert(m@ == (m.left@, cur.right@));
        assert(model::equiv(rest@.insert(cur@), rest@.insert(m@)));
        model::lemma_equiv_symmetric(rest@.insert(cur@), rest@.insert(m@));
        model::lemma_equiv_transitive(rest@.insert(m@), rest@.insert(cur@), rest@.insert(d@));
        assert(model::equiv(rest@.insert(m@), rest@.insert(d@)));
        if !rchanged && !lchanged {
            assert(m@ == d@);
            if !rest@.contains(d@) {
                assert(model::rhs_irreducible(rest@.insert(d@), d@)) by {
                    assert(rest@.insert(d@).remove(d@) =~= rest@);
                    assert forall|a: Seq<u8>| #[trigger]
                        d@.1.contains(a) implies !model::closure_set(
                        d@.0,
                        rest@.insert(d@).remove(d@).insert((d@.0, d@.1.remove(a))),
                    ).contains(a) by {
                        let j = choose|j: int|
                            0 <= j < d.right.names().len() && d.right.names()[j] == a;
                        assert(!model::closure_set(
                            d.left@,
                            rest@.insert((d.left@, d.right@.remove(d.right.names()[j]))),
                        ).contains(d.right.names()[j]));
                    }
                }
            }
            assert(model::lhs_irreducible(rest@.insert(d@), d@)) by {
                assert(ctx2@ == rest@.insert(d@));
                assert forall|a: Seq<u8>| #[trigger] d@.0.contains(a) implies !d@.1.subset_of(
                    model::closure_set(d@.0.remove(a), rest@.insert(d@)),
                ) by {
                    assert(m.left@.contains(a));
                }
            }
        }
    }
    (m, rchanged || lchanged)
}

/// One full reduction pass: every dependency is reduced against all the
/// others, dependencies whose dependent side empties out are dropped, and
/// duplicates arising from reduction collapse. The flag reports whether the
/// pass changed anything; an unchanged pass certifies that every dependency
/// is irreducible within the whole cover.
#[verifier::rlimit(100)]
#[verifier::spinoff_prover]
pub(crate) fn reduce_pass(input: &DependencySet) -> (r: (DependencySet, bool))
    requires
        input.wf(),
    ensures
        r.0.wf(),
        model::equiv(r.0@, input@),
        cover_measure(r.0.dep_views()) <= cover_measure(input.dep_views()),
        r.1 ==> cover_measure(r.0.dep_views()) < cover_measure(input.dep_views()),
        !r.1 ==> r.0.dep_views() == input.dep_views(),
        !r.1 ==> (forall|d: (Set<Seq<u8>>, Set<Seq<u8>>)| #[trigger]
            r.0@.contains(d) ==> model::nonempty_rhs(d)),
        !r.1 ==> (forall|d: (Set<Seq<u8>>, Set<Seq<u8>>)| #[trigger]
            r.0@.contains(d) ==> model::rhs_irreducible(r.0@, d)),
        !r.1 ==> (forall|d: (Set<Seq<u8>>, Set<Seq<u8>>)| #[trigger]
            r.0@.contains(d) ==> model::lhs_irreducible(r.0@, d)),
{
    let n: usize = input.deps.len();
    let mut out: Vec<Dependency> = Vec::new();
    let mut changed = false;
    let mut i: usize = 0;
    proof {
        assert(input.dep_views().skip(0) =~= input.dep_views());
        assert(views_of(out@).to_set() =~= Set::<(Set<Seq<u8>>, Set<Seq<u8>>)>::empty());
        assert(views_of(out@).to_set().union(input.dep_views().skip(0).to_set()) =~= input@);
    }
    while i < n
        invariant
            input.wf(),
            n == input.deps@.len(),
            i <= n,
            forall|k: int| 0 <= k < out@.len() ==> (#[trigger] out@[k]).wf(),
            views_of(out@).no_duplicates(),
            model::equiv(
                views_of(out@).to_set().union(input.dep_views().skip(i as int).to_set()),
                input@,
            ),
            cover_measure(views_of(out@)) <= cover_measure(input.dep_views().take(i as int)),
            changed ==> cover_measure(views_of(out@)) < cover_measure(
                input.dep_views().take(i as int),
            ),
            !changed ==> views_of(out@) == input.dep_views().take(i as int),
            !changed ==> forall|j: int|
                0 <= j < i ==> model::nonempty_rhs(#[trigger] input.dep_views()[j]),
            !changed ==> forall|j: int|
                0 <= j < i ==> model::rhs_irreducible(input@, #[trigger] input.dep_views()[j]),
            !changed ==> forall|j: int|
                0 <= j < i ==> model::lhs_irreducible(input@, #[trigger] input.dep_views()[j]),
        decreases n - i,
    {
        // The working context: everything already built plus everything
        // still to come, but not the dependency under reduction.
        let mut rest = DependencySet::new();
        let om: usize = out.len();
        let mut k: usize = 0;
        while k < om
            invariant
                k <= om,
                om == out@.len(),
                forall|kk: int| 0 <= kk < out@.len() ==> (#[trigger] out@[kk]).wf(),
                rest.wf(),
                rest@ == views_of(out@).take(k as int).to_set(),
            decreases om - k,
        {
            rest.insert(out[k].duplicate());
            proof {
                assert(views_of(out@).take(k as int + 1) =~= views_of(out@).take(k as int).push(
                    views_of(out@)[k as int],
                ));
                crate::attribute_set::lemma_to_set_push(
                    views_of(out@).take(k as int),
                    views_of(out@)[k as int],
                );
            }
            k += 1;
        }
        proof {
            assert(views_of(out@).take(om as int) =~= views_of(out@));
        }
        let mut k2: usize = i + 1;
        while k2 < n
            invariant
                i < n,
                i + 1 <= k2 <= n,
                n == input.deps@.len(),
                input.wf(),
                rest.wf(),
                rest@ == views_of(out@).to_set().union(
                    input.dep_views().subrange(i as int + 1, k2 as int).to_set(),
                ),
            decreases n - k2,
        {
            rest.insert(input.deps[k2].duplicate());
            proof {
                assert(input.dep_views().subrange(i as int + 1, k2 as int + 1)
                    =~= input.dep_views().subrange(i as int + 1, k2 as int).push(
                    input.dep_views()[k2 as int],
                ));
                crate::attribute_set::lemma_to_set_push(
                    input.dep_views().subrange(i as int + 1, k2 as int),
                    input.dep_views()[k2 as int],
                );
                assert(rest@ =~= views_of(out@).to_set().union(
                    input.dep_views().subrange(i as int + 1, k2 as int + 1).to_set(),
                ));
            }
            k2 += 1;
        }
        proof {
            assert(input.dep_views().subrange(i as int + 1, n as int) =~= input.dep_views().skip(
                i as int + 1,
            ));
        }
        let d = &input.deps[i];
        let ghost dv = input.dep_views()[i as int];
        let ghost vs0 = views_of(out@);
        let ghost w_i = vs0.to_set().union(input.dep_views().skip(i as int).to_set());
        proof {
            assert(dv == d@);
            lemma_skip_set(input.dep_views(), i as int);
            assert(w_i =~= rest@.insert(dv));
            lemma_measure_take(input.dep_views(), i as int);
        }
        let (m, shrunk) = reduce_dep(d, &rest);
        proof {
            model::lemma_equiv_transitive(rest@.insert(m@), rest@.insert(dv), input@);
            m.left.lemma_card();
            m.right.lemma_card();
            d.left.lemma_card();
            d.right.lemma_card();
        }
        if m.right.len() == 0 {
            changed = true;
            proof {
                assert(m.right@ =~= Set::<Seq<u8>>::empty());
                assert(m@.1.subset_of(model::closure_set(m@.0, rest@)));
                model::lemma_add_implied(rest@, m@);
                model::lemma_equiv_transitive(rest@, rest@.insert(m@), input@);
                assert(vs0.to_set().union(input.dep_views().skip(i as int + 1).to_set())
                    =~= rest@);
                assert(dep_weight(dv) >= 1);
            }
        } else {
            let om2: usize = out.len();
            let mut found2 = false;
            let mut j2: usize = 0;
            while j2 < om2
                invariant
                    j2 <= om2,
                    om2 == out@.len(),
                    forall|kk: int| 0 <= kk < out@.len() ==> (#[trigger] out@[kk]).wf(),
                    !found2 ==> forall|kk: int| 0 <= kk < j2 ==> views_of(out@)[kk] != m@,
                    found2 ==> views_of(out@).to_set().contains(m@),
                decreases om2 - j2,
            {
                if out[j2].dep_eq(&m) {
                    found2 = true;
                    assert(views_of(out@)[j2 as int] == m@);
                    assert(views_of(out@).contains(m@));
                }
                j2 += 1;
            }
            if found2 {
                changed = true;
                proof {
                    assert(rest@.contains(m@));
                    assert(rest@.insert(m@) =~= rest@);
                    assert(model::equiv(rest@, input@));
                    assert(vs0.to_set().union(input.dep_views().skip(i as int + 1).to_set())
                        =~= rest@);
                    assert(dep_weight(dv) >= 1);
                }
            } else {
                out.push(m);
                if shrunk {
                    changed = true;
                }
                proof {
                    let vs1 = views_of(out@);
                    let mv = vs1[vs1.len() - 1];
                    assert(vs1 =~= vs0.push(mv));
                    assert(!vs0.contains(mv)) by {
                        if vs0.contains(mv) {
                            let kk = choose|kk: int| 0 <= kk < vs0.len() && vs0[kk] == mv;
                            assert(views_of(out@)[kk] == mv);
                        }
                    }
                    assert(vs1.no_duplicates());
                    crate::attribute_set::lemma_to_set_push(vs0, mv);
                    assert(vs1.to_set().union(input.dep_views().skip(i as int + 1).to_set())
                        =~= rest@.insert(mv));
                    lemma_measure_push(vs0, mv);
                    assert(dep_weight(mv) <= dep_weight(dv));
                    if shrunk {
                        assert(dep_weight(mv) < dep_weight(dv));
                    }
                    if !changed {
                        assert(mv == dv);
                        assert(vs1 =~= input.dep_views().take(i as int + 1));
                        // The reduced facts for this dependency transfer to
                        // the whole input cover.
                        assert(!rest@.contains(dv)) by {
                            if rest@.contains(dv) {
                                if vs0.to_set().contains(dv) {
                                    let kk = choose|kk: int|
                                        0 <= kk < vs0.len() && vs0[kk] == dv;
                                    assert(input.dep_views().take(i as int)[kk]
                                        == input.dep_views()[kk]);
                                    assert(input.dep_views().no_duplicates());
                                } else {
                                    let kk = choose|kk: int|
                                        0 <= kk < input.dep_views().skip(i as int + 1).len()
                                            && #[trigger] input.dep_views().skip(i as int + 1)[kk]
                                            == dv;
                                    assert(input.dep_views()[kk + i + 1] == dv);
                                    assert(input.dep_views().no_duplicates());
                                }
                            }
                        }
                        assert(rest@.insert(dv) =~= input@) by {
                            lemma_take_skip_set(input.dep_views(), i as int);
                        }
                        assert(model::rhs_irreducible(input@, dv));
                        assert(model::lhs_irreducible(input@, dv));
                        assert(model::nonempty_rhs(dv)) by {
                            assert(d.right.names().len() > 0);
                            assert(d.right.names().contains(d.right.names()[0]));
                            assert(d.right@.contains(d.right.names()[0]));
                            assert(dv.1.contains(d.right.names()[0]));
                        }
                    }
                }
            }
        }
        i += 1;
    }
    let r0 = DependencySet { deps: out };
    proof {
        assert(r0.dep_views() =~= views_of(out@));
        assert(input.dep_views().take(n as int) =~= input.dep_views());
        assert(input.dep_views().skip(n as int).to_set() =~= Set::<(
            Set<Seq<u8>>,
            Set<Seq<u8>>,
        )>::empty());
        assert(views_of(out@).to_set().union(input.dep_views().skip(n as int).to_set())
            =~= r0@);
        if !changed {
            assert(r0.dep_views() == input.dep_views());
            assert(r0@ =~= input@);
            assert forall|dd: (Set<Seq<u8>>, Set<Seq<u8>>)| #[trigger]
                r0@.contains(dd) implies model::nonempty_rhs(dd) && model::rhs_irreducible(r0@, dd)
                && model::lhs_irreducible(r0@, dd) by {
                let j = choose|j: int|
                    0 <= j < input.dep_views().len() && input.dep_views()[j] == dd;
                assert(model::nonempty_rhs(input.dep_views()[j]));
                assert(model::rhs_irreducible(input@, input.dep_views()[j]));
                assert(model::lhs_irreducible(input@, input.dep_views()[j]));
            }
        }
    }
    (r0, changed)
}

} // verus!
