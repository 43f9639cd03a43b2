//! Counting distinct attribute sets: a finite universe of `n` attributes has
//! at most `2^n` distinct subsets. This bounds the worklist of the
//! candidate-key search and so proves it terminates.

use vstd::prelude::*;

use vstd::arithmetic::power2::lemma_pow2_pos;
use vstd::arithmetic::power2::lemma_pow2_unfold;
use vstd::arithmetic::power2::pow2;

verus! {

/// All subsets of `s`.
pub open spec fn subsets_of(s: Set<Seq<u8>>) -> Set<Set<Seq<u8>>> {
    Set::new(|t: Set<Seq<u8>>| t.subset_of(s))
}

/// A finite set of `n` attributes has at most `2^n` subsets.
pub proof fn lemma_subsets_count(s: Set<Seq<u8>>)
    requires
        s.finite(),
    ensures
        subsets_of(s).finite(),
        subsets_of(s).len() <= pow2(s.len()),
    decreases s.len(),
{
    lemma_pow2_pos(s.len());
    if s.len() == 0 {
        s.lemma_len0_is_empty();
        assert(subsets_of(s) =~= Set::<Set<Seq<u8>>>::empty().insert(Set::<Seq<u8>>::empty()))
            by {
            assert forall|t: Set<Seq<u8>>| subsets_of(s).contains(t) implies t == Set::<
                Seq<u8>,
            >::empty() by {
                assert(t =~= Set::<Seq<u8>>::empty());
            }
            assert(Set::<Seq<u8>>::empty().subset_of(s));
        }
    } else {
        assert(exists|x: Seq<u8>| s.contains(x)) by {
            if !(exists|x: Seq<u8>| s.contains(x)) {
                assert(s =~= Set::<Seq<u8>>::empty());
            }
        }
        let a = s.choose();
        assert(s.contains(a));
        let s2 = s.remove(a);
        assert(s2.len() == s.len() - 1);
        lemma_subsets_count(s2);
        let f = |t: Set<Seq<u8>>| t.insert(a);
        let mapped = subsets_of(s2).map(f);
        subsets_of(s2).lemma_map_finite(f);
        vstd::set_lib::lemma_map_size_bound(subsets_of(s2), mapped, f);
        assert forall|t: Set<Seq<u8>>| subsets_of(s).contains(t) implies subsets_of(s2).union(
            mapped,
        ).contains(t) by {
            if t.contains(a) {
                assert(t.remove(a).subset_of(s2));
                assert(subsets_of(s2).contains(t.remove(a)));
                assert(t.remove(a).insert(a) =~= t);
                assert(f(t.remove(a)) == t);
                assert(mapped.contains(t));
            } else {
                assert(t.subset_of(s2));
            }
        }
        assert(subsets_of(s).subset_of(subsets_of(s2).union(mapped)));
        vstd::set_lib::lemma_len_union(subsets_of(s2), mapped);
        vstd::set_lib::lemma_set_union_finite_iff(subsets_of(s2), mapped);
        vstd::set_lib::lemma_set_subset_finite(subsets_of(s2).union(mapped), subsets_of(s));
        vstd::set_lib::lemma_len_subset(subsets_of(s), subsets_of(s2).union(mapped));
        lemma_pow2_unfold(s.len());
        assert(subsets_of(s).len() <= pow2(s2.len()) + pow2(s2.len()));
    }
}

/// A sequence of pairwise-distinct subsets of a finite set `s` is no longer
/// than `2^|s|`.
pub proof fn lemma_distinct_subsets_bound(vs: Seq<Set<Seq<u8>>>, s: Set<Seq<u8>>)
    requires
        s.finite(),
        forall|i: int| 0 <= i < vs.len() ==> (#[trigger] vs[i]).subset_of(s),
        forall|i: int, j: int| 0 <= i < j < vs.len() ==> vs[i] != vs[j],
    ensures
        vs.len() <= pow2(s.len()),
{
    assert(vs.no_duplicates());
    vs.unique_seq_to_set();
    assert forall|t: Set<Seq<u8>>| vs.to_set().contains(t) implies subsets_of(s).contains(t) by {
        let i = choose|i: int| 0 <= i < vs.len() && vs[i] == t;
        assert(vs[i].subset_of(s));
    }
    lemma_subsets_count(s);
    vstd::set_lib::lemma_len_subset(vs.to_set(), subsets_of(s));
}

} // verus!
