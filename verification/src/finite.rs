use vstd::prelude::*;

verus! {

/// All finite subsets of `d`.
pub open spec fn pset<A>(d: Set<A>) -> Set<Set<A>> {
    Set::new(|s: Set<A>| s.finite() && s.subset_of(d))
}

/// A finite set has finitely many subsets.
pub proof fn lemma_pset_finite<A>(d: Set<A>)
    requires
        d.finite(),
    ensures
        pset(d).finite(),
    decreases d.len(),
{
    if d.len() == 0 {
        d.lemma_len0_is_empty();
        assert(pset(d) =~= Set::<Set<A>>::empty().insert(Set::<A>::empty())) by {
            assert forall|s: Set<A>| pset(d).contains(s) implies s == Set::<A>::empty() by {
                assert(s =~= Set::<A>::empty());
            }
            assert(Set::<A>::empty().finite() && Set::<A>::empty().subset_of(d));
        }
    } else {
        let x = choose|x: A| d.contains(x);
        assert(d.contains(x)) by {
            if forall|y: A| !#[trigger] d.contains(y) {
                assert(d =~= Set::<A>::empty());
            }
        }
        let d2 = d.remove(x);
        lemma_pset_finite(d2);
        let p2 = pset(d2);
        let fwd = |s: Set<A>| s.insert(x);
        let rev = |s: Set<A>| s.remove(x);
        assert(pset(d) =~= p2.union(p2.map_by(fwd, rev))) by {
            assert forall|s: Set<A>| pset(d).contains(s) implies p2.union(
                p2.map_by(fwd, rev),
            ).contains(s) by {
                if s.contains(x) {
                    assert(s.remove(x).finite() && s.remove(x).subset_of(d2));
                    assert(p2.contains(rev(s)));
                    assert(s == fwd(rev(s))) by {
                        assert(s =~= s.remove(x).insert(x));
                    }
                    assert(p2.map_by(fwd, rev).contains(s));
                } else {
                    assert(s.subset_of(d2));
                    assert(p2.contains(s));
                }
            }
            assert forall|s: Set<A>| p2.union(p2.map_by(fwd, rev)).contains(s) implies pset(
                d,
            ).contains(s) by {
                if p2.contains(s) {
                    assert(s.subset_of(d));
                } else {
                    assert(p2.contains(rev(s)) && s == fwd(rev(s)));
                    assert(s.remove(x).finite());
                    vstd::set_lib::lemma_set_insert_finite_iff(s.remove(x), x);
                    assert(s.finite());
                    assert(s.subset_of(d));
                }
            }
        }
        p2.lemma_map_by_finite(fwd, rev);
        vstd::set_lib::lemma_set_union_finite_iff(p2, p2.map_by(fwd, rev));
    }
}

} // verus!
