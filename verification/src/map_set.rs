use vstd::prelude::*;

use crate::syntax::{Terminal, Variable};

verus! {

broadcast use vstd::seq_lib::group_seq_properties;

/// A map from variables to sets of terminals, kept as a flat list of
/// bindings. A key may occur in several bindings; the set it maps to is the
/// union of their values, so the view below is the only meaning the
/// operations promise.
#[derive(Clone, Debug)]
pub struct MapSet {
    pub entries: Vec<(Variable, Vec<Terminal>)>,
}

impl MapSet {
    /// The set of terminals bound to `k`: empty when `k` is absent.
    pub open spec fn spec_get(self, k: Variable) -> Set<Terminal> {
        Set::new(
            |t: Terminal|
                exists|i: int|
                    0 <= i < self.entries@.len() && (#[trigger] self.entries@[i]).0 == k
                        && self.entries@[i].1@.contains(t),
        )
    }

    /// Every terminal bound to any key.
    pub open spec fn all_values(self) -> Set<Terminal> {
        Set::new(
            |t: Terminal|
                exists|i: int|
                    0 <= i < self.entries@.len() && (#[trigger] self.entries@[i]).1@.contains(t),
        )
    }

    /// The empty map.
    pub fn empty() -> (r: MapSet)
        ensures
            forall|k: Variable| #[trigger] r.spec_get(k) == Set::<Terminal>::empty(),
    {
        let r = MapSet { entries: Vec::new() };
        proof {
            assert forall|k: Variable| #[trigger] r.spec_get(k) == Set::<Terminal>::empty() by {
                assert(r.spec_get(k) =~= Set::<Terminal>::empty());
            }
        }
        r
    }

    /// A map with one binding.
    pub fn new(key: Variable, values: Vec<Terminal>) -> (r: MapSet)
        ensures
            r.spec_get(key) == values@.to_set(),
            forall|k: Variable| k != key ==> #[trigger] r.spec_get(k) == Set::<Terminal>::empty(),
    {
        let mut entries: Vec<(Variable, Vec<Terminal>)> = Vec::new();
        entries.push((key, values));
        let r = MapSet { entries };
        proof {
            assert(r.spec_get(key) =~= values@.to_set()) by {
                assert forall|t: Terminal| values@.to_set().contains(t) implies r.spec_get(
                    key,
                ).contains(t) by {
                    assert(r.entries@[0].0 == key && r.entries@[0].1@.contains(t));
                }
            }
            assert forall|k: Variable| k != key implies #[trigger] r.spec_get(k) == Set::<
                Terminal,
            >::empty() by {
                assert(r.spec_get(k) =~= Set::<Terminal>::empty());
            }
        }
        r
    }

    /// Binds one more terminal to `key`.
    pub fn add(&mut self, key: Variable, value: Terminal)
        ensures
            final(self).spec_get(key) == old(self).spec_get(key).insert(value),
            forall|k: Variable|
                k != key ==> #[trigger] final(self).spec_get(k) == old(self).spec_get(k),
    {
        let ghost pre = *self;
        let mut values: Vec<Terminal> = Vec::new();
        values.push(value);
        self.entries.push((key, values));
        proof {
            self.lemma_push_view(pre, key, values);
            assert(values@[0] == value);
            assert(values@.to_set() =~= Set::<Terminal>::empty().insert(value));
            assert(self.spec_get(key) =~= pre.spec_get(key).insert(value));
        }
    }

    /// Binds all the given terminals to `key`.
    pub fn append(&mut self, key: Variable, values: Vec<Terminal>)
        ensures
            final(self).spec_get(key) == old(self).spec_get(key).union(values@.to_set()),
            forall|k: Variable|
                k != key ==> #[trigger] final(self).spec_get(k) == old(self).spec_get(k),
    {
        let ghost pre = *self;
        self.entries.push((key, values));
        proof {
            self.lemma_push_view(pre, key, values);
        }
    }

    /// Joins everything bound to `source` into `output` as well.
    pub fn join(&mut self, output: Variable, source: Variable)
        ensures
            final(self).spec_get(output) == old(self).spec_get(output).union(
                old(self).spec_get(source),
            ),
            forall|k: Variable|
                k != output ==> #[trigger] final(self).spec_get(k) == old(self).spec_get(k),
    {
        let values = self.get(source);
        let ghost pre = *self;
        self.entries.push((output, values));
        proof {
            self.lemma_push_view(pre, output, values);
        }
    }

    proof fn lemma_push_view(self, pre: MapSet, key: Variable, values: Vec<Terminal>)
        requires
            self.entries@ == pre.entries@.push((key, values)),
        ensures
            self.spec_get(key) == pre.spec_get(key).union(values@.to_set()),
            forall|k: Variable| k != key ==> #[trigger] self.spec_get(k) == pre.spec_get(k),
    {
        let n = pre.entries@.len() as int;
        assert(self.spec_get(key) =~= pre.spec_get(key).union(values@.to_set())) by {
            assert forall|t: Terminal| pre.spec_get(key).union(values@.to_set()).contains(
                t,
            ) implies self.spec_get(key).contains(t) by {
                if pre.spec_get(key).contains(t) {
                    let i = choose|i: int|
                        0 <= i < pre.entries@.len() && (#[trigger] pre.entries@[i]).0 == key
                            && pre.entries@[i].1@.contains(t);
                    assert(self.entries@[i] == pre.entries@[i]);
                } else {
                    assert(self.entries@[n].0 == key && self.entries@[n].1@.contains(t));
                }
            }
            assert forall|t: Terminal| self.spec_get(key).contains(t) implies pre.spec_get(
                key,
            ).union(values@.to_set()).contains(t) by {
                let i = choose|i: int|
                    0 <= i < self.entries@.len() && (#[trigger] self.entries@[i]).0 == key
                        && self.entries@[i].1@.contains(t);
                if i < n {
                    assert(pre.entries@[i] == self.entries@[i]);
                }
            }
        }
        assert forall|k: Variable| k != key implies #[trigger] self.spec_get(k) == pre.spec_get(
            k,
        ) by {
            assert(self.spec_get(k) =~= pre.spec_get(k)) by {
                assert forall|t: Terminal| self.spec_get(k).contains(t) implies pre.spec_get(
                    k,
                ).contains(t) by {
                    let i = choose|i: int|
                        0 <= i < self.entries@.len() && (#[trigger] self.entries@[i]).0 == k
                            && self.entries@[i].1@.contains(t);
                    assert(i < n);
                    assert(pre.entries@[i] == self.entries@[i]);
                }
                assert forall|t: Terminal| pre.spec_get(k).contains(t) implies self.spec_get(
                    k,
                ).contains(t) by {
                    let i = choose|i: int|
                        0 <= i < pre.entries@.len() && (#[trigger] pre.entries@[i]).0 == k
                            && pre.entries@[i].1@.contains(t);
                    assert(self.entries@[i] == pre.entries@[i]);
                }
            }
        }
    }

    /// Everything bound to `key`.
    #[verifier::loop_isolation(false)]
    pub fn get(&self, key: Variable) -> (r: Vec<Terminal>)
        ensures
            r@.to_set() == self.spec_get(key),
    {
        let mut r: Vec<Terminal> = Vec::new();
        let mut i: usize = 0;
        while i < self.entries.len()
            invariant
                i <= self.entries@.len(),
                forall|t: Terminal| #[trigger]
                    r@.contains(t) <==> exists|j: int|
                        0 <= j < i && (#[trigger] self.entries@[j]).0 == key
                            && self.entries@[j].1@.contains(t),
            decreases self.entries@.len() - i,
        {
            if self.entries[i].0 == key {
                let ghost pre = r@;
                let values = &self.entries[i].1;
                let mut j: usize = 0;
                while j < values.len()
                    invariant
                        j <= values@.len(),
                        forall|t: Terminal| #[trigger]
                            r@.contains(t) <==> pre.contains(t) || exists|l: int|
                                0 <= l < j && values@[l] == t,
                    decreases values@.len() - j,
                {
                    r.push(values[j]);
                    j = j + 1;
                }
                proof {
                    assert forall|t: Terminal| #[trigger] r@.contains(t) implies pre.contains(t)
                        || values@.contains(t) by {}
                }
            }
            i = i + 1;
        }
        proof {
            assert(r@.to_set() =~= self.spec_get(key)) by {
                assert forall|t: Terminal| r@.to_set().contains(t) implies self.spec_get(
                    key,
                ).contains(t) by {}
                assert forall|t: Terminal| self.spec_get(key).contains(t) implies r@.to_set()
                    .contains(t) by {}
            }
        }
        r
    }

    /// Every terminal bound to any key.
    #[verifier::loop_isolation(false)]
    pub fn all(&self) -> (r: Vec<Terminal>)
        ensures
            r@.to_set() == self.all_values(),
    {
        let mut r: Vec<Terminal> = Vec::new();
        let mut i: usize = 0;
        while i < self.entries.len()
            invariant
                i <= self.entries@.len(),
                forall|t: Terminal| #[trigger]
                    r@.contains(t) <==> exists|j: int|
                        0 <= j < i && (#[trigger] self.entries@[j]).1@.contains(t),
            decreases self.entries@.len() - i,
        {
            let ghost pre = r@;
            let values = &self.entries[i].1;
            let mut j: usize = 0;
            while j < values.len()
                invariant
                    j <= values@.len(),
                    forall|t: Terminal| #[trigger]
                        r@.contains(t) <==> pre.contains(t) || exists|l: int|
                            0 <= l < j && values@[l] == t,
                decreases values@.len() - j,
            {
                r.push(values[j]);
                j = j + 1;
            }
            i = i + 1;
        }
        proof {
            assert(r@.to_set() =~= self.all_values()) by {
                assert forall|t: Terminal| r@.to_set().contains(t) implies self.all_values()
                    .contains(t) by {}
                assert forall|t: Terminal| self.all_values().contains(t) implies r@.to_set()
                    .contains(t) by {}
            }
        }
        r
    }
}

} // verus!
