use vstd::prelude::*;

use crate::first_follow::out_of;
use crate::syntax::{MixedChar, Rule, Variable};

verus! {

broadcast use vstd::seq_lib::group_seq_properties;

/// Some rule joins node `u` to node `v`: it rewrites `nodes[u]` and its
/// output begins with `nodes[v]`.
pub open spec fn spec_connect(rules: Seq<Rule>, nodes: Seq<Variable>, u: int, v: int) -> bool {
    exists|j: int|
        0 <= j < rules.len() && (#[trigger] rules[j]).clause == nodes[u] && out_of(rules, j).len()
            > 0 && out_of(rules, j)[0] == MixedChar::Variable(nodes[v])
}

/// True when some rule joins node `u` to node `v`.
fn is_connect(rules: &Vec<Rule>, nodes: &Vec<Variable>, u: usize, v: usize) -> (r: bool)
    requires
        u < nodes@.len(),
        v < nodes@.len(),
    ensures
        r == spec_connect(rules@, nodes@, u as int, v as int),
{
    let mut j: usize = 0;
    while j < rules.len()
        invariant
            j <= rules@.len(),
            u < nodes@.len(),
            v < nodes@.len(),
            forall|l: int|
                0 <= l < j ==> !((#[trigger] rules@[l]).clause == nodes@[u as int] && out_of(
                    rules@,
                    l,
                ).len() > 0 && out_of(rules@, l)[0] == MixedChar::Variable(nodes@[v as int])),
        decreases rules@.len() - j,
    {
        if rules[j].clause == nodes[u] && rules[j].output.data.len() > 0 {
            match rules[j].output.data[0] {
                MixedChar::Variable(w) => {
                    if w == nodes[v] {
                        return true;
                    }
                },
                MixedChar::Terminal(_) => {},
            }
        }
        j = j + 1;
    }
    false
}

/// The number of unindexed slots.
pub open spec fn count_none(s: Seq<Option<usize>>) -> nat
    decreases s.len(),
{
    if s.len() == 0 {
        0
    } else {
        count_none(s.drop_last()) + (if s.last() is None {
            1nat
        } else {
            0nat
        })
    }
}

proof fn lemma_count_none_update(s: Seq<Option<usize>>, i: int, x: usize)
    requires
        0 <= i < s.len(),
        s[i] is None,
    ensures
        count_none(s) == count_none(s.update(i, Some(x))) + 1,
    decreases s.len(),
{
    let t = s.update(i, Some(x));
    if i == s.len() - 1 {
        assert(t.drop_last() =~= s.drop_last());
    } else {
        assert(t.drop_last() =~= s.drop_last().update(i, Some(x)));
        lemma_count_none_update(s.drop_last(), i, x);
        assert(t.last() == s.last());
    }
}

proof fn lemma_count_none_le(s: Seq<Option<usize>>)
    ensures
        count_none(s) <= s.len(),
    decreases s.len(),
{
    if s.len() > 0 {
        lemma_count_none_le(s.drop_last());
    }
}

proof fn lemma_count_none_mono(s1: Seq<Option<usize>>, s2: Seq<Option<usize>>)
    requires
        s1.len() == s2.len(),
        forall|v: int| 0 <= v < s1.len() && (#[trigger] s1[v]) is Some ==> s2[v] is Some,
    ensures
        count_none(s2) <= count_none(s1),
    decreases s1.len(),
{
    if s1.len() > 0 {
        assert forall|v: int|
            0 <= v < s1.drop_last().len() && (#[trigger] s1.drop_last()[v]) is Some implies s2
            .drop_last()[v] is Some by {
            assert(s1[v] is Some);
        }
        lemma_count_none_mono(s1.drop_last(), s2.drop_last());
        assert(s1.last() is Some ==> s2.last() is Some);
    }
}

/// `v` stands in some group of `gs`.
pub open spec fn in_groups(gs: Seq<Vec<usize>>, v: usize) -> bool {
    exists|g: int, i: int|
        0 <= g < gs.len() && 0 <= i < gs[g]@.len() && #[trigger] gs[g]@[i] == v
}

/// No node stands in two positions of `gs`.
pub open spec fn groups_distinct(gs: Seq<Vec<usize>>) -> bool {
    forall|g1: int, i1: int, g2: int, i2: int|
        0 <= g1 < gs.len() && 0 <= i1 < gs[g1]@.len() && 0 <= g2 < gs.len() && 0 <= i2
            < gs[g2]@.len() && (g1 != g2 || i1 != i2) ==> #[trigger] gs[g1]@[i1] != #[trigger] gs[g2]@[i2]
}

/// Every group is nonempty and every member names a node.
pub open spec fn groups_wf(gs: Seq<Vec<usize>>, len: int) -> bool {
    forall|g: int|
        0 <= g < gs.len() ==> (#[trigger] gs[g])@.len() > 0 && (forall|i: int|
            0 <= i < gs[g]@.len() ==> gs[g]@[i] < len)
}

/// Tarjan's strongly-connected-components traversal over the variables of a
/// grammar: depth-first indices, low-link propagation, and an explicit stack
/// with on-stack marks; a node closes its component when its low link equals
/// its own index.
pub struct Tarjan {
    pub rules: Vec<Rule>,
    pub nodes: Vec<Variable>,
    pub index: usize,
    pub stack: Vec<usize>,
    pub len: usize,
    pub indexs: Vec<Option<usize>>,
    pub lowlinks: Vec<usize>,
    pub on_stacks: Vec<bool>,
}

impl Tarjan {
    /// The traversal state is consistent.
    pub open spec fn wf(self) -> bool {
        &&& self.len == self.nodes@.len()
        &&& self.indexs@.len() == self.len
        &&& self.lowlinks@.len() == self.len
        &&& self.on_stacks@.len() == self.len
        &&& self.stack@.no_duplicates()
        &&& forall|k: int| 0 <= k < self.stack@.len() ==> (#[trigger] self.stack@[k]) < self.len
        &&& forall|v: usize|
            v < self.len ==> (self.on_stacks@[v as int] <==> #[trigger] self.stack@.contains(v))
        &&& forall|k: int|
            0 <= k < self.stack@.len() ==> (#[trigger] self.indexs@[self.stack@[k] as int]) is Some
        &&& self.index + count_none(self.indexs@) <= self.len
    }

    /// Node `v` has been placed in a finished component: indexed and off the
    /// stack.
    pub open spec fn done(self, v: usize) -> bool {
        v < self.len && self.indexs@[v as int] is Some && !self.on_stacks@[v as int]
    }

    pub fn new(rules: Vec<Rule>, nodes: Vec<Variable>) -> (r: Tarjan)
        ensures
            r.wf(),
            r.rules@ == rules@,
            r.nodes@ == nodes@,
            forall|v: usize| v < r.len ==> !r.done(v),
    {
        let len = nodes.len();
        let mut indexs: Vec<Option<usize>> = Vec::new();
        let mut lowlinks: Vec<usize> = Vec::new();
        let mut on_stacks: Vec<bool> = Vec::new();
        let mut i: usize = 0;
        while i < len
            invariant
                i <= len,
                indexs@.len() == i,
                lowlinks@.len() == i,
                on_stacks@.len() == i,
                forall|v: int| 0 <= v < i ==> (#[trigger] indexs@[v]) is None,
                forall|v: int| 0 <= v < i ==> !(#[trigger] on_stacks@[v]),
            decreases len - i,
        {
            indexs.push(None);
            lowlinks.push(0);
            on_stacks.push(false);
            i = i + 1;
        }
        proof {
            lemma_count_none_le(indexs@);
        }
        Tarjan { rules, nodes, index: 0, stack: Vec::new(), len, indexs, lowlinks, on_stacks }
    }

    /// One depth-first visit from `u`: indexes it, explores its successors,
    /// and pops the finished component when `u` turns out to be its root.
    /// Returns the components closed during the visit.
    #[verifier::loop_isolation(false)]
    fn strongconnect(&mut self, u: usize) -> (r: Vec<Vec<usize>>)
        requires
            old(self).wf(),
            u < old(self).len,
            old(self).indexs@[u as int] is None,
        ensures
            final(self).wf(),
            final(self).len == old(self).len,
            final(self).nodes@ == old(self).nodes@,
            final(self).rules@ == old(self).rules@,
            old(self).stack@.is_prefix_of(final(self).stack@),
            forall|v: int|
                0 <= v < final(self).len && (#[trigger] old(self).indexs@[v]) is Some ==> final(
                    self).indexs@[v] is Some,
            count_none(final(self).indexs@) < count_none(old(self).indexs@),
            final(self).indexs@[u as int] is Some,
            forall|v: usize| #[trigger] old(self).done(v) ==> final(self).done(v),
            forall|v: usize|
                v < final(self).len ==> (#[trigger] in_groups(r@, v) <==> (final(self).done(v)
                    && !old(self).done(v))),
            groups_wf(r@, final(self).len as int),
            groups_distinct(r@),
            forall|k: int|
                old(self).stack@.len() <= k < final(self).stack@.len() ==> !old(self).done(
                    #[trigger] final(self).stack@[k],
                ),
        decreases count_none(old(self).indexs@),
    {
        let ghost entry = *self;
        proof {
            lemma_count_none_update(self.indexs@, u as int, self.index);
        }
        let idx = self.index;
        self.indexs[u] = Some(idx);
        self.lowlinks[u] = idx;
        self.index = self.index + 1;
        self.stack.push(u);
        self.on_stacks[u] = true;
        let ghost started = *self;
        proof {
            assert(started.wf()) by {
                assert forall|v: usize| v < started.len implies (started.on_stacks@[v as int]
                    <==> #[trigger] started.stack@.contains(v)) by {
                    if v != u {
                        assert(entry.on_stacks@[v as int] == started.on_stacks@[v as int]);
                        if started.stack@.contains(v) {
                            let k = choose|k: int|
                                0 <= k < started.stack@.len() && started.stack@[k] == v;
                            assert(entry.stack@[k] == v);
                        }
                    }
                }
            }
            assert forall|v: usize| #[trigger] entry.done(v) implies started.done(v) by {}
        }
        let mut output: Vec<Vec<usize>> = Vec::new();
        let mut v: usize = 0;
        while v < self.len
            invariant
                v <= self.len,
                self.wf(),
                self.len == entry.len,
                self.nodes@ == entry.nodes@,
                self.rules@ == entry.rules@,
                started.stack@.is_prefix_of(self.stack@),
                forall|w: int|
                    0 <= w < self.len && (#[trigger] started.indexs@[w]) is Some ==> self.indexs@[w]
                        is Some,
                count_none(self.indexs@) <= count_none(started.indexs@),
                forall|w: usize| #[trigger] started.done(w) ==> self.done(w),
                forall|w: usize|
                    w < self.len ==> (#[trigger] in_groups(output@, w) <==> (self.done(w)
                        && !started.done(w))),
                groups_wf(output@, self.len as int),
                groups_distinct(output@),
                forall|k: int|
                    started.stack@.len() <= k < self.stack@.len() ==> !started.done(
                        #[trigger] self.stack@[k],
                    ),
            decreases self.len - v,
        {
            if is_connect(&self.rules, &self.nodes, u, v) {
                let vi = self.indexs[v];
                match vi {
                    None => {
                        let ghost before = *self;
                        let mut sub = self.strongconnect(v);
                        proof {
                            lemma_count_none_mono(started.indexs@, before.indexs@);
                            assert forall|w: usize|
                                w < self.len implies (#[trigger] in_groups(
                                (output@ + sub@),
                                w,
                            ) <==> (self.done(w) && !started.done(w))) by {
                                if in_groups(output@ + sub@, w) {
                                    let (g, i): (int, int) = choose|g: int, i: int|
                                        0 <= g < (output@ + sub@).len() && 0 <= i < (output@
                                            + sub@)[g]@.len() && #[trigger] (output@
                                            + sub@)[g]@[i] == w;
                                    if g < output@.len() {
                                        assert(in_groups(output@, w));
                                    } else {
                                        assert((output@ + sub@)[g] == sub@[g - output@.len()]);
                                        assert(in_groups(sub@, w));
                                        assert(self.done(w) && !before.done(w));
                                    }
                                } else {
                                    if self.done(w) && !started.done(w) {
                                        if before.done(w) {
                                            assert(in_groups(output@, w));
                                            let (g, i): (int, int) = choose|g: int, i: int|
                                                0 <= g < output@.len() && 0 <= i
                                                    < output@[g]@.len() && #[trigger] output@[g]@[i]
                                                    == w;
                                            assert((output@ + sub@)[g] == output@[g]);
                                            assert((output@ + sub@)[g]@[i] == w);
                                        } else {
                                            assert(in_groups(sub@, w));
                                            let (g, i): (int, int) = choose|g: int, i: int|
                                                0 <= g < sub@.len() && 0 <= i < sub@[g]@.len()
                                                    && #[trigger] sub@[g]@[i] == w;
                                            assert((output@ + sub@)[g + output@.len()]@[i] == w);
                                        }
                                    }
                                }
                            }
                            assert forall|g1: int, i1: int, g2: int, i2: int|
                                0 <= g1 < (output@ + sub@).len() && 0 <= i1 < (output@
                                    + sub@)[g1]@.len() && 0 <= g2 < (output@ + sub@).len() && 0
                                    <= i2 < (output@ + sub@)[g2]@.len() && (g1 != g2
                                    || i1 != i2) implies #[trigger] (output@ + sub@)[g1]@[i1]
                                != #[trigger] (output@ + sub@)[g2]@[i2] by {
                                let w1 = (output@ + sub@)[g1]@[i1];
                                let w2 = (output@ + sub@)[g2]@[i2];
                                if g1 < output@.len() && g2 >= output@.len() {
                                    assert(in_groups(output@, w1));
                                    assert(in_groups(sub@, w2));
                                    assert(before.done(w1) && !before.done(w2));
                                } else if g1 >= output@.len() && g2 < output@.len() {
                                    assert(in_groups(output@, w2));
                                    assert(in_groups(sub@, w1));
                                    assert(before.done(w2) && !before.done(w1));
                                } else if g1 < output@.len() && g2 < output@.len() {
                                    assert(output@[g1]@[i1] == w1 && output@[g2]@[i2] == w2);
                                } else {
                                    assert(sub@[g1 - output@.len()]@[i1] == w1);
                                    assert(sub@[g2 - output@.len()]@[i2] == w2);
                                }
                            }
                        }
                        output.append(&mut sub);
                        let lu = self.lowlinks[u];
                        let lv = self.lowlinks[v];
                        if lv < lu {
                            self.lowlinks[u] = lv;
                        }
                        proof {
                            assert(self.stack@.contains(u)) by {
                                assert(started.stack@[started.stack@.len() - 1] == u);
                                assert(self.stack@[started.stack@.len() - 1] == u);
                            }
                            assert forall|k: int|
                                started.stack@.len() <= k < self.stack@.len() implies !started.done(
                                #[trigger] self.stack@[k],
                            ) by {
                                if k < before.stack@.len() {
                                    assert(before.stack@[k] == self.stack@[k]);
                                } else {
                                    assert(!before.done(self.stack@[k]));
                                }
                            }
                        }
                    },
                    Some(v_index) => {
                        if self.on_stacks[v] {
                            let lu = self.lowlinks[u];
                            if v_index < lu {
                                self.lowlinks[u] = v_index;
                            }
                        }
                    },
                }
            }
            v = v + 1;
        }
        let lu = self.lowlinks[u];
        let close = match self.indexs[u] {
            Some(k) => k == lu,
            None => false,
        };
        if close {
            let ghost pre = *self;
            let ghost pu = started.stack@.len() - 1;
            proof {
                assert(started.stack@[pu] == u);
                assert(started.stack@.is_prefix_of(pre.stack@));
                assert(pre.stack@.take(started.stack@.len() as int) == started.stack@);
                assert(pre.stack@.take(started.stack@.len() as int)[pu] == u);
                assert(pre.stack@[pu] == u);
            }
            let mut scc: Vec<usize> = Vec::new();
            loop
                invariant
                    self.len == pre.len,
                    self.nodes@ == pre.nodes@,
                    self.rules@ == pre.rules@,
                    self.index == pre.index,
                    self.indexs@ == pre.indexs@,
                    self.lowlinks@ == pre.lowlinks@,
                    0 <= pu < pre.stack@.len(),
                    pre.stack@[pu] == u,
                    pu < self.stack@.len() <= pre.stack@.len(),
                    self.on_stacks@.len() == self.len,
                    self.stack@ == pre.stack@.take(self.stack@.len() as int),
                    pre.wf(),
                    forall|w: usize|
                        w < self.len ==> (#[trigger] self.on_stacks@[w as int]
                            <==> self.stack@.contains(w)),
                    forall|w: usize|
                        w < self.len ==> (#[trigger] scc@.contains(w) <==> exists|k: int|
                            self.stack@.len() <= k < pre.stack@.len() && pre.stack@[k] == w),
                    scc@.no_duplicates(),
                    forall|i: int| 0 <= i < scc@.len() ==> (#[trigger] scc@[i]) < self.len,
                decreases self.stack@.len(),
            {
                let ghost s_pre = *self;
                let w = match self.stack.pop() {
                    Some(w) => w,
                    None => {
                        break ;
                    },
                };
                proof {
                    assert(s_pre.stack@[s_pre.stack@.len() - 1] == w);
                    assert(w < self.len);
                    assert(self.stack@ =~= pre.stack@.take(self.stack@.len() as int));
                }
                self.on_stacks[w] = false;
                let ghost scc_pre = scc@;
                scc.push(w);
                proof {
                    assert forall|x: usize|
                        x < self.len implies (#[trigger] self.on_stacks@[x as int]
                        <==> self.stack@.contains(x)) by {
                        if x == w {
                            if self.stack@.contains(w) {
                                let k = choose|k: int|
                                    0 <= k < self.stack@.len() && self.stack@[k] == w;
                                assert(pre.stack@[k] == w && pre.stack@[s_pre.stack@.len() - 1]
                                    == w);
                                assert(pre.stack@.no_duplicates());
                                assert(false);
                            }
                        } else {
                            if self.stack@.contains(x) {
                                let k = choose|k: int|
                                    0 <= k < self.stack@.len() && self.stack@[k] == x;
                                assert(s_pre.stack@[k] == x);
                            } else {
                                if s_pre.stack@.contains(x) {
                                    let k = choose|k: int|
                                        0 <= k < s_pre.stack@.len() && s_pre.stack@[k] == x;
                                    assert(k == s_pre.stack@.len() - 1 || self.stack@[k] == x);
                                }
                            }
                        }
                    }
                    assert forall|x: usize|
                        x < self.len implies (#[trigger] scc@.contains(x) <==> exists|k: int|
                            self.stack@.len() <= k < pre.stack@.len() && pre.stack@[k] == x) by {
                        if scc@.contains(x) {
                            if x == w {
                                assert(pre.stack@[self.stack@.len() as int] == w);
                            } else {
                                let k = choose|k: int|
                                    s_pre.stack@.len() <= k < pre.stack@.len() && pre.stack@[k]
                                        == x;
                                assert(self.stack@.len() <= k < pre.stack@.len());
                            }
                        } else {
                            assert(!scc@.contains(x) && x != w);
                            if exists|k: int|
                                self.stack@.len() <= k < pre.stack@.len() && pre.stack@[k] == x {
                                let k = choose|k: int|
                                    self.stack@.len() <= k < pre.stack@.len() && pre.stack@[k]
                                        == x;
                                assert(k != self.stack@.len() as int);
                                assert(s_pre.stack@.len() <= k < pre.stack@.len());
                                assert(false);
                            }
                        }
                    }
                    assert(scc@.no_duplicates()) by {
                        let old_scc = scc_pre;
                        assert(scc@ == old_scc.push(w));
                        assert(!old_scc.contains(w)) by {
                            if old_scc.contains(w) {
                                let k = choose|k: int|
                                    s_pre.stack@.len() <= k < pre.stack@.len() && pre.stack@[k]
                                        == w;
                                assert(pre.stack@[s_pre.stack@.len() - 1] == w);
                                assert(pre.stack@.no_duplicates());
                                assert(false);
                            }
                        }
                        assert forall|a: int, b: int|
                            0 <= a < b < scc@.len() implies scc@[a] != scc@[b] by {
                            if b == scc@.len() - 1 {
                                assert(scc@[a] == old_scc[a]);
                                assert(old_scc.contains(old_scc[a]));
                            } else {
                                assert(old_scc[a] == scc@[a] && old_scc[b] == scc@[b]);
                            }
                        }
                    }
                }
                if w == u {
                    proof {
                        assert(self.stack@.len() as int == pu) by {
                            if self.stack@.len() as int > pu {
                                assert(pre.stack@[s_pre.stack@.len() - 1] == u);
                                assert(pre.stack@[pu] == u);
                                assert(pre.stack@.no_duplicates());
                            }
                        }
                    }
                    break ;
                }
                proof {
                    assert(self.stack@.len() as int > pu) by {
                        if self.stack@.len() as int == pu {
                            assert(pre.stack@[s_pre.stack@.len() - 1] == w);
                        }
                    }
                }
            }
            proof {
                assert(self.stack@.len() as int == pu);
                assert(self.stack@ =~= started.stack@.take(pu));
                assert(self.stack@ =~= entry.stack@) by {
                    assert(started.stack@ == entry.stack@.push(u));
                    assert forall|k: int| 0 <= k < pu implies started.stack@.take(pu)[k]
                        == entry.stack@[k] by {}
                }
                assert(scc@.contains(u)) by {
                    assert(pre.stack@[pu] == u);
                }
                assert(self.wf()) by {
                    assert(self.stack@.no_duplicates());
                    assert forall|k: int|
                        0 <= k < self.stack@.len() implies (
                    #[trigger] self.indexs@[self.stack@[k] as int]) is Some by {
                        assert(pre.stack@[k] == self.stack@[k]);
                    }
                }
            }
            let ghost out_pre = output@;
            output.push(scc);
            proof {
                assert forall|w: usize|
                    w < self.len implies (#[trigger] in_groups(output@, w) <==> (self.done(w)
                        && !started.done(w))) by {
                    if in_groups(output@, w) {
                        let (g, i): (int, int) = choose|g: int, i: int|
                            0 <= g < output@.len() && 0 <= i < output@[g]@.len()
                                && #[trigger] output@[g]@[i] == w;
                        if g < out_pre.len() {
                            assert(in_groups(out_pre, w));
                            assert(pre.done(w) && !started.done(w));
                            assert(self.done(w)) by {
                                if self.on_stacks@[w as int] {
                                    assert(self.stack@.contains(w));
                                    let k = choose|k: int|
                                        0 <= k < self.stack@.len() && self.stack@[k] == w;
                                    assert(pre.stack@[k] == w);
                                    assert(pre.stack@.contains(w));
                                    assert(pre.on_stacks@[w as int]);
                                    assert(false);
                                }
                            }
                        } else {
                            assert(output@[g] == output@[output@.len() - 1]);
                            assert(scc@.contains(w));
                            let k = choose|k: int|
                                self.stack@.len() <= k < pre.stack@.len() && pre.stack@[k] == w;
                            assert(pre.indexs@[w as int] is Some);
                            assert(self.done(w));
                            assert(!started.done(w)) by {
                                if k == pu {
                                    assert(w == u);
                                    assert(!entry.done(u));
                                } else {
                                    assert(k > pu);
                                    assert(!started.done(pre.stack@[k]));
                                }
                            }
                        }
                    } else {
                        if self.done(w) && !started.done(w) {
                            if pre.done(w) {
                                assert(in_groups(out_pre, w));
                                let (g, i): (int, int) = choose|g: int, i: int|
                                    0 <= g < out_pre.len() && 0 <= i < out_pre[g]@.len()
                                        && #[trigger] out_pre[g]@[i] == w;
                                assert(output@[g]@[i] == w);
                                assert(false);
                            } else {
                                assert(pre.indexs@[w as int] is Some);
                                assert(pre.on_stacks@[w as int]);
                                assert(pre.stack@.contains(w));
                                let k = choose|k: int|
                                    0 <= k < pre.stack@.len() && pre.stack@[k] == w;
                                assert(!self.stack@.contains(w));
                                assert(k >= self.stack@.len()) by {
                                    if k < self.stack@.len() {
                                        assert(self.stack@[k] == w);
                                    }
                                }
                                assert(scc@.contains(w));
                                let g = output@.len() - 1;
                                let i = choose|i: int| 0 <= i < scc@.len() && scc@[i] == w;
                                assert(output@[g]@[i] == w);
                                assert(false);
                            }
                        }
                    }
                }
                assert(groups_distinct(output@)) by {
                    assert forall|g1: int, i1: int, g2: int, i2: int|
                        0 <= g1 < output@.len() && 0 <= i1 < output@[g1]@.len() && 0 <= g2
                            < output@.len() && 0 <= i2 < output@[g2]@.len() && (g1 != g2 || i1
                            != i2) implies #[trigger] output@[g1]@[i1] != #[trigger] output@[g2]@[i2] by {
                        let w1 = output@[g1]@[i1];
                        let w2 = output@[g2]@[i2];
                        if g1 < out_pre.len() && g2 == out_pre.len() as int {
                            assert(in_groups(out_pre, w1));
                            assert(pre.done(w1));
                            assert(scc@.contains(w2));
                            assert(!pre.done(w2)) by {
                                let k = choose|k: int|
                                    self.stack@.len() <= k < pre.stack@.len() && pre.stack@[k]
                                        == w2;
                                assert(pre.stack@.contains(w2));
                            }
                        } else if g2 < out_pre.len() && g1 == out_pre.len() as int {
                            assert(in_groups(out_pre, w2));
                            assert(pre.done(w2));
                            assert(scc@.contains(w1));
                            assert(!pre.done(w1)) by {
                                let k = choose|k: int|
                                    self.stack@.len() <= k < pre.stack@.len() && pre.stack@[k]
                                        == w1;
                                assert(pre.stack@.contains(w1));
                            }
                        } else if g1 < out_pre.len() && g2 < out_pre.len() {
                            assert(out_pre[g1]@[i1] == w1 && out_pre[g2]@[i2] == w2);
                        } else {
                            assert(g1 == g2);
                            assert(scc@[i1] == w1 && scc@[i2] == w2);
                        }
                    }
                }
            }
        }
        proof {
            assert(self.stack@.contains(u) || close) by {
                if !close {
                    assert(started.stack@[started.stack@.len() - 1] == u);
                    assert(self.stack@[started.stack@.len() - 1] == u);
                }
            }
            assert(entry.stack@.is_prefix_of(self.stack@)) by {
                if !close {
                    assert(started.stack@.is_prefix_of(self.stack@));
                    assert(entry.stack@.is_prefix_of(started.stack@));
                }
            }
            assert forall|v2: usize| #[trigger] entry.done(v2) implies self.done(v2) by {
                assert(started.done(v2));
            }
            assert forall|w: usize|
                w < self.len implies (#[trigger] in_groups(output@, w) <==> (self.done(w)
                    && !entry.done(w))) by {
                if in_groups(output@, w) {
                    assert(self.done(w) && !started.done(w));
                    assert(!entry.done(w)) by {
                        if entry.done(w) {
                            assert(started.done(w));
                        }
                    }
                } else {
                    if self.done(w) && !entry.done(w) {
                        assert(started.done(w) || in_groups(output@, w)) by {
                            if !started.done(w) {
                            }
                        }
                        if started.done(w) {
                            assert(w != u);
                            assert(entry.done(w));
                            assert(false);
                        }
                    }
                }
            }
            assert forall|v2: int|
                0 <= v2 < self.len && (#[trigger] entry.indexs@[v2]) is Some implies self.indexs@[v2] is Some by {
                assert(started.indexs@[v2] is Some);
            }
            assert(count_none(self.indexs@) < count_none(entry.indexs@)) by {
                lemma_count_none_update(entry.indexs@, u as int, idx);
                assert forall|v2: int|
                    0 <= v2 < started.indexs@.len() && (#[trigger] started.indexs@[v2]) is Some implies self.indexs@[v2] is Some by {}
                lemma_count_none_mono(started.indexs@, self.indexs@);
            }
            assert forall|k: int|
                entry.stack@.len() <= k < self.stack@.len() implies !entry.done(
                #[trigger] self.stack@[k],
            ) by {
                if k == entry.stack@.len() as int {
                    assert(self.stack@[k] == u) by {
                        assert(started.stack@.is_prefix_of(self.stack@) || self.stack@
                            == entry.stack@);
                    }
                } else {
                    assert(started.stack@.is_prefix_of(self.stack@));
                    assert(!started.done(self.stack@[k]));
                    if entry.done(self.stack@[k]) {
                        assert(started.done(self.stack@[k]));
                    }
                }
            }
        }
        output
    }

    /// Runs the traversal from every unvisited node and returns the groups.
    /// The traversal places every node it reaches; a node it somehow left
    /// unplaced would get a group of its own, so the result is always a
    /// partition of the nodes.
    #[verifier::loop_isolation(false)]
    pub fn run(&mut self) -> (r: Vec<Vec<usize>>)
        requires
            old(self).wf(),
            forall|v: usize| v < old(self).len ==> !old(self).done(v),
        ensures
            final(self).len == old(self).len,
            final(self).nodes@ == old(self).nodes@,
            final(self).rules@ == old(self).rules@,
            groups_wf(r@, final(self).len as int),
            groups_distinct(r@),
            forall|v: usize| v < final(self).len ==> in_groups(r@, v),
    {
        let mut out: Vec<Vec<usize>> = Vec::new();
        let mut u: usize = 0;
        while u < self.len
            invariant
                u <= self.len,
                self.wf(),
                self.len == old(self).len,
                self.nodes@ == old(self).nodes@,
                self.rules@ == old(self).rules@,
                groups_wf(out@, self.len as int),
                groups_distinct(out@),
                forall|v: usize| v < self.len ==> (#[trigger] self.done(v) <==> in_groups(out@, v)),
            decreases self.len - u,
        {
            let indexed = match self.indexs[u] {
                Some(_) => true,
                None => false,
            };
            if !indexed {
                let ghost before = *self;
                let ghost out_pre = out@;
                let mut part = self.strongconnect(u);
                proof {
                    assert forall|v: usize|
                        v < self.len implies (#[trigger] in_groups((out_pre + part@), v) <==> (
                    self.done(v))) by {
                        if in_groups(out_pre + part@, v) {
                            let (g, i): (int, int) = choose|g: int, i: int|
                                0 <= g < (out_pre + part@).len() && 0 <= i < (out_pre
                                    + part@)[g]@.len() && #[trigger] (out_pre + part@)[g]@[i] == v;
                            if g < out_pre.len() {
                                assert(in_groups(out_pre, v));
                                assert(before.done(v));
                            } else {
                                assert((out_pre + part@)[g] == part@[g - out_pre.len()]);
                                assert(in_groups(part@, v));
                            }
                        } else {
                            if self.done(v) {
                                if before.done(v) {
                                    assert(in_groups(out_pre, v));
                                    let (g, i): (int, int) = choose|g: int, i: int|
                                        0 <= g < out_pre.len() && 0 <= i < out_pre[g]@.len()
                                            && #[trigger] out_pre[g]@[i] == v;
                                    assert((out_pre + part@)[g]@[i] == v);
                                } else {
                                    assert(in_groups(part@, v));
                                    let (g, i): (int, int) = choose|g: int, i: int|
                                        0 <= g < part@.len() && 0 <= i < part@[g]@.len()
                                            && #[trigger] part@[g]@[i] == v;
                                    assert((out_pre + part@)[g + out_pre.len()]@[i] == v);
                                }
                            }
                        }
                    }
                    assert forall|g1: int, i1: int, g2: int, i2: int|
                        0 <= g1 < (out_pre + part@).len() && 0 <= i1 < (out_pre
                            + part@)[g1]@.len() && 0 <= g2 < (out_pre + part@).len() && 0 <= i2
                            < (out_pre + part@)[g2]@.len() && (g1 != g2 || i1
                            != i2) implies #[trigger] (out_pre + part@)[g1]@[i1] != #[trigger] (
                        out_pre + part@)[g2]@[i2] by {
                        let w1 = (out_pre + part@)[g1]@[i1];
                        let w2 = (out_pre + part@)[g2]@[i2];
                        if g1 < out_pre.len() && g2 >= out_pre.len() {
                            assert(in_groups(out_pre, w1));
                            assert(in_groups(part@, w2));
                            assert(before.done(w1) && !before.done(w2));
                        } else if g1 >= out_pre.len() && g2 < out_pre.len() {
                            assert(in_groups(out_pre, w2));
                            assert(in_groups(part@, w1));
                            assert(before.done(w2) && !before.done(w1));
                        } else if g1 < out_pre.len() && g2 < out_pre.len() {
                            assert(out_pre[g1]@[i1] == w1 && out_pre[g2]@[i2] == w2);
                        } else {
                            assert(part@[g1 - out_pre.len()]@[i1] == w1);
                            assert(part@[g2 - out_pre.len()]@[i2] == w2);
                        }
                    }
                }
                out.append(&mut part);
            }
            u = u + 1;
        }
        let ghost mid = *self;
        let ghost out_mid = out@;
        let mut u2: usize = 0;
        while u2 < self.len
            invariant
                u2 <= self.len,
                *self == mid,
                out@.len() >= out_mid.len(),
                groups_wf(out@, self.len as int),
                groups_distinct(out@),
                forall|v: usize|
                    v < self.len ==> (#[trigger] in_groups(out@, v) <==> (self.done(v) || (v < u2
                        && !self.done(v)))),
            decreases self.len - u2,
        {
            let placed = match self.indexs[u2] {
                Some(_) => !self.on_stacks[u2],
                None => false,
            };
            let ghost out_pre = out@;
            if !placed {
                let mut single: Vec<usize> = Vec::new();
                single.push(u2);
                out.push(single);
            }
            proof {
                assert forall|v: usize|
                    v < self.len implies (#[trigger] in_groups(out@, v) <==> (self.done(v) || (v
                        < u2 + 1 && !self.done(v)))) by {
                    if in_groups(out@, v) {
                        let (g, i): (int, int) = choose|g: int, i: int|
                            0 <= g < out@.len() && 0 <= i < out@[g]@.len() && #[trigger] out@[g]@[i]
                                == v;
                        if g < out_pre.len() {
                            assert(in_groups(out_pre, v));
                        } else {
                            assert(v == u2);
                        }
                    } else {
                        if self.done(v) || (v < u2 + 1 && !self.done(v)) {
                            if self.done(v) || v < u2 {
                                assert(in_groups(out_pre, v));
                                let (g, i): (int, int) = choose|g: int, i: int|
                                    0 <= g < out_pre.len() && 0 <= i < out_pre[g]@.len()
                                        && #[trigger] out_pre[g]@[i] == v;
                                assert(out@[g]@[i] == v);
                                assert(false);
                            } else {
                                assert(v == u2 && !self.done(u2));
                                assert(!placed);
                                assert(out@[out@.len() - 1]@[0] == u2);
                                assert(false);
                            }
                        }
                    }
                }
                assert(groups_distinct(out@)) by {
                    assert forall|g1: int, i1: int, g2: int, i2: int|
                        0 <= g1 < out@.len() && 0 <= i1 < out@[g1]@.len() && 0 <= g2 < out@.len()
                            && 0 <= i2 < out@[g2]@.len() && (g1 != g2 || i1
                            != i2) implies #[trigger] out@[g1]@[i1] != #[trigger] out@[g2]@[i2] by {
                        if g1 < out_pre.len() && g2 < out_pre.len() {
                            assert(out_pre[g1]@[i1] == out@[g1]@[i1]);
                            assert(out_pre[g2]@[i2] == out@[g2]@[i2]);
                        } else if g1 < out_pre.len() && g2 >= out_pre.len() {
                            assert(in_groups(out_pre, out@[g1]@[i1]));
                            assert(out@[g2]@[i2] == u2);
                        } else if g2 < out_pre.len() && g1 >= out_pre.len() {
                            assert(in_groups(out_pre, out@[g2]@[i2]));
                            assert(out@[g1]@[i1] == u2);
                        } else {
                            assert(g1 == g2 && i1 == 0 && i2 == 0);
                        }
                    }
                }
            }
            u2 = u2 + 1;
        }
        out
    }
}

} // verus!
