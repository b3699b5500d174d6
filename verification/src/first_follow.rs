use vstd::prelude::*;

use crate::map_set::MapSet;
use crate::reach::{
    contains_var, edge_rel, flood, lemma_reach_refl, reaches, reaches_from, is_path,
};
use crate::syntax::{MixedChar, Rule, Terminal, Variable, END_TERMINAL, END_VARIABLE};

verus! {

broadcast use vstd::seq_lib::group_seq_properties;

/// The right-hand side of rule `j`.
pub open spec fn out_of(rules: Seq<Rule>, j: int) -> Seq<MixedChar> {
    rules[j].output.data@
}

/// Terminals that begin a rule for `a` directly: `a -> t...`.
pub open spec fn first_direct(rules: Seq<Rule>, a: Variable) -> Set<Terminal> {
    Set::new(
        |t: Terminal|
            exists|j: int|
                0 <= j < rules.len() && (#[trigger] rules[j]).clause == a && out_of(rules, j).len()
                    > 0 && out_of(rules, j)[0] == MixedChar::Terminal(t),
    )
}

/// The FIRST dependency relation: `a` depends on `b` when a rule `a -> b...`
/// begins with the variable `b`.
pub open spec fn first_edge(rules: Seq<Rule>) -> spec_fn(Variable, Variable) -> bool {
    |a: Variable, b: Variable|
        exists|j: int|
            0 <= j < rules.len() && (#[trigger] rules[j]).clause == a && out_of(rules, j).len() > 0
                && out_of(rules, j)[0] == MixedChar::Variable(b)
}

/// `a` has an epsilon rule `a -> `.
pub open spec fn nullable_direct(rules: Seq<Rule>, a: Variable) -> bool {
    exists|j: int|
        0 <= j < rules.len() && (#[trigger] rules[j]).clause == a && out_of(rules, j).len() == 0
}

/// The FIRST set of `a`: every terminal directly beginning a rule of some
/// variable reachable from `a` through leading-variable rules.
pub open spec fn first_sets(rules: Seq<Rule>, a: Variable) -> Set<Terminal> {
    Set::new(
        |t: Terminal|
            exists|b: Variable|
                #[trigger] reaches(first_edge(rules), a, b) && first_direct(rules, b).contains(t),
    )
}

/// The FIRST half of the engine: the direct contributions and dependency
/// edges read off the rule list once; queries resolve the dependency closure.
pub struct First {
    /// Directly contributed leading terminals per variable.
    pub map: MapSet,
    /// Dependency edges: `(a, b)` when a rule `a -> b...` exists.
    pub track: Vec<(Variable, Variable)>,
    /// Variables with an epsilon rule.
    pub empty: Vec<Variable>,
    /// The rule list everything above was read from.
    pub rules_gh: Ghost<Seq<Rule>>,
}

impl First {
    /// The fields hold exactly what one scan of the rule list yields.
    pub open spec fn wf(self) -> bool {
        &&& forall|k: Variable| #[trigger] self.map.spec_get(k) == first_direct(self.rules_gh@, k)
        &&& forall|a: Variable, b: Variable|
            self.track@.contains((a, b)) <==> #[trigger] first_edge(self.rules_gh@)(a, b)
        &&& forall|v: Variable| self.empty@.contains(v) <==> #[trigger] nullable_direct(
            self.rules_gh@,
            v,
        )
    }

    /// Reads the grammar once: for each rule, its leading terminal goes into
    /// the direct map, a leading variable becomes a dependency edge, and an
    /// empty right-hand side marks the clause nullable.
    #[verifier::loop_isolation(false)]
    pub fn from_rule(rules: &Vec<Rule>) -> (r: First)
        ensures
            r.wf(),
            r.rules_gh@ == rules@,
    {
        let mut map = MapSet::empty();
        let mut track: Vec<(Variable, Variable)> = Vec::new();
        let mut empty: Vec<Variable> = Vec::new();
        let mut i: usize = 0;
        while i < rules.len()
            invariant
                i <= rules@.len(),
                forall|k: Variable, t: Terminal|
                    #[trigger] map.spec_get(k).contains(t) <==> exists|j: int|
                        0 <= j < i && (#[trigger] rules@[j]).clause == k && out_of(rules@, j).len()
                            > 0 && out_of(rules@, j)[0] == MixedChar::Terminal(t),
                forall|a: Variable, b: Variable|
                    #[trigger] track@.contains((a, b)) <==> exists|j: int|
                        0 <= j < i && (#[trigger] rules@[j]).clause == a && out_of(rules@, j).len()
                            > 0 && out_of(rules@, j)[0] == MixedChar::Variable(b),
                forall|v: Variable|
                    #[trigger] empty@.contains(v) <==> exists|j: int|
                        0 <= j < i && (#[trigger] rules@[j]).clause == v && out_of(rules@, j).len()
                            == 0,
            decreases rules@.len() - i,
        {
            let clause = rules[i].clause;
            let ghost old_map = map;
            let ghost old_track = track@;
            let ghost old_empty = empty@;
            if rules[i].output.data.len() == 0 {
                empty.push(clause);
            } else {
                match rules[i].output.data[0] {
                    MixedChar::Terminal(t) => {
                        map.add(clause, t);
                    },
                    MixedChar::Variable(v) => {
                        track.push((clause, v));
                    },
                }
            }
            proof {
                assert forall|k: Variable, t: Terminal| #[trigger]
                    map.spec_get(k).contains(t) implies exists|j: int|
                    0 <= j < i + 1 && (#[trigger] rules@[j]).clause == k && out_of(rules@, j).len()
                        > 0 && out_of(rules@, j)[0] == MixedChar::Terminal(t) by {
                    if old_map.spec_get(k).contains(t) {
                        let j = choose|j: int|
                            0 <= j < i && (#[trigger] rules@[j]).clause == k && out_of(
                                rules@,
                                j,
                            ).len() > 0 && out_of(rules@, j)[0] == MixedChar::Terminal(t);
                        assert(0 <= j < i + 1 && rules@[j].clause == k);
                    } else {
                        assert(rules@[i as int].clause == k && out_of(rules@, i as int)[0]
                            == MixedChar::Terminal(t));
                    }
                }
                assert forall|k: Variable, t: Terminal|
                    (exists|j: int|
                        0 <= j < i + 1 && (#[trigger] rules@[j]).clause == k && out_of(
                            rules@,
                            j,
                        ).len() > 0 && out_of(rules@, j)[0] == MixedChar::Terminal(
                            t,
                        )) implies #[trigger] map.spec_get(k).contains(t) by {
                    let j = choose|j: int|
                        0 <= j < i + 1 && (#[trigger] rules@[j]).clause == k && out_of(
                            rules@,
                            j,
                        ).len() > 0 && out_of(rules@, j)[0] == MixedChar::Terminal(t);
                    if j < i {
                        assert(old_map.spec_get(k).contains(t));
                    }
                }
                assert forall|a: Variable, b: Variable| #[trigger]
                    track@.contains((a, b)) implies exists|j: int|
                    0 <= j < i + 1 && (#[trigger] rules@[j]).clause == a && out_of(rules@, j).len()
                        > 0 && out_of(rules@, j)[0] == MixedChar::Variable(b) by {
                    if old_track.contains((a, b)) {
                        let j = choose|j: int|
                            0 <= j < i && (#[trigger] rules@[j]).clause == a && out_of(
                                rules@,
                                j,
                            ).len() > 0 && out_of(rules@, j)[0] == MixedChar::Variable(b);
                        assert(0 <= j < i + 1 && rules@[j].clause == a);
                    } else {
                        assert(track@.last() == (a, b));
                        assert(rules@[i as int].clause == a && out_of(rules@, i as int)[0]
                            == MixedChar::Variable(b));
                    }
                }
                assert forall|a: Variable, b: Variable|
                    (exists|j: int|
                        0 <= j < i + 1 && (#[trigger] rules@[j]).clause == a && out_of(
                            rules@,
                            j,
                        ).len() > 0 && out_of(rules@, j)[0] == MixedChar::Variable(
                            b,
                        )) implies #[trigger] track@.contains((a, b)) by {
                    let j = choose|j: int|
                        0 <= j < i + 1 && (#[trigger] rules@[j]).clause == a && out_of(
                            rules@,
                            j,
                        ).len() > 0 && out_of(rules@, j)[0] == MixedChar::Variable(b);
                    if j < i {
                        assert(old_track.contains((a, b)));
                    } else {
                        assert(track@.last() == (a, b));
                    }
                }
                assert forall|v: Variable| #[trigger] empty@.contains(v) implies exists|j: int|
                    0 <= j < i + 1 && (#[trigger] rules@[j]).clause == v && out_of(rules@, j).len()
                        == 0 by {
                    if old_empty.contains(v) {
                        let j = choose|j: int|
                            0 <= j < i && (#[trigger] rules@[j]).clause == v && out_of(
                                rules@,
                                j,
                            ).len() == 0;
                        assert(0 <= j < i + 1 && rules@[j].clause == v);
                    } else {
                        assert(rules@[i as int].clause == v && out_of(rules@, i as int).len() == 0);
                    }
                }
                assert forall|v: Variable|
                    (exists|j: int|
                        0 <= j < i + 1 && (#[trigger] rules@[j]).clause == v && out_of(
                            rules@,
                            j,
                        ).len() == 0) implies #[trigger] empty@.contains(v) by {
                    let j = choose|j: int|
                        0 <= j < i + 1 && (#[trigger] rules@[j]).clause == v && out_of(
                            rules@,
                            j,
                        ).len() == 0;
                    if j < i {
                        assert(old_empty.contains(v));
                    } else {
                        assert(empty@.last() == v);
                    }
                }
            }
            i = i + 1;
        }
        let r = First { map, track, empty, rules_gh: Ghost(rules@) };
        proof {
            assert forall|k: Variable| #[trigger] r.map.spec_get(k) == first_direct(
                r.rules_gh@,
                k,
            ) by {
                assert(r.map.spec_get(k) =~= first_direct(rules@, k));
            }
        }
        r
    }

    /// The FIRST set of `key`: the union of the direct sets of every variable
    /// reachable through the dependency edges.
    #[verifier::loop_isolation(false)]
    pub fn get(&self, key: Variable) -> (r: Vec<Terminal>)
        requires
            self.wf(),
        ensures
            r@.to_set() == first_sets(self.rules_gh@, key),
    {
        let ghost rules = self.rules_gh@;
        let mut seeds: Vec<Variable> = Vec::new();
        seeds.push(key);
        let reach_list = flood(&self.track, &seeds);
        proof {
            lemma_track_closure(self.track@, first_edge(rules), seeds@, reach_list@, key);
        }
        let mut r: Vec<Terminal> = Vec::new();
        let mut i: usize = 0;
        while i < reach_list.len()
            invariant
                i <= reach_list@.len(),
                forall|t: Terminal| #[trigger]
                    r@.contains(t) <==> exists|j: int|
                        0 <= j < i && first_direct(rules, #[trigger] reach_list@[j]).contains(t),
            decreases reach_list@.len() - i,
        {
            let ghost old_r = r@;
            let vals = self.map.get(reach_list[i]);
            let mut j: usize = 0;
            while j < vals.len()
                invariant
                    j <= vals@.len(),
                    forall|t: Terminal| #[trigger]
                        r@.contains(t) <==> old_r.contains(t) || exists|l: int|
                            0 <= l < j && vals@[l] == t,
                decreases vals@.len() - j,
            {
                r.push(vals[j]);
                j = j + 1;
            }
            proof {
                assert forall|t: Terminal| #[trigger] r@.contains(t) implies old_r.contains(t)
                    || vals@.contains(t) by {}
                assert forall|t: Terminal| vals@.contains(t) implies vals@.to_set().contains(
                    t,
                ) by {}
            }
            i = i + 1;
        }
        proof {
            assert(r@.to_set() =~= first_sets(rules, key)) by {
                assert forall|t: Terminal| r@.to_set().contains(t) implies first_sets(
                    rules,
                    key,
                ).contains(t) by {
                    let j = choose|j: int|
                        0 <= j < reach_list@.len() && first_direct(
                            rules,
                            #[trigger] reach_list@[j],
                        ).contains(t);
                    let b = reach_list@[j];
                    assert(reach_list@.contains(b));
                    assert(reaches(first_edge(rules), key, b));
                }
                assert forall|t: Terminal| first_sets(rules, key).contains(t) implies r@.to_set()
                    .contains(t) by {
                    let b = choose|b: Variable|
                        #[trigger] reaches(first_edge(rules), key, b) && first_direct(
                            rules,
                            b,
                        ).contains(t);
                    assert(reach_list@.contains(b));
                    let j = choose|j: int| 0 <= j < reach_list@.len() && reach_list@[j] == b;
                    assert(first_direct(rules, reach_list@[j]).contains(t));
                }
            }
        }
        r
    }
}

/// The flood over a stored edge list reaches exactly the closure of the
/// relation the list represents.
proof fn lemma_track_closure(
    track: Seq<(Variable, Variable)>,
    rel: spec_fn(Variable, Variable) -> bool,
    seeds: Seq<Variable>,
    reach_list: Seq<Variable>,
    key: Variable,
)
    requires
        forall|a: Variable, b: Variable| track.contains((a, b)) <==> #[trigger] rel(a, b),
        forall|b: Variable| #[trigger]
            reach_list.contains(b) <==> reaches_from(edge_rel(track), seeds.to_set(), b),
        seeds == seq![key],
    ensures
        forall|b: Variable| #[trigger] reach_list.contains(b) <==> reaches(rel, key, b),
{
    assert(seeds.to_set() =~= Set::<Variable>::empty().insert(key)) by {
        assert(seeds[0] == key);
    }
    assert forall|b: Variable| #[trigger] reach_list.contains(b) <==> reaches(rel, key, b) by {
        lemma_reaches_equiv(edge_rel(track), rel, key, b);
        if reach_list.contains(b) {
            let a = choose|a: Variable| seeds.to_set().contains(a) && reaches(edge_rel(track), a, b);
            assert(a == key);
        } else {
        }
        if reaches(rel, key, b) {
            assert(seeds.to_set().contains(key));
        }
    }
}

/// A walk along a smaller relation is a walk along a larger one.
pub proof fn lemma_reaches_mono<T>(e1: spec_fn(T, T) -> bool, e2: spec_fn(T, T) -> bool, a: T, b: T)
    requires
        forall|x: T, y: T| #[trigger] e1(x, y) ==> #[trigger] e2(x, y),
        reaches(e1, a, b),
    ensures
        reaches(e2, a, b),
{
    let p = choose|p: Seq<T>| #[trigger]
        is_path(e1, p) && p.len() >= 1 && p.first() == a && p.last() == b;
    assert(is_path(e2, p)) by {
        assert forall|i: int| 0 <= i < p.len() - 1 implies #[trigger] e2(p[i], p[i + 1]) by {
            assert(e1(p[i], p[i + 1]));
        }
    }
}

/// Walks along two pointwise-equal edge relations are the same walks.
pub proof fn lemma_reaches_equiv<T>(e1: spec_fn(T, T) -> bool, e2: spec_fn(T, T) -> bool, a: T, b: T)
    requires
        forall|x: T, y: T| #[trigger] e1(x, y) <==> #[trigger] e2(x, y),
    ensures
        reaches(e1, a, b) <==> reaches(e2, a, b),
{
    if reaches(e1, a, b) {
        let p = choose|p: Seq<T>| #[trigger]
            is_path(e1, p) && p.len() >= 1 && p.first() == a && p.last() == b;
        assert(is_path(e2, p)) by {
            assert forall|i: int| 0 <= i < p.len() - 1 implies #[trigger] e2(p[i], p[i + 1]) by {
                assert(e1(p[i], p[i + 1]));
            }
        }
    }
    if reaches(e2, a, b) {
        let p = choose|p: Seq<T>| #[trigger]
            is_path(e2, p) && p.len() >= 1 && p.first() == a && p.last() == b;
        assert(is_path(e1, p)) by {
            assert forall|i: int| 0 <= i < p.len() - 1 implies #[trigger] e1(p[i], p[i + 1]) by {
                assert(e2(p[i], p[i + 1]));
            }
        }
    }
}

/// Position `i` of rule `j` holds the variable `v`.
pub open spec fn at_var(rules: Seq<Rule>, j: int, i: int, v: Variable) -> bool {
    0 <= j < rules.len() && 0 <= i < out_of(rules, j).len() && out_of(rules, j)[i]
        == MixedChar::Variable(v)
}

/// After position `i` of rule `j` stands the terminal `t`.
pub open spec fn next_term(rules: Seq<Rule>, j: int, i: int, t: Terminal) -> bool {
    0 <= j < rules.len() && 0 <= i && i + 1 < out_of(rules, j).len() && out_of(rules, j)[i + 1]
        == MixedChar::Terminal(t)
}

/// After position `i` of rule `j` stands the variable `w`.
pub open spec fn next_var(rules: Seq<Rule>, j: int, i: int, w: Variable) -> bool {
    0 <= j < rules.len() && 0 <= i && i + 1 < out_of(rules, j).len() && out_of(rules, j)[i + 1]
        == MixedChar::Variable(w)
}

/// Rule `j` at position `i` obliges `Follow` of the rule's clause to flow
/// into `Follow[v]`: `v` stands last, or before a directly-nullable variable,
/// and differs from the clause.
pub open spec fn flows_at(rules: Seq<Rule>, j: int, i: int, v: Variable) -> bool {
    at_var(rules, j, i, v) && v != rules[j].clause && (i + 1 == out_of(rules, j).len() || (
    exists|w: Variable| #[trigger] next_var(rules, j, i, w) && nullable_direct(rules, w)))
}

/// The FOLLOW flow relation: `Follow[c]` flows into `Follow[v]`.
pub open spec fn follow_edge(rules: Seq<Rule>) -> spec_fn(Variable, Variable) -> bool {
    |v: Variable, c: Variable|
        exists|j: int, i: int| #[trigger] flows_at(rules, j, i, v) && rules[j].clause == c
}

/// Rule `rid` carries a flow obligation onto `v`.
pub open spec fn rt_direct(rules: Seq<Rule>, v: Variable, rid: int) -> bool {
    exists|i: int| #[trigger] flows_at(rules, rid, i, v)
}

/// The seed binding: the end-of-input terminal follows the accept variable,
/// recorded on the augmented start rule.
pub open spec fn follow_seed(v: Variable, rid: int, t: Terminal) -> bool {
    v == (Variable { symbol: END_VARIABLE }) && rid == 0 && t == (Terminal {
        symbol: END_TERMINAL,
    })
}

/// Terminals directly following an occurrence of `v` in rule `rid`: a
/// terminal right after it, or the FIRST set of a variable right after it.
pub open spec fn follow_direct(rules: Seq<Rule>, v: Variable, rid: int) -> Set<Terminal> {
    Set::new(
        |t: Terminal|
            follow_seed(v, rid, t) || (exists|i: int|
                #[trigger] at_var(rules, rid, i, v) && next_term(rules, rid, i, t)) || (
            exists|i: int, w: Variable|
                #[trigger] at_var(rules, rid, i, v) && #[trigger] next_var(rules, rid, i, w)
                    && first_sets(rules, w).contains(t)),
    )
}

/// The FOLLOW set of `a` restricted to rule `rid`: direct contributions of
/// every variable whose flow chain reaches back to `a`.
pub open spec fn follow_sets(rules: Seq<Rule>, a: Variable, rid: int) -> Set<Terminal> {
    Set::new(
        |t: Terminal|
            exists|b: Variable|
                #[trigger] reaches(follow_edge(rules), a, b) && follow_direct(
                    rules,
                    b,
                    rid,
                ).contains(t),
    )
}

/// The full FOLLOW set of `a`.
pub open spec fn follow_all(rules: Seq<Rule>, a: Variable) -> Set<Terminal> {
    Set::new(|t: Terminal| exists|rid: int| #[trigger] follow_sets(rules, a, rid).contains(t))
}

/// Rules whose flow obligation applies to `a`, directly or through the chain.
pub open spec fn rule_track_sets(rules: Seq<Rule>, a: Variable) -> Set<int> {
    Set::new(
        |rid: int|
            exists|b: Variable|
                #[trigger] reaches(follow_edge(rules), a, b) && rt_direct(rules, b, rid),
    )
}

/// The filtered FOLLOW query used while closing an item set: only the
/// contributions of admissible rules count, plus the kernel-carried pairs
/// whose rule tracks back to `a`.
pub open spec fn follow_filtered(
    rules: Seq<Rule>,
    a: Variable,
    avail: Set<usize>,
    kf: Set<(usize, Terminal)>,
) -> Set<Terminal> {
    Set::new(
        |t: Terminal|
            (exists|rid: usize|
                avail.contains(rid) && #[trigger] follow_sets(rules, a, rid as int).contains(t))
                || (exists|rid: usize|
                #[trigger] kf.contains((rid, t)) && rule_track_sets(rules, a).contains(rid as int)),
    )
}

/// The FOLLOW half of the engine: per-rule direct contributions, the flow
/// edges, and which rule produced each flow edge; queries resolve the chain.
pub struct Follow {
    /// Direct contributions: `(v, rid, t)` when `t` directly follows `v` in
    /// rule `rid` (or is the seed binding).
    pub entries: Vec<(Variable, usize, Terminal)>,
    /// Flow edges `(v, c)`: `Follow[c]` flows into `Follow[v]`.
    pub track: Vec<(Variable, Variable)>,
    /// `(v, rid)` when rule `rid` carries a flow obligation onto `v`.
    pub rule_track: Vec<(Variable, usize)>,
    /// The rule list everything above was read from.
    pub rules_gh: Ghost<Seq<Rule>>,
}

impl Follow {
    /// The fields hold exactly what one scan of the rule list yields.
    pub open spec fn wf(self) -> bool {
        &&& self.rules_gh@.len() <= usize::MAX
        &&& forall|v: Variable, rid: usize, t: Terminal|
            self.entries@.contains((v, rid, t)) <==> #[trigger] follow_direct(
                self.rules_gh@,
                v,
                rid as int,
            ).contains(t)
        &&& forall|v: Variable, c: Variable|
            self.track@.contains((v, c)) <==> #[trigger] follow_edge(self.rules_gh@)(v, c)
        &&& forall|v: Variable, rid: usize|
            self.rule_track@.contains((v, rid)) <==> #[trigger] rt_direct(
                self.rules_gh@,
                v,
                rid as int,
            )
    }

    /// Reads the grammar once, walking every rule position: a terminal after
    /// a variable is a direct FOLLOW contribution, a variable after it
    /// contributes its FIRST set, and a trailing or nullable-followed
    /// occurrence queues a flow edge. Seeds the accept variable with the
    /// end-of-input terminal.
    pub fn new(first: &First, rules: &Vec<Rule>) -> (r: Follow)
        requires
            first.wf(),
            first.rules_gh@ == rules@,
        ensures
            r.wf(),
            r.rules_gh@ == rules@,
    {
        let n = rules.len();
        proof {
            assert(rules@.len() == n <= usize::MAX);
        }
        let entries = build_follow_entries(first, rules);
        let (track, rule_track) = build_follow_flows(first, rules);
        Follow { entries, track, rule_track, rules_gh: Ghost(rules@) }
    }

    /// The FOLLOW set of `key`: contributions of every rule, resolved
    /// through the flow chain.
    #[verifier::loop_isolation(false)]
    pub fn get(&self, key: &Variable) -> (r: Vec<Terminal>)
        requires
            self.wf(),
        ensures
            r@.to_set() == follow_all(self.rules_gh@, *key),
    {
        let ghost rules = self.rules_gh@;
        let key = *key;
        let mut seeds: Vec<Variable> = Vec::new();
        seeds.push(key);
        let reach_list = flood(&self.track, &seeds);
        proof {
            lemma_track_closure(self.track@, follow_edge(rules), seeds@, reach_list@, key);
        }
        let mut r: Vec<Terminal> = Vec::new();
        let mut i: usize = 0;
        while i < self.entries.len()
            invariant
                i <= self.entries@.len(),
                forall|t: Terminal| #[trigger]
                    r@.contains(t) <==> exists|j: int|
                        0 <= j < i && reach_list@.contains((#[trigger] self.entries@[j]).0)
                            && self.entries@[j].2 == t,
            decreases self.entries@.len() - i,
        {
            let e = self.entries[i];
            if contains_var(&reach_list, e.0) {
                r.push(e.2);
            }
            i = i + 1;
        }
        proof {
            assert(r@.to_set() =~= follow_all(rules, key)) by {
                assert forall|t: Terminal| r@.to_set().contains(t) implies follow_all(
                    rules,
                    key,
                ).contains(t) by {
                    let j = choose|j: int|
                        0 <= j < self.entries@.len() && reach_list@.contains(
                            (#[trigger] self.entries@[j]).0,
                        ) && self.entries@[j].2 == t;
                    let e = self.entries@[j];
                    assert(self.entries@.contains(e));
                    assert(follow_direct(rules, e.0, e.1 as int).contains(t));
                    assert(follow_sets(rules, key, e.1 as int).contains(t));
                }
                assert forall|t: Terminal| follow_all(rules, key).contains(t) implies r@.to_set()
                    .contains(t) by {
                    let rid = choose|rid: int| #[trigger] follow_sets(rules, key, rid).contains(t);
                    let b = choose|b: Variable|
                        #[trigger] reaches(follow_edge(rules), key, b) && follow_direct(
                            rules,
                            b,
                            rid,
                        ).contains(t);
                    assert(follow_seed(b, rid, t) || 0 <= rid < rules.len()) by {
                        if !follow_seed(b, rid, t) {
                            if exists|i: int|
                                #[trigger] at_var(rules, rid, i, b) && next_term(rules, rid, i, t) {
                                let i = choose|i: int|
                                    #[trigger] at_var(rules, rid, i, b) && next_term(
                                        rules,
                                        rid,
                                        i,
                                        t,
                                    );
                                assert(0 <= rid < rules.len());
                            } else {
                                let (i, w): (int, Variable) = choose|i: int, w: Variable|
                                    #[trigger] at_var(rules, rid, i, b) && #[trigger] next_var(
                                        rules,
                                        rid,
                                        i,
                                        w,
                                    ) && first_sets(rules, w).contains(t);
                                assert(0 <= rid < rules.len());
                            }
                        }
                    }
                    let ru: usize = if rid == 0 { 0 } else { rid as usize };
                    assert(follow_direct(rules, b, ru as int).contains(t));
                    assert(self.entries@.contains((b, ru, t)));
                    assert(reach_list@.contains(b));
                    let j = choose|j: int|
                        0 <= j < self.entries@.len() && self.entries@[j] == (b, ru, t);
                    assert(r@.contains(t));
                }
            }
        }
        r
    }

    /// The filtered FOLLOW set of `key`: only contributions of the
    /// admissible rules, plus kernel-carried lookaheads whose rule tracks
    /// back to `key`.
    #[verifier::loop_isolation(false)]
    pub fn get_filtered(
        &self,
        key: &Variable,
        available_rule: &Vec<usize>,
        kernel_follow: &Vec<(usize, Terminal)>,
    ) -> (r: Vec<Terminal>)
        requires
            self.wf(),
        ensures
            r@.to_set() == follow_filtered(
                self.rules_gh@,
                *key,
                available_rule@.to_set(),
                kernel_follow@.to_set(),
            ),
    {
        let ghost rules = self.rules_gh@;
        let key = *key;
        let mut seeds: Vec<Variable> = Vec::new();
        seeds.push(key);
        let reach_list = flood(&self.track, &seeds);
        proof {
            lemma_track_closure(self.track@, follow_edge(rules), seeds@, reach_list@, key);
        }
        let mut r: Vec<Terminal> = Vec::new();
        let mut i: usize = 0;
        while i < self.entries.len()
            invariant
                i <= self.entries@.len(),
                forall|t: Terminal| #[trigger]
                    r@.contains(t) <==> exists|j: int|
                        0 <= j < i && reach_list@.contains((#[trigger] self.entries@[j]).0)
                            && available_rule@.contains(self.entries@[j].1) && self.entries@[j].2
                            == t,
            decreases self.entries@.len() - i,
        {
            let e = self.entries[i];
            if contains_var(&reach_list, e.0) && contains_usize(available_rule, e.1) {
                r.push(e.2);
            }
            i = i + 1;
        }
        let ghost part1 = r@;
        let mut k: usize = 0;
        while k < kernel_follow.len()
            invariant
                k <= kernel_follow@.len(),
                forall|t: Terminal| #[trigger]
                    r@.contains(t) <==> part1.contains(t) || exists|j: int|
                        0 <= j < k && (#[trigger] kernel_follow@[j]).1 == t && exists|l: int|
                            0 <= l < self.rule_track@.len() && reach_list@.contains(
                                (#[trigger] self.rule_track@[l]).0,
                            ) && self.rule_track@[l].1 == kernel_follow@[j].0,
            decreases kernel_follow@.len() - k,
        {
            let (rid, t) = kernel_follow[k];
            if rule_tracked(&self.rule_track, &reach_list, rid) {
                r.push(t);
            }
            k = k + 1;
        }
        proof {
            assert(r@.to_set() =~= follow_filtered(
                rules,
                key,
                available_rule@.to_set(),
                kernel_follow@.to_set(),
            )) by {
                assert forall|t: Terminal| r@.to_set().contains(t) implies follow_filtered(
                    rules,
                    key,
                    available_rule@.to_set(),
                    kernel_follow@.to_set(),
                ).contains(t) by {
                    if part1.contains(t) {
                        let j = choose|j: int|
                            0 <= j < self.entries@.len() && reach_list@.contains(
                                (#[trigger] self.entries@[j]).0,
                            ) && available_rule@.contains(self.entries@[j].1) && self.entries@[j].2
                                == t;
                        let e = self.entries@[j];
                        assert(self.entries@.contains(e));
                        assert(follow_direct(rules, e.0, e.1 as int).contains(t));
                        assert(follow_sets(rules, key, e.1 as int).contains(t));
                        assert(available_rule@.to_set().contains(e.1));
                    } else {
                        let j = choose|j: int|
                            0 <= j < kernel_follow@.len() && (#[trigger] kernel_follow@[j]).1 == t
                                && exists|l: int|
                                0 <= l < self.rule_track@.len() && reach_list@.contains(
                                    (#[trigger] self.rule_track@[l]).0,
                                ) && self.rule_track@[l].1 == kernel_follow@[j].0;
                        let rid = kernel_follow@[j].0;
                        let l = choose|l: int|
                            0 <= l < self.rule_track@.len() && reach_list@.contains(
                                (#[trigger] self.rule_track@[l]).0,
                            ) && self.rule_track@[l].1 == rid;
                        let b = self.rule_track@[l].0;
                        assert(self.rule_track@.contains((b, rid)));
                        assert(rt_direct(rules, b, rid as int));
                        assert(rule_track_sets(rules, key).contains(rid as int));
                        assert(kernel_follow@.to_set().contains((rid, t)));
                    }
                }
                assert forall|t: Terminal| follow_filtered(
                    rules,
                    key,
                    available_rule@.to_set(),
                    kernel_follow@.to_set(),
                ).contains(t) implies r@.to_set().contains(t) by {
                    if exists|rid: usize|
                        available_rule@.to_set().contains(rid) && #[trigger] follow_sets(
                            rules,
                            key,
                            rid as int,
                        ).contains(t) {
                        let rid = choose|rid: usize|
                            available_rule@.to_set().contains(rid) && #[trigger] follow_sets(
                                rules,
                                key,
                                rid as int,
                            ).contains(t);
                        let b = choose|b: Variable|
                            #[trigger] reaches(follow_edge(rules), key, b) && follow_direct(
                                rules,
                                b,
                                rid as int,
                            ).contains(t);
                        assert(self.entries@.contains((b, rid, t)));
                        assert(reach_list@.contains(b));
                        let j = choose|j: int|
                            0 <= j < self.entries@.len() && self.entries@[j] == (b, rid, t);
                        assert(part1.contains(t));
                    } else {
                        let rid = choose|rid: usize|
                            #[trigger] kernel_follow@.to_set().contains((rid, t))
                                && rule_track_sets(rules, key).contains(rid as int);
                        let b = choose|b: Variable|
                            #[trigger] reaches(follow_edge(rules), key, b) && rt_direct(
                                rules,
                                b,
                                rid as int,
                            );
                        assert(self.rule_track@.contains((b, rid)));
                        assert(reach_list@.contains(b));
                        let l = choose|l: int|
                            0 <= l < self.rule_track@.len() && self.rule_track@[l] == (b, rid);
                        let j = choose|j: int|
                            0 <= j < kernel_follow@.len() && kernel_follow@[j] == (rid, t);
                        assert(r@.contains(t));
                    }
                }
            }
        }
        r
    }
}

/// True when the list of rule ids holds `x`.
pub fn contains_usize(list: &Vec<usize>, x: usize) -> (r: bool)
    ensures
        r == list@.contains(x),
{
    let mut i: usize = 0;
    while i < list.len()
        invariant
            i <= list@.len(),
            forall|j: int| 0 <= j < i ==> list@[j] != x,
        decreases list@.len() - i,
    {
        if list[i] == x {
            return true;
        }
        i = i + 1;
    }
    false
}

/// True when some reached variable carries a flow obligation from rule `rid`.
fn rule_tracked(rule_track: &Vec<(Variable, usize)>, reach_list: &Vec<Variable>, rid: usize) -> (r:
    bool)
    ensures
        r == exists|l: int|
            0 <= l < rule_track@.len() && reach_list@.contains((#[trigger] rule_track@[l]).0)
                && rule_track@[l].1 == rid,
{
    let mut i: usize = 0;
    while i < rule_track.len()
        invariant
            i <= rule_track@.len(),
            forall|l: int|
                0 <= l < i ==> !(reach_list@.contains((#[trigger] rule_track@[l]).0)
                    && rule_track@[l].1 == rid),
        decreases rule_track@.len() - i,
    {
        let e = rule_track[i];
        if e.1 == rid && contains_var(reach_list, e.0) {
            return true;
        }
        i = i + 1;
    }
    false
}

/// Direct FOLLOW contributions present after processing every position `i`
/// of every rule `j` with `j < rhi`, or `j == rhi` and `i < phi`.
pub open spec fn fd_before(
    rules: Seq<Rule>,
    v: Variable,
    rid: int,
    t: Terminal,
    rhi: int,
    phi: int,
) -> bool {
    exists|i: int|
        #[trigger] at_var(rules, rid, i, v) && (rid < rhi || (rid == rhi && i < phi)) && (next_term(
            rules,
            rid,
            i,
            t,
        ) || (exists|w: Variable|
            #[trigger] next_var(rules, rid, i, w) && first_sets(rules, w).contains(t)))
}

/// Flow obligations present after processing the same prefix of positions.
pub open spec fn ft_before(rules: Seq<Rule>, v: Variable, rid: int, rhi: int, phi: int) -> bool {
    exists|i: int|
        #[trigger] flows_at(rules, rid, i, v) && (rid < rhi || (rid == rhi && i < phi))
}

/// Scans every rule position and collects the direct FOLLOW contributions,
/// seeded with the end-of-input binding for the accept variable.
#[verifier::loop_isolation(false)]
fn build_follow_entries(first: &First, rules: &Vec<Rule>) -> (r: Vec<(Variable, usize, Terminal)>)
    requires
        first.wf(),
        first.rules_gh@ == rules@,
    ensures
        forall|v: Variable, rid: usize, t: Terminal|
            r@.contains((v, rid, t)) <==> #[trigger] follow_direct(
                rules@,
                v,
                rid as int,
            ).contains(t),
{
    let ghost grules = rules@;
    let mut entries: Vec<(Variable, usize, Terminal)> = Vec::new();
    entries.push((Variable::accept(), 0usize, Terminal::end()));
    proof {
        assert forall|v: Variable, rid: usize, t: Terminal| #[trigger]
            entries@.contains((v, rid, t)) implies follow_seed(v, rid as int, t) || fd_before(
            grules,
            v,
            rid as int,
            t,
            0,
            0,
        ) by {
            assert(entries@[0] == (v, rid, t));
        }
    }
    let mut ri: usize = 0;
    while ri < rules.len()
        invariant
            ri <= grules.len(),
            forall|v: Variable, rid: usize, t: Terminal|
                #[trigger] entries@.contains((v, rid, t)) <==> follow_seed(v, rid as int, t)
                    || fd_before(grules, v, rid as int, t, ri as int, 0),
        decreases grules.len() - ri,
    {
        let rule_len = rules[ri].output.data.len();
        let mut pi: usize = 0;
        while pi < rule_len
            invariant
                pi <= rule_len,
                rule_len == out_of(grules, ri as int).len(),
                ri < grules.len(),
                forall|v: Variable, rid: usize, t: Terminal|
                    #[trigger] entries@.contains((v, rid, t)) <==> follow_seed(v, rid as int, t)
                        || fd_before(grules, v, rid as int, t, ri as int, pi as int),
            decreases rule_len - pi,
        {
            let ghost old_entries = entries@;
            match rules[ri].output.data[pi] {
                MixedChar::Terminal(_) => {},
                MixedChar::Variable(v) => {
                    if pi + 1 < rule_len {
                        match rules[ri].output.data[pi + 1] {
                            MixedChar::Terminal(t) => {
                                entries.push((v, ri, t));
                                proof {
                                    assert(at_var(grules, ri as int, pi as int, v));
                                    assert(next_term(grules, ri as int, pi as int, t));
                                }
                            },
                            MixedChar::Variable(w) => {
                                let fw = first.get(w);
                                let ghost base = entries@;
                                let mut l: usize = 0;
                                while l < fw.len()
                                    invariant
                                        l <= fw@.len(),
                                        forall|x: (Variable, usize, Terminal)| #[trigger]
                                            entries@.contains(x) <==> base.contains(x) || exists|
                                                m: int,
                                            |
                                                0 <= m < l && x == (v, ri, fw@[m]),
                                    decreases fw@.len() - l,
                                {
                                    entries.push((v, ri, fw[l]));
                                    l = l + 1;
                                }
                                proof {
                                    assert(at_var(grules, ri as int, pi as int, v));
                                    assert(next_var(grules, ri as int, pi as int, w));
                                    assert forall|x: (Variable, usize, Terminal)| #[trigger]
                                        entries@.contains(x) implies base.contains(x) || (x.0 == v
                                        && x.1 == ri && first_sets(grules, w).contains(x.2)) by {
                                        if !base.contains(x) {
                                            let m = choose|m: int|
                                                0 <= m < fw@.len() && x == (v, ri, fw@[m]);
                                            assert(fw@.contains(fw@[m]));
                                            assert(fw@.to_set().contains(fw@[m]));
                                        }
                                    }
                                    assert forall|t: Terminal|
                                        first_sets(grules, w).contains(t) implies entries@.contains(
                                        (v, ri, t),
                                    ) by {
                                        assert(fw@.to_set().contains(t));
                                        let m = choose|m: int| 0 <= m < fw@.len() && fw@[m] == t;
                                        assert(entries@.contains((v, ri, fw@[m])));
                                    }
                                }
                            },
                        }
                    }
                },
            }
            proof {
                let gpi = pi as int;
                let gri = ri as int;
                assert forall|v: Variable, rid: usize, t: Terminal| #[trigger]
                    entries@.contains((v, rid, t)) implies follow_seed(v, rid as int, t)
                    || fd_before(grules, v, rid as int, t, gri, gpi + 1) by {
                    if old_entries.contains((v, rid, t)) {
                        if !follow_seed(v, rid as int, t) {
                            let i = choose|i: int|
                                #[trigger] at_var(grules, rid as int, i, v) && (rid < gri || (rid
                                    == gri && i < gpi)) && (next_term(grules, rid as int, i, t) || (
                                exists|w: Variable|
                                    #[trigger] next_var(grules, rid as int, i, w) && first_sets(
                                        grules,
                                        w,
                                    ).contains(t)));
                            assert(fd_before(grules, v, rid as int, t, gri, gpi + 1));
                        }
                    } else {
                        assert(rid == ri && at_var(grules, gri, gpi, v));
                        assert(fd_before(grules, v, rid as int, t, gri, gpi + 1));
                    }
                }
                assert forall|v: Variable, rid: usize, t: Terminal|
                    follow_seed(v, rid as int, t) || fd_before(
                        grules,
                        v,
                        rid as int,
                        t,
                        gri,
                        gpi + 1,
                    ) implies #[trigger] entries@.contains((v, rid, t)) by {
                    if follow_seed(v, rid as int, t) {
                        assert(old_entries.contains((v, rid, t)));
                    } else {
                        let i = choose|i: int|
                            #[trigger] at_var(grules, rid as int, i, v) && (rid < gri || (rid == gri
                                && i < gpi + 1)) && (next_term(grules, rid as int, i, t) || (exists|
                                w: Variable,
                            |
                                #[trigger] next_var(grules, rid as int, i, w) && first_sets(
                                    grules,
                                    w,
                                ).contains(t)));
                        if rid < gri || (rid == gri && i < gpi) {
                            assert(fd_before(grules, v, rid as int, t, gri, gpi));
                            assert(old_entries.contains((v, rid, t)));
                        } else {
                            assert(rid == gri && i == gpi);
                            assert(out_of(grules, gri)[gpi] == MixedChar::Variable(v));
                            if next_term(grules, gri, gpi, t) {
                                assert(entries@.contains((v, rid, t)));
                            } else {
                                let w = choose|w: Variable|
                                    #[trigger] next_var(grules, gri, gpi, w) && first_sets(
                                        grules,
                                        w,
                                    ).contains(t);
                                assert(out_of(grules, gri)[gpi + 1] == MixedChar::Variable(w));
                                assert(entries@.contains((v, rid, t)));
                            }
                        }
                    }
                }
            }
            pi = pi + 1;
        }
        proof {
            let gri = ri as int;
            assert forall|v: Variable, rid: usize, t: Terminal|
                fd_before(grules, v, rid as int, t, gri, rule_len as int) == fd_before(
                    grules,
                    v,
                    rid as int,
                    t,
                    gri + 1,
                    0,
                ) by {
                if fd_before(grules, v, rid as int, t, gri, rule_len as int) {
                    let i = choose|i: int|
                        #[trigger] at_var(grules, rid as int, i, v) && (rid < gri || (rid == gri
                            && i < rule_len)) && (next_term(grules, rid as int, i, t) || (exists|
                            w: Variable,
                        |
                            #[trigger] next_var(grules, rid as int, i, w) && first_sets(
                                grules,
                                w,
                            ).contains(t)));
                    assert(fd_before(grules, v, rid as int, t, gri + 1, 0));
                }
                if fd_before(grules, v, rid as int, t, gri + 1, 0) {
                    let i = choose|i: int|
                        #[trigger] at_var(grules, rid as int, i, v) && (rid < gri + 1) && (next_term(
                            grules,
                            rid as int,
                            i,
                            t,
                        ) || (exists|w: Variable|
                            #[trigger] next_var(grules, rid as int, i, w) && first_sets(
                                grules,
                                w,
                            ).contains(t)));
                    if rid == gri {
                        assert(i < rule_len);
                    }
                    assert(fd_before(grules, v, rid as int, t, gri, rule_len as int));
                }
            }
        }
        ri = ri + 1;
    }
    proof {
        assert forall|v: Variable, rid: usize, t: Terminal| #[trigger]
            entries@.contains((v, rid, t)) == follow_direct(grules, v, rid as int).contains(t) by {
            if entries@.contains((v, rid, t)) && !follow_seed(v, rid as int, t) {
                let i = choose|i: int|
                    #[trigger] at_var(grules, rid as int, i, v) && (rid < grules.len()) && (
                    next_term(grules, rid as int, i, t) || (exists|w: Variable|
                        #[trigger] next_var(grules, rid as int, i, w) && first_sets(
                            grules,
                            w,
                        ).contains(t)));
                assert(follow_direct(grules, v, rid as int).contains(t));
            }
            if follow_direct(grules, v, rid as int).contains(t) && !follow_seed(v, rid as int, t) {
                if exists|i: int|
                    #[trigger] at_var(grules, rid as int, i, v) && next_term(
                        grules,
                        rid as int,
                        i,
                        t,
                    ) {
                    let i = choose|i: int|
                        #[trigger] at_var(grules, rid as int, i, v) && next_term(
                            grules,
                            rid as int,
                            i,
                            t,
                        );
                    assert(fd_before(grules, v, rid as int, t, grules.len() as int, 0));
                } else {
                    let (i, w): (int, Variable) = choose|i: int, w: Variable|
                        #[trigger] at_var(grules, rid as int, i, v) && #[trigger] next_var(
                            grules,
                            rid as int,
                            i,
                            w,
                        ) && first_sets(grules, w).contains(t);
                    assert(fd_before(grules, v, rid as int, t, grules.len() as int, 0));
                }
            }
        }
    }
    entries
}

/// Scans every rule position and collects the flow edges and the rules that
/// carry them.
#[verifier::loop_isolation(false)]
fn build_follow_flows(first: &First, rules: &Vec<Rule>) -> (r: (
    Vec<(Variable, Variable)>,
    Vec<(Variable, usize)>,
))
    requires
        first.wf(),
        first.rules_gh@ == rules@,
    ensures
        forall|v: Variable, c: Variable|
            r.0@.contains((v, c)) <==> #[trigger] follow_edge(rules@)(v, c),
        forall|v: Variable, rid: usize|
            r.1@.contains((v, rid)) <==> #[trigger] rt_direct(rules@, v, rid as int),
{
    let ghost grules = rules@;
    let mut track: Vec<(Variable, Variable)> = Vec::new();
    let mut rule_track: Vec<(Variable, usize)> = Vec::new();
    let mut ri: usize = 0;
    while ri < rules.len()
        invariant
            ri <= grules.len(),
            forall|v: Variable, c: Variable|
                #[trigger] track@.contains((v, c)) <==> exists|j: int|
                    ft_before(grules, v, j, ri as int, 0) && 0 <= j < grules.len()
                        && (#[trigger] grules[j]).clause == c,
            forall|v: Variable, rid: usize|
                #[trigger] rule_track@.contains((v, rid)) <==> ft_before(
                    grules,
                    v,
                    rid as int,
                    ri as int,
                    0,
                ),
        decreases grules.len() - ri,
    {
        let clause = rules[ri].clause;
        let rule_len = rules[ri].output.data.len();
        let mut pi: usize = 0;
        while pi < rule_len
            invariant
                pi <= rule_len,
                rule_len == out_of(grules, ri as int).len(),
                ri < grules.len(),
                clause == grules[ri as int].clause,
                forall|v: Variable, c: Variable|
                    #[trigger] track@.contains((v, c)) <==> exists|j: int|
                        ft_before(grules, v, j, ri as int, pi as int) && 0 <= j < grules.len()
                            && (#[trigger] grules[j]).clause == c,
                forall|v: Variable, rid: usize|
                    #[trigger] rule_track@.contains((v, rid)) <==> ft_before(
                        grules,
                        v,
                        rid as int,
                        ri as int,
                        pi as int,
                    ),
            decreases rule_len - pi,
        {
            let ghost old_track = track@;
            let ghost old_rule_track = rule_track@;
            let ghost gri = ri as int;
            let ghost gpi = pi as int;
            match rules[ri].output.data[pi] {
                MixedChar::Terminal(_) => {},
                MixedChar::Variable(v) => {
                    let mut flows: bool = false;
                    if pi + 1 == rule_len {
                        flows = v != clause;
                    } else {
                        match rules[ri].output.data[pi + 1] {
                            MixedChar::Terminal(_) => {},
                            MixedChar::Variable(w) => {
                                if contains_var(&first.empty, w) {
                                    flows = v != clause;
                                    proof {
                                        assert(next_var(grules, gri, gpi, w));
                                        assert(nullable_direct(grules, w));
                                    }
                                }
                            },
                        }
                    }
                    proof {
                        if flows {
                            assert(at_var(grules, gri, gpi, v));
                            assert(flows_at(grules, gri, gpi, v));
                        }
                    }
                    if flows {
                        track.push((v, clause));
                        rule_track.push((v, ri));
                    }
                },
            }
            proof {
                assert(!flows_at(grules, gri, gpi, grules[gri].clause));
                assert forall|v: Variable, c: Variable| #[trigger]
                    track@.contains((v, c)) implies exists|j: int|
                    ft_before(grules, v, j, gri, gpi + 1) && 0 <= j < grules.len() && (
                    #[trigger] grules[j]).clause == c by {
                    if old_track.contains((v, c)) {
                        let j = choose|j: int|
                            ft_before(grules, v, j, gri, gpi) && 0 <= j < grules.len() && (
                            #[trigger] grules[j]).clause == c;
                        let i = choose|i: int|
                            #[trigger] flows_at(grules, j, i, v) && (j < gri || (j == gri && i
                                < gpi));
                        assert(ft_before(grules, v, j, gri, gpi + 1));
                    } else {
                        assert(track@.last() == (v, c));
                        assert(flows_at(grules, gri, gpi, v) && grules[gri].clause == c);
                        assert(ft_before(grules, v, gri, gri, gpi + 1));
                    }
                }
                assert forall|v: Variable, c: Variable|
                    (exists|j: int|
                        ft_before(grules, v, j, gri, gpi + 1) && 0 <= j < grules.len() && (
                        #[trigger] grules[j]).clause == c) implies #[trigger] track@.contains(
                    (v, c),
                ) by {
                    let j = choose|j: int|
                        ft_before(grules, v, j, gri, gpi + 1) && 0 <= j < grules.len() && (
                        #[trigger] grules[j]).clause == c;
                    let i = choose|i: int|
                        #[trigger] flows_at(grules, j, i, v) && (j < gri || (j == gri && i < gpi
                            + 1));
                    if j < gri || (j == gri && i < gpi) {
                        assert(ft_before(grules, v, j, gri, gpi));
                        assert(old_track.contains((v, c)));
                    } else {
                        assert(j == gri && i == gpi);
                        assert(flows_at(grules, gri, gpi, v));
                        assert(c == clause);
                        assert(v != clause);
                        assert(at_var(grules, gri, gpi, v));
                        assert(out_of(grules, gri)[gpi] == MixedChar::Variable(v));
                        assert(track@.last() == (v, clause));
                    }
                }
                assert forall|v: Variable, rid: usize| #[trigger]
                    rule_track@.contains((v, rid)) implies ft_before(
                    grules,
                    v,
                    rid as int,
                    gri,
                    gpi + 1,
                ) by {
                    if old_rule_track.contains((v, rid)) {
                        let i = choose|i: int|
                            #[trigger] flows_at(grules, rid as int, i, v) && (rid < gri || (rid
                                == gri && i < gpi));
                        assert(ft_before(grules, v, rid as int, gri, gpi + 1));
                    } else {
                        assert(rule_track@.last() == (v, rid));
                        assert(rid == ri);
                        assert(flows_at(grules, gri, gpi, v));
                    }
                }
                assert forall|v: Variable, rid: usize|
                    ft_before(grules, v, rid as int, gri, gpi + 1) implies #[trigger]
                    rule_track@.contains((v, rid)) by {
                    let i = choose|i: int|
                        #[trigger] flows_at(grules, rid as int, i, v) && (rid < gri || (rid == gri
                            && i < gpi + 1));
                    if rid < gri || (rid == gri && i < gpi) {
                        assert(ft_before(grules, v, rid as int, gri, gpi));
                        assert(old_rule_track.contains((v, rid)));
                    } else {
                        assert(rid == gri && i == gpi);
                        assert(flows_at(grules, gri, gpi, v));
                        assert(at_var(grules, gri, gpi, v));
                        assert(out_of(grules, gri)[gpi] == MixedChar::Variable(v));
                        assert(rule_track@.last() == (v, rid));
                    }
                }
            }
            pi = pi + 1;
        }
        proof {
            let gri = ri as int;
            assert forall|v: Variable, rid: int|
                ft_before(grules, v, rid, gri, rule_len as int) == ft_before(
                    grules,
                    v,
                    rid,
                    gri + 1,
                    0,
                ) by {
                if ft_before(grules, v, rid, gri, rule_len as int) {
                    let i = choose|i: int|
                        #[trigger] flows_at(grules, rid, i, v) && (rid < gri || (rid == gri && i
                            < rule_len));
                    assert(ft_before(grules, v, rid, gri + 1, 0));
                }
                if ft_before(grules, v, rid, gri + 1, 0) {
                    let i = choose|i: int| #[trigger] flows_at(grules, rid, i, v) && rid < gri + 1;
                    if rid == gri {
                        assert(i < rule_len);
                    }
                    assert(ft_before(grules, v, rid, gri, rule_len as int));
                }
            }
        }
        ri = ri + 1;
    }
    proof {
        assert forall|v: Variable, c: Variable| #[trigger]
            track@.contains((v, c)) == follow_edge(grules)(v, c) by {
            if track@.contains((v, c)) {
                let j = choose|j: int|
                    ft_before(grules, v, j, grules.len() as int, 0) && 0 <= j < grules.len() && (
                    #[trigger] grules[j]).clause == c;
                let i = choose|i: int| #[trigger] flows_at(grules, j, i, v) && j < grules.len();
                assert(follow_edge(grules)(v, c));
            }
            if follow_edge(grules)(v, c) {
                let (j, i): (int, int) = choose|j: int, i: int|
                    #[trigger] flows_at(grules, j, i, v) && grules[j].clause == c;
                assert(0 <= j < grules.len());
                assert(ft_before(grules, v, j, grules.len() as int, 0));
            }
        }
        assert forall|v: Variable, rid: usize| #[trigger]
            rule_track@.contains((v, rid)) == rt_direct(grules, v, rid as int) by {
            if rule_track@.contains((v, rid)) {
                let i = choose|i: int|
                    #[trigger] flows_at(grules, rid as int, i, v) && rid < grules.len();
                assert(rt_direct(grules, v, rid as int));
            }
            if rt_direct(grules, v, rid as int) {
                let i = choose|i: int| #[trigger] flows_at(grules, rid as int, i, v);
                assert(0 <= rid < grules.len());
                assert(ft_before(grules, v, rid as int, grules.len() as int, 0));
            }
        }
    }
    (track, rule_track)
}

/// FIRST construction is a pure function of the rule list: two engines read
/// from the same rules hold the same direct sets, dependency edges and
/// nullable marks, and so answer every FIRST query alike.
pub proof fn lemma_first_deterministic(f1: First, f2: First, a: Variable)
    requires
        f1.wf(),
        f2.wf(),
        f1.rules_gh@ == f2.rules_gh@,
    ensures
        forall|k: Variable| #[trigger] f1.map.spec_get(k) == f2.map.spec_get(k),
        forall|v: Variable| f1.empty@.contains(v) <==> #[trigger] f2.empty@.contains(v),
        forall|x: Variable, y: Variable|
            f1.track@.contains((x, y)) <==> #[trigger] f2.track@.contains((x, y)),
        first_sets(f1.rules_gh@, a) == first_sets(f2.rules_gh@, a),
{
    assert forall|v: Variable| f1.empty@.contains(v) <==> #[trigger] f2.empty@.contains(v) by {
        assert(f1.empty@.contains(v) <==> nullable_direct(f1.rules_gh@, v));
        assert(f2.empty@.contains(v) <==> nullable_direct(f2.rules_gh@, v));
    }
    assert forall|x: Variable, y: Variable|
        f1.track@.contains((x, y)) <==> #[trigger] f2.track@.contains((x, y)) by {
        assert(f1.track@.contains((x, y)) <==> first_edge(f1.rules_gh@)(x, y));
        assert(f2.track@.contains((x, y)) <==> first_edge(f2.rules_gh@)(x, y));
    }
}

/// FOLLOW construction is a pure function of the rule list in the same way.
pub proof fn lemma_follow_deterministic(g1: Follow, g2: Follow, a: Variable, rid: int)
    requires
        g1.wf(),
        g2.wf(),
        g1.rules_gh@ == g2.rules_gh@,
    ensures
        forall|v: Variable, r: usize, t: Terminal|
            g1.entries@.contains((v, r, t)) <==> #[trigger] g2.entries@.contains((v, r, t)),
        forall|v: Variable, c: Variable|
            g1.track@.contains((v, c)) <==> #[trigger] g2.track@.contains((v, c)),
        forall|v: Variable, r: usize|
            g1.rule_track@.contains((v, r)) <==> #[trigger] g2.rule_track@.contains((v, r)),
        follow_sets(g1.rules_gh@, a, rid) == follow_sets(g2.rules_gh@, a, rid),
        follow_all(g1.rules_gh@, a) == follow_all(g2.rules_gh@, a),
{
    assert forall|v: Variable, r: usize, t: Terminal|
        g1.entries@.contains((v, r, t)) <==> #[trigger] g2.entries@.contains((v, r, t)) by {
        assert(g1.entries@.contains((v, r, t)) <==> follow_direct(
            g1.rules_gh@,
            v,
            r as int,
        ).contains(t));
        assert(g2.entries@.contains((v, r, t)) <==> follow_direct(
            g2.rules_gh@,
            v,
            r as int,
        ).contains(t));
    }
    assert forall|v: Variable, c: Variable|
        g1.track@.contains((v, c)) <==> #[trigger] g2.track@.contains((v, c)) by {
        assert(g1.track@.contains((v, c)) <==> follow_edge(g1.rules_gh@)(v, c));
        assert(g2.track@.contains((v, c)) <==> follow_edge(g2.rules_gh@)(v, c));
    }
    assert forall|v: Variable, r: usize|
        g1.rule_track@.contains((v, r)) <==> #[trigger] g2.rule_track@.contains((v, r)) by {
        assert(g1.rule_track@.contains((v, r)) <==> rt_direct(g1.rules_gh@, v, r as int));
        assert(g2.rule_track@.contains((v, r)) <==> rt_direct(g2.rules_gh@, v, r as int));
    }
}

/// For a variable `a` whose rules begin either with the variable `b` or with
/// the terminal `t`, and both occur, the FIRST set of `a` is exactly the
/// FIRST set of `b` together with `t`.
pub proof fn lemma_first_of_branching(rules: Seq<Rule>, a: Variable, b: Variable, t: Terminal)
    requires
        forall|j: int|
            0 <= j < rules.len() && (#[trigger] rules[j]).clause == a ==> out_of(rules, j).len() > 0
                && (out_of(rules, j)[0] == MixedChar::Variable(b) || out_of(rules, j)[0]
                == MixedChar::Terminal(t)),
        exists|j: int|
            0 <= j < rules.len() && (#[trigger] rules[j]).clause == a && out_of(rules, j).len() > 0
                && out_of(rules, j)[0] == MixedChar::Variable(b),
        exists|j: int|
            0 <= j < rules.len() && (#[trigger] rules[j]).clause == a && out_of(rules, j).len() > 0
                && out_of(rules, j)[0] == MixedChar::Terminal(t),
    ensures
        first_sets(rules, a) == first_sets(rules, b).insert(t),
{
    let fe = first_edge(rules);
    assert(fe(a, b));
    lemma_reach_refl(fe, a);
    crate::reach::lemma_reach_step(fe, a, a, b);
    assert(first_sets(rules, a) =~= first_sets(rules, b).insert(t)) by {
        assert forall|u: Terminal| first_sets(rules, b).insert(t).contains(u) implies first_sets(
            rules,
            a,
        ).contains(u) by {
            if u == t {
                lemma_reach_refl(fe, a);
                assert(first_direct(rules, a).contains(t));
                assert(reaches(fe, a, a) && first_direct(rules, a).contains(u));
            } else {
                let x = choose|x: Variable|
                    #[trigger] reaches(fe, b, x) && first_direct(rules, x).contains(u);
                crate::reach::lemma_reach_trans(fe, a, b, x);
            }
        }
        assert forall|u: Terminal| first_sets(rules, a).contains(u) implies first_sets(
            rules,
            b,
        ).insert(t).contains(u) by {
            let x = choose|x: Variable|
                #[trigger] reaches(fe, a, x) && first_direct(rules, x).contains(u);
            if x == a {
                assert(u == t) by {
                    let j = choose|j: int|
                        0 <= j < rules.len() && (#[trigger] rules[j]).clause == a && out_of(
                            rules,
                            j,
                        ).len() > 0 && out_of(rules, j)[0] == MixedChar::Terminal(u);
                }
            } else {
                let m = crate::reach::lemma_reach_first_step(fe, a, x);
                assert(m == b) by {
                    let j = choose|j: int|
                        0 <= j < rules.len() && (#[trigger] rules[j]).clause == a && out_of(
                            rules,
                            j,
                        ).len() > 0 && out_of(rules, j)[0] == MixedChar::Variable(m);
                }
                assert(reaches(fe, b, x));
            }
        }
    }
}

/// Mutually recursive variables reach the same dependency fixpoint: when `a`
/// depends on `b` and `b` depends on `a`, their FIRST sets coincide.
pub proof fn lemma_first_of_mutual_recursion(rules: Seq<Rule>, a: Variable, b: Variable)
    requires
        first_edge(rules)(a, b),
        first_edge(rules)(b, a),
    ensures
        first_sets(rules, a) == first_sets(rules, b),
{
    let fe = first_edge(rules);
    lemma_reach_refl(fe, a);
    lemma_reach_refl(fe, b);
    crate::reach::lemma_reach_step(fe, a, a, b);
    crate::reach::lemma_reach_step(fe, b, b, a);
    assert(first_sets(rules, a) =~= first_sets(rules, b)) by {
        assert forall|u: Terminal| first_sets(rules, a).contains(u) implies first_sets(
            rules,
            b,
        ).contains(u) by {
            let x = choose|x: Variable|
                #[trigger] reaches(fe, a, x) && first_direct(rules, x).contains(u);
            crate::reach::lemma_reach_trans(fe, b, a, x);
        }
        assert forall|u: Terminal| first_sets(rules, b).contains(u) implies first_sets(
            rules,
            a,
        ).contains(u) by {
            let x = choose|x: Variable|
                #[trigger] reaches(fe, b, x) && first_direct(rules, x).contains(u);
            crate::reach::lemma_reach_trans(fe, a, b, x);
        }
    }
}

} // verus!
