use vstd::prelude::*;

use crate::first_follow::{first_edge, lemma_reaches_equiv, out_of};
use crate::reach::{edge_rel, flood, reaches, reaches_from};
use crate::syntax::{MixedChar, Rule, Variable};
use crate::tarjan::{groups_distinct, groups_wf, in_groups, Tarjan};

verus! {

broadcast use vstd::seq_lib::group_seq_properties;

/// The dependency graph over the grammar's nonterminals: the variables are
/// partitioned into strongly-connected groups, and the raw dependency edges
/// (`a` depends on `b` when a rule `a -> b...` begins with `b`) drive the
/// reachability queries the closure step needs.
pub struct RuleGraph {
    /// The groups, as indices into `variables`.
    pub node_group: Vec<Vec<usize>>,
    pub rules: Vec<Rule>,
    /// The distinct clause variables, in ascending symbol order.
    pub variables: Vec<Variable>,
    /// The raw dependency edges between variables.
    pub dep_edges: Vec<(Variable, Variable)>,
}

impl RuleGraph {
    /// The graph was read off its rule list.
    pub open spec fn wf(self) -> bool {
        &&& forall|v: Variable|
            #[trigger] self.variables@.contains(v) <==> exists|j: int|
                0 <= j < self.rules@.len() && (#[trigger] self.rules@[j]).clause == v
        &&& self.variables@.no_duplicates()
        &&& forall|a: Variable, b: Variable|
            self.dep_edges@.contains((a, b)) <==> #[trigger] first_edge(self.rules@)(a, b)
        &&& groups_wf(self.node_group@, self.variables@.len() as int)
        &&& groups_distinct(self.node_group@)
        &&& forall|v: usize| v < self.variables@.len() ==> in_groups(self.node_group@, v)
    }

    /// Collects the distinct clause variables, partitions them into
    /// strongly-connected groups, and records the raw dependency edges.
    #[verifier::loop_isolation(false)]
    pub fn new(rules: Vec<Rule>) -> (r: RuleGraph)
        ensures
            r.wf(),
            r.rules@ == rules@,
    {
        let mut variables: Vec<Variable> = Vec::new();
        let mut i: usize = 0;
        while i < rules.len()
            invariant
                i <= rules@.len(),
                variables@.no_duplicates(),
                forall|v: Variable|
                    #[trigger] variables@.contains(v) <==> exists|j: int|
                        0 <= j < i && (#[trigger] rules@[j]).clause == v,
            decreases rules@.len() - i,
        {
            let clause = rules[i].clause;
            let ghost old_vars = variables@;
            if !crate::reach::contains_var(&variables, clause) {
                variables.push(clause);
            }
            proof {
                assert forall|v: Variable| #[trigger] variables@.contains(v) implies exists|j: int|
                    0 <= j < i + 1 && (#[trigger] rules@[j]).clause == v by {
                    if old_vars.contains(v) {
                        let j = choose|j: int| 0 <= j < i && (#[trigger] rules@[j]).clause == v;
                        assert(0 <= j < i + 1 && rules@[j].clause == v);
                    } else {
                        assert(rules@[i as int].clause == v);
                    }
                }
                assert forall|v: Variable|
                    (exists|j: int|
                        0 <= j < i + 1 && (#[trigger] rules@[j]).clause == v) implies variables@
                    .contains(v) by {
                    let j = choose|j: int| 0 <= j < i + 1 && (#[trigger] rules@[j]).clause == v;
                    if j < i {
                        assert(old_vars.contains(v));
                        if old_vars == variables@ {
                        } else {
                            assert(variables@ == old_vars.push(clause));
                        }
                    } else {
                        assert(v == clause);
                        if !old_vars.contains(clause) {
                            assert(variables@.last() == clause);
                        }
                    }
                }
            }
            i = i + 1;
        }
        let mut dep_edges: Vec<(Variable, Variable)> = Vec::new();
        let mut k: usize = 0;
        while k < rules.len()
            invariant
                k <= rules@.len(),
                forall|a: Variable, b: Variable|
                    #[trigger] dep_edges@.contains((a, b)) <==> exists|j: int|
                        0 <= j < k && (#[trigger] rules@[j]).clause == a && out_of(rules@, j).len()
                            > 0 && out_of(rules@, j)[0] == MixedChar::Variable(b),
            decreases rules@.len() - k,
        {
            let ghost old_edges = dep_edges@;
            if rules[k].output.data.len() > 0 {
                match rules[k].output.data[0] {
                    MixedChar::Variable(b) => {
                        dep_edges.push((rules[k].clause, b));
                    },
                    MixedChar::Terminal(_) => {},
                }
            }
            proof {
                assert forall|a: Variable, b: Variable| #[trigger]
                    dep_edges@.contains((a, b)) implies exists|j: int|
                    0 <= j < k + 1 && (#[trigger] rules@[j]).clause == a && out_of(rules@, j).len()
                        > 0 && out_of(rules@, j)[0] == MixedChar::Variable(b) by {
                    if old_edges.contains((a, b)) {
                        let j = choose|j: int|
                            0 <= j < k && (#[trigger] rules@[j]).clause == a && out_of(
                                rules@,
                                j,
                            ).len() > 0 && out_of(rules@, j)[0] == MixedChar::Variable(b);
                        assert(0 <= j < k + 1 && rules@[j].clause == a);
                    } else {
                        assert(dep_edges@.last() == (a, b));
                        assert(rules@[k as int].clause == a && out_of(rules@, k as int)[0]
                            == MixedChar::Variable(b));
                    }
                }
                assert forall|a: Variable, b: Variable|
                    (exists|j: int|
                        0 <= j < k + 1 && (#[trigger] rules@[j]).clause == a && out_of(
                            rules@,
                            j,
                        ).len() > 0 && out_of(rules@, j)[0] == MixedChar::Variable(
                            b,
                        )) implies #[trigger] dep_edges@.contains((a, b)) by {
                    let j = choose|j: int|
                        0 <= j < k + 1 && (#[trigger] rules@[j]).clause == a && out_of(
                            rules@,
                            j,
                        ).len() > 0 && out_of(rules@, j)[0] == MixedChar::Variable(b);
                    if j < k {
                        assert(old_edges.contains((a, b)));
                    } else {
                        assert(dep_edges@.last() == (a, b));
                    }
                }
            }
            k = k + 1;
        }
        let ghost grules = rules@;
        let ghost gvars = variables@;
        let mut tarjan = Tarjan::new(rules, variables);
        let node_group = tarjan.run();
        let Tarjan { rules, nodes, .. } = tarjan;
        let r = RuleGraph { node_group, rules, variables: nodes, dep_edges };
        proof {
            assert(r.rules@ == grules);
            assert(r.variables@ == gvars);
        }
        r
    }

    /// Every variable reachable from `variable` through the dependency
    /// relation, `variable` itself included.
    pub fn get(&self, variable: Variable) -> (r: Vec<Variable>)
        requires
            self.wf(),
        ensures
            forall|b: Variable| #[trigger]
                r@.contains(b) <==> reaches(first_edge(self.rules@), variable, b),
            r@.no_duplicates(),
    {
        let mut seeds: Vec<Variable> = Vec::new();
        seeds.push(variable);
        let r = self.gets_var(&seeds);
        proof {
            assert(seeds@[0] == variable);
            assert forall|b: Variable| #[trigger]
                r@.contains(b) <==> reaches(first_edge(self.rules@), variable, b) by {
                if r@.contains(b) {
                    let a = choose|a: Variable|
                        seeds@.to_set().contains(a) && reaches(first_edge(self.rules@), a, b);
                    assert(seeds@.contains(a));
                    assert(a == variable);
                }
                if reaches(first_edge(self.rules@), variable, b) {
                    assert(seeds@.contains(variable));
                    assert(seeds@.to_set().contains(variable));
                }
            }
        }
        r
    }

    /// Every variable reachable from one of the given seeds.
    pub fn gets_var(&self, variable: &Vec<Variable>) -> (r: Vec<Variable>)
        requires
            self.wf(),
        ensures
            forall|b: Variable| #[trigger]
                r@.contains(b) <==> reaches_from(
                    first_edge(self.rules@),
                    variable@.to_set(),
                    b,
                ),
            r@.no_duplicates(),
    {
        let r = flood(&self.dep_edges, variable);
        proof {
            assert forall|b: Variable| #[trigger]
                r@.contains(b) <==> reaches_from(
                    first_edge(self.rules@),
                    variable@.to_set(),
                    b,
                ) by {
                if r@.contains(b) {
                    let a = choose|a: Variable|
                        variable@.to_set().contains(a) && reaches(edge_rel(self.dep_edges@), a, b);
                    lemma_reaches_equiv(edge_rel(self.dep_edges@), first_edge(self.rules@), a, b);
                }
                if reaches_from(first_edge(self.rules@), variable@.to_set(), b) {
                    let a = choose|a: Variable|
                        variable@.to_set().contains(a) && reaches(first_edge(self.rules@), a, b);
                    lemma_reaches_equiv(edge_rel(self.dep_edges@), first_edge(self.rules@), a, b);
                }
            }
        }
        r
    }

    /// Every rule whose clause is reachable from one of the given seeds: the
    /// rules a closure step must expand, as rule ids in ascending order.
    #[verifier::loop_isolation(false)]
    pub fn gets_rule(&self, variable: &Vec<Variable>) -> (r: Vec<usize>)
        requires
            self.wf(),
        ensures
            forall|rid: usize| #[trigger]
                r@.contains(rid) <==> rid < self.rules@.len() && reaches_from(
                    first_edge(self.rules@),
                    variable@.to_set(),
                    self.rules@[rid as int].clause,
                ),
            r@.no_duplicates(),
    {
        let reach_list = self.gets_var(variable);
        let mut r: Vec<usize> = Vec::new();
        let mut j: usize = 0;
        while j < self.rules.len()
            invariant
                j <= self.rules@.len(),
                forall|rid: usize|
                    #[trigger] r@.contains(rid) <==> rid < j && reach_list@.contains(
                        self.rules@[rid as int].clause,
                    ),
                r@.no_duplicates(),
                forall|l: int| 0 <= l < r@.len() ==> (#[trigger] r@[l]) < j,
            decreases self.rules@.len() - j,
        {
            let ghost old_r = r@;
            if crate::reach::contains_var(&reach_list, self.rules[j].clause) {
                r.push(j);
            }
            proof {
                assert forall|rid: usize| #[trigger] r@.contains(rid) implies rid < j + 1
                    && reach_list@.contains(self.rules@[rid as int].clause) by {
                    if old_r.contains(rid) {
                    } else {
                        assert(r@.last() == rid);
                    }
                }
                assert forall|rid: usize|
                    rid < j + 1 && reach_list@.contains(
                        self.rules@[rid as int].clause,
                    ) implies #[trigger] r@.contains(rid) by {
                    if rid < j {
                        assert(old_r.contains(rid));
                    } else {
                        assert(r@.last() == rid);
                    }
                }
                if !old_r.contains(j) && r@.len() > old_r.len() {
                    assert forall|a: int, b: int| 0 <= a < b < r@.len() implies r@[a] != r@[b] by {
                        if b == r@.len() - 1 {
                            assert(old_r.contains(old_r[a]));
                        }
                    }
                }
            }
            j = j + 1;
        }
        r
    }
}

} // verus!
