use vstd::prelude::*;
use vstd::seq_lib::lemma_seq_contains;
use vstd::set_lib::lemma_len_subset;

use crate::syntax::Variable;

verus! {

broadcast use vstd::seq_lib::group_seq_properties;

/// The sequence `p` is a walk along `edge`: consecutive entries are joined by
/// an edge.
pub open spec fn is_path<T>(edge: spec_fn(T, T) -> bool, p: Seq<T>) -> bool {
    forall|i: int| 0 <= i < p.len() - 1 ==> #[trigger] edge(p[i], p[i + 1])
}

/// `b` lies on some walk from `a` along `edge` (reflexive-transitive closure).
pub open spec fn reaches<T>(edge: spec_fn(T, T) -> bool, a: T, b: T) -> bool {
    exists|p: Seq<T>| #[trigger] is_path(edge, p) && p.len() >= 1 && p.first() == a && p.last() == b
}

/// `b` is reachable from some element of `seeds`.
pub open spec fn reaches_from<T>(edge: spec_fn(T, T) -> bool, seeds: Set<T>, b: T) -> bool {
    exists|a: T| seeds.contains(a) && reaches(edge, a, b)
}

/// One link of a walk.
proof fn lemma_path_edge<T>(edge: spec_fn(T, T) -> bool, p: Seq<T>, i: int)
    requires
        is_path(edge, p),
        0 <= i < p.len() - 1,
    ensures
        edge(p[i], p[i + 1]),
{
}

pub proof fn lemma_reach_refl<T>(edge: spec_fn(T, T) -> bool, a: T)
    ensures
        reaches(edge, a, a),
{
    let p = seq![a];
    assert(is_path(edge, p));
    assert(p.first() == a && p.last() == a);
}

pub proof fn lemma_reach_step<T>(edge: spec_fn(T, T) -> bool, a: T, m: T, b: T)
    requires
        reaches(edge, a, m),
        edge(m, b),
    ensures
        reaches(edge, a, b),
{
    let p = choose|p: Seq<T>| #[trigger]
        is_path(edge, p) && p.len() >= 1 && p.first() == a && p.last() == m;
    let q = p.push(b);
    assert(is_path(edge, q)) by {
        assert forall|i: int| 0 <= i < q.len() - 1 implies #[trigger] edge(q[i], q[i + 1]) by {
            if i < p.len() - 1 {
                lemma_path_edge(edge, p, i);
            } else {
                assert(q[i] == p.last() && q[i + 1] == b);
            }
        }
    }
    assert(q.first() == a && q.last() == b);
}

pub proof fn lemma_reach_trans<T>(edge: spec_fn(T, T) -> bool, a: T, b: T, c: T)
    requires
        reaches(edge, a, b),
        reaches(edge, b, c),
    ensures
        reaches(edge, a, c),
{
    let p = choose|p: Seq<T>| #[trigger]
        is_path(edge, p) && p.len() >= 1 && p.first() == a && p.last() == b;
    let q = choose|q: Seq<T>| #[trigger]
        is_path(edge, q) && q.len() >= 1 && q.first() == b && q.last() == c;
    let r = p + q.drop_first();
    assert(is_path(edge, r)) by {
        assert forall|i: int| 0 <= i < r.len() - 1 implies #[trigger] edge(r[i], r[i + 1]) by {
            if i < p.len() - 1 {
                assert(r[i] == p[i] && r[i + 1] == p[i + 1]);
                lemma_path_edge(edge, p, i);
            } else if i == p.len() - 1 {
                assert(q.len() >= 2);
                assert(r[i] == p.last() && r[i + 1] == q.drop_first()[0]);
                assert(q.drop_first()[0] == q[1]);
                lemma_path_edge(edge, q, 0);
            } else {
                let j = i - p.len();
                assert(r[i] == q.drop_first()[j] && r[i + 1] == q.drop_first()[j + 1]);
                assert(q.drop_first()[j] == q[j + 1] && q.drop_first()[j + 1] == q[j + 2]);
                lemma_path_edge(edge, q, j + 1);
            }
        }
    }
    assert(r.len() >= 1 && r.first() == a);
    if q.len() >= 2 {
        assert(r.last() == q.drop_first().last());
        assert(q.drop_first().last() == q.last());
    } else {
        assert(r.last() == p.last());
    }
    assert(r.last() == c);
}

/// A set that contains `a` and is closed under `edge` contains everything
/// reachable from `a`.
pub proof fn lemma_reach_closed<T>(edge: spec_fn(T, T) -> bool, s: Set<T>, a: T, b: T)
    requires
        s.contains(a),
        forall|x: T, y: T| s.contains(x) && #[trigger] edge(x, y) ==> s.contains(y),
        reaches(edge, a, b),
    ensures
        s.contains(b),
{
    let p = choose|p: Seq<T>| #[trigger]
        is_path(edge, p) && p.len() >= 1 && p.first() == a && p.last() == b;
    lemma_path_stays(edge, s, p, p.len() - 1);
}

proof fn lemma_path_stays<T>(edge: spec_fn(T, T) -> bool, s: Set<T>, p: Seq<T>, i: int)
    requires
        is_path(edge, p),
        p.len() >= 1,
        s.contains(p.first()),
        forall|x: T, y: T| s.contains(x) && #[trigger] edge(x, y) ==> s.contains(y),
        0 <= i < p.len(),
    ensures
        s.contains(p[i]),
    decreases i,
{
    if i > 0 {
        lemma_path_stays(edge, s, p, i - 1);
        lemma_path_edge(edge, p, i - 1);
    }
}

/// A nontrivial walk from `a` starts with an edge out of `a`.
pub proof fn lemma_reach_first_step<T>(edge: spec_fn(T, T) -> bool, a: T, b: T) -> (m: T)
    requires
        reaches(edge, a, b),
        a != b,
    ensures
        edge(a, m),
        reaches(edge, m, b),
{
    let p = choose|p: Seq<T>| #[trigger]
        is_path(edge, p) && p.len() >= 1 && p.first() == a && p.last() == b;
    let q = p.drop_first();
    assert(p.len() >= 2);
    lemma_path_edge(edge, p, 0);
    assert(is_path(edge, q)) by {
        assert forall|i: int| 0 <= i < q.len() - 1 implies #[trigger] edge(q[i], q[i + 1]) by {
            assert(q[i] == p[i + 1] && q[i + 1] == p[i + 2]);
            lemma_path_edge(edge, p, i + 1);
        }
    }
    assert(q.len() >= 1 && q.first() == p[1] && q.last() == b);
    p[1]
}

/// The edge relation read off a list of directed edges over variables.
pub open spec fn edge_rel(edges: Seq<(Variable, Variable)>) -> spec_fn(Variable, Variable) -> bool {
    |a: Variable, b: Variable| edges.contains((a, b))
}

/// The number of distinct values in a sequence is at most the size of any
/// finite set holding all of them.
pub proof fn lemma_unique_seq_bound<T>(s: Seq<T>, u: Set<T>)
    requires
        s.no_duplicates(),
        u.finite(),
        forall|x: T| #[trigger] s.contains(x) ==> u.contains(x),
    ensures
        s.len() <= u.len(),
{
    s.unique_seq_to_set();
    assert(s.to_set().subset_of(u)) by {
        assert forall|x: T| s.to_set().contains(x) implies u.contains(x) by {
            lemma_seq_contains(s, x);
        }
    }
    lemma_len_subset(s.to_set(), u);
}

/// A sequence's set of values has at most as many elements as the sequence.
pub proof fn lemma_to_set_len_le<T>(s: Seq<T>)
    ensures
        s.to_set().finite(),
        s.to_set().len() <= s.len(),
    decreases s.len(),
{
    broadcast use vstd::seq_lib::seq_to_set_is_finite;

    if s.len() == 0 {
        assert(s.to_set() =~= Set::<T>::empty());
    } else {
        let rest = s.drop_last();
        lemma_to_set_len_le(rest);
        assert(s.to_set() =~= rest.to_set().insert(s.last())) by {
            assert forall|x: T| s.to_set().contains(x) implies rest.to_set().contains(x) || x
                == s.last() by {
                let i = choose|i: int| 0 <= i < s.len() && s[i] == x;
                if i < s.len() - 1 {
                    assert(rest[i] == x);
                }
            }
            assert forall|x: T| rest.to_set().contains(x) implies s.to_set().contains(x) by {
                let i = choose|i: int| 0 <= i < rest.len() && rest[i] == x;
                assert(s[i] == x);
            }
            assert(s.to_set().contains(s.last()));
        }
        vstd::set_lib::lemma_set_insert_finite_iff(rest.to_set(), s.last());
    }
}

/// True when the list of variables holds `x`.
pub fn contains_var(list: &Vec<Variable>, x: Variable) -> (r: bool)
    ensures
        r == list@.contains(x),
{
    let mut i: usize = 0;
    while i < list.len()
        invariant
            i <= list@.len(),
            forall|j: int| 0 <= j < i ==> list@[j] != x,
        decreases list@.len() - i,
    {
        if list[i] == x {
            return true;
        }
        i = i + 1;
    }
    false
}

/// Every variable reachable from one of `seeds` along the directed `edges`:
/// a worklist flood fill over the raw edge list.
#[verifier::loop_isolation(false)]
#[verifier::rlimit(60)]
pub fn flood(edges: &Vec<(Variable, Variable)>, seeds: &Vec<Variable>) -> (r: Vec<Variable>)
    ensures
        forall|b: Variable| #[trigger]
            r@.contains(b) <==> reaches_from(edge_rel(edges@), seeds@.to_set(), b),
        r@.no_duplicates(),
{
    let ghost rel = edge_rel(edges@);
    let ghost seedset = seeds@.to_set();
    let ghost universe = seeds@.to_set().union(
        edges@.map_values(|e: (Variable, Variable)| e.1).to_set(),
    );
    proof {
        lemma_to_set_len_le(seeds@);
        lemma_to_set_len_le(edges@.map_values(|e: (Variable, Variable)| e.1));
        vstd::set_lib::lemma_len_union(
            seeds@.to_set(),
            edges@.map_values(|e: (Variable, Variable)| e.1).to_set(),
        );
    }
    let mut visited: Vec<Variable> = Vec::new();
    let mut stack: Vec<Variable> = Vec::new();
    let mut i: usize = 0;
    while i < seeds.len()
        invariant
            i <= seeds@.len(),
            forall|j: int| 0 <= j < i ==> stack@.contains(#[trigger] seeds@[j]),
            forall|v: Variable| #[trigger]
                stack@.contains(v) ==> seedset.contains(v) && reaches_from(rel, seedset, v),
        decreases seeds@.len() - i,
    {
        stack.push(seeds[i]);
        proof {
            lemma_reach_refl(rel, seeds@[i as int]);
            assert(seeds@.contains(seeds@[i as int]));
            assert(seedset.contains(seeds@[i as int]));
        }
        i = i + 1;
    }
    proof {
        assert forall|s: Variable| #[trigger] seedset.contains(s) implies stack@.contains(s) by {
            assert(seeds@.contains(s));
            let j = choose|j: int| 0 <= j < seeds@.len() && seeds@[j] == s;
            assert(stack@.contains(seeds@[j]));
        }
    }
    while stack.len() > 0
        invariant
            universe.finite(),
            universe.len() <= seeds@.len() + edges@.len(),
            visited@.no_duplicates(),
            forall|v: Variable| #[trigger] visited@.contains(v) ==> universe.contains(v),
            forall|v: Variable| #[trigger] visited@.contains(v) ==> reaches_from(rel, seedset, v),
            forall|v: Variable| #[trigger] stack@.contains(v) ==> reaches_from(rel, seedset, v),
            forall|s: Variable| #[trigger]
                seedset.contains(s) ==> visited@.contains(s) || stack@.contains(s),
            forall|j: int|
                0 <= j < edges@.len() && visited@.contains(#[trigger] edges@[j].0)
                    ==> visited@.contains(edges@[j].1) || stack@.contains(edges@[j].1),
        decreases seeds@.len() + edges@.len() - visited@.len(), stack@.len(),
    {
        let ghost old_stack = stack@;
        let v = match stack.pop() {
            Some(v) => v,
            None => { return visited; },
        };
        proof {
            assert(old_stack.contains(old_stack.last()));
            assert forall|w: Variable| #[trigger] stack@.contains(w) implies old_stack.contains(
                w,
            ) by {
                let k = choose|k: int| 0 <= k < stack@.len() && stack@[k] == w;
                assert(old_stack[k] == w);
            }
        }
        if contains_var(&visited, v) {
            proof {
                assert forall|s: Variable| #[trigger] seedset.contains(s) implies visited@.contains(
                    s,
                ) || stack@.contains(s) by {
                    if old_stack.contains(s) && !visited@.contains(s) {
                        let k = choose|k: int| 0 <= k < old_stack.len() && old_stack[k] == s;
                        if k < old_stack.len() - 1 {
                            assert(stack@[k] == s);
                        } else {
                            assert(s == v);
                        }
                    }
                }
                assert forall|j: int|
                    0 <= j < edges@.len() && visited@.contains(
                        #[trigger] edges@[j].0,
                    ) implies visited@.contains(edges@[j].1) || stack@.contains(edges@[j].1) by {
                    let t = edges@[j].1;
                    if old_stack.contains(t) && !visited@.contains(t) {
                        let k = choose|k: int| 0 <= k < old_stack.len() && old_stack[k] == t;
                        if k < old_stack.len() - 1 {
                            assert(stack@[k] == t);
                        } else {
                            assert(t == v);
                        }
                    }
                }
            }
            continue;
        }
        let ghost old_visited = visited@;
        visited.push(v);
        proof {
            assert(universe.contains(v)) by {
                let a = choose|a: Variable| seedset.contains(a) && reaches(rel, a, v);
                if a == v {
                    assert(seedset.contains(v));
                } else {
                    let m = lemma_reach_last_step(rel, a, v);
                    assert(edges@.contains((m, v)));
                    let k = choose|k: int| 0 <= k < edges@.len() && edges@[k] == (m, v);
                    assert(edges@.map_values(|e: (Variable, Variable)| e.1)[k] == v);
                    assert(edges@.map_values(|e: (Variable, Variable)| e.1).contains(v));
                }
            }
            assert forall|x: Variable| #[trigger] visited@.contains(x) implies universe.contains(
                x,
            ) by {
                if old_visited.contains(x) {
                } else {
                    assert(x == v);
                }
            }
            lemma_unique_seq_bound(visited@, universe);
        }
        let mut j: usize = 0;
        while j < edges.len()
            invariant
                j <= edges@.len(),
                visited@ == old_visited.push(v),
                visited@.no_duplicates(),
                universe.finite(),
                forall|w: Variable| #[trigger] visited@.contains(w) ==> universe.contains(w),
                forall|w: Variable| #[trigger]
                    visited@.contains(w) ==> reaches_from(rel, seedset, w),
                forall|w: Variable| #[trigger] stack@.contains(w) ==> reaches_from(rel, seedset, w),
                forall|s: Variable| #[trigger]
                    seedset.contains(s) ==> visited@.contains(s) || stack@.contains(s),
                forall|k: int|
                    0 <= k < edges@.len() && old_visited.contains(#[trigger] edges@[k].0)
                        ==> visited@.contains(edges@[k].1) || stack@.contains(edges@[k].1),
                forall|k: int|
                    0 <= k < j && edges@[k].0 == v ==> visited@.contains(#[trigger] edges@[k].1)
                        || stack@.contains(edges@[k].1),
            decreases edges@.len() - j,
        {
            let e = edges[j];
            if e.0 == v {
                stack.push(e.1);
                proof {
                    assert(edges@[j as int] == (v, e.1));
                    assert(edges@.contains((v, e.1)));
                    assert(rel(v, e.1));
                    assert(visited@.contains(v));
                    let a = choose|a: Variable| seedset.contains(a) && reaches(rel, a, v);
                    lemma_reach_step(rel, a, v, e.1);
                    assert(stack@.contains(e.1));
                }
            }
            j = j + 1;
        }
        proof {
            assert forall|k: int|
                0 <= k < edges@.len() && visited@.contains(
                    #[trigger] edges@[k].0,
                ) implies visited@.contains(edges@[k].1) || stack@.contains(edges@[k].1) by {
                if old_visited.contains(edges@[k].0) {
                } else {
                    assert(edges@[k].0 == v);
                }
            }
        }
    }
    proof {
        assert forall|b: Variable|
            reaches_from(rel, seedset, b) implies #[trigger] visited@.contains(b) by {
            let visited_set = visited@.to_set();
            assert forall|x: Variable, y: Variable|
                visited_set.contains(x) && #[trigger] rel(x, y) implies visited_set.contains(y) by {
                assert(edges@.contains((x, y)));
                let k = choose|k: int| 0 <= k < edges@.len() && edges@[k] == (x, y);
                assert(visited@.contains(edges@[k].0));
                assert(visited@.contains(edges@[k].1) || stack@.contains(edges@[k].1));
            }
            let a = choose|a: Variable| seedset.contains(a) && reaches(rel, a, b);
            assert(visited@.contains(a));
            assert(visited_set.contains(a));
            lemma_reach_closed(rel, visited_set, a, b);
        }
    }
    visited
}

/// A nontrivial walk into `b` ends with an edge into `b`.
pub proof fn lemma_reach_last_step<T>(edge: spec_fn(T, T) -> bool, a: T, b: T) -> (m: T)
    requires
        reaches(edge, a, b),
        a != b,
    ensures
        edge(m, b),
        reaches(edge, a, m),
{
    let p = choose|p: Seq<T>| #[trigger]
        is_path(edge, p) && p.len() >= 1 && p.first() == a && p.last() == b;
    let q = p.drop_last();
    assert(p.len() >= 2);
    lemma_path_edge(edge, p, p.len() - 2);
    assert(edge(p[p.len() - 2], p[p.len() - 1]));
    assert(is_path(edge, q)) by {
        assert forall|i: int| 0 <= i < q.len() - 1 implies #[trigger] edge(q[i], q[i + 1]) by {
            assert(q[i] == p[i] && q[i + 1] == p[i + 1]);
            lemma_path_edge(edge, p, i);
        }
    }
    assert(q.len() >= 1 && q.first() == a && q.last() == p[p.len() - 2]);
    p[p.len() - 2]
}

} // verus!
