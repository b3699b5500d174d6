use vstd::prelude::*;

use crate::itemset::{reduce_spec, ItemSets};
use crate::syntax::{MixedChar, Rule, Terminal, Variable, END_VARIABLE, EPSILON};

verus! {

broadcast use vstd::seq_lib::group_seq_properties;

/// What the driver does next: accept or reject the input, shift into a state,
/// or reduce by a rule (its clause and the number of symbols to pop).
#[derive(PartialEq, Eq, Structural, Clone, Copy, Debug)]
pub enum Action {
    Accept,
    Reject,
    Shift(usize),
    Reduce(Variable, usize),
}

/// A resolved table ambiguity, kept for diagnostics: the state, the
/// lookahead, and the rule whose reduce was suppressed (by a shift, or by an
/// earlier rule).
#[derive(PartialEq, Eq, Structural, Clone, Copy, Debug)]
pub enum Conflict {
    ShiftReduce(usize, Terminal, usize),
    ReduceReduce(usize, Terminal, usize),
}

/// One table row: the shift/goto edges, and per lookahead the winning reduce
/// entry `(lookahead, rule id, clause, pop count)`.
#[derive(Clone, Debug)]
pub struct State {
    pub next: Vec<(MixedChar, usize)>,
    pub reduce: Vec<(Terminal, usize, Variable, usize)>,
}

impl State {
    /// Keys are unique in both maps.
    pub open spec fn wf(self) -> bool {
        &&& forall|k1: int, k2: int|
            0 <= k1 < self.next@.len() && 0 <= k2 < self.next@.len() && (
            #[trigger] self.next@[k1]).0 == (#[trigger] self.next@[k2]).0 ==> k1 == k2
        &&& forall|k1: int, k2: int|
            0 <= k1 < self.reduce@.len() && 0 <= k2 < self.reduce@.len() && (
            #[trigger] self.reduce@[k1]).0 == (#[trigger] self.reduce@[k2]).0 ==> k1 == k2
    }
}

/// The edge out of a row on a symbol, unique when the row is well formed.
pub open spec fn spec_next(st: State, c: MixedChar) -> Option<usize> {
    if exists|p: (MixedChar, usize)| #[trigger] st.next@.contains(p) && p.0 == c {
        Some((choose|p: (MixedChar, usize)| #[trigger] st.next@.contains(p) && p.0 == c).1)
    } else {
        None
    }
}

/// The reduce entry of a row for a lookahead, unique when the row is well
/// formed.
pub open spec fn spec_reduce(st: State, t: Terminal) -> Option<(Terminal, usize, Variable, usize)> {
    if exists|e: (Terminal, usize, Variable, usize)| #[trigger] st.reduce@.contains(e) && e.0 == t {
        Some(
            choose|e: (Terminal, usize, Variable, usize)| #[trigger] st.reduce@.contains(e) && e.0
                == t,
        )
    } else {
        None
    }
}

/// What the table says at a state for a lookahead (`None` stands for an
/// exhausted input): shift wins over reduce; a reduce of the accept clause
/// accepts; with neither entry the input is rejected.
pub open spec fn spec_action(m: StateMachine, index: int, rest: Option<Terminal>) -> Action {
    let t = match rest {
        Some(t) => t,
        None => Terminal { symbol: EPSILON },
    };
    match spec_next(m.states@[index], MixedChar::Terminal(t)) {
        Some(s) => Action::Shift(s),
        None => match spec_reduce(m.states@[index], t) {
            Some(e) => if e.2 == (Variable { symbol: END_VARIABLE }) {
                Action::Accept
            } else {
                Action::Reduce(e.2, e.3)
            },
            None => Action::Reject,
        },
    }
}

/// The ACTION/GOTO table: one row per automaton state.
pub struct StateMachine {
    pub states: Vec<State>,
    /// The grammar the table was built from.
    pub rules_gh: Ghost<Seq<Rule>>,
}

impl StateMachine {
    pub open spec fn wf(self) -> bool {
        forall|s: int| 0 <= s < self.states@.len() ==> (#[trigger] self.states@[s]).wf()
    }

    /// Looks up the shift edge for a terminal.
    #[verifier::loop_isolation(false)]
    fn check_terminal(st: &State, terminal: Terminal) -> (r: Option<usize>)
        requires
            st.wf(),
        ensures
            r == spec_next(*st, MixedChar::Terminal(terminal)),
    {
        let c = MixedChar::Terminal(terminal);
        let mut k: usize = 0;
        while k < st.next.len()
            invariant
                k <= st.next@.len(),
                st.wf(),
                forall|j: int| 0 <= j < k ==> (#[trigger] st.next@[j]).0 != c,
            decreases st.next@.len() - k,
        {
            let e = st.next[k];
            if e.0 == c {
                proof {
                    assert(st.next@[k as int] == e);
                    assert(st.next@.contains(e));
                    assert(e.0 == MixedChar::Terminal(terminal));
                    assert forall|p: (MixedChar, usize)|
                        st.next@.contains(p) && #[trigger] p.0 == MixedChar::Terminal(
                            terminal,
                        ) implies p == e by {
                        let k1 = choose|k1: int| 0 <= k1 < st.next@.len() && st.next@[k1] == p;
                        assert(st.next@[k1].0 == st.next@[k as int].0);
                        assert(k1 == k as int);
                    }
                }
                return Some(e.1);
            }
            k = k + 1;
        }
        proof {
            if exists|p: (MixedChar, usize)| #[trigger] st.next@.contains(p) && p.0
                == MixedChar::Terminal(terminal) {
                let p = choose|p: (MixedChar, usize)| #[trigger] st.next@.contains(p) && p.0
                    == MixedChar::Terminal(terminal);
                let k1 = choose|k1: int| 0 <= k1 < st.next@.len() && st.next@[k1] == p;
                assert(false);
            }
        }
        None
    }

    /// Looks up the goto edge for a variable.
    #[verifier::loop_isolation(false)]
    fn check_variable(st: &State, variable: Variable) -> (r: Option<usize>)
        requires
            st.wf(),
        ensures
            r == spec_next(*st, MixedChar::Variable(variable)),
    {
        let c = MixedChar::Variable(variable);
        let mut k: usize = 0;
        while k < st.next.len()
            invariant
                k <= st.next@.len(),
                st.wf(),
                forall|j: int| 0 <= j < k ==> (#[trigger] st.next@[j]).0 != c,
            decreases st.next@.len() - k,
        {
            let e = st.next[k];
            if e.0 == c {
                proof {
                    assert(st.next@[k as int] == e);
                    assert(st.next@.contains(e));
                    assert(e.0 == MixedChar::Variable(variable));
                    assert forall|p: (MixedChar, usize)|
                        st.next@.contains(p) && #[trigger] p.0 == MixedChar::Variable(
                            variable,
                        ) implies p == e by {
                        let k1 = choose|k1: int| 0 <= k1 < st.next@.len() && st.next@[k1] == p;
                        assert(st.next@[k1].0 == st.next@[k as int].0);
                        assert(k1 == k as int);
                    }
                }
                return Some(e.1);
            }
            k = k + 1;
        }
        proof {
            if exists|p: (MixedChar, usize)| #[trigger] st.next@.contains(p) && p.0
                == MixedChar::Variable(variable) {
                let p = choose|p: (MixedChar, usize)| #[trigger] st.next@.contains(p) && p.0
                    == MixedChar::Variable(variable);
                let k1 = choose|k1: int| 0 <= k1 < st.next@.len() && st.next@[k1] == p;
                assert(false);
            }
        }
        None
    }

    /// Looks up the reduce entry for a lookahead.
    #[verifier::loop_isolation(false)]
    fn check_reduce(st: &State, t: Terminal) -> (r: Option<(Terminal, usize, Variable, usize)>)
        requires
            st.wf(),
        ensures
            r == spec_reduce(*st, t),
    {
        let mut k: usize = 0;
        while k < st.reduce.len()
            invariant
                k <= st.reduce@.len(),
                st.wf(),
                forall|j: int| 0 <= j < k ==> (#[trigger] st.reduce@[j]).0 != t,
            decreases st.reduce@.len() - k,
        {
            let e = st.reduce[k];
            if e.0 == t {
                proof {
                    assert(st.reduce@.contains(e));
                    let p = choose|p: (Terminal, usize, Variable, usize)|
                        #[trigger] st.reduce@.contains(p) && p.0 == t;
                    let k1 = choose|k1: int| 0 <= k1 < st.reduce@.len() && st.reduce@[k1] == p;
                    let k2 = choose|k2: int| 0 <= k2 < st.reduce@.len() && st.reduce@[k2] == e;
                    assert(st.reduce@[k1].0 == st.reduce@[k2].0);
                    assert(k1 == k2);
                    assert(p == e);
                }
                return Some(e);
            }
            k = k + 1;
        }
        proof {
            if exists|p: (Terminal, usize, Variable, usize)| #[trigger] st.reduce@.contains(p)
                && p.0 == t {
                let p = choose|p: (Terminal, usize, Variable, usize)|
                    #[trigger] st.reduce@.contains(p) && p.0 == t;
                let k1 = choose|k1: int| 0 <= k1 < st.reduce@.len() && st.reduce@[k1] == p;
                assert(false);
            }
        }
        None
    }

    /// The next action at a state for an optional lookahead: shift when an
    /// edge exists, else reduce (accepting on the accept clause), else
    /// reject.
    pub fn next_action(&self, index: usize, rest: Option<Terminal>) -> (r: Action)
        requires
            self.wf(),
            index < self.states@.len(),
        ensures
            r == spec_action(*self, index as int, rest),
    {
        let current = match rest {
            Some(t) => t,
            None => Terminal::epsilon(),
        };
        let cur_state = &self.states[index];
        match Self::check_terminal(cur_state, current) {
            Some(next) => Action::Shift(next),
            None => {
                match Self::check_reduce(cur_state, current) {
                    Some(e) => {
                        if e.2.symbol == END_VARIABLE {
                            Action::Accept
                        } else {
                            Action::Reduce(e.2, e.3)
                        }
                    },
                    None => Action::Reject,
                }
            },
        }
    }

    /// The goto state after reducing to `variable`; state zero when the table
    /// has no edge (a corrupted table, never a constructed one).
    pub fn reduce_state(&self, index: usize, variable: Variable) -> (r: usize)
        requires
            self.wf(),
            index < self.states@.len(),
        ensures
            r == (match spec_next(self.states@[index as int], MixedChar::Variable(variable)) {
                Some(s) => s,
                None => 0usize,
            }),
    {
        match Self::check_variable(&self.states[index], variable) {
            Some(s) => s,
            None => 0,
        }
    }
}

/// The smallest rule id among the reduce candidates for `t`.
#[verifier::loop_isolation(false)]
fn min_candidate(cands: &Vec<(usize, Terminal)>, t: Terminal, start: usize) -> (r: usize)
    requires
        cands@.contains((start, t)),
    ensures
        cands@.contains((r, t)),
        forall|rid: usize| #[trigger] cands@.contains((rid, t)) ==> r <= rid,
{
    let mut r = start;
    let mut k: usize = 0;
    while k < cands.len()
        invariant
            k <= cands@.len(),
            cands@.contains((r, t)),
            forall|j: int|
                0 <= j < k && (#[trigger] cands@[j]).1 == t ==> r <= cands@[j].0,
        decreases cands@.len() - k,
    {
        let e = cands[k];
        if e.1 == t && e.0 < r {
            r = e.0;
            proof {
                assert(cands@.contains(cands@[k as int]));
            }
        }
        k = k + 1;
    }
    proof {
        assert forall|rid: usize| #[trigger] cands@.contains((rid, t)) implies r <= rid by {
            let j = choose|j: int| 0 <= j < cands@.len() && cands@[j] == (rid, t);
        }
    }
    r
}

/// True when some reduce row entry carries the lookahead `t`.
fn has_reduce_key(row: &Vec<(Terminal, usize, Variable, usize)>, t: Terminal) -> (r: bool)
    ensures
        r == exists|e: (Terminal, usize, Variable, usize)| #[trigger] row@.contains(e) && e.0 == t,
{
    let mut k: usize = 0;
    while k < row.len()
        invariant
            k <= row@.len(),
            forall|j: int| 0 <= j < k ==> (#[trigger] row@[j]).0 != t,
        decreases row@.len() - k,
    {
        if row[k].0 == t {
            proof {
                assert(row@.contains(row@[k as int]));
            }
            return true;
        }
        k = k + 1;
    }
    proof {
        if exists|e: (Terminal, usize, Variable, usize)| #[trigger] row@.contains(e) && e.0 == t {
            let e = choose|e: (Terminal, usize, Variable, usize)| #[trigger] row@.contains(e)
                && e.0 == t;
            let j = choose|j: int| 0 <= j < row@.len() && row@[j] == e;
            assert(false);
        }
    }
    false
}

/// True when the row has a shift edge on the terminal.
fn has_terminal_edge(row: &Vec<(MixedChar, usize)>, t: Terminal) -> (r: bool)
    ensures
        r == exists|p: (MixedChar, usize)| #[trigger] row@.contains(p) && p.0
            == MixedChar::Terminal(t),
{
    let mut k: usize = 0;
    while k < row.len()
        invariant
            k <= row@.len(),
            forall|j: int| 0 <= j < k ==> (#[trigger] row@[j]).0 != MixedChar::Terminal(t),
        decreases row@.len() - k,
    {
        if row[k].0 == MixedChar::Terminal(t) {
            proof {
                assert(row@.contains(row@[k as int]));
            }
            return true;
        }
        k = k + 1;
    }
    proof {
        if exists|p: (MixedChar, usize)| #[trigger] row@.contains(p) && p.0 == MixedChar::Terminal(
            t,
        ) {
            let p = choose|p: (MixedChar, usize)| #[trigger] row@.contains(p) && p.0
                == MixedChar::Terminal(t);
            let j = choose|j: int| 0 <= j < row@.len() && row@[j] == p;
            assert(false);
        }
    }
    false
}

/// A recorded conflict is true of the automaton: a shift-reduce entry names
/// a reduce candidate whose lookahead also has a shift edge; a reduce-reduce
/// entry names a candidate beaten by an earlier rule.
pub open spec fn conflict_sound(
    rules: Seq<Rule>,
    sets: Seq<crate::itemset::ItemSet>,
    om: Seq<Vec<(MixedChar, usize)>>,
    c: Conflict,
) -> bool {
    match c {
        Conflict::ShiftReduce(s, t, rid) => 0 <= s < sets.len() && reduce_spec(
            rules,
            sets[s as int].iview(),
        ).contains((rid, t)) && (exists|p: (MixedChar, usize)|
            #[trigger] om[s as int]@.contains(p) && p.0 == MixedChar::Terminal(t)),
        Conflict::ReduceReduce(s, t, rid) => 0 <= s < sets.len() && reduce_spec(
            rules,
            sets[s as int].iview(),
        ).contains((rid, t)) && (exists|rid2: usize|
            #[trigger] reduce_spec(rules, sets[s as int].iview()).contains((rid2, t)) && rid2
                < rid),
    }
}

/// The reduce entries of a table row are exactly the per-lookahead winners:
/// each entry names the earliest reduce candidate for its lookahead, carrying
/// that rule's clause and length, and every candidate lookahead has an entry.
pub open spec fn reduce_row_rel(
    rules: Seq<Rule>,
    items: Set<crate::itemset::Item>,
    row: Seq<(Terminal, usize, Variable, usize)>,
) -> bool {
    &&& forall|e: (Terminal, usize, Variable, usize)| #[trigger]
        row.contains(e) ==> reduce_spec(rules, items).contains((e.1, e.0)) && e.1 < rules.len()
            && e.2 == rules[e.1 as int].clause && e.3 == crate::first_follow::out_of(
            rules,
            e.1 as int,
        ).len() && (forall|rid: usize|
            #[trigger] reduce_spec(rules, items).contains((rid, e.0)) ==> e.1 <= rid)
    &&& forall|rid: usize, t: Terminal| #[trigger]
        reduce_spec(rules, items).contains((rid, t)) ==> exists|
            e: (Terminal, usize, Variable, usize),
        | #[trigger] row.contains(e) && e.0 == t
}

impl StateMachine {
    /// Reduces the finished automaton to its ACTION/GOTO table: each state's
    /// edges are copied, and per lookahead the earliest reduce candidate
    /// wins. Every suppressed candidate is reported: one beaten by a shift as
    /// a shift-reduce conflict, one beaten by an earlier rule as a
    /// reduce-reduce conflict. Conflicts never abort construction.
    #[verifier::loop_isolation(false)]
    pub fn from_itemset(sets: &ItemSets) -> (r: (StateMachine, Vec<Conflict>))
        requires
            sets.sets@.len() == sets.ordering_map@.len(),
            forall|s: int|
                0 <= s < sets.sets@.len() ==> (#[trigger] sets.sets@[s]).wf(sets.rules@),
            forall|s: int, k1: int, k2: int|
                0 <= s < sets.sets@.len() && 0 <= k1 < sets.ordering_map@[s]@.len() && 0 <= k2
                    < sets.ordering_map@[s]@.len() && (#[trigger] sets.ordering_map@[s]@[k1]).0 == (
                #[trigger] sets.ordering_map@[s]@[k2]).0 ==> k1 == k2,
        ensures
            r.0.wf(),
            r.0.rules_gh@ == sets.rules@,
            r.0.states@.len() == sets.sets@.len(),
            forall|s: int|
                0 <= s < sets.sets@.len() ==> (#[trigger] r.0.states@[s]).next@
                    == sets.ordering_map@[s]@,
            forall|s: int|
                0 <= s < sets.sets@.len() ==> reduce_row_rel(
                    sets.rules@,
                    (#[trigger] sets.sets@[s]).iview(),
                    r.0.states@[s].reduce@,
                ),
            forall|c: Conflict| #[trigger]
                r.1@.contains(c) ==> conflict_sound(
                    sets.rules@,
                    sets.sets@,
                    sets.ordering_map@,
                    c,
                ),
            forall|s: int, t: Terminal, rid: usize|
                0 <= s < sets.sets@.len() && #[trigger] reduce_spec(
                    sets.rules@,
                    sets.sets@[s].iview(),
                ).contains((rid, t)) && (exists|p: (MixedChar, usize)|
                    #[trigger] sets.ordering_map@[s]@.contains(p) && p.0 == MixedChar::Terminal(
                        t,
                    )) ==> r.1@.contains(Conflict::ShiftReduce(s as usize, t, rid)),
            forall|s: int, t: Terminal, rid: usize|
                0 <= s < sets.sets@.len() && #[trigger] reduce_spec(
                    sets.rules@,
                    sets.sets@[s].iview(),
                ).contains((rid, t)) && (exists|rid2: usize|
                    #[trigger] reduce_spec(sets.rules@, sets.sets@[s].iview()).contains((rid2, t))
                        && rid2 < rid) ==> r.1@.contains(Conflict::ReduceReduce(s as usize, t, rid)),
    {
        let ghost grules = sets.rules@;
        let mut states: Vec<State> = Vec::new();
        let mut conflicts: Vec<Conflict> = Vec::new();
        let mut s: usize = 0;
        while s < sets.sets.len()
            invariant
                s <= sets.sets@.len(),
                states@.len() == s,
                sets.sets@.len() == sets.ordering_map@.len(),
                forall|i: int|
                    0 <= i < sets.sets@.len() ==> (#[trigger] sets.sets@[i]).wf(grules),
                forall|i: int, k1: int, k2: int|
                    0 <= i < sets.sets@.len() && 0 <= k1 < sets.ordering_map@[i]@.len() && 0 <= k2
                        < sets.ordering_map@[i]@.len() && (
                    #[trigger] sets.ordering_map@[i]@[k1]).0 == (
                    #[trigger] sets.ordering_map@[i]@[k2]).0 ==> k1 == k2,
                forall|i: int| 0 <= i < s ==> (#[trigger] states@[i]).wf(),
                forall|i: int|
                    0 <= i < s ==> (#[trigger] states@[i]).next@ == sets.ordering_map@[i]@,
                forall|i: int|
                    0 <= i < s ==> reduce_row_rel(
                        grules,
                        (#[trigger] sets.sets@[i]).iview(),
                        states@[i].reduce@,
                    ),
                forall|c: Conflict| #[trigger]
                    conflicts@.contains(c) ==> conflict_sound(
                        grules,
                        sets.sets@,
                        sets.ordering_map@,
                        c,
                    ),
                forall|i: int, t: Terminal, rid: usize|
                    0 <= i < s && #[trigger] reduce_spec(
                        grules,
                        sets.sets@[i].iview(),
                    ).contains((rid, t)) && (exists|p: (MixedChar, usize)|
                        #[trigger] sets.ordering_map@[i]@.contains(p) && p.0
                            == MixedChar::Terminal(t)) ==> conflicts@.contains(
                        Conflict::ShiftReduce(i as usize, t, rid),
                    ),
                forall|i: int, t: Terminal, rid: usize|
                    0 <= i < s && #[trigger] reduce_spec(
                        grules,
                        sets.sets@[i].iview(),
                    ).contains((rid, t)) && (exists|rid2: usize|
                        #[trigger] reduce_spec(grules, sets.sets@[i].iview()).contains((rid2, t))
                            && rid2 < rid) ==> conflicts@.contains(
                        Conflict::ReduceReduce(i as usize, t, rid),
                    ),
            decreases sets.sets@.len() - s,
        {
            let ghost items = sets.sets@[s as int].iview();
            let cands = sets.sets[s].reduce(&sets.rules);
            let mut next: Vec<(MixedChar, usize)> = Vec::new();
            let om_row = &sets.ordering_map[s];
            let mut k: usize = 0;
            while k < om_row.len()
                invariant
                    k <= om_row@.len(),
                    next@ == om_row@.take(k as int),
                decreases om_row@.len() - k,
            {
                next.push(om_row[k]);
                proof {
                    assert(om_row@.take(k + 1) =~= om_row@.take(k as int).push(
                        om_row@[k as int],
                    ));
                }
                k = k + 1;
            }
            proof {
                assert(om_row@.take(om_row@.len() as int) =~= om_row@);
            }
            let mut reduce_row: Vec<(Terminal, usize, Variable, usize)> = Vec::new();
            let mut k2: usize = 0;
            while k2 < cands.len()
                invariant
                    k2 <= cands@.len(),
                    cands@.to_set() == reduce_spec(grules, items),
                    forall|j1: int, j2: int|
                        0 <= j1 < reduce_row@.len() && 0 <= j2 < reduce_row@.len() && (
                        #[trigger] reduce_row@[j1]).0 == (#[trigger] reduce_row@[j2]).0 ==> j1
                            == j2,
                    forall|e: (Terminal, usize, Variable, usize)| #[trigger]
                        reduce_row@.contains(e) ==> reduce_spec(grules, items).contains((e.1, e.0))
                            && e.1 < grules.len() && e.2 == grules[e.1 as int].clause && e.3
                            == crate::first_follow::out_of(grules, e.1 as int).len() && (forall|
                            rid: usize,
                        |
                            #[trigger] reduce_spec(grules, items).contains((rid, e.0)) ==> e.1
                                <= rid),
                    forall|j: int|
                        0 <= j < k2 ==> exists|e: (Terminal, usize, Variable, usize)|
                            #[trigger] reduce_row@.contains(e) && e.0 == (
                            #[trigger] cands@[j]).1,
                decreases cands@.len() - k2,
            {
                let (rid, t) = cands[k2];
                let ghost old_row = reduce_row@;
                if !has_reduce_key(&reduce_row, t) {
                    proof {
                        assert(cands@.contains((rid, t))) by {
                            assert(cands@[k2 as int] == (rid, t));
                        }
                    }
                    let m = min_candidate(&cands, t, rid);
                    proof {
                        assert(cands@.to_set().contains((m, t)));
                        assert(reduce_spec(grules, items).contains((m, t)));
                    }
                    reduce_row.push((t, m, sets.rules[m].clause, sets.rules[m].output.data.len()));
                    proof {
                        assert forall|e: (Terminal, usize, Variable, usize)| #[trigger]
                            reduce_row@.contains(e) implies old_row.contains(e) || e == (
                        t,
                        m,
                        grules[m as int].clause,
                        crate::first_follow::out_of(grules, m as int).len() as usize,
                        ) by {
                            if reduce_row@ != old_row {
                                assert(reduce_row@ == old_row.push(reduce_row@.last()));
                            }
                        }
                        assert forall|rid2: usize|
                            #[trigger] reduce_spec(grules, items).contains(
                                (rid2, t),
                            ) implies m <= rid2 by {
                            assert(cands@.to_set().contains((rid2, t)));
                            assert(cands@.contains((rid2, t)));
                        }
                        assert forall|j1: int, j2: int|
                            0 <= j1 < reduce_row@.len() && 0 <= j2 < reduce_row@.len() && (
                            #[trigger] reduce_row@[j1]).0 == (
                        #[trigger] reduce_row@[j2]).0 implies j1 == j2 by {
                            if j1 != j2 {
                                if j1 == reduce_row@.len() - 1 {
                                    assert(old_row.contains(old_row[j2]));
                                    assert(old_row[j2].0 == t);
                                } else if j2 == reduce_row@.len() - 1 {
                                    assert(old_row.contains(old_row[j1]));
                                    assert(old_row[j1].0 == t);
                                } else {
                                    assert(old_row[j1] == reduce_row@[j1]);
                                    assert(old_row[j2] == reduce_row@[j2]);
                                }
                            }
                        }
                    }
                }
                proof {
                    assert(reduce_row@.contains(reduce_row@.last()) || old_row == reduce_row@);
                    assert forall|j: int|
                        0 <= j < k2 + 1 implies exists|e: (Terminal, usize, Variable, usize)|
                        #[trigger] reduce_row@.contains(e) && e.0 == (
                        #[trigger] cands@[j]).1 by {
                        if j < k2 {
                            let e = choose|e: (Terminal, usize, Variable, usize)|
                                #[trigger] old_row.contains(e) && e.0 == cands@[j].1;
                            assert(reduce_row@.contains(e)) by {
                                if reduce_row@ != old_row {
                                    assert(reduce_row@ == old_row.push(reduce_row@.last()));
                                }
                            }
                        } else {
                            assert(cands@[j].1 == t);
                            if old_row == reduce_row@ {
                                let e0 = choose|e0: (Terminal, usize, Variable, usize)|
                                    #[trigger] old_row.contains(e0) && e0.0 == t;
                            } else {
                                assert(reduce_row@.last().0 == t);
                            }
                        }
                    }
                }
                k2 = k2 + 1;
            }
            let mut k3: usize = 0;
            let ghost conf_pre = conflicts@;
            while k3 < cands.len()
                invariant
                    k3 <= cands@.len(),
                    s < sets.sets@.len(),
                    cands@.to_set() == reduce_spec(grules, items),
                    items == sets.sets@[s as int].iview(),
                    next@ == sets.ordering_map@[s as int]@,
                    forall|c: Conflict| #[trigger]
                        conflicts@.contains(c) ==> conflict_sound(
                            grules,
                            sets.sets@,
                            sets.ordering_map@,
                            c,
                        ),
                    forall|c: Conflict| conf_pre.contains(c) ==> #[trigger] conflicts@.contains(c),
                    forall|j: int|
                        0 <= j < k3 && (exists|p: (MixedChar, usize)|
                            #[trigger] next@.contains(p) && p.0 == MixedChar::Terminal(
                                (#[trigger] cands@[j]).1,
                            )) ==> conflicts@.contains(
                            Conflict::ShiftReduce(s, cands@[j].1, cands@[j].0),
                        ),
                    forall|j: int|
                        0 <= j < k3 && (exists|rid2: usize|
                            #[trigger] reduce_spec(grules, items).contains((
                                rid2,
                                (#[trigger] cands@[j]).1,
                            )) && rid2 < cands@[j].0) ==> conflicts@.contains(
                            Conflict::ReduceReduce(s, cands@[j].1, cands@[j].0),
                        ),
                decreases cands@.len() - k3,
            {
                let (rid, t) = cands[k3];
                proof {
                    assert(cands@[k3 as int] == (rid, t));
                    assert(cands@.contains((rid, t)));
                    assert(reduce_spec(grules, items).contains((rid, t)));
                }
                let ghost conf_mid = conflicts@;
                if has_terminal_edge(&next, t) {
                    conflicts.push(Conflict::ShiftReduce(s, t, rid));
                    proof {
                        assert(conflicts@.last() == Conflict::ShiftReduce(s, t, rid));
                        assert(conflict_sound(
                            grules,
                            sets.sets@,
                            sets.ordering_map@,
                            Conflict::ShiftReduce(s, t, rid),
                        ));
                        assert forall|c: Conflict| #[trigger]
                            conflicts@.contains(c) implies conflict_sound(
                            grules,
                            sets.sets@,
                            sets.ordering_map@,
                            c,
                        ) by {
                            if !conf_mid.contains(c) {
                                assert(c == Conflict::ShiftReduce(s, t, rid));
                            }
                        }
                    }
                }
                let ghost conf_mid2 = conflicts@;
                let m = min_candidate(&cands, t, rid);
                if m != rid {
                    proof {
                        assert(cands@.to_set().contains((m, t)));
                        assert(reduce_spec(grules, items).contains((m, t)));
                        assert(m < rid);
                    }
                    conflicts.push(Conflict::ReduceReduce(s, t, rid));
                    proof {
                        assert(conflict_sound(
                            grules,
                            sets.sets@,
                            sets.ordering_map@,
                            Conflict::ReduceReduce(s, t, rid),
                        ));
                        assert forall|c: Conflict| #[trigger]
                            conflicts@.contains(c) implies conflict_sound(
                            grules,
                            sets.sets@,
                            sets.ordering_map@,
                            c,
                        ) by {
                            if !conf_mid2.contains(c) {
                                assert(c == Conflict::ReduceReduce(s, t, rid));
                            }
                        }
                    }
                }
                proof {
                    assert forall|j: int|
                        0 <= j < k3 + 1 && (exists|p: (MixedChar, usize)|
                            #[trigger] next@.contains(p) && p.0 == MixedChar::Terminal(
                                (#[trigger] cands@[j]).1,
                            )) implies conflicts@.contains(
                        Conflict::ShiftReduce(s, cands@[j].1, cands@[j].0),
                    ) by {
                        if j < k3 {
                            assert(conf_mid.contains(
                                Conflict::ShiftReduce(s, cands@[j].1, cands@[j].0),
                            ));
                        } else {
                            assert(conf_mid2.contains(Conflict::ShiftReduce(s, t, rid)));
                        }
                    }
                    assert forall|j: int|
                        0 <= j < k3 + 1 && (exists|rid2: usize|
                            #[trigger] reduce_spec(grules, items).contains((
                                rid2,
                                (#[trigger] cands@[j]).1,
                            )) && rid2 < cands@[j].0) implies conflicts@.contains(
                        Conflict::ReduceReduce(s, cands@[j].1, cands@[j].0),
                    ) by {
                        if j < k3 {
                            assert(conf_mid.contains(
                                Conflict::ReduceReduce(s, cands@[j].1, cands@[j].0),
                            ));
                        } else {
                            let rid2 = choose|rid2: usize|
                                #[trigger] reduce_spec(grules, items).contains((rid2, t)) && rid2
                                    < rid;
                            assert(cands@.to_set().contains((rid2, t)));
                            assert(cands@.contains((rid2, t)));
                            assert(m <= rid2);
                            assert(m != rid);
                            assert(conflicts@.last() == Conflict::ReduceReduce(s, t, rid));
                        }
                    }
                }
                k3 = k3 + 1;
            }
            let ghost states_pre = states@;
            states.push(State { next, reduce: reduce_row });
            proof {
                assert forall|i: int| 0 <= i < s + 1 implies (#[trigger] states@[i]).wf() by {
                    if i < s {
                        assert(states@[i] == states_pre[i]);
                    } else {
                        assert(states@[i] == states@.last());
                    }
                }
                assert forall|i: int|
                    0 <= i < s + 1 implies (#[trigger] states@[i]).next@
                    == sets.ordering_map@[i]@ by {
                    if i < s {
                        assert(states@[i] == states_pre[i]);
                    } else {
                        assert(states@[i] == states@.last());
                    }
                }
                assert forall|i: int|
                    0 <= i < s + 1 implies reduce_row_rel(
                    grules,
                    (#[trigger] sets.sets@[i]).iview(),
                    states@[i].reduce@,
                ) by {
                    if i < s {
                        assert(states@[i] == states_pre[i]);
                        assert(reduce_row_rel(grules, sets.sets@[i].iview(), states_pre[i].reduce@));
                    } else {
                        assert(states@[i] == states@.last());
                        assert(reduce_row_rel(grules, items, reduce_row@)) by {
                            assert forall|rid: usize, t: Terminal| #[trigger]
                                reduce_spec(grules, items).contains((rid, t)) implies exists|
                                e: (Terminal, usize, Variable, usize),
                            | #[trigger] reduce_row@.contains(e) && e.0 == t by {
                                assert(cands@.to_set().contains((rid, t)));
                                assert(cands@.contains((rid, t)));
                                let j = choose|j: int|
                                    0 <= j < cands@.len() && cands@[j] == (rid, t);
                                assert(cands@[j].1 == t);
                            }
                        }
                    }
                }
            }
            s = s + 1;
        }
        (StateMachine { states, rules_gh: Ghost(sets.rules@) }, conflicts)
    }
}

/// The conflict policy: where a state can shift on a terminal, the table
/// shifts, and every reduce candidate for that terminal stands in the
/// diagnostics as a suppressed shift-reduce conflict, never as the action.
pub proof fn lemma_conflict_policy(
    machine: StateMachine,
    conflicts: Seq<Conflict>,
    sets: ItemSets,
    s: usize,
    t: Terminal,
    tgt: usize,
    rid: usize,
)
    requires
        machine.states@.len() == sets.sets@.len(),
        s < sets.sets@.len(),
        machine.states@[s as int].next@ == sets.ordering_map@[s as int]@,
        machine.states@[s as int].next@.contains((MixedChar::Terminal(t), tgt)),
        reduce_spec(sets.rules@, sets.sets@[s as int].iview()).contains((rid, t)),
        forall|s2: int, t2: Terminal, rid2: usize|
            0 <= s2 < sets.sets@.len() && #[trigger] reduce_spec(
                sets.rules@,
                sets.sets@[s2].iview(),
            ).contains((rid2, t2)) && (exists|p: (MixedChar, usize)|
                #[trigger] sets.ordering_map@[s2]@.contains(p) && p.0 == MixedChar::Terminal(t2))
                ==> conflicts.contains(Conflict::ShiftReduce(s2 as usize, t2, rid2)),
    ensures
        spec_action(machine, s as int, Some(t)) is Shift,
        conflicts.contains(Conflict::ShiftReduce(s, t, rid)),
{
    assert(spec_action(machine, s as int, Some(t)) is Shift) by {
        assert(machine.states@[s as int].next@.contains((MixedChar::Terminal(t), tgt)));
    }
    assert(conflicts.contains(Conflict::ShiftReduce(s, t, rid))) by {
        assert(sets.ordering_map@[s as int]@.contains((MixedChar::Terminal(t), tgt)));
    }
}

} // verus!
