use vstd::prelude::*;

use crate::parsing_table::{spec_action, spec_next, Action, StateMachine};
use crate::syntax::{terminals_of, MixedChar, MixedString, Terminal, TerminalString, Variable};

verus! {

broadcast use vstd::seq_lib::group_seq_properties;

/// One parse in progress: the input with a cursor, the state stack, the
/// output buffer of symbols seen or reduced so far, and the current state.
pub struct ParsingProcess {
    pub input: TerminalString,
    pub string_index: usize,
    pub state_index: usize,
    pub output: MixedString,
    pub stack: Vec<usize>,
}

/// A snapshot of one parse step for the presentation layer: the state, the
/// stack, the output buffer, the input left to read, and the action the table
/// gives next.
pub struct PrintingString {
    pub state_index: usize,
    pub stack: Vec<usize>,
    pub output: MixedString,
    pub rest: TerminalString,
    pub action: Action,
}

/// The lookahead at the cursor: `None` once the input is exhausted.
pub open spec fn cur_la(p: ParsingProcess) -> Option<Terminal> {
    if p.string_index < p.input.data@.len() {
        Some(p.input.data@[p.string_index as int])
    } else {
        None
    }
}

/// The step the table prescribes will not touch anything out of range: a
/// shift has input left to consume and a reduce has enough stack to pop. A
/// violation can only come from a corrupted table, so the driver leaves such
/// states out rather than fail at runtime.
pub open spec fn step_ok(p: ParsingProcess, m: StateMachine) -> bool {
    &&& p.state_index < m.states@.len()
    &&& p.stack@.len() >= 1
    &&& forall|i: int| 0 <= i < p.stack@.len() ==> (#[trigger] p.stack@[i]) < m.states@.len()
    &&& match spec_action(m, p.state_index as int, cur_la(p)) {
        Action::Shift(_) => p.string_index < p.input.data@.len(),
        Action::Reduce(_, pop) => pop + 1 <= p.stack@.len() && pop <= p.output.data@.len(),
        Action::Accept => true,
        Action::Reject => true,
    }
}

impl ParsingProcess {
    /// A parse at the start: the raw characters as input, the cursor at the
    /// first of them, and the automaton's start state on the stack.
    pub fn new(input: &[char]) -> (r: ParsingProcess)
        ensures
            r.input.data@ == terminals_of(input@),
            r.string_index == 0,
            r.state_index == 0,
            r.output.data@ == Seq::<MixedChar>::empty(),
            r.stack@ == seq![0usize],
    {
        let input = TerminalString::from_chars(input);
        let mut stack: Vec<usize> = Vec::new();
        stack.push(0);
        proof {
            assert(stack@ =~= seq![0usize]);
        }
        ParsingProcess {
            input,
            string_index: 0,
            state_index: 0,
            output: MixedString::new(),
            stack,
        }
    }

    /// True when the next step stays in range: what `run` and `get_next`
    /// require. An unverified caller tests this before stepping and treats a
    /// failure as the fatal table corruption it is.
    #[verifier::loop_isolation(false)]
    pub fn can_step(&self, machine: &StateMachine) -> (r: bool)
        requires
            machine.wf(),
        ensures
            r == step_ok(*self, *machine),
    {
        if self.state_index >= machine.states.len() {
            return false;
        }
        if self.stack.len() < 1 {
            return false;
        }
        let mut i: usize = 0;
        while i < self.stack.len()
            invariant
                i <= self.stack@.len(),
                forall|j: int| 0 <= j < i ==> (#[trigger] self.stack@[j]) < machine.states@.len(),
            decreases self.stack@.len() - i,
        {
            if self.stack[i] >= machine.states.len() {
                return false;
            }
            i = i + 1;
        }
        let rest = self.input.get(self.string_index);
        let action = machine.next_action(self.state_index, rest);
        match action {
            Action::Shift(_) => self.string_index < self.input.data.len(),
            Action::Reduce(_, pop) => pop < self.stack.len() && pop <= self.output.data.len(),
            Action::Accept => true,
            Action::Reject => true,
        }
    }

    /// One step of the shift-reduce machine, as a fresh snapshot so a caller
    /// can keep an undo history: a shift consumes the lookahead and pushes
    /// the target state; a reduce pops the rule's length, records its clause,
    /// and follows the goto edge from the exposed state; accept and reject
    /// end the parse with no new snapshot.
    #[verifier::loop_isolation(false)]
    pub fn get_next(&self, machine: &StateMachine) -> (r: Option<ParsingProcess>)
        requires
            machine.wf(),
            step_ok(*self, *machine),
        ensures
            match spec_action(*machine, self.state_index as int, cur_la(*self)) {
                Action::Accept => r is None,
                Action::Reject => r is None,
                Action::Shift(next) => r is Some && r->Some_0.input.data@ == self.input.data@
                    && r->Some_0.string_index == self.string_index + 1 && r->Some_0.state_index
                    == next && r->Some_0.output.data@ == self.output.data@.push(
                    MixedChar::Terminal(self.input.data@[self.string_index as int]),
                ) && r->Some_0.stack@ == self.stack@.push(next),
                Action::Reduce(variable, pop) => r is Some && r->Some_0.input.data@
                    == self.input.data@ && r->Some_0.string_index == self.string_index
                    && r->Some_0.output.data@ == self.output.data@.take(
                    self.output.data@.len() - pop,
                ).push(MixedChar::Variable(variable)) && r->Some_0.stack@
                    == self.stack@.take(self.stack@.len() - pop).push(r->Some_0.state_index)
                    && r->Some_0.state_index == (match spec_next(
                    machine.states@[self.stack@.take(self.stack@.len() - pop).last() as int],
                    MixedChar::Variable(variable),
                ) {
                    Some(s) => s,
                    None => 0usize,
                }) && self.stack@.take(self.stack@.len() - pop).last() < machine.states@.len(),
            },
    {
        let rest = self.input.get(self.string_index);
        let action = machine.next_action(self.state_index, rest);
        match action {
            Action::Accept => None,
            Action::Reject => None,
            Action::Shift(next) => {
                let input_len = self.input.data.len();
                let mut next_step = self.duplicate();
                let t = match self.input.get(self.string_index) {
                    Some(t) => t,
                    None => {
                        proof {
                            assert(false);
                        }
                        Terminal::epsilon()
                    },
                };
                next_step.output.push_terminal(t);
                next_step.string_index = self.string_index + 1;
                next_step.state_index = next;
                next_step.stack.push(next);
                Some(next_step)
            },
            Action::Reduce(variable, pop) => {
                let mut next_step = self.duplicate();
                let mut k: usize = 0;
                while k < pop
                    invariant
                        k <= pop,
                        pop <= self.stack@.len() - 1,
                        pop <= self.output.data@.len(),
                        next_step.input.data@ == self.input.data@,
                        next_step.string_index == self.string_index,
                        next_step.output.data@ == self.output.data@.take(
                            self.output.data@.len() - k,
                        ),
                        next_step.stack@ == self.stack@.take(self.stack@.len() - k),
                    decreases pop - k,
                {
                    next_step.output.pop();
                    next_step.stack.pop();
                    proof {
                        assert(self.output.data@.take(self.output.data@.len() - k).drop_last()
                            =~= self.output.data@.take(self.output.data@.len() - (k + 1)));
                        assert(self.stack@.take(self.stack@.len() - k).drop_last()
                            =~= self.stack@.take(self.stack@.len() - (k + 1)));
                    }
                    k = k + 1;
                }
                next_step.output.push_variable(variable);
                let top = match next_step.stack.len() {
                    0 => {
                        proof {
                            assert(false);
                        }
                        0
                    },
                    n => next_step.stack[n - 1],
                };
                proof {
                    assert(next_step.stack@.last() == top);
                    assert(self.stack@.take(self.stack@.len() - pop).last() == top) by {
                        assert(next_step.stack@ == self.stack@.take(self.stack@.len() - pop));
                    }
                    assert(self.stack@.contains(top)) by {
                        let n = self.stack@.len() - pop;
                        assert(self.stack@.take(n)[n - 1] == self.stack@[n - 1]);
                    }
                }
                proof {
                    assert(self.stack@[self.stack@.len() - pop - 1] == top);
                    assert(top < machine.states@.len());
                }
                let goto = machine.reduce_state(top, variable);
                next_step.state_index = goto;
                next_step.stack.push(goto);
                Some(next_step)
            },
        }
    }

    /// One step in place: accept and reject report the verdict and leave the
    /// parse as it stands; a shift or reduce advances it and reports nothing.
    ///
    /// These contracts fix single steps only. A shift consumes one input
    /// terminal, so shifts are bounded by the input; but a reduce by an empty
    /// or single-symbol rule neither consumes input nor shrinks the stack, so
    /// that iterated stepping always halts is a property of tables this
    /// pipeline constructs, not of the step relation, and is not stated here.
    pub fn run(&mut self, machine: &StateMachine) -> (r: Option<bool>)
        requires
            machine.wf(),
            step_ok(*old(self), *machine),
        ensures
            match spec_action(*machine, old(self).state_index as int, cur_la(*old(self))) {
                Action::Accept => r == Some(true) && *final(self) == *old(self),
                Action::Reject => r == Some(false) && *final(self) == *old(self),
                Action::Shift(next) => r is None && final(self).input.data@
                    == old(self).input.data@ && final(self).string_index == old(self).string_index
                    + 1 && final(self).state_index == next && final(self).output.data@ == old(self).output.data@.push(
                    MixedChar::Terminal(old(self).input.data@[old(self).string_index as int]),
                ) && final(self).stack@ == old(self).stack@.push(next),
                Action::Reduce(variable, pop) => r is None && final(self).input.data@ == old(self).input.data@ && final(self).string_index == old(self).string_index && final(self).output.data@ == old(self).output.data@.take(
                    old(self).output.data@.len() - pop,
                ).push(MixedChar::Variable(variable)) && final(self).stack@ == old(self).stack@.take(old(self).stack@.len() - pop).push(final(self).state_index),
            },
    {
        let rest = self.input.get(self.string_index);
        let action = machine.next_action(self.state_index, rest);
        match action {
            Action::Accept => Some(true),
            Action::Reject => Some(false),
            _ => {
                match self.get_next(machine) {
                    Some(next_step) => {
                        *self = next_step;
                        None
                    },
                    None => {
                        proof {
                            assert(false);
                        }
                        None
                    },
                }
            },
        }
    }

    /// A self-contained snapshot of the current step for the presentation
    /// layer: the state, a copy of the stack and output, the unread input,
    /// and the action the table gives next.
    #[verifier::loop_isolation(false)]
    pub fn display(&self, machine: &StateMachine) -> (r: PrintingString)
        requires
            machine.wf(),
            self.state_index < machine.states@.len(),
        ensures
            r.state_index == self.state_index,
            r.stack@ == self.stack@,
            r.output.data@ == self.output.data@,
            r.rest.data@ == self.input.data@.skip(
                if self.string_index <= self.input.data@.len() {
                    self.string_index as int
                } else {
                    self.input.data@.len() as int
                },
            ),
            r.action == spec_action(*machine, self.state_index as int, cur_la(*self)),
    {
        let rest_la = self.input.get(self.string_index);
        let action = machine.next_action(self.state_index, rest_la);
        let mut stack: Vec<usize> = Vec::new();
        let mut i: usize = 0;
        while i < self.stack.len()
            invariant
                i <= self.stack@.len(),
                stack@ == self.stack@.take(i as int),
            decreases self.stack@.len() - i,
        {
            stack.push(self.stack[i]);
            proof {
                assert(self.stack@.take(i + 1) =~= self.stack@.take(i as int).push(
                    self.stack@[i as int],
                ));
            }
            i = i + 1;
        }
        let mut output = MixedString::new();
        let mut j: usize = 0;
        while j < self.output.data.len()
            invariant
                j <= self.output.data@.len(),
                output.data@ == self.output.data@.take(j as int),
            decreases self.output.data@.len() - j,
        {
            output.data.push(self.output.data[j]);
            proof {
                assert(self.output.data@.take(j + 1) =~= self.output.data@.take(j as int).push(
                    self.output.data@[j as int],
                ));
            }
            j = j + 1;
        }
        let mut rest = TerminalString::new();
        let mut k: usize = self.string_index;
        if k > self.input.data.len() {
            k = self.input.data.len();
        }
        let ghost base = k as int;
        while k < self.input.data.len()
            invariant
                base <= k <= self.input.data@.len(),
                rest.data@ == self.input.data@.subrange(base, k as int),
            decreases self.input.data@.len() - k,
        {
            rest.data.push(self.input.data[k]);
            proof {
                assert(self.input.data@.subrange(base, k + 1) =~= self.input.data@.subrange(
                    base,
                    k as int,
                ).push(self.input.data@[k as int]));
            }
            k = k + 1;
        }
        proof {
            assert(self.stack@.take(self.stack@.len() as int) =~= self.stack@);
            assert(self.output.data@.take(self.output.data@.len() as int) =~= self.output.data@);
        }
        PrintingString { state_index: self.state_index, stack, output, rest, action }
    }

    /// An element-for-element copy of the parse state.
    #[verifier::loop_isolation(false)]
    fn duplicate(&self) -> (r: ParsingProcess)
        ensures
            r.input.data@ == self.input.data@,
            r.string_index == self.string_index,
            r.state_index == self.state_index,
            r.output.data@ == self.output.data@,
            r.stack@ == self.stack@,
    {
        let mut stack: Vec<usize> = Vec::new();
        let mut i: usize = 0;
        while i < self.stack.len()
            invariant
                i <= self.stack@.len(),
                stack@ == self.stack@.take(i as int),
            decreases self.stack@.len() - i,
        {
            stack.push(self.stack[i]);
            proof {
                assert(self.stack@.take(i + 1) =~= self.stack@.take(i as int).push(
                    self.stack@[i as int],
                ));
            }
            i = i + 1;
        }
        let mut output = MixedString::new();
        let mut j: usize = 0;
        while j < self.output.data.len()
            invariant
                j <= self.output.data@.len(),
                output.data@ == self.output.data@.take(j as int),
            decreases self.output.data@.len() - j,
        {
            output.data.push(self.output.data[j]);
            proof {
                assert(self.output.data@.take(j + 1) =~= self.output.data@.take(j as int).push(
                    self.output.data@[j as int],
                ));
            }
            j = j + 1;
        }
        let mut input = TerminalString::new();
        let mut k: usize = 0;
        while k < self.input.data.len()
            invariant
                k <= self.input.data@.len(),
                input.data@ == self.input.data@.take(k as int),
            decreases self.input.data@.len() - k,
        {
            input.data.push(self.input.data[k]);
            proof {
                assert(self.input.data@.take(k + 1) =~= self.input.data@.take(k as int).push(
                    self.input.data@[k as int],
                ));
            }
            k = k + 1;
        }
        proof {
            assert(self.stack@.take(self.stack@.len() as int) =~= self.stack@);
            assert(self.output.data@.take(self.output.data@.len() as int) =~= self.output.data@);
            assert(self.input.data@.take(self.input.data@.len() as int) =~= self.input.data@);
        }
        ParsingProcess {
            input,
            string_index: self.string_index,
            state_index: self.state_index,
            output,
            stack,
        }
    }
}

} // verus!
