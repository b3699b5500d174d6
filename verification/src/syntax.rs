use vstd::prelude::*;

verus! {

/// Sentinel terminal marking the end of the input.
pub const END_TERMINAL: char = '\u{FDD0}';

/// Sentinel variable used as the clause of the augmented start rule.
pub const END_VARIABLE: char = '\u{FDD1}';

/// Sentinel terminal standing for the empty production in diagnostics.
pub const EPSILON: char = '\u{03B5}';

/// An atomic input symbol of the grammar.
#[derive(PartialEq, Eq, Structural, Clone, Copy, Debug, Hash)]
pub struct Terminal {
    pub symbol: char,
}

impl Terminal {
    /// The end-of-input sentinel terminal.
    pub fn end() -> (t: Terminal)
        ensures
            t == (Terminal { symbol: END_TERMINAL }),
    {
        Terminal { symbol: END_TERMINAL }
    }

    /// The empty-production sentinel terminal.
    pub fn epsilon() -> (t: Terminal)
        ensures
            t == (Terminal { symbol: EPSILON }),
    {
        Terminal { symbol: EPSILON }
    }
}

/// A nonterminal symbol, rewritten by rules.
#[derive(PartialEq, Eq, Structural, Clone, Copy, Debug, Hash)]
pub struct Variable {
    pub symbol: char,
}

impl Variable {
    /// The clause of the augmented start rule.
    pub fn accept() -> (v: Variable)
        ensures
            v == (Variable { symbol: END_VARIABLE }),
    {
        Variable { symbol: END_VARIABLE }
    }
}

/// Either a terminal or a variable; the alphabet of rule outputs.
#[derive(PartialEq, Eq, Structural, Clone, Copy, Debug, Hash)]
pub enum MixedChar {
    Terminal(Terminal),
    Variable(Variable),
}

impl MixedChar {
    pub fn try_variable(&self) -> (r: Option<Variable>)
        ensures
            r == (match *self {
                MixedChar::Variable(v) => Some(v),
                MixedChar::Terminal(_) => None::<Variable>,
            }),
    {
        match self {
            MixedChar::Variable(v) => Some(*v),
            MixedChar::Terminal(_) => None,
        }
    }

    pub fn try_terminal(&self) -> (r: Option<Terminal>)
        ensures
            r == (match *self {
                MixedChar::Terminal(t) => Some(t),
                MixedChar::Variable(_) => None::<Terminal>,
            }),
    {
        match self {
            MixedChar::Terminal(t) => Some(*t),
            MixedChar::Variable(_) => None,
        }
    }

    /// Width of the rendering used by the presentation layer: the sentinels
    /// print as words, every other symbol as one character.
    pub fn display_len(&self) -> (n: usize)
        ensures
            n == (match *self {
                MixedChar::Terminal(t) => if t.symbol == END_TERMINAL { 3int } else { 1int },
                MixedChar::Variable(v) => if v.symbol == END_VARIABLE { 6int } else { 1int },
            }),
    {
        match self {
            MixedChar::Terminal(t) => if t.symbol == END_TERMINAL { 3 } else { 1 },
            MixedChar::Variable(v) => if v.symbol == END_VARIABLE { 6 } else { 1 },
        }
    }
}

/// A mixed sequence of terminals and variables: a rule's right-hand side, or
/// the output buffer of a parse in progress.
#[derive(Clone, Debug)]
pub struct MixedString {
    pub data: Vec<MixedChar>,
}

impl MixedString {
    pub fn new() -> (s: MixedString)
        ensures
            s.data@ == Seq::<MixedChar>::empty(),
    {
        MixedString { data: Vec::new() }
    }

    pub fn push_variable(&mut self, symbol: Variable)
        ensures
            final(self).data@ == old(self).data@.push(MixedChar::Variable(symbol)),
    {
        self.data.push(MixedChar::Variable(symbol));
    }

    pub fn push_terminal(&mut self, symbol: Terminal)
        ensures
            final(self).data@ == old(self).data@.push(MixedChar::Terminal(symbol)),
    {
        self.data.push(MixedChar::Terminal(symbol));
    }

    pub fn pop(&mut self)
        ensures
            final(self).data@ == (if old(self).data@.len() == 0 {
                old(self).data@
            } else {
                old(self).data@.drop_last()
            }),
    {
        if self.data.len() > 0 {
            self.data.pop();
        }
    }

    pub fn len(&self) -> (n: usize)
        ensures
            n == self.data@.len(),
    {
        self.data.len()
    }

    pub fn get(&self, index: usize) -> (r: Option<MixedChar>)
        ensures
            r == (if index < self.data@.len() {
                Some(self.data@[index as int])
            } else {
                None::<MixedChar>
            }),
    {
        if index < self.data.len() {
            Some(self.data[index])
        } else {
            None
        }
    }
}

/// The terminal carrying a given raw character.
pub open spec fn term_of(c: char) -> Terminal {
    Terminal { symbol: c }
}

/// The terminal string denoted by a sequence of raw characters.
pub open spec fn terminals_of(s: Seq<char>) -> Seq<Terminal> {
    s.map_values(|c: char| term_of(c))
}

/// A sequence of terminals: the raw input handed to the parse driver.
#[derive(Clone, Debug)]
pub struct TerminalString {
    pub data: Vec<Terminal>,
}

impl TerminalString {
    pub fn new() -> (s: TerminalString)
        ensures
            s.data@ == Seq::<Terminal>::empty(),
    {
        TerminalString { data: Vec::new() }
    }

    pub fn push_char(&mut self, symbol: char)
        ensures
            final(self).data@ == old(self).data@.push((Terminal { symbol })),
    {
        self.data.push(Terminal { symbol });
    }

    pub fn push_terminal(&mut self, symbol: Terminal)
        ensures
            final(self).data@ == old(self).data@.push(symbol),
    {
        self.data.push(symbol);
    }

    pub fn pop(&mut self)
        ensures
            final(self).data@ == (if old(self).data@.len() == 0 {
                old(self).data@
            } else {
                old(self).data@.drop_last()
            }),
    {
        if self.data.len() > 0 {
            self.data.pop();
        }
    }

    pub fn get(&self, index: usize) -> (r: Option<Terminal>)
        ensures
            r == (if index < self.data@.len() {
                Some(self.data@[index as int])
            } else {
                None::<Terminal>
            }),
    {
        if index < self.data.len() {
            Some(self.data[index])
        } else {
            None
        }
    }

    pub fn len(&self) -> (n: usize)
        ensures
            n == self.data@.len(),
    {
        self.data.len()
    }

    /// Builds the terminal string for a slice of raw input characters.
    pub fn from_chars(value: &[char]) -> (s: TerminalString)
        ensures
            s.data@ == terminals_of(value@),
    {
        let mut data: Vec<Terminal> = Vec::new();
        let mut i: usize = 0;
        proof {
            assert(data@ =~= terminals_of(value@.take(0)));
        }
        while i < value.len()
            invariant
                i <= value@.len(),
                data@ == terminals_of(value@.take(i as int)),
            decreases value@.len() - i,
        {
            data.push(Terminal { symbol: value[i] });
            proof {
                assert(value@.take(i + 1) =~= value@.take(i as int).push(value@[i as int]));
                assert(terminals_of(value@.take(i + 1)) =~= terminals_of(
                    value@.take(i as int),
                ).push(term_of(value@[i as int])));
            }
            i = i + 1;
        }
        proof {
            assert(value@.take(value@.len() as int) =~= value@);
        }
        TerminalString { data }
    }
}

/// A single production: `clause` rewrites to `output`.
#[derive(Clone, Debug)]
pub struct Rule {
    pub clause: Variable,
    pub output: MixedString,
}

/// True when `c` classifies as a variable in the grammar notation: an ASCII
/// uppercase letter.
pub open spec fn spec_is_upper(c: char) -> bool {
    65 <= (c as u32) <= 90
}

/// How a raw character of a rule's right-hand side is read: uppercase letters
/// are variables, everything else is a terminal.
pub open spec fn classify_char(c: char) -> MixedChar {
    if spec_is_upper(c) {
        MixedChar::Variable(Variable { symbol: c })
    } else {
        MixedChar::Terminal(Terminal { symbol: c })
    }
}

/// The right-hand side denoted by the characters of a rule line after the
/// `Clause:` prefix.
pub open spec fn classify_seq(s: Seq<char>) -> Seq<MixedChar> {
    s.map_values(|c: char| classify_char(c))
}

/// Whether a rule line is well formed: a leading uppercase clause letter,
/// then, if anything follows, a `:` separator.
pub open spec fn line_well_formed(s: Seq<char>) -> bool {
    s.len() >= 1 && spec_is_upper(s[0]) && (s.len() == 1 || s[1] == ':')
}

/// The output part of a well-formed rule line: everything after the separator.
pub open spec fn line_output(s: Seq<char>) -> Seq<MixedChar> {
    if s.len() <= 2 {
        Seq::<MixedChar>::empty()
    } else {
        classify_seq(s.subrange(2, s.len() as int))
    }
}

impl Rule {
    pub fn new(start: char) -> (r: Rule)
        ensures
            r.clause == (Variable { symbol: start }),
            r.output.data@ == Seq::<MixedChar>::empty(),
    {
        Rule { clause: Variable { symbol: start }, output: MixedString::new() }
    }

    pub fn add_terminal(&mut self, terminal: char)
        ensures
            final(self).clause == old(self).clause,
            final(self).output.data@ == old(self).output.data@.push(MixedChar::Terminal(
                (Terminal { symbol: terminal }),
            )),
    {
        self.output.data.push(MixedChar::Terminal(Terminal { symbol: terminal }));
    }

    pub fn add_variable(&mut self, variable: char)
        ensures
            final(self).clause == old(self).clause,
            final(self).output.data@ == old(self).output.data@.push(MixedChar::Variable(
                (Variable { symbol: variable }),
            )),
    {
        self.output.data.push(MixedChar::Variable(Variable { symbol: variable }));
    }

    pub fn len(&self) -> (n: usize)
        ensures
            n == self.output.data@.len(),
    {
        self.output.data.len()
    }
}

/// True when `c` is an ASCII uppercase letter.
pub fn is_upper(c: char) -> (r: bool)
    ensures
        r == spec_is_upper(c),
{
    let u = c as u32;
    65 <= u && u <= 90
}

/// Reads one rule from a line of the form `Clause:Output`. The clause must be
/// a single uppercase letter and the separator a colon; each output character
/// is a variable when uppercase and a terminal otherwise. A malformed line
/// yields `None`.
pub fn parse_rule(value: &str) -> (r: Option<Rule>)
    ensures
        line_well_formed(value@) <==> r is Some,
        r is Some ==> r->Some_0.clause == (Variable { symbol: value@[0] }),
        r is Some ==> r->Some_0.output.data@ == line_output(value@),
{
    let len = value.unicode_len();
    if len == 0 {
        return None;
    }
    let first = value.get_char(0);
    if !is_upper(first) {
        return None;
    }
    let mut rule = Rule::new(first);
    if len == 1 {
        proof {
            assert(line_output(value@) == Seq::<MixedChar>::empty());
        }
        return Some(rule);
    }
    if value.get_char(1) != ':' {
        return None;
    }
    let mut i: usize = 2;
    while i < len
        invariant
            2 <= i <= len,
            len == value@.len(),
            rule.clause == (Variable { symbol: value@[0] }),
            rule.output.data@ == classify_seq(value@.subrange(2, i as int)),
        decreases len - i,
    {
        let c = value.get_char(i);
        if is_upper(c) {
            rule.add_variable(c);
        } else {
            rule.add_terminal(c);
        }
        proof {
            assert(value@.subrange(2, i + 1) == value@.subrange(2, i as int).push(
                value@[i as int],
            ));
            assert(classify_seq(value@.subrange(2, i + 1)) == classify_seq(
                value@.subrange(2, i as int),
            ).push(classify_char(value@[i as int])));
        }
        i = i + 1;
    }
    Some(rule)
}

/// A grammar: an indexed list of rules, index standing for the rule id.
#[derive(Clone, Debug)]
pub struct Rules {
    pub rules: Vec<Rule>,
}

} // verus!
