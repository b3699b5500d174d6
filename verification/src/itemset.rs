use vstd::prelude::*;

use crate::first_follow::{first_edge, follow_filtered, out_of, First, Follow};
use crate::reach::{reaches, reaches_from};
use crate::rule_depend::RuleGraph;
use crate::syntax::{MixedChar, Rule, Terminal, Variable, END_TERMINAL, END_VARIABLE};

verus! {

broadcast use vstd::seq_lib::group_seq_properties;

/// One LR item: a rule, a dot position, an optional lookahead terminal
/// (`None` stands for the plain LR(0) reading), and whether the item entered
/// its state as a kernel item or through closure expansion.
#[derive(PartialEq, Eq, Structural, Clone, Copy, Debug)]
pub struct Item {
    pub rule_number: usize,
    pub dot: usize,
    pub lookahead: Option<Terminal>,
    pub kernel: bool,
}

/// The symbol right after the dot, when the dot is not at the end.
pub open spec fn sym_at(rules: Seq<Rule>, it: Item) -> Option<MixedChar> {
    if it.rule_number < rules.len() && it.dot < out_of(rules, it.rule_number as int).len() {
        Some(out_of(rules, it.rule_number as int)[it.dot as int])
    } else {
        None
    }
}

/// The item names a real rule position.
pub open spec fn item_wf(rules: Seq<Rule>, it: Item) -> bool {
    it.rule_number < rules.len() && it.dot <= out_of(rules, it.rule_number as int).len()
}

impl Item {
    pub fn new(rule_number: usize, dot: usize, lookahead: Option<Terminal>, kernel: bool) -> (r:
        Item)
        ensures
            r == (Item { rule_number, dot, lookahead, kernel }),
    {
        Item { rule_number, dot, lookahead, kernel }
    }

    /// The item after shifting the dot past one symbol; the result is always
    /// a kernel item.
    pub fn shift(&self, rules: &Vec<Rule>) -> (r: Item)
        requires
            self.rule_number < rules@.len(),
            self.dot < out_of(rules@, self.rule_number as int).len(),
        ensures
            r == spec_shift(*self),
    {
        let out_len = rules[self.rule_number].output.data.len();
        Item {
            rule_number: self.rule_number,
            dot: self.dot + 1,
            lookahead: self.lookahead,
            kernel: true,
        }
    }

    /// The symbol right after the dot.
    pub fn symbol(&self, rules: &Vec<Rule>) -> (r: Option<MixedChar>)
        requires
            self.rule_number < rules@.len(),
        ensures
            r == sym_at(rules@, *self),
    {
        let out = &rules[self.rule_number].output.data;
        if self.dot < out.len() {
            Some(out[self.dot])
        } else {
            None
        }
    }

    /// The dot stands at the end of the rule: the item is a reduce candidate.
    pub fn is_end(&self, rules: &Vec<Rule>) -> (r: bool)
        requires
            self.rule_number < rules@.len(),
        ensures
            r == (out_of(rules@, self.rule_number as int).len() == self.dot),
    {
        rules[self.rule_number].output.data.len() == self.dot
    }

    /// The lookahead terminal carried by the item.
    pub fn follow(&self) -> (r: Option<Terminal>)
        ensures
            r == self.lookahead,
    {
        self.lookahead
    }
}

/// The dot shifted one symbol to the right; kernel by construction.
pub open spec fn spec_shift(it: Item) -> Item {
    Item { rule_number: it.rule_number, dot: (it.dot + 1) as usize, lookahead: it.lookahead, kernel: true }
}

/// The items obtained by shifting every item of `items` whose next symbol is
/// `c`.
pub open spec fn shift_items(rules: Seq<Rule>, items: Set<Item>, c: MixedChar) -> Set<Item> {
    Set::new(
        |r: Item|
            exists|it: Item|
                #[trigger] items.contains(it) && sym_at(rules, it) == Some(c) && r == spec_shift(
                    it,
                ),
    )
}

/// The transition symbols of a set of items: every symbol right after a dot.
pub open spec fn syms_of(rules: Seq<Rule>, items: Set<Item>) -> Set<MixedChar> {
    Set::new(
        |c: MixedChar|
            exists|it: Item| #[trigger] items.contains(it) && sym_at(rules, it) == Some(c),
    )
}

/// Appending an absent element keeps a sequence duplicate-free.
proof fn lemma_push_unique<T>(s: Seq<T>, x: T)
    requires
        s.no_duplicates(),
        !s.contains(x),
    ensures
        s.push(x).no_duplicates(),
{
    let t = s.push(x);
    assert forall|i: int, j: int| 0 <= i < j < t.len() implies t[i] != t[j] by {
        if j == t.len() - 1 {
            assert(t[i] == s[i]);
            assert(s.contains(s[i]));
        } else {
            assert(t[i] == s[i] && t[j] == s[j]);
        }
    }
}

/// One automaton state: its items, and the symbols on which it can step.
#[derive(Clone, Debug)]
pub struct ItemSet {
    pub items: Vec<Item>,
    pub symbols: Vec<MixedChar>,
}

/// True when the list holds the item.
pub fn contains_item(list: &Vec<Item>, x: Item) -> (r: bool)
    ensures
        r == list@.contains(x),
{
    let mut i: usize = 0;
    while i < list.len()
        invariant
            i <= list@.len(),
            forall|j: int| 0 <= j < i ==> list@[j] != x,
        decreases list@.len() - i,
    {
        if list[i] == x {
            return true;
        }
        i = i + 1;
    }
    false
}

/// True when the list holds the symbol.
pub fn contains_sym(list: &Vec<MixedChar>, x: MixedChar) -> (r: bool)
    ensures
        r == list@.contains(x),
{
    let mut i: usize = 0;
    while i < list.len()
        invariant
            i <= list@.len(),
            forall|j: int| 0 <= j < i ==> list@[j] != x,
        decreases list@.len() - i,
    {
        if list[i] == x {
            return true;
        }
        i = i + 1;
    }
    false
}

impl ItemSet {
    /// The items as a set: the state's identity.
    pub open spec fn iview(self) -> Set<Item> {
        self.items@.to_set()
    }

    /// The transition symbols as a set.
    pub open spec fn sview(self) -> Set<MixedChar> {
        self.symbols@.to_set()
    }

    /// Every item names a real rule position.
    pub open spec fn wf(self, rules: Seq<Rule>) -> bool {
        forall|it: Item| #[trigger] self.iview().contains(it) ==> item_wf(rules, it)
    }

    pub fn new() -> (r: ItemSet)
        ensures
            r.iview() == Set::<Item>::empty(),
            r.sview() == Set::<MixedChar>::empty(),
            r.symbols@.no_duplicates(),
    {
        let r = ItemSet { items: Vec::new(), symbols: Vec::new() };
        proof {
            assert(r.iview() =~= Set::<Item>::empty());
            assert(r.sview() =~= Set::<MixedChar>::empty());
        }
        r
    }

    /// Adds one item, and its next symbol to the transition symbols.
    fn add_item(&mut self, rules: &Vec<Rule>, item: Item)
        requires
            item.rule_number < rules@.len(),
        ensures
            final(self).iview() == old(self).iview().insert(item),
            final(self).sview() == (match sym_at(rules@, item) {
                Some(c) => old(self).sview().insert(c),
                None => old(self).sview(),
            }),
            old(self).symbols@.no_duplicates() ==> final(self).symbols@.no_duplicates(),
    {
        let ghost pre = *self;
        match item.symbol(rules) {
            Some(c) => {
                if !contains_sym(&self.symbols, c) {
                    self.symbols.push(c);
                    proof {
                        assert(self.sview() =~= pre.sview().insert(c));
                        if pre.symbols@.no_duplicates() {
                            lemma_push_unique(pre.symbols@, c);
                        }
                    }
                } else {
                    proof {
                        assert(self.sview() =~= pre.sview().insert(c));
                    }
                }
            },
            None => {},
        }
        let ghost mid = *self;
        if !contains_item(&self.items, item) {
            self.items.push(item);
            proof {
                assert(self.iview() =~= pre.iview().insert(item));
            }
        } else {
            proof {
                assert(self.iview() =~= pre.iview().insert(item));
            }
        }
        proof {
            assert(self.sview() == mid.sview());
        }
    }

    /// Adds one item per given lookahead, and the rule's symbol at the dot
    /// to the transition symbols.
    #[verifier::loop_isolation(false)]
    fn add_with_flag(
        &mut self,
        rule: &Rule,
        dot: usize,
        rule_number: usize,
        follows: &Vec<Terminal>,
        kernel: bool,
    )
        ensures
            final(self).iview() == old(self).iview().union(
                Set::new(
                    |x: Item|
                        exists|t: Terminal|
                            follows@.to_set().contains(t) && x == (Item {
                                rule_number,
                                dot,
                                lookahead: Some(t),
                                kernel,
                            }),
                ),
            ),
            final(self).sview() == (if dot < rule.output.data@.len() {
                old(self).sview().insert(rule.output.data@[dot as int])
            } else {
                old(self).sview()
            }),
            old(self).symbols@.no_duplicates() ==> final(self).symbols@.no_duplicates(),
    {
        let ghost pre = *self;
        let mut i: usize = 0;
        while i < follows.len()
            invariant
                i <= follows@.len(),
                self.symbols@ == pre.symbols@,
                forall|x: Item| #[trigger]
                    self.iview().contains(x) <==> pre.iview().contains(x) || exists|l: int|
                        0 <= l < i && x == (Item {
                            rule_number,
                            dot,
                            lookahead: Some(follows@[l]),
                            kernel,
                        }),
            decreases follows@.len() - i,
        {
            let it = Item { rule_number, dot, lookahead: Some(follows[i]), kernel };
            let ghost cur = *self;
            let ghost before = self.items@;
            proof {
                assert(forall|x: Item| #[trigger]
                    cur.iview().contains(x) <==> pre.iview().contains(x) || exists|l: int|
                        0 <= l < i && x == (Item {
                            rule_number,
                            dot,
                            lookahead: Some(follows@[l]),
                            kernel,
                        }));
                assert(before.to_set() == cur.iview());
            }
            if !contains_item(&self.items, it) {
                self.items.push(it);
            }
            proof {
                assert forall|x: Item| #[trigger] self.iview().contains(x) implies before.to_set()
                    .contains(x) || x == it by {
                    if self.items@ != before {
                        assert(self.items@ == before.push(it));
                    }
                }
                assert forall|x: Item| before.to_set().contains(x) implies #[trigger]
                    self.iview().contains(x) by {
                    if self.items@ != before {
                        assert(self.items@ == before.push(it));
                    }
                }
                assert(self.iview().contains(it)) by {
                    if before.contains(it) {
                        assert(before.to_set().contains(it));
                    } else {
                        assert(self.items@.last() == it);
                        assert(self.items@.contains(it));
                    }
                }
                assert forall|x: Item| #[trigger] self.iview().contains(x) implies pre.iview()
                    .contains(x) || exists|l: int|
                    0 <= l < i + 1 && x == (Item {
                        rule_number,
                        dot,
                        lookahead: Some(follows@[l]),
                        kernel,
                    }) by {
                    if !pre.iview().contains(x) {
                        if before.to_set().contains(x) {
                            let l = choose|l: int|
                                0 <= l < i && x == (Item {
                                    rule_number,
                                    dot,
                                    lookahead: Some(follows@[l]),
                                    kernel,
                                });
                            assert(0 <= l < i + 1);
                        } else {
                            assert(x == it);
                            assert(x == (Item {
                                rule_number,
                                dot,
                                lookahead: Some(follows@[i as int]),
                                kernel,
                            }));
                        }
                    }
                }
                assert forall|x: Item|
                    (pre.iview().contains(x) || exists|l: int|
                        0 <= l < i + 1 && x == (Item {
                            rule_number,
                            dot,
                            lookahead: Some(follows@[l]),
                            kernel,
                        })) implies #[trigger] self.iview().contains(x) by {
                    if pre.iview().contains(x) {
                        assert(before.to_set().contains(x));
                    } else {
                        let l = choose|l: int|
                            0 <= l < i + 1 && x == (Item {
                                rule_number,
                                dot,
                                lookahead: Some(follows@[l]),
                                kernel,
                            });
                        if l < i {
                            assert(before.to_set().contains(x));
                        } else {
                            assert(x == it);
                        }
                    }
                }
            }
            i = i + 1;
        }
        let ghost target = pre.iview().union(
            Set::new(
                |x: Item|
                    exists|t: Terminal|
                        follows@.to_set().contains(t) && x == (Item {
                            rule_number,
                            dot,
                            lookahead: Some(t),
                            kernel,
                        }),
            ),
        );
        proof {
            assert(i == follows@.len());
            assert(self.iview() =~= target) by {
                assert forall|x: Item| #[trigger] self.iview().contains(x) implies target.contains(
                    x,
                ) by {
                    if !pre.iview().contains(x) {
                        let l = choose|l: int|
                            0 <= l < follows@.len() && x == (Item {
                                rule_number,
                                dot,
                                lookahead: Some(follows@[l]),
                                kernel,
                            });
                        assert(follows@.contains(follows@[l]));
                        assert(follows@.to_set().contains(follows@[l]));
                    }
                }
                assert forall|x: Item| target.contains(x) implies #[trigger] self.iview().contains(
                    x,
                ) by {
                    if !pre.iview().contains(x) {
                        let t = choose|t: Terminal|
                            follows@.to_set().contains(t) && x == (Item {
                                rule_number,
                                dot,
                                lookahead: Some(t),
                                kernel,
                            });
                        assert(follows@.contains(t));
                        let l = choose|l: int| 0 <= l < follows@.len() && follows@[l] == t;
                        assert(0 <= l < i && x == (Item {
                            rule_number,
                            dot,
                            lookahead: Some(follows@[l]),
                            kernel,
                        }));
                    }
                }
            }
            assert(self.iview() == target);
        }
        if dot < rule.output.data.len() {
            let c = rule.output.data[dot];
            if !contains_sym(&self.symbols, c) {
                self.symbols.push(c);
                proof {
                    assert(self.sview() =~= pre.sview().insert(c));
                    if pre.symbols@.no_duplicates() {
                        lemma_push_unique(pre.symbols@, c);
                    }
                }
            } else {
                proof {
                    assert(self.sview() =~= pre.sview().insert(c));
                }
            }
        }
        proof {
            assert(self.iview() == target);
        }
    }

    /// Adds one closure item per given lookahead, and the rule's first symbol
    /// to the transition symbols.
    pub fn add_rule(&mut self, rule: &Rule, dot: usize, rule_number: usize, follows: &Vec<Terminal>)
        ensures
            final(self).iview() == old(self).iview().union(
                Set::new(
                    |x: Item|
                        exists|t: Terminal|
                            follows@.to_set().contains(t) && x == (Item {
                                rule_number,
                                dot,
                                lookahead: Some(t),
                                kernel: false,
                            }),
                ),
            ),
            final(self).sview() == (if dot < rule.output.data@.len() {
                old(self).sview().insert(rule.output.data@[dot as int])
            } else {
                old(self).sview()
            }),
            old(self).symbols@.no_duplicates() ==> final(self).symbols@.no_duplicates(),
    {
        self.add_with_flag(rule, dot, rule_number, follows, false)
    }

    /// Adds one kernel item per given lookahead, and the symbol after the dot
    /// to the transition symbols.
    pub fn add_kernel(
        &mut self,
        rule: &Rule,
        dot: usize,
        rule_number: usize,
        follows: &Vec<Terminal>,
    )
        ensures
            final(self).iview() == old(self).iview().union(
                Set::new(
                    |x: Item|
                        exists|t: Terminal|
                            follows@.to_set().contains(t) && x == (Item {
                                rule_number,
                                dot,
                                lookahead: Some(t),
                                kernel: true,
                            }),
                ),
            ),
            final(self).sview() == (if dot < rule.output.data@.len() {
                old(self).sview().insert(rule.output.data@[dot as int])
            } else {
                old(self).sview()
            }),
            old(self).symbols@.no_duplicates() ==> final(self).symbols@.no_duplicates(),
    {
        self.add_with_flag(rule, dot, rule_number, follows, true)
    }

    /// The successor state kernel for one transition symbol: every item whose
    /// next symbol is `c`, shifted past it. `None` when no item moves.
    #[verifier::loop_isolation(false)]
    pub fn transitions(&self, transchar: MixedChar, rules: &Vec<Rule>) -> (r: Option<ItemSet>)
        requires
            self.wf(rules@),
        ensures
            r is Some <==> shift_items(rules@, self.iview(), transchar) != Set::<Item>::empty(),
            r is Some ==> r->Some_0.iview() == shift_items(rules@, self.iview(), transchar),
            r is Some ==> r->Some_0.sview() == syms_of(
                rules@,
                shift_items(rules@, self.iview(), transchar),
            ),
            r is Some ==> r->Some_0.wf(rules@),
            r is Some ==> r->Some_0.symbols@.no_duplicates(),
    {
        let mut new_set = ItemSet::new();
        let mut i: usize = 0;
        while i < self.items.len()
            invariant
                i <= self.items@.len(),
                self.wf(rules@),
                forall|x: Item| #[trigger]
                    new_set.iview().contains(x) <==> exists|j: int|
                        0 <= j < i && sym_at(rules@, #[trigger] self.items@[j]) == Some(transchar)
                            && x == spec_shift(self.items@[j]),
                forall|c: MixedChar| #[trigger]
                    new_set.sview().contains(c) <==> exists|x: Item|
                        #[trigger] new_set.iview().contains(x) && sym_at(rules@, x) == Some(c),
                new_set.symbols@.no_duplicates(),
            decreases self.items@.len() - i,
        {
            let it = self.items[i];
            proof {
                assert(self.items@.contains(it));
                assert(self.iview().contains(it));
            }
            let ghost pre = new_set;
            let mut stepped: bool = false;
            match it.symbol(rules) {
                Some(c) => {
                    if c == transchar {
                        let shifted = it.shift(rules);
                        new_set.add_item(rules, shifted);
                        stepped = true;
                        proof {
                            assert(sym_at(rules@, it) == Some(transchar));
                            assert(new_set.iview() == pre.iview().insert(spec_shift(it)));
                        }
                    }
                },
                None => {},
            }
            proof {
                assert forall|x: Item| #[trigger] new_set.iview().contains(x) implies exists|j: int|
                    0 <= j < i + 1 && sym_at(rules@, #[trigger] self.items@[j]) == Some(transchar)
                        && x == spec_shift(self.items@[j]) by {
                    if pre.iview().contains(x) {
                        let j = choose|j: int|
                            0 <= j < i && sym_at(rules@, #[trigger] self.items@[j]) == Some(
                                transchar,
                            ) && x == spec_shift(self.items@[j]);
                        assert(0 <= j < i + 1 && sym_at(rules@, self.items@[j]) == Some(transchar));
                    } else {
                        assert(stepped && x == spec_shift(it));
                        assert(sym_at(rules@, self.items@[i as int]) == Some(transchar));
                    }
                }
                assert forall|x: Item|
                    (exists|j: int|
                        0 <= j < i + 1 && sym_at(rules@, #[trigger] self.items@[j]) == Some(
                            transchar,
                        ) && x == spec_shift(self.items@[j])) implies #[trigger]
                    new_set.iview().contains(x) by {
                    let j = choose|j: int|
                        0 <= j < i + 1 && sym_at(rules@, #[trigger] self.items@[j]) == Some(
                            transchar,
                        ) && x == spec_shift(self.items@[j]);
                    if j < i {
                        assert(pre.iview().contains(x));
                    } else {
                        assert(stepped);
                    }
                }
                assert forall|c: MixedChar| #[trigger]
                    new_set.sview().contains(c) implies exists|x: Item|
                    #[trigger] new_set.iview().contains(x) && sym_at(rules@, x) == Some(c) by {
                    if pre.sview().contains(c) {
                        let x = choose|x: Item|
                            #[trigger] pre.iview().contains(x) && sym_at(rules@, x) == Some(c);
                        assert(new_set.iview().contains(x));
                    } else {
                        assert(stepped);
                        assert(new_set.iview().contains(spec_shift(it)));
                        assert(sym_at(rules@, spec_shift(it)) == Some(c));
                    }
                }
            }
            i = i + 1;
        }
        if new_set.items.len() == 0 {
            proof {
                assert(shift_items(rules@, self.iview(), transchar) =~= Set::<Item>::empty()) by {
                    assert forall|x: Item|
                        !shift_items(rules@, self.iview(), transchar).contains(x) by {
                        if shift_items(rules@, self.iview(), transchar).contains(x) {
                            let it = choose|it: Item|
                                #[trigger] self.iview().contains(it) && sym_at(rules@, it) == Some(
                                    transchar,
                                ) && x == spec_shift(it);
                            let j = choose|j: int|
                                0 <= j < self.items@.len() && self.items@[j] == it;
                            assert(new_set.iview().contains(x));
                            assert(new_set.items@.to_set().len() == 0) by {
                                crate::reach::lemma_to_set_len_le(new_set.items@);
                            }
                            assert(false);
                        }
                    }
                }
            }
            return None;
        }
        proof {
            assert(new_set.iview() =~= shift_items(rules@, self.iview(), transchar)) by {
                assert forall|x: Item| #[trigger] new_set.iview().contains(x) implies shift_items(
                    rules@,
                    self.iview(),
                    transchar,
                ).contains(x) by {
                    let j = choose|j: int|
                        0 <= j < self.items@.len() && sym_at(rules@, #[trigger] self.items@[j])
                            == Some(transchar) && x == spec_shift(self.items@[j]);
                    assert(self.iview().contains(self.items@[j]));
                }
                assert forall|x: Item| shift_items(rules@, self.iview(), transchar).contains(
                    x,
                ) implies #[trigger] new_set.iview().contains(x) by {
                    let it = choose|it: Item|
                        #[trigger] self.iview().contains(it) && sym_at(rules@, it) == Some(
                            transchar,
                        ) && x == spec_shift(it);
                    let j = choose|j: int| 0 <= j < self.items@.len() && self.items@[j] == it;
                }
            }
            assert(new_set.sview() =~= syms_of(rules@, new_set.iview()));
            assert(new_set.iview().contains(new_set.items@[0]));
            assert(new_set.iview() != Set::<Item>::empty());
            assert(new_set.wf(rules@)) by {
                assert forall|x: Item| #[trigger] new_set.iview().contains(x) implies item_wf(
                    rules@,
                    x,
                ) by {
                    let it = choose|it: Item|
                        #[trigger] self.iview().contains(it) && sym_at(rules@, it) == Some(
                            transchar,
                        ) && x == spec_shift(it);
                }
            }
        }
        Some(new_set)
    }
}

/// The kernel-carried lookahead pairs of a state: rule and lookahead of every
/// finished kernel item.
pub open spec fn kf_spec(rules: Seq<Rule>, items: Set<Item>) -> Set<(usize, Terminal)> {
    Set::new(
        |p: (usize, Terminal)|
            exists|it: Item|
                #[trigger] items.contains(it) && it.kernel && it.rule_number == p.0
                    && it.lookahead == Some(p.1) && it.rule_number < rules.len() && out_of(
                    rules,
                    it.rule_number as int,
                ).len() == it.dot,
    )
}

/// The reduce candidates of a state: rule and lookahead of every finished
/// item.
pub open spec fn reduce_spec(rules: Seq<Rule>, items: Set<Item>) -> Set<(usize, Terminal)> {
    Set::new(
        |p: (usize, Terminal)|
            exists|it: Item|
                #[trigger] items.contains(it) && it.rule_number == p.0 && it.lookahead == Some(p.1)
                    && it.rule_number < rules.len() && out_of(rules, it.rule_number as int).len()
                    == it.dot,
    )
}

/// The variables among the transition symbols of a set of items.
pub open spec fn vars_of(rules: Seq<Rule>, items: Set<Item>) -> Set<Variable> {
    Set::new(|v: Variable| syms_of(rules, items).contains(MixedChar::Variable(v)))
}

/// The rules a closure step expands: every rule whose clause is reachable
/// from a variable after a dot.
pub open spec fn nk_spec(rules: Seq<Rule>, items: Set<Item>) -> Set<usize> {
    Set::new(
        |rid: usize|
            rid < rules.len() && reaches_from(
                first_edge(rules),
                vars_of(rules, items),
                rules[rid as int].clause,
            ),
    )
}

/// The rule ids of the items themselves.
pub open spec fn rules_of(items: Set<Item>) -> Set<usize> {
    Set::new(|rid: usize| exists|it: Item| #[trigger] items.contains(it) && it.rule_number == rid)
}

/// The rules admissible for the filtered FOLLOW query of a closure step.
pub open spec fn avail_spec(rules: Seq<Rule>, items: Set<Item>) -> Set<usize> {
    rules_of(items).union(nk_spec(rules, items))
}

/// The closure of a kernel item set: the kernel items plus one non-kernel
/// item at dot zero for every expanded rule and every admissible lookahead.
pub open spec fn closure_items(
    rules: Seq<Rule>,
    kitems: Set<Item>,
    prevk: Set<(usize, Terminal)>,
) -> Set<Item> {
    kitems.union(
        Set::new(
            |x: Item|
                nk_spec(rules, kitems).contains(x.rule_number) && x.dot == 0 && x.kernel == false
                    && exists|t: Terminal|
                    x.lookahead == Some(t) && follow_filtered(
                        rules,
                        rules[x.rule_number as int].clause,
                        avail_spec(rules, kitems),
                        prevk,
                    ).contains(t),
        ),
    )
}

/// The transition symbols after a closure step: the kernel symbols plus the
/// first symbol of every expanded rule.
pub open spec fn closure_syms(rules: Seq<Rule>, kitems: Set<Item>) -> Set<MixedChar> {
    syms_of(rules, kitems).union(
        Set::new(
            |c: MixedChar|
                exists|rid: usize|
                    #[trigger] nk_spec(rules, kitems).contains(rid) && out_of(
                        rules,
                        rid as int,
                    ).len() > 0 && out_of(rules, rid as int)[0] == c,
        ),
    )
}

/// The kernel-carried pairs of an optional predecessor state.
pub open spec fn prev_kf(rules: Seq<Rule>, prev: Option<&ItemSet>) -> Set<(usize, Terminal)> {
    match prev {
        Some(p) => kf_spec(rules, p.iview()),
        None => Set::<(usize, Terminal)>::empty(),
    }
}

impl ItemSet {
    /// An element-for-element copy of the state.
    pub fn duplicate(&self) -> (r: ItemSet)
        ensures
            r.items@ == self.items@,
            r.symbols@ == self.symbols@,
    {
        let mut items: Vec<Item> = Vec::new();
        let mut i: usize = 0;
        while i < self.items.len()
            invariant
                i <= self.items@.len(),
                items@ == self.items@.take(i as int),
            decreases self.items@.len() - i,
        {
            items.push(self.items[i]);
            proof {
                assert(self.items@.take(i + 1) =~= self.items@.take(i as int).push(
                    self.items@[i as int],
                ));
            }
            i = i + 1;
        }
        let mut symbols: Vec<MixedChar> = Vec::new();
        let mut j: usize = 0;
        while j < self.symbols.len()
            invariant
                j <= self.symbols@.len(),
                symbols@ == self.symbols@.take(j as int),
            decreases self.symbols@.len() - j,
        {
            symbols.push(self.symbols[j]);
            proof {
                assert(self.symbols@.take(j + 1) =~= self.symbols@.take(j as int).push(
                    self.symbols@[j as int],
                ));
            }
            j = j + 1;
        }
        proof {
            assert(self.items@.take(self.items@.len() as int) =~= self.items@);
            assert(self.symbols@.take(self.symbols@.len() as int) =~= self.symbols@);
        }
        ItemSet { items, symbols }
    }

    /// The rule and lookahead of every finished kernel item: what a successor
    /// state inherits for its filtered FOLLOW queries.
    #[verifier::loop_isolation(false)]
    pub fn kernel_follow(&self, rules: &Vec<Rule>) -> (r: Vec<(usize, Terminal)>)
        requires
            self.wf(rules@),
        ensures
            r@.to_set() == kf_spec(rules@, self.iview()),
    {
        let mut r: Vec<(usize, Terminal)> = Vec::new();
        let mut i: usize = 0;
        while i < self.items.len()
            invariant
                i <= self.items@.len(),
                self.wf(rules@),
                forall|p: (usize, Terminal)| #[trigger]
                    r@.contains(p) <==> exists|j: int|
                        0 <= j < i && (#[trigger] self.items@[j]).kernel && self.items@[j].rule_number
                            == p.0 && self.items@[j].lookahead == Some(p.1) && out_of(
                            rules@,
                            self.items@[j].rule_number as int,
                        ).len() == self.items@[j].dot,
            decreases self.items@.len() - i,
        {
            let it = self.items[i];
            proof {
                assert(self.items@.contains(it));
                assert(self.iview().contains(it));
            }
            let ghost old_r = r@;
            if it.kernel && it.is_end(rules) {
                match it.follow() {
                    Some(t) => {
                        r.push((it.rule_number, t));
                    },
                    None => {},
                }
            }
            proof {
                assert forall|p: (usize, Terminal)| #[trigger] r@.contains(p) implies exists|j: int|
                    0 <= j < i + 1 && (#[trigger] self.items@[j]).kernel
                        && self.items@[j].rule_number == p.0 && self.items@[j].lookahead == Some(p.1)
                        && out_of(rules@, self.items@[j].rule_number as int).len()
                        == self.items@[j].dot by {
                    if old_r.contains(p) {
                        let j = choose|j: int|
                            0 <= j < i && (#[trigger] self.items@[j]).kernel
                                && self.items@[j].rule_number == p.0 && self.items@[j].lookahead
                                == Some(p.1) && out_of(rules@, self.items@[j].rule_number as int).len()
                                == self.items@[j].dot;
                        assert(0 <= j < i + 1 && self.items@[j].kernel);
                    } else {
                        assert(r@.last() == p);
                        assert(self.items@[i as int].kernel);
                    }
                }
                assert forall|p: (usize, Terminal)|
                    (exists|j: int|
                        0 <= j < i + 1 && (#[trigger] self.items@[j]).kernel
                            && self.items@[j].rule_number == p.0 && self.items@[j].lookahead == Some(
                            p.1,
                        ) && out_of(rules@, self.items@[j].rule_number as int).len()
                            == self.items@[j].dot) implies #[trigger] r@.contains(p) by {
                    let j = choose|j: int|
                        0 <= j < i + 1 && (#[trigger] self.items@[j]).kernel
                            && self.items@[j].rule_number == p.0 && self.items@[j].lookahead == Some(
                            p.1,
                        ) && out_of(rules@, self.items@[j].rule_number as int).len()
                            == self.items@[j].dot;
                    if j < i {
                        assert(old_r.contains(p));
                    } else {
                        assert(r@.last() == p);
                    }
                }
            }
            i = i + 1;
        }
        proof {
            assert(r@.to_set() =~= kf_spec(rules@, self.iview())) by {
                assert forall|p: (usize, Terminal)| r@.to_set().contains(p) implies kf_spec(
                    rules@,
                    self.iview(),
                ).contains(p) by {
                    let j = choose|j: int|
                        0 <= j < self.items@.len() && (#[trigger] self.items@[j]).kernel
                            && self.items@[j].rule_number == p.0 && self.items@[j].lookahead == Some(
                            p.1,
                        ) && out_of(rules@, self.items@[j].rule_number as int).len()
                            == self.items@[j].dot;
                    assert(self.iview().contains(self.items@[j]));
                }
                assert forall|p: (usize, Terminal)| kf_spec(rules@, self.iview()).contains(
                    p,
                ) implies r@.to_set().contains(p) by {
                    let it = choose|it: Item|
                        #[trigger] self.iview().contains(it) && it.kernel && it.rule_number == p.0
                            && it.lookahead == Some(p.1) && it.rule_number < rules@.len() && out_of(
                            rules@,
                            it.rule_number as int,
                        ).len() == it.dot;
                    let j = choose|j: int| 0 <= j < self.items@.len() && self.items@[j] == it;
                }
            }
        }
        r
    }

    /// The rule and lookahead of every finished item: the reduce candidates
    /// the table derives its reduce entries from.
    #[verifier::loop_isolation(false)]
    pub fn reduce(&self, rules: &Vec<Rule>) -> (r: Vec<(usize, Terminal)>)
        requires
            self.wf(rules@),
        ensures
            r@.to_set() == reduce_spec(rules@, self.iview()),
    {
        let mut r: Vec<(usize, Terminal)> = Vec::new();
        let mut i: usize = 0;
        while i < self.items.len()
            invariant
                i <= self.items@.len(),
                self.wf(rules@),
                forall|p: (usize, Terminal)| #[trigger]
                    r@.contains(p) <==> exists|j: int|
                        0 <= j < i && (#[trigger] self.items@[j]).rule_number == p.0
                            && self.items@[j].lookahead == Some(p.1) && out_of(
                            rules@,
                            self.items@[j].rule_number as int,
                        ).len() == self.items@[j].dot,
            decreases self.items@.len() - i,
        {
            let it = self.items[i];
            proof {
                assert(self.items@.contains(it));
                assert(self.iview().contains(it));
            }
            let ghost old_r = r@;
            if it.is_end(rules) {
                match it.follow() {
                    Some(t) => {
                        r.push((it.rule_number, t));
                    },
                    None => {},
                }
            }
            proof {
                assert forall|p: (usize, Terminal)| #[trigger] r@.contains(p) implies exists|j: int|
                    0 <= j < i + 1 && (#[trigger] self.items@[j]).rule_number == p.0
                        && self.items@[j].lookahead == Some(p.1) && out_of(
                        rules@,
                        self.items@[j].rule_number as int,
                    ).len() == self.items@[j].dot by {
                    if old_r.contains(p) {
                        let j = choose|j: int|
                            0 <= j < i && (#[trigger] self.items@[j]).rule_number == p.0
                                && self.items@[j].lookahead == Some(p.1) && out_of(
                                rules@,
                                self.items@[j].rule_number as int,
                            ).len() == self.items@[j].dot;
                        assert(0 <= j < i + 1 && self.items@[j].rule_number == p.0);
                    } else {
                        assert(r@.last() == p);
                        assert(self.items@[i as int].rule_number == p.0);
                    }
                }
                assert forall|p: (usize, Terminal)|
                    (exists|j: int|
                        0 <= j < i + 1 && (#[trigger] self.items@[j]).rule_number == p.0
                            && self.items@[j].lookahead == Some(p.1) && out_of(
                            rules@,
                            self.items@[j].rule_number as int,
                        ).len() == self.items@[j].dot) implies #[trigger] r@.contains(p) by {
                    let j = choose|j: int|
                        0 <= j < i + 1 && (#[trigger] self.items@[j]).rule_number == p.0
                            && self.items@[j].lookahead == Some(p.1) && out_of(
                            rules@,
                            self.items@[j].rule_number as int,
                        ).len() == self.items@[j].dot;
                    if j < i {
                        assert(old_r.contains(p));
                    } else {
                        assert(r@.last() == p);
                    }
                }
            }
            i = i + 1;
        }
        proof {
            assert(r@.to_set() =~= reduce_spec(rules@, self.iview())) by {
                assert forall|p: (usize, Terminal)| r@.to_set().contains(p) implies reduce_spec(
                    rules@,
                    self.iview(),
                ).contains(p) by {
                    let j = choose|j: int|
                        0 <= j < self.items@.len() && (#[trigger] self.items@[j]).rule_number == p.0
                            && self.items@[j].lookahead == Some(p.1) && out_of(
                            rules@,
                            self.items@[j].rule_number as int,
                        ).len() == self.items@[j].dot;
                    assert(self.iview().contains(self.items@[j]));
                }
                assert forall|p: (usize, Terminal)| reduce_spec(rules@, self.iview()).contains(
                    p,
                ) implies r@.to_set().contains(p) by {
                    let it = choose|it: Item|
                        #[trigger] self.iview().contains(it) && it.rule_number == p.0
                            && it.lookahead == Some(p.1) && it.rule_number < rules@.len() && out_of(
                            rules@,
                            it.rule_number as int,
                        ).len() == it.dot;
                    let j = choose|j: int| 0 <= j < self.items@.len() && self.items@[j] == it;
                }
            }
        }
        r
    }

    /// The symbol on which this state steps into `other`, when some item of
    /// `other` is an item of this state shifted once.
    #[verifier::loop_isolation(false)]
    pub fn is_previous(&self, rules: &Vec<Rule>, other: &ItemSet) -> (r: Option<MixedChar>)
        requires
            self.wf(rules@),
            other.wf(rules@),
        ensures
            r is Some ==> exists|it: Item, o: Item|
                #[trigger] self.iview().contains(it) && #[trigger] other.iview().contains(o)
                    && it.dot + 1 == o.dot && it.rule_number == o.rule_number && sym_at(rules@, it)
                    == r,
            r is None ==> forall|it: Item, o: Item|
                #[trigger] self.iview().contains(it) && #[trigger] other.iview().contains(o)
                    ==> !(it.dot + 1 == o.dot && it.rule_number == o.rule_number),
    {
        let mut i: usize = 0;
        while i < self.items.len()
            invariant
                i <= self.items@.len(),
                self.wf(rules@),
                other.wf(rules@),
                forall|a: int, o: Item|
                    0 <= a < i && #[trigger] other.iview().contains(o) ==> !((
                    #[trigger] self.items@[a]).dot + 1 == o.dot && self.items@[a].rule_number
                        == o.rule_number),
            decreases self.items@.len() - i,
        {
            let it = self.items[i];
            proof {
                assert(self.items@.contains(it));
                assert(self.iview().contains(it));
            }
            let mut j: usize = 0;
            while j < other.items.len()
                invariant
                    j <= other.items@.len(),
                    i < self.items@.len(),
                    it == self.items@[i as int],
                    self.wf(rules@),
                    other.wf(rules@),
                    self.iview().contains(it),
                    forall|b: int|
                        0 <= b < j ==> !(it.dot + 1 == (#[trigger] other.items@[b]).dot
                            && it.rule_number == other.items@[b].rule_number),
                decreases other.items@.len() - j,
            {
                let o = other.items[j];
                proof {
                    assert(other.items@.contains(o));
                    assert(other.iview().contains(o));
                }
                if o.dot > 0 && it.dot == o.dot - 1 && it.rule_number == o.rule_number {
                    proof {
                        assert(item_wf(rules@, o));
                        assert(it.dot < out_of(rules@, it.rule_number as int).len());
                    }
                    let c = it.symbol(rules);
                    match c {
                        Some(sym) => {
                            return Some(sym);
                        },
                        None => {
                            proof {
                                assert(false);
                            }
                        },
                    }
                }
                j = j + 1;
            }
            proof {
                assert forall|o: Item| #[trigger] other.iview().contains(o) implies !(it.dot + 1
                    == o.dot && it.rule_number == o.rule_number) by {
                    let b = choose|b: int| 0 <= b < other.items@.len() && other.items@[b] == o;
                }
            }
            i = i + 1;
        }
        proof {
            assert forall|it: Item, o: Item|
                #[trigger] self.iview().contains(it) && #[trigger] other.iview().contains(
                    o,
                ) implies !(it.dot + 1 == o.dot && it.rule_number == o.rule_number) by {
                let a = choose|a: int| 0 <= a < self.items@.len() && self.items@[a] == it;
            }
        }
        None
    }

    /// Unions another state's items and symbols into this one.
    #[verifier::loop_isolation(false)]
    pub fn merge(&mut self, other: ItemSet)
        ensures
            final(self).iview() == old(self).iview().union(other.iview()),
            final(self).sview() == old(self).sview().union(other.sview()),
    {
        let ghost pre = *self;
        let mut i: usize = 0;
        while i < other.items.len()
            invariant
                i <= other.items@.len(),
                self.symbols@ == pre.symbols@,
                forall|x: Item| #[trigger]
                    self.iview().contains(x) <==> pre.iview().contains(x) || exists|j: int|
                        0 <= j < i && other.items@[j] == x,
            decreases other.items@.len() - i,
        {
            let it = other.items[i];
            let ghost cur = *self;
            let ghost before = self.items@;
            proof {
                assert(forall|x: Item| #[trigger]
                    cur.iview().contains(x) <==> pre.iview().contains(x) || exists|j: int|
                        0 <= j < i && other.items@[j] == x);
                assert(before.to_set() == cur.iview());
            }
            if !contains_item(&self.items, it) {
                self.items.push(it);
            }
            proof {
                assert forall|x: Item| #[trigger] self.iview().contains(x) implies before.to_set()
                    .contains(x) || x == it by {
                    if self.items@ != before {
                        assert(self.items@ == before.push(it));
                    }
                }
                assert forall|x: Item| before.to_set().contains(x) implies #[trigger]
                    self.iview().contains(x) by {
                    if self.items@ != before {
                        assert(self.items@ == before.push(it));
                    }
                }
                assert(self.iview().contains(it)) by {
                    if before.contains(it) {
                        assert(before.to_set().contains(it));
                    } else {
                        assert(self.items@.last() == it);
                        assert(self.items@.contains(it));
                    }
                }
            }
            i = i + 1;
        }
        let mut j: usize = 0;
        let ghost mid_items = self.items@;
        while j < other.symbols.len()
            invariant
                j <= other.symbols@.len(),
                self.items@ == mid_items,
                forall|x: Item| #[trigger]
                    self.iview().contains(x) <==> pre.iview().contains(x) || exists|l: int|
                        0 <= l < other.items@.len() && other.items@[l] == x,
                forall|c: MixedChar| #[trigger]
                    self.sview().contains(c) <==> pre.sview().contains(c) || exists|k: int|
                        0 <= k < j && other.symbols@[k] == c,
            decreases other.symbols@.len() - j,
        {
            let c = other.symbols[j];
            let ghost cur = *self;
            let ghost before = self.symbols@;
            proof {
                assert(forall|x: MixedChar| #[trigger]
                    cur.sview().contains(x) <==> pre.sview().contains(x) || exists|k: int|
                        0 <= k < j && other.symbols@[k] == x);
                assert(forall|x: Item| #[trigger]
                    cur.iview().contains(x) <==> pre.iview().contains(x) || exists|l: int|
                        0 <= l < other.items@.len() && other.items@[l] == x);
                assert(before.to_set() == cur.sview());
            }
            if !contains_sym(&self.symbols, c) {
                self.symbols.push(c);
            }
            proof {
                assert(self.items@ == cur.items@);
                assert(self.iview() == cur.iview());
            }
            proof {
                assert forall|x: MixedChar| #[trigger] self.sview().contains(x) implies before
                    .to_set().contains(x) || x == c by {
                    if self.symbols@ != before {
                        assert(self.symbols@ == before.push(c));
                    }
                }
                assert forall|x: MixedChar| before.to_set().contains(x) implies #[trigger]
                    self.sview().contains(x) by {
                    if self.symbols@ != before {
                        assert(self.symbols@ == before.push(c));
                    }
                }
                assert(self.sview().contains(c)) by {
                    if before.contains(c) {
                        assert(before.to_set().contains(c));
                    } else {
                        assert(self.symbols@.last() == c);
                        assert(self.symbols@.contains(c));
                    }
                }
            }
            j = j + 1;
        }
        proof {
            assert(self.iview() =~= pre.iview().union(other.iview())) by {
                assert forall|x: Item|
                    other.iview().contains(x) implies #[trigger] self.iview().contains(x) by {
                    assert(other.items@.contains(x));
                    let k = choose|k: int| 0 <= k < other.items@.len() && other.items@[k] == x;
                }
                assert forall|x: Item| #[trigger]
                    self.iview().contains(x) && !pre.iview().contains(x) implies other.iview()
                    .contains(x) by {
                    let k = choose|k: int| 0 <= k < other.items@.len() && other.items@[k] == x;
                    assert(other.items@.contains(x));
                }
            }
            assert(self.sview() =~= pre.sview().union(other.sview())) by {
                assert forall|x: MixedChar|
                    other.sview().contains(x) implies #[trigger] self.sview().contains(x) by {
                    assert(other.symbols@.contains(x));
                    let k = choose|k: int| 0 <= k < other.symbols@.len() && other.symbols@[k] == x;
                }
                assert forall|x: MixedChar| #[trigger]
                    self.sview().contains(x) && !pre.sview().contains(x) implies other.sview()
                    .contains(x) by {
                    let k = choose|k: int| 0 <= k < other.symbols@.len() && other.symbols@[k] == x;
                    assert(other.symbols@.contains(x));
                }
            }
        }
    }
}

impl ItemSet {
    /// Closure expansion: for every rule reachable from a variable after a
    /// dot, adds one non-kernel item per admissible lookahead, the lookaheads
    /// being the filtered FOLLOW of the rule's clause given the state's rules
    /// and the predecessor's kernel-carried pairs.
    #[verifier::loop_isolation(false)]
    pub fn add_non_kernel(
        &mut self,
        rule_graph: &RuleGraph,
        rules: &Vec<Rule>,
        follows: &Follow,
        prev: Option<&ItemSet>,
    )
        requires
            old(self).wf(rules@),
            rule_graph.wf(),
            rule_graph.rules@ == rules@,
            follows.wf(),
            follows.rules_gh@ == rules@,
            old(self).sview() == syms_of(rules@, old(self).iview()),
            match prev {
                Some(p) => p.wf(rules@),
                None => true,
            },
        ensures
            final(self).iview() == closure_items(
                rules@,
                old(self).iview(),
                prev_kf(rules@, prev),
            ),
            final(self).sview() == closure_syms(rules@, old(self).iview()),
            final(self).wf(rules@),
            old(self).symbols@.no_duplicates() ==> final(self).symbols@.no_duplicates(),
    {
        let ghost kitems = self.iview();
        let ghost pkf = prev_kf(rules@, prev);
        let mut vars: Vec<Variable> = Vec::new();
        let mut i: usize = 0;
        while i < self.symbols.len()
            invariant
                i <= self.symbols@.len(),
                forall|v: Variable| #[trigger]
                    vars@.contains(v) <==> exists|j: int|
                        0 <= j < i && self.symbols@[j] == MixedChar::Variable(v),
            decreases self.symbols@.len() - i,
        {
            let ghost old_vars = vars@;
            match self.symbols[i] {
                MixedChar::Variable(v) => {
                    vars.push(v);
                },
                MixedChar::Terminal(_) => {},
            }
            proof {
                assert forall|v: Variable| #[trigger] vars@.contains(v) implies exists|j: int|
                    0 <= j < i + 1 && self.symbols@[j] == MixedChar::Variable(v) by {
                    if old_vars.contains(v) {
                        let j = choose|j: int|
                            0 <= j < i && self.symbols@[j] == MixedChar::Variable(v);
                        assert(0 <= j < i + 1 && self.symbols@[j] == MixedChar::Variable(v));
                    } else {
                        assert(vars@.last() == v);
                        assert(self.symbols@[i as int] == MixedChar::Variable(v));
                    }
                }
                assert forall|v: Variable|
                    (exists|j: int|
                        0 <= j < i + 1 && self.symbols@[j] == MixedChar::Variable(
                            v,
                        )) implies #[trigger] vars@.contains(v) by {
                    let j = choose|j: int|
                        0 <= j < i + 1 && self.symbols@[j] == MixedChar::Variable(v);
                    if j < i {
                        assert(old_vars.contains(v));
                    } else {
                        assert(vars@.last() == v);
                    }
                }
            }
            i = i + 1;
        }
        proof {
            assert(vars@.to_set() =~= vars_of(rules@, kitems)) by {
                assert forall|v: Variable| vars@.to_set().contains(v) implies vars_of(
                    rules@,
                    kitems,
                ).contains(v) by {
                    let j = choose|j: int|
                        0 <= j < self.symbols@.len() && self.symbols@[j] == MixedChar::Variable(v);
                    assert(self.sview().contains(MixedChar::Variable(v)));
                }
                assert forall|v: Variable| vars_of(rules@, kitems).contains(v) implies vars@
                    .to_set().contains(v) by {
                    assert(self.sview().contains(MixedChar::Variable(v)));
                    assert(self.symbols@.contains(MixedChar::Variable(v)));
                    let j = choose|j: int|
                        0 <= j < self.symbols@.len() && self.symbols@[j] == MixedChar::Variable(v);
                    assert(vars@.contains(v));
                }
            }
        }
        let non_kernels = rule_graph.gets_rule(&vars);
        proof {
            assert forall|rid: usize| #[trigger]
                non_kernels@.contains(rid) <==> nk_spec(rules@, kitems).contains(rid) by {}
        }
        let mut avail: Vec<usize> = Vec::new();
        let mut a: usize = 0;
        while a < self.items.len()
            invariant
                a <= self.items@.len(),
                forall|rid: usize| #[trigger]
                    avail@.contains(rid) <==> exists|j: int|
                        0 <= j < a && (#[trigger] self.items@[j]).rule_number == rid,
            decreases self.items@.len() - a,
        {
            let ghost old_avail = avail@;
            avail.push(self.items[a].rule_number);
            proof {
                assert forall|rid: usize| #[trigger] avail@.contains(rid) implies exists|j: int|
                    0 <= j < a + 1 && (#[trigger] self.items@[j]).rule_number == rid by {
                    if old_avail.contains(rid) {
                        let j = choose|j: int|
                            0 <= j < a && (#[trigger] self.items@[j]).rule_number == rid;
                        assert(0 <= j < a + 1 && self.items@[j].rule_number == rid);
                    } else {
                        assert(avail@.last() == rid);
                        assert(self.items@[a as int].rule_number == rid);
                    }
                }
                assert forall|rid: usize|
                    (exists|j: int|
                        0 <= j < a + 1 && (#[trigger] self.items@[j]).rule_number
                            == rid) implies #[trigger] avail@.contains(rid) by {
                    let j = choose|j: int|
                        0 <= j < a + 1 && (#[trigger] self.items@[j]).rule_number == rid;
                    if j < a {
                        assert(old_avail.contains(rid));
                    } else {
                        assert(avail@.last() == rid);
                    }
                }
            }
            a = a + 1;
        }
        let mut b: usize = 0;
        let ghost item_rules = avail@;
        while b < non_kernels.len()
            invariant
                b <= non_kernels@.len(),
                avail@ == item_rules + non_kernels@.take(b as int),
            decreases non_kernels@.len() - b,
        {
            avail.push(non_kernels[b]);
            proof {
                assert(non_kernels@.take(b + 1) =~= non_kernels@.take(b as int).push(
                    non_kernels@[b as int],
                ));
                assert(avail@ =~= item_rules + non_kernels@.take(b + 1));
            }
            b = b + 1;
        }
        proof {
            assert(non_kernels@.take(non_kernels@.len() as int) =~= non_kernels@);
            assert(avail@.to_set() =~= avail_spec(rules@, kitems)) by {
                assert forall|rid: usize| avail@.to_set().contains(rid) implies avail_spec(
                    rules@,
                    kitems,
                ).contains(rid) by {
                    let j = choose|j: int| 0 <= j < avail@.len() && avail@[j] == rid;
                    if j < item_rules.len() {
                        assert(item_rules[j] == rid);
                        assert(item_rules.contains(rid));
                        let l = choose|l: int|
                            0 <= l < self.items@.len() && (#[trigger] self.items@[l]).rule_number
                                == rid;
                        assert(self.iview().contains(self.items@[l]));
                        assert(rules_of(kitems).contains(rid));
                    } else {
                        assert(avail@[j] == non_kernels@[j - item_rules.len()]);
                        assert(non_kernels@.contains(rid));
                        assert(nk_spec(rules@, kitems).contains(rid));
                    }
                }
                assert forall|rid: usize| avail_spec(rules@, kitems).contains(rid) implies avail@
                    .to_set().contains(rid) by {
                    if rules_of(kitems).contains(rid) {
                        let it = choose|it: Item|
                            #[trigger] kitems.contains(it) && it.rule_number == rid;
                        let l = choose|l: int|
                            0 <= l < self.items@.len() && self.items@[l] == it;
                        assert(item_rules.contains(rid));
                        let j = choose|j: int|
                            0 <= j < item_rules.len() && item_rules[j] == rid;
                        assert(avail@[j] == rid);
                    } else {
                        assert(non_kernels@.contains(rid));
                        let j = choose|j: int|
                            0 <= j < non_kernels@.len() && non_kernels@[j] == rid;
                        assert(avail@[item_rules.len() + j] == rid);
                    }
                }
            }
        }
        let kf: Vec<(usize, Terminal)> = match prev {
            Some(p) => p.kernel_follow(rules),
            None => Vec::new(),
        };
        proof {
            assert(kf@.to_set() =~= pkf) by {
                match prev {
                    Some(p) => {},
                    None => {},
                }
            }
        }
        let ghost ksyms = self.sview();
        let mut idx: usize = 0;
        while idx < non_kernels.len()
            invariant
                idx <= non_kernels@.len(),
                rule_graph.wf(),
                rule_graph.rules@ == rules@,
                follows.wf(),
                follows.rules_gh@ == rules@,
                forall|rid: usize| #[trigger]
                    non_kernels@.contains(rid) <==> nk_spec(rules@, kitems).contains(rid),
                avail@.to_set() == avail_spec(rules@, kitems),
                kf@.to_set() == pkf,
                forall|x: Item| #[trigger]
                    self.iview().contains(x) <==> kitems.contains(x) || (exists|l: int|
                        0 <= l < idx && x.rule_number == non_kernels@[l] && x.dot == 0 && x.kernel
                            == false && exists|t: Terminal|
                            x.lookahead == Some(t) && follow_filtered(
                                rules@,
                                rules@[x.rule_number as int].clause,
                                avail_spec(rules@, kitems),
                                pkf,
                            ).contains(t)),
                forall|c: MixedChar| #[trigger]
                    self.sview().contains(c) <==> ksyms.contains(c) || (exists|l: int|
                        0 <= l < idx && out_of(rules@, non_kernels@[l] as int).len() > 0 && out_of(
                            rules@,
                            non_kernels@[l] as int,
                        )[0] == c),
                old(self).symbols@.no_duplicates() ==> self.symbols@.no_duplicates(),
            decreases non_kernels@.len() - idx,
        {
            let rid = non_kernels[idx];
            proof {
                assert(non_kernels@.contains(rid));
                assert(nk_spec(rules@, kitems).contains(rid));
                assert(rid < rules@.len());
            }
            let follow_set = follows.get_filtered(&rules[rid].clause, &avail, &kf);
            let ghost cur = *self;
            self.add_rule(&rules[rid], 0, rid, &follow_set);
            proof {
                let gidx = idx as int;
                assert forall|x: Item| #[trigger] self.iview().contains(x) implies kitems.contains(
                    x,
                ) || (exists|l: int|
                    0 <= l < gidx + 1 && x.rule_number == non_kernels@[l] && x.dot == 0 && x.kernel
                        == false && exists|t: Terminal|
                        x.lookahead == Some(t) && follow_filtered(
                            rules@,
                            rules@[x.rule_number as int].clause,
                            avail_spec(rules@, kitems),
                            pkf,
                        ).contains(t)) by {
                    if cur.iview().contains(x) {
                        if !kitems.contains(x) {
                            let l = choose|l: int|
                                0 <= l < gidx && x.rule_number == non_kernels@[l] && x.dot == 0
                                    && x.kernel == false && exists|t: Terminal|
                                    x.lookahead == Some(t) && follow_filtered(
                                        rules@,
                                        rules@[x.rule_number as int].clause,
                                        avail_spec(rules@, kitems),
                                        pkf,
                                    ).contains(t);
                            assert(0 <= l < gidx + 1 && x.rule_number == non_kernels@[l]);
                        }
                    } else {
                        let t = choose|t: Terminal|
                            follow_set@.to_set().contains(t) && x == (Item {
                                rule_number: rid,
                                dot: 0,
                                lookahead: Some(t),
                                kernel: false,
                            });
                        assert(x.rule_number == non_kernels@[gidx]);
                        assert(follow_filtered(
                            rules@,
                            rules@[rid as int].clause,
                            avail_spec(rules@, kitems),
                            pkf,
                        ).contains(t));
                    }
                }
                assert forall|x: Item|
                    (kitems.contains(x) || (exists|l: int|
                        0 <= l < gidx + 1 && x.rule_number == non_kernels@[l] && x.dot == 0
                            && x.kernel == false && exists|t: Terminal|
                            x.lookahead == Some(t) && follow_filtered(
                                rules@,
                                rules@[x.rule_number as int].clause,
                                avail_spec(rules@, kitems),
                                pkf,
                            ).contains(t))) implies #[trigger] self.iview().contains(x) by {
                    if kitems.contains(x) {
                        assert(cur.iview().contains(x));
                    } else {
                        let l = choose|l: int|
                            0 <= l < gidx + 1 && x.rule_number == non_kernels@[l] && x.dot == 0
                                && x.kernel == false && exists|t: Terminal|
                                x.lookahead == Some(t) && follow_filtered(
                                    rules@,
                                    rules@[x.rule_number as int].clause,
                                    avail_spec(rules@, kitems),
                                    pkf,
                                ).contains(t);
                        if l < gidx {
                            assert(cur.iview().contains(x));
                        } else {
                            assert(x.rule_number == rid);
                            let t = choose|t: Terminal|
                                x.lookahead == Some(t) && follow_filtered(
                                    rules@,
                                    rules@[x.rule_number as int].clause,
                                    avail_spec(rules@, kitems),
                                    pkf,
                                ).contains(t);
                            assert(follow_set@.to_set().contains(t));
                            assert(x == (Item {
                                rule_number: rid,
                                dot: 0,
                                lookahead: Some(t),
                                kernel: false,
                            }));
                        }
                    }
                }
                assert forall|c: MixedChar| #[trigger] self.sview().contains(c) implies ksyms
                    .contains(c) || (exists|l: int|
                    0 <= l < gidx + 1 && out_of(rules@, non_kernels@[l] as int).len() > 0 && out_of(
                        rules@,
                        non_kernels@[l] as int,
                    )[0] == c) by {
                    if cur.sview().contains(c) {
                        if !ksyms.contains(c) {
                            let l = choose|l: int|
                                0 <= l < gidx && out_of(rules@, non_kernels@[l] as int).len() > 0
                                    && out_of(rules@, non_kernels@[l] as int)[0] == c;
                            assert(0 <= l < gidx + 1 && out_of(
                                rules@,
                                non_kernels@[l] as int,
                            ).len() > 0);
                        }
                    } else {
                        assert(out_of(rules@, rid as int).len() > 0 && out_of(
                            rules@,
                            rid as int,
                        )[0] == c);
                        assert(non_kernels@[gidx] == rid);
                    }
                }
                assert forall|c: MixedChar|
                    (ksyms.contains(c) || (exists|l: int|
                        0 <= l < gidx + 1 && out_of(rules@, non_kernels@[l] as int).len() > 0
                            && out_of(rules@, non_kernels@[l] as int)[0] == c)) implies #[trigger]
                    self.sview().contains(c) by {
                    if ksyms.contains(c) {
                        assert(cur.sview().contains(c));
                    } else {
                        let l = choose|l: int|
                            0 <= l < gidx + 1 && out_of(rules@, non_kernels@[l] as int).len() > 0
                                && out_of(rules@, non_kernels@[l] as int)[0] == c;
                        if l < gidx {
                            assert(cur.sview().contains(c));
                        } else {
                            assert(non_kernels@[l] == rid);
                        }
                    }
                }
            }
            idx = idx + 1;
        }
        proof {
            assert(self.iview() =~= closure_items(rules@, kitems, pkf)) by {
                assert forall|x: Item| #[trigger] self.iview().contains(x) implies closure_items(
                    rules@,
                    kitems,
                    pkf,
                ).contains(x) by {
                    if !kitems.contains(x) {
                        let l = choose|l: int|
                            0 <= l < non_kernels@.len() && x.rule_number == non_kernels@[l]
                                && x.dot == 0 && x.kernel == false && exists|t: Terminal|
                                x.lookahead == Some(t) && follow_filtered(
                                    rules@,
                                    rules@[x.rule_number as int].clause,
                                    avail_spec(rules@, kitems),
                                    pkf,
                                ).contains(t);
                        assert(non_kernels@.contains(x.rule_number));
                    }
                }
                assert forall|x: Item| closure_items(rules@, kitems, pkf).contains(
                    x,
                ) implies #[trigger] self.iview().contains(x) by {
                    if !kitems.contains(x) {
                        assert(non_kernels@.contains(x.rule_number));
                        let l = choose|l: int|
                            0 <= l < non_kernels@.len() && non_kernels@[l] == x.rule_number;
                    }
                }
            }
            assert(self.sview() =~= closure_syms(rules@, kitems)) by {
                assert forall|c: MixedChar| #[trigger] self.sview().contains(c) implies closure_syms(
                    rules@,
                    kitems,
                ).contains(c) by {
                    if !ksyms.contains(c) {
                        let l = choose|l: int|
                            0 <= l < non_kernels@.len() && out_of(
                                rules@,
                                non_kernels@[l] as int,
                            ).len() > 0 && out_of(rules@, non_kernels@[l] as int)[0] == c;
                        assert(non_kernels@.contains(non_kernels@[l]));
                        assert(nk_spec(rules@, kitems).contains(non_kernels@[l]));
                    }
                }
                assert forall|c: MixedChar| closure_syms(rules@, kitems).contains(
                    c,
                ) implies #[trigger] self.sview().contains(c) by {
                    if !syms_of(rules@, kitems).contains(c) {
                        let rid = choose|rid: usize|
                            #[trigger] nk_spec(rules@, kitems).contains(rid) && out_of(
                                rules@,
                                rid as int,
                            ).len() > 0 && out_of(rules@, rid as int)[0] == c;
                        assert(non_kernels@.contains(rid));
                        let l = choose|l: int|
                            0 <= l < non_kernels@.len() && non_kernels@[l] == rid;
                    }
                }
            }
            assert(self.wf(rules@)) by {
                assert forall|it: Item| #[trigger] self.iview().contains(it) implies item_wf(
                    rules@,
                    it,
                ) by {
                    if !kitems.contains(it) {
                        assert(nk_spec(rules@, kitems).contains(it.rule_number));
                    }
                }
            }
        }
    }
}

/// Every terminal that can serve as a lookahead: the end-of-input sentinel
/// and every terminal occurring in some rule's right-hand side.
pub open spec fn tuniv(rules: Seq<Rule>) -> Set<Terminal> {
    Set::new(
        |t: Terminal|
            t == (Terminal { symbol: END_TERMINAL }) || exists|j: int, i: int|
                0 <= j < rules.len() && 0 <= i < out_of(rules, j).len() && out_of(rules, j)[i]
                    == MixedChar::Terminal(t),
    )
}

/// The item's lookahead, if any, lies in the lookahead universe.
pub open spec fn la_ok(rules: Seq<Rule>, it: Item) -> bool {
    match it.lookahead {
        Some(t) => tuniv(rules).contains(t),
        None => true,
    }
}

/// Occurrence terminals among the first `n` rules.
pub open spec fn tu_upto(rules: Seq<Rule>, n: int) -> Set<Terminal> {
    Set::new(
        |t: Terminal|
            exists|j: int, i: int|
                0 <= j < n && 0 <= i < out_of(rules, j).len() && out_of(rules, j)[i]
                    == MixedChar::Terminal(t),
    )
}

proof fn lemma_tu_upto_finite(rules: Seq<Rule>, n: int)
    requires
        0 <= n <= rules.len(),
    ensures
        tu_upto(rules, n).finite(),
    decreases n,
{
    broadcast use vstd::set_lib::lemma_set_subset_finite;
    broadcast use vstd::set_lib::lemma_set_union_finite_iff;

    if n == 0 {
        assert(tu_upto(rules, 0) =~= Set::<Terminal>::empty());
    } else {
        lemma_tu_upto_finite(rules, n - 1);
        let f = |c: MixedChar|
            match c {
                MixedChar::Terminal(t) => t,
                MixedChar::Variable(_) => Terminal { symbol: END_TERMINAL },
            };
        let row = out_of(rules, n - 1).to_set().map(f);
        crate::reach::lemma_to_set_len_le(out_of(rules, n - 1));
        out_of(rules, n - 1).to_set().lemma_map_finite(f);
        assert(tu_upto(rules, n).subset_of(tu_upto(rules, n - 1).union(row))) by {
            assert forall|t: Terminal| tu_upto(rules, n).contains(t) implies tu_upto(
                rules,
                n - 1,
            ).union(row).contains(t) by {
                let (j, i): (int, int) = choose|j: int, i: int|
                    0 <= j < n && 0 <= i < out_of(rules, j).len() && out_of(rules, j)[i]
                        == MixedChar::Terminal(t);
                if j < n - 1 {
                    assert(tu_upto(rules, n - 1).contains(t));
                } else {
                    assert(out_of(rules, n - 1).contains(MixedChar::Terminal(t)));
                    assert(out_of(rules, n - 1).to_set().contains(MixedChar::Terminal(t)));
                    assert(row.contains(f(MixedChar::Terminal(t))));
                }
            }
        }
    }
}

pub proof fn lemma_tuniv_finite(rules: Seq<Rule>)
    ensures
        tuniv(rules).finite(),
{
    broadcast use vstd::set_lib::lemma_set_subset_finite;

    lemma_tu_upto_finite(rules, rules.len() as int);
    let big = tu_upto(rules, rules.len() as int).insert(Terminal { symbol: END_TERMINAL });
    vstd::set_lib::lemma_set_insert_finite_iff(
        tu_upto(rules, rules.len() as int),
        Terminal { symbol: END_TERMINAL },
    );
    assert(tuniv(rules).subset_of(big));
}

/// The lookahead universe: `None` or one of the universe terminals.
pub open spec fn las_univ(rules: Seq<Rule>) -> Set<Option<Terminal>> {
    Set::new(
        |o: Option<Terminal>|
            match o {
                Some(t) => tuniv(rules).contains(t),
                None => true,
            },
    )
}

proof fn lemma_las_univ_finite(rules: Seq<Rule>)
    ensures
        las_univ(rules).finite(),
{
    broadcast use vstd::set_lib::lemma_set_subset_finite;

    lemma_tuniv_finite(rules);
    let f = |t: Terminal| Some(t);
    let big = tuniv(rules).map(f).insert(None);
    tuniv(rules).lemma_map_finite(f);
    vstd::set_lib::lemma_set_insert_finite_iff(tuniv(rules).map(f), None::<Terminal>);
    assert(las_univ(rules).subset_of(big)) by {
        assert forall|o: Option<Terminal>| las_univ(rules).contains(o) implies big.contains(o) by {
            match o {
                Some(t) => {
                    assert(tuniv(rules).contains(t));
                    assert(tuniv(rules).map(f).contains(f(t)));
                },
                None => {},
            }
        }
    }
}

/// Every well-formed item over the grammar whose lookahead lies in the
/// universe: the finite space automaton states draw their items from.
pub open spec fn item_univ(rules: Seq<Rule>) -> Set<Item> {
    Set::new(|it: Item| item_wf(rules, it) && las_univ(rules).contains(it.lookahead))
}

/// Items of `item_univ` whose rule number is below `n`.
spec fn iu_upto(rules: Seq<Rule>, n: int) -> Set<Item> {
    Set::new(
        |it: Item|
            it.rule_number < n && item_wf(rules, it) && las_univ(rules).contains(it.lookahead),
    )
}

/// Items of one rule with dot at most `d`.
spec fn iu_row(rules: Seq<Rule>, r: int, d: int) -> Set<Item> {
    Set::new(
        |it: Item|
            it.rule_number == r && it.dot <= d && las_univ(rules).contains(it.lookahead),
    )
}

proof fn lemma_iu_row_finite(rules: Seq<Rule>, r: int, d: int)
    ensures
        iu_row(rules, r, d).finite(),
    decreases d + 1,
{
    broadcast use vstd::set_lib::lemma_set_subset_finite;
    broadcast use vstd::set_lib::lemma_set_union_finite_iff;

    lemma_las_univ_finite(rules);
    if d < 0 {
        assert(iu_row(rules, r, d) =~= Set::<Item>::empty());
    } else {
        lemma_iu_row_finite(rules, r, d - 1);
        if 0 <= r <= usize::MAX && 0 <= d <= usize::MAX {
            let mk_f = |la: Option<Terminal>|
                Item { rule_number: r as usize, dot: d as usize, lookahead: la, kernel: false };
            let mk_t = |la: Option<Terminal>|
                Item { rule_number: r as usize, dot: d as usize, lookahead: la, kernel: true };
            las_univ(rules).lemma_map_finite(mk_f);
            las_univ(rules).lemma_map_finite(mk_t);
            let cell = las_univ(rules).map(mk_f).union(las_univ(rules).map(mk_t));
            assert(iu_row(rules, r, d).subset_of(iu_row(rules, r, d - 1).union(cell))) by {
                assert forall|it: Item| iu_row(rules, r, d).contains(it) implies iu_row(
                    rules,
                    r,
                    d - 1,
                ).union(cell).contains(it) by {
                    if it.dot == d {
                        assert(las_univ(rules).contains(it.lookahead));
                        if it.kernel {
                            assert(las_univ(rules).map(mk_t).contains(mk_t(it.lookahead)));
                            assert(mk_t(it.lookahead) == it);
                        } else {
                            assert(las_univ(rules).map(mk_f).contains(mk_f(it.lookahead)));
                            assert(mk_f(it.lookahead) == it);
                        }
                    }
                }
            }
        } else {
            assert(iu_row(rules, r, d) =~= iu_row(rules, r, d - 1)) by {
                assert forall|it: Item| iu_row(rules, r, d).contains(it) implies iu_row(
                    rules,
                    r,
                    d - 1,
                ).contains(it) by {
                    assert(it.rule_number <= usize::MAX && it.dot <= usize::MAX);
                }
            }
        }
    }
}

proof fn lemma_iu_upto_finite(rules: Seq<Rule>, n: int)
    ensures
        iu_upto(rules, n).finite(),
    decreases n + 1,
{
    broadcast use vstd::set_lib::lemma_set_subset_finite;
    broadcast use vstd::set_lib::lemma_set_union_finite_iff;

    if n <= 0 {
        assert(iu_upto(rules, n) =~= Set::<Item>::empty());
    } else {
        lemma_iu_upto_finite(rules, n - 1);
        lemma_iu_row_finite(rules, n - 1, out_of(rules, n - 1).len() as int);
        let row = iu_row(rules, n - 1, out_of(rules, n - 1).len() as int);
        assert(iu_upto(rules, n).subset_of(iu_upto(rules, n - 1).union(row))) by {
            assert forall|it: Item| iu_upto(rules, n).contains(it) implies iu_upto(
                rules,
                n - 1,
            ).union(row).contains(it) by {
                if it.rule_number == n - 1 {
                    assert(row.contains(it));
                }
            }
        }
    }
}

pub proof fn lemma_item_univ_finite(rules: Seq<Rule>)
    ensures
        item_univ(rules).finite(),
{
    broadcast use vstd::set_lib::lemma_set_subset_finite;

    lemma_iu_upto_finite(rules, rules.len() as int);
    assert(item_univ(rules).subset_of(iu_upto(rules, rules.len() as int)));
}

/// Every well-formed item with an in-universe lookahead lies in the item
/// universe.
pub proof fn lemma_item_univ_contains(rules: Seq<Rule>, it: Item)
    requires
        item_wf(rules, it),
        la_ok(rules, it),
    ensures
        item_univ(rules).contains(it),
{
    assert(las_univ(rules).contains(it.lookahead)) by {
        match it.lookahead {
            Some(t) => {
                assert(tuniv(rules).contains(t));
            },
            None => {},
        }
    }
}

/// Everything a filtered FOLLOW query can return: a universe terminal or a
/// kernel-carried one.
pub proof fn lemma_follow_filtered_univ(
    rules: Seq<Rule>,
    a: Variable,
    avail: Set<usize>,
    kf: Set<(usize, Terminal)>,
    t: Terminal,
)
    requires
        follow_filtered(rules, a, avail, kf).contains(t),
    ensures
        tuniv(rules).contains(t) || exists|rid: usize| #[trigger] kf.contains((rid, t)),
{
    if exists|rid: usize|
        avail.contains(rid) && #[trigger] crate::first_follow::follow_sets(
            rules,
            a,
            rid as int,
        ).contains(t) {
        let rid = choose|rid: usize|
            avail.contains(rid) && #[trigger] crate::first_follow::follow_sets(
                rules,
                a,
                rid as int,
            ).contains(t);
        let b = choose|b: Variable|
            #[trigger] crate::reach::reaches(crate::first_follow::follow_edge(rules), a, b)
                && crate::first_follow::follow_direct(rules, b, rid as int).contains(t);
        if crate::first_follow::follow_seed(b, rid as int, t) {
        } else if exists|i: int|
            #[trigger] crate::first_follow::at_var(rules, rid as int, i, b)
                && crate::first_follow::next_term(rules, rid as int, i, t) {
            let i = choose|i: int|
                #[trigger] crate::first_follow::at_var(rules, rid as int, i, b)
                    && crate::first_follow::next_term(rules, rid as int, i, t);
            assert(out_of(rules, rid as int)[i + 1] == MixedChar::Terminal(t));
            assert(tuniv(rules).contains(t));
        } else {
            let (i, w): (int, Variable) = choose|i: int, w: Variable|
                #[trigger] crate::first_follow::at_var(rules, rid as int, i, b)
                    && #[trigger] crate::first_follow::next_var(rules, rid as int, i, w)
                    && crate::first_follow::first_sets(rules, w).contains(t);
            let b2 = choose|b2: Variable|
                #[trigger] crate::reach::reaches(first_edge(rules), w, b2)
                    && crate::first_follow::first_direct(rules, b2).contains(t);
            let j = choose|j: int|
                0 <= j < rules.len() && (#[trigger] rules[j]).clause == b2 && out_of(
                    rules,
                    j,
                ).len() > 0 && out_of(rules, j)[0] == MixedChar::Terminal(t);
            assert(tuniv(rules).contains(t));
        }
    }
}

/// The transition symbols of a closed state cover the transition symbols of
/// its items.
pub proof fn lemma_closure_syms_cover(rules: Seq<Rule>, kitems: Set<Item>, pkf: Set<(usize, Terminal)>)
    ensures
        forall|c: MixedChar|
            syms_of(rules, closure_items(rules, kitems, pkf)).contains(c) ==> #[trigger]
            closure_syms(rules, kitems).contains(c),
{
    assert forall|c: MixedChar|
        syms_of(rules, closure_items(rules, kitems, pkf)).contains(c) implies #[trigger]
        closure_syms(rules, kitems).contains(c) by {
        let it = choose|it: Item|
            #[trigger] closure_items(rules, kitems, pkf).contains(it) && sym_at(rules, it) == Some(
                c,
            );
        if kitems.contains(it) {
            assert(syms_of(rules, kitems).contains(c));
        } else {
            assert(nk_spec(rules, kitems).contains(it.rule_number));
            assert(it.dot == 0);
            assert(out_of(rules, it.rule_number as int).len() > 0 && out_of(
                rules,
                it.rule_number as int,
            )[0] == c);
        }
    }
}

/// The kernel item every automaton starts from: the augmented start rule at
/// dot zero with the end-of-input lookahead.
pub open spec fn seed_items() -> Set<Item> {
    Set::<Item>::empty().insert(
        Item {
            rule_number: 0,
            dot: 0,
            lookahead: Some(Terminal { symbol: END_TERMINAL }),
            kernel: true,
        },
    )
}

/// A state is structurally sound: well-formed items with in-universe
/// lookaheads, and transition symbols covering the items' next symbols.
pub open spec fn state_ok(rules: Seq<Rule>, st: ItemSet) -> bool {
    &&& st.wf(rules)
    &&& forall|it: Item| #[trigger] st.iview().contains(it) ==> la_ok(rules, it)
    &&& forall|c: MixedChar|
        syms_of(rules, st.iview()).contains(c) ==> #[trigger] st.sview().contains(c)
    &&& st.symbols@.no_duplicates()
}

/// The edge from state `s` on symbol `c` leads to the closure of the shifted
/// kernel, with the source state as predecessor.
pub open spec fn edge_ok(
    rules: Seq<Rule>,
    sets: Seq<ItemSet>,
    s: int,
    c: MixedChar,
    t: int,
) -> bool {
    &&& 0 <= t < sets.len()
    &&& shift_items(rules, sets[s].iview(), c) != Set::<Item>::empty()
    &&& sets[t].iview() == closure_items(
        rules,
        shift_items(rules, sets[s].iview(), c),
        kf_spec(rules, sets[s].iview()),
    )
}

/// The edge relation of the recorded transitions: state `s` steps to `t`
/// when some row entry of `s` names `t`.
pub open spec fn om_edge(om: Seq<Vec<(MixedChar, usize)>>) -> spec_fn(int, int) -> bool {
    |s: int, t: int|
        0 <= s < om.len() && exists|k: int|
            0 <= k < om[s]@.len() && (#[trigger] om[s]@[k]).1 as int == t
}

/// The edge relation while one state's row is still being gathered: the
/// recorded rows, plus the pending edges out of the state being processed.
pub open spec fn ext_edge(
    om: Seq<Vec<(MixedChar, usize)>>,
    row: Seq<(MixedChar, usize)>,
    idx: int,
) -> spec_fn(int, int) -> bool {
    |s: int, t: int|
        om_edge(om)(s, t) || (s == idx && exists|k: int|
            0 <= k < row.len() && (#[trigger] row[k]).1 as int == t)
}

/// The whole canonical automaton is as constructed: state zero is the closure
/// of the seed; every recorded edge is the closure of a shift; per state, at
/// most one edge per symbol and at least one edge for every symbol after a
/// dot; and no two states hold the same items.
pub open spec fn explore_rel(
    rules: Seq<Rule>,
    sets: Seq<ItemSet>,
    om: Seq<Vec<(MixedChar, usize)>>,
) -> bool {
    &&& sets.len() == om.len()
    &&& sets.len() >= 1
    &&& forall|s: int| 0 <= s < sets.len() ==> #[trigger] state_ok(rules, sets[s])
    &&& sets[0].iview() == closure_items(rules, seed_items(), Set::<(usize, Terminal)>::empty())
    &&& forall|s: int, k: int|
        0 <= s < sets.len() && 0 <= k < om[s]@.len() ==> edge_ok(
            rules,
            sets,
            s,
            (#[trigger] om[s]@[k]).0,
            om[s]@[k].1 as int,
        )
    &&& forall|s: int, k1: int, k2: int|
        0 <= s < sets.len() && 0 <= k1 < (#[trigger] om[s])@.len() && 0 <= k2 < om[s]@.len()
            && (#[trigger] om[s]@[k1]).0 == (#[trigger] om[s]@[k2]).0 ==> k1 == k2
    &&& forall|s: int, c: MixedChar|
        0 <= s < sets.len() && #[trigger] syms_of(rules, sets[s].iview()).contains(c) ==> exists|
            k: int,
        | 0 <= k < om[s]@.len() && (#[trigger] om[s]@[k]).0 == c
    &&& forall|i: int, j: int|
        0 <= i < sets.len() && 0 <= j < sets.len() && i != j ==> (#[trigger] sets[i]).iview() != (
        #[trigger] sets[j]).iview()
    &&& forall|t: int| 0 <= t < sets.len() ==> #[trigger] reaches(om_edge(om), 0, t)
}

/// Finds a state with the same items, as a set.
#[verifier::loop_isolation(false)]
fn find_state(sets: &Vec<ItemSet>, target: &ItemSet) -> (r: Option<usize>)
    ensures
        match r {
            Some(t) => t < sets@.len() && sets@[t as int].iview() == target.iview(),
            None => forall|s: int|
                0 <= s < sets@.len() ==> (#[trigger] sets@[s]).iview() != target.iview(),
        },
{
    let mut s: usize = 0;
    while s < sets.len()
        invariant
            s <= sets@.len(),
            forall|j: int| 0 <= j < s ==> (#[trigger] sets@[j]).iview() != target.iview(),
        decreases sets@.len() - s,
    {
        if itemset_same(&sets[s], target) {
            return Some(s);
        }
        s = s + 1;
    }
    None
}

/// True when two states hold the same items, as sets.
#[verifier::loop_isolation(false)]
fn itemset_same(a: &ItemSet, b: &ItemSet) -> (r: bool)
    ensures
        r == (a.iview() == b.iview()),
{
    let mut i: usize = 0;
    while i < a.items.len()
        invariant
            i <= a.items@.len(),
            forall|j: int| 0 <= j < i ==> b.iview().contains(#[trigger] a.items@[j]),
        decreases a.items@.len() - i,
    {
        if !contains_item(&b.items, a.items[i]) {
            proof {
                assert(a.iview().contains(a.items@[i as int])) by {
                    assert(a.items@.contains(a.items@[i as int]));
                }
                assert(a.iview() != b.iview());
            }
            return false;
        }
        i = i + 1;
    }
    let mut j: usize = 0;
    while j < b.items.len()
        invariant
            j <= b.items@.len(),
            forall|k: int| 0 <= k < a.items@.len() ==> b.iview().contains(#[trigger] a.items@[k]),
            forall|k: int| 0 <= k < j ==> a.iview().contains(#[trigger] b.items@[k]),
        decreases b.items@.len() - j,
    {
        if !contains_item(&a.items, b.items[j]) {
            proof {
                assert(b.iview().contains(b.items@[j as int])) by {
                    assert(b.items@.contains(b.items@[j as int]));
                }
                assert(a.iview() != b.iview());
            }
            return false;
        }
        j = j + 1;
    }
    proof {
        assert(a.iview() =~= b.iview()) by {
            assert forall|x: Item| a.iview().contains(x) implies b.iview().contains(x) by {
                let k = choose|k: int| 0 <= k < a.items@.len() && a.items@[k] == x;
            }
            assert forall|x: Item| b.iview().contains(x) implies a.iview().contains(x) by {
                let k = choose|k: int| 0 <= k < b.items@.len() && b.items@[k] == x;
            }
        }
    }
    true
}

/// The growing family of automaton states: the grammar's rules, the states,
/// and the shift/goto edges between them.
pub struct ItemSets {
    pub sets: Vec<ItemSet>,
    pub rules: Vec<Rule>,
    pub ordering_map: Vec<Vec<(MixedChar, usize)>>,
}

impl ItemSets {
    /// A fresh automaton for a grammar whose start variable is
    /// `last_variable`: rule zero is the augmented start rule.
    pub fn new(last_variable: char) -> (r: ItemSets)
        ensures
            r.rules@.len() == 1,
            r.rules@[0].clause == (Variable { symbol: END_VARIABLE }),
            r.rules@[0].output.data@ == seq![
                MixedChar::Variable(Variable { symbol: last_variable }),
            ],
            r.sets@.len() == 0,
            r.ordering_map@.len() == 0,
    {
        let mut first_rule = Rule::new(END_VARIABLE);
        first_rule.add_variable(last_variable);
        let mut rules: Vec<Rule> = Vec::new();
        rules.push(first_rule);
        proof {
            assert(rules@[0].output.data@ =~= seq![
                MixedChar::Variable(Variable { symbol: last_variable }),
            ]);
        }
        ItemSets { sets: Vec::new(), rules, ordering_map: Vec::new() }
    }

    /// Appends one rule to the grammar.
    pub fn add_rule(&mut self, rule: Rule)
        ensures
            final(self).rules@ == old(self).rules@.push(rule),
            final(self).sets@ == old(self).sets@,
            final(self).ordering_map@ == old(self).ordering_map@,
    {
        self.rules.push(rule);
    }

    /// Reads one rule from a grammar line and appends it; a malformed line is
    /// rejected and leaves the grammar unchanged.
    pub fn add_from_string(&mut self, string_rule: &str) -> (ok: bool)
        ensures
            ok == crate::syntax::line_well_formed(string_rule@),
            ok ==> final(self).rules@.len() == old(self).rules@.len() + 1,
            ok ==> final(self).rules@.last().clause == (Variable { symbol: string_rule@[0] }),
            ok ==> final(self).rules@.last().output.data@ == crate::syntax::line_output(
                string_rule@,
            ),
            ok ==> final(self).rules@.drop_last() == old(self).rules@,
            !ok ==> final(self).rules@ == old(self).rules@,
            final(self).sets@ == old(self).sets@,
            final(self).ordering_map@ == old(self).ordering_map@,
    {
        match crate::syntax::parse_rule(string_rule) {
            Some(rule) => {
                self.rules.push(rule);
                proof {
                    assert(self.rules@.drop_last() =~= old(self).rules@);
                }
                true
            },
            None => false,
        }
    }

    /// Drops the constructed states, keeping the grammar.
    pub fn clear(&mut self)
        ensures
            final(self).rules@ == old(self).rules@,
            final(self).sets@.len() == 0,
            final(self).ordering_map@.len() == 0,
    {
        self.sets = Vec::new();
        self.ordering_map = Vec::new();
    }
}

/// Closure keeps lookaheads in the universe: new lookaheads come from the
/// filtered FOLLOW sets or from the predecessor's kernel pairs.
proof fn lemma_closure_la(rules: Seq<Rule>, kitems: Set<Item>, pkf: Set<(usize, Terminal)>)
    requires
        forall|it: Item| #[trigger] kitems.contains(it) ==> la_ok(rules, it),
        forall|rid: usize, t: Terminal| #[trigger] pkf.contains((rid, t)) ==> tuniv(rules).contains(
            t,
        ),
    ensures
        forall|it: Item| #[trigger]
            closure_items(rules, kitems, pkf).contains(it) ==> la_ok(rules, it),
{
    assert forall|it: Item| #[trigger] closure_items(rules, kitems, pkf).contains(
        it,
    ) implies la_ok(rules, it) by {
        if !kitems.contains(it) {
            let t = choose|t: Terminal|
                it.lookahead == Some(t) && follow_filtered(
                    rules,
                    rules[it.rule_number as int].clause,
                    avail_spec(rules, kitems),
                    pkf,
                ).contains(t);
            lemma_follow_filtered_univ(
                rules,
                rules[it.rule_number as int].clause,
                avail_spec(rules, kitems),
                pkf,
                t,
            );
            if !tuniv(rules).contains(t) {
                let rid = choose|rid: usize| #[trigger] pkf.contains((rid, t));
            }
        }
    }
}

/// The kernel pairs of a state whose lookaheads lie in the universe carry
/// universe terminals.
proof fn lemma_kf_la(rules: Seq<Rule>, items: Set<Item>)
    requires
        forall|it: Item| #[trigger] items.contains(it) ==> la_ok(rules, it),
    ensures
        forall|rid: usize, t: Terminal| #[trigger]
            kf_spec(rules, items).contains((rid, t)) ==> tuniv(rules).contains(t),
{
    assert forall|rid: usize, t: Terminal| #[trigger] kf_spec(rules, items).contains(
        (rid, t),
    ) implies tuniv(rules).contains(t) by {
        let it = choose|it: Item|
            #[trigger] items.contains(it) && it.kernel && it.rule_number == rid && it.lookahead
                == Some(t) && it.rule_number < rules.len() && out_of(
                rules,
                it.rule_number as int,
            ).len() == it.dot;
    }
}

impl ItemSets {
    /// Builds the canonical LR(1) item-set automaton by a worklist search:
    /// state zero is the closure of the augmented start item; each state
    /// steps, per transition symbol, into the closure of the shifted kernel;
    /// a successor equal to an existing state reuses its number, and every
    /// distinct successor is enqueued in turn.
    #[verifier::loop_isolation(false)]
    #[verifier::rlimit(100)]
    pub fn generate_next(&mut self)
        requires
            old(self).rules@.len() >= 1,
            old(self).sets@.len() == 0,
            old(self).ordering_map@.len() == 0,
        ensures
            final(self).rules@ == old(self).rules@,
            explore_rel(final(self).rules@, final(self).sets@, final(self).ordering_map@),
    {
        let ghost grules = old(self).rules@;
        let mut taken: Vec<Rule> = Vec::new();
        core::mem::swap(&mut taken, &mut self.rules);
        let rule_graph = RuleGraph::new(taken);
        let first = First::from_rule(&rule_graph.rules);
        let follows = Follow::new(&first, &rule_graph.rules);
        let rules = &rule_graph.rules;
        proof {
            assert(rules@ == grules);
            lemma_item_univ_finite(grules);
            crate::finite::lemma_pset_finite(item_univ(grules));
        }
        let ghost pbound = crate::finite::pset(item_univ(grules)).len() as int;
        let mut seed_follows: Vec<Terminal> = Vec::new();
        seed_follows.push(Terminal::end());
        let mut first_item = ItemSet::new();
        first_item.add_kernel(&rules[0], 0, 0, &seed_follows);
        proof {
            assert(first_item.iview() =~= seed_items()) by {
                assert(seed_follows@.to_set().contains(Terminal { symbol: END_TERMINAL })) by {
                    assert(seed_follows@[0] == (Terminal { symbol: END_TERMINAL }));
                    assert(seed_follows@.contains(Terminal { symbol: END_TERMINAL }));
                }
                assert forall|t: Terminal| seed_follows@.to_set().contains(t) implies t == (
                Terminal { symbol: END_TERMINAL }) by {
                    let l = choose|l: int| 0 <= l < seed_follows@.len() && seed_follows@[l] == t;
                }
            }
            assert(first_item.sview() =~= syms_of(grules, first_item.iview())) by {
                let seed = Item {
                    rule_number: 0,
                    dot: 0,
                    lookahead: Some(Terminal { symbol: END_TERMINAL }),
                    kernel: true,
                };
                assert(seed_items().contains(seed));
                if out_of(grules, 0).len() > 0 {
                    assert(sym_at(grules, seed) == Some(out_of(grules, 0)[0]));
                    assert forall|c: MixedChar|
                        syms_of(grules, first_item.iview()).contains(c) implies first_item.sview()
                        .contains(c) by {
                        let it = choose|it: Item|
                            #[trigger] first_item.iview().contains(it) && sym_at(grules, it)
                                == Some(c);
                        assert(it == seed);
                    }
                } else {
                    assert forall|c: MixedChar|
                        !syms_of(grules, first_item.iview()).contains(c) by {
                        if syms_of(grules, first_item.iview()).contains(c) {
                            let it = choose|it: Item|
                                #[trigger] first_item.iview().contains(it) && sym_at(grules, it)
                                    == Some(c);
                            assert(it == seed);
                            assert(false);
                        }
                    }
                }
            }
            assert(first_item.wf(grules)) by {
                assert forall|it: Item| #[trigger] first_item.iview().contains(it) implies item_wf(
                    grules,
                    it,
                ) by {}
            }
        }
        first_item.add_non_kernel(&rule_graph, rules, &follows, None);
        proof {
            assert(first_item.iview() == closure_items(
                grules,
                seed_items(),
                Set::<(usize, Terminal)>::empty(),
            )) by {
                assert(prev_kf(grules, None) =~= Set::<(usize, Terminal)>::empty());
            }
            assert(state_ok(grules, first_item)) by {
                lemma_closure_la(grules, seed_items(), Set::<(usize, Terminal)>::empty());
                lemma_closure_syms_cover(grules, seed_items(), Set::<(usize, Terminal)>::empty());
            }
        }
        proof {
            let views0 = self.sets@.push(first_item).map_values(|st: ItemSet| st.iview());
            assert(views0.no_duplicates());
            assert forall|x: Set<Item>| #[trigger] views0.contains(x) implies crate::finite::pset(
                item_univ(grules),
            ).contains(x) by {
                let i = choose|i: int| 0 <= i < views0.len() && views0[i] == x;
                assert(x == first_item.iview());
                crate::reach::lemma_to_set_len_le(first_item.items@);
                assert forall|it: Item| x.contains(it) implies item_univ(grules).contains(it) by {
                    lemma_item_univ_contains(grules, it);
                }
            }
            crate::reach::lemma_unique_seq_bound(views0, crate::finite::pset(item_univ(grules)));
        }
        self.sets.push(first_item);
        proof {
            crate::reach::lemma_reach_refl(om_edge(self.ordering_map@), 0int);
        }
        let mut index: usize = 0;
        while index < self.sets.len()
            invariant
                rule_graph.wf(),
                rule_graph.rules@ == grules,
                first.wf(),
                first.rules_gh@ == grules,
                follows.wf(),
                follows.rules_gh@ == grules,
                index <= self.sets@.len(),
                self.ordering_map@.len() == index,
                self.sets@.len() >= 1,
                self.sets@.len() <= pbound,
                pbound == crate::finite::pset(item_univ(grules)).len(),
                crate::finite::pset(item_univ(grules)).finite(),
                forall|s: int|
                    0 <= s < self.sets@.len() ==> #[trigger] state_ok(grules, self.sets@[s]),
                self.sets@[0].iview() == closure_items(
                    grules,
                    seed_items(),
                    Set::<(usize, Terminal)>::empty(),
                ),
                forall|s: int, k: int|
                    0 <= s < index && 0 <= k < self.ordering_map@[s]@.len() ==> edge_ok(
                        grules,
                        self.sets@,
                        s,
                        (#[trigger] self.ordering_map@[s]@[k]).0,
                        self.ordering_map@[s]@[k].1 as int,
                    ),
                forall|s: int, k1: int, k2: int|
                    0 <= s < index && 0 <= k1 < self.ordering_map@[s]@.len() && 0 <= k2
                        < self.ordering_map@[s]@.len() && (#[trigger] self.ordering_map@[s]@[k1]).0
                        == (#[trigger] self.ordering_map@[s]@[k2]).0 ==> k1 == k2,
                forall|s: int, c: MixedChar|
                    0 <= s < index && #[trigger] syms_of(grules, self.sets@[s].iview()).contains(c)
                        ==> exists|k: int|
                        0 <= k < self.ordering_map@[s]@.len() && (
                        #[trigger] self.ordering_map@[s]@[k]).0 == c,
                forall|i: int, j: int|
                    0 <= i < self.sets@.len() && 0 <= j < self.sets@.len() && i != j ==> (
                    #[trigger] self.sets@[i]).iview() != (#[trigger] self.sets@[j]).iview(),
                forall|t: int|
                    0 <= t < self.sets@.len() ==> #[trigger] reaches(
                        om_edge(self.ordering_map@),
                        0,
                        t,
                    ),
            decreases pbound + 1 - self.sets@.len(), self.sets@.len() - index,
        {
            let ghost n0 = self.sets@.len();
            let cur = self.sets[index].duplicate();
            proof {
                assert(cur.iview() == self.sets@[index as int].iview());
                assert(cur.sview() == self.sets@[index as int].sview());
                assert(state_ok(grules, self.sets@[index as int]));
                assert(cur.wf(grules)) by {
                    assert forall|it: Item| #[trigger] cur.iview().contains(it) implies item_wf(
                        grules,
                        it,
                    ) by {
                        assert(self.sets@[index as int].iview().contains(it));
                    }
                }
            }
            let mut next_val: Vec<(MixedChar, usize)> = Vec::new();
            proof {
                let rel0 = ext_edge(self.ordering_map@, next_val@, index as int);
                assert forall|x: int, y: int|
                    #[trigger] om_edge(self.ordering_map@)(x, y) implies #[trigger] rel0(x, y) by {}
                assert forall|t: int|
                    0 <= t < self.sets@.len() implies #[trigger] reaches(rel0, 0, t) by {
                    assert(reaches(om_edge(self.ordering_map@), 0, t));
                    crate::first_follow::lemma_reaches_mono(
                        om_edge(self.ordering_map@),
                        rel0,
                        0int,
                        t,
                    );
                }
            }
            let mut si: usize = 0;
            while si < cur.symbols.len()
                invariant
                    rule_graph.wf(),
                    rule_graph.rules@ == grules,
                    follows.wf(),
                    follows.rules_gh@ == grules,
                    si <= cur.symbols@.len(),
                    index < self.sets@.len(),
                    self.ordering_map@.len() == index,
                    self.sets@.len() >= 1,
                    self.sets@.len() <= pbound,
                    pbound == crate::finite::pset(item_univ(grules)).len(),
                    crate::finite::pset(item_univ(grules)).finite(),
                    cur.iview() == self.sets@[index as int].iview(),
                    cur.sview() == self.sets@[index as int].sview(),
                    cur.wf(grules),
                    state_ok(grules, cur),
                    forall|s: int|
                        0 <= s < self.sets@.len() ==> #[trigger] state_ok(grules, self.sets@[s]),
                    self.sets@[0].iview() == closure_items(
                        grules,
                        seed_items(),
                        Set::<(usize, Terminal)>::empty(),
                    ),
                    forall|s: int, k: int|
                        0 <= s < index && 0 <= k < self.ordering_map@[s]@.len() ==> edge_ok(
                            grules,
                            self.sets@,
                            s,
                            (#[trigger] self.ordering_map@[s]@[k]).0,
                            self.ordering_map@[s]@[k].1 as int,
                        ),
                    forall|s: int, k1: int, k2: int|
                        0 <= s < index && 0 <= k1 < self.ordering_map@[s]@.len() && 0 <= k2
                            < self.ordering_map@[s]@.len() && (
                        #[trigger] self.ordering_map@[s]@[k1]).0 == (
                        #[trigger] self.ordering_map@[s]@[k2]).0 ==> k1 == k2,
                    forall|s: int, c: MixedChar|
                        0 <= s < index && #[trigger] syms_of(
                            grules,
                            self.sets@[s].iview(),
                        ).contains(c) ==> exists|k: int|
                            0 <= k < self.ordering_map@[s]@.len() && (
                            #[trigger] self.ordering_map@[s]@[k]).0 == c,
                    forall|i: int, j: int|
                        0 <= i < self.sets@.len() && 0 <= j < self.sets@.len() && i != j ==> (
                        #[trigger] self.sets@[i]).iview() != (#[trigger] self.sets@[j]).iview(),
                    forall|t: int|
                        0 <= t < self.sets@.len() ==> #[trigger] reaches(
                            ext_edge(self.ordering_map@, next_val@, index as int),
                            0,
                            t,
                        ),
                    forall|k: int|
                        0 <= k < next_val@.len() ==> edge_ok(
                            grules,
                            self.sets@,
                            index as int,
                            (#[trigger] next_val@[k]).0,
                            next_val@[k].1 as int,
                        ),
                    forall|k: int|
                        0 <= k < next_val@.len() ==> exists|j: int|
                            0 <= j < si && cur.symbols@[j] == (#[trigger] next_val@[k]).0,
                    forall|k1: int, k2: int|
                        0 <= k1 < next_val@.len() && 0 <= k2 < next_val@.len() && (
                        #[trigger] next_val@[k1]).0 == (#[trigger] next_val@[k2]).0 ==> k1 == k2,
                    forall|j: int|
                        0 <= j < si && shift_items(
                            grules,
                            cur.iview(),
                            #[trigger] cur.symbols@[j],
                        ) != Set::<Item>::empty() ==> exists|k: int|
                            0 <= k < next_val@.len() && (#[trigger] next_val@[k]).0
                                == cur.symbols@[j],
                    cur.symbols@.no_duplicates(),
                    n0 <= self.sets@.len(),
                decreases cur.symbols@.len() - si,
            {
                let transition_char = cur.symbols[si];
                let ghost old_next = next_val@;
                let ghost old_sets = self.sets@;
                let ghost old_om = self.ordering_map@;
                proof {
                    assert(forall|s: int, c: MixedChar|
                        0 <= s < index && #[trigger] syms_of(
                            grules,
                            old_sets[s].iview(),
                        ).contains(c) ==> exists|k: int|
                            0 <= k < old_om[s]@.len() && (#[trigger] old_om[s]@[k]).0 == c);
                    assert(forall|s: int, k: int|
                        0 <= s < index && 0 <= k < old_om[s]@.len() ==> edge_ok(
                            grules,
                            old_sets,
                            s,
                            (#[trigger] old_om[s]@[k]).0,
                            old_om[s]@[k].1 as int,
                        ));
                }
                match cur.transitions(transition_char, rules) {
                    Some(mut new_itemset) => {
                        new_itemset.add_non_kernel(&rule_graph, rules, &follows, Some(&cur));
                        proof {
                            assert(new_itemset.iview() == closure_items(
                                grules,
                                shift_items(grules, cur.iview(), transition_char),
                                kf_spec(grules, cur.iview()),
                            ));
                            assert(state_ok(grules, new_itemset)) by {
                                assert forall|it: Item|
                                    #[trigger] shift_items(
                                        grules,
                                        cur.iview(),
                                        transition_char,
                                    ).contains(it) implies la_ok(grules, it) by {
                                    let src = choose|src: Item|
                                        #[trigger] cur.iview().contains(src) && sym_at(grules, src)
                                            == Some(transition_char) && it == spec_shift(src);
                                    assert(la_ok(grules, src));
                                }
                                lemma_kf_la(grules, cur.iview());
                                lemma_closure_la(
                                    grules,
                                    shift_items(grules, cur.iview(), transition_char),
                                    kf_spec(grules, cur.iview()),
                                );
                                lemma_closure_syms_cover(
                                    grules,
                                    shift_items(grules, cur.iview(), transition_char),
                                    kf_spec(grules, cur.iview()),
                                );
                            }
                        }
                        let target: usize;
                        match find_state(&self.sets, &new_itemset) {
                            Some(t) => {
                                target = t;
                            },
                            None => {
                                target = self.sets.len();
                                proof {
                                    let ghost views = self.sets@.push(new_itemset).map_values(
                                        |st: ItemSet| st.iview(),
                                    );
                                    assert(views.no_duplicates()) by {
                                        assert forall|i: int, j: int|
                                            0 <= i < j < views.len() implies views[i] != views[j] by {
                                            if j < self.sets@.len() {
                                                assert(views[i] == self.sets@[i].iview());
                                                assert(views[j] == self.sets@[j].iview());
                                            } else {
                                                assert(views[j] == new_itemset.iview());
                                                assert(views[i] == self.sets@[i].iview());
                                            }
                                        }
                                    }
                                    assert forall|x: Set<Item>| #[trigger]
                                        views.contains(x) implies crate::finite::pset(
                                        item_univ(grules),
                                    ).contains(x) by {
                                        let i = choose|i: int|
                                            0 <= i < views.len() && views[i] == x;
                                        let st = self.sets@.push(new_itemset)[i];
                                        assert(x == st.iview());
                                        assert(state_ok(grules, st)) by {
                                            if i < self.sets@.len() {
                                                assert(st == self.sets@[i]);
                                            } else {
                                                assert(st == new_itemset);
                                            }
                                        }
                                        crate::reach::lemma_to_set_len_le(st.items@);
                                        assert(x.finite());
                                        assert forall|it: Item| x.contains(it) implies item_univ(
                                            grules,
                                        ).contains(it) by {
                                            assert(st.iview().contains(it));
                                            lemma_item_univ_contains(grules, it);
                                        }
                                    }
                                    crate::reach::lemma_unique_seq_bound(
                                        views,
                                        crate::finite::pset(item_univ(grules)),
                                    );
                                    assert(views.len() <= pbound);
                                }
                                self.sets.push(new_itemset);
                            },
                        }
                        next_val.push((transition_char, target));
                        proof {
                            assert forall|s: int|
                                0 <= s < self.sets@.len() implies #[trigger] state_ok(
                                grules,
                                self.sets@[s],
                            ) by {
                                if s < old_sets.len() {
                                    assert(self.sets@[s] == old_sets[s]);
                                } else {
                                    assert(self.sets@[s] == new_itemset);
                                }
                            }
                            assert forall|k: int|
                                0 <= k < next_val@.len() implies edge_ok(
                                grules,
                                self.sets@,
                                index as int,
                                (#[trigger] next_val@[k]).0,
                                next_val@[k].1 as int,
                            ) by {
                                if k < old_next.len() {
                                    assert(next_val@[k] == old_next[k]);
                                    assert(edge_ok(
                                        grules,
                                        old_sets,
                                        index as int,
                                        old_next[k].0,
                                        old_next[k].1 as int,
                                    ));
                                    let tk = next_val@[k].1 as int;
                                    assert(self.sets@[tk] == old_sets[tk]);
                                    assert(self.sets@[index as int] == old_sets[index as int]);
                                } else {
                                    assert(next_val@[k] == (transition_char, target));
                                    assert(self.sets@[target as int].iview()
                                        == new_itemset.iview());
                                    assert(self.sets@[index as int].iview() == cur.iview());
                                }
                            }
                            assert forall|k1: int, k2: int|
                                0 <= k1 < next_val@.len() && 0 <= k2 < next_val@.len() && (
                                #[trigger] next_val@[k1]).0 == (
                            #[trigger] next_val@[k2]).0 implies k1 == k2 by {
                                if k1 < old_next.len() && k2 == old_next.len() as int {
                                    let j = choose|j: int|
                                        0 <= j < si && cur.symbols@[j] == (
                                        #[trigger] next_val@[k1]).0;
                                    assert(cur.symbols@[si as int] == transition_char);
                                    assert(false);
                                } else if k2 < old_next.len() && k1 == old_next.len() as int {
                                    let j = choose|j: int|
                                        0 <= j < si && cur.symbols@[j] == (
                                        #[trigger] next_val@[k2]).0;
                                    assert(cur.symbols@[si as int] == transition_char);
                                    assert(false);
                                }
                            }
                            assert forall|s: int, k: int|
                                0 <= s < index && 0 <= k < self.ordering_map@[s]@.len() implies edge_ok(
                                grules,
                                self.sets@,
                                s,
                                (#[trigger] self.ordering_map@[s]@[k]).0,
                                self.ordering_map@[s]@[k].1 as int,
                            ) by {
                                assert(self.ordering_map@ == old_om);
                                assert(self.ordering_map@[s] == old_om[s]);
                                assert(edge_ok(
                                    grules,
                                    old_sets,
                                    s,
                                    old_om[s]@[k].0,
                                    old_om[s]@[k].1 as int,
                                ));
                                let t = self.ordering_map@[s]@[k].1 as int;
                                assert(self.sets@[t] == old_sets[t]);
                                assert(self.sets@[s] == old_sets[s]);
                            }
                            assert forall|s: int, c: MixedChar|
                                0 <= s < index && #[trigger] syms_of(
                                    grules,
                                    self.sets@[s].iview(),
                                ).contains(c) implies exists|k: int|
                                0 <= k < self.ordering_map@[s]@.len() && (
                                #[trigger] self.ordering_map@[s]@[k]).0 == c by {
                                assert(self.sets@[s] == old_sets[s]);
                                assert(syms_of(grules, old_sets[s].iview()).contains(c));
                                assert(self.ordering_map@ == old_om);
                                let k0 = choose|k0: int|
                                    0 <= k0 < old_om[s]@.len() && (#[trigger] old_om[s]@[k0]).0
                                        == c;
                                assert(self.ordering_map@[s] == old_om[s]);
                                assert(0 <= k0 < self.ordering_map@[s]@.len()
                                    && self.ordering_map@[s]@[k0].0 == c);
                            }
                            assert(cur.iview() == self.sets@[index as int].iview()) by {
                                assert(self.sets@[index as int] == old_sets[index as int]);
                            }
                            let rel_old = ext_edge(old_om, old_next, index as int);
                            let rel_new = ext_edge(
                                self.ordering_map@,
                                next_val@,
                                index as int,
                            );
                            assert(self.ordering_map@ == old_om);
                            assert forall|x: int, y: int| #[trigger] rel_old(x, y) implies
                                #[trigger] rel_new(x, y) by {
                                if !om_edge(old_om)(x, y) {
                                    let k = choose|k: int|
                                        0 <= k < old_next.len() && (#[trigger] old_next[k]).1
                                            as int == y;
                                    assert(next_val@[k] == old_next[k]);
                                }
                            }
                            assert forall|t: int|
                                0 <= t < self.sets@.len() implies #[trigger] reaches(
                                rel_new,
                                0,
                                t,
                            ) by {
                                if t < old_sets.len() {
                                    assert(reaches(rel_old, 0, t));
                                    crate::first_follow::lemma_reaches_mono(
                                        rel_old,
                                        rel_new,
                                        0int,
                                        t,
                                    );
                                } else {
                                    assert(t == target as int);
                                    assert(reaches(rel_old, 0, index as int));
                                    crate::first_follow::lemma_reaches_mono(
                                        rel_old,
                                        rel_new,
                                        0int,
                                        index as int,
                                    );
                                    assert(rel_new(index as int, target as int)) by {
                                        assert(next_val@.last() == (transition_char, target));
                                        assert(next_val@[next_val@.len() - 1].1 as int == target as int);
                                    }
                                    crate::reach::lemma_reach_step(
                                        rel_new,
                                        0int,
                                        index as int,
                                        target as int,
                                    );
                                }
                            }
                        }
                    },
                    None => {},
                }
                proof {
                    assert forall|j: int|
                        0 <= j < si + 1 && shift_items(
                            grules,
                            cur.iview(),
                            #[trigger] cur.symbols@[j],
                        ) != Set::<Item>::empty() implies exists|k: int|
                        0 <= k < next_val@.len() && (#[trigger] next_val@[k]).0
                            == cur.symbols@[j] by {
                        if j < si {
                            let k = choose|k: int|
                                0 <= k < old_next.len() && (#[trigger] old_next[k]).0
                                    == cur.symbols@[j];
                            assert(next_val@[k] == old_next[k]);
                        } else {
                            assert(cur.symbols@[j] == transition_char);
                            assert(next_val@.last().0 == transition_char);
                        }
                    }
                    assert forall|k: int|
                        0 <= k < next_val@.len() implies exists|j: int|
                        0 <= j < si + 1 && cur.symbols@[j] == (#[trigger] next_val@[k]).0 by {
                        if k < old_next.len() {
                            let j = choose|j: int|
                                0 <= j < si && cur.symbols@[j] == (#[trigger] old_next[k]).0;
                            assert(next_val@[k] == old_next[k]);
                        } else {
                            assert(next_val@[k].0 == cur.symbols@[si as int]);
                        }
                    }
                }
                si = si + 1;
            }
            let ghost pre_om = self.ordering_map@;
            proof {
                assert(forall|t: int|
                    0 <= t < self.sets@.len() ==> #[trigger] reaches(
                        ext_edge(pre_om, next_val@, index as int),
                        0,
                        t,
                    ));
            }
            self.ordering_map.push(next_val);
            proof {
                let gi = index as int;
                let rel_ext = ext_edge(pre_om, next_val@, gi);
                let rel_om = om_edge(self.ordering_map@);
                assert forall|x: int, y: int| #[trigger] rel_ext(x, y) implies #[trigger] rel_om(
                    x,
                    y,
                ) by {
                    if om_edge(pre_om)(x, y) {
                        let k = choose|k: int|
                            0 <= k < pre_om[x]@.len() && (#[trigger] pre_om[x]@[k]).1 as int == y;
                        assert(self.ordering_map@[x] == pre_om[x]);
                    } else {
                        assert(x == gi);
                        assert(self.ordering_map@[gi] == next_val);
                        let k = choose|k: int|
                            0 <= k < next_val@.len() && (#[trigger] next_val@[k]).1 as int == y;
                    }
                }
                assert forall|t: int|
                    0 <= t < self.sets@.len() implies #[trigger] reaches(
                    om_edge(self.ordering_map@),
                    0,
                    t,
                ) by {
                    assert(reaches(rel_ext, 0, t));
                    crate::first_follow::lemma_reaches_mono(rel_ext, rel_om, 0int, t);
                }
                assert forall|s: int, k: int|
                    0 <= s < gi + 1 && 0 <= k < self.ordering_map@[s]@.len() implies edge_ok(
                    grules,
                    self.sets@,
                    s,
                    (#[trigger] self.ordering_map@[s]@[k]).0,
                    self.ordering_map@[s]@[k].1 as int,
                ) by {
                    if s == gi {
                        assert(self.ordering_map@[s] == self.ordering_map@.last());
                    } else {
                        assert(self.ordering_map@[s] == pre_om[s]);
                    }
                }
                assert forall|s: int, k1: int, k2: int|
                    0 <= s < gi + 1 && 0 <= k1 < self.ordering_map@[s]@.len() && 0 <= k2
                        < self.ordering_map@[s]@.len() && (#[trigger] self.ordering_map@[s]@[k1]).0
                        == (#[trigger] self.ordering_map@[s]@[k2]).0 implies k1 == k2 by {
                    if s == gi {
                        assert(self.ordering_map@[s] == self.ordering_map@.last());
                    } else {
                        assert(self.ordering_map@[s] == pre_om[s]);
                    }
                }
                assert forall|s: int, c: MixedChar|
                    0 <= s < gi + 1 && #[trigger] syms_of(
                        grules,
                        self.sets@[s].iview(),
                    ).contains(c) implies exists|k: int|
                    0 <= k < self.ordering_map@[s]@.len() && (
                    #[trigger] self.ordering_map@[s]@[k]).0 == c by {
                    if s < gi {
                        assert(self.ordering_map@[s] == pre_om[s]);
                        let k0 = choose|k0: int|
                            0 <= k0 < pre_om[s]@.len() && (#[trigger] pre_om[s]@[k0]).0 == c;
                        assert(0 <= k0 < self.ordering_map@[s]@.len() && self.ordering_map@[s]@[k0].0
                            == c);
                    }
                    if s == gi {
                        let it = choose|it: Item|
                            #[trigger] self.sets@[s].iview().contains(it) && sym_at(grules, it)
                                == Some(c);
                        assert(cur.iview().contains(it));
                        assert(syms_of(grules, cur.iview()).contains(c));
                        assert(cur.sview().contains(c));
                        assert(cur.symbols@.contains(c));
                        let j = choose|j: int| 0 <= j < cur.symbols@.len() && cur.symbols@[j] == c;
                        assert(shift_items(grules, cur.iview(), c) != Set::<Item>::empty()) by {
                            assert(shift_items(grules, cur.iview(), c).contains(spec_shift(it)));
                        }
                        assert(self.ordering_map@[s] == self.ordering_map@.last());
                    }
                }
            }
            index = index + 1;
        }
        let mut graph_back = rule_graph;
        core::mem::swap(&mut self.rules, &mut graph_back.rules);
    }
}

/// A state's core: its kernel items with the lookahead stripped.
pub open spec fn core_view(items: Set<Item>) -> Set<(usize, usize)> {
    Set::new(
        |p: (usize, usize)|
            exists|it: Item|
                #[trigger] items.contains(it) && it.kernel && it.rule_number == p.0 && it.dot
                    == p.1,
    )
}

/// True when the list holds a kernel item at the given rule and dot.
fn has_core(list: &Vec<Item>, rule: usize, dot: usize) -> (r: bool)
    ensures
        r == exists|j: int|
            0 <= j < list@.len() && (#[trigger] list@[j]).kernel && list@[j].rule_number == rule
                && list@[j].dot == dot,
{
    let mut j: usize = 0;
    while j < list.len()
        invariant
            j <= list@.len(),
            forall|l: int|
                0 <= l < j ==> !((#[trigger] list@[l]).kernel && list@[l].rule_number == rule
                    && list@[l].dot == dot),
        decreases list@.len() - j,
    {
        let it = list[j];
        if it.kernel && it.rule_number == rule && it.dot == dot {
            return true;
        }
        j = j + 1;
    }
    false
}

/// True when two states have the same core.
#[verifier::loop_isolation(false)]
pub fn core_eq(a: &ItemSet, b: &ItemSet) -> (r: bool)
    ensures
        r == (core_view(a.iview()) == core_view(b.iview())),
{
    let mut i: usize = 0;
    while i < a.items.len()
        invariant
            i <= a.items@.len(),
            forall|l: int|
                0 <= l < i && (#[trigger] a.items@[l]).kernel ==> core_view(b.iview()).contains(
                    (a.items@[l].rule_number, a.items@[l].dot),
                ),
        decreases a.items@.len() - i,
    {
        let it = a.items[i];
        if it.kernel {
            if has_core(&b.items, it.rule_number, it.dot) {
                proof {
                    let j = choose|j: int|
                        0 <= j < b.items@.len() && (#[trigger] b.items@[j]).kernel
                            && b.items@[j].rule_number == it.rule_number && b.items@[j].dot
                            == it.dot;
                    assert(b.items@.contains(b.items@[j]));
                    assert(b.iview().contains(b.items@[j]));
                    assert(core_view(b.iview()).contains((it.rule_number, it.dot)));
                }
            }
            if !has_core(&b.items, it.rule_number, it.dot) {
                proof {
                    assert(a.items@.contains(it));
                    assert(a.iview().contains(it));
                    assert(core_view(a.iview()).contains((it.rule_number, it.dot)));
                    assert(!core_view(b.iview()).contains((it.rule_number, it.dot))) by {
                        if core_view(b.iview()).contains((it.rule_number, it.dot)) {
                            let o = choose|o: Item|
                                #[trigger] b.iview().contains(o) && o.kernel && o.rule_number
                                    == it.rule_number && o.dot == it.dot;
                            let j = choose|j: int|
                                0 <= j < b.items@.len() && b.items@[j] == o;
                            assert(false);
                        }
                    }
                }
                return false;
            }
        }
        i = i + 1;
    }
    let mut j: usize = 0;
    while j < b.items.len()
        invariant
            j <= b.items@.len(),
            forall|l: int|
                0 <= l < a.items@.len() && (#[trigger] a.items@[l]).kernel ==> core_view(
                    b.iview(),
                ).contains((a.items@[l].rule_number, a.items@[l].dot)),
            forall|l: int|
                0 <= l < j && (#[trigger] b.items@[l]).kernel ==> core_view(a.iview()).contains(
                    (b.items@[l].rule_number, b.items@[l].dot),
                ),
        decreases b.items@.len() - j,
    {
        let it = b.items[j];
        if it.kernel {
            if has_core(&a.items, it.rule_number, it.dot) {
                proof {
                    let l = choose|l: int|
                        0 <= l < a.items@.len() && (#[trigger] a.items@[l]).kernel
                            && a.items@[l].rule_number == it.rule_number && a.items@[l].dot
                            == it.dot;
                    assert(a.items@.contains(a.items@[l]));
                    assert(a.iview().contains(a.items@[l]));
                    assert(core_view(a.iview()).contains((it.rule_number, it.dot)));
                }
            }
            if !has_core(&a.items, it.rule_number, it.dot) {
                proof {
                    assert(b.items@.contains(it));
                    assert(b.iview().contains(it));
                    assert(core_view(b.iview()).contains((it.rule_number, it.dot)));
                    assert(!core_view(a.iview()).contains((it.rule_number, it.dot))) by {
                        if core_view(a.iview()).contains((it.rule_number, it.dot)) {
                            let o = choose|o: Item|
                                #[trigger] a.iview().contains(o) && o.kernel && o.rule_number
                                    == it.rule_number && o.dot == it.dot;
                            let l = choose|l: int|
                                0 <= l < a.items@.len() && a.items@[l] == o;
                            assert(false);
                        }
                    }
                }
                return false;
            }
        }
        j = j + 1;
    }
    proof {
        assert(core_view(a.iview()) =~= core_view(b.iview())) by {
            assert forall|p: (usize, usize)| core_view(a.iview()).contains(p) implies core_view(
                b.iview(),
            ).contains(p) by {
                let it = choose|it: Item|
                    #[trigger] a.iview().contains(it) && it.kernel && it.rule_number == p.0
                        && it.dot == p.1;
                let l = choose|l: int| 0 <= l < a.items@.len() && a.items@[l] == it;
            }
            assert forall|p: (usize, usize)| core_view(b.iview()).contains(p) implies core_view(
                a.iview(),
            ).contains(p) by {
                let it = choose|it: Item|
                    #[trigger] b.iview().contains(it) && it.kernel && it.rule_number == p.0
                        && it.dot == p.1;
                let l = choose|l: int| 0 <= l < b.items@.len() && b.items@[l] == it;
            }
        }
    }
    true
}

/// A merged state's core is the union of the cores it absorbed.
proof fn lemma_core_union(a: Set<Item>, b: Set<Item>)
    ensures
        core_view(a.union(b)) == core_view(a).union(core_view(b)),
{
    assert(core_view(a.union(b)) =~= core_view(a).union(core_view(b))) by {
        assert forall|p: (usize, usize)| core_view(a.union(b)).contains(p) implies core_view(
            a,
        ).union(core_view(b)).contains(p) by {
            let it = choose|it: Item|
                #[trigger] a.union(b).contains(it) && it.kernel && it.rule_number == p.0 && it.dot
                    == p.1;
        }
        assert forall|p: (usize, usize)| core_view(a).union(core_view(b)).contains(
            p,
        ) implies core_view(a.union(b)).contains(p) by {
            if core_view(a).contains(p) {
                let it = choose|it: Item|
                    #[trigger] a.contains(it) && it.kernel && it.rule_number == p.0 && it.dot
                        == p.1;
                assert(a.union(b).contains(it));
            } else {
                let it = choose|it: Item|
                    #[trigger] b.contains(it) && it.kernel && it.rule_number == p.0 && it.dot
                        == p.1;
                assert(a.union(b).contains(it));
            }
        }
    }
}


/// Packaging of the merge bookkeeping: the translate/keep/new_index/owners
/// maps built by the renumbering pass witness the LALR relation between the
/// canonical automaton and the surviving states and rows.
proof fn lemma_lalr_final(
    rules: Seq<Rule>,
    csets: Seq<ItemSet>,
    com: Seq<Vec<(MixedChar, usize)>>,
    gsets: Seq<ItemSet>,
    gom: Seq<Vec<(MixedChar, usize)>>,
    translate: Seq<usize>,
    keep: Seq<bool>,
    new_index: Seq<usize>,
    owners: Seq<usize>,
    n: int,
)
    requires
        explore_rel(rules, csets, com),
        n == csets.len(),
        n == com.len(),
        translate.len() == n,
        keep.len() == n,
        new_index.len() == n,
        forall|l: int| 0 <= l < n ==> (#[trigger] translate[l]) <= l,
        forall|l: int|
            0 <= l < n ==> core_view(csets[(#[trigger] translate[l]) as int].iview()) == core_view(
                csets[l].iview(),
            ),
        forall|l: int| 0 <= l < n ==> (#[trigger] keep[translate[l] as int]),
        owners.len() == gsets.len(),
        gsets.len() == gom.len(),
        gsets.len() <= n,
        forall|m: int|
            0 <= m < owners.len() ==> (#[trigger] owners[m]) < n && keep[owners[m] as int]
                && new_index[owners[m] as int] as int == m,
        forall|l: int| 0 <= l < n && keep[l] ==> (#[trigger] new_index[l]) < gsets.len(),
        forall|l: int|
            0 <= l < n && keep[l] ==> owners[(#[trigger] new_index[l]) as int] as int == l,
        forall|l: int|
            0 <= l < n && keep[l] ==> core_view(
                gsets[(#[trigger] new_index[l]) as int].iview(),
            ) == core_view(csets[l].iview()) && csets[l].iview().subset_of(
                gsets[new_index[l] as int].iview(),
            ),
        forall|m: int, j: int|
            0 <= m < owners.len() && 0 <= j < n && core_view((#[trigger] csets[j]).iview())
                == core_view(csets[owners[m] as int].iview()) ==> csets[j].iview().subset_of(
                (#[trigger] gsets[m]).iview(),
            ),
        forall|s: int|
            0 <= s < gom.len() ==> (owners[s] as int) < n && (#[trigger] gom[s])@.len() == com[
            owners[s] as int]@.len(),
        forall|s: int, k: int|
            0 <= s < gom.len() && 0 <= k < gom[s]@.len() ==> (#[trigger] gom[s]@[k]).0 == com[
            owners[s] as int]@[k].0 && gom[s]@[k].1 as int == new_index[translate[com[
            owners[s] as int]@[k].1 as int] as int] as int,
        forall|s: int, k: int|
            0 <= s < gom.len() && 0 <= k < gom[s]@.len() ==> (#[trigger] gom[s]@[k]).1
                < gsets.len(),
    ensures
        lalr_of(rules, csets, com, gsets, gom),
{
    assert forall|i: int| 0 <= i < csets.len() implies exists|s: int|
        0 <= s < gsets.len() && core_view((#[trigger] csets[i]).iview()) == core_view(
            gsets[s].iview(),
        ) && csets[i].iview().subset_of(gsets[s].iview()) by {
        let t = translate[i] as int;
        assert(keep[t]);
        let s = new_index[t] as int;
        assert(owners[s] as int == t);
        assert(s < gsets.len());
        assert(core_view(csets[i].iview()) == core_view(csets[t].iview()));
        assert(core_view(csets[i].iview()) == core_view(csets[owners[s] as int].iview()));
        assert(csets[i].iview().subset_of(gsets[s].iview()));
        assert(core_view(gsets[s].iview()) == core_view(csets[t].iview()));
    }
    assert forall|s: int| 0 <= s < gsets.len() implies exists|i: int|
        0 <= i < csets.len() && core_view((#[trigger] gsets[s]).iview()) == core_view(
            (#[trigger] csets[i]).iview(),
        ) && csets[i].iview().subset_of(gsets[s].iview()) && gom[s]@.len() == com[i]@.len() && (
    forall|k: int|
        0 <= k < com[i]@.len() ==> (#[trigger] gom[s]@[k]).0 == com[i]@[k].0 && gom[s]@[k].1
            < gsets.len() && com[i]@[k].1 < csets.len() && core_view(
            gsets[gom[s]@[k].1 as int].iview(),
        ) == core_view(csets[com[i]@[k].1 as int].iview())) by {
        let l = owners[s] as int;
        assert(keep[l] && new_index[l] as int == s && l < n);
        assert(core_view(gsets[s].iview()) == core_view(csets[l].iview()));
        assert(csets[l].iview().subset_of(gsets[s].iview()));
        assert(gom[s]@.len() == com[l]@.len());
        assert forall|k: int|
            0 <= k < com[l]@.len() implies (#[trigger] gom[s]@[k]).0 == com[l]@[k].0 && gom[s]@[k].1
            < gsets.len() && com[l]@[k].1 < csets.len() && core_view(
            gsets[gom[s]@[k].1 as int].iview(),
        ) == core_view(csets[com[l]@[k].1 as int].iview()) by {
            assert(gom[s]@[k].0 == com[l]@[k].0);
            let tc = com[l]@[k].1;
            assert(edge_ok(rules, csets, l, (com[l]@[k]).0, tc as int));
            assert(tc < n);
            let tr = translate[tc as int] as int;
            assert(keep[tr]);
            assert(gom[s]@[k].1 as int == new_index[tr] as int);
            let nt = new_index[tr] as int;
            assert(owners[nt] as int == tr);
            assert(nt < gsets.len());
            assert(core_view(gsets[nt].iview()) == core_view(csets[tr].iview()));
            assert(core_view(csets[tr].iview()) == core_view(csets[tc as int].iview()));
        }
    }
}

/// The LALR merge of a canonical automaton: every canonical state is
/// absorbed, core and items, into some surviving state with the same core;
/// and every surviving state is a canonical state whose items absorbed its
/// core-mates and whose transition row is kept symbol for symbol, each target
/// rewritten to the surviving state carrying the target's core.
pub open spec fn lalr_of(
    rules: Seq<Rule>,
    csets: Seq<ItemSet>,
    com: Seq<Vec<(MixedChar, usize)>>,
    fsets: Seq<ItemSet>,
    fom: Seq<Vec<(MixedChar, usize)>>,
) -> bool {
    &&& fsets.len() == fom.len()
    &&& fsets.len() <= csets.len()
    &&& forall|i: int|
        0 <= i < csets.len() ==> exists|s: int|
            0 <= s < fsets.len() && core_view((#[trigger] csets[i]).iview()) == core_view(
                fsets[s].iview(),
            ) && csets[i].iview().subset_of(fsets[s].iview())
    &&& forall|s: int|
        0 <= s < fsets.len() ==> exists|i: int|
            0 <= i < csets.len() && core_view((#[trigger] fsets[s]).iview()) == core_view(
                (#[trigger] csets[i]).iview(),
            ) && csets[i].iview().subset_of(fsets[s].iview()) && fom[s]@.len() == com[i]@.len()
                && (forall|k: int|
                0 <= k < com[i]@.len() ==> (#[trigger] fom[s]@[k]).0 == com[i]@[k].0 && fom[s]@[k].1
                    < fsets.len() && com[i]@[k].1 < csets.len() && core_view(
                    fsets[fom[s]@[k].1 as int].iview(),
                ) == core_view(csets[com[i]@[k].1 as int].iview()))
}

/// The discover pass of the LALR merge: for each canonical state, the first
/// state with the same core, and whether the state survives (a state survives
/// exactly when it is its own first core-mate).
#[verifier::loop_isolation(false)]
#[verifier::rlimit(100)]
fn lalr_translate(sets: &Vec<ItemSet>) -> (r: (Vec<usize>, Vec<bool>))
    ensures
        r.0@.len() == sets@.len(),
        r.1@.len() == sets@.len(),
        forall|l: int| 0 <= l < sets@.len() ==> (#[trigger] r.0@[l]) <= l,
        forall|l: int|
            0 <= l < sets@.len() ==> core_view(sets@[(#[trigger] r.0@[l]) as int].iview())
                == core_view(sets@[l].iview()),
        forall|l: int, j: int|
            0 <= l < sets@.len() && 0 <= j < (#[trigger] r.0@[l]) ==> core_view(
                (#[trigger] sets@[j]).iview(),
            ) != core_view(sets@[l].iview()),
        forall|l: int| 0 <= l < sets@.len() ==> ((#[trigger] r.1@[l]) <==> r.0@[l] == l),
        forall|l: int| 0 <= l < sets@.len() ==> (#[trigger] r.1@[r.0@[l] as int]),
{
    let n = sets.len();
    let mut translate: Vec<usize> = Vec::new();
    let mut keep: Vec<bool> = Vec::new();
    let mut i: usize = 0;
    while i < n
        invariant
            i <= n,
            n == sets@.len(),
            translate@.len() == i,
            keep@.len() == i,
            forall|l: int| 0 <= l < i ==> (#[trigger] translate@[l]) <= l,
            forall|l: int|
                0 <= l < i ==> core_view(sets@[(#[trigger] translate@[l]) as int].iview())
                    == core_view(sets@[l].iview()),
            forall|l: int, j: int|
                0 <= l < i && 0 <= j < (#[trigger] translate@[l]) ==> core_view(
                    (#[trigger] sets@[j]).iview(),
                ) != core_view(sets@[l].iview()),
            forall|l: int| 0 <= l < i ==> ((#[trigger] keep@[l]) <==> translate@[l] == l),
        decreases n - i,
    {
        let mut t: usize = i;
        let mut j: usize = 0;
        while j < i
            invariant
                j <= i,
                i < n,
                n == sets@.len(),
                t == i,
                forall|l: int|
                    0 <= l < j ==> core_view((#[trigger] sets@[l]).iview()) != core_view(
                        sets@[i as int].iview(),
                    ),
            decreases i - j,
        {
            if core_eq(&sets[j], &sets[i]) {
                t = j;
                break ;
            }
            j = j + 1;
        }
        proof {
            if t != i {
                assert(core_view(sets@[t as int].iview()) == core_view(sets@[i as int].iview()));
            }
        }
        translate.push(t);
        keep.push(t == i);
        i = i + 1;
    }
    proof {
        assert forall|l: int| 0 <= l < sets@.len() implies (
        #[trigger] keep@[translate@[l] as int]) by {
            let t = translate@[l] as int;
            if translate@[t] != t {
                assert(core_view(sets@[translate@[t] as int].iview()) == core_view(
                    sets@[t].iview(),
                ));
                assert(translate@[t] < t);
                assert(core_view(sets@[translate@[t] as int].iview()) == core_view(
                    sets@[l].iview(),
                ));
            }
        }
    }
    (translate, keep)
}

/// The union pass of the LALR merge: each surviving state absorbs the items
/// of every state with its core; `new_index` renumbers the kept states in
/// discovery order, and the ghost owner list inverts that renumbering.
#[verifier::loop_isolation(false)]
#[verifier::rlimit(100)]
fn lalr_merge_sets(
    sets: &Vec<ItemSet>,
    rules: &Vec<Rule>,
    translate: &Vec<usize>,
    keep: &Vec<bool>,
) -> (r: (Vec<ItemSet>, Vec<usize>, Ghost<Seq<usize>>))
    requires
        translate@.len() == sets@.len(),
        keep@.len() == sets@.len(),
        forall|s: int| 0 <= s < sets@.len() ==> (#[trigger] sets@[s]).wf(rules@),
        forall|l: int| 0 <= l < sets@.len() ==> ((#[trigger] keep@[l]) <==> translate@[l] == l),
    ensures
        r.1@.len() == sets@.len(),
        r.2@.len() == r.0@.len(),
        r.0@.len() == count_kept(keep@, sets@.len() as int),
        forall|l: int|
            0 <= l < sets@.len() && keep@[l] ==> (#[trigger] r.1@[l]) < r.0@.len(),
        forall|l: int|
            0 <= l < sets@.len() && keep@[l] ==> core_view(
                r.0@[(#[trigger] r.1@[l]) as int].iview(),
            ) == core_view(sets@[l].iview()) && sets@[l].iview().subset_of(
                r.0@[r.1@[l] as int].iview(),
            ),
        forall|m: int|
            0 <= m < r.2@.len() ==> (#[trigger] r.2@[m]) < sets@.len() && keep@[r.2@[m] as int]
                && r.1@[r.2@[m] as int] as int == m,
        forall|m: int, j: int|
            0 <= m < r.2@.len() && 0 <= j < sets@.len() && core_view(
                (#[trigger] sets@[j]).iview(),
            ) == core_view(sets@[r.2@[m] as int].iview()) ==> sets@[j].iview().subset_of(
                (#[trigger] r.0@[m]).iview(),
            ),
        forall|l: int|
            0 <= l < sets@.len() && keep@[l] ==> r.2@[(#[trigger] r.1@[l]) as int] as int == l,
        forall|l: int|
            0 <= l < sets@.len() && keep@[l] ==> (#[trigger] r.1@[l]) as int == count_kept(
                keep@,
                l,
            ),
        forall|m: int| 0 <= m < r.0@.len() ==> (#[trigger] r.0@[m]).wf(rules@),
{
    let n = sets.len();
    let mut new_sets: Vec<ItemSet> = Vec::new();
    let mut new_index: Vec<usize> = Vec::new();
    let ghost mut owners: Seq<usize> = Seq::empty();
    let mut i2: usize = 0;
    while i2 < n
        invariant
            i2 <= n,
            n == sets@.len(),
            translate@.len() == n,
            keep@.len() == n,
            forall|s: int| 0 <= s < n ==> (#[trigger] sets@[s]).wf(rules@),
            forall|l: int| 0 <= l < n ==> ((#[trigger] keep@[l]) <==> translate@[l] == l),
            new_index@.len() == i2,
            new_sets@.len() <= i2,
            forall|l: int|
                0 <= l < i2 && keep@[l] ==> (#[trigger] new_index@[l]) < new_sets@.len(),
            forall|l: int|
                0 <= l < i2 && keep@[l] ==> core_view(
                    new_sets@[(#[trigger] new_index@[l]) as int].iview(),
                ) == core_view(sets@[l].iview()) && sets@[l].iview().subset_of(
                    new_sets@[new_index@[l] as int].iview(),
                ),
            owners.len() == new_sets@.len(),
            forall|m: int|
                0 <= m < owners.len() ==> (#[trigger] owners[m]) < i2 && keep@[owners[m] as int]
                    && new_index@[owners[m] as int] as int == m,
            forall|m: int, j: int|
                0 <= m < owners.len() && 0 <= j < n && core_view((#[trigger] sets@[j]).iview())
                    == core_view(sets@[owners[m] as int].iview()) ==> sets@[j].iview().subset_of(
                    (#[trigger] new_sets@[m]).iview(),
                ),
            forall|l: int|
                0 <= l < i2 && keep@[l] ==> owners[(#[trigger] new_index@[l]) as int] as int == l,
            forall|l: int|
                0 <= l < i2 && keep@[l] ==> (#[trigger] new_index@[l]) as int == count_kept(
                    keep@,
                    l,
                ),
            forall|m: int| 0 <= m < new_sets@.len() ==> (#[trigger] new_sets@[m]).wf(rules@),
            new_sets@.len() == count_kept(keep@, i2 as int),
        decreases n - i2,
    {
        let ghost pre_sets2 = new_sets@;
        let ghost pre_index2 = new_index@;
        if keep[i2] {
            let mut merged = sets[i2].duplicate();
            proof {
                assert(merged.iview() == sets@[i2 as int].iview());
                assert(merged.wf(rules@)) by {
                    assert(sets@[i2 as int].wf(rules@));
                }
            }
            let mut j2: usize = 0;
            while j2 < n
                invariant
                    j2 <= n,
                    i2 < n,
                    n == sets@.len(),
                    forall|s: int| 0 <= s < n ==> (#[trigger] sets@[s]).wf(rules@),
                    core_view(merged.iview()) == core_view(sets@[i2 as int].iview()),
                    sets@[i2 as int].iview().subset_of(merged.iview()),
                    forall|j: int|
                        0 <= j < j2 && core_view((#[trigger] sets@[j]).iview()) == core_view(
                            sets@[i2 as int].iview(),
                        ) ==> sets@[j].iview().subset_of(merged.iview()),
                    merged.wf(rules@),
                decreases n - j2,
            {
                let ghost before_merge = merged;
                if j2 != i2 && core_eq(&sets[j2], &sets[i2]) {
                    let ghost pre = merged;
                    let absorbed = sets[j2].duplicate();
                    proof {
                        assert(absorbed.iview() == sets@[j2 as int].iview());
                    }
                    merged.merge(absorbed);
                    proof {
                        lemma_core_union(pre.iview(), sets@[j2 as int].iview());
                        assert(core_view(merged.iview()) =~= core_view(sets@[i2 as int].iview()));
                        assert(merged.wf(rules@)) by {
                            assert(sets@[j2 as int].wf(rules@));
                            assert forall|it: Item| #[trigger]
                                merged.iview().contains(it) implies item_wf(rules@, it) by {
                                if pre.iview().contains(it) {
                                } else {
                                    assert(sets@[j2 as int].iview().contains(it));
                                }
                            }
                        }
                    }
                }
                proof {
                    assert forall|j: int|
                        0 <= j < j2 + 1 && core_view((#[trigger] sets@[j]).iview()) == core_view(
                            sets@[i2 as int].iview(),
                        ) implies sets@[j].iview().subset_of(merged.iview()) by {
                        if j < j2 {
                            assert(sets@[j].iview().subset_of(before_merge.iview()));
                            assert(before_merge.iview().subset_of(merged.iview()));
                        } else {
                            if j == i2 {
                                assert(sets@[i2 as int].iview().subset_of(merged.iview()));
                            } else {
                                assert(core_view(sets@[j].iview()) == core_view(
                                    sets@[i2 as int].iview(),
                                ));
                                assert(sets@[j].iview().subset_of(merged.iview()));
                            }
                        }
                    }
                }
                j2 = j2 + 1;
            }
            let ghost pre_owners = owners;
            let ghost final_merged = merged;
            new_index.push(new_sets.len());
            new_sets.push(merged);
            proof {
                lemma_count_kept_step(keep@, i2 as int);
                owners = owners.push(i2);
                assert forall|m: int|
                    0 <= m < owners.len() implies (#[trigger] owners[m]) < i2 + 1 && keep@[
                    owners[m] as int] && new_index@[owners[m] as int] as int == m by {
                    if m < pre_sets2.len() {
                        assert(owners[m] == owners.drop_last()[m]);
                        assert(new_index@[owners[m] as int] == pre_index2[owners[m] as int]);
                    } else {
                        assert(owners[m] == i2);
                        assert(new_index@[i2 as int] as int == m);
                    }
                }
                assert forall|m: int, j: int|
                    0 <= m < owners.len() && 0 <= j < n && core_view((#[trigger] sets@[j]).iview())
                        == core_view(sets@[owners[m] as int].iview()) implies sets@[j].iview()
                    .subset_of((#[trigger] new_sets@[m]).iview()) by {
                    if m < pre_sets2.len() {
                        assert(owners[m] == pre_owners[m]);
                        assert(new_sets@[m] == pre_sets2[m]);
                    } else {
                        assert(owners[m] == i2);
                        assert(new_sets@[m] == final_merged);
                        assert(sets@[j].iview().subset_of(final_merged.iview()));
                    }
                }
                assert forall|l: int|
                    0 <= l < i2 + 1 && keep@[l] implies owners[(
                #[trigger] new_index@[l]) as int] as int == l by {
                    if l < i2 {
                        assert(new_index@[l] == pre_index2[l]);
                        assert(owners[new_index@[l] as int] == pre_owners[new_index@[l] as int]);
                    } else {
                        assert(new_index@[l] as int == pre_sets2.len());
                        assert(owners[pre_sets2.len() as int] == i2);
                    }
                }
                assert forall|l: int|
                    0 <= l < i2 + 1 && keep@[l] implies (#[trigger] new_index@[l]) as int
                    == count_kept(keep@, l) by {
                    if l < i2 {
                        assert(new_index@[l] == pre_index2[l]);
                    } else {
                        assert(new_index@[l] as int == pre_sets2.len());
                    }
                }
            }
        } else {
            proof {
                lemma_count_kept_step(keep@, i2 as int);
            }
            new_index.push(0);
            proof {
                assert forall|m: int|
                    0 <= m < owners.len() implies (#[trigger] owners[m]) < i2 + 1 && keep@[
                    owners[m] as int] && new_index@[owners[m] as int] as int == m by {
                    assert(new_index@[owners[m] as int] == pre_index2[owners[m] as int]);
                }
            }
        }
        i2 = i2 + 1;
    }
    (new_sets, new_index, Ghost(owners))
}

/// The renumbering pass of the LALR merge: the rows of the merged-away
/// states are dropped, and each surviving state keeps its own row with every
/// target rewritten through the translation.
#[verifier::loop_isolation(false)]
#[verifier::rlimit(100)]
fn lalr_rows(
    om: &Vec<Vec<(MixedChar, usize)>>,
    translate: &Vec<usize>,
    keep: &Vec<bool>,
    new_index: &Vec<usize>,
    Ghost(owners): Ghost<Seq<usize>>,
    nkept: usize,
    Ghost(rules): Ghost<Seq<Rule>>,
    Ghost(csets): Ghost<Seq<ItemSet>>,
) -> (r: Vec<Vec<(MixedChar, usize)>>)
    requires
        explore_rel(rules, csets, om@),
        csets.len() == om@.len(),
        translate@.len() == om@.len(),
        keep@.len() == om@.len(),
        new_index@.len() == om@.len(),
        nkept == count_kept(keep@, om@.len() as int),
        owners.len() == nkept,
        forall|l: int| 0 <= l < om@.len() ==> (#[trigger] translate@[l]) <= l,
        forall|l: int| 0 <= l < om@.len() ==> (#[trigger] keep@[translate@[l] as int]),
        forall|l: int| 0 <= l < om@.len() && keep@[l] ==> (#[trigger] new_index@[l]) < nkept,
        forall|l: int|
            0 <= l < om@.len() && keep@[l] ==> (#[trigger] new_index@[l]) as int == count_kept(
                keep@,
                l,
            ),
        forall|l: int|
            0 <= l < om@.len() && keep@[l] ==> owners[(#[trigger] new_index@[l]) as int] as int
                == l,
        forall|m: int|
            0 <= m < owners.len() ==> (#[trigger] owners[m]) < om@.len() && keep@[owners[m] as int]
                && new_index@[owners[m] as int] as int == m,
    ensures
        r@.len() == nkept,
        forall|s: int|
            0 <= s < r@.len() ==> (owners[s] as int) < om@.len() && (#[trigger] r@[s])@.len()
                == om@[owners[s] as int]@.len(),
        forall|s: int, k: int|
            0 <= s < r@.len() && 0 <= k < r@[s]@.len() ==> (#[trigger] r@[s]@[k]).0 == om@[
            owners[s] as int]@[k].0 && r@[s]@[k].1 as int == new_index@[translate@[om@[
            owners[s] as int]@[k].1 as int] as int] as int,
        forall|s: int, k: int|
            0 <= s < r@.len() && 0 <= k < r@[s]@.len() ==> (#[trigger] r@[s]@[k]).1 < nkept,
        forall|s: int, k1: int, k2: int|
            0 <= s < r@.len() && 0 <= k1 < r@[s]@.len() && 0 <= k2 < r@[s]@.len() && (
            #[trigger] r@[s]@[k1]).0 == (#[trigger] r@[s]@[k2]).0 ==> k1 == k2,
{
    let n = om.len();
    let mut new_om: Vec<Vec<(MixedChar, usize)>> = Vec::new();
    let mut i3: usize = 0;
    while i3 < n
        invariant
            i3 <= n,
            n == om@.len(),
            n == csets.len(),
            explore_rel(rules, csets, om@),
            translate@.len() == n,
            keep@.len() == n,
            new_index@.len() == n,
            owners.len() == nkept,
            nkept == count_kept(keep@, n as int),
            forall|l: int| 0 <= l < n ==> (#[trigger] translate@[l]) <= l,
            forall|l: int| 0 <= l < n ==> (#[trigger] keep@[translate@[l] as int]),
            forall|l: int| 0 <= l < n && keep@[l] ==> (#[trigger] new_index@[l]) < nkept,
            forall|l: int|
                0 <= l < n && keep@[l] ==> (#[trigger] new_index@[l]) as int == count_kept(
                    keep@,
                    l,
                ),
            forall|l: int|
                0 <= l < n && keep@[l] ==> owners[(#[trigger] new_index@[l]) as int] as int == l,
            forall|m: int|
                0 <= m < owners.len() ==> (#[trigger] owners[m]) < n && keep@[owners[m] as int]
                    && new_index@[owners[m] as int] as int == m,
            new_om@.len() <= nkept,
            forall|s: int|
                0 <= s < new_om@.len() ==> (owners[s] as int) < n && (
                #[trigger] new_om@[s])@.len() == om@[owners[s] as int]@.len(),
            forall|s: int, k: int|
                0 <= s < new_om@.len() && 0 <= k < new_om@[s]@.len() ==> (
                #[trigger] new_om@[s]@[k]).0 == om@[owners[s] as int]@[k].0 && new_om@[s]@[k].1
                    as int == new_index@[translate@[om@[owners[s] as int]@[k].1 as int] as int] as int,
            forall|s: int, k: int|
                0 <= s < new_om@.len() && 0 <= k < new_om@[s]@.len() ==> (
                #[trigger] new_om@[s]@[k]).1 < nkept,
            forall|s: int, k1: int, k2: int|
                0 <= s < new_om@.len() && 0 <= k1 < new_om@[s]@.len() && 0 <= k2
                    < new_om@[s]@.len() && (#[trigger] new_om@[s]@[k1]).0 == (
                #[trigger] new_om@[s]@[k2]).0 ==> k1 == k2,
            new_om@.len() == count_kept(keep@, i3 as int),
        decreases n - i3,
    {
        if keep[i3] {
            let row = &om[i3];
            let mut new_row: Vec<(MixedChar, usize)> = Vec::new();
            let mut k: usize = 0;
            while k < row.len()
                invariant
                    k <= row@.len(),
                    i3 < n,
                    row@ == om@[i3 as int]@,
                    new_row@.len() == k,
                    forall|k2: int|
                        0 <= k2 < k ==> (#[trigger] new_row@[k2]).0 == om@[i3 as int]@[k2].0,
                    forall|k2: int| 0 <= k2 < k ==> (#[trigger] new_row@[k2]).1 < nkept,
                    forall|k2: int|
                        0 <= k2 < k ==> (#[trigger] new_row@[k2]).1 as int == new_index@[translate@[
                        om@[i3 as int]@[k2].1 as int] as int] as int,
                decreases row@.len() - k,
            {
                let (c, old_target) = row[k];
                proof {
                    assert(edge_ok(rules, csets, i3 as int, c, old_target as int)) by {
                        assert(om@[i3 as int]@[k as int] == (c, old_target));
                    }
                    assert(old_target < n);
                    assert(translate@[old_target as int] <= old_target);
                    assert(keep@[translate@[old_target as int] as int]);
                }
                let tr = translate[old_target];
                let nt = new_index[tr];
                new_row.push((c, nt));
                k = k + 1;
            }
            let ghost om_pre = new_om@;
            new_om.push(new_row);
            proof {
                lemma_count_kept_step(keep@, i3 as int);
                lemma_count_kept_mono(keep@, i3 + 1, n as int);
                assert(new_om@.len() <= nkept);
                assert forall|s: int|
                    0 <= s < new_om@.len() implies (owners[s] as int) < n && (
                #[trigger] new_om@[s])@.len() == om@[owners[s] as int]@.len() by {
                    if s < om_pre.len() {
                        assert(new_om@[s] == om_pre[s]);
                    } else {
                        assert(new_om@[s] == new_row);
                        assert(s == count_kept(keep@, i3 as int));
                        assert(new_index@[i3 as int] as int == s);
                        assert(owners[s] as int == i3);
                    }
                }
                assert forall|s: int, k: int|
                    0 <= s < new_om@.len() && 0 <= k < new_om@[s]@.len() implies (
                #[trigger] new_om@[s]@[k]).0 == om@[owners[s] as int]@[k].0 && new_om@[s]@[k].1
                    as int == new_index@[translate@[om@[owners[s] as int]@[k].1 as int] as int] as int by {
                    if s < om_pre.len() {
                        assert(new_om@[s] == om_pre[s]);
                        assert(om_pre[s]@[k] == new_om@[s]@[k]);
                    } else {
                        assert(new_om@[s] == new_row);
                        assert(s == count_kept(keep@, i3 as int));
                        assert(new_index@[i3 as int] as int == s);
                        assert(owners[s] as int == i3);
                        assert(new_row@[k].0 == om@[i3 as int]@[k].0);
                        assert(new_row@[k].1 as int == new_index@[translate@[om@[i3 as int]@[k].1 as int] as int] as int);
                    }
                }
                assert forall|s: int, k1: int, k2: int|
                    0 <= s < new_om@.len() && 0 <= k1 < new_om@[s]@.len() && 0 <= k2
                        < new_om@[s]@.len() && (#[trigger] new_om@[s]@[k1]).0 == (
                #[trigger] new_om@[s]@[k2]).0 implies k1 == k2 by {
                    if s < om_pre.len() {
                        assert(new_om@[s] == om_pre[s]);
                    } else {
                        assert(new_om@[s] == new_row);
                        assert(new_row@[k1].0 == om@[i3 as int]@[k1].0);
                        assert(new_row@[k2].0 == om@[i3 as int]@[k2].0);
                    }
                }
                assert forall|s: int, k1: int|
                    0 <= s < new_om@.len() && 0 <= k1 < new_om@[s]@.len() implies (
                #[trigger] new_om@[s]@[k1]).1 < nkept by {
                    if s < om_pre.len() {
                        assert(new_om@[s] == om_pre[s]);
                    } else {
                        assert(new_om@[s] == new_row);
                    }
                }
                assert(count_kept(keep@, i3 + 1) == count_kept(keep@, i3 as int) + 1) by {
                    lemma_count_kept_step(keep@, i3 as int);
                }
            }
        } else {
            proof {
                assert(count_kept(keep@, i3 + 1) == count_kept(keep@, i3 as int)) by {
                    lemma_count_kept_step(keep@, i3 as int);
                }
            }
        }
        i3 = i3 + 1;
    }
    new_om
}

impl ItemSets {
    /// Builds the canonical LR(1) automaton and then applies the LALR merge:
    /// every state is folded into the first state with the same core (kernel
    /// items with lookahead stripped), item sets are unioned, the kept states
    /// are renumbered, and every transition is rewritten through that
    /// renumbering. The result never holds two states with one core, and
    /// relates to the canonical automaton as `lalr_of` states.
    #[verifier::loop_isolation(false)]
    #[verifier::rlimit(100)]
    pub fn generate_lalr(&mut self)
        requires
            old(self).rules@.len() >= 1,
            old(self).sets@.len() == 0,
            old(self).ordering_map@.len() == 0,
        ensures
            final(self).rules@ == old(self).rules@,
            final(self).sets@.len() == final(self).ordering_map@.len(),
            forall|s: int|
                0 <= s < final(self).sets@.len() ==> (#[trigger] final(self).sets@[s]).wf(
                    final(self).rules@,
                ),
            forall|s: int, k: int|
                0 <= s < final(self).sets@.len() && 0 <= k < final(self).ordering_map@[s]@.len()
                    ==> (#[trigger] final(self).ordering_map@[s]@[k]).1 < final(self).sets@.len(),
            forall|s: int, k1: int, k2: int|
                0 <= s < final(self).sets@.len() && 0 <= k1 < final(self).ordering_map@[s]@.len()
                    && 0 <= k2 < final(self).ordering_map@[s]@.len() && (
                #[trigger] final(self).ordering_map@[s]@[k1]).0 == (
                #[trigger] final(self).ordering_map@[s]@[k2]).0 ==> k1 == k2,
            forall|i: int, j: int|
                0 <= i < final(self).sets@.len() && 0 <= j < final(self).sets@.len() && i != j
                    ==> core_view((#[trigger] final(self).sets@[i]).iview()) != core_view(
                    (#[trigger] final(self).sets@[j]).iview(),
                ),
            exists|csets: Seq<ItemSet>, com: Seq<Vec<(MixedChar, usize)>>|
                #[trigger] explore_rel(final(self).rules@, csets, com) && lalr_of(
                    final(self).rules@,
                    csets,
                    com,
                    final(self).sets@,
                    final(self).ordering_map@,
                ),
    {
        self.generate_next();
        let ghost csets = self.sets@;
        let ghost com = self.ordering_map@;
        let ghost grules = self.rules@;
        let n = self.sets.len();
        let (translate, keep) = lalr_translate(&self.sets);
        proof {
            assert forall|s: int| 0 <= s < self.sets@.len() implies (#[trigger] self.sets@[s]).wf(
                grules,
            ) by {
                assert(state_ok(grules, csets[s]));
            }
        }
        let (new_sets, new_index, owners_g) = lalr_merge_sets(
            &self.sets,
            &self.rules,
            &translate,
            &keep,
        );
        let ghost owners = owners_g@;
        let nkept = new_sets.len();
        let new_om = lalr_rows(
            &self.ordering_map,
            &translate,
            &keep,
            &new_index,
            Ghost(owners),
            nkept,
            Ghost(grules),
            Ghost(csets),
        );
        let ghost gsets = new_sets@;
        let ghost gom = new_om@;
        proof {
            lemma_count_kept_bound(keep@, n as int);
            assert(gom.len() == gsets.len());
        }
        self.sets = new_sets;
        self.ordering_map = new_om;
        proof {
            assert(self.sets@ == gsets);
            assert(self.ordering_map@ == gom);
            assert forall|m: int| 0 <= m < self.sets@.len() implies (#[trigger] self.sets@[m]).wf(
                grules,
            ) by {
                assert(self.sets@[m] == gsets[m]);
            }
            assert forall|s: int, k: int|
                0 <= s < self.sets@.len() && 0 <= k < self.ordering_map@[s]@.len() implies (
            #[trigger] self.ordering_map@[s]@[k]).1 < self.sets@.len() by {
                assert(self.ordering_map@[s] == gom[s]);
            }
            assert forall|s: int, k1: int, k2: int|
                0 <= s < self.sets@.len() && 0 <= k1 < self.ordering_map@[s]@.len() && 0 <= k2
                    < self.ordering_map@[s]@.len() && (#[trigger] self.ordering_map@[s]@[k1]).0 == (
            #[trigger] self.ordering_map@[s]@[k2]).0 implies k1 == k2 by {
                assert(self.ordering_map@[s] == gom[s]);
            }
            assert forall|i: int, j: int|
                0 <= i < self.sets@.len() && 0 <= j < self.sets@.len() && i != j implies core_view(
                (#[trigger] self.sets@[i]).iview(),
            ) != core_view((#[trigger] self.sets@[j]).iview()) by {
                assert(gsets[i] == self.sets@[i] && gsets[j] == self.sets@[j]);
                let li = owners[i] as int;
                let lj = owners[j] as int;
                assert(keep@[li] && new_index@[li] as int == i && li < n);
                assert(keep@[lj] && new_index@[lj] as int == j && lj < n);
                assert(core_view(gsets[i].iview()) == core_view(csets[li].iview()));
                assert(core_view(gsets[j].iview()) == core_view(csets[lj].iview()));
                if li == lj {
                    assert(i == j);
                    assert(false);
                }
                if core_view(csets[li].iview()) == core_view(csets[lj].iview()) {
                    if li < lj {
                        assert(translate@[lj] == lj);
                        assert(core_view(csets[li].iview()) != core_view(csets[lj].iview()));
                    } else {
                        assert(translate@[li] == li);
                        assert(core_view(csets[lj].iview()) != core_view(csets[li].iview()));
                    }
                    assert(false);
                }
            }
            assert(self.sets@.len() <= csets.len()) by {
                lemma_count_kept_bound(keep@, n as int);
            }
            assert(explore_rel(self.rules@, csets, com));
            lemma_lalr_final(
                grules,
                csets,
                com,
                gsets,
                gom,
                translate@,
                keep@,
                new_index@,
                owners,
                n as int,
            );
            assert(lalr_of(self.rules@, csets, com, self.sets@, self.ordering_map@));
        }
    }
}

/// The number of kept states among the first `n`.
pub open spec fn count_kept(keep: Seq<bool>, n: int) -> nat
    decreases n,
{
    if n <= 0 {
        0
    } else {
        count_kept(keep, n - 1) + (if keep[n - 1] {
            1nat
        } else {
            0nat
        })
    }
}

proof fn lemma_count_kept_step(keep: Seq<bool>, n: int)
    requires
        0 <= n < keep.len(),
    ensures
        count_kept(keep, n + 1) == count_kept(keep, n) + (if keep[n] {
            1nat
        } else {
            0nat
        }),
{
}

proof fn lemma_count_kept_mono(keep: Seq<bool>, a: int, b: int)
    requires
        0 <= a <= b <= keep.len(),
    ensures
        count_kept(keep, a) <= count_kept(keep, b),
    decreases b - a,
{
    if a < b {
        lemma_count_kept_mono(keep, a, b - 1);
    }
}

proof fn lemma_count_kept_bound(keep: Seq<bool>, n: int)
    requires
        0 <= n <= keep.len(),
    ensures
        count_kept(keep, n) <= n,
    decreases n,
{
    if n > 0 {
        lemma_count_kept_bound(keep, n - 1);
    }
}

} // verus!
