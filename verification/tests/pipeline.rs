use lr_parser::first_follow::{First, Follow};
use lr_parser::itemset::ItemSets;
use lr_parser::parsing::ParsingProcess;
use lr_parser::parsing_table::{Action, Conflict, StateMachine};
use lr_parser::rule_depend::RuleGraph;
use lr_parser::syntax::{parse_rule, Rule, Terminal, Variable, END_TERMINAL};

fn rules_from(lines: &[&str]) -> Vec<Rule> {
    let mut rules = Vec::new();
    for line in lines {
        rules.push(parse_rule(line).expect("well-formed rule line"));
    }
    rules
}

fn symbol_set(terminals: &[Terminal]) -> Vec<char> {
    let mut cs: Vec<char> = terminals.iter().map(|t| t.symbol).collect();
    cs.sort();
    cs.dedup();
    cs
}

fn example_grammar() -> ItemSets {
    let mut sets = ItemSets::new('E');
    assert!(sets.add_from_string("E:E+M"));
    assert!(sets.add_from_string("E:M"));
    assert!(sets.add_from_string("M:M*P"));
    assert!(sets.add_from_string("M:P"));
    assert!(sets.add_from_string("P:n"));
    assert!(sets.add_from_string("P:(E)"));
    sets
}

fn drive(machine: &StateMachine, text: &str) -> (Option<bool>, Vec<char>) {
    let mut line: Vec<char> = text.chars().collect();
    line.push(END_TERMINAL);
    let mut parser = ParsingProcess::new(&line);
    let mut reduces: Vec<char> = Vec::new();
    for _ in 0..10000 {
        assert!(parser.can_step(machine), "table-driven step left the range");
        let rest = parser.input.get(parser.string_index);
        match machine.next_action(parser.state_index, rest) {
            Action::Accept => return (Some(true), reduces),
            Action::Reject => return (Some(false), reduces),
            Action::Reduce(v, _) => reduces.push(v.symbol),
            Action::Shift(_) => {},
        }
        parser = parser.get_next(machine).expect("a shift or reduce yields a next step");
    }
    (None, reduces)
}

#[test]
fn first_follow_construction_is_deterministic() {
    let rules = rules_from(&["A:Bc", "A:a", "B:b"]);
    let f1 = First::from_rule(&rules);
    let f2 = First::from_rule(&rules);
    let g1 = Follow::new(&f1, &rules);
    let g2 = Follow::new(&f2, &rules);
    for v in ['A', 'B'] {
        let var = Variable { symbol: v };
        assert_eq!(symbol_set(&f1.get(var)), symbol_set(&f2.get(var)));
        assert_eq!(symbol_set(&g1.get(&var)), symbol_set(&g2.get(&var)));
    }
}

#[test]
fn first_of_branching_is_union() {
    let rules = rules_from(&["A:Bc", "A:a", "B:b"]);
    let first = First::from_rule(&rules);
    let a = first.get(Variable { symbol: 'A' });
    let mut expect = first.get(Variable { symbol: 'B' });
    expect.push(Terminal { symbol: 'a' });
    assert_eq!(symbol_set(&a), symbol_set(&expect));
    assert_eq!(symbol_set(&a), vec!['a', 'b']);
}

#[test]
fn mutual_recursion_shares_group_and_first() {
    let rules = rules_from(&["A:Bx", "B:Ay"]);
    let graph = RuleGraph::new(rules_from(&["A:Bx", "B:Ay"]));
    let pos_a = graph.variables.iter().position(|v| v.symbol == 'A').unwrap();
    let pos_b = graph.variables.iter().position(|v| v.symbol == 'B').unwrap();
    let group_of = |node: usize| {
        graph
            .node_group
            .iter()
            .position(|g| g.contains(&node))
            .expect("every variable lands in a group")
    };
    assert_eq!(group_of(pos_a), group_of(pos_b));
    let first = First::from_rule(&rules);
    assert_eq!(
        symbol_set(&first.get(Variable { symbol: 'A' })),
        symbol_set(&first.get(Variable { symbol: 'B' }))
    );
}

#[test]
fn canonical_automaton_rebuild_is_identical() {
    let mut a = example_grammar();
    let mut b = example_grammar();
    a.generate_next();
    b.generate_next();
    assert_eq!(a.sets.len(), b.sets.len());
    assert_eq!(a.ordering_map.len(), b.ordering_map.len());
    for (sa, sb) in a.sets.iter().zip(b.sets.iter()) {
        assert_eq!(sa.items, sb.items);
        assert_eq!(sa.symbols, sb.symbols);
    }
    for (ra, rb) in a.ordering_map.iter().zip(b.ordering_map.iter()) {
        assert_eq!(ra, rb);
    }
}

#[test]
fn clear_keeps_the_grammar() {
    let mut sets = example_grammar();
    sets.generate_next();
    assert!(sets.sets.len() > 0);
    let n_rules = sets.rules.len();
    sets.clear();
    assert_eq!(sets.sets.len(), 0);
    assert_eq!(sets.ordering_map.len(), 0);
    assert_eq!(sets.rules.len(), n_rules);
}

#[test]
fn shift_wins_over_reduce_and_is_reported() {
    let mut sets = ItemSets::new('S');
    assert!(sets.add_from_string("S:SaS"));
    assert!(sets.add_from_string("S:b"));
    sets.generate_next();
    let (machine, conflicts) = StateMachine::from_itemset(&sets);
    let sr: Vec<&Conflict> = conflicts
        .iter()
        .filter(|c| matches!(c, Conflict::ShiftReduce(_, _, _)))
        .collect();
    assert!(!sr.is_empty(), "the grammar has a genuine shift-reduce conflict");
    for c in sr {
        if let Conflict::ShiftReduce(state, terminal, _) = c {
            match machine.next_action(*state, Some(*terminal)) {
                Action::Shift(_) => {},
                other => panic!("expected a shift at the conflicted entry, got {:?}", other),
            }
        }
    }
}

#[test]
fn bounded_derivations_round_trip() {
    let mut sets = example_grammar();
    sets.generate_next();
    let (machine, _) = StateMachine::from_itemset(&sets);
    for good in ["n", "n+n", "n*n", "(n)", "n+n*n", "(n+n)*n", "n*(n+n)"] {
        assert_eq!(drive(&machine, good).0, Some(true), "{} should be accepted", good);
    }
    for bad in ["", "+", "+n", "n+", "n)", "()", "(n", "n n", "nn+"] {
        assert_eq!(drive(&machine, bad).0, Some(false), "{} should be rejected", bad);
    }
}

#[test]
fn arithmetic_example_accepts_with_reduction_sequence() {
    let mut sets = example_grammar();
    sets.generate_next();
    let (machine, _) = StateMachine::from_itemset(&sets);
    let (verdict, reduces) = drive(&machine, "n+n*n");
    assert_eq!(verdict, Some(true));
    assert_eq!(reduces, vec!['P', 'M', 'E', 'P', 'M', 'P', 'M', 'E']);
}

#[test]
fn trailing_operator_rejects() {
    let mut sets = example_grammar();
    sets.generate_next();
    let (machine, _) = StateMachine::from_itemset(&sets);
    assert_eq!(drive(&machine, "n+").0, Some(false));
}

#[test]
fn follow_sets_of_the_example_grammar() {
    let rules = {
        let sets = example_grammar();
        sets.rules
    };
    let first = First::from_rule(&rules);
    let follows = Follow::new(&first, &rules);
    assert_eq!(symbol_set(&first.get(Variable { symbol: 'E' })), vec!['(', 'n']);
    assert_eq!(symbol_set(&first.get(Variable { symbol: 'P' })), vec!['(', 'n']);
    let follow_e = symbol_set(&follows.get(&Variable { symbol: 'E' }));
    assert_eq!(follow_e, vec!['+', ')', END_TERMINAL].into_iter().collect::<std::collections::BTreeSet<char>>().into_iter().collect::<Vec<char>>());
}

#[test]
fn rule_lines_parse_or_reject() {
    assert!(parse_rule("").is_none());
    assert!(parse_rule("a:bc").is_none());
    assert!(parse_rule("Ab").is_none());
    let epsilon = parse_rule("A:").expect("an epsilon production parses");
    assert_eq!(epsilon.clause.symbol, 'A');
    assert_eq!(epsilon.len(), 0);
    let lone = parse_rule("A").expect("a bare clause parses as epsilon");
    assert_eq!(lone.len(), 0);
    let rule = parse_rule("E:E+M").expect("a full rule parses");
    assert_eq!(rule.clause.symbol, 'E');
    assert_eq!(rule.len(), 3);
}

#[test]
fn rejected_line_leaves_grammar_unchanged() {
    let mut sets = ItemSets::new('E');
    let before = sets.rules.len();
    assert!(!sets.add_from_string("e:xy"));
    assert_eq!(sets.rules.len(), before);
}

#[test]
fn reachable_rules_follow_the_dependency_graph() {
    let graph = RuleGraph::new(rules_from(&["E:E+M", "E:M", "M:M*P", "M:P", "P:n"]));
    let seed = vec![Variable { symbol: 'M' }];
    let rules = graph.gets_rule(&seed);
    assert_eq!(rules, vec![2, 3, 4]);
    let vars = graph.gets_var(&seed);
    let mut vs: Vec<char> = vars.iter().map(|v| v.symbol).collect();
    vs.sort();
    assert_eq!(vs, vec!['M', 'P']);
}

#[test]
fn driver_snapshots_are_resumable() {
    let mut sets = example_grammar();
    sets.generate_next();
    let (machine, _) = StateMachine::from_itemset(&sets);
    let mut line: Vec<char> = "n".chars().collect();
    line.push(END_TERMINAL);
    let start = ParsingProcess::new(&line);
    assert!(start.can_step(&machine));
    let one = start.get_next(&machine).expect("the first step shifts");
    // the earlier snapshot is untouched and can be stepped again
    let one_again = start.get_next(&machine).expect("stepping again from the same snapshot");
    assert_eq!(one.state_index, one_again.state_index);
    assert_eq!(one.string_index, 1);
    assert_eq!(start.string_index, 0);
    let shot = start.display(&machine);
    assert_eq!(shot.state_index, 0);
    assert!(matches!(shot.action, Action::Shift(_)));
}

#[test]
fn lalr_merge_never_grows_the_automaton() {
    let mut canonical = example_grammar();
    canonical.generate_next();
    let mut lalr = example_grammar();
    lalr.generate_lalr();
    assert!(lalr.sets.len() <= canonical.sets.len());
    let (machine, _) = StateMachine::from_itemset(&lalr);
    assert_eq!(drive(&machine, "n+n*n").0, Some(true));
    assert_eq!(drive(&machine, "(n+n)*n").0, Some(true));
    assert_eq!(drive(&machine, "n+").0, Some(false));
}
