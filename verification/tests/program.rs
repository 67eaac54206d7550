use inet_spec::builder::ProgramBuilder;
use inet_spec::checks::{CompletenessViolation, InverseViolation};
use inet_spec::compile::clone_trees;
use inet_spec::lexer::{ctr_start, is_name_character, space};
use inet_spec::rules::Resolution;
use inet_spec::syntax;
use inet_spec::term::{AgentId, Tree, VarId};

fn same(a: &Tree, b: &Tree) -> bool {
    match (a, b) {
        (Tree::Var { id: x }, Tree::Var { id: y }) => x == y,
        (Tree::Agent { id: x, aux: xs }, Tree::Agent { id: y, aux: ys }) => {
            x == y && xs.len() == ys.len() && xs.iter().zip(ys.iter()).all(|(p, q)| same(p, q))
        }
        _ => false,
    }
}

fn same_term(a: &syntax::Tree, b: &syntax::Tree) -> bool {
    match (a, b) {
        (syntax::Tree::Var(x), syntax::Tree::Var(y)) => x == y,
        (syntax::Tree::Agent(x, xs), syntax::Tree::Agent(y, ys)) => {
            x == y
                && xs.len() == ys.len()
                && xs.iter().zip(ys.iter()).all(|(p, q)| same_term(p, q))
        }
        _ => false,
    }
}

fn term(name: &str, aux: Vec<syntax::Tree>) -> syntax::Tree {
    syntax::Tree::Agent(name.to_string(), aux)
}

fn name(n: &str) -> syntax::Tree {
    syntax::Tree::Var(n.to_string())
}

fn built(text: &str) -> ProgramBuilder<'_> {
    let mut b = ProgramBuilder::new(text);
    assert_eq!(b.build(), Ok(()));
    b.build_interaction_system();
    b
}

#[test]
fn a_new_builder_is_empty() {
    let b = ProgramBuilder::new("abc");
    assert_eq!(b.input, "abc");
    assert_eq!(b.text, vec!['a', 'b', 'c']);
    assert_eq!(b.index, 0);
    assert_eq!(b.levels.len(), 1);
    assert_eq!(b.next_agent_id, 0);
    assert!(b.def.is_empty() && b.output.is_empty());
    assert!(b.interaction_system.is_none());
    assert!(b.agent_list().is_empty());
}

#[test]
fn names_get_base_indexes_and_duals() {
    let mut b = ProgramBuilder::new("");
    let a = b.get_or_new_agent_id("A".to_string());
    let c = b.get_or_new_agent_id("C".to_string());
    assert_eq!(a, AgentId(0, false));
    assert_eq!(c, AgentId(1, false));
    assert_eq!(b.get_or_new_agent_id("A".to_string()), a);
    assert_eq!(b.get_or_new_agent_id("~A".to_string()), AgentId(0, true));
    assert_eq!(b.get_or_new_agent_id("~~A".to_string()), a);
    // A marked name declares its base name.
    assert_eq!(b.get_or_new_agent_id("~D".to_string()), AgentId(2, true));
    assert_eq!(b.get_agent_id("D"), Some(AgentId(2, false)));
    assert_eq!(b.get_agent_id("~D"), None);
    assert_eq!(b.get_agent_id("E"), None);
    assert_eq!(b.next_agent_id, 3);
    assert_eq!(b.agent_inverse(a), AgentId(0, true));
    assert_eq!(b.agent_inverse(b.agent_inverse(c)), c);
    assert_eq!(b.new_agent_id(), AgentId(3, false));
    assert_eq!(b.next_agent_id, 4);
}

#[test]
fn the_antitype_name_is_a_name_of_its_own() {
    let mut b = ProgramBuilder::new("");
    let anti = b.get_or_new_agent_id("~".to_string());
    assert_eq!(anti, AgentId(0, false));
    assert_eq!(b.get_agent_id("~"), Some(anti));
    assert_eq!(b.show_agent(anti), "~");
    assert_eq!(b.show_agent(anti.inverse()), "~~");
}

#[test]
fn agents_are_shown_by_name() {
    let mut b = ProgramBuilder::new("");
    let a = b.get_or_new_agent_id("Nat".to_string());
    assert_eq!(b.show_agent(a), "Nat");
    assert_eq!(b.show_agent(a.inverse()), "~Nat");
    assert_eq!(b.agent_scope_back.get(a.inverse()), Some(&"~Nat".to_string()));
}

#[test]
fn dual_agents_share_one_arity() {
    let mut b = ProgramBuilder::new("");
    let a = b.get_or_new_agent_id("A".to_string());
    b.set_arity(a, 2);
    assert_eq!(b.arities.get(a), Some(&2));
    assert_eq!(b.arities.get(a.inverse()), Some(&2));
    b.set_arity(a.inverse(), 5);
    assert_eq!(b.arities.get(a), Some(&5));
    assert_eq!(b.arities.get(a.inverse()), Some(&5));
}

#[test]
fn scopes_nest_and_merge() {
    let mut b = ProgramBuilder::new("");
    let a = b.get_or_new_agent_id("A".to_string());
    let x = b.get_or_new_var_id("x".to_string());
    b.enter();
    assert_eq!(b.levels.len(), 2);
    // Names of the scope around are seen from inside.
    assert_eq!(b.get_agent_id("A"), Some(a));
    assert_eq!(b.get_var_id("x"), Some(x));
    let inner = b.get_or_new_agent_id("B".to_string());
    let y = b.get_or_new_var_id("y".to_string());
    // Each scope has a net of its own: the numbers start again.
    assert_eq!(y, VarId(0));
    assert_eq!(b.get_or_new_var_id("y".to_string()), y);
    assert_eq!(b.agent_list(), vec![a, inner, a.inverse(), inner.inverse()]);
    let level = b.exit().unwrap();
    assert_eq!(b.get_agent_id("B"), None);
    assert_eq!(b.get_var_id("y"), None);
    b.merge_agents(&level.agent_scope);
    assert_eq!(b.get_agent_id("B"), Some(inner));
    assert_eq!(b.get_var_id("y"), None);
    assert_eq!(b.agent_list(), vec![a, inner, a.inverse(), inner.inverse()]);
    assert!(b.exit().is_some());
    assert!(b.exit().is_none());
}

#[test]
fn different_names_name_different_agents() {
    let text = "
A(x y) ~ B(x y) { Inner(a) = Other(a) }
C ~ ~A { Inner(b) = Third(b) }
Reduce[ { Fourth(c) = A(c c) } ]
";
    let b = built(text);
    let names = ["A", "B", "Inner", "Other", "C", "Third", "~", "::"];
    let ids: Vec<AgentId> = names.iter().map(|n| b.get_agent_id(n).unwrap()).collect();
    for i in 0..ids.len() {
        assert!(!ids[i].1);
        for j in 0..i {
            assert_ne!(ids[i].0, ids[j].0, "{} and {}", names[i], names[j]);
        }
    }
    // no agent stands twice among the agents that the checks range over
    let agents = b.agent_list();
    for i in 0..agents.len() {
        for j in 0..i {
            assert_ne!(agents[i], agents[j]);
        }
    }
    assert_eq!(agents.len() % 2, 0);
    assert!(agents.len() >= 2 * names.len());
}

#[test]
fn written_terms_become_trees() {
    let mut b = ProgramBuilder::new("");
    let t = b.tree_ast_to_rt(term(
        "Pair",
        vec![name("x"), term("~Nat", vec![]), name("y"), name("x")],
    ));
    let pair = b.get_agent_id("Pair").unwrap();
    let nat = b.get_agent_id("Nat").unwrap();
    let expected = Tree::Agent {
        id: pair,
        aux: vec![
            Tree::Var { id: VarId(0) },
            Tree::Agent { id: nat.inverse(), aux: vec![] },
            Tree::Var { id: VarId(1) },
            Tree::Var { id: VarId(0) },
        ],
    };
    assert!(same(&t, &expected));
    assert_eq!(b.arities.get(pair), Some(&4));
    assert_eq!(b.arities.get(nat), Some(&0));
    assert_eq!(b.arities.get(nat.inverse()), Some(&0));
    let copy = clone_trees(&vec![t]);
    assert!(same(&copy[0], &expected));
}

#[test]
fn character_classes() {
    for c in [' ', '\t', '\n', '\r', '\x0C'] {
        assert!(space(c));
    }
    assert!(!space('a') && !space('\x0B'));
    for c in "azAZ09.!#$%&/?*-_:;".chars() {
        assert!(is_name_character(c));
    }
    for c in "~()[]{}= é".chars() {
        assert!(!is_name_character(c));
    }
    for c in "AZ09.!#$%&/?*-_:;~".chars() {
        assert!(ctr_start(c));
    }
    for c in "az()[ ".chars() {
        assert!(!ctr_start(c));
    }
}

#[test]
fn names_are_read() {
    let mut b = ProgramBuilder::new("  Foo.bar(x)");
    assert_eq!(b.parse_ctr_name(), Ok("Foo.bar".to_string()));
    assert_eq!(b.index, 9);
    assert_eq!(b.parse_ctr_name(), Err("Expected an agent name.".to_string()));
    assert_eq!(b.index, 9);

    let mut b = ProgramBuilder::new(" \n x1_y z");
    assert_eq!(b.parse_var_name(), Ok("x1_y".to_string()));
    assert_eq!(b.index, 7);
    assert_eq!(b.parse_var_name(), Ok("z".to_string()));
    assert_eq!(b.parse_var_name(), Err("Expected a character for var_name.".to_string()));

    let mut b = ProgramBuilder::new("Abc");
    assert_eq!(b.parse_var_name(), Err("Expected a variable name.".to_string()));
    assert_eq!(b.output, vec!["\"Abc\"".to_string()]);
    let mut b = ProgramBuilder::new("   ");
    assert_eq!(b.parse_ctr_name(), Err("Expected a character for ctr_name.".to_string()));
    assert_eq!(b.index, 3);
}

#[test]
fn a_missing_variable_name_puts_out_the_rest_of_the_text() {
    // the rest after the blanks, between quotes and with its escapes
    let mut b = ProgramBuilder::new("x  \n Foo(a)\n\t\"b\" \\");
    assert_eq!(b.parse_var_name(), Ok("x".to_string()));
    assert!(b.output.is_empty());
    assert_eq!(b.parse_var_name(), Err("Expected a variable name.".to_string()));
    assert_eq!(b.index, 5);
    assert_eq!(b.output, vec!["\"Foo(a)\\n\\t\\\"b\\\" \\\\\"".to_string()]);
    assert_eq!(b.output[0], format!("{:?}", "Foo(a)\n\t\"b\" \\"));
    // once more: one more line
    assert_eq!(b.parse_var_name(), Err("Expected a variable name.".to_string()));
    assert_eq!(b.output.len(), 2);
    assert_eq!(b.output[1], b.output[0]);
    // at the end of the text nothing is put out
    let mut b = ProgramBuilder::new("  ");
    assert_eq!(b.parse_var_name(), Err("Expected a character for var_name.".to_string()));
    assert!(b.output.is_empty());
    // a tree that is neither an agent nor a variable
    let mut b = ProgramBuilder::new(" (x)");
    assert!(b.parse_tree().is_err());
    assert_eq!(b.output, vec!["\"(x)\"".to_string()]);
    // a program that fails on it
    let mut b = ProgramBuilder::new("A(x) ~ B(=)");
    assert_eq!(b.build(), Err("Expected a variable name.".to_string()));
    assert_eq!(b.output, vec!["\"=)\"".to_string()]);
}

#[test]
fn blanks_and_comments_are_skipped() {
    let mut b = ProgramBuilder::new(" \t\n// a comment\n  x");
    b.skip_trivia();
    // A comment is no blank.
    assert_eq!(b.index, 3);
    b.skip_blank();
    assert_eq!(b.index, 18);
    assert_eq!(b.peek_one(), Some('x'));
    b.skip_name();
    assert_eq!(b.index, 19);
    assert_eq!(b.peek_one(), None);
}

#[test]
fn consume_reads_a_token_after_comments() {
    let mut b = ProgramBuilder::new("  // note\n = x");
    assert_eq!(b.consume("="), Ok(()));
    assert_eq!(b.index, 12);
    assert!(b.at_token(" x"));
    assert!(!b.at_token(" x "));
    let e = b.consume("~").unwrap_err();
    // The message is the parser library's: it names what was expected and
    // shows the line.
    assert!(e.contains("PARSE_ERROR"));
    assert!(e.contains("expected: \u{1b}[0m~"));
    assert!(e.contains(" = "));
    assert_ne!(e, "~");
    assert_eq!(b.index, 13);
    assert_eq!(b.slice(11, 14), "= x");
}

#[test]
fn the_error_message_shows_the_line_of_the_error() {
    let mut b = ProgramBuilder::new("é\nab");
    b.index = 3;
    let e = b.expected("]");
    assert!(e.contains("expected: \u{1b}[0m]"));
    assert!(e.contains(" 2 | "));
    assert!(!e.contains(" 1 | "));
}

#[test]
fn trees_are_read() {
    let mut b = ProgramBuilder::new(" Pair( x  Succ(Zero) y ) rest");
    let t = b.parse_tree().unwrap();
    let expected = term(
        "Pair",
        vec![name("x"), term("Succ", vec![term("Zero", vec![])]), name("y")],
    );
    assert!(same_term(&t, &expected));
    assert_eq!(b.index, 24);
    let t = b.parse_tree().unwrap();
    assert!(same_term(&t, &name("rest")));
    assert!(b.parse_tree().is_err());
}

#[test]
fn macros_before_a_tree_are_passed_over() {
    let mut b = ProgramBuilder::new("Doc[anything at all] Other[] Zero");
    assert_eq!(b.peek_macro(), Ok(true));
    assert_eq!(b.index, 0);
    let t = b.parse_tree().unwrap();
    assert!(same_term(&t, &term("Zero", vec![])));
    let mut b = ProgramBuilder::new("Zero [");
    assert_eq!(b.peek_macro(), Ok(true));
    let mut b = ProgramBuilder::new("Zero(");
    assert_eq!(b.peek_macro(), Ok(false));
    let mut b = ProgramBuilder::new("Doc[open");
    assert!(b.parse_macro().is_err());
    let mut b = ProgramBuilder::new("Doc[closed] x");
    assert_eq!(b.parse_macro(), Ok(11));
}

#[test]
fn an_open_list_of_ports_is_an_error() {
    let mut b = ProgramBuilder::new("Pair(x y");
    assert!(b.parse_tree().is_err());
}

#[test]
fn a_program_is_built() {
    let b = built("Succ(x) ~ Pred(x)\nZero ~ Zero");
    assert_eq!(b.def.len(), 2);
    let succ = b.get_agent_id("Succ").unwrap();
    let pred = b.get_agent_id("Pred").unwrap();
    assert_eq!(b.def[0].left_id, succ);
    assert_eq!(b.def[0].right_id, pred);
    assert!(same(&b.def[0].left_children[0], &Tree::Var { id: VarId(0) }));
    assert!(same(&b.def[0].right_children[0], &Tree::Var { id: VarId(0) }));
    assert_eq!(b.get_agent_id(":"), Some(AgentId(0, false)));
    assert_eq!(b.get_agent_id("~"), Some(AgentId(1, false)));
    assert_eq!(b.get_agent_id("::"), Some(AgentId(2, false)));
    assert_eq!(b.arities.get(AgentId(0, false)), Some(&2));
    assert_eq!(b.arities.get(AgentId(1, true)), Some(&1));
    let system = b.interaction_system.as_ref().unwrap();
    assert!(system.has_rule(pred, succ));
    assert_eq!(system.antitype, Some(AgentId(1, false)));
    assert_eq!(b.levels.len(), 1);
}

#[test]
fn the_scope_of_a_rule_is_reduced_away() {
    // The redex binds y to Zero; the port reads as Succ(Zero).
    let b = built("Two(Succ(y)) ~ One { y = Zero }");
    assert_eq!(b.def.len(), 1);
    let succ = b.get_agent_id("Succ").unwrap();
    let zero = b.get_agent_id("Zero").unwrap();
    let expected = Tree::Agent {
        id: succ,
        aux: vec![Tree::Agent { id: zero, aux: vec![] }],
    };
    assert!(same(&b.def[0].left_children[0], &expected));
    assert!(b.def[0].right_children.is_empty());
    // The agents of the rule's scope are agents of the program.
    assert_eq!(b.levels.len(), 1);
}

#[test]
fn a_redex_joins_the_net_of_its_scope() {
    let b = built("x = Zero");
    assert!(b.def.is_empty());
    let net = &b.levels[0].vars.net;
    assert_eq!(net.interactions.len(), 1);
    assert!(same(&net.interactions[0].0, &Tree::Var { id: VarId(0) }));
}

#[test]
fn an_item_must_be_a_redex_or_a_rule() {
    let mut b = ProgramBuilder::new("Zero Zero");
    assert_eq!(b.build(), Err("Invalid item found!".to_string()));
    let mut b = ProgramBuilder::new("x ~ Zero");
    assert_eq!(b.build(), Err("Invalid item found!".to_string()));
    let mut b = ProgramBuilder::new("Zero ~ x");
    assert_eq!(b.build(), Err("Invalid item found!".to_string()));
}

#[test]
fn reduce_puts_out_the_reduced_net() {
    let text = "Succ(x) ~ Pred(x)\nReduce[ { Succ(a) = Pred(Zero)  b = Succ(a) } ]";
    let mut b = ProgramBuilder::new(text);
    assert_eq!(b.build(), Ok(()));
    assert_eq!(b.output.len(), 1);
    // Everything reduced: no pending and no stuck pair is left to show.
    assert_eq!(b.output[0], "");
    let text = "Reduce[ { Succ(a) = Pred(Zero) } ]";
    let mut b = ProgramBuilder::new(text);
    assert_eq!(b.build(), Ok(()));
    assert_eq!(b.output, vec!["Succ(a) = Pred(Zero)\n".to_string()]);
}

const TYPED: &str = "
:(a b) ~ :(a b)
::(:(x T)) ~ T
::(:(x T)) ~ A
::(:(x T)) ~ B
T ~ T
";

#[test]
fn types_are_derived_by_reduction() {
    let b = built(TYPED);
    let t = b.get_agent_id("T").unwrap();
    let a = b.get_agent_id("A").unwrap();
    assert_eq!(b.get_type_of(a), Some(t));
    assert_eq!(b.get_type_of(t), Some(t));
    assert_eq!(b.get_type_of(a.inverse()), None);
    assert_eq!(b.get_type_of(b.get_agent_id("::").unwrap()), None);
    assert_eq!(b.get_type_of(b.get_agent_id("~").unwrap()), None);
    assert_eq!(b.get_type_of(AgentId(99, false)), None);
}

#[test]
fn completeness_example() {
    let text = "
:(a b) ~ :(a b)
::(:(x T1)) ~ A
::(:(x T2)) ~ B
T1 ~ T2
A ~ B
";
    let b = built(text);
    assert_eq!(b.check_completeness(), vec![]);

    let text = "
:(a b) ~ :(a b)
::(:(x T1)) ~ A
::(:(x T2)) ~ B
T1 ~ T2
";
    let b = built(text);
    let a = b.get_agent_id("A").unwrap();
    let bb = b.get_agent_id("B").unwrap();
    let t1 = b.get_agent_id("T1").unwrap();
    let t2 = b.get_agent_id("T2").unwrap();
    assert_eq!(
        b.check_completeness(),
        vec![CompletenessViolation { a, b: bb, a_type: t1, b_type: t2 }]
    );
}

#[test]
fn completeness_does_not_depend_on_the_order_of_the_instances() {
    // the types are declared in one order, their instances in the other
    let text = "
:(a b) ~ :(a b)
T1 ~ T2
::(:(x T2)) ~ B
::(:(x T1)) ~ A
";
    let b = built(text);
    let a = b.get_agent_id("A").unwrap();
    let bb = b.get_agent_id("B").unwrap();
    let t1 = b.get_agent_id("T1").unwrap();
    let t2 = b.get_agent_id("T2").unwrap();
    assert!(t1 < t2 && bb < a);
    assert_eq!(
        b.check_completeness(),
        vec![CompletenessViolation { a, b: bb, a_type: t1, b_type: t2 }]
    );

    // the second type is declared first: the finding names it first
    let text = "
:(a b) ~ :(a b)
T2 ~ T1
::(:(x T1)) ~ A
::(:(x T2)) ~ B
";
    let b = built(text);
    let a = b.get_agent_id("A").unwrap();
    let bb = b.get_agent_id("B").unwrap();
    let t1 = b.get_agent_id("T1").unwrap();
    let t2 = b.get_agent_id("T2").unwrap();
    assert!(t2 < t1 && a < bb);
    assert_eq!(
        b.check_completeness(),
        vec![CompletenessViolation { a: bb, b: a, a_type: t2, b_type: t1 }]
    );

    // with the rule between the instances, in either order, nothing is found
    let text = "
:(a b) ~ :(a b)
T1 ~ T2
::(:(x T2)) ~ B
::(:(x T1)) ~ A
B ~ A
";
    assert_eq!(built(text).check_completeness(), vec![]);
}

#[test]
fn instances_of_one_type_are_paired_once() {
    let text = "
:(a b) ~ :(a b)
T ~ T
::(:(x T)) ~ A
::(:(x T)) ~ B
A ~ A
B ~ B
";
    let b = built(text);
    let a = b.get_agent_id("A").unwrap();
    let bb = b.get_agent_id("B").unwrap();
    let t = b.get_agent_id("T").unwrap();
    assert_eq!(
        b.check_completeness(),
        vec![CompletenessViolation { a, b: bb, a_type: t, b_type: t }]
    );
}

#[test]
fn duality_example() {
    let b = built("A ~ B\n~B ~ C");
    let a = b.get_agent_id("A").unwrap();
    let bb = b.get_agent_id("B").unwrap();
    let c = b.get_agent_id("C").unwrap();
    let found = b.check_inverse();
    let chain = InverseViolation { a, b: bb, b_dual: bb.inverse(), c };
    assert_eq!(found.iter().filter(|v| **v == chain).count(), 1);
    // The chain read from its other end is the only other finding.
    let back = InverseViolation { a: c, b: bb.inverse(), b_dual: bb, c: a };
    assert_eq!(found, vec![chain, back]);

    let b = built("A ~ B\n~B ~ C\nA ~ C");
    let a = b.get_agent_id("A").unwrap();
    let c = b.get_agent_id("C").unwrap();
    // With A ~ C the chain over B is closed. C now connects to A as well,
    // which opens no chain: the dual of A connects to nothing.
    assert_eq!(b.check_inverse(), vec![]);
    assert_eq!(b.can_connect_to(a), vec![b.get_agent_id("B").unwrap(), c]);
}

#[test]
fn connections_and_subtypes() {
    let b = built("A ~ B\nA ~ C\nD ~ B");
    let a = b.get_agent_id("A").unwrap();
    let bb = b.get_agent_id("B").unwrap();
    let c = b.get_agent_id("C").unwrap();
    let d = b.get_agent_id("D").unwrap();
    assert_eq!(b.can_connect_to(a), vec![bb, c]);
    assert_eq!(b.can_connect_to(bb), vec![a, d]);
    assert_eq!(b.can_connect_to(a.inverse()), vec![]);
    assert_eq!(b.can_connect_to_set(&vec![bb, c]), vec![a, d]);
    assert_eq!(b.can_connect_to_set(&vec![]), vec![]);
    // Everything that connects to C connects to B, and not the other way.
    assert!(b.is_subtype_of(bb, c));
    assert!(!b.is_subtype_of(c, bb));
    assert!(b.is_subtype_of(a, a));
}

#[test]
fn well_typedness_example() {
    let text = "
:(a b) ~ :(a b)
::(:(x T)) ~ T
::(:(x T)) ~ A
::(:(x T)) ~ B
T ~ T
A ~ B
";
    let b = built(text);
    assert!(b.check_well_typedness().is_empty());

    // C has no type: the probe of C ~ A is stuck where C meets the annotator.
    let text = "
:(a b) ~ :(a b)
::(:(x T)) ~ T
::(:(x T)) ~ A
T ~ T
C(p) ~ A
";
    let b = built(text);
    let found = b.check_well_typedness();
    assert_eq!(found.len(), 1);
    assert_eq!(found[0].rule, 4);
    assert_eq!(found[0].left_id, b.get_agent_id("C").unwrap());
    assert_eq!(found[0].right_id, b.get_agent_id("A").unwrap());
    assert!(!found[0].reduced.stuck.is_empty());
    assert!(found[0].reduced.interactions.is_empty());
    // The probe before reduction: C met the annotator and is stuck; A met
    // it and was rewritten; C met A and was rewritten.
    assert_eq!(found[0].probe.stuck.len(), 1);
    assert_eq!(found[0].probe.interactions.len(), 2);
    assert_eq!(found[0].reduced.stuck.len(), 1);
    // What is stuck is a pair of agents that have no rule.
    let system = b.interaction_system.as_ref().unwrap();
    for (p, q) in found[0].reduced.stuck.iter() {
        match (p, q) {
            (Tree::Agent { id: x, .. }, Tree::Agent { id: y, .. }) => {
                assert_eq!(system.resolve(*x, *y), Resolution::Unresolved);
                assert!(!system.has_rule(*x, *y));
            }
            _ => panic!("a variable is stuck"),
        }
    }
    // One variable for the port of C and one for the output.
    assert!(found[0].probe.vars.contains_key(&0));
    assert!(found[0].probe.vars.contains_key(&1));
    assert_eq!(
        found[0].reduced.show_net(&b.agent_scope_back, &std::collections::BTreeMap::new(), true),
        "?1 = :(?2 T)\n?3 = ::(~(?0))\nC(::(?0)) = ::(?1)\n"
    );
}

#[test]
fn findings_as_text() {
    let text = "
:(a b) ~ :(a b)
::(:(x T1)) ~ A
::(:(x T2)) ~ B
T1 ~ T2
";
    let b = built(text);
    let found = b.check_completeness();
    assert_eq!(
        b.completeness_message(&found[0]),
        "Completeness check failed:\n\tInteraction T1 ~ T2 is defined\n\tA: T1\n\tB: T2\n\tbut interaction A ~ B isn't"
    );

    let b = built("A ~ B\n~B ~ C");
    let found = b.check_inverse();
    assert_eq!(
        b.inverse_message(&found[0]),
        "Inverse check failed:\n\tInteraction A ~ B is defined\n\tInteraction ~B ~ C is defined\n\twhich means C <= B, A <= ~B\n\tbut interaction A ~ C isn't defined"
    );

    let b = built("C ~ D");
    let found = b.check_well_typedness();
    assert_eq!(found.len(), 1);
    assert_eq!(
        b.typing_message(&found[0]),
        "Rule C = D is not well typed!\nOriginal net:\nC = ::(?0)\nD = ::(?0)\n\n----------------------------\nC = ::(?0)\nD = ::(?0)\n"
    );
    let labels = b.agent_labels();
    let c = b.get_agent_id("C").unwrap();
    assert_eq!(labels.get(c), Some(&"C".to_string()));
    assert_eq!(labels.get(c.inverse()), Some(&"~C".to_string()));
    assert_eq!(b.agent_name(c.inverse()), "~C");
}
