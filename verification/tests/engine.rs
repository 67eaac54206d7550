use inet_spec::net::Net;
use inet_spec::renaming::same_up_to_renaming;
use inet_spec::rules::{InteractionRule, InteractionSystem, Resolution};
use inet_spec::term::{AgentId, Tree, VarId};
use std::collections::BTreeMap;

fn agent(id: AgentId, aux: Vec<Tree>) -> Tree {
    Tree::Agent { id, aux }
}

fn var(n: u64) -> Tree {
    Tree::Var { id: VarId(n) }
}

fn same(a: &Tree, b: &Tree) -> bool {
    match (a, b) {
        (Tree::Var { id: x }, Tree::Var { id: y }) => x == y,
        (Tree::Agent { id: x, aux: xs }, Tree::Agent { id: y, aux: ys }) => {
            x == y && xs.len() == ys.len() && xs.iter().zip(ys.iter()).all(|(p, q)| same(p, q))
        }
        _ => false,
    }
}

const PAIR: AgentId = AgentId(0, false);
const W: AgentId = AgentId(1, false);
const A: AgentId = AgentId(2, false);
const B: AgentId = AgentId(3, false);

#[test]
fn new_var_takes_least_free_id() {
    let mut net = Net::new();
    assert_eq!(net.new_var(), VarId(0));
    assert_eq!(net.new_var(), VarId(1));
    net.vars.remove(&0);
    assert_eq!(net.new_var(), VarId(0));
    assert_eq!(net.new_var(), VarId(2));
    assert!(net.vars.get(&2).unwrap().is_none());
}

#[test]
fn dual_is_an_involution() {
    let a = AgentId(7, false);
    assert_eq!(a.inverse(), AgentId(7, true));
    assert_eq!(a.inverse().inverse(), a);
    assert_ne!(a.inverse(), a);
}

#[test]
fn agents_are_ordered_by_base_then_polarity() {
    assert!(AgentId(1, false).precedes(AgentId(1, false)));
    assert!(AgentId(1, false).precedes(AgentId(1, true)));
    assert!(!AgentId(1, true).precedes(AgentId(1, false)));
    assert!(AgentId(1, true).precedes(AgentId(2, false)));
    assert!(!AgentId(2, false).precedes(AgentId(1, true)));
}

#[test]
fn tree_clone_is_deep() {
    let t = agent(PAIR, vec![var(3), agent(A, vec![])]);
    let c = t.clone();
    assert!(same(&t, &c));
}

#[test]
fn freshen_renames_pairs_of_occurrences() {
    let mut net = Net::new();
    net.new_var();
    let mut scope = BTreeMap::new();
    // x7 occurs three times: the third occurrence starts a new pair.
    let template = agent(PAIR, vec![var(7), var(7), var(7), var(9)]);
    let fresh = net.freshen(&mut scope, &template);
    assert!(same(&fresh, &agent(PAIR, vec![var(1), var(1), var(2), var(3)])));
    assert_eq!(scope.get(&7), Some(&2));
    assert_eq!(scope.get(&9), Some(&3));
    assert_eq!(net.vars.len(), 4);
}

#[test]
fn unbound_variable_is_bound_to_the_other_side() {
    let system = InteractionSystem::new();
    let mut net = Net::new();
    let x = net.new_var();
    net.interact(&system, agent(A, vec![]), Tree::Var { id: x });
    assert!(same(net.vars.get(&0).unwrap().as_ref().unwrap(), &agent(A, vec![])));
    assert!(net.interactions.is_empty());

    let mut net = Net::new();
    let x = net.new_var();
    net.interact(&system, Tree::Var { id: x }, agent(B, vec![]));
    assert!(same(net.vars.get(&0).unwrap().as_ref().unwrap(), &agent(B, vec![])));
}

#[test]
fn bound_variable_is_consumed_and_its_value_linked() {
    let system = InteractionSystem::new();
    let mut net = Net::new();
    let x = net.new_var();
    net.interact(&system, agent(A, vec![]), Tree::Var { id: x });
    net.interact(&system, agent(B, vec![]), Tree::Var { id: x });
    assert!(net.vars.is_empty());
    assert_eq!(net.interactions.len(), 1);
    assert!(same(&net.interactions[0].0, &agent(B, vec![])));
    assert!(same(&net.interactions[0].1, &agent(A, vec![])));
}

#[test]
fn two_variables_bind_the_second_to_the_first() {
    let system = InteractionSystem::new();
    let mut net = Net::new();
    let x = net.new_var();
    let y = net.new_var();
    net.interact(&system, Tree::Var { id: x }, Tree::Var { id: y });
    assert!(net.vars.get(&0).unwrap().is_none());
    assert!(same(net.vars.get(&1).unwrap().as_ref().unwrap(), &var(0)));
}

#[test]
fn variable_that_the_store_lacks_is_bound() {
    let system = InteractionSystem::new();
    let mut net = Net::new();
    net.interact(&system, agent(A, vec![]), var(5));
    assert!(same(net.vars.get(&5).unwrap().as_ref().unwrap(), &agent(A, vec![])));
}

#[test]
fn agents_without_a_rule_are_stuck() {
    let system = InteractionSystem::new();
    let mut net = Net::new();
    net.interact(&system, agent(A, vec![]), agent(B, vec![]));
    assert!(net.interactions.is_empty());
    assert_eq!(net.stuck.len(), 1);
    assert!(same(&net.stuck[0].0, &agent(A, vec![])));
    assert!(same(&net.stuck[0].1, &agent(B, vec![])));
}

#[test]
fn rule_is_applied_in_either_orientation() {
    let mut system = InteractionSystem::new();
    // A(p) ~ B: the port of A meets W.
    system.add_rule(
        A,
        B,
        InteractionRule { left_ports: vec![agent(W, vec![])], right_ports: vec![] },
    );
    let mut net = Net::new();
    net.interact(&system, agent(A, vec![agent(PAIR, vec![])]), agent(B, vec![]));
    assert_eq!(net.interactions.len(), 1);
    assert!(same(&net.interactions[0].0, &agent(W, vec![])));
    assert!(same(&net.interactions[0].1, &agent(PAIR, vec![])));

    let mut net = Net::new();
    net.interact(&system, agent(B, vec![]), agent(A, vec![agent(PAIR, vec![])]));
    assert_eq!(net.interactions.len(), 1);
    assert!(same(&net.interactions[0].0, &agent(W, vec![])));
    assert!(same(&net.interactions[0].1, &agent(PAIR, vec![])));
    assert!(net.stuck.is_empty());
}

#[test]
fn surplus_ports_are_dropped() {
    let mut system = InteractionSystem::new();
    system.add_rule(
        A,
        B,
        InteractionRule { left_ports: vec![var(0), var(0)], right_ports: vec![var(1)] },
    );
    let mut net = Net::new();
    net.interact(&system, agent(A, vec![agent(W, vec![])]), agent(B, vec![]));
    // One template of two is linked on the left, none on the right.
    assert_eq!(net.interactions.len(), 1);
    assert!(same(&net.interactions[0].0, &var(0)));
    assert!(same(&net.interactions[0].1, &agent(W, vec![])));
}

#[test]
fn end_to_end_reduction() {
    // Pair(p q) ~ W(p q); the net holds Pair(X Y) ~ Z with Z bound to W(A B).
    let mut system = InteractionSystem::new();
    system.add_rule(
        PAIR,
        W,
        InteractionRule { left_ports: vec![var(0), var(1)], right_ports: vec![var(0), var(1)] },
    );
    let mut net = Net::new();
    let x = net.new_var();
    let y = net.new_var();
    let z = net.new_var();
    net.interact(&system, agent(W, vec![agent(A, vec![]), agent(B, vec![])]), Tree::Var { id: z });
    net.link(agent(PAIR, vec![Tree::Var { id: x }, Tree::Var { id: y }]), Tree::Var { id: z });
    net.normal(&system);
    assert!(net.interactions.is_empty());
    assert!(net.stuck.is_empty());
    // Z was consumed; its number went to the first variable of the rule.
    assert_eq!(net.vars.len(), 4);
    assert!(same(net.vars.get(&z.0).unwrap().as_ref().unwrap(), &agent(A, vec![])));
    assert!(same(&net.substitute_ref(&Tree::Var { id: x }), &agent(A, vec![])));
    assert!(same(&net.substitute_ref(&Tree::Var { id: y }), &agent(B, vec![])));
    // Reading consumes the bindings.
    assert!(same(&net.substitute(Tree::Var { id: x }), &agent(A, vec![])));
    assert!(same(&net.substitute(Tree::Var { id: y }), &agent(B, vec![])));
    assert!(net.vars.is_empty());
}

#[test]
fn reduce_counts_its_steps_and_respects_the_limit() {
    let system = InteractionSystem::new();
    let mut net = Net::new();
    net.link(agent(A, vec![]), agent(B, vec![]));
    net.link(agent(B, vec![]), agent(A, vec![]));
    net.link(agent(A, vec![]), agent(A, vec![]));
    assert_eq!(net.reduce(&system, 2), 2);
    assert_eq!(net.interactions.len(), 1);
    assert_eq!(net.stuck.len(), 2);
    // The last pushed pair went first.
    assert!(same(&net.stuck[0].1, &agent(A, vec![])));
    assert!(same(&net.stuck[0].0, &agent(A, vec![])));
    assert_eq!(net.reduce(&system, 10), 1);
    assert_eq!(net.reduce(&system, 10), 0);
    assert_eq!(net.stuck.len(), 3);
}

#[test]
fn substitute_ref_is_idempotent_once_resolved() {
    let system = InteractionSystem::new();
    let mut net = Net::new();
    let x = net.new_var();
    let y = net.new_var();
    let free = net.new_var();
    net.interact(&system, agent(A, vec![Tree::Var { id: y }]), Tree::Var { id: x });
    net.interact(&system, agent(B, vec![Tree::Var { id: free }]), Tree::Var { id: y });
    let once = net.substitute_ref(&agent(PAIR, vec![Tree::Var { id: x }]));
    let expected = agent(PAIR, vec![agent(A, vec![agent(B, vec![var(2)])])]);
    assert!(same(&once, &expected));
    let twice = net.substitute_ref(&once);
    assert!(same(&twice, &once));
    // The store is as it was.
    assert_eq!(net.vars.len(), 3);
}

#[test]
fn substitute_ref_ends_on_a_cycle() {
    let system = InteractionSystem::new();
    let mut net = Net::new();
    let x = net.new_var();
    net.interact(&system, agent(A, vec![Tree::Var { id: x }]), Tree::Var { id: x });
    // x is bound to A(x): the variable is left where it is met again.
    let shown = net.substitute_ref(&Tree::Var { id: x });
    assert!(same(&shown, &agent(A, vec![var(0)])));
}

#[test]
fn substitute_reads_each_binding_once() {
    let system = InteractionSystem::new();
    let mut net = Net::new();
    let x = net.new_var();
    net.interact(&system, agent(A, vec![]), Tree::Var { id: x });
    let read = net.substitute(agent(PAIR, vec![Tree::Var { id: x }, Tree::Var { id: x }]));
    assert!(same(&read, &agent(PAIR, vec![agent(A, vec![]), var(0)])));
    assert!(net.vars.is_empty());
}

#[test]
fn conservation_on_a_linear_net() {
    // Every variable has two references; after reduction each was consumed
    // or is still held with what is left of its references.
    let mut system = InteractionSystem::new();
    system.add_rule(
        A,
        B,
        InteractionRule { left_ports: vec![var(0)], right_ports: vec![var(0)] },
    );
    let mut net = Net::new();
    let x = net.new_var();
    let y = net.new_var();
    net.link(agent(A, vec![Tree::Var { id: x }]), agent(B, vec![Tree::Var { id: y }]));
    net.link(Tree::Var { id: x }, agent(W, vec![]));
    net.normal(&system);
    assert!(net.interactions.is_empty());
    assert!(net.stuck.is_empty());
    // x was bound, read and consumed; y holds what x held.
    assert!(net.vars.get(&x.0).is_none());
    assert!(same(&net.substitute_ref(&Tree::Var { id: y }), &agent(W, vec![])));
    assert_linear(&net);
    // Reading y consumes what is left.
    assert!(same(&net.substitute(Tree::Var { id: y }), &agent(W, vec![])));
    assert!(net.vars.is_empty());
    assert_linear(&net);
}

fn occurrences(t: &Tree, v: u64) -> usize {
    match t {
        Tree::Var { id } => (id.0 == v) as usize,
        Tree::Agent { aux, .. } => aux.iter().map(|p| occurrences(p, v)).sum(),
    }
}

fn references(net: &Net, v: u64) -> usize {
    let in_pairs: usize = net
        .interactions
        .iter()
        .chain(net.stuck.iter())
        .map(|(a, b)| occurrences(a, v) + occurrences(b, v))
        .sum();
    let in_store: usize = net.vars.values().flatten().map(|t| occurrences(t, v)).sum();
    let held = matches!(net.vars.get(&v), Some(Some(_))) as usize;
    in_pairs + in_store + held
}

fn assert_linear(net: &Net) {
    for v in 0..16 {
        let n = references(net, v);
        assert!(n <= 2);
        assert!(n == 0 || net.vars.contains_key(&v));
    }
}

#[test]
fn reduction_keeps_a_net_linear() {
    // Duplicating rule templates are freshened pairwise, so even a rule
    // that names a variable three times keeps the net linear.
    let mut system = InteractionSystem::new();
    system.add_rule(
        A,
        B,
        InteractionRule {
            left_ports: vec![var(0), var(0)],
            right_ports: vec![var(0), agent(W, vec![var(1)])],
        },
    );
    let mut net = Net::new();
    let p = net.new_var();
    let q = net.new_var();
    net.link(
        agent(A, vec![Tree::Var { id: p }, agent(PAIR, vec![])]),
        agent(B, vec![Tree::Var { id: q }, Tree::Var { id: p }]),
    );
    assert_linear(&net);
    while !net.interactions.is_empty() {
        assert_eq!(net.reduce(&system, 1), 1);
        assert_linear(&net);
    }
    assert_eq!(net.stuck.len(), 1);
}

#[test]
fn net_clone_shares_nothing() {
    let system = InteractionSystem::new();
    let mut net = Net::new();
    let x = net.new_var();
    net.link(agent(A, vec![]), Tree::Var { id: x });
    let copy = net.clone();
    net.normal(&system);
    assert_eq!(copy.interactions.len(), 1);
    assert!(copy.vars.get(&0).unwrap().is_none());
    assert!(net.vars.get(&0).unwrap().is_some());
    let empty = Net::default();
    assert!(empty.vars.is_empty() && empty.interactions.is_empty() && empty.stuck.is_empty());
}

#[test]
fn resolution_is_by_table_first() {
    let mut system = InteractionSystem::new();
    system.antitype = Some(A);
    system.arities.insert(A, 1);
    system.arities.insert(A.inverse(), 1);
    // An explicit rule for the antitype agent with itself wins over the
    // structural rule.
    assert_eq!(system.resolve(A, A), Resolution::AntitypeCancel);
    system.add_rule(A, A, InteractionRule { left_ports: vec![], right_ports: vec![] });
    assert_eq!(system.resolve(A, A), Resolution::Explicit { index: 0, flipped: false });
}

#[test]
fn trees_are_compared_up_to_renaming() {
    let left = agent(PAIR, vec![var(0), agent(W, vec![var(1)]), var(0)]);
    let right = agent(PAIR, vec![var(7), agent(W, vec![var(3)]), var(7)]);
    let mut forth = BTreeMap::new();
    let mut back = BTreeMap::new();
    assert!(same_up_to_renaming(&left, &right, &mut forth, &mut back));
    assert_eq!(forth.get(&0), Some(&7));
    assert_eq!(forth.get(&1), Some(&3));
    assert_eq!(back.get(&7), Some(&0));
    assert_eq!(back.get(&3), Some(&1));
    assert_eq!(forth.len(), 2);
    assert_eq!(back.len(), 2);
    // the renaming that was found is kept to
    assert!(same_up_to_renaming(&var(1), &var(3), &mut forth, &mut back));
    assert!(!same_up_to_renaming(&var(1), &var(7), &mut forth, &mut back));
    assert!(!same_up_to_renaming(&var(5), &var(7), &mut forth, &mut back));
}

#[test]
fn renaming_is_one_to_one_and_respects_shape() {
    let twice = agent(PAIR, vec![var(0), var(0)]);
    let apart = agent(PAIR, vec![var(0), var(1)]);
    assert!(!same_up_to_renaming(&twice, &apart, &mut BTreeMap::new(), &mut BTreeMap::new()));
    assert!(!same_up_to_renaming(&apart, &twice, &mut BTreeMap::new(), &mut BTreeMap::new()));
    assert!(same_up_to_renaming(&apart, &apart, &mut BTreeMap::new(), &mut BTreeMap::new()));
    assert!(!same_up_to_renaming(
        &agent(A, vec![]),
        &agent(B, vec![]),
        &mut BTreeMap::new(),
        &mut BTreeMap::new()
    ));
    assert!(!same_up_to_renaming(
        &agent(A, vec![]),
        &agent(A.inverse(), vec![]),
        &mut BTreeMap::new(),
        &mut BTreeMap::new()
    ));
    assert!(!same_up_to_renaming(
        &agent(A, vec![var(0)]),
        &agent(A, vec![]),
        &mut BTreeMap::new(),
        &mut BTreeMap::new()
    ));
    assert!(!same_up_to_renaming(&var(0), &agent(A, vec![]), &mut BTreeMap::new(), &mut BTreeMap::new()));
    assert!(!same_up_to_renaming(&agent(A, vec![]), &var(0), &mut BTreeMap::new(), &mut BTreeMap::new()));
}
