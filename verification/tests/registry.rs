use inet_spec::net::Net;
use inet_spec::rules::{
    make_var_ports, make_wrapped_ports, structural_rule, InteractionRule, InteractionSystem,
    Resolution,
};
use inet_spec::tables::{AgentMap, NameMap};
use inet_spec::term::{AgentId, Tree, VarId};

fn agent(id: AgentId, aux: Vec<Tree>) -> Tree {
    Tree::Agent { id, aux }
}

fn var(n: u64) -> Tree {
    Tree::Var { id: VarId(n) }
}

fn same(a: &Tree, b: &Tree) -> bool {
    match (a, b) {
        (Tree::Var { id: x }, Tree::Var { id: y }) => x == y,
        (Tree::Agent { id: x, aux: xs }, Tree::Agent { id: y, aux: ys }) => {
            x == y && xs.len() == ys.len() && xs.iter().zip(ys.iter()).all(|(p, q)| same(p, q))
        }
        _ => false,
    }
}

fn same_all(xs: &[Tree], ys: &[Tree]) -> bool {
    xs.len() == ys.len() && xs.iter().zip(ys.iter()).all(|(p, q)| same(p, q))
}

const ANTI: AgentId = AgentId(0, false);
const A: AgentId = AgentId(1, false);
const B: AgentId = AgentId(2, false);

fn rule(n: u64) -> InteractionRule {
    InteractionRule { left_ports: vec![var(n)], right_ports: vec![] }
}

#[test]
fn add_rule_replaces_under_the_unordered_pair() {
    let mut system = InteractionSystem::new();
    assert!(!system.has_rule(A, B));
    system.add_rule(A, B, rule(1));
    assert!(system.has_rule(A, B));
    assert!(system.has_rule(B, A));
    {
        let (forward, backward) = system.get_rule(A, B);
        assert!(same_all(&forward.unwrap().left_ports, &[var(1)]));
        assert!(backward.is_none());
    }
    {
        let (forward, backward) = system.get_rule(B, A);
        assert!(forward.is_none());
        assert!(same_all(&backward.unwrap().left_ports, &[var(1)]));
    }
    // Registering for the pair in the other order replaces the rule.
    system.add_rule(B, A, rule(2));
    assert_eq!(system.rules.len(), 1);
    let (forward, backward) = system.get_rule(A, B);
    assert!(forward.is_none());
    assert!(same_all(&backward.unwrap().left_ports, &[var(2)]));
}

#[test]
fn a_rule_of_an_agent_with_itself_is_found_both_ways() {
    let mut system = InteractionSystem::new();
    system.add_rule(A, A, rule(3));
    let (forward, backward) = system.get_rule(A, A);
    assert!(forward.is_some() && backward.is_some());
    assert!(!system.has_rule(A, B));
}

#[test]
fn resolution_order() {
    let mut system = InteractionSystem::new();
    system.antitype = Some(ANTI);
    system.arities.insert(ANTI, 1);
    system.arities.insert(ANTI.inverse(), 1);
    system.arities.insert(A, 2);
    system.arities.insert(A.inverse(), 2);
    system.add_rule(A, B, rule(0));

    assert_eq!(system.resolve(A, B), Resolution::Explicit { index: 0, flipped: false });
    assert_eq!(system.resolve(B, A), Resolution::Explicit { index: 0, flipped: true });
    assert_eq!(system.resolve(ANTI, ANTI), Resolution::AntitypeCancel);
    assert_eq!(
        system.resolve(ANTI, A),
        Resolution::AntitypeDistribute { flipped: false, arity: 2 }
    );
    assert_eq!(
        system.resolve(A, ANTI),
        Resolution::AntitypeDistribute { flipped: true, arity: 2 }
    );
    // The antitype agent and its dual: distribution comes before annihilation.
    assert_eq!(
        system.resolve(ANTI, ANTI.inverse()),
        Resolution::AntitypeDistribute { flipped: false, arity: 1 }
    );
    // Its dual and the antitype agent, in this order: annihilation comes
    // before the pair is read in its other order.
    assert_eq!(
        system.resolve(ANTI.inverse(), ANTI),
        Resolution::DualAnnihilate { arity: 1 }
    );
    assert_eq!(system.resolve(A, A.inverse()), Resolution::DualAnnihilate { arity: 2 });
    assert_eq!(system.resolve(A.inverse(), A), Resolution::DualAnnihilate { arity: 2 });
    // B has no arity on record: nothing structural applies to it.
    assert_eq!(system.resolve(ANTI, B), Resolution::Unresolved);
    assert_eq!(system.resolve(B, B.inverse()), Resolution::Unresolved);
    assert_eq!(system.resolve(A, A), Resolution::Unresolved);
}

#[test]
fn structural_templates() {
    assert!(same_all(&make_var_ports(3), &[var(0), var(1), var(2)]));
    assert!(same_all(
        &make_wrapped_ports(ANTI, 2),
        &[agent(ANTI, vec![var(0)]), agent(ANTI, vec![var(1)])]
    ));
    let cancel = structural_rule(Resolution::AntitypeCancel, ANTI, ANTI);
    assert!(same_all(&cancel.left_ports, &[var(0)]));
    assert!(same_all(&cancel.right_ports, &[var(0)]));
    let spread = structural_rule(
        Resolution::AntitypeDistribute { flipped: false, arity: 2 },
        ANTI,
        A,
    );
    assert!(same_all(
        &spread.left_ports,
        &[agent(A.inverse(), vec![agent(ANTI, vec![var(0)]), agent(ANTI, vec![var(1)])])]
    ));
    assert!(same_all(&spread.right_ports, &[var(0), var(1)]));
    let flipped = structural_rule(
        Resolution::AntitypeDistribute { flipped: true, arity: 1 },
        A,
        ANTI,
    );
    assert!(same_all(&flipped.left_ports, &[agent(A.inverse(), vec![agent(ANTI, vec![var(0)])])]));
    let away = structural_rule(Resolution::DualAnnihilate { arity: 2 }, A, A.inverse());
    assert!(same_all(&away.left_ports, &[var(0), var(1)]));
    assert!(same_all(&away.right_ports, &[var(0), var(1)]));
}

#[test]
fn double_negation_cancels() {
    let mut system = InteractionSystem::new();
    system.antitype = Some(ANTI);
    let mut net = Net::new();
    net.link(agent(ANTI, vec![agent(A, vec![])]), agent(ANTI, vec![agent(B, vec![])]));
    net.normal(&system);
    // The two wrapped values meet each other.
    assert!(net.interactions.is_empty());
    assert_eq!(net.stuck.len(), 1);
    assert!(same(&net.stuck[0].0, &agent(A, vec![])));
    assert!(same(&net.stuck[0].1, &agent(B, vec![])));
    assert!(net.vars.is_empty());
}

#[test]
fn negation_distributes_over_structure() {
    let mut system = InteractionSystem::new();
    system.antitype = Some(ANTI);
    system.arities.insert(A, 2);
    let mut net = Net::new();
    let out = net.new_var();
    let p = net.new_var();
    let q = net.new_var();
    net.link(
        agent(ANTI, vec![Tree::Var { id: out }]),
        agent(A, vec![Tree::Var { id: p }, Tree::Var { id: q }]),
    );
    net.normal(&system);
    assert!(net.interactions.is_empty() && net.stuck.is_empty());
    let shown = net.substitute_ref(&Tree::Var { id: out });
    let expected = agent(
        A.inverse(),
        vec![agent(ANTI, vec![var(3)]), agent(ANTI, vec![var(4)])],
    );
    assert!(same(&shown, &expected));
    assert!(same(&net.substitute_ref(&Tree::Var { id: p }), &var(3)));
    assert!(same(&net.substitute_ref(&Tree::Var { id: q }), &var(4)));
}

#[test]
fn dual_agents_annihilate() {
    let mut system = InteractionSystem::new();
    system.arities.insert(A, 1);
    system.arities.insert(A.inverse(), 1);
    let mut net = Net::new();
    net.link(agent(A, vec![agent(B, vec![])]), agent(A.inverse(), vec![agent(ANTI, vec![])]));
    net.normal(&system);
    assert!(net.interactions.is_empty());
    assert_eq!(net.stuck.len(), 1);
    assert!(same(&net.stuck[0].0, &agent(B, vec![])));
    assert!(same(&net.stuck[0].1, &agent(ANTI, vec![])));
}

#[test]
fn agent_map_overwrites_in_place() {
    let mut map: AgentMap<u64> = AgentMap::new();
    assert!(map.get(A).is_none());
    map.insert(A, 1);
    map.insert(B, 2);
    map.insert(A, 3);
    assert_eq!(map.get(A), Some(&3));
    assert_eq!(map.get(B), Some(&2));
    assert_eq!(map.position(B), Some(1));
    assert_eq!(map.entries.len(), 2);
    let copy = map.duplicate();
    assert_eq!(copy.entries, map.entries);
}

#[test]
fn name_map_overwrites_in_place() {
    let mut map: NameMap<u64> = NameMap::new();
    map.insert("x".to_string(), 1);
    map.insert("y".to_string(), 2);
    map.insert("x".to_string(), 3);
    assert_eq!(map.get(&"x".to_string()), Some(&3));
    assert_eq!(map.get(&"z".to_string()), None);
    assert_eq!(map.position(&"y".to_string()), Some(1));
    assert_eq!(map.entries.len(), 2);
}

#[test]
fn the_table_comes_before_every_structural_rule() {
    let mut system = InteractionSystem::new();
    system.antitype = Some(ANTI);
    system.arities.insert(ANTI, 1);
    system.arities.insert(ANTI.inverse(), 1);
    system.arities.insert(A, 2);
    system.arities.insert(A.inverse(), 2);
    system.add_rule(ANTI, ANTI, rule(0));
    system.add_rule(A, ANTI, rule(1));
    system.add_rule(A.inverse(), A, rule(2));
    system.add_rule(ANTI, ANTI.inverse(), rule(3));
    assert_eq!(system.resolve(ANTI, ANTI), Resolution::Explicit { index: 0, flipped: false });
    let a_anti = system.resolve(A, ANTI);
    let anti_a = system.resolve(ANTI, A);
    assert!(matches!(a_anti, Resolution::Explicit { index: 1, .. }));
    assert!(matches!(anti_a, Resolution::Explicit { index: 1, .. }));
    assert!(matches!(system.resolve(A, A.inverse()), Resolution::Explicit { index: 2, .. }));
    assert!(matches!(system.resolve(A.inverse(), A), Resolution::Explicit { index: 2, .. }));
    assert!(matches!(system.resolve(ANTI.inverse(), ANTI), Resolution::Explicit { index: 3, .. }));
    assert_eq!(system.resolve(A.inverse(), ANTI), Resolution::AntitypeDistribute { flipped: true, arity: 2 });
}

#[test]
fn the_dual_of_the_antitype_agent_annihilates_with_it() {
    let mut system = InteractionSystem::new();
    system.antitype = Some(ANTI);
    system.arities.insert(ANTI, 1);
    system.arities.insert(ANTI.inverse(), 1);
    // dual first: port is wired to port
    let mut net = Net::new();
    let x = net.new_var();
    let y = net.new_var();
    net.interact(
        &system,
        agent(ANTI.inverse(), vec![Tree::Var { id: x }]),
        agent(ANTI, vec![Tree::Var { id: y }]),
    );
    assert!(net.stuck.is_empty());
    assert_eq!(net.interactions.len(), 2);
    for (p, q) in net.interactions.iter() {
        assert!(matches!(p, Tree::Var { .. }));
        assert!(matches!(q, Tree::Var { .. }));
    }
    // antitype first: it distributes over its dual
    let mut net = Net::new();
    let x = net.new_var();
    let y = net.new_var();
    net.interact(
        &system,
        agent(ANTI, vec![Tree::Var { id: x }]),
        agent(ANTI.inverse(), vec![Tree::Var { id: y }]),
    );
    assert!(net.stuck.is_empty());
    assert!(net.interactions.iter().any(|(p, q)| {
        matches!(p, Tree::Agent { id, .. } if *id == ANTI) || matches!(q, Tree::Agent { id, .. } if *id == ANTI)
    }));
}
