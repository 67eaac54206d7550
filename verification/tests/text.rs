use inet_spec::net::Net;
use inet_spec::rules::InteractionSystem;
use inet_spec::show::{decimal, show_label, show_var};
use inet_spec::tables::AgentMap;
use inet_spec::term::{AgentId, Tree, VarId};
use std::collections::BTreeMap;

const A: AgentId = AgentId(0, false);
const B: AgentId = AgentId(1, false);

fn agent(id: AgentId, aux: Vec<Tree>) -> Tree {
    Tree::Agent { id, aux }
}

fn var(n: u64) -> Tree {
    Tree::Var { id: VarId(n) }
}

fn labels() -> AgentMap<String> {
    let mut labels = AgentMap::new();
    labels.insert(A, "A".to_string());
    labels.insert(B, "Bee".to_string());
    labels
}

#[test]
fn numbers_in_decimal() {
    assert_eq!(decimal(0), "0");
    assert_eq!(decimal(7), "7");
    assert_eq!(decimal(10), "10");
    assert_eq!(decimal(1905), "1905");
    assert_eq!(decimal(u64::MAX), "18446744073709551615");
}

#[test]
fn variables_are_shown_by_name_or_number() {
    let mut scope = BTreeMap::new();
    scope.insert(3, "x".to_string());
    assert_eq!(show_var(&scope, 3), "x");
    assert_eq!(show_var(&scope, 12), "?12");
}

#[test]
fn trees_as_text() {
    let net = Net::new();
    let scope = BTreeMap::new();
    let mut visited = vec![];
    let t = agent(A, vec![agent(B, vec![]), var(4), agent(B, vec![var(0)])]);
    assert_eq!(net.show_tree(&labels(), &scope, &mut visited, &t), "A(Bee ?4 Bee(?0))");
    assert!(visited.is_empty());
    // An agent without a label is shown by its base index.
    let unknown = agent(A, vec![agent(AgentId(9, true), vec![]), agent(AgentId(12, false), vec![])]);
    assert_eq!(net.show_tree(&labels(), &scope, &mut visited, &unknown), "A(~#9 #12)");
    assert_eq!(show_label(&labels(), B), "Bee");
    assert_eq!(show_label(&labels(), B.inverse()), "~#1");
}

#[test]
fn a_bound_variable_is_shown_by_its_value_once() {
    let system = InteractionSystem::new();
    let mut net = Net::new();
    let x = net.new_var();
    net.interact(&system, agent(B, vec![]), Tree::Var { id: x });
    let mut scope = BTreeMap::new();
    scope.insert(0, "x".to_string());
    let mut visited = vec![];
    let t = agent(A, vec![var(0), var(0)]);
    assert_eq!(net.show_tree(&labels(), &scope, &mut visited, &t), "A(Bee x)");
    assert_eq!(visited, vec![0]);
}

#[test]
fn showing_a_tree_records_the_variables_it_followed() {
    let mut net = Net::new();
    // nothing is bound: nothing is followed, whatever was visited before
    let mut scope = BTreeMap::new();
    scope.insert(7, "x".to_string());
    let mut visited = vec![];
    let t = agent(A, vec![agent(B, vec![]), var(5), var(7)]);
    assert_eq!(net.show_tree(&labels(), &scope, &mut visited, &t), "A(Bee ?5 x)");
    assert_eq!(visited, Vec::<u64>::new());
    let mut visited = vec![5, 9];
    assert_eq!(net.show_tree(&labels(), &scope, &mut visited, &t), "A(Bee ?5 x)");
    assert_eq!(visited, vec![5, 9]);
    // a chain of bindings is followed in the order in which it is met
    net.vars.insert(2, Some(agent(B, vec![var(1)])));
    net.vars.insert(1, Some(agent(B, vec![])));
    net.vars.insert(3, None);
    net.vars.insert(4, Some(agent(A, vec![])));
    let t = agent(A, vec![var(4), var(3), var(2), var(1)]);
    let mut visited = vec![8];
    assert_eq!(
        net.show_tree(&labels(), &BTreeMap::new(), &mut visited, &t),
        "A(A ?3 Bee(Bee) ?1)"
    );
    assert_eq!(visited, vec![8, 4, 2, 1]);
}

#[test]
fn nets_as_text() {
    let system = InteractionSystem::new();
    let mut net = Net::new();
    let x = net.new_var();
    let y = net.new_var();
    let _z = net.new_var();
    net.interact(&system, agent(B, vec![]), Tree::Var { id: x });
    net.interact(&system, agent(A, vec![Tree::Var { id: x }]), Tree::Var { id: y });
    net.interact(&system, agent(A, vec![]), agent(B, vec![]));
    net.link(var(2), agent(A, vec![]));
    let mut scope = BTreeMap::new();
    scope.insert(1, "y".to_string());
    assert_eq!(net.show_net_compact(&labels(), &scope), "?2 = A\nA = Bee\n");
    assert_eq!(
        net.show_net(&labels(), &scope, true),
        "?2 = A\n?0 = Bee\ny = A(?0)\nA = Bee\n"
    );
    let nameless: AgentMap<String> = AgentMap::new();
    assert_eq!(net.show_net(&nameless, &scope, false), "?2 = #0\n#0 = #1\n");
}

#[test]
fn a_followed_binding_is_not_listed_again() {
    let system = InteractionSystem::new();
    let mut net = Net::new();
    let x = net.new_var();
    net.interact(&system, agent(B, vec![]), Tree::Var { id: x });
    net.link(var(0), agent(A, vec![]));
    let scope = BTreeMap::new();
    // The pending pair shows x by its value; the list of variables skips it.
    assert_eq!(net.show_net(&labels(), &scope, true), "Bee = A\n");
}
