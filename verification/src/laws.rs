//! Laws of the engine, stated over its mathematical model.

use crate::builder::{
    base_name, declared, lemma_found_is_declared, lemma_marked_base, lemma_names_apart, marked_id,
    ProgramBuilder,
};
use crate::net::{
    lemma_subst_ports_shrinks, lemma_subst_shrinks, part_of, resolve, resolve_ports, settled,
    settled_ports, subst, subst_ports,
};
use crate::rules::{
    annihilate_rule, distribute_rule, rule_for, unordered, InteractionSystem, SystemView,
};
use crate::term::{AgentId, TreeView};
use vstd::prelude::*;

verus! {

/// Duality is an involution without fixed points: the dual of the dual of an
/// agent is the agent, and no agent is its own dual.
pub proof fn law_dual_involution(a: AgentId)
    ensures
        a.dual().dual() == a,
        a.dual() != a,
        a.dual().0 == a.0,
{
}

/// Dual agents share one arity: in a well-formed builder an agent has an
/// arity on record exactly if its dual has, and the two are equal.
pub proof fn law_dual_arity(b: ProgramBuilder, a: AgentId)
    requires
        b.wf(),
    ensures
        b.arities.map().contains_key(a) == b.arities.map().contains_key(a.dual()),
        b.arities.map().contains_key(a) ==> b.arities.map()[a] == b.arities.map()[a.dual()],
{
    assert(a.dual().dual() == a);
    if b.arities.map().contains_key(a.dual()) {
        assert(b.arities.map().contains_key(a.dual().dual()));
    }
}

/// Two names name two agents: in a well-formed builder the agents that two
/// names of the scopes stand for are not one agent, nor one the dual of the
/// other, and neither is a dual.
pub proof fn law_names_name_apart(b: ProgramBuilder, n1: Seq<char>, n2: Seq<char>)
    requires
        b.wf(),
        b.agent_named(n1) is Some,
        b.agent_named(n2) is Some,
        n1 != n2,
    ensures
        b.agent_named(n1)->Some_0.0 != b.agent_named(n2)->Some_0.0,
        !b.agent_named(n1)->Some_0.1,
        !b.agent_named(n2)->Some_0.1,
{
    lemma_names_apart(b@.levels, n1, n2);
    lemma_found_is_declared(b@.levels, n1);
    lemma_found_is_declared(b@.levels, n2);
    let d = declared(b@.levels);
    let k1 = choose|k: int| 0 <= k < d.len() && d[k] == b.agent_named(n1)->Some_0;
    let k2 = choose|k: int| 0 <= k < d.len() && d[k] == b.agent_named(n2)->Some_0;
    assert(!d[k1].1 && !d[k2].1);
}

/// Written names with different base names stand for different agents,
/// whatever their duality markers: the agents that they resolve to differ
/// in their base index.
pub proof fn law_written_names_name_apart(b: ProgramBuilder, n1: Seq<char>, n2: Seq<char>)
    requires
        b.wf(),
        b.agent_named(base_name(n1)) is Some,
        b.agent_named(base_name(n2)) is Some,
        base_name(n1) != base_name(n2),
    ensures
        marked_id(b.agent_named(base_name(n1))->Some_0, n1).0 != marked_id(
            b.agent_named(base_name(n2))->Some_0,
            n2,
        ).0,
{
    law_names_name_apart(b, base_name(n1), base_name(n2));
    lemma_marked_base(b.agent_named(base_name(n1))->Some_0, n1);
    lemma_marked_base(b.agent_named(base_name(n2))->Some_0, n2);
}

/// An unordered pair of agents has at most one rule: where the table holds a
/// rule for `a` and `b` in each order, `a` is `b` and the two are one rule.
pub proof fn law_one_rule_per_pair(sys: InteractionSystem, a: AgentId, b: AgentId)
    requires
        sys.registered(a, b) is Some,
        sys.registered(b, a) is Some,
    ensures
        a == b,
        sys.registered(a, b) == sys.registered(b, a),
{
    assert(unordered(a, b) == unordered(b, a));
}

/// The table comes before every structural rule: a pair that the table
/// holds rewrites by its entry, whatever the two agents are; the left
/// templates belong to the first agent where the entry was registered in
/// this order.
pub proof fn law_table_comes_first(sys: SystemView, a: AgentId, b: AgentId)
    requires
        sys.table.contains_key(unordered(a, b)),
    ensures
        rule_for(sys, a, b) == Some(
            (
                sys.table[unordered(a, b)].rule,
                !(sys.table[unordered(a, b)].left == a && sys.table[unordered(a, b)].right == b),
            ),
        ),
{
}

/// An agent of known arity and its dual annihilate, port for port, where
/// the table holds nothing for the two and the agent that stands first is
/// not the antitype agent; the second may be.
pub proof fn law_dual_pair_annihilates(sys: SystemView, a: AgentId)
    requires
        !sys.table.contains_key(unordered(a, a.dual())),
        sys.antitype != Some(a),
        sys.arities.contains_key(a),
    ensures
        rule_for(sys, a, a.dual()) == Some((annihilate_rule(sys.arities[a] as nat), false)),
{
    assert(a.dual().dual() == a);
}

/// The antitype agent, standing first, distributes over every other agent
/// of known arity, its own dual included, where the table holds nothing for
/// the two.
pub proof fn law_antitype_distributes(sys: SystemView, b: AgentId)
    requires
        sys.antitype is Some,
        sys.antitype != Some(b),
        !sys.table.contains_key(unordered(sys.antitype->Some_0, b)),
        sys.arities.contains_key(b),
    ensures
        rule_for(sys, sys.antitype->Some_0, b) == Some(
            (distribute_rule(sys.antitype->Some_0, b, sys.arities[b] as nat), false),
        ),
{
}

/// Two agents have no rule where the table holds nothing for them, neither
/// is the antitype agent, and they are not duals of each other.
pub proof fn law_no_rule(sys: SystemView, a: AgentId, b: AgentId)
    requires
        !sys.table.contains_key(unordered(a, b)),
        sys.antitype != Some(a),
        sys.antitype != Some(b),
        a != b.dual(),
    ensures
        rule_for(sys, a, b) is None,
{
}

/// Resolving a fully resolved tree gives the tree itself, so resolving twice
/// gives what resolving once gives.
pub proof fn law_resolved_tree_is_fixed(vars: Map<u64, Option<TreeView>>, t: TreeView)
    requires
        settled(vars, t),
    ensures
        resolve(vars, t) == t,
        resolve(vars, resolve(vars, t)) == resolve(vars, t),
    decreases t, 0nat,
{
    match t {
        TreeView::Var { id } => {},
        TreeView::Agent { id, aux } => {
            lemma_resolved_ports_are_fixed(vars, aux, aux.len());
            assert(aux.take(aux.len() as int) =~= aux);
        },
    }
}

/// Resolving fully resolved trees gives the trees themselves.
proof fn lemma_resolved_ports_are_fixed(
    vars: Map<u64, Option<TreeView>>,
    ts: Seq<TreeView>,
    n: nat,
)
    requires
        n <= ts.len(),
        settled_ports(vars, ts, n),
    ensures
        resolve_ports(vars, ts, n) == ts.take(n as int),
    decreases ts, n,
{
    if n > 0 {
        lemma_resolved_ports_are_fixed(vars, ts, (n - 1) as nat);
        law_resolved_tree_is_fixed(vars, ts[n - 1]);
    }
    assert(resolve_ports(vars, ts, n) =~= ts.take(n as int));
}

/// Resolution is idempotent wherever it ends in a fully resolved tree.
pub proof fn law_resolve_idempotent(vars: Map<u64, Option<TreeView>>, t: TreeView)
    requires
        settled(vars, resolve(vars, t)),
    ensures
        resolve(vars, resolve(vars, t)) == resolve(vars, t),
{
    law_resolved_tree_is_fixed(vars, resolve(vars, t));
}

/// A tree that is fully resolved in a store is fully resolved in every part
/// of the store.
pub proof fn lemma_settled_in_part(
    whole: Map<u64, Option<TreeView>>,
    part: Map<u64, Option<TreeView>>,
    t: TreeView,
)
    requires
        part_of(part, whole),
        settled(whole, t),
    ensures
        settled(part, t),
    decreases t, 0nat,
{
    match t {
        TreeView::Var { id } => {
            if part.contains_key(id.0) {
                assert(whole.contains_key(id.0));
            }
        },
        TreeView::Agent { id, aux } => {
            lemma_settled_ports_in_part(whole, part, aux, aux.len());
        },
    }
}

/// Trees that are fully resolved in a store are fully resolved in every
/// part of the store.
proof fn lemma_settled_ports_in_part(
    whole: Map<u64, Option<TreeView>>,
    part: Map<u64, Option<TreeView>>,
    ts: Seq<TreeView>,
    n: nat,
)
    requires
        part_of(part, whole),
        settled_ports(whole, ts, n),
    ensures
        settled_ports(part, ts, n),
    decreases ts, n,
{
    if n == 0 || n > ts.len() {
    } else {
        lemma_settled_ports_in_part(whole, part, ts, (n - 1) as nat);
        lemma_settled_in_part(whole, part, ts[n - 1]);
    }
}

/// The settledness of a prefix depends on the prefix alone.
proof fn lemma_settled_ports_prefix(
    vars: Map<u64, Option<TreeView>>,
    a: Seq<TreeView>,
    b: Seq<TreeView>,
    n: nat,
)
    requires
        n <= a.len(),
        n <= b.len(),
        forall|i: int| 0 <= i < n ==> a[i] == b[i],
    ensures
        settled_ports(vars, a, n) == settled_ports(vars, b, n),
    decreases n,
{
    if n > 0 {
        lemma_settled_ports_prefix(vars, a, b, (n - 1) as nat);
    }
}

/// What is read out of a store is fully resolved in the store that is left:
/// reading leaves no bound variable in the tree. So resolving the tree
/// against that store gives the tree itself.
pub proof fn law_read_tree_is_resolved(vars: Map<u64, Option<TreeView>>, t: TreeView)
    requires
        vars.dom().finite(),
    ensures
        settled(subst(vars, t).1, subst(vars, t).0),
        resolve(subst(vars, t).1, subst(vars, t).0) == subst(vars, t).0,
    decreases vars.dom().len(), t, 0nat,
{
    match t {
        TreeView::Var { id } => {
            if vars.contains_key(id.0) && vars[id.0] is Some {
                law_read_tree_is_resolved(vars.remove(id.0), vars[id.0]->Some_0);
            }
        },
        TreeView::Agent { id, aux } => {
            lemma_read_ports_are_resolved(vars, aux, aux.len());
            lemma_subst_ports_shrinks(vars, aux, aux.len());
        },
    }
    law_resolved_tree_is_fixed(subst(vars, t).1, subst(vars, t).0);
}

/// The trees read out of a store are fully resolved in the store that is
/// left.
proof fn lemma_read_ports_are_resolved(vars: Map<u64, Option<TreeView>>, ts: Seq<TreeView>, n: nat)
    requires
        vars.dom().finite(),
        n <= ts.len(),
    ensures
        subst_ports(vars, ts, n).0.len() == n,
        settled_ports(subst_ports(vars, ts, n).1, subst_ports(vars, ts, n).0, n),
    decreases vars.dom().len(), ts, n,
{
    if n > 0 {
        let before = subst_ports(vars, ts, (n - 1) as nat);
        lemma_read_ports_are_resolved(vars, ts, (n - 1) as nat);
        lemma_subst_ports_shrinks(vars, ts, (n - 1) as nat);
        law_read_tree_is_resolved(before.1, ts[n - 1]);
        lemma_subst_shrinks(before.1, ts[n - 1]);
        let last = subst(before.1, ts[n - 1]);
        let after = subst_ports(vars, ts, n);
        assert(after.0 == before.0.push(last.0));
        lemma_settled_ports_in_part(before.1, last.1, before.0, (n - 1) as nat);
        lemma_settled_ports_prefix(last.1, before.0, after.0, (n - 1) as nat);
    }
}

} // verus!
