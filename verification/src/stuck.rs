//! What gets stuck: reduction leaves a pair stuck exactly where two agents
//! meet that have no rule, and the well-typedness check reports a rule
//! exactly where that happens in its probe.

use crate::builder::Definition;
use crate::checks::{
    blank, exempt, finding, ill_typed, negated, observed, typing_probe, TypingViolationView,
};
use crate::net::{apply, react, reduced, shorter, step, wire_ports, NetView};
use crate::rules::{rule_for, RuleView, SystemView};
use crate::term::{AgentId, TreeView, VarId};
use vstd::prelude::*;

verus! {

/// The pair is one of two agents that have no rule.
pub open spec fn ruleless(sys: SystemView, p: (TreeView, TreeView)) -> bool {
    p.0 is Agent && p.1 is Agent && rule_for(sys, p.0->Agent_id, p.1->Agent_id) is None
}

/// The stuck pairs `after` are the stuck pairs `before` and, behind them,
/// only pairs of agents that have no rule.
pub open spec fn stuck_since(
    sys: SystemView,
    before: Seq<(TreeView, TreeView)>,
    after: Seq<(TreeView, TreeView)>,
) -> bool {
    &&& before.len() <= after.len()
    &&& forall|i: int| 0 <= i < before.len() ==> after[i] == before[i]
    &&& forall|i: int| before.len() <= i < after.len() ==> ruleless(sys, #[trigger] after[i])
}

/// Linking templates to ports leaves the stuck pairs as they are.
proof fn lemma_wire_keeps_stuck(
    net: NetView,
    scope: Map<u64, u64>,
    templates: Seq<TreeView>,
    actuals: Seq<TreeView>,
    n: nat,
)
    ensures
        wire_ports(net, scope, templates, actuals, n).0.stuck == net.stuck,
    decreases n,
{
    if !(n == 0 || n > templates.len() || n > actuals.len()) {
        lemma_wire_keeps_stuck(net, scope, templates, actuals, (n - 1) as nat);
    }
}

/// Applying a rule leaves the stuck pairs as they are.
proof fn lemma_apply_keeps_stuck(
    net: NetView,
    rule: RuleView,
    left: Seq<TreeView>,
    right: Seq<TreeView>,
)
    ensures
        apply(net, rule, left, right).stuck == net.stuck,
{
    let nl = shorter(rule.left_ports.len(), left.len());
    let nr = shorter(rule.right_ports.len(), right.len());
    let m = wire_ports(net, Map::empty(), rule.left_ports, left, nl);
    lemma_wire_keeps_stuck(net, Map::empty(), rule.left_ports, left, nl);
    lemma_wire_keeps_stuck(m.0, m.1, rule.right_ports, right, nr);
}

/// One rewrite adds the pair to the stuck pairs where it is a pair of
/// agents that have no rule, and leaves the stuck pairs as they are
/// otherwise.
pub proof fn law_react_stuck(net: NetView, sys: SystemView, a: TreeView, b: TreeView)
    ensures
        react(net, sys, a, b).stuck == (if ruleless(sys, (a, b)) {
            net.stuck.push((a, b))
        } else {
            net.stuck
        }),
{
    match (a, b) {
        (TreeView::Agent { id: id1, aux: aux1 }, TreeView::Agent { id: id2, aux: aux2 }) => {
            match rule_for(sys, id1, id2) {
                Some((rule, flipped)) => {
                    lemma_apply_keeps_stuck(net, rule, aux1, aux2);
                    lemma_apply_keeps_stuck(net, rule, aux2, aux1);
                },
                None => {},
            }
        },
        _ => {},
    }
}

/// Reduction only adds to the stuck pairs, and adds only pairs of agents
/// that have no rule.
pub proof fn law_reduced_stuck(net: NetView, sys: SystemView, limit: nat)
    ensures
        stuck_since(sys, net.stuck, reduced(net, sys, limit).stuck),
    decreases limit,
{
    if !(limit == 0 || net.interactions.len() == 0) {
        let p = net.interactions.last();
        let rest = NetView { interactions: net.interactions.drop_last(), ..net };
        law_react_stuck(rest, sys, p.0, p.1);
        law_reduced_stuck(step(net, sys), sys, (limit - 1) as nat);
    }
}

/// A pair of agents without a rule that comes to interact is stuck for
/// good: where the last pending pair of a net is such a pair, it is among
/// the stuck pairs after any reduction of at least one step.
pub proof fn law_pair_without_rule_stays_stuck(net: NetView, sys: SystemView, limit: nat)
    requires
        limit > 0,
        net.interactions.len() > 0,
        ruleless(sys, net.interactions.last()),
    ensures
        reduced(net, sys, limit).stuck.len() > net.stuck.len(),
        reduced(net, sys, limit).stuck[net.stuck.len() as int] == net.interactions.last(),
{
    let p = net.interactions.last();
    let rest = NetView { interactions: net.interactions.drop_last(), ..net };
    law_react_stuck(rest, sys, p.0, p.1);
    law_reduced_stuck(step(net, sys), sys, (limit - 1) as nat);
}

/// Where every two agents have a rule, reduction leaves the stuck pairs as
/// they are.
pub proof fn law_rules_for_all_nothing_stuck(net: NetView, sys: SystemView, limit: nat)
    requires
        forall|a: AgentId, b: AgentId| #[trigger] rule_for(sys, a, b) is Some,
    ensures
        reduced(net, sys, limit).stuck == net.stuck,
{
    law_reduced_stuck(net, sys, limit);
    let after = reduced(net, sys, limit).stuck;
    if after.len() > net.stuck.len() {
        let p = after[net.stuck.len() as int];
        assert(ruleless(sys, p));
        assert(rule_for(sys, p.0->Agent_id, p.1->Agent_id) is Some);
    }
    assert(after =~= net.stuck);
}

/// The stuck pairs of the probe of a rule, before and after its reduction,
/// are pairs of agents that have no rule.
proof fn lemma_probe_stuck(
    sys: SystemView,
    annotator: AgentId,
    antitype: AgentId,
    left: AgentId,
    nl: nat,
    right: AgentId,
    nr: nat,
)
    ensures
        stuck_since(
            sys,
            Seq::empty(),
            reduced(
                typing_probe(sys, annotator, antitype, left, nl, right, nr),
                sys,
                u64::MAX as nat,
            ).stuck,
        ),
{
    let out = TreeView::Agent {
        id: annotator,
        aux: seq![TreeView::Var { id: VarId((nl + nr) as u64) }],
    };
    let n0 = NetView {
        interactions: Seq::empty(),
        vars: blank(nl + nr + 1),
        stuck: Seq::empty(),
    };
    let a1 = TreeView::Agent { id: left, aux: observed(annotator, 0, nl) };
    let a2 = TreeView::Agent { id: right, aux: observed(annotator, nl, nr) };
    let a3 = TreeView::Agent { id: left, aux: negated(annotator, antitype, 0, nl) };
    let b3 = TreeView::Agent {
        id: right,
        aux: negated(annotator, antitype, nl, nr),
    };
    let n1 = react(n0, sys, a1, out);
    let n2 = react(n1, sys, a2, out);
    let n3 = react(n2, sys, a3, b3);
    law_react_stuck(n0, sys, a1, out);
    law_react_stuck(n1, sys, a2, out);
    law_react_stuck(n2, sys, a3, b3);
    assert(n3 == typing_probe(sys, annotator, antitype, left, nl, right, nr));
    law_reduced_stuck(n3, sys, u64::MAX as nat);
}

/// The well-typedness check reports a rule exactly where agents without a
/// rule met in its probe: a rule that is reported is not exempt, and what
/// its probe reduced to holds a stuck pair, each stuck pair being one of
/// two agents that have no rule; of a rule that is not reported and not
/// exempt, the probe reduced without a stuck pair.
pub proof fn law_report_means_pair_without_rule(
    sys: SystemView,
    annotation: AgentId,
    annotator: AgentId,
    antitype: AgentId,
    d: Definition,
    at: usize,
)
    ensures
        match finding(sys, annotation, annotator, antitype, d, at) {
            Some(v) => !exempt(d, annotation, annotator) && v.rule == at && v.left_id == d.left_id
                && v.right_id == d.right_id && v.reduced.stuck.len() > 0 && forall|i: int|
                0 <= i < v.reduced.stuck.len() ==> ruleless(sys, #[trigger] v.reduced.stuck[i]),
            None => exempt(d, annotation, annotator) || reduced(
                typing_probe(
                    sys,
                    annotator,
                    antitype,
                    d.left_id,
                    d.left_children@.len(),
                    d.right_id,
                    d.right_children@.len(),
                ),
                sys,
                u64::MAX as nat,
            ).stuck.len() == 0,
        },
{
    reveal(finding);
    lemma_probe_stuck(
        sys,
        annotator,
        antitype,
        d.left_id,
        d.left_children@.len(),
        d.right_id,
        d.right_children@.len(),
    );
}

/// Where every two agents have a rule, every rule is well typed: the check
/// reports nothing.
pub proof fn law_rules_for_all_nothing_reported(
    sys: SystemView,
    annotation: AgentId,
    annotator: AgentId,
    antitype: AgentId,
    defs: Seq<Definition>,
    n: nat,
)
    requires
        forall|a: AgentId, b: AgentId| #[trigger] rule_for(sys, a, b) is Some,
    ensures
        ill_typed(sys, annotation, annotator, antitype, defs, n) == Seq::<
            TypingViolationView,
        >::empty(),
    decreases n,
{
    if !(n == 0 || n > defs.len()) {
        law_rules_for_all_nothing_reported(
            sys,
            annotation,
            annotator,
            antitype,
            defs,
            (n - 1) as nat,
        );
        law_report_means_pair_without_rule(
            sys,
            annotation,
            annotator,
            antitype,
            defs[n - 1],
            (n - 1) as usize,
        );
        match finding(sys, annotation, annotator, antitype, defs[n - 1], (n - 1) as usize) {
            Some(v) => {
                let p = v.reduced.stuck[0];
                assert(ruleless(sys, p));
                assert(rule_for(sys, p.0->Agent_id, p.1->Agent_id) is Some);
            },
            None => {},
        }
    }
}

} // verus!
