//! The findings of the checks as text.

use crate::builder::{name_views, ProgramBuilder};
use crate::checks::{CompletenessViolation, InverseViolation, TypingViolation};
use crate::show::{scope_views, shown_net};
use crate::tables::AgentMap;
use crate::term::AgentId;
use std::collections::BTreeMap;
use vstd::prelude::*;
use vstd::string::*;

verus! {

/// The report of a gap in the rules, over the names of the two instances
/// and of their types.
pub open spec fn completeness_text(
    a: Seq<char>,
    b: Seq<char>,
    a_type: Seq<char>,
    b_type: Seq<char>,
) -> Seq<char> {
    "Completeness check failed:\n\tInteraction "@ + a_type + " ~ "@ + b_type
        + " is defined\n\t"@ + a + ": "@ + a_type + "\n\t"@ + b + ": "@ + b_type
        + "\n\tbut interaction "@ + a + " ~ "@ + b + " isn't"@
}

/// The report of a broken chain, over the names of its four agents.
pub open spec fn inverse_text(a: Seq<char>, b: Seq<char>, b_dual: Seq<char>, c: Seq<char>) -> Seq<
    char,
> {
    "Inverse check failed:\n\tInteraction "@ + a + " ~ "@ + b + " is defined\n\tInteraction "@
        + b_dual + " ~ "@ + c + " is defined\n\twhich means "@ + c + " <= "@ + b + ", "@ + a
        + " <= "@ + b_dual + "\n\tbut interaction "@ + a + " ~ "@ + c + " isn't defined"@
}

/// The report of a rule that is not well typed, over the names of its two
/// agents and the texts of its probe before and after reduction.
pub open spec fn typing_text(
    left: Seq<char>,
    right: Seq<char>,
    probe: Seq<char>,
    reduced: Seq<char>,
) -> Seq<char> {
    "Rule "@ + left + " = "@ + right + " is not well typed!\nOriginal net:\n"@ + probe
        + "\n----------------------------\n"@ + reduced
}

impl<'i> ProgramBuilder<'i> {
    /// The label of every agent whose base name is on record: the name under
    /// which the agent is shown.
    pub open spec fn labels(self) -> Map<AgentId, Seq<char>> {
        Map::new(
            |a: AgentId| self.names().contains_key(AgentId(a.0, false)),
            |a: AgentId| self.shown(a),
        )
    }

    /// The labels of the agents, as a table.
    pub fn agent_labels(&self) -> (labels: AgentMap<String>)
        ensures
            name_views(labels.map()) == self.labels(),
    {
        let mut labels: AgentMap<String> = AgentMap::new();
        let mut i: usize = 0;
        let ghost keys = self.agent_scope_back.keys();
        assert(name_views(labels.map()) =~= Map::<AgentId, Seq<char>>::empty());
        while i < self.agent_scope_back.entries.len()
            invariant
                i <= self.agent_scope_back.entries@.len(),
                keys == self.agent_scope_back.keys(),
                forall|a: AgentId| #[trigger]
                    name_views(labels.map()).contains_key(a) <==> exists|j: int|
                        0 <= j < i && keys[j] == AgentId(a.0, false),
                forall|a: AgentId| #[trigger]
                    name_views(labels.map()).contains_key(a) ==> name_views(labels.map())[a]
                        == self.shown(a),
            decreases self.agent_scope_back.entries@.len() - i,
        {
            let key = self.agent_scope_back.entries[i].0;
            let ghost before = name_views(labels.map());
            if !key.1 {
                assert(keys[i as int] == key);
                assert(keys.contains(key));
                let plain = self.show_agent(key);
                let flipped = self.show_agent(key.inverse());
                proof {
                    crate::builder::lemma_name_views_insert(labels.map(), key, plain);
                }
                labels.insert(key, plain);
                proof {
                    crate::builder::lemma_name_views_insert(labels.map(), key.dual(), flipped);
                }
                labels.insert(key.inverse(), flipped);
                proof {
                    assert forall|a: AgentId| #[trigger]
                        name_views(labels.map()).contains_key(a) <==> exists|j: int|
                            0 <= j < i + 1 && keys[j] == AgentId(a.0, false) by {
                        if name_views(labels.map()).contains_key(a) {
                            if before.contains_key(a) {
                                let j = choose|j: int| 0 <= j < i && keys[j] == AgentId(a.0, false);
                                assert(0 <= j < i + 1 && keys[j] == AgentId(a.0, false));
                            } else {
                                assert(keys[i as int] == AgentId(a.0, false));
                            }
                        }
                        if exists|j: int| 0 <= j < i + 1 && keys[j] == AgentId(a.0, false) {
                            let j = choose|j: int|
                                0 <= j < i + 1 && keys[j] == AgentId(a.0, false);
                            if j < i {
                                assert(before.contains_key(a));
                            } else {
                                assert(a == key || a == key.dual());
                            }
                        }
                    }
                }
            } else {
                proof {
                    assert forall|a: AgentId| #[trigger]
                        name_views(labels.map()).contains_key(a) <==> exists|j: int|
                            0 <= j < i + 1 && keys[j] == AgentId(a.0, false) by {
                        if name_views(labels.map()).contains_key(a) {
                            let j = choose|j: int| 0 <= j < i && keys[j] == AgentId(a.0, false);
                            assert(0 <= j < i + 1 && keys[j] == AgentId(a.0, false));
                        }
                        if exists|j: int| 0 <= j < i + 1 && keys[j] == AgentId(a.0, false) {
                            let j = choose|j: int|
                                0 <= j < i + 1 && keys[j] == AgentId(a.0, false);
                            assert(j < i);
                        }
                    }
                }
            }
            i += 1;
        }
        proof {
            assert forall|a: AgentId| #[trigger]
                name_views(labels.map()).contains_key(a) <==> self.labels().contains_key(a) by {
                let base = AgentId(a.0, false);
                if self.names().contains_key(base) {
                    let j = choose|j: int| 0 <= j < keys.len() && keys[j] == base;
                    assert(0 <= j < i && keys[j] == AgentId(a.0, false));
                }
                if name_views(labels.map()).contains_key(a) {
                    let j = choose|j: int| 0 <= j < i && keys[j] == AgentId(a.0, false);
                    assert(keys.contains(base));
                }
            }
            assert(name_views(labels.map()) =~= self.labels());
        }
        labels
    }

    /// The name on record for the agent `a`.
    pub fn agent_name(&self, a: AgentId) -> (name: &String)
        requires
            self.names().contains_key(a),
        ensures
            name@ == self.names()[a],
    {
        self.agent_scope_back.get(a).unwrap()
    }

    /// The report of a gap in the rules.
    pub fn completeness_message(&self, v: &CompletenessViolation) -> (s: String)
        requires
            self.names().contains_key(v.a),
            self.names().contains_key(v.b),
            self.names().contains_key(v.a_type),
            self.names().contains_key(v.b_type),
        ensures
            s@ == completeness_text(
                self.names()[v.a],
                self.names()[v.b],
                self.names()[v.a_type],
                self.names()[v.b_type],
            ),
    {
        let a = self.agent_name(v.a).as_str();
        let b = self.agent_name(v.b).as_str();
        let a_type = self.agent_name(v.a_type).as_str();
        let b_type = self.agent_name(v.b_type).as_str();
        let mut s = String::from_str("Completeness check failed:\n\tInteraction ");
        s.append(a_type);
        s.append(" ~ ");
        s.append(b_type);
        s.append(" is defined\n\t");
        s.append(a);
        s.append(": ");
        s.append(a_type);
        s.append("\n\t");
        s.append(b);
        s.append(": ");
        s.append(b_type);
        s.append("\n\tbut interaction ");
        s.append(a);
        s.append(" ~ ");
        s.append(b);
        s.append(" isn't");
        s
    }

    /// The report of a broken chain.
    pub fn inverse_message(&self, v: &InverseViolation) -> (s: String)
        requires
            self.names().contains_key(v.a),
            self.names().contains_key(v.b),
            self.names().contains_key(v.b_dual),
            self.names().contains_key(v.c),
        ensures
            s@ == inverse_text(
                self.names()[v.a],
                self.names()[v.b],
                self.names()[v.b_dual],
                self.names()[v.c],
            ),
    {
        let a = self.agent_name(v.a).as_str();
        let b = self.agent_name(v.b).as_str();
        let b_dual = self.agent_name(v.b_dual).as_str();
        let c = self.agent_name(v.c).as_str();
        let mut s = String::from_str("Inverse check failed:\n\tInteraction ");
        s.append(a);
        s.append(" ~ ");
        s.append(b);
        s.append(" is defined\n\tInteraction ");
        s.append(b_dual);
        s.append(" ~ ");
        s.append(c);
        s.append(" is defined\n\twhich means ");
        s.append(c);
        s.append(" <= ");
        s.append(b);
        s.append(", ");
        s.append(a);
        s.append(" <= ");
        s.append(b_dual);
        s.append("\n\tbut interaction ");
        s.append(a);
        s.append(" ~ ");
        s.append(c);
        s.append(" isn't defined");
        s
    }

    /// The report of a rule that is not well typed: the rule, then the net
    /// that probes it, then what the probe reduced to.
    pub fn typing_message(&self, v: &TypingViolation) -> (s: String)
        requires
            self.names().contains_key(v.left_id),
            self.names().contains_key(v.right_id),
        ensures
            s@ == typing_text(
                self.names()[v.left_id],
                self.names()[v.right_id],
                shown_net(v.probe@, self.labels(), Map::empty(), false),
                shown_net(v.reduced@, self.labels(), Map::empty(), false),
            ),
    {
        let labels = self.agent_labels();
        let scope: BTreeMap<u64, String> = BTreeMap::new();
        assert(scope_views(scope@) =~= Map::<u64, Seq<char>>::empty());
        let probe = v.probe.show_net(&labels, &scope, false);
        let reduced = v.reduced.show_net(&labels, &scope, false);
        let mut s = String::from_str("Rule ");
        s.append(self.agent_name(v.left_id).as_str());
        s.append(" = ");
        s.append(self.agent_name(v.right_id).as_str());
        s.append(" is not well typed!\nOriginal net:\n");
        s.append(probe.as_str());
        s.append("\n----------------------------\n");
        s.append(reduced.as_str());
        s
    }
}

} // verus!
