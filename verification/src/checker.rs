//! The relational checks: which agents connect, what type an agent has, and
//! whether the rules are complete, closed under duality and well typed.
//! Each check drives the reduction engine or walks the registry, and hands
//! back what it found.

use crate::builder::{declared, duals, ProgramBuilder};
use crate::net::{react, reduced, subst, Net, NetView};
use crate::rules::{unordered, InteractionSystem, SystemView};
use crate::term::{lemma_agent_view, views, AgentId, Tree, TreeView, VarId};
use vstd::prelude::*;

verus! {

/// Whether the registry holds a rule between `x` and one of the first `n`
/// of the agents `set`.
pub open spec fn connects_any(sys: SystemView, x: AgentId, set: Seq<AgentId>, n: nat) -> bool
    decreases n,
{
    if n == 0 || n > set.len() {
        false
    } else {
        connects_any(sys, x, set, (n - 1) as nat) || sys.table.contains_key(
            unordered(x, set[n - 1]),
        )
    }
}

/// Those of the first `n` of `agents` that have a rule with one of `set`.
pub open spec fn connected_to_set(
    sys: SystemView,
    agents: Seq<AgentId>,
    set: Seq<AgentId>,
    n: nat,
) -> Seq<AgentId>
    decreases n,
{
    if n == 0 || n > agents.len() {
        Seq::empty()
    } else if connects_any(sys, agents[n - 1], set, set.len()) {
        connected_to_set(sys, agents, set, (n - 1) as nat).push(agents[n - 1])
    } else {
        connected_to_set(sys, agents, set, (n - 1) as nat)
    }
}

/// Those of the first `n` of `agents` that have a rule with `a`.
pub open spec fn connected_to(sys: SystemView, agents: Seq<AgentId>, a: AgentId, n: nat)
    -> Seq<AgentId>
    decreases n,
{
    if n == 0 || n > agents.len() {
        Seq::empty()
    } else if sys.table.contains_key(unordered(agents[n - 1], a)) {
        connected_to(sys, agents, a, (n - 1) as nat).push(agents[n - 1])
    } else {
        connected_to(sys, agents, a, (n - 1) as nat)
    }
}

/// The net that asks for the type of `agent`: the variables 0 (the type)
/// and 1 (the value) are allocated, and the annotator over an annotation of
/// them has met the bare agent.
pub open spec fn type_probe(
    sys: SystemView,
    annotator: AgentId,
    annotation: AgentId,
    agent: AgentId,
) -> NetView {
    let start = NetView {
        interactions: Seq::empty(),
        vars: Map::<u64, Option<TreeView>>::empty().insert(0, None).insert(1, None),
        stuck: Seq::empty(),
    };
    react(
        start,
        sys,
        TreeView::Agent {
            id: annotator,
            aux: seq![
                TreeView::Agent {
                    id: annotation,
                    aux: seq![TreeView::Var { id: VarId(1) }, TreeView::Var { id: VarId(0) }],
                },
            ],
        },
        TreeView::Agent { id: agent, aux: Seq::empty() },
    )
}

/// The type of `agent`: what the type variable of the reduced probe reads
/// as, where that is an agent.
pub open spec fn type_of(
    sys: SystemView,
    annotator: AgentId,
    annotation: AgentId,
    agent: AgentId,
) -> Option<AgentId> {
    let net = reduced(type_probe(sys, annotator, annotation, agent), sys, u64::MAX as nat);
    match subst(net.vars, TreeView::Var { id: VarId(0) }).0 {
        TreeView::Agent { id, aux } => Some(id),
        TreeView::Var { id } => None,
    }
}

impl<'i> ProgramBuilder<'i> {
    /// The agents that every check ranges over: the declared ones, then
    /// their duals.
    pub open spec fn universe(self) -> Seq<AgentId> {
        declared(self@.levels) + duals(declared(self@.levels))
    }

    /// The value of the compiled registry.
    pub open spec fn system(self) -> SystemView {
        self.interaction_system->Some_0@
    }

    /// The agents that have a rule with one of `set`.
    pub fn can_connect_to_set(&self, set: &Vec<AgentId>) -> (found: Vec<AgentId>)
        requires
            self.interaction_system is Some,
        ensures
            found@ == connected_to_set(
                self.system(),
                self.universe(),
                set@,
                self.universe().len(),
            ),
    {
        let system = self.interaction_system.as_ref().unwrap();
        let agents = self.agent_list();
        let mut found: Vec<AgentId> = Vec::new();
        let mut i: usize = 0;
        while i < agents.len()
            invariant
                i <= agents@.len(),
                found@ == connected_to_set(system@, agents@, set@, i as nat),
            decreases agents@.len() - i,
        {
            let x = agents[i];
            let mut any = false;
            let mut j: usize = 0;
            while j < set.len()
                invariant
                    j <= set@.len(),
                    any == connects_any(system@, x, set@, j as nat),
                decreases set@.len() - j,
            {
                if system.has_rule(x, set[j]) {
                    any = true;
                }
                j += 1;
            }
            if any {
                found.push(x);
            }
            i += 1;
        }
        found
    }

    /// The agents that have a rule with `a`.
    pub fn can_connect_to(&self, a: AgentId) -> (found: Vec<AgentId>)
        requires
            self.interaction_system is Some,
        ensures
            found@ == connected_to(self.system(), self.universe(), a, self.universe().len()),
    {
        let system = self.interaction_system.as_ref().unwrap();
        let agents = self.agent_list();
        let mut found: Vec<AgentId> = Vec::new();
        let mut i: usize = 0;
        while i < agents.len()
            invariant
                i <= agents@.len(),
                found@ == connected_to(system@, agents@, a, i as nat),
            decreases agents@.len() - i,
        {
            if system.has_rule(agents[i], a) {
                found.push(agents[i]);
            }
            i += 1;
        }
        found
    }

    /// Whether every agent that has a rule with `sup` has one with `sub`.
    pub fn is_subtype_of(&self, sub: AgentId, sup: AgentId) -> (r: bool)
        requires
            self.interaction_system is Some,
        ensures
            r == (forall|i: int|
                0 <= i < self.universe().len() && self.system().table.contains_key(
                    unordered(#[trigger] self.universe()[i], sup),
                ) ==> self.system().table.contains_key(unordered(self.universe()[i], sub))),
    {
        let system = self.interaction_system.as_ref().unwrap();
        let agents = self.agent_list();
        let mut i: usize = 0;
        while i < agents.len()
            invariant
                i <= agents@.len(),
                agents@ == self.universe(),
                self.interaction_system is Some,
                system@ == self.system(),
                forall|j: int|
                    0 <= j < i && system@.table.contains_key(unordered(#[trigger] agents@[j], sup))
                        ==> system@.table.contains_key(unordered(agents@[j], sub)),
            decreases agents@.len() - i,
        {
            if system.has_rule(agents[i], sup) && !system.has_rule(agents[i], sub) {
                assert(self.system().table.contains_key(
                    unordered(self.universe()[i as int], sup),
                ));
                return false;
            }
            i += 1;
        }
        true
    }

    /// The type of `agent`, derived by reduction: the annotator over an
    /// annotation of two new variables meets the bare agent, the net is
    /// reduced, and the type variable is read back.
    pub fn get_type_of(&self, agent: AgentId) -> (r: Option<AgentId>)
        requires
            self.interaction_system is Some,
            self.agent_named("::"@) is Some,
            self.agent_named(":"@) is Some,
        ensures
            r == type_of(
                self.system(),
                self.agent_named("::"@)->Some_0,
                self.agent_named(":"@)->Some_0,
                agent,
            ),
    {
        let system = self.interaction_system.as_ref().unwrap();
        let annotator = self.get_agent_id("::").unwrap();
        let annotation = self.get_agent_id(":").unwrap();
        derive_type(system, annotator, annotation, agent)
    }
}

/// The type of `agent` under the rules `system`.
pub fn derive_type(
    system: &InteractionSystem,
    annotator: AgentId,
    annotation: AgentId,
    agent: AgentId,
) -> (r: Option<AgentId>)
    ensures
        r == type_of(system@, annotator, annotation, agent),
{
    let mut net = Net::new();
    let type_var = net.new_var();
    proof {
        crate::net::lemma_first_free(Net::empty_view().vars, 0);
    }
    let value_var = net.new_var();
    proof {
        crate::net::lemma_first_free(Net::empty_view().vars.insert(0, None), 1);
    }
    let mut pair: Vec<Tree> = Vec::new();
    pair.push(Tree::Var { id: value_var });
    pair.push(Tree::Var { id: type_var });
    proof {
        lemma_agent_view(annotation, pair);
        assert(views(pair@) =~= seq![
            TreeView::Var { id: VarId(1) },
            TreeView::Var { id: VarId(0) },
        ]);
    }
    let mut query: Vec<Tree> = Vec::new();
    query.push(Tree::Agent { id: annotation, aux: pair });
    let none: Vec<Tree> = Vec::new();
    proof {
        lemma_agent_view(annotator, query);
        lemma_agent_view(agent, none);
        assert(views(query@) =~= seq![
            TreeView::Agent {
                id: annotation,
                aux: seq![TreeView::Var { id: VarId(1) }, TreeView::Var { id: VarId(0) }],
            },
        ]);
        assert(views(none@) =~= Seq::<TreeView>::empty());
    }
    net.interact(
        system,
        Tree::Agent { id: annotator, aux: query },
        Tree::Agent { id: agent, aux: none },
    );
    net.normal(system);
    match net.substitute(Tree::Var { id: type_var }) {
        Tree::Agent { id, aux } => {
            proof {
                lemma_agent_view(id, aux);
            }
            Some(id)
        },
        Tree::Var { id } => None,
    }
}

} // verus!
