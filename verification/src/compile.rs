//! From written terms to trees of the net, and from the rules that a program
//! states to its registry.

use crate::builder::{
    base_name, declared_agent, declared_var, marked_id, with_arity, BuilderView, DefinitionView,
    ProgramBuilder,
};
use crate::rules::{
    unordered, InteractionRule, InteractionSystem, RuleEntryView, RuleView, SystemView,
};
use crate::syntax;
use crate::syntax::{lemma_agent_term_view, term_views, TermView};
use crate::term::{lemma_agent_view, views, AgentId, Tree, TreeView};
use vstd::prelude::*;
use vstd::string::*;

verus! {

/// Lowering a written term: the tree, and the builder after it. An agent
/// name is resolved, and declared where it is new, and its agent gets the
/// number of ports as written for its arity; then the ports are lowered from
/// left to right. A variable name is resolved, and allocated where it is new.
pub open spec fn lowered(bv: BuilderView, t: TermView) -> (TreeView, BuilderView)
    decreases t, 0nat,
{
    match t {
        TermView::Var(name) => {
            let (id, after) = declared_var(bv, name);
            (TreeView::Var { id }, after)
        },
        TermView::Agent(name, aux) => {
            let (id, declared) = declared_agent(bv, name);
            let (ports, after) = lowered_ports(
                with_arity(declared, id, aux.len() as u64),
                aux,
                aux.len(),
            );
            (TreeView::Agent { id, aux: ports }, after)
        },
    }
}

/// Lowering the first `n` of the written terms `ts`, from left to right.
pub open spec fn lowered_ports(bv: BuilderView, ts: Seq<TermView>, n: nat) -> (
    Seq<TreeView>,
    BuilderView,
)
    decreases ts, n,
{
    if n == 0 || n > ts.len() {
        (Seq::empty(), bv)
    } else {
        let (init, mid) = lowered_ports(bv, ts, (n - 1) as nat);
        let (last, after) = lowered(mid, ts[n - 1]);
        (init.push(last), after)
    }
}

/// The table that the first `n` of the rules `defs` make: each is registered
/// for its pair of agents, a later one in place of an earlier one.
pub open spec fn compiled(defs: Seq<DefinitionView>, n: nat) -> Map<
    (AgentId, AgentId),
    RuleEntryView,
>
    decreases n,
{
    if n == 0 || n > defs.len() {
        Map::empty()
    } else {
        let d = defs[n - 1];
        compiled(defs, (n - 1) as nat).insert(
            unordered(d.left_id, d.right_id),
            RuleEntryView {
                left: d.left_id,
                right: d.right_id,
                rule: RuleView { left_ports: d.left_children, right_ports: d.right_children },
            },
        )
    }
}

/// The builder after its rules were compiled: the antitype agent `~` and
/// the annotator `::` are declared where they were not, and the registry
/// holds the table of the rules, the arities and the antitype agent.
pub open spec fn with_system(bv: BuilderView) -> BuilderView {
    let (anti, first) = declared_agent(bv, seq!['~']);
    let (_annotator, second) = declared_agent(first, seq![':', ':']);
    BuilderView {
        system: Some(
            SystemView {
                table: compiled(second.defs, second.defs.len()),
                arities: second.arities,
                antitype: Some(anti),
            },
        ),
        ..second
    }
}

/// A copy of the trees.
pub fn clone_trees(ts: &Vec<Tree>) -> (copy: Vec<Tree>)
    ensures
        views(copy@) == views(ts@),
{
    let mut copy: Vec<Tree> = Vec::new();
    let mut i: usize = 0;
    while i < ts.len()
        invariant
            i <= ts.len(),
            copy@.len() == i,
            forall|j: int| 0 <= j < i ==> copy@[j]@ == ts@[j]@,
        decreases ts.len() - i,
    {
        copy.push(ts[i].clone());
        i += 1;
    }
    assert(views(copy@) =~= views(ts@));
    copy
}

impl<'i> ProgramBuilder<'i> {
    /// The three reserved agents are declared in the outermost scope: the
    /// annotation agent `:`, the antitype agent `~` and the annotator `::`.
    pub open spec fn reserved(self) -> bool {
        &&& self.levels@.len() > 0
        &&& self.levels@[0].agent_scope.map().contains_key(":"@)
        &&& self.levels@[0].agent_scope.map().contains_key("~"@)
        &&& self.levels@[0].agent_scope.map().contains_key("::"@)
    }

    /// Turns a written term into a tree: agent names are resolved, and
    /// declared where they are new, each agent's arity is set to the number
    /// of its ports as written, and variable names are resolved, and
    /// allocated where they are new, from left to right.
    pub fn tree_ast_to_rt(&mut self, tree: syntax::Tree) -> (res: Tree)
        requires
            old(self).wf(),
            old(self).levels@.len() > 0,
        ensures
            final(self).wf(),
            final(self).levels@.len() == old(self).levels@.len(),
            (res@, final(self)@) == lowered(old(self)@, tree@),
            final(self).base_kept(*old(self)),
            final(self).same_source(*old(self)),
            final(self).def == old(self).def,
            final(self).interaction_system == old(self).interaction_system,
            final(self).output == old(self).output,
    {
        self.lower(&tree)
    }

    /// Turns the written term `tree` into a tree, as
    /// [`ProgramBuilder::tree_ast_to_rt`] does, without taking the term.
    pub fn lower(&mut self, tree: &syntax::Tree) -> (res: Tree)
        requires
            old(self).wf(),
            old(self).levels@.len() > 0,
        ensures
            final(self).wf(),
            final(self).levels@.len() == old(self).levels@.len(),
            (res@, final(self)@) == lowered(old(self)@, tree@),
            final(self).base_kept(*old(self)),
            final(self).same_source(*old(self)),
            final(self).def == old(self).def,
            final(self).interaction_system == old(self).interaction_system,
            final(self).output == old(self).output,
        decreases tree,
    {
        match tree {
            syntax::Tree::Agent(name, aux) => {
                proof {
                    lemma_agent_term_view(*name, *aux);
                }
                let id = self.get_or_new_agent_id(name.clone());
                self.set_arity(id, aux.len() as u64);
                let ghost start = self@;
                let ghost ts = term_views(aux@);
                let mut ports: Vec<Tree> = Vec::new();
                let mut i: usize = 0;
                while i < aux.len()
                    invariant
                        tree is Agent,
                        tree->Agent_0 == name,
                        tree->Agent_1 == aux,
                        ts == term_views(aux@),
                        i <= aux.len(),
                        ports@.len() == i,
                        self.wf(),
                        self.levels@.len() == old(self).levels@.len(),
                        self.levels@.len() > 0,
                        self.base_kept(*old(self)),
                        (views(ports@), self@) == lowered_ports(start, ts, i as nat),
                        self.same_source(*old(self)),
                        self.def == old(self).def,
                        self.interaction_system == old(self).interaction_system,
                        self.output == old(self).output,
                    decreases aux.len() - i,
                {
                    let ghost done = views(ports@);
                    let port = self.lower(&aux[i]);
                    ports.push(port);
                    proof {
                        assert(ts[i as int] == aux@[i as int]@);
                        assert(views(ports@) =~= done.push(port@));
                    }
                    i += 1;
                }
                proof {
                    lemma_agent_view(id, ports);
                    assert(i as nat == ts.len());
                }
                Tree::Agent { id, aux: ports }
            },
            syntax::Tree::Var(name) => Tree::Var { id: self.get_or_new_var_id(name.clone()) },
        }
    }

    /// Compiles the rules stated so far into the registry: the table of the
    /// rules, the arities on record, and the antitype agent. The antitype
    /// agent `~` and the annotator `::` are declared where they were not.
    pub fn build_interaction_system(&mut self)
        requires
            old(self).wf(),
            old(self).levels@.len() > 0,
        ensures
            final(self)@ == with_system(old(self)@),
            final(self).wf(),
            final(self).levels@.len() == old(self).levels@.len(),
            final(self).base_kept(*old(self)),
            final(self).interaction_system is Some,
            final(self).interaction_system->Some_0@ == (SystemView {
                table: compiled(old(self)@.defs, old(self)@.defs.len()),
                arities: old(self).arities.map(),
                antitype: final(self).agent_named("~"@),
            }),
            final(self).agent_named("~"@) is Some,
            final(self).agent_named("::"@) is Some,
            old(self).agent_named("~"@) is Some && old(self).agent_named("::"@) is Some ==> {
                &&& final(self).levels == old(self).levels
                &&& final(self).next_agent_id == old(self).next_agent_id
                &&& final(self).names() == old(self).names()
            },
            final(self).same_source(*old(self)),
            final(self).def == old(self).def,
            final(self).arities == old(self).arities,
            final(self).output == old(self).output,
    {
        proof {
            reveal_strlit("~");
            reveal_strlit("::");
            assert(base_name("~"@) == "~"@);
            assert(base_name("::"@) == "::"@);
        }
        let antitype = self.get_or_new_agent_id(String::from_str("~"));
        let _annotator = self.get_or_new_agent_id(String::from_str("::"));
        proof {
            assert(marked_id(antitype, "~"@) == antitype);
            assert("~"@ =~= seq!['~']);
            assert("::"@ =~= seq![':', ':']);
        }
        let ghost declared = self@;
        let mut sys = InteractionSystem::new();
        sys.arities = self.arities.duplicate();
        sys.antitype = Some(antitype);
        let mut i: usize = 0;
        while i < self.def.len()
            invariant
                i <= self.def@.len(),
                sys.table() == compiled(self@.defs, i as nat),
                sys.arities.map() == self.arities.map(),
                sys.antitype == Some(antitype),
            decreases self.def@.len() - i,
        {
            let d = &self.def[i];
            let rule = InteractionRule {
                left_ports: clone_trees(&d.left_children),
                right_ports: clone_trees(&d.right_children),
            };
            sys.add_rule(d.left_id, d.right_id, rule);
            i += 1;
        }
        self.interaction_system = Some(sys);
    }
}

} // verus!
