//! Agents, variables and the trees that nets are made of.

use vstd::prelude::*;

verus! {

/// The identity of an agent: a base index and a polarity. The two polarities
/// of one base index are dual agents.
#[derive(Clone, Copy, Debug, PartialEq, Eq, PartialOrd, Ord, Structural)]
pub struct AgentId(pub u64, pub bool);

impl AgentId {
    /// The agent of the same base index and the opposite polarity.
    pub open spec fn dual(self) -> AgentId {
        AgentId(self.0, !self.1)
    }

    /// The dual agent.
    pub fn inverse(self) -> (d: AgentId)
        ensures
            d == self.dual(),
    {
        AgentId(self.0, !self.1)
    }

    /// The order of agent identities: by base index, then by polarity.
    pub open spec fn le(self, other: AgentId) -> bool {
        self.0 < other.0 || (self.0 == other.0 && (!self.1 || other.1))
    }

    /// Whether `self` comes before `other`, or is `other`.
    pub fn precedes(self, other: AgentId) -> (b: bool)
        ensures
            b == self.le(other),
    {
        self.0 < other.0 || (self.0 == other.0 && (!self.1 || other.1))
    }
}

/// One wire of a net.
#[derive(Clone, Copy, Debug, PartialEq, Eq, PartialOrd, Ord, Structural)]
pub struct VarId(pub u64);

/// A term of a net: an agent applied to its ports, or a variable.
#[derive(Debug)]
#[allow(inconsistent_fields)]
pub enum Tree {
    Agent { id: AgentId, aux: Vec<Tree> },
    Var { id: VarId },
}

/// The mathematical value of a [`Tree`].
#[allow(inconsistent_fields)]
pub ghost enum TreeView {
    Agent { id: AgentId, aux: Seq<TreeView> },
    Var { id: VarId },
}

/// The value of a tree: the same term over sequences.
pub open spec fn tree_view(t: Tree) -> TreeView
    decreases t, 0nat,
{
    match t {
        Tree::Agent { id, aux } => TreeView::Agent { id, aux: prefix_views(aux, aux@.len()) },
        Tree::Var { id } => TreeView::Var { id },
    }
}

/// The values of the first `n` trees of a vector.
pub open spec fn prefix_views(ts: Vec<Tree>, n: nat) -> Seq<TreeView>
    decreases ts, n,
{
    if n == 0 || n > ts@.len() {
        Seq::empty()
    } else {
        prefix_views(ts, (n - 1) as nat).push(tree_view(ts@[n - 1]))
    }
}

impl View for Tree {
    type V = TreeView;

    open spec fn view(&self) -> TreeView {
        tree_view(*self)
    }
}

/// The values of a sequence of trees.
pub open spec fn views(ts: Seq<Tree>) -> Seq<TreeView> {
    Seq::new(ts.len(), |i: int| ts[i]@)
}

/// The values of a sequence of pairs of trees.
pub open spec fn pair_views(ps: Seq<(Tree, Tree)>) -> Seq<(TreeView, TreeView)> {
    Seq::new(ps.len(), |i: int| (ps[i].0@, ps[i].1@))
}

/// The values of a prefix, by position.
proof fn lemma_prefix_views(ts: Vec<Tree>, n: nat)
    requires
        n <= ts@.len(),
    ensures
        prefix_views(ts, n) == views(ts@.take(n as int)),
    decreases n,
{
    if n > 0 {
        lemma_prefix_views(ts, (n - 1) as nat);
    }
    assert(prefix_views(ts, n) =~= views(ts@.take(n as int)));
}

/// The value of an agent tree is the agent over the values of its ports.
pub proof fn lemma_agent_view(id: AgentId, aux: Vec<Tree>)
    ensures
        (Tree::Agent { id, aux })@ == (TreeView::Agent { id, aux: views(aux@) }),
{
    lemma_prefix_views(aux, aux@.len());
    assert(aux@.take(aux@.len() as int) =~= aux@);
}

impl Clone for Tree {
    /// A deep copy of the tree.
    fn clone(&self) -> (res: Self)
        ensures
            res@ == self@,
        decreases self,
    {
        match self {
            Tree::Agent { id, aux } => {
                let mut ports: Vec<Tree> = Vec::new();
                let mut i: usize = 0;
                while i < aux.len()
                    invariant
                        self is Agent,
                        self->Agent_aux == aux,
                        i <= aux.len(),
                        ports.len() == i,
                        forall|j: int| 0 <= j < i ==> ports[j]@ == aux[j]@,
                    decreases aux.len() - i,
                {
                    let port = &aux[i];
                    ports.push(port.clone());
                    i += 1;
                }
                proof {
                    lemma_agent_view(*id, ports);
                    lemma_agent_view(*id, *aux);
                    assert(views(ports@) =~= views(aux@));
                }
                Tree::Agent { id: *id, aux: ports }
            },
            Tree::Var { id } => Tree::Var { id: *id },
        }
    }
}

} // verus!
