//! The registry of rewrite rules: an explicit table indexed by unordered
//! pairs of agents, and three structural rules that need no table entry.

use crate::tables::{first_index, first_match_map, is_first, lemma_append, lemma_first_unique, lemma_overwrite, AgentMap};
use crate::term::{lemma_agent_view, views, AgentId, Tree, TreeView, VarId};
use vstd::prelude::*;

verus! {

/// A rewrite rule: a template for each port of the left agent and of the
/// right agent, over variables local to the rule.
#[derive(Debug)]
pub struct InteractionRule {
    pub left_ports: Vec<Tree>,
    pub right_ports: Vec<Tree>,
}

/// The mathematical value of an [`InteractionRule`].
pub ghost struct RuleView {
    pub left_ports: Seq<TreeView>,
    pub right_ports: Seq<TreeView>,
}

impl View for InteractionRule {
    type V = RuleView;

    open spec fn view(&self) -> RuleView {
        RuleView { left_ports: views(self.left_ports@), right_ports: views(self.right_ports@) }
    }
}

/// A rule as registered: for the agents `left` and `right`, in that order.
#[derive(Debug)]
pub struct RuleEntry {
    pub left: AgentId,
    pub right: AgentId,
    pub rule: InteractionRule,
}

/// The mathematical value of a [`RuleEntry`].
pub ghost struct RuleEntryView {
    pub left: AgentId,
    pub right: AgentId,
    pub rule: RuleView,
}

impl View for RuleEntry {
    type V = RuleEntryView;

    open spec fn view(&self) -> RuleEntryView {
        RuleEntryView { left: self.left, right: self.right, rule: self.rule@ }
    }
}

/// An unordered pair of agents, written with the smaller one first.
pub open spec fn unordered(a: AgentId, b: AgentId) -> (AgentId, AgentId) {
    if a.le(b) {
        (a, b)
    } else {
        (b, a)
    }
}

/// How a pair of agents rewrites.
#[derive(Clone, Copy, Debug, PartialEq, Eq, Structural)]
pub enum Resolution {
    /// By the table entry at `index`; `flipped` where the entry was
    /// registered for the pair in the other order.
    Explicit { index: usize, flipped: bool },
    /// Two antitype agents cancel: their ports are wired together.
    AntitypeCancel,
    /// The antitype agent meets an agent of `arity` ports and distributes
    /// over them; `flipped` where the antitype agent is the second of the pair.
    AntitypeDistribute { flipped: bool, arity: u64 },
    /// An agent of `arity` ports meets its dual: port is wired to port.
    DualAnnihilate { arity: u64 },
    /// No rule applies.
    Unresolved,
}

/// The ports `x0, .., x(n-1)`.
pub open spec fn var_ports(n: nat) -> Seq<TreeView> {
    Seq::new(n, |i: int| TreeView::Var { id: VarId(i as u64) })
}

/// The ports `anti(x0), .., anti(x(n-1))`.
pub open spec fn wrapped_ports(anti: AgentId, n: nat) -> Seq<TreeView> {
    Seq::new(
        n,
        |i: int| TreeView::Agent { id: anti, aux: seq![TreeView::Var { id: VarId(i as u64) }] },
    )
}

/// The rule by which two antitype agents cancel.
pub open spec fn cancel_rule() -> RuleView {
    RuleView { left_ports: var_ports(1), right_ports: var_ports(1) }
}

/// The rule by which the antitype agent `anti` distributes over the agent `b`
/// of `n` ports: its port meets the dual of `b` over wrapped copies of the
/// ports of `b`.
pub open spec fn distribute_rule(anti: AgentId, b: AgentId, n: nat) -> RuleView {
    RuleView {
        left_ports: seq![TreeView::Agent { id: b.dual(), aux: wrapped_ports(anti, n) }],
        right_ports: var_ports(n),
    }
}

/// The rule by which an agent of `n` ports and its dual annihilate.
pub open spec fn annihilate_rule(n: nat) -> RuleView {
    RuleView { left_ports: var_ports(n), right_ports: var_ports(n) }
}

/// The templates of the structural rule that `r` names for the pair `a`,
/// `b`; no templates where `r` names none.
pub open spec fn structural(r: Resolution, a: AgentId, b: AgentId) -> RuleView {
    match r {
        Resolution::AntitypeCancel => cancel_rule(),
        Resolution::AntitypeDistribute { flipped, arity } => if flipped {
            distribute_rule(b, a, arity as nat)
        } else {
            distribute_rule(a, b, arity as nat)
        },
        Resolution::DualAnnihilate { arity } => annihilate_rule(arity as nat),
        _ => RuleView { left_ports: seq![], right_ports: seq![] },
    }
}

/// The rules of a program: the explicit table, and what the structural
/// rules need to know.
#[derive(Debug)]
pub struct InteractionSystem {
    /// The explicit table; the first entry of an unordered pair counts.
    pub rules: Vec<RuleEntry>,
    /// The number of ports of each agent.
    pub arities: AgentMap<u64>,
    /// The antitype agent, where there is one.
    pub antitype: Option<AgentId>,
}

/// The mathematical value of an [`InteractionSystem`]: the table with at
/// most one rule for each unordered pair of agents, the arities, and the
/// antitype agent.
pub ghost struct SystemView {
    pub table: Map<(AgentId, AgentId), RuleEntryView>,
    pub arities: Map<AgentId, u64>,
    pub antitype: Option<AgentId>,
}

/// The rule by which the pair `a`, `b` rewrites, and whether its left
/// templates belong to `b`: the rule of the table where it holds one for the
/// pair, in either order; else the first of the structural rules that fits:
/// two antitype agents cancel; the antitype agent, standing first,
/// distributes over an agent of known arity; an agent of known arity and its
/// dual annihilate. Only then is the pair read in its other order, where the
/// antitype agent, standing second, distributes over the first. So the dual
/// of the antitype agent before the antitype agent annihilates, and the
/// antitype agent before its dual distributes.
pub open spec fn rule_for(sys: SystemView, a: AgentId, b: AgentId) -> Option<(RuleView, bool)> {
    if sys.table.contains_key(unordered(a, b)) {
        let e = sys.table[unordered(a, b)];
        Some((e.rule, !(e.left == a && e.right == b)))
    } else if sys.antitype == Some(a) && a == b {
        Some((cancel_rule(), false))
    } else if sys.antitype == Some(a) && sys.arities.contains_key(b) {
        Some((distribute_rule(a, b, sys.arities[b] as nat), false))
    } else if a == b.dual() && sys.arities.contains_key(a) {
        Some((annihilate_rule(sys.arities[a] as nat), false))
    } else if sys.antitype == Some(b) && sys.arities.contains_key(a) {
        Some((distribute_rule(b, a, sys.arities[a] as nat), true))
    } else {
        None
    }
}

/// Whether a resolution applies its left templates to the second agent.
pub open spec fn is_flipped(r: Resolution) -> bool {
    match r {
        Resolution::Explicit { index, flipped } => flipped,
        Resolution::AntitypeDistribute { flipped, arity } => flipped,
        _ => false,
    }
}

impl View for InteractionSystem {
    type V = SystemView;

    open spec fn view(&self) -> SystemView {
        SystemView { table: self.table(), arities: self.arities.map(), antitype: self.antitype }
    }
}

/// The resolution of a pair names the rule that the value of the system
/// gives to the pair.
pub proof fn lemma_resolution(sys: InteractionSystem, a: AgentId, b: AgentId)
    ensures
        rule_for(sys@, a, b) == (if sys.resolution(a, b) is Unresolved {
            None
        } else {
            Some((sys.rule_of(sys.resolution(a, b), a, b), is_flipped(sys.resolution(a, b))))
        }),
{
    if sys.keys().contains(unordered(a, b)) {
        crate::tables::lemma_first_index(sys.keys(), unordered(a, b));
        let i = first_index(sys.keys(), unordered(a, b));
        assert(sys.table()[unordered(a, b)] == sys.entries()[i]);
        assert(sys.entries()[i] == sys.rules@[i]@);
        assert(0 <= i < sys.rules@.len());
        assert(sys.rules.len() == sys.rules@.len());
        assert(i as usize as int == i);
    }
}

impl InteractionSystem {
    /// The unordered pair that each table entry stands under.
    pub open spec fn keys(self) -> Seq<(AgentId, AgentId)> {
        Seq::new(self.rules@.len(), |i: int| unordered(self.rules@[i].left, self.rules@[i].right))
    }

    /// The value of each table entry.
    pub open spec fn entries(self) -> Seq<RuleEntryView> {
        Seq::new(self.rules@.len(), |i: int| self.rules@[i]@)
    }

    /// The explicit table: at most one rule for each unordered pair.
    pub open spec fn table(self) -> Map<(AgentId, AgentId), RuleEntryView> {
        first_match_map(self.keys(), self.entries())
    }

    /// The rule registered for `a` and `b` in this order, if any.
    pub open spec fn registered(self, a: AgentId, b: AgentId) -> Option<RuleView> {
        if self.table().contains_key(unordered(a, b)) && self.table()[unordered(a, b)].left == a
            && self.table()[unordered(a, b)].right == b {
            Some(self.table()[unordered(a, b)].rule)
        } else {
            None
        }
    }

    /// How the pair `a`, `b` rewrites: by the table, else by the first of the
    /// structural rules that fits the pair as it stands, else by
    /// distribution with the antitype agent standing second.
    pub open spec fn resolution(self, a: AgentId, b: AgentId) -> Resolution {
        if self.keys().contains(unordered(a, b)) {
            let i = first_index(self.keys(), unordered(a, b));
            Resolution::Explicit {
                index: i as usize,
                flipped: !(self.rules@[i].left == a && self.rules@[i].right == b),
            }
        } else if self.antitype == Some(a) && a == b {
            Resolution::AntitypeCancel
        } else if self.antitype == Some(a) && self.arities.map().contains_key(b) {
            Resolution::AntitypeDistribute { flipped: false, arity: self.arities.map()[b] }
        } else if a == b.dual() && self.arities.map().contains_key(a) {
            Resolution::DualAnnihilate { arity: self.arities.map()[a] }
        } else if self.antitype == Some(b) && self.arities.map().contains_key(a) {
            Resolution::AntitypeDistribute { flipped: true, arity: self.arities.map()[a] }
        } else {
            Resolution::Unresolved
        }
    }

    /// The templates of the rule that `r` names for the pair `a`, `b`. For a
    /// flipped resolution the left templates belong to `b`.
    pub open spec fn rule_of(self, r: Resolution, a: AgentId, b: AgentId) -> RuleView {
        match r {
            Resolution::Explicit { index, flipped } => self.rules@[index as int].rule@,
            _ => structural(r, a, b),
        }
    }

    /// A system without rules, arities or antitype agent.
    pub fn new() -> (s: Self)
        ensures
            s.rules@.len() == 0,
            s.table() == Map::<(AgentId, AgentId), RuleEntryView>::empty(),
            s.arities.map() == Map::<AgentId, u64>::empty(),
            s.antitype is None,
    {
        let s = InteractionSystem { rules: Vec::new(), arities: AgentMap::new(), antitype: None };
        assert(s.table() =~= Map::<(AgentId, AgentId), RuleEntryView>::empty());
        s
    }

    /// The first table entry for the unordered pair of `a` and `b`.
    pub fn position(&self, a: AgentId, b: AgentId) -> (r: Option<usize>)
        ensures
            match r {
                Some(i) => is_first(self.keys(), unordered(a, b), i as int),
                None => !self.keys().contains(unordered(a, b)),
            },
    {
        let key = if a.precedes(b) {
            (a, b)
        } else {
            (b, a)
        };
        let mut i: usize = 0;
        while i < self.rules.len()
            invariant
                i <= self.rules.len(),
                key == unordered(a, b),
                forall|j: int| 0 <= j < i ==> self.keys()[j] != key,
            decreases self.rules.len() - i,
        {
            let e = &self.rules[i];
            let k = if e.left.precedes(e.right) {
                (e.left, e.right)
            } else {
                (e.right, e.left)
            };
            if k.0 == key.0 && k.1 == key.1 {
                return Some(i);
            }
            i += 1;
        }
        None
    }

    /// Registers `rule` for `a` and `b`, in place of any rule that the
    /// unordered pair had.
    pub fn add_rule(&mut self, a: AgentId, b: AgentId, rule: InteractionRule)
        ensures
            final(self).table() == old(self).table().insert(
                unordered(a, b),
                RuleEntryView { left: a, right: b, rule: rule@ },
            ),
            final(self).arities == old(self).arities,
            final(self).antitype == old(self).antitype,
    {
        let ghost keys0 = self.keys();
        let ghost vals0 = self.entries();
        let ghost key = unordered(a, b);
        let ghost val = RuleEntryView { left: a, right: b, rule: rule@ };
        let entry = RuleEntry { left: a, right: b, rule };
        match self.position(a, b) {
            Some(i) => {
                self.rules.set(i, entry);
                proof {
                    lemma_overwrite(keys0, vals0, key, val, i as int);
                    assert(unordered(b, a) == unordered(a, b));
                    assert(self.keys() =~= keys0);
                    assert(self.entries() =~= vals0.update(i as int, val));
                }
            },
            None => {
                self.rules.push(entry);
                proof {
                    lemma_append(keys0, vals0, key, val);
                    assert(self.keys() =~= keys0.push(key));
                    assert(self.entries() =~= vals0.push(val));
                }
            },
        }
    }

    /// The rule registered for `a` and `b`, and the rule registered for `b`
    /// and `a`.
    pub fn get_rule(&self, a: AgentId, b: AgentId) -> (r: (
        Option<&InteractionRule>,
        Option<&InteractionRule>,
    ))
        ensures
            match r.0 {
                Some(rule) => self.registered(a, b) == Some(rule@),
                None => self.registered(a, b) is None,
            },
            match r.1 {
                Some(rule) => self.registered(b, a) == Some(rule@),
                None => self.registered(b, a) is None,
            },
    {
        assert(unordered(b, a) == unordered(a, b));
        match self.position(a, b) {
            Some(i) => {
                proof {
                    lemma_first_unique(self.keys(), unordered(a, b), i as int);
                }
                let e = &self.rules[i];
                let forward = e.left == a && e.right == b;
                let backward = e.left == b && e.right == a;
                (
                    if forward {
                        Some(&e.rule)
                    } else {
                        None
                    },
                    if backward {
                        Some(&e.rule)
                    } else {
                        None
                    },
                )
            },
            None => (None, None),
        }
    }

    /// Whether the table holds a rule for `a` and `b`, in either order.
    pub fn has_rule(&self, a: AgentId, b: AgentId) -> (r: bool)
        ensures
            r == self.table().contains_key(unordered(a, b)),
            r == (self.registered(a, b) is Some || self.registered(b, a) is Some),
    {
        assert(unordered(b, a) == unordered(a, b));
        match self.position(a, b) {
            Some(i) => {
                proof {
                    lemma_first_unique(self.keys(), unordered(a, b), i as int);
                    let e = self.rules@[i as int];
                    assert(self.keys()[i as int] == unordered(e.left, e.right));
                }
                true
            },
            None => false,
        }
    }

    /// How the pair `a`, `b` rewrites.
    pub fn resolve(&self, a: AgentId, b: AgentId) -> (r: Resolution)
        ensures
            r == self.resolution(a, b),
            r matches Resolution::Explicit { index, .. } ==> index < self.rules@.len(),
    {
        match self.position(a, b) {
            Some(i) => {
                proof {
                    lemma_first_unique(self.keys(), unordered(a, b), i as int);
                }
                let e = &self.rules[i];
                return Resolution::Explicit {
                    index: i,
                    flipped: !(e.left == a && e.right == b),
                };
            },
            None => {},
        }
        let a_is_anti = match self.antitype {
            Some(t) => t == a,
            None => false,
        };
        let b_is_anti = match self.antitype {
            Some(t) => t == b,
            None => false,
        };
        if a_is_anti && a == b {
            return Resolution::AntitypeCancel;
        }
        if a_is_anti {
            match self.arities.get(b) {
                Some(n) => {
                    return Resolution::AntitypeDistribute { flipped: false, arity: *n };
                },
                None => {},
            }
        }
        if a == b.inverse() {
            match self.arities.get(a) {
                Some(n) => {
                    return Resolution::DualAnnihilate { arity: *n };
                },
                None => {},
            }
        }
        if b_is_anti {
            match self.arities.get(a) {
                Some(n) => {
                    return Resolution::AntitypeDistribute { flipped: true, arity: *n };
                },
                None => {},
            }
        }
        Resolution::Unresolved
    }
}

impl Default for InteractionSystem {
    /// A system without rules, arities or antitype agent.
    fn default() -> (s: Self)
        ensures
            s.rules@.len() == 0,
            s.table() == Map::<(AgentId, AgentId), RuleEntryView>::empty(),
            s.arities.map() == Map::<AgentId, u64>::empty(),
            s.antitype is None,
    {
        InteractionSystem::new()
    }
}

/// The ports `x0, .., x(n-1)` as trees.
pub fn make_var_ports(n: u64) -> (ports: Vec<Tree>)
    ensures
        views(ports@) == var_ports(n as nat),
{
    let mut ports: Vec<Tree> = Vec::new();
    let mut i: u64 = 0;
    while i < n
        invariant
            i <= n,
            ports@.len() == i,
            forall|j: int| 0 <= j < i ==> ports@[j]@ == (TreeView::Var { id: VarId(j as u64) }),
        decreases n - i,
    {
        ports.push(Tree::Var { id: VarId(i) });
        i += 1;
    }
    assert(views(ports@) =~= var_ports(n as nat));
    ports
}

/// The ports `anti(x0), .., anti(x(n-1))` as trees.
pub fn make_wrapped_ports(anti: AgentId, n: u64) -> (ports: Vec<Tree>)
    ensures
        views(ports@) == wrapped_ports(anti, n as nat),
{
    let mut ports: Vec<Tree> = Vec::new();
    let mut i: u64 = 0;
    while i < n
        invariant
            i <= n,
            ports@.len() == i,
            forall|j: int|
                0 <= j < i ==> ports@[j]@ == (TreeView::Agent {
                    id: anti,
                    aux: seq![TreeView::Var { id: VarId(j as u64) }],
                }),
        decreases n - i,
    {
        let mut inner: Vec<Tree> = Vec::new();
        inner.push(Tree::Var { id: VarId(i) });
        proof {
            lemma_agent_view(anti, inner);
            assert(views(inner@) =~= seq![TreeView::Var { id: VarId(i) }]);
        }
        ports.push(Tree::Agent { id: anti, aux: inner });
        i += 1;
    }
    assert(views(ports@) =~= wrapped_ports(anti, n as nat));
    ports
}

/// The templates of a structural rule for the pair `a`, `b`.
pub fn structural_rule(r: Resolution, a: AgentId, b: AgentId) -> (rule: InteractionRule)
    ensures
        rule@ == structural(r, a, b),
{
    match r {
        Resolution::AntitypeCancel => InteractionRule {
            left_ports: make_var_ports(1),
            right_ports: make_var_ports(1),
        },
        Resolution::AntitypeDistribute { flipped, arity } => {
            let (anti, other) = if flipped {
                (b, a)
            } else {
                (a, b)
            };
            let inner = make_wrapped_ports(anti, arity);
            let mut left: Vec<Tree> = Vec::new();
            proof {
                lemma_agent_view(other.dual(), inner);
            }
            left.push(Tree::Agent { id: other.inverse(), aux: inner });
            let rule = InteractionRule { left_ports: left, right_ports: make_var_ports(arity) };
            assert(rule@.left_ports =~= distribute_rule(anti, other, arity as nat).left_ports);
            rule
        },
        Resolution::DualAnnihilate { arity } => InteractionRule {
            left_ports: make_var_ports(arity),
            right_ports: make_var_ports(arity),
        },
        _ => {
            let rule = InteractionRule { left_ports: Vec::new(), right_ports: Vec::new() };
            assert(rule@.left_ports =~= Seq::<TreeView>::empty());
            assert(rule@.right_ports =~= Seq::<TreeView>::empty());
            rule
        },
    }
}

} // verus!
