//! The reduction engine: a net of pending interactions over a store of
//! variables, rewritten one interaction at a time.

use crate::conservation::{
    law_new_var_linear, law_react_linear, law_read_keeps_linear,
    law_resolve_idempotent_in_linear_net, linear, linear_with, occ,
};
use crate::rules::{
    lemma_resolution, rule_for, structural_rule, InteractionRule, InteractionSystem, Resolution,
    RuleView, SystemView,
};
use crate::term::{lemma_agent_view, pair_views, views, Tree, TreeView, VarId};
use std::collections::BTreeMap;
use vstd::prelude::*;

verus! {

/// The value of what the store holds for a variable.
pub open spec fn opt_view(o: Option<Tree>) -> Option<TreeView> {
    match o {
        Some(t) => Some(t@),
        None => None,
    }
}

/// The value of a store: a variable in the domain is unbound (`None`) or
/// bound to a tree.
pub open spec fn store_view(m: Map<u64, Option<Tree>>) -> Map<u64, Option<TreeView>> {
    Map::new(|k: u64| m.contains_key(k), |k: u64| opt_view(m[k]))
}

/// The mathematical value of a [`Net`].
pub ghost struct NetView {
    pub interactions: Seq<(TreeView, TreeView)>,
    pub vars: Map<u64, Option<TreeView>>,
    pub stuck: Seq<(TreeView, TreeView)>,
}

/// The state of a reduction: the pending interactions (a stack, the last one
/// is next), the store of variables, and the pairs that no rule rewrites.
#[derive(Debug)]
pub struct Net {
    pub interactions: Vec<(Tree, Tree)>,
    pub vars: BTreeMap<u64, Option<Tree>>,
    pub stuck: Vec<(Tree, Tree)>,
}

impl View for Net {
    type V = NetView;

    open spec fn view(&self) -> NetView {
        NetView {
            interactions: pair_views(self.interactions@),
            vars: store_view(self.vars@),
            stuck: pair_views(self.stuck@),
        }
    }
}

/// `n` is the least variable that the store does not hold.
pub open spec fn is_first_free(vars: Map<u64, Option<TreeView>>, n: u64) -> bool {
    &&& !vars.contains_key(n)
    &&& forall|m: u64| m < n ==> vars.contains_key(m)
}

/// The least variable that the store does not hold.
pub open spec fn first_free(vars: Map<u64, Option<TreeView>>) -> u64 {
    choose|n: u64| is_first_free(vars, n)
}

/// The least free variable is unique.
pub proof fn lemma_first_free(vars: Map<u64, Option<TreeView>>, n: u64)
    requires
        is_first_free(vars, n),
    ensures
        first_free(vars) == n,
{
    let m = first_free(vars);
    assert(is_first_free(vars, m));
    if m < n {
        assert(vars.contains_key(m));
    } else if n < m {
        assert(vars.contains_key(n));
    }
}

/// A finite set that holds every number below `n` has at least `n` elements.
pub proof fn lemma_prefix_len(s: Set<u64>, n: nat)
    requires
        s.finite(),
        n <= u64::MAX + 1,
        forall|k: u64| k < n ==> s.contains(k),
    ensures
        s.len() >= n,
    decreases n,
{
    if n > 0 {
        let last = (n - 1) as u64;
        assert(s.contains(last));
        lemma_prefix_len(s.remove(last), (n - 1) as nat);
    }
}

/// What freshening threads through a rule: the store, and the renaming of
/// the rule's variables that have been met once.
pub ghost struct Fresh {
    pub vars: Map<u64, Option<TreeView>>,
    pub scope: Map<u64, u64>,
}

/// Freshens a template. A variable met for the first time gets the least
/// free variable of the store, which enters the store unbound; met for the
/// second time it gets the same one, and the renaming forgets it.
pub open spec fn fresh_tree(st: Fresh, t: TreeView) -> (TreeView, Fresh)
    decreases t, 0nat,
{
    match t {
        TreeView::Var { id } => if st.scope.contains_key(id.0) {
            (
                TreeView::Var { id: VarId(st.scope[id.0]) },
                Fresh { vars: st.vars, scope: st.scope.remove(id.0) },
            )
        } else {
            let n = first_free(st.vars);
            (
                TreeView::Var { id: VarId(n) },
                Fresh { vars: st.vars.insert(n, None), scope: st.scope.insert(id.0, n) },
            )
        },
        TreeView::Agent { id, aux } => {
            let (ports, st2) = fresh_ports(st, aux, aux.len());
            (TreeView::Agent { id, aux: ports }, st2)
        },
    }
}

/// Freshens the first `n` of the templates `ts`, from left to right.
pub open spec fn fresh_ports(st: Fresh, ts: Seq<TreeView>, n: nat) -> (Seq<TreeView>, Fresh)
    decreases ts, n,
{
    if n == 0 || n > ts.len() {
        (Seq::empty(), st)
    } else {
        let (init, st1) = fresh_ports(st, ts, (n - 1) as nat);
        let (last, st2) = fresh_tree(st1, ts[n - 1]);
        (init.push(last), st2)
    }
}

/// Links the first `n` templates to the first `n` actual ports: each
/// template is freshened and pushed, paired with its port, as a pending
/// interaction.
pub open spec fn wire_ports(
    net: NetView,
    scope: Map<u64, u64>,
    templates: Seq<TreeView>,
    actuals: Seq<TreeView>,
    n: nat,
) -> (NetView, Map<u64, u64>)
    decreases n,
{
    if n == 0 || n > templates.len() || n > actuals.len() {
        (net, scope)
    } else {
        let (net1, scope1) = wire_ports(net, scope, templates, actuals, (n - 1) as nat);
        let (fresh, st) = fresh_tree(Fresh { vars: net1.vars, scope: scope1 }, templates[n - 1]);
        (
            NetView {
                interactions: net1.interactions.push((fresh, actuals[n - 1])),
                vars: st.vars,
                stuck: net1.stuck,
            },
            st.scope,
        )
    }
}

/// The smaller of two lengths.
pub open spec fn shorter(a: nat, b: nat) -> nat {
    if a <= b {
        a
    } else {
        b
    }
}

/// Applies a rule to the ports of two agents: the left templates are linked
/// to `left`, then the right templates to `right`, under one renaming. Where
/// templates and ports differ in number, the surplus is dropped.
pub open spec fn apply(net: NetView, rule: RuleView, left: Seq<TreeView>, right: Seq<TreeView>)
    -> NetView {
    let (net1, scope1) = wire_ports(
        net,
        Map::empty(),
        rule.left_ports,
        left,
        shorter(rule.left_ports.len(), left.len()),
    );
    wire_ports(
        net1,
        scope1,
        rule.right_ports,
        right,
        shorter(rule.right_ports.len(), right.len()),
    ).0
}

/// Meets the variable `v` with the tree `other`: a bound variable leaves the
/// store and its value is linked to `other`; a variable that is not bound is
/// bound to `other`.
pub open spec fn connect(net: NetView, v: u64, other: TreeView) -> NetView {
    if net.vars.contains_key(v) && net.vars[v] is Some {
        NetView {
            interactions: net.interactions.push((other, net.vars[v]->Some_0)),
            vars: net.vars.remove(v),
            stuck: net.stuck,
        }
    } else {
        NetView { vars: net.vars.insert(v, Some(other)), ..net }
    }
}

/// One rewrite: the pair `a`, `b` interacts in `net` under the rules `sys`.
/// Where `b` is a variable it is met with `a`; else where `a` is a variable
/// it is met with `b`; two agents rewrite by their rule, or are stuck.
pub open spec fn react(net: NetView, sys: SystemView, a: TreeView, b: TreeView) -> NetView {
    match b {
        TreeView::Var { id } => connect(net, id.0, a),
        TreeView::Agent { id: id2, aux: aux2 } => match a {
            TreeView::Var { id } => connect(net, id.0, b),
            TreeView::Agent { id: id1, aux: aux1 } => match rule_for(sys, id1, id2) {
                None => NetView { stuck: net.stuck.push((a, b)), ..net },
                Some((rule, flipped)) => if flipped {
                    apply(net, rule, aux2, aux1)
                } else {
                    apply(net, rule, aux1, aux2)
                },
            },
        },
    }
}

/// One step of reduction: the last pending interaction is taken off and
/// interacts. A net without pending interactions stays as it is.
pub open spec fn step(net: NetView, sys: SystemView) -> NetView {
    if net.interactions.len() == 0 {
        net
    } else {
        let p = net.interactions.last();
        react(NetView { interactions: net.interactions.drop_last(), ..net }, sys, p.0, p.1)
    }
}

/// The net after reduction: steps are taken until no interaction is pending
/// or `limit` steps were taken.
pub open spec fn reduced(net: NetView, sys: SystemView, limit: nat) -> NetView
    decreases limit,
{
    if limit == 0 || net.interactions.len() == 0 {
        net
    } else {
        reduced(step(net, sys), sys, (limit - 1) as nat)
    }
}

/// The number of steps that reduction under `limit` takes.
pub open spec fn steps_taken(net: NetView, sys: SystemView, limit: nat) -> nat
    decreases limit,
{
    if limit == 0 || net.interactions.len() == 0 {
        0
    } else {
        1 + steps_taken(step(net, sys), sys, (limit - 1) as nat)
    }
}

/// Reads a tree out of the store: each bound variable is replaced by its
/// value, read in turn, and leaves the store. The result is the tree read
/// and the store that is left.
pub open spec fn subst(vars: Map<u64, Option<TreeView>>, t: TreeView) -> (
    TreeView,
    Map<u64, Option<TreeView>>,
)
    decreases vars.dom().len(), t, 0nat,
{
    match t {
        TreeView::Var { id } => if vars.dom().finite() && vars.contains_key(id.0)
            && vars[id.0] is Some {
            subst(vars.remove(id.0), vars[id.0]->Some_0)
        } else {
            (t, vars)
        },
        TreeView::Agent { id, aux } => {
            let (ports, rest) = subst_ports(vars, aux, aux.len());
            (TreeView::Agent { id, aux: ports }, rest)
        },
    }
}

/// Reads the first `n` of the trees `ts` out of the store, from left to
/// right. (Reading never adds to the store; the test on the sizes is there
/// for the definition to be well-founded.)
pub open spec fn subst_ports(vars: Map<u64, Option<TreeView>>, ts: Seq<TreeView>, n: nat) -> (
    Seq<TreeView>,
    Map<u64, Option<TreeView>>,
)
    decreases vars.dom().len(), ts, n,
{
    if n == 0 || n > ts.len() {
        (Seq::empty(), vars)
    } else {
        let (init, rest) = subst_ports(vars, ts, (n - 1) as nat);
        if rest.dom().len() <= vars.dom().len() {
            let (last, rest2) = subst(rest, ts[n - 1]);
            (init.push(last), rest2)
        } else {
            (init, rest)
        }
    }
}

/// Resolves a tree against the store without changing it: each bound
/// variable is replaced by its resolved value. A variable that is met again
/// inside its own value is left as it stands.
pub open spec fn resolve(vars: Map<u64, Option<TreeView>>, t: TreeView) -> TreeView
    decreases vars.dom().len(), t, 0nat,
{
    match t {
        TreeView::Var { id } => if vars.dom().finite() && vars.contains_key(id.0)
            && vars[id.0] is Some {
            resolve(vars.remove(id.0), vars[id.0]->Some_0)
        } else {
            t
        },
        TreeView::Agent { id, aux } => TreeView::Agent {
            id,
            aux: resolve_ports(vars, aux, aux.len()),
        },
    }
}

/// Resolves the first `n` of the trees `ts`.
pub open spec fn resolve_ports(vars: Map<u64, Option<TreeView>>, ts: Seq<TreeView>, n: nat)
    -> Seq<TreeView>
    decreases vars.dom().len(), ts, n,
{
    if n == 0 || n > ts.len() {
        Seq::empty()
    } else {
        resolve_ports(vars, ts, (n - 1) as nat).push(resolve(vars, ts[n - 1]))
    }
}

/// No variable of `t` is bound in the store: `t` is fully resolved.
pub open spec fn settled(vars: Map<u64, Option<TreeView>>, t: TreeView) -> bool
    decreases t, 0nat,
{
    match t {
        TreeView::Var { id } => !(vars.contains_key(id.0) && vars[id.0] is Some),
        TreeView::Agent { id, aux } => settled_ports(vars, aux, aux.len()),
    }
}

/// The first `n` of the trees `ts` are fully resolved.
pub open spec fn settled_ports(vars: Map<u64, Option<TreeView>>, ts: Seq<TreeView>, n: nat) -> bool
    decreases ts, n,
{
    if n == 0 || n > ts.len() {
        true
    } else {
        settled_ports(vars, ts, (n - 1) as nat) && settled(vars, ts[n - 1])
    }
}

/// Every binding of `part` is a binding of `whole`.
pub open spec fn part_of(
    part: Map<u64, Option<TreeView>>,
    whole: Map<u64, Option<TreeView>>,
) -> bool {
    forall|k: u64| #[trigger] part.contains_key(k) ==> whole.contains_key(k) && part[k] == whole[k]
}

/// Reading a tree out of a finite store leaves a part of that store.
pub proof fn lemma_subst_shrinks(vars: Map<u64, Option<TreeView>>, t: TreeView)
    requires
        vars.dom().finite(),
    ensures
        part_of(subst(vars, t).1, vars),
        subst(vars, t).1.dom().finite(),
        subst(vars, t).1.dom().len() <= vars.dom().len(),
    decreases vars.dom().len(), t, 0nat,
{
    match t {
        TreeView::Var { id } => {
            if vars.contains_key(id.0) && vars[id.0] is Some {
                lemma_subst_shrinks(vars.remove(id.0), vars[id.0]->Some_0);
            }
        },
        TreeView::Agent { id, aux } => {
            lemma_subst_ports_shrinks(vars, aux, aux.len());
        },
    }
}

/// Reading trees out of a finite store leaves a part of that store.
pub proof fn lemma_subst_ports_shrinks(
    vars: Map<u64, Option<TreeView>>,
    ts: Seq<TreeView>,
    n: nat,
)
    requires
        vars.dom().finite(),
    ensures
        part_of(subst_ports(vars, ts, n).1, vars),
        subst_ports(vars, ts, n).1.dom().finite(),
        subst_ports(vars, ts, n).1.dom().len() <= vars.dom().len(),
        n <= ts.len() ==> subst_ports(vars, ts, n).0.len() == n,
    decreases vars.dom().len(), ts, n,
{
    if n == 0 || n > ts.len() {
    } else {
        lemma_subst_ports_shrinks(vars, ts, (n - 1) as nat);
        let rest = subst_ports(vars, ts, (n - 1) as nat).1;
        lemma_subst_shrinks(rest, ts[n - 1]);
        let rest2 = subst(rest, ts[n - 1]).1;
        assert forall|k: u64| #[trigger] rest2.contains_key(k) implies vars.contains_key(k)
            && rest2[k] == vars[k] by {
            assert(rest.contains_key(k));
        }
        assert(rest2.dom().subset_of(vars.dom()));
        vstd::set_lib::lemma_len_subset(rest2.dom(), vars.dom());
    }
}

/// The values of pairs without the last one, and the value of the last one.
pub proof fn lemma_pairs_drop_last(s: Seq<(Tree, Tree)>)
    requires
        s.len() > 0,
    ensures
        pair_views(s.drop_last()) == pair_views(s).drop_last(),
        pair_views(s).last() == (s.last().0@, s.last().1@),
{
    assert(pair_views(s.drop_last()) =~= pair_views(s).drop_last());
}

/// The value of a store after an insertion.
pub proof fn lemma_store_insert(m: Map<u64, Option<Tree>>, k: u64, v: Option<Tree>)
    ensures
        store_view(m.insert(k, v)) == store_view(m).insert(k, opt_view(v)),
{
    assert(store_view(m.insert(k, v)) =~= store_view(m).insert(k, opt_view(v)));
}

/// The value of a store after a removal.
pub proof fn lemma_store_remove(m: Map<u64, Option<Tree>>, k: u64)
    ensures
        store_view(m.remove(k)) == store_view(m).remove(k),
{
    assert(store_view(m.remove(k)) =~= store_view(m).remove(k));
}

/// The values of pairs after one more pair.
pub proof fn lemma_pairs_push(s: Seq<(Tree, Tree)>, p: (Tree, Tree))
    ensures
        pair_views(s.push(p)) == pair_views(s).push((p.0@, p.1@)),
{
    assert(pair_views(s.push(p)) =~= pair_views(s).push((p.0@, p.1@)));
}

/// The store of a net has room: it is finite and smaller than the range of
/// its variables.
pub proof fn lemma_room(net: &Net)
    ensures
        net@.vars.dom().finite(),
        net@.vars.dom().len() <= usize::MAX,
{
    assert(net@.vars.dom() =~= net.vars@.dom());
    assert(net.vars@.len() == vstd::std_specs::btree::spec_btree_map_len(&net.vars));
}

/// The trees of `v` in reverse order.
fn reversed(v: Vec<Tree>) -> (r: Vec<Tree>)
    ensures
        r@.len() == v@.len(),
        forall|j: int| 0 <= j < r@.len() ==> r@[j] == v@[v@.len() - 1 - j],
{
    let mut v = v;
    let ghost v0 = v@;
    let mut r: Vec<Tree> = Vec::new();
    while v.len() > 0
        invariant
            v@.len() + r@.len() == v0.len(),
            forall|j: int| 0 <= j < v@.len() ==> v@[j] == v0[j],
            forall|j: int| 0 <= j < r@.len() ==> r@[j] == v0[v0.len() - 1 - j],
        decreases v@.len(),
    {
        let t = v.pop().unwrap();
        r.push(t);
    }
    r
}

impl Net {
    /// The net without interactions, variables or stuck pairs.
    pub open spec fn empty_view() -> NetView {
        NetView { interactions: Seq::empty(), vars: Map::empty(), stuck: Seq::empty() }
    }

    /// The empty net.
    pub fn new() -> (net: Self)
        ensures
            net@ == Net::empty_view(),
            linear(net@),
    {
        proof {
            crate::conservation::law_empty_is_linear();
        }
        let net = Net { interactions: Vec::new(), vars: BTreeMap::new(), stuck: Vec::new() };
        assert(net@.vars =~= Map::<u64, Option<TreeView>>::empty());
        assert(net@.interactions =~= Seq::empty());
        assert(net@.stuck =~= Seq::empty());
        net
    }

    /// Allocates the least variable that the store does not hold, unbound.
    pub fn new_var(&mut self) -> (id: VarId)
        ensures
            is_first_free(old(self)@.vars, id.0),
            id.0 == first_free(old(self)@.vars),
            final(self)@ == (NetView { vars: old(self)@.vars.insert(id.0, None), ..old(self)@ }),
            linear(old(self)@) ==> linear(final(self)@),
    {
        let size = self.vars.len();
        let mut i: u64 = 0;
        while self.vars.contains_key(&i)
            invariant
                self.vars@.dom().finite(),
                self.vars@.dom().len() == size,
                forall|k: u64| k < i ==> self.vars@.contains_key(k),
            decreases size - i,
        {
            proof {
                lemma_prefix_len(self.vars@.dom(), (i + 1) as nat);
            }
            i += 1;
        }
        proof {
            lemma_first_free(self@.vars, i);
            lemma_store_insert(self.vars@, i, None);
            if linear(self@) {
                law_new_var_linear(self@, i);
            }
        }
        self.vars.insert(i, None);
        VarId(i)
    }

    /// Pushes the pair `a`, `b` as a pending interaction.
    pub fn link(&mut self, a: Tree, b: Tree)
        ensures
            final(self)@ == (NetView {
                interactions: old(self)@.interactions.push((a@, b@)),
                ..old(self)@
            }),
    {
        proof {
            lemma_pairs_push(self.interactions@, (a, b));
        }
        self.interactions.push((a, b));
    }

    /// Freshens the template `tree`: its variables are renamed to variables
    /// new to the store, the same for the two occurrences of one variable.
    pub fn freshen(&mut self, scope: &mut BTreeMap<u64, u64>, tree: &Tree) -> (res: Tree)
        ensures
            (res@, Fresh { vars: final(self)@.vars, scope: final(scope)@ }) == fresh_tree(
                Fresh { vars: old(self)@.vars, scope: old(scope)@ },
                tree@,
            ),
            final(self)@.interactions == old(self)@.interactions,
            final(self)@.stuck == old(self)@.stuck,
        decreases tree,
    {
        match tree {
            Tree::Agent { id, aux } => {
                let ghost st0 = Fresh { vars: self@.vars, scope: scope@ };
                let ghost ts = views(aux@);
                let mut ports: Vec<Tree> = Vec::new();
                let mut i: usize = 0;
                proof {
                    lemma_agent_view(*id, *aux);
                }
                while i < aux.len()
                    invariant
                        tree is Agent,
                        tree->Agent_aux == aux,
                        ts == views(aux@),
                        i <= aux.len(),
                        ports@.len() == i,
                        (views(ports@), Fresh { vars: self@.vars, scope: scope@ }) == fresh_ports(
                            st0,
                            ts,
                            i as nat,
                        ),
                        self@.interactions == old(self)@.interactions,
                        self@.stuck == old(self)@.stuck,
                    decreases aux.len() - i,
                {
                    let ghost before = views(ports@);
                    let port = self.freshen(scope, &aux[i]);
                    ports.push(port);
                    proof {
                        assert(ts[i as int] == aux@[i as int]@);
                        assert(views(ports@) =~= before.push(port@));
                    }
                    i += 1;
                }
                proof {
                    lemma_agent_view(*id, ports);
                    lemma_agent_view(*id, *aux);
                    assert(i as nat == ts.len());
                }
                Tree::Agent { id: *id, aux: ports }
            },
            Tree::Var { id } => {
                match scope.remove(&id.0) {
                    Some(e) => Tree::Var { id: VarId(e) },
                    None => {
                        let new_id = self.new_var();
                        scope.insert(id.0, new_id.0);
                        assert(scope@ =~= old(scope)@.insert(id.0, new_id.0));
                        Tree::Var { id: new_id }
                    },
                }
            },
        }
    }

    /// Links the templates to the actual ports, pair by pair from the left;
    /// the surplus on either side is dropped.
    pub fn link_ports(
        &mut self,
        scope: &mut BTreeMap<u64, u64>,
        templates: &Vec<Tree>,
        actuals: Vec<Tree>,
    )
        ensures
            (final(self)@, final(scope)@) == wire_ports(
                old(self)@,
                old(scope)@,
                views(templates@),
                views(actuals@),
                shorter(templates@.len(), actuals@.len()),
            ),
    {
        let ghost net0 = self@;
        let ghost scope0 = scope@;
        let ghost ts = views(templates@);
        let ghost us = views(actuals@);
        let ghost total = actuals@.len();
        let mut rest = reversed(actuals);
        let mut i: usize = 0;
        while i < templates.len() && rest.len() > 0
            invariant
                ts == views(templates@),
                us.len() == total,
                i <= templates.len(),
                i + rest@.len() == total,
                forall|j: int| 0 <= j < rest@.len() ==> rest@[j]@ == us[total - 1 - j],
                (self@, scope@) == wire_ports(net0, scope0, ts, us, i as nat),
            decreases templates.len() - i,
        {
            let actual = rest.pop().unwrap();
            let fresh = self.freshen(scope, &templates[i]);
            assert(actual@ == us[i as int]);
            assert(ts[i as int] == templates@[i as int]@);
            self.link(fresh, actual);
            i += 1;
        }
    }

    /// Applies `rule` to the ports `left` and `right` of two agents.
    pub fn apply_rule(&mut self, rule: &InteractionRule, left: Vec<Tree>, right: Vec<Tree>)
        ensures
            final(self)@ == apply(old(self)@, rule@, views(left@), views(right@)),
    {
        let mut scope: BTreeMap<u64, u64> = BTreeMap::new();
        self.link_ports(&mut scope, &rule.left_ports, left);
        self.link_ports(&mut scope, &rule.right_ports, right);
    }
    /// Meets the variable `id` with the tree `other`.
    pub fn connect(&mut self, id: VarId, other: Tree)
        ensures
            final(self)@ == connect(old(self)@, id.0, other@),
    {
        let bound = match self.vars.get(&id.0) {
            Some(value) => value.is_some(),
            None => false,
        };
        if bound {
            proof {
                lemma_store_remove(self.vars@, id.0);
            }
            let value = self.vars.remove(&id.0).unwrap().unwrap();
            self.link(other, value);
        } else {
            proof {
                lemma_store_insert(self.vars@, id.0, Some(other));
            }
            self.vars.insert(id.0, Some(other));
        }
    }

    /// The single rewrite step on the pair `a`, `b`.
    pub fn interact(&mut self, system: &InteractionSystem, a: Tree, b: Tree)
        ensures
            final(self)@ == react(old(self)@, system@, a@, b@),
            linear(
                NetView { interactions: old(self)@.interactions.push((a@, b@)), ..old(self)@ },
            ) ==> linear(final(self)@),
    {
        self.rewrite(system, a, b);
        proof {
            lemma_room(self);
            if linear(
                NetView { interactions: old(self)@.interactions.push((a@, b@)), ..old(self)@ },
            ) {
                law_react_linear(old(self)@, system@, a@, b@);
            }
        }
    }

    /// The rewrite itself.
    fn rewrite(&mut self, system: &InteractionSystem, a: Tree, b: Tree)
        ensures
            final(self)@ == react(old(self)@, system@, a@, b@),
    {
        match b {
            Tree::Var { id } => self.connect(id, a),
            Tree::Agent { id: id2, aux: aux2 } => match a {
                Tree::Var { id } => self.connect(id, Tree::Agent { id: id2, aux: aux2 }),
                Tree::Agent { id: id1, aux: aux1 } => {
                    proof {
                        lemma_agent_view(id1, aux1);
                        lemma_agent_view(id2, aux2);
                        lemma_resolution(*system, id1, id2);
                    }
                    let r = system.resolve(id1, id2);
                    match r {
                        Resolution::Unresolved => {
                            let pair = (
                                Tree::Agent { id: id1, aux: aux1 },
                                Tree::Agent { id: id2, aux: aux2 },
                            );
                            proof {
                                lemma_pairs_push(self.stuck@, pair);
                            }
                            self.stuck.push(pair);
                        },
                        Resolution::Explicit { index, flipped } => {
                            let rule = &system.rules[index].rule;
                            if flipped {
                                self.apply_rule(rule, aux2, aux1);
                            } else {
                                self.apply_rule(rule, aux1, aux2);
                            }
                        },
                        Resolution::AntitypeDistribute { flipped, arity } => {
                            let rule = structural_rule(r, id1, id2);
                            if flipped {
                                self.apply_rule(&rule, aux2, aux1);
                            } else {
                                self.apply_rule(&rule, aux1, aux2);
                            }
                        },
                        _ => {
                            let rule = structural_rule(r, id1, id2);
                            self.apply_rule(&rule, aux1, aux2);
                        },
                    }
                },
            },
        }
    }

    /// Reduces the net: the last pending interaction is taken and rewritten,
    /// until none is pending or `limit` steps were taken. Returns the number
    /// of steps.
    pub fn reduce(&mut self, system: &InteractionSystem, limit: u64) -> (n: u64)
        ensures
            final(self)@ == reduced(old(self)@, system@, limit as nat),
            n == steps_taken(old(self)@, system@, limit as nat),
            n <= limit,
            n < limit ==> final(self)@.interactions.len() == 0,
            linear(old(self)@) ==> linear(final(self)@),
    {
        let mut n: u64 = 0;
        while n < limit && self.interactions.len() > 0
            invariant
                n <= limit,
                linear(old(self)@) ==> linear(self@),
                reduced(self@, system@, (limit - n) as nat) == reduced(
                    old(self)@,
                    system@,
                    limit as nat,
                ),
                n + steps_taken(self@, system@, (limit - n) as nat) == steps_taken(
                    old(self)@,
                    system@,
                    limit as nat,
                ),
            decreases limit - n,
        {
            proof {
                lemma_pairs_drop_last(self.interactions@);
                assert(self@.interactions.drop_last().push(self@.interactions.last())
                    =~= self@.interactions);
            }
            let pair = self.interactions.pop().unwrap();
            self.interact(system, pair.0, pair.1);
            n += 1;
        }
        n
    }

    /// Reduces the net to normal form. (A reduction that has not ended after
    /// `u64::MAX` steps is left where it stands.)
    pub fn normal(&mut self, system: &InteractionSystem)
        ensures
            final(self)@ == reduced(old(self)@, system@, u64::MAX as nat),
            linear(old(self)@) ==> linear(final(self)@),
    {
        self.reduce(system, u64::MAX);
    }

    /// Whether the store binds the variable `k`.
    pub fn is_bound(&self, k: u64) -> (b: bool)
        ensures
            b == (self@.vars.contains_key(k) && self@.vars[k] is Some),
    {
        match self.vars.get(&k) {
            Some(value) => value.is_some(),
            None => false,
        }
    }

    /// Reads `tree` out of the store: its bound variables are replaced by
    /// their values, which leave the store.
    pub fn substitute(&mut self, tree: Tree) -> (res: Tree)
        ensures
            (res@, final(self)@.vars) == subst(old(self)@.vars, tree@),
            final(self)@.interactions == old(self)@.interactions,
            final(self)@.stuck == old(self)@.stuck,
            settled(final(self)@.vars, res@),
            linear_with(old(self)@, |v: u64| occ(tree@, v)) ==> linear_with(
                final(self)@,
                |v: u64| occ(res@, v),
            ),
    {
        proof {
            lemma_room(self);
            crate::laws::law_read_tree_is_resolved(self@.vars, tree@);
            if linear_with(self@, |v: u64| occ(tree@, v)) {
                law_read_keeps_linear(self@, tree@);
            }
        }
        let res = self.substitute_in(&tree);
        proof {
            assert(self@ == (NetView { vars: subst(old(self)@.vars, tree@).1, ..old(self)@ }));
        }
        res
    }

    /// Reads `tree` out of the store, as [`Net::substitute`] does, without
    /// taking the tree.
    pub fn substitute_in(&mut self, tree: &Tree) -> (res: Tree)
        ensures
            (res@, final(self)@.vars) == subst(old(self)@.vars, tree@),
            final(self)@.vars.dom().len() <= old(self)@.vars.dom().len(),
            final(self)@.interactions == old(self)@.interactions,
            final(self)@.stuck == old(self)@.stuck,
        decreases old(self)@.vars.dom().len(), tree,
    {
        proof {
            assert(self@.vars.dom() =~= self.vars@.dom());
            lemma_subst_shrinks(self@.vars, tree@);
        }
        match tree {
            Tree::Agent { id, aux } => {
                let ghost vars0 = self@.vars;
                let ghost ts = views(aux@);
                let mut ports: Vec<Tree> = Vec::new();
                let mut i: usize = 0;
                while i < aux.len()
                    invariant
                        tree is Agent,
                        tree->Agent_aux == aux,
                        ts == views(aux@),
                        i <= aux.len(),
                        ports@.len() == i,
                        vars0 == old(self)@.vars,
                        vars0.dom().finite(),
                        (views(ports@), self@.vars) == subst_ports(vars0, ts, i as nat),
                        self@.vars.dom().len() <= vars0.dom().len(),
                        self@.interactions == old(self)@.interactions,
                        self@.stuck == old(self)@.stuck,
                    decreases aux.len() - i,
                {
                    let ghost before = views(ports@);
                    let port = self.substitute_in(&aux[i]);
                    ports.push(port);
                    proof {
                        assert(ts[i as int] == aux@[i as int]@);
                        assert(views(ports@) =~= before.push(port@));
                        lemma_subst_ports_shrinks(vars0, ts, (i + 1) as nat);
                    }
                    i += 1;
                }
                proof {
                    lemma_agent_view(*id, ports);
                    lemma_agent_view(*id, *aux);
                    assert(i as nat == ts.len());
                }
                Tree::Agent { id: *id, aux: ports }
            },
            Tree::Var { id } => {
                if self.is_bound(id.0) {
                    proof {
                        lemma_store_remove(self.vars@, id.0);
                    }
                    let value = self.vars.remove(&id.0).unwrap().unwrap();
                    self.substitute_in(&value)
                } else {
                    Tree::Var { id: *id }
                }
            },
        }
    }

    /// Resolves `tree` against the store, which stays as it is.
    pub fn substitute_ref(&self, tree: &Tree) -> (res: Tree)
        ensures
            res@ == resolve(self@.vars, tree@),
            linear_with(self@, |v: u64| occ(tree@, v)) ==> settled(self@.vars, res@) && res@
                == subst(self@.vars, tree@).0,
    {
        let mut path: Vec<u64> = Vec::new();
        proof {
            assert(self@.vars.remove_keys(path@.to_set()) =~= self@.vars);
            if linear_with(self@, |v: u64| occ(tree@, v)) {
                law_resolve_idempotent_in_linear_net(self@, tree@);
            }
        }
        self.resolve_in(tree, &mut path)
    }

    /// Resolves `tree` against the bindings that are not on `path`, the
    /// variables whose values are being resolved.
    fn resolve_in(&self, tree: &Tree, path: &mut Vec<u64>) -> (res: Tree)
        ensures
            res@ == resolve(self@.vars.remove_keys(old(path)@.to_set()), tree@),
            final(path)@ == old(path)@,
        decreases self@.vars.remove_keys(old(path)@.to_set()).dom().len(), tree,
    {
        let ghost left = self@.vars.remove_keys(path@.to_set());
        proof {
            assert(self@.vars.dom() =~= self.vars@.dom());
            vstd::set_lib::lemma_len_subset(left.dom(), self@.vars.dom());
        }
        match tree {
            Tree::Agent { id, aux } => {
                let ghost ts = views(aux@);
                let mut ports: Vec<Tree> = Vec::new();
                let mut i: usize = 0;
                while i < aux.len()
                    invariant
                        tree is Agent,
                        tree->Agent_aux == aux,
                        ts == views(aux@),
                        i <= aux.len(),
                        ports@.len() == i,
                        path@ == old(path)@,
                        left == self@.vars.remove_keys(path@.to_set()),
                        views(ports@) == resolve_ports(left, ts, i as nat),
                    decreases aux.len() - i,
                {
                    let ghost before = views(ports@);
                    let port = self.resolve_in(&aux[i], path);
                    ports.push(port);
                    proof {
                        assert(ts[i as int] == aux@[i as int]@);
                        assert(views(ports@) =~= before.push(port@));
                    }
                    i += 1;
                }
                proof {
                    lemma_agent_view(*id, ports);
                    lemma_agent_view(*id, *aux);
                    assert(i as nat == ts.len());
                }
                Tree::Agent { id: *id, aux: ports }
            },
            Tree::Var { id } => {
                if holds(path, id.0) {
                    return Tree::Var { id: *id };
                }
                match self.vars.get(&id.0) {
                    Some(Some(value)) => {
                        path.push(id.0);
                        proof {
                            assert(self@.vars.remove_keys(path@.to_set()) =~= left.remove(id.0)) by {
                                assert forall|k: u64| path@.to_set().contains(k) <==> (old(
                                    path,
                                )@.to_set().contains(k) || k == id.0) by {
                                    if old(path)@.contains(k) {
                                        let j = choose|j: int|
                                            0 <= j < old(path)@.len() && old(path)@[j] == k;
                                        assert(path@[j] == k);
                                    }
                                    if k == id.0 {
                                        assert(path@[path@.len() - 1] == k);
                                    }
                                }
                            }
                        }
                        let res = self.resolve_in(value, path);
                        path.pop();
                        assert(path@ =~= old(path)@);
                        res
                    },
                    _ => Tree::Var { id: *id },
                }
            },
        }
    }
}

/// A copy of the pairs.
pub fn clone_pairs(ps: &Vec<(Tree, Tree)>) -> (copy: Vec<(Tree, Tree)>)
    ensures
        pair_views(copy@) == pair_views(ps@),
{
    let mut copy: Vec<(Tree, Tree)> = Vec::new();
    let mut i: usize = 0;
    while i < ps.len()
        invariant
            i <= ps.len(),
            copy@.len() == i,
            forall|j: int| 0 <= j < i ==> copy@[j].0@ == ps@[j].0@ && copy@[j].1@ == ps@[j].1@,
        decreases ps.len() - i,
    {
        copy.push((ps[i].0.clone(), ps[i].1.clone()));
        i += 1;
    }
    assert(pair_views(copy@) =~= pair_views(ps@));
    copy
}

impl Clone for Net {
    /// A deep copy: the two nets share nothing.
    fn clone(&self) -> (res: Self)
        ensures
            res@ == self@,
    {
        Net {
            interactions: clone_pairs(&self.interactions),
            vars: self.vars.clone(),
            stuck: clone_pairs(&self.stuck),
        }
    }
}

impl Default for Net {
    /// The empty net.
    fn default() -> (net: Self)
        ensures
            net@ == Net::empty_view(),
    {
        Net::new()
    }
}

/// Whether `k` is among `path`.
fn holds(path: &Vec<u64>, k: u64) -> (b: bool)
    ensures
        b == path@.contains(k),
{
    let mut i: usize = 0;
    while i < path.len()
        invariant
            i <= path.len(),
            forall|j: int| 0 <= j < i ==> path@[j] != k,
        decreases path.len() - i,
    {
        if path[i] == k {
            return true;
        }
        i += 1;
    }
    false
}

} // verus!
