//! Conservation of variables: in a linear net every variable is referenced
//! at most twice, and reduction keeps the net linear.

use crate::net::{
    apply, connect, first_free, fresh_ports, fresh_tree, is_first_free, lemma_prefix_len,
    lemma_subst_ports_shrinks, lemma_subst_shrinks, part_of, react, reduced, resolve,
    resolve_ports, settled, settled_ports, shorter, step, subst, subst_ports, wire_ports, Fresh,
    NetView,
};
use crate::rules::{rule_for, RuleView, SystemView};
use crate::term::TreeView;
use vstd::prelude::*;

verus! {

/// How often the variable `v` occurs in the tree `t`.
pub open spec fn occ(t: TreeView, v: u64) -> nat
    decreases t, 0nat,
{
    match t {
        TreeView::Var { id } => if id.0 == v {
            1
        } else {
            0
        },
        TreeView::Agent { id, aux } => occ_ports(aux, aux.len(), v),
    }
}

/// How often `v` occurs in the first `n` of the trees `ts`.
pub open spec fn occ_ports(ts: Seq<TreeView>, n: nat, v: u64) -> nat
    decreases ts, n,
{
    if n == 0 || n > ts.len() {
        0
    } else {
        occ_ports(ts, (n - 1) as nat, v) + occ(ts[n - 1], v)
    }
}

/// How often `v` occurs in the pairs `ps`.
pub open spec fn occ_pairs(ps: Seq<(TreeView, TreeView)>, v: u64) -> nat
    decreases ps.len(),
{
    if ps.len() == 0 {
        0
    } else {
        occ_pairs(ps.drop_last(), v) + occ(ps.last().0, v) + occ(ps.last().1, v)
    }
}

/// How often `v` occurs in a value of the store.
pub open spec fn occ_opt(o: Option<TreeView>, v: u64) -> nat {
    match o {
        Some(t) => occ(t, v),
        None => 0,
    }
}

/// How often `v` occurs in the values of the store.
pub open spec fn occ_store(vars: Map<u64, Option<TreeView>>, v: u64) -> nat
    decreases vars.dom().len(),
{
    if !vars.dom().finite() || vars.dom().len() == 0 {
        0
    } else {
        let k = vars.dom().choose();
        occ_opt(vars[k], v) + occ_store(vars.remove(k), v)
    }
}

/// One where the store binds `v`: the reference that bound it was read.
pub open spec fn held(vars: Map<u64, Option<TreeView>>, v: u64) -> nat {
    if vars.contains_key(v) && vars[v] is Some {
        1
    } else {
        0
    }
}

/// The number of references to `v` that the net knows: its occurrences in
/// the pending and the stuck pairs and in the values of the store, and one
/// more where `v` is bound.
pub open spec fn refs(net: NetView, v: u64) -> nat {
    occ_pairs(net.interactions, v) + occ_pairs(net.stuck, v) + occ_store(net.vars, v) + held(
        net.vars,
        v,
    )
}

/// A net is linear where each variable has at most two references and every
/// variable that is referenced is in the store.
pub open spec fn linear(net: NetView) -> bool {
    &&& net.vars.dom().finite()
    &&& forall|v: u64| #[trigger] refs(net, v) <= 2
    &&& forall|v: u64| #[trigger] refs(net, v) > 0 ==> net.vars.contains_key(v)
}

/// The occurrences in a store are those in the value of one variable and
/// those in the rest of the store.
pub proof fn lemma_occ_store_remove(vars: Map<u64, Option<TreeView>>, k: u64, v: u64)
    requires
        vars.dom().finite(),
        vars.contains_key(k),
    ensures
        occ_store(vars, v) == occ_opt(vars[k], v) + occ_store(vars.remove(k), v),
    decreases vars.dom().len(),
{
    let c = vars.dom().choose();
    if c != k {
        lemma_occ_store_remove(vars.remove(c), k, v);
        lemma_occ_store_remove(vars.remove(k), c, v);
        assert(vars.remove(c).remove(k) =~= vars.remove(k).remove(c));
    }
}

/// The occurrences in a store after a variable got a value are those in
/// the value and those in the rest of the store.
pub proof fn lemma_occ_store_insert(
    vars: Map<u64, Option<TreeView>>,
    k: u64,
    x: Option<TreeView>,
    v: u64,
)
    requires
        vars.dom().finite(),
    ensures
        occ_store(vars.insert(k, x), v) == occ_opt(x, v) + occ_store(vars.remove(k), v),
        !vars.contains_key(k) ==> occ_store(vars.insert(k, x), v) == occ_opt(x, v) + occ_store(
            vars,
            v,
        ),
{
    lemma_occ_store_remove(vars.insert(k, x), k, v);
    assert(vars.insert(k, x).remove(k) =~= vars.remove(k));
    if !vars.contains_key(k) {
        assert(vars.remove(k) =~= vars);
    }
}

/// The occurrences in pairs after one more pair are those before and those
/// in the pair.
pub proof fn lemma_occ_pairs_push(ps: Seq<(TreeView, TreeView)>, p: (TreeView, TreeView), v: u64)
    ensures
        occ_pairs(ps.push(p), v) == occ_pairs(ps, v) + occ(p.0, v) + occ(p.1, v),
{
    assert(ps.push(p).drop_last() =~= ps);
}

/// A finite store that is not full has a least free variable.
pub proof fn lemma_first_free_exists(vars: Map<u64, Option<TreeView>>)
    requires
        vars.dom().finite(),
        vars.dom().len() <= u64::MAX,
    ensures
        is_first_free(vars, first_free(vars)),
{
    if forall|k: u64| vars.contains_key(k) {
        lemma_prefix_len(vars.dom(), (u64::MAX + 1) as nat);
    }
    let n = choose|n: u64| !vars.contains_key(n);
    lemma_least_free(vars, n);
}

/// Where some variable is free, a least one is.
proof fn lemma_least_free(vars: Map<u64, Option<TreeView>>, n: u64)
    requires
        !vars.contains_key(n),
    ensures
        exists|m: u64| is_first_free(vars, m),
    decreases n,
{
    if forall|k: u64| k < n ==> vars.contains_key(k) {
        assert(is_first_free(vars, n));
    } else {
        let k = choose|k: u64| k < n && !vars.contains_key(k);
        lemma_least_free(vars, k);
    }
}

/// The renaming sends different variables to different variables.
pub open spec fn injective(scope: Map<u64, u64>) -> bool {
    forall|j: u64, k: u64|
        #![trigger scope[j], scope[k]]
        scope.contains_key(j) && scope.contains_key(k) && j != k ==> scope[j] != scope[k]
}

/// What holds while a rule is applied, of the store, the renaming and the
/// count `total` of the references to each variable: no variable has more
/// than two references, a referenced variable is in the store, and a
/// variable that the renaming still holds is in the store with one reference.
pub open spec fn good(
    vars: Map<u64, Option<TreeView>>,
    scope: Map<u64, u64>,
    total: spec_fn(u64) -> nat,
) -> bool {
    &&& vars.dom().finite()
    &&& forall|v: u64| #[trigger] total(v) <= 2
    &&& forall|v: u64| #[trigger] total(v) > 0 ==> vars.contains_key(v)
    &&& forall|k: u64| #[trigger]
        scope.contains_key(k) ==> vars.contains_key(scope[k]) && total(scope[k]) == 1
    &&& injective(scope)
}

/// The store `after` is the store `before` and new unbound variables.
pub open spec fn grown(
    before: Map<u64, Option<TreeView>>,
    after: Map<u64, Option<TreeView>>,
) -> bool {
    &&& after.dom().finite()
    &&& before.dom().len() <= after.dom().len()
    &&& forall|k: u64| #[trigger]
        before.contains_key(k) ==> after.contains_key(k) && after[k] == before[k]
    &&& forall|k: u64| #[trigger] after.contains_key(k) && !before.contains_key(k) ==> after[k] is None
    &&& forall|v: u64| #[trigger] occ_store(after, v) == occ_store(before, v)
}

/// Counts that agree on every variable are good together.
proof fn lemma_good_same(
    vars: Map<u64, Option<TreeView>>,
    scope: Map<u64, u64>,
    f: spec_fn(u64) -> nat,
    g: spec_fn(u64) -> nat,
)
    requires
        good(vars, scope, f),
        forall|v: u64| #[trigger] g(v) == f(v),
    ensures
        good(vars, scope, g),
{
    assert forall|v: u64| #[trigger] g(v) <= 2 by {
        assert(f(v) <= 2);
    }
    assert forall|v: u64| #[trigger] g(v) > 0 implies vars.contains_key(v) by {
        assert(f(v) > 0);
    }
    assert forall|k: u64| #[trigger] scope.contains_key(k) implies vars.contains_key(scope[k])
        && g(scope[k]) == 1 by {
        assert(f(scope[k]) == 1);
    }
}

/// The occurrences in a prefix depend on the prefix alone.
pub proof fn lemma_occ_ports_prefix(ts1: Seq<TreeView>, ts2: Seq<TreeView>, n: nat, v: u64)
    requires
        n <= ts1.len(),
        n <= ts2.len(),
        forall|i: int| 0 <= i < n ==> ts1[i] == ts2[i],
    ensures
        occ_ports(ts1, n, v) == occ_ports(ts2, n, v),
    decreases n,
{
    if n > 0 {
        lemma_occ_ports_prefix(ts1, ts2, (n - 1) as nat, v);
    }
}

/// Freshening never takes a variable out of the store.
pub proof fn lemma_fresh_tree_grows(st: Fresh, t: TreeView)
    requires
        st.vars.dom().finite(),
    ensures
        fresh_tree(st, t).1.vars.dom().finite(),
        st.vars.dom().subset_of(fresh_tree(st, t).1.vars.dom()),
        st.vars.dom().len() <= fresh_tree(st, t).1.vars.dom().len(),
    decreases t, 0nat,
{
    match t {
        TreeView::Var { id } => {},
        TreeView::Agent { id, aux } => {
            lemma_fresh_ports_grows(st, aux, aux.len());
        },
    }
    vstd::set_lib::lemma_len_subset(st.vars.dom(), fresh_tree(st, t).1.vars.dom());
}

/// Freshening templates never takes a variable out of the store.
pub proof fn lemma_fresh_ports_grows(st: Fresh, ts: Seq<TreeView>, n: nat)
    requires
        st.vars.dom().finite(),
    ensures
        fresh_ports(st, ts, n).1.vars.dom().finite(),
        st.vars.dom().subset_of(fresh_ports(st, ts, n).1.vars.dom()),
        st.vars.dom().len() <= fresh_ports(st, ts, n).1.vars.dom().len(),
        n <= ts.len() ==> fresh_ports(st, ts, n).0.len() == n,
    decreases ts, n,
{
    if n == 0 || n > ts.len() {
    } else {
        lemma_fresh_ports_grows(st, ts, (n - 1) as nat);
        let st1 = fresh_ports(st, ts, (n - 1) as nat).1;
        lemma_fresh_tree_grows(st1, ts[n - 1]);
    }
    vstd::set_lib::lemma_len_subset(st.vars.dom(), fresh_ports(st, ts, n).1.vars.dom());
}

/// Freshening a template keeps the count good: every variable of the fresh
/// tree is new to the store or was met once, and is met at most twice.
pub proof fn lemma_fresh_tree(st: Fresh, t: TreeView, total: spec_fn(u64) -> nat)
    requires
        good(st.vars, st.scope, total),
        fresh_tree(st, t).1.vars.dom().len() <= u64::MAX,
    ensures
        good(
            fresh_tree(st, t).1.vars,
            fresh_tree(st, t).1.scope,
            |v: u64| total(v) + occ(fresh_tree(st, t).0, v),
        ),
        grown(st.vars, fresh_tree(st, t).1.vars),
    decreases t, 0nat,
{
    let r = fresh_tree(st, t);
    let after = |v: u64| total(v) + occ(r.0, v);
    lemma_fresh_tree_grows(st, t);
    match t {
        TreeView::Var { id } => {
            if st.scope.contains_key(id.0) {
                let w = st.scope[id.0];
                assert(total(w) == 1);
                assert forall|v: u64| #[trigger] after(v) <= 2 by {
                    assert(total(v) <= 2);
                }
                assert forall|v: u64| #[trigger] after(v) > 0 implies r.1.vars.contains_key(
                    v,
                ) by {
                    if v != w {
                        assert(total(v) > 0);
                    }
                }
                assert forall|k: u64| #[trigger]
                    r.1.scope.contains_key(k) implies r.1.vars.contains_key(r.1.scope[k])
                    && after(r.1.scope[k]) == 1 by {
                    assert(st.scope.contains_key(k));
                    assert(st.scope[k] != st.scope[id.0]);
                    assert(total(st.scope[k]) == 1);
                }
                assert(injective(r.1.scope));
            } else {
                lemma_first_free_exists(st.vars);
                let n = first_free(st.vars);
                assert(!st.vars.contains_key(n));
                assert(total(n) == 0) by {
                    if total(n) > 0 {
                        assert(st.vars.contains_key(n));
                    }
                }
                assert forall|v: u64| #[trigger] after(v) <= 2 by {
                    assert(total(v) <= 2);
                }
                assert forall|v: u64| #[trigger] after(v) > 0 implies r.1.vars.contains_key(
                    v,
                ) by {
                    if v != n {
                        assert(total(v) > 0);
                    }
                }
                assert forall|k: u64| #[trigger]
                    r.1.scope.contains_key(k) implies r.1.vars.contains_key(r.1.scope[k])
                    && after(r.1.scope[k]) == 1 by {
                    if k != id.0 {
                        assert(st.scope.contains_key(k));
                        assert(st.vars.contains_key(st.scope[k]));
                        assert(total(st.scope[k]) == 1);
                    }
                }
                assert(injective(r.1.scope)) by {
                    assert forall|j: u64, k: u64|
                        #![trigger r.1.scope[j], r.1.scope[k]]
                        r.1.scope.contains_key(j) && r.1.scope.contains_key(k) && j
                            != k implies r.1.scope[j] != r.1.scope[k] by {
                        if j != id.0 {
                            assert(st.scope.contains_key(j));
                            assert(st.vars.contains_key(st.scope[j]));
                        }
                        if k != id.0 {
                            assert(st.scope.contains_key(k));
                            assert(st.vars.contains_key(st.scope[k]));
                        }
                    }
                }
                assert forall|v: u64| #[trigger]
                    occ_store(r.1.vars, v) == occ_store(st.vars, v) by {
                    lemma_occ_store_insert(st.vars, n, None, v);
                }
            }
        },
        TreeView::Agent { id, aux } => {
            lemma_fresh_ports(st, aux, aux.len(), total);
            let p = fresh_ports(st, aux, aux.len());
            lemma_good_same(
                r.1.vars,
                r.1.scope,
                |v: u64| total(v) + occ_ports(p.0, aux.len(), v),
                after,
            );
        },
    }
}

/// Freshening templates from left to right keeps the count good.
pub proof fn lemma_fresh_ports(st: Fresh, ts: Seq<TreeView>, n: nat, total: spec_fn(u64) -> nat)
    requires
        good(st.vars, st.scope, total),
        n <= ts.len(),
        fresh_ports(st, ts, n).1.vars.dom().len() <= u64::MAX,
    ensures
        fresh_ports(st, ts, n).0.len() == n,
        good(
            fresh_ports(st, ts, n).1.vars,
            fresh_ports(st, ts, n).1.scope,
            |v: u64| total(v) + occ_ports(fresh_ports(st, ts, n).0, n, v),
        ),
        grown(st.vars, fresh_ports(st, ts, n).1.vars),
    decreases ts, n,
{
    let r = fresh_ports(st, ts, n);
    let after = |v: u64| total(v) + occ_ports(r.0, n, v);
    if n == 0 {
        lemma_good_same(st.vars, st.scope, total, after);
    } else {
        let p = fresh_ports(st, ts, (n - 1) as nat);
        lemma_fresh_ports_grows(st, ts, (n - 1) as nat);
        lemma_fresh_tree_grows(p.1, ts[n - 1]);
        lemma_fresh_ports(st, ts, (n - 1) as nat, total);
        let mid = |v: u64| total(v) + occ_ports(p.0, (n - 1) as nat, v);
        lemma_fresh_tree(p.1, ts[n - 1], mid);
        let q = fresh_tree(p.1, ts[n - 1]);
        assert forall|v: u64| #[trigger] after(v) == mid(v) + occ(q.0, v) by {
            lemma_occ_ports_prefix(r.0, p.0, (n - 1) as nat, v);
        }
        lemma_good_same(r.1.vars, r.1.scope, |v: u64| mid(v) + occ(q.0, v), after);
        assert forall|v: u64| #[trigger] occ_store(r.1.vars, v) == occ_store(st.vars, v) by {
            assert(occ_store(p.1.vars, v) == occ_store(st.vars, v));
            assert(occ_store(q.1.vars, v) == occ_store(p.1.vars, v));
        }
        assert forall|k: u64| #[trigger] st.vars.contains_key(k) implies r.1.vars.contains_key(k)
            && r.1.vars[k] == st.vars[k] by {
            assert(p.1.vars.contains_key(k));
        }
        assert forall|k: u64| #[trigger]
            r.1.vars.contains_key(k) && !st.vars.contains_key(k) implies r.1.vars[k] is None by {
            if p.1.vars.contains_key(k) {
            }
        }
    }
}

/// A longer prefix holds no fewer occurrences.
pub proof fn lemma_occ_ports_mono(ts: Seq<TreeView>, n: nat, m: nat, v: u64)
    requires
        n <= m <= ts.len(),
    ensures
        occ_ports(ts, n, v) <= occ_ports(ts, m, v),
    decreases m,
{
    if n < m {
        lemma_occ_ports_mono(ts, n, (m - 1) as nat, v);
    }
}

/// Linking ports never takes a variable out of the store.
pub proof fn lemma_wire_grows(
    net: NetView,
    scope: Map<u64, u64>,
    templates: Seq<TreeView>,
    actuals: Seq<TreeView>,
    n: nat,
)
    requires
        net.vars.dom().finite(),
    ensures
        wire_ports(net, scope, templates, actuals, n).0.vars.dom().finite(),
        net.vars.dom().len() <= wire_ports(net, scope, templates, actuals, n).0.vars.dom().len(),
    decreases n,
{
    if n == 0 || n > templates.len() || n > actuals.len() {
    } else {
        lemma_wire_grows(net, scope, templates, actuals, (n - 1) as nat);
        let p = wire_ports(net, scope, templates, actuals, (n - 1) as nat);
        lemma_fresh_tree_grows(Fresh { vars: p.0.vars, scope: p.1 }, templates[n - 1]);
    }
}

/// Linking templates to actual ports keeps the count good, where `pending`
/// counts the references that are still to come, the actual ports among them.
pub proof fn lemma_wire(
    net: NetView,
    scope: Map<u64, u64>,
    templates: Seq<TreeView>,
    actuals: Seq<TreeView>,
    n: nat,
    pending: spec_fn(u64) -> nat,
)
    requires
        n <= templates.len(),
        n <= actuals.len(),
        forall|v: u64| #[trigger] pending(v) >= occ_ports(actuals, n, v),
        good(net.vars, scope, |v: u64| refs(net, v) + pending(v)),
        wire_ports(net, scope, templates, actuals, n).0.vars.dom().len() <= u64::MAX,
    ensures
        good(
            wire_ports(net, scope, templates, actuals, n).0.vars,
            wire_ports(net, scope, templates, actuals, n).1,
            |v: u64|
                refs(wire_ports(net, scope, templates, actuals, n).0, v) + (pending(v)
                    - occ_ports(actuals, n, v)) as nat,
        ),
        grown(net.vars, wire_ports(net, scope, templates, actuals, n).0.vars),
        wire_ports(net, scope, templates, actuals, n).0.stuck == net.stuck,
    decreases n,
{
    let r = wire_ports(net, scope, templates, actuals, n);
    let after = |v: u64| refs(r.0, v) + (pending(v) - occ_ports(actuals, n, v)) as nat;
    if n == 0 {
        lemma_good_same(net.vars, scope, |v: u64| refs(net, v) + pending(v), after);
    } else {
        let p = wire_ports(net, scope, templates, actuals, (n - 1) as nat);
        let st0 = Fresh { vars: p.0.vars, scope: p.1 };
        lemma_wire_grows(net, scope, templates, actuals, (n - 1) as nat);
        lemma_fresh_tree_grows(st0, templates[n - 1]);
        assert forall|v: u64| #[trigger] pending(v) >= occ_ports(actuals, (n - 1) as nat, v) by {
            assert(pending(v) >= occ_ports(actuals, n, v));
        }
        lemma_wire(net, scope, templates, actuals, (n - 1) as nat, pending);
        let mid = |v: u64|
            refs(p.0, v) + (pending(v) - occ_ports(actuals, (n - 1) as nat, v)) as nat;
        lemma_fresh_tree(st0, templates[n - 1], mid);
        let q = fresh_tree(st0, templates[n - 1]);
        assert forall|v: u64| #[trigger] after(v) == mid(v) + occ(q.0, v) by {
            assert(pending(v) >= occ_ports(actuals, n, v));
            lemma_occ_pairs_push(p.0.interactions, (q.0, actuals[n - 1]), v);
            assert(occ_store(q.1.vars, v) == occ_store(p.0.vars, v));
            assert(held(q.1.vars, v) == held(p.0.vars, v)) by {
                if p.0.vars.contains_key(v) {
                } else if q.1.vars.contains_key(v) {
                }
            }
        }
        lemma_good_same(r.0.vars, r.1, |v: u64| mid(v) + occ(q.0, v), after);
        assert forall|v: u64| #[trigger] occ_store(r.0.vars, v) == occ_store(net.vars, v) by {
            assert(occ_store(p.0.vars, v) == occ_store(net.vars, v));
            assert(occ_store(q.1.vars, v) == occ_store(p.0.vars, v));
        }
        assert forall|k: u64| #[trigger] net.vars.contains_key(k) implies r.0.vars.contains_key(
            k,
        ) && r.0.vars[k] == net.vars[k] by {
            assert(p.0.vars.contains_key(k));
        }
        assert forall|k: u64| #[trigger]
            r.0.vars.contains_key(k) && !net.vars.contains_key(k) implies r.0.vars[k] is None by {
            if p.0.vars.contains_key(k) {
            }
        }
    }
}

/// Every variable that `before` binds is bound to the same tree in `after`,
/// or is no longer held: no binding is overwritten.
pub open spec fn bindings_kept(
    before: Map<u64, Option<TreeView>>,
    after: Map<u64, Option<TreeView>>,
) -> bool {
    forall|v: u64| #[trigger]
        after.contains_key(v) && before.contains_key(v) && before[v] is Some ==> after[v]
            == before[v]
}

/// Applying a rule to the ports of two agents gives a linear net, where the
/// net and the ports together were linear.
pub proof fn lemma_apply(net: NetView, rule: RuleView, left: Seq<TreeView>, right: Seq<TreeView>)
    requires
        net.vars.dom().finite(),
        forall|v: u64|
            #[trigger] refs(net, v) + occ_ports(left, left.len(), v) + occ_ports(
                right,
                right.len(),
                v,
            ) <= 2,
        forall|v: u64|
            #[trigger] refs(net, v) + occ_ports(left, left.len(), v) + occ_ports(
                right,
                right.len(),
                v,
            ) > 0 ==> net.vars.contains_key(v),
        apply(net, rule, left, right).vars.dom().len() <= u64::MAX,
    ensures
        linear(apply(net, rule, left, right)),
        grown(net.vars, apply(net, rule, left, right).vars),
        apply(net, rule, left, right).stuck == net.stuck,
{
    let nl = shorter(rule.left_ports.len(), left.len());
    let nr = shorter(rule.right_ports.len(), right.len());
    let pending1 = |v: u64| occ_ports(left, left.len(), v) + occ_ports(right, right.len(), v);
    let m = wire_ports(net, Map::empty(), rule.left_ports, left, nl);
    let r = wire_ports(m.0, m.1, rule.right_ports, right, nr);
    lemma_wire_grows(net, Map::empty(), rule.left_ports, left, nl);
    lemma_wire_grows(m.0, m.1, rule.right_ports, right, nr);
    let start = |v: u64| refs(net, v) + pending1(v);
    assert(good(net.vars, Map::empty(), start)) by {
        assert forall|v: u64| #[trigger] start(v) <= 2 by {
            assert(refs(net, v) + occ_ports(left, left.len(), v) + occ_ports(
                right,
                right.len(),
                v,
            ) <= 2);
        }
        assert forall|v: u64| #[trigger] start(v) > 0 implies net.vars.contains_key(v) by {
            assert(refs(net, v) + occ_ports(left, left.len(), v) + occ_ports(
                right,
                right.len(),
                v,
            ) > 0);
        }
    }
    assert forall|v: u64| #[trigger] pending1(v) >= occ_ports(left, nl, v) by {
        lemma_occ_ports_mono(left, nl, left.len(), v);
    }
    lemma_wire(net, Map::empty(), rule.left_ports, left, nl, pending1);
    let pending2 = |v: u64| (pending1(v) - occ_ports(left, nl, v)) as nat;
    assert forall|v: u64| #[trigger] pending2(v) >= occ_ports(right, nr, v) by {
        lemma_occ_ports_mono(left, nl, left.len(), v);
        lemma_occ_ports_mono(right, nr, right.len(), v);
        assert(pending1(v) >= occ_ports(left, nl, v));
    }
    lemma_good_same(
        m.0.vars,
        m.1,
        |v: u64| refs(m.0, v) + (pending1(v) - occ_ports(left, nl, v)) as nat,
        |v: u64| refs(m.0, v) + pending2(v),
    );
    lemma_wire(m.0, m.1, rule.right_ports, right, nr, pending2);
    let end = |v: u64| refs(r.0, v) + (pending2(v) - occ_ports(right, nr, v)) as nat;
    assert forall|v: u64| #[trigger] refs(r.0, v) <= 2 by {
        assert(end(v) <= 2);
    }
    assert forall|v: u64| #[trigger] refs(r.0, v) > 0 implies r.0.vars.contains_key(v) by {
        assert(end(v) > 0);
    }
    assert forall|v: u64| #[trigger] occ_store(r.0.vars, v) == occ_store(net.vars, v) by {
        assert(occ_store(m.0.vars, v) == occ_store(net.vars, v));
        assert(occ_store(r.0.vars, v) == occ_store(m.0.vars, v));
    }
    assert forall|k: u64| #[trigger] net.vars.contains_key(k) implies r.0.vars.contains_key(k)
        && r.0.vars[k] == net.vars[k] by {
        assert(m.0.vars.contains_key(k));
    }
    assert forall|k: u64| #[trigger]
        r.0.vars.contains_key(k) && !net.vars.contains_key(k) implies r.0.vars[k] is None by {
        if m.0.vars.contains_key(k) {
        }
    }
}

/// Meeting a variable with a tree gives a linear net, where the net, the
/// tree and the occurrence of the variable together were linear.
pub proof fn lemma_connect(net: NetView, v0: u64, other: TreeView)
    requires
        net.vars.dom().finite(),
        forall|v: u64|
            #[trigger] refs(net, v) + occ(other, v) + (if v == v0 {
                1nat
            } else {
                0nat
            }) <= 2,
        forall|v: u64|
            #[trigger] refs(net, v) + occ(other, v) + (if v == v0 {
                1nat
            } else {
                0nat
            }) > 0 ==> net.vars.contains_key(v),
    ensures
        linear(connect(net, v0, other)),
        bindings_kept(net.vars, connect(net, v0, other).vars),
{
    let after = connect(net, v0, other);
    assert(refs(net, v0) + occ(other, v0) + 1 <= 2);
    assert(net.vars.contains_key(v0));
    if net.vars[v0] is Some {
        let x = net.vars[v0]->Some_0;
        assert forall|v: u64| #[trigger]
            refs(after, v) + (if v == v0 {
                1nat
            } else {
                0nat
            }) == refs(net, v) + occ(other, v) by {
            lemma_occ_pairs_push(net.interactions, (other, x), v);
            lemma_occ_store_remove(net.vars, v0, v);
        }
        assert forall|v: u64| #[trigger] refs(after, v) <= 2 by {
            assert(refs(net, v) + occ(other, v) + (if v == v0 {
                1nat
            } else {
                0nat
            }) <= 2);
        }
        assert forall|v: u64| #[trigger] refs(after, v) > 0 implies after.vars.contains_key(
            v,
        ) by {
            assert(refs(net, v) + occ(other, v) + (if v == v0 {
                1nat
            } else {
                0nat
            }) <= 2);
            if v != v0 {
                assert(refs(net, v) + occ(other, v) + (if v == v0 {
                    1nat
                } else {
                    0nat
                }) > 0);
            }
        }
    } else {
        assert forall|v: u64| #[trigger]
            refs(after, v) == refs(net, v) + occ(other, v) + (if v == v0 {
                1nat
            } else {
                0nat
            }) by {
            lemma_occ_store_insert(net.vars, v0, Some(other), v);
            lemma_occ_store_remove(net.vars, v0, v);
        }
        assert forall|v: u64| #[trigger] refs(after, v) <= 2 by {
            assert(refs(net, v) + occ(other, v) + (if v == v0 {
                1nat
            } else {
                0nat
            }) <= 2);
        }
        assert forall|v: u64| #[trigger] refs(after, v) > 0 implies after.vars.contains_key(
            v,
        ) by {
            assert(refs(net, v) + occ(other, v) + (if v == v0 {
                1nat
            } else {
                0nat
            }) > 0);
        }
    }
}

/// One rewrite keeps a net linear: where the net and the pair that
/// interacts were linear together, the net after the rewrite is linear.
pub proof fn law_react_linear(net: NetView, sys: SystemView, a: TreeView, b: TreeView)
    requires
        linear(NetView { interactions: net.interactions.push((a, b)), ..net }),
        react(net, sys, a, b).vars.dom().len() <= u64::MAX,
    ensures
        linear(react(net, sys, a, b)),
        bindings_kept(net.vars, react(net, sys, a, b).vars),
{
    let whole = NetView { interactions: net.interactions.push((a, b)), ..net };
    assert forall|v: u64| #[trigger] refs(whole, v) == refs(net, v) + occ(a, v) + occ(b, v) by {
        lemma_occ_pairs_push(net.interactions, (a, b), v);
    }
    match b {
        TreeView::Var { id } => {
            assert forall|v: u64|
                #[trigger] refs(net, v) + occ(a, v) + (if v == id.0 {
                    1nat
                } else {
                    0nat
                }) <= 2 by {
                assert(refs(whole, v) <= 2);
            }
            assert forall|v: u64|
                #[trigger] refs(net, v) + occ(a, v) + (if v == id.0 {
                    1nat
                } else {
                    0nat
                }) > 0 implies net.vars.contains_key(v) by {
                assert(refs(whole, v) > 0);
            }
            lemma_connect(net, id.0, a);
        },
        TreeView::Agent { id: id2, aux: aux2 } => match a {
            TreeView::Var { id } => {
                assert forall|v: u64|
                    #[trigger] refs(net, v) + occ(b, v) + (if v == id.0 {
                        1nat
                    } else {
                        0nat
                    }) <= 2 by {
                    assert(refs(whole, v) <= 2);
                }
                assert forall|v: u64|
                    #[trigger] refs(net, v) + occ(b, v) + (if v == id.0 {
                        1nat
                    } else {
                        0nat
                    }) > 0 implies net.vars.contains_key(v) by {
                    assert(refs(whole, v) > 0);
                }
                lemma_connect(net, id.0, b);
            },
            TreeView::Agent { id: id1, aux: aux1 } => {
                let after = react(net, sys, a, b);
                match rule_for(sys, id1, id2) {
                    None => {
                        assert forall|v: u64| #[trigger] refs(after, v) == refs(whole, v) by {
                            lemma_occ_pairs_push(net.stuck, (a, b), v);
                        }
                        assert forall|v: u64| #[trigger] refs(after, v) <= 2 by {
                            assert(refs(whole, v) <= 2);
                        }
                        assert forall|v: u64| #[trigger]
                            refs(after, v) > 0 implies after.vars.contains_key(v) by {
                            assert(refs(whole, v) > 0);
                        }
                    },
                    Some((rule, flipped)) => {
                        let (left, right) = if flipped {
                            (aux2, aux1)
                        } else {
                            (aux1, aux2)
                        };
                        assert forall|v: u64|
                            #[trigger] refs(net, v) + occ_ports(left, left.len(), v) + occ_ports(
                                right,
                                right.len(),
                                v,
                            ) <= 2 by {
                            assert(refs(whole, v) <= 2);
                        }
                        assert forall|v: u64|
                            #[trigger] refs(net, v) + occ_ports(left, left.len(), v) + occ_ports(
                                right,
                                right.len(),
                                v,
                            ) > 0 implies net.vars.contains_key(v) by {
                            assert(refs(whole, v) > 0);
                        }
                        lemma_apply(net, rule, left, right);
                    },
                }
            },
        },
    }
}

/// One step of reduction keeps a net linear, and overwrites no binding: a
/// variable is bound once, and stays bound until it is consumed.
pub proof fn law_step_linear(net: NetView, sys: SystemView)
    requires
        linear(net),
        step(net, sys).vars.dom().len() <= u64::MAX,
    ensures
        linear(step(net, sys)),
        bindings_kept(net.vars, step(net, sys).vars),
{
    if net.interactions.len() > 0 {
        let p = net.interactions.last();
        let rest = NetView { interactions: net.interactions.drop_last(), ..net };
        assert(rest.interactions.push((p.0, p.1)) =~= net.interactions);
        law_react_linear(rest, sys, p.0, p.1);
    }
}

/// A variable that a linear net does not hold is referenced nowhere in it:
/// once consumed, a variable is gone for good.
pub proof fn law_consumed_is_unreferenced(net: NetView, v: u64)
    requires
        linear(net),
        !net.vars.contains_key(v),
    ensures
        refs(net, v) == 0,
        occ_pairs(net.interactions, v) == 0,
        occ_pairs(net.stuck, v) == 0,
        occ_store(net.vars, v) == 0,
{
    if refs(net, v) > 0 {
        assert(net.vars.contains_key(v));
    }
}

/// Reduction keeps a net linear and never overwrites a binding, as long as
/// the store has room for the variables that each step allocates.
pub proof fn law_reduced_linear(net: NetView, sys: SystemView, limit: nat)
    requires
        linear(net),
        forall|k: nat| k <= limit ==> #[trigger] reduced(net, sys, k).vars.dom().len() <= u64::MAX,
    ensures
        linear(reduced(net, sys, limit)),
    decreases limit,
{
    if limit == 0 || net.interactions.len() == 0 {
    } else {
        assert(reduced(net, sys, 1) == reduced(step(net, sys), sys, 0));
        assert(reduced(net, sys, 1).vars.dom().len() <= u64::MAX);
        law_step_linear(net, sys);
        assert forall|k: nat| k <= limit - 1 implies #[trigger] reduced(
            step(net, sys),
            sys,
            k,
        ).vars.dom().len() <= u64::MAX by {
            assert(reduced(net, sys, k + 1) == reduced(step(net, sys), sys, k));
            assert(reduced(net, sys, k + 1).vars.dom().len() <= u64::MAX);
        }
        law_reduced_linear(step(net, sys), sys, (limit - 1) as nat);
    }
}

/// The empty net is linear.
pub proof fn law_empty_is_linear()
    ensures
        linear(crate::net::Net::empty_view()),
{
    let net = crate::net::Net::empty_view();
    assert(net.interactions.len() == 0);
    assert(net.stuck.len() == 0);
    assert(net.vars.dom() =~= Set::<u64>::empty());
    assert forall|v: u64| #[trigger] refs(net, v) == 0 by {}
}

/// Allocating a variable keeps a net linear: the new variable is held
/// unbound and has no reference yet.
pub proof fn law_new_var_linear(net: NetView, v: u64)
    requires
        linear(net),
        !net.vars.contains_key(v),
    ensures
        linear(NetView { vars: net.vars.insert(v, None), ..net }),
        refs(NetView { vars: net.vars.insert(v, None), ..net }, v) == 0,
{
    let after = NetView { vars: net.vars.insert(v, None), ..net };
    assert forall|w: u64| #[trigger] refs(after, w) == refs(net, w) by {
        lemma_occ_store_insert(net.vars, v, None, w);
    }
    assert forall|w: u64| #[trigger] refs(after, w) <= 2 by {
        assert(refs(net, w) <= 2);
    }
    assert forall|w: u64| #[trigger] refs(after, w) > 0 implies after.vars.contains_key(w) by {
        assert(refs(net, w) > 0);
    }
    if refs(net, v) > 0 {
        assert(net.vars.contains_key(v));
    }
}

/// The net `net` and further references, counted by `more`, are linear
/// together.
pub open spec fn linear_with(net: NetView, more: spec_fn(u64) -> nat) -> bool {
    &&& net.vars.dom().finite()
    &&& forall|v: u64| #[trigger] refs(net, v) + more(v) <= 2
    &&& forall|v: u64| #[trigger] refs(net, v) + more(v) > 0 ==> net.vars.contains_key(v)
}

/// Counts that agree on every variable are linear together.
proof fn lemma_linear_with_same(net: NetView, f: spec_fn(u64) -> nat, g: spec_fn(u64) -> nat)
    requires
        linear_with(net, f),
        forall|v: u64| #[trigger] g(v) == f(v),
    ensures
        linear_with(net, g),
{
    assert forall|v: u64| #[trigger] refs(net, v) + g(v) <= 2 by {
        assert(refs(net, v) + f(v) <= 2);
    }
    assert forall|v: u64| #[trigger] refs(net, v) + g(v) > 0 implies net.vars.contains_key(v) by {
        assert(refs(net, v) + f(v) > 0);
    }
}

/// Reading a tree out of the store of a net keeps the count linear: the
/// tree read takes the place of the tree, and each binding that was followed
/// is gone with the occurrence that led to it.
pub proof fn lemma_subst_linear(net: NetView, t: TreeView, more: spec_fn(u64) -> nat)
    requires
        linear_with(net, |v: u64| occ(t, v) + more(v)),
    ensures
        linear_with(
            NetView { vars: subst(net.vars, t).1, ..net },
            |v: u64| occ(subst(net.vars, t).0, v) + more(v),
        ),
    decreases net.vars.dom().len(), t, 0nat,
{
    let before = |v: u64| occ(t, v) + more(v);
    let r = subst(net.vars, t);
    let after_net = NetView { vars: r.1, ..net };
    let after = |v: u64| occ(r.0, v) + more(v);
    match t {
        TreeView::Var { id } => {
            if net.vars.contains_key(id.0) && net.vars[id.0] is Some {
                let x = id.0;
                let b = net.vars[x]->Some_0;
                let mid = NetView { vars: net.vars.remove(x), ..net };
                let mid_more = |v: u64| occ(b, v) + more(v);
                assert forall|v: u64| #[trigger]
                    refs(mid, v) + mid_more(v) + (if v == x {
                        2nat
                    } else {
                        0nat
                    }) == refs(net, v) + before(v) by {
                    lemma_occ_store_remove(net.vars, x, v);
                }
                assert forall|v: u64| #[trigger] refs(mid, v) + mid_more(v) <= 2 by {
                    assert(refs(net, v) + before(v) <= 2);
                }
                assert forall|v: u64| #[trigger]
                    refs(mid, v) + mid_more(v) > 0 implies mid.vars.contains_key(v) by {
                    assert(refs(net, v) + before(v) <= 2);
                    if v != x {
                        assert(refs(net, v) + before(v) > 0);
                    }
                }
                lemma_subst_linear(mid, b, more);
            } else {
                lemma_linear_with_same(net, before, after);
            }
        },
        TreeView::Agent { id, aux } => {
            lemma_linear_with_same(net, before, |v: u64| occ_ports(aux, aux.len(), v) + more(v));
            lemma_subst_ports_linear(net, aux, aux.len(), |v: u64|
                occ_ports(aux, aux.len(), v) + more(v));
            let p = subst_ports(net.vars, aux, aux.len());
            lemma_subst_ports_shrinks(net.vars, aux, aux.len());
            lemma_linear_with_same(
                after_net,
                |v: u64|
                    occ_ports(p.0, aux.len(), v) + ((occ_ports(aux, aux.len(), v) + more(v))
                        - occ_ports(aux, aux.len(), v)) as nat,
                after,
            );
        },
    }
}

/// Reading the first `n` of the trees `ts` keeps the count linear, where
/// `pending` counts the references that are still to come, the trees among
/// them.
pub proof fn lemma_subst_ports_linear(
    net: NetView,
    ts: Seq<TreeView>,
    n: nat,
    pending: spec_fn(u64) -> nat,
)
    requires
        n <= ts.len(),
        forall|v: u64| #[trigger] pending(v) >= occ_ports(ts, n, v),
        linear_with(net, pending),
    ensures
        subst_ports(net.vars, ts, n).0.len() == n,
        linear_with(
            NetView { vars: subst_ports(net.vars, ts, n).1, ..net },
            |v: u64|
                occ_ports(subst_ports(net.vars, ts, n).0, n, v) + (pending(v) - occ_ports(
                    ts,
                    n,
                    v,
                )) as nat,
        ),
    decreases net.vars.dom().len(), ts, n,
{
    let r = subst_ports(net.vars, ts, n);
    let after = |v: u64| occ_ports(r.0, n, v) + (pending(v) - occ_ports(ts, n, v)) as nat;
    lemma_subst_ports_shrinks(net.vars, ts, n);
    if n == 0 {
        lemma_linear_with_same(net, pending, after);
    } else {
        let p = subst_ports(net.vars, ts, (n - 1) as nat);
        let mid_net = NetView { vars: p.1, ..net };
        lemma_subst_ports_shrinks(net.vars, ts, (n - 1) as nat);
        assert forall|v: u64| #[trigger] pending(v) >= occ_ports(ts, (n - 1) as nat, v) by {
            assert(pending(v) >= occ_ports(ts, n, v));
        }
        lemma_subst_ports_linear(net, ts, (n - 1) as nat, pending);
        let rest = |v: u64|
            occ_ports(p.0, (n - 1) as nat, v) + (pending(v) - occ_ports(ts, n, v)) as nat;
        let had = |v: u64|
            occ_ports(p.0, (n - 1) as nat, v) + (pending(v) - occ_ports(
                ts,
                (n - 1) as nat,
                v,
            )) as nat;
        let next = |v: u64| occ(ts[n - 1], v) + rest(v);
        assert forall|v: u64| #[trigger] next(v) == had(v) by {
            assert(pending(v) >= occ_ports(ts, n, v));
        }
        lemma_linear_with_same(mid_net, had, next);
        lemma_subst_linear(mid_net, ts[n - 1], rest);
        let q = subst(p.1, ts[n - 1]);
        assert(r.0 == p.0.push(q.0));
        assert forall|v: u64| #[trigger] after(v) == occ(q.0, v) + rest(v) by {
            lemma_occ_ports_prefix(r.0, p.0, (n - 1) as nat, v);
        }
        lemma_linear_with_same(
            NetView { vars: q.1, ..net },
            |v: u64| occ(q.0, v) + rest(v),
            after,
        );
    }
}

/// Reading keeps a net linear: where the net and the tree were linear
/// together, so are the net that is left and the tree that was read; and a
/// variable that the store no longer holds, such as one whose binding was
/// read, is referenced nowhere any more.
pub proof fn law_read_keeps_linear(net: NetView, t: TreeView)
    requires
        linear_with(net, |v: u64| occ(t, v)),
    ensures
        linear_with(
            NetView { vars: subst(net.vars, t).1, ..net },
            |v: u64| occ(subst(net.vars, t).0, v),
        ),
        forall|v: u64|
            !(#[trigger] subst(net.vars, t).1.contains_key(v)) ==> occ(subst(net.vars, t).0, v)
                == 0 && refs(NetView { vars: subst(net.vars, t).1, ..net }, v) == 0,
{
    let zero = |v: u64| 0nat;
    let r = subst(net.vars, t);
    let left = NetView { vars: r.1, ..net };
    lemma_linear_with_same(net, |v: u64| occ(t, v), |v: u64| occ(t, v) + zero(v));
    lemma_subst_linear(net, t, zero);
    lemma_linear_with_same(left, |v: u64| occ(r.0, v) + zero(v), |v: u64| occ(r.0, v));
    let after = |v: u64| occ(r.0, v);
    assert forall|v: u64| !(#[trigger] r.1.contains_key(v)) implies occ(r.0, v) == 0 && refs(
        left,
        v,
    ) == 0 by {
        if refs(left, v) + after(v) > 0 {
            assert(left.vars.contains_key(v));
        }
    }
}

/// A tree in which no bound variable occurs is fully resolved.
pub proof fn lemma_settled_by_count(vars: Map<u64, Option<TreeView>>, t: TreeView)
    requires
        forall|v: u64| #[trigger] occ(t, v) > 0 ==> !(vars.contains_key(v) && vars[v] is Some),
    ensures
        settled(vars, t),
    decreases t, 0nat,
{
    match t {
        TreeView::Var { id } => {
            assert(occ(t, id.0) > 0);
        },
        TreeView::Agent { id, aux } => {
            assert forall|v: u64| #[trigger] occ_ports(aux, aux.len(), v) > 0 implies !(
            vars.contains_key(v) && vars[v] is Some) by {
                assert(occ(t, v) > 0);
            }
            lemma_settled_ports_by_count(vars, aux, aux.len());
        },
    }
}

/// Trees in which no bound variable occurs are fully resolved.
proof fn lemma_settled_ports_by_count(vars: Map<u64, Option<TreeView>>, ts: Seq<TreeView>, n: nat)
    requires
        n <= ts.len(),
        forall|v: u64| #[trigger] occ_ports(ts, n, v) > 0 ==> !(vars.contains_key(v) && vars[v]
            is Some),
    ensures
        settled_ports(vars, ts, n),
    decreases ts, n,
{
    if n > 0 {
        assert forall|v: u64| #[trigger] occ_ports(ts, (n - 1) as nat, v) > 0 implies !(
        vars.contains_key(v) && vars[v] is Some) by {
            assert(occ_ports(ts, n, v) > 0);
        }
        lemma_settled_ports_by_count(vars, ts, (n - 1) as nat);
        assert forall|v: u64| #[trigger] occ(ts[n - 1], v) > 0 implies !(vars.contains_key(v)
            && vars[v] is Some) by {
            assert(occ_ports(ts, n, v) > 0);
        }
        lemma_settled_by_count(vars, ts[n - 1]);
    }
}

/// The bindings that `whole` holds beyond `part` are out of the way of `t`:
/// none of their variables occurs in `t` or in a value of `part`.
pub open spec fn clear_of(
    whole: Map<u64, Option<TreeView>>,
    part: Map<u64, Option<TreeView>>,
    t: TreeView,
) -> bool {
    &&& whole.dom().finite()
    &&& part.dom().finite()
    &&& part_of(part, whole)
    &&& forall|v: u64| #[trigger]
        whole.contains_key(v) && !part.contains_key(v) ==> occ(t, v) == 0 && occ_store(part, v)
            == 0
}

/// Resolving a tree does not look at bindings that are out of its way.
pub proof fn lemma_resolve_frame(
    whole: Map<u64, Option<TreeView>>,
    part: Map<u64, Option<TreeView>>,
    t: TreeView,
)
    requires
        clear_of(whole, part, t),
    ensures
        resolve(whole, t) == resolve(part, t),
    decreases whole.dom().len(), t, 0nat,
{
    match t {
        TreeView::Var { id } => {
            let x = id.0;
            if whole.contains_key(x) && whole[x] is Some {
                if !part.contains_key(x) {
                    assert(occ(t, x) == 0);
                }
                let b = whole[x]->Some_0;
                assert(part[x] == whole[x]);
                assert forall|v: u64| #[trigger]
                    whole.remove(x).contains_key(v) && !part.remove(x).contains_key(v) implies occ(
                    b,
                    v,
                ) == 0 && occ_store(part.remove(x), v) == 0 by {
                    assert(whole.contains_key(v) && !part.contains_key(v));
                    lemma_occ_store_remove(part, x, v);
                }
                assert(part_of(part.remove(x), whole.remove(x)));
                lemma_resolve_frame(whole.remove(x), part.remove(x), b);
            } else {
                if part.contains_key(x) {
                    assert(whole.contains_key(x));
                }
            }
        },
        TreeView::Agent { id, aux } => {
            lemma_resolve_ports_frame(whole, part, aux, aux.len());
        },
    }
}

/// Resolving trees does not look at bindings that are out of their way.
proof fn lemma_resolve_ports_frame(
    whole: Map<u64, Option<TreeView>>,
    part: Map<u64, Option<TreeView>>,
    ts: Seq<TreeView>,
    n: nat,
)
    requires
        n <= ts.len(),
        whole.dom().finite(),
        part.dom().finite(),
        part_of(part, whole),
        forall|v: u64| #[trigger]
            whole.contains_key(v) && !part.contains_key(v) ==> occ_ports(ts, n, v) == 0
                && occ_store(part, v) == 0,
    ensures
        resolve_ports(whole, ts, n) == resolve_ports(part, ts, n),
    decreases whole.dom().len(), ts, n,
{
    if n > 0 {
        assert forall|v: u64| #[trigger]
            whole.contains_key(v) && !part.contains_key(v) implies occ_ports(
            ts,
            (n - 1) as nat,
            v,
        ) == 0 && occ_store(part, v) == 0 by {
            assert(occ_ports(ts, n, v) == 0);
        }
        lemma_resolve_ports_frame(whole, part, ts, (n - 1) as nat);
        assert forall|v: u64| #[trigger]
            whole.contains_key(v) && !part.contains_key(v) implies occ(ts[n - 1], v) == 0
            && occ_store(part, v) == 0 by {
            assert(occ_ports(ts, n, v) == 0);
        }
        lemma_resolve_frame(whole, part, ts[n - 1]);
    }
}

/// In a linear net, resolving a tree gives what reading it gives.
pub proof fn lemma_resolve_is_read(net: NetView, t: TreeView, more: spec_fn(u64) -> nat)
    requires
        linear_with(net, |v: u64| occ(t, v) + more(v)),
    ensures
        resolve(net.vars, t) == subst(net.vars, t).0,
    decreases net.vars.dom().len(), t, 0nat,
{
    let before = |v: u64| occ(t, v) + more(v);
    match t {
        TreeView::Var { id } => {
            if net.vars.contains_key(id.0) && net.vars[id.0] is Some {
                let x = id.0;
                let b = net.vars[x]->Some_0;
                let mid = NetView { vars: net.vars.remove(x), ..net };
                let mid_more = |v: u64| occ(b, v) + more(v);
                assert forall|v: u64| #[trigger]
                    refs(mid, v) + mid_more(v) + (if v == x {
                        2nat
                    } else {
                        0nat
                    }) == refs(net, v) + before(v) by {
                    lemma_occ_store_remove(net.vars, x, v);
                }
                assert forall|v: u64| #[trigger] refs(mid, v) + mid_more(v) <= 2 by {
                    assert(refs(net, v) + before(v) <= 2);
                }
                assert forall|v: u64| #[trigger]
                    refs(mid, v) + mid_more(v) > 0 implies mid.vars.contains_key(v) by {
                    assert(refs(net, v) + before(v) <= 2);
                    if v != x {
                        assert(refs(net, v) + before(v) > 0);
                    }
                }
                lemma_resolve_is_read(mid, b, more);
            }
        },
        TreeView::Agent { id, aux } => {
            lemma_linear_with_same(net, before, |v: u64| occ_ports(aux, aux.len(), v) + more(v));
            lemma_resolve_ports_are_read(net, aux, aux.len(), |v: u64|
                occ_ports(aux, aux.len(), v) + more(v));
        },
    }
}

/// In a linear net, resolving trees gives what reading them in turn gives.
proof fn lemma_resolve_ports_are_read(
    net: NetView,
    ts: Seq<TreeView>,
    n: nat,
    pending: spec_fn(u64) -> nat,
)
    requires
        n <= ts.len(),
        forall|v: u64| #[trigger] pending(v) >= occ_ports(ts, n, v),
        linear_with(net, pending),
    ensures
        resolve_ports(net.vars, ts, n) == subst_ports(net.vars, ts, n).0,
    decreases net.vars.dom().len(), ts, n,
{
    if n > 0 {
        let p = subst_ports(net.vars, ts, (n - 1) as nat);
        let mid_net = NetView { vars: p.1, ..net };
        lemma_subst_ports_shrinks(net.vars, ts, (n - 1) as nat);
        assert forall|v: u64| #[trigger] pending(v) >= occ_ports(ts, (n - 1) as nat, v) by {
            assert(pending(v) >= occ_ports(ts, n, v));
        }
        lemma_resolve_ports_are_read(net, ts, (n - 1) as nat, pending);
        lemma_subst_ports_linear(net, ts, (n - 1) as nat, pending);
        let rest = |v: u64|
            occ_ports(p.0, (n - 1) as nat, v) + (pending(v) - occ_ports(ts, n, v)) as nat;
        let had = |v: u64|
            occ_ports(p.0, (n - 1) as nat, v) + (pending(v) - occ_ports(
                ts,
                (n - 1) as nat,
                v,
            )) as nat;
        let next = |v: u64| occ(ts[n - 1], v) + rest(v);
        assert forall|v: u64| #[trigger] next(v) == had(v) by {
            assert(pending(v) >= occ_ports(ts, n, v));
        }
        lemma_linear_with_same(mid_net, had, next);
        lemma_resolve_is_read(mid_net, ts[n - 1], rest);
        assert forall|v: u64| #[trigger]
            net.vars.contains_key(v) && !p.1.contains_key(v) implies occ(ts[n - 1], v) == 0
            && occ_store(p.1, v) == 0 by {
            if refs(mid_net, v) + next(v) > 0 {
                assert(mid_net.vars.contains_key(v));
            }
        }
        lemma_resolve_frame(net.vars, p.1, ts[n - 1]);
    }
}

/// Resolution is idempotent in a linear net: where the net and the tree are
/// linear together, resolving the tree gives what reading it would give, a
/// fully resolved tree, and resolving that again changes nothing.
pub proof fn law_resolve_idempotent_in_linear_net(net: NetView, t: TreeView)
    requires
        linear_with(net, |v: u64| occ(t, v)),
    ensures
        resolve(net.vars, t) == subst(net.vars, t).0,
        settled(net.vars, resolve(net.vars, t)),
        resolve(net.vars, resolve(net.vars, t)) == resolve(net.vars, t),
{
    let zero = |v: u64| 0nat;
    let r = subst(net.vars, t);
    let left = NetView { vars: r.1, ..net };
    lemma_linear_with_same(net, |v: u64| occ(t, v), |v: u64| occ(t, v) + zero(v));
    lemma_resolve_is_read(net, t, zero);
    law_read_keeps_linear(net, t);
    lemma_subst_shrinks(net.vars, t);
    crate::laws::law_read_tree_is_resolved(net.vars, t);
    assert forall|v: u64| #[trigger] occ(r.0, v) > 0 implies !(net.vars.contains_key(v)
        && net.vars[v] is Some) by {
        if net.vars.contains_key(v) && net.vars[v] is Some {
            assert(r.1.contains_key(v));
            assert(r.1[v] == net.vars[v]);
            lemma_occurs_unbound(r.1, r.0, v);
        }
    }
    lemma_settled_by_count(net.vars, r.0);
    crate::laws::law_resolved_tree_is_fixed(net.vars, r.0);
}

/// A variable that occurs in a fully resolved tree is not bound.
pub proof fn lemma_occurs_unbound(vars: Map<u64, Option<TreeView>>, t: TreeView, v: u64)
    requires
        settled(vars, t),
        occ(t, v) > 0,
    ensures
        !(vars.contains_key(v) && vars[v] is Some),
    decreases t, 0nat,
{
    match t {
        TreeView::Var { id } => {},
        TreeView::Agent { id, aux } => {
            lemma_occurs_unbound_in_ports(vars, aux, aux.len(), v);
        },
    }
}

/// A variable that occurs in fully resolved trees is not bound.
proof fn lemma_occurs_unbound_in_ports(
    vars: Map<u64, Option<TreeView>>,
    ts: Seq<TreeView>,
    n: nat,
    v: u64,
)
    requires
        n <= ts.len(),
        settled_ports(vars, ts, n),
        occ_ports(ts, n, v) > 0,
    ensures
        !(vars.contains_key(v) && vars[v] is Some),
    decreases ts, n,
{
    if n > 0 {
        if occ(ts[n - 1], v) > 0 {
            lemma_occurs_unbound(vars, ts[n - 1], v);
        } else {
            lemma_occurs_unbound_in_ports(vars, ts, (n - 1) as nat, v);
        }
    }
}

} // verus!
