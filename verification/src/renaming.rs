//! Equality of trees up to a renaming of their variables.

use crate::term::{lemma_agent_view, views, Tree, TreeView};
use std::collections::BTreeMap;
use vstd::prelude::*;

verus! {

/// A renaming under construction: which variable of the left trees stands
/// for which variable of the right trees, and the other way round.
pub ghost struct Renaming {
    pub forth: Map<u64, u64>,
    pub back: Map<u64, u64>,
}

/// Matches the tree `a` with the tree `b` under the renaming `r`: the
/// renaming extended by the variables that met, or `None` where the trees do
/// not match. Two variables match where neither is renamed yet, or each is
/// renamed to the other; two agents match where they are the same agent of
/// the same number of ports and their ports match from left to right.
pub open spec fn matched(r: Renaming, a: TreeView, b: TreeView) -> Option<Renaming>
    decreases a, 0nat,
{
    match (a, b) {
        (TreeView::Var { id: x }, TreeView::Var { id: y }) => {
            if r.forth.contains_key(x.0) {
                if r.forth[x.0] == y.0 {
                    Some(r)
                } else {
                    None
                }
            } else if r.back.contains_key(y.0) {
                None
            } else {
                Some(Renaming { forth: r.forth.insert(x.0, y.0), back: r.back.insert(y.0, x.0) })
            }
        },
        (TreeView::Agent { id: f, aux: ps }, TreeView::Agent { id: g, aux: qs }) => {
            if f == g && ps.len() == qs.len() {
                matched_ports(r, ps, qs, ps.len())
            } else {
                None
            }
        },
        _ => None,
    }
}

/// Matches the first `n` of the trees `ps` with the first `n` of the trees
/// `qs`, from left to right.
pub open spec fn matched_ports(r: Renaming, ps: Seq<TreeView>, qs: Seq<TreeView>, n: nat)
    -> Option<Renaming>
    decreases ps, n,
{
    if n == 0 || n > ps.len() || n > qs.len() {
        Some(r)
    } else {
        match matched_ports(r, ps, qs, (n - 1) as nat) {
            None => None,
            Some(mid) => matched(mid, ps[n - 1], qs[n - 1]),
        }
    }
}

/// Whether the trees `a` and `b` are equal up to a renaming of variables
/// that extends the one given by `forth` and `back`. Where they are, the two
/// maps hold the extended renaming afterwards.
pub fn same_up_to_renaming(
    a: &Tree,
    b: &Tree,
    forth: &mut BTreeMap<u64, u64>,
    back: &mut BTreeMap<u64, u64>,
) -> (same: bool)
    ensures
        same == matched(Renaming { forth: old(forth)@, back: old(back)@ }, a@, b@) is Some,
        same ==> matched(Renaming { forth: old(forth)@, back: old(back)@ }, a@, b@) == Some(
            Renaming { forth: final(forth)@, back: final(back)@ },
        ),
    decreases a,
{
    match a {
        Tree::Var { id: x } => {
            match b {
                Tree::Var { id: y } => {
                    match forth.get(&x.0) {
                        Some(to) => *to == y.0,
                        None => {
                            if back.contains_key(&y.0) {
                                false
                            } else {
                                forth.insert(x.0, y.0);
                                back.insert(y.0, x.0);
                                true
                            }
                        },
                    }
                },
                Tree::Agent { id, aux } => {
                    proof {
                        lemma_agent_view(*id, *aux);
                    }
                    false
                },
            }
        },
        Tree::Agent { id: f, aux: ps } => {
            proof {
                lemma_agent_view(*f, *ps);
            }
            match b {
                Tree::Var { id } => false,
                Tree::Agent { id: g, aux: qs } => {
                    proof {
                        lemma_agent_view(*g, *qs);
                    }
                    if !(f.0 == g.0 && f.1 == g.1) || ps.len() != qs.len() {
                        return false;
                    }
                    let ghost start = Renaming { forth: forth@, back: back@ };
                    let mut i: usize = 0;
                    while i < ps.len()
                        invariant
                            a is Agent,
                            a->Agent_aux == ps,
                            i <= ps.len(),
                            ps.len() == qs.len(),
                            start == (Renaming { forth: old(forth)@, back: old(back)@ }),
                            matched(start, a@, b@) == matched_ports(
                                start,
                                views(ps@),
                                views(qs@),
                                ps@.len(),
                            ),
                            matched_ports(start, views(ps@), views(qs@), i as nat) == Some(
                                Renaming { forth: forth@, back: back@ },
                            ),
                        decreases ps.len() - i,
                    {
                        if !same_up_to_renaming(&ps[i], &qs[i], forth, back) {
                            proof {
                                assert(views(ps@)[i as int] == ps@[i as int]@);
                                assert(views(qs@)[i as int] == qs@[i as int]@);
                                lemma_mismatch_stays(
                                    start,
                                    views(ps@),
                                    views(qs@),
                                    (i + 1) as nat,
                                    ps@.len(),
                                );
                            }
                            return false;
                        }
                        proof {
                            assert(views(ps@)[i as int] == ps@[i as int]@);
                            assert(views(qs@)[i as int] == qs@[i as int]@);
                        }
                        i += 1;
                    }
                    true
                },
            }
        },
    }
}

/// Once a prefix of the ports does not match, no longer prefix does.
proof fn lemma_mismatch_stays(r: Renaming, ps: Seq<TreeView>, qs: Seq<TreeView>, n: nat, m: nat)
    requires
        0 < n <= m,
        m <= ps.len(),
        m <= qs.len(),
        matched_ports(r, ps, qs, n) is None,
    ensures
        matched_ports(r, ps, qs, m) is None,
    decreases m,
{
    if n < m {
        lemma_mismatch_stays(r, ps, qs, n, (m - 1) as nat);
    }
}

} // verus!
