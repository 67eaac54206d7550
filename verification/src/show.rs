//! Nets and trees as text.
//!
//! A bound variable is shown by its value, once: a variable that was
//! followed is shown by its name wherever it is met again.

use crate::builder::name_views;
use crate::net::{lemma_room, Net, NetView};
use crate::tables::AgentMap;
use crate::term::{lemma_agent_view, pair_views, views, AgentId, Tree, TreeView};
use std::collections::BTreeMap;
use vstd::prelude::*;
use vstd::std_specs::iter::IteratorSpec;
use vstd::string::*;

verus! {

/// The character of a decimal digit.
pub open spec fn digit_char(d: nat) -> char {
    if d == 0 {
        '0'
    } else if d == 1 {
        '1'
    } else if d == 2 {
        '2'
    } else if d == 3 {
        '3'
    } else if d == 4 {
        '4'
    } else if d == 5 {
        '5'
    } else if d == 6 {
        '6'
    } else if d == 7 {
        '7'
    } else if d == 8 {
        '8'
    } else {
        '9'
    }
}

/// The decimal digits of a number.
pub open spec fn digits(n: nat) -> Seq<char>
    decreases n,
{
    if n < 10 {
        seq![digit_char(n)]
    } else {
        digits(n / 10).push(digit_char(n % 10))
    }
}

/// The names of variables as character sequences.
pub open spec fn scope_views(m: Map<u64, String>) -> Map<u64, Seq<char>> {
    Map::new(|k: u64| m.contains_key(k), |k: u64| m[k]@)
}

/// How a variable is shown: by its name, or by `?` and its number.
pub open spec fn var_label(scope: Map<u64, Seq<char>>, v: u64) -> Seq<char> {
    if scope.contains_key(v) {
        scope[v]
    } else {
        seq!['?'] + digits(v as nat)
    }
}

/// How an agent is shown: by its label, or, where it has none, by `#` and
/// its base index, after `~` where its polarity is flipped.
pub open spec fn agent_label(labels: Map<AgentId, Seq<char>>, a: AgentId) -> Seq<char> {
    if labels.contains_key(a) {
        labels[a]
    } else if a.1 {
        seq!['~', '#'] + digits(a.0 as nat)
    } else {
        seq!['#'] + digits(a.0 as nat)
    }
}

/// The text of a tree, and the bindings that were not followed. `left`
/// holds the bindings that may still be followed.
pub open spec fn shown_tree(
    left: Map<u64, Option<TreeView>>,
    labels: Map<AgentId, Seq<char>>,
    scope: Map<u64, Seq<char>>,
    t: TreeView,
) -> (Seq<char>, Map<u64, Option<TreeView>>)
    decreases left.dom().len(), t, 0nat,
{
    match t {
        TreeView::Var { id } => if left.dom().finite() && left.contains_key(id.0)
            && left[id.0] is Some {
            shown_tree(left.remove(id.0), labels, scope, left[id.0]->Some_0)
        } else {
            (var_label(scope, id.0), left)
        },
        TreeView::Agent { id, aux } => {
            let (body, rest) = shown_ports(left, labels, scope, aux, aux.len());
            (
                agent_label(labels, id) + (if aux.len() > 0 {
                    seq!['('] + body + seq![')']
                } else {
                    Seq::empty()
                }),
                rest,
            )
        },
    }
}

/// The texts of the first `n` of the trees `ts`, with a blank between two.
/// (Showing never adds to `left`; the test on the sizes is there for the
/// definition to be well-founded.)
pub open spec fn shown_ports(
    left: Map<u64, Option<TreeView>>,
    labels: Map<AgentId, Seq<char>>,
    scope: Map<u64, Seq<char>>,
    ts: Seq<TreeView>,
    n: nat,
) -> (Seq<char>, Map<u64, Option<TreeView>>)
    decreases left.dom().len(), ts, n,
{
    if n == 0 || n > ts.len() {
        (Seq::empty(), left)
    } else {
        let (init, rest) = shown_ports(left, labels, scope, ts, (n - 1) as nat);
        if rest.dom().len() <= left.dom().len() {
            let (part, rest2) = shown_tree(rest, labels, scope, ts[n - 1]);
            (
                init + (if n > 1 {
                    seq![' ']
                } else {
                    Seq::empty()
                }) + part,
                rest2,
            )
        } else {
            (init, rest)
        }
    }
}

/// The variables whose bindings are followed when the tree `t` is shown, in
/// the order in which they are met.
pub open spec fn followed_tree(
    left: Map<u64, Option<TreeView>>,
    labels: Map<AgentId, Seq<char>>,
    scope: Map<u64, Seq<char>>,
    t: TreeView,
) -> Seq<u64>
    decreases left.dom().len(), t, 0nat,
{
    match t {
        TreeView::Var { id } => if left.dom().finite() && left.contains_key(id.0)
            && left[id.0] is Some {
            seq![id.0] + followed_tree(left.remove(id.0), labels, scope, left[id.0]->Some_0)
        } else {
            Seq::empty()
        },
        TreeView::Agent { id, aux } => followed_ports(left, labels, scope, aux, aux.len()),
    }
}

/// The variables whose bindings are followed when the first `n` of the
/// trees `ts` are shown, in the order in which they are met.
pub open spec fn followed_ports(
    left: Map<u64, Option<TreeView>>,
    labels: Map<AgentId, Seq<char>>,
    scope: Map<u64, Seq<char>>,
    ts: Seq<TreeView>,
    n: nat,
) -> Seq<u64>
    decreases left.dom().len(), ts, n,
{
    if n == 0 || n > ts.len() {
        Seq::empty()
    } else {
        let init = followed_ports(left, labels, scope, ts, (n - 1) as nat);
        let rest = shown_ports(left, labels, scope, ts, (n - 1) as nat).1;
        if rest.dom().len() <= left.dom().len() {
            init + followed_tree(rest, labels, scope, ts[n - 1])
        } else {
            init
        }
    }
}

/// The lines of the first `n` of the pairs `ps`: `a = b` and a line break
/// for each.
pub open spec fn shown_pairs(
    left: Map<u64, Option<TreeView>>,
    labels: Map<AgentId, Seq<char>>,
    scope: Map<u64, Seq<char>>,
    ps: Seq<(TreeView, TreeView)>,
    n: nat,
) -> (Seq<char>, Map<u64, Option<TreeView>>)
    decreases n,
{
    if n == 0 || n > ps.len() {
        (Seq::empty(), left)
    } else {
        let (init, rest) = shown_pairs(left, labels, scope, ps, (n - 1) as nat);
        let (a, rest2) = shown_tree(rest, labels, scope, ps[n - 1].0);
        let (b, rest3) = shown_tree(rest2, labels, scope, ps[n - 1].1);
        (init + a + seq![' ', '=', ' '] + b + seq!['\n'], rest3)
    }
}

/// `k` is the least variable of the store that is not below `bound`.
pub open spec fn is_least_from(dom: Set<u64>, bound: u64, k: u64) -> bool {
    &&& dom.contains(k)
    &&& bound <= k
    &&& forall|j: u64| dom.contains(j) && bound <= j ==> k <= j
}

/// The lines of the bound variables from `bound` upwards, in increasing
/// order: `x = value` for each whose binding was not followed before.
pub open spec fn shown_vars(
    vars: Map<u64, Option<TreeView>>,
    left: Map<u64, Option<TreeView>>,
    labels: Map<AgentId, Seq<char>>,
    scope: Map<u64, Seq<char>>,
    bound: u64,
) -> (Seq<char>, Map<u64, Option<TreeView>>)
    decreases u64::MAX - bound,
{
    if !exists|k: u64| is_least_from(vars.dom(), bound, k) {
        (Seq::empty(), left)
    } else {
        let k = choose|k: u64| is_least_from(vars.dom(), bound, k);
        let (line, rest) = if left.contains_key(k) && vars[k] is Some {
            let (value, rest) = shown_tree(left.remove(k), labels, scope, vars[k]->Some_0);
            (var_label(scope, k) + seq![' ', '=', ' '] + value + seq!['\n'], rest)
        } else {
            (Seq::empty(), left)
        };
        if k == u64::MAX {
            (line, rest)
        } else {
            let (lines, rest2) = shown_vars(vars, rest, labels, scope, (k + 1) as u64);
            (line + lines, rest2)
        }
    }
}

/// The text of a net: its pending pairs, then its bound variables where
/// they are asked for, then its stuck pairs.
pub open spec fn shown_net(
    net: NetView,
    labels: Map<AgentId, Seq<char>>,
    scope: Map<u64, Seq<char>>,
    show_vars: bool,
) -> Seq<char> {
    let (first, left1) = shown_pairs(
        net.vars,
        labels,
        scope,
        net.interactions,
        net.interactions.len(),
    );
    let (second, left2) = if show_vars {
        shown_vars(net.vars, left1, labels, scope, 0)
    } else {
        (Seq::empty(), left1)
    };
    let (third, left3) = shown_pairs(left2, labels, scope, net.stuck, net.stuck.len());
    first + second + third
}

/// Every binding of `part` is a binding of `whole`, which is finite.
pub open spec fn within(part: Map<u64, Option<TreeView>>, whole: Map<u64, Option<TreeView>>) -> bool {
    &&& part.dom().finite()
    &&& part.dom().len() <= whole.dom().len()
    &&& forall|k: u64| #[trigger] part.contains_key(k) ==> whole.contains_key(k) && part[k] == whole[k]
}

/// A part of a part is a part.
proof fn lemma_within_trans(
    a: Map<u64, Option<TreeView>>,
    b: Map<u64, Option<TreeView>>,
    c: Map<u64, Option<TreeView>>,
)
    requires
        within(a, b),
        within(b, c),
    ensures
        within(a, c),
{
    assert forall|k: u64| #[trigger] a.contains_key(k) implies c.contains_key(k) && a[k] == c[k] by {
        assert(b.contains_key(k));
    }
}

/// Showing a tree leaves a part of the bindings.
pub proof fn lemma_shown_tree_within(
    left: Map<u64, Option<TreeView>>,
    labels: Map<AgentId, Seq<char>>,
    scope: Map<u64, Seq<char>>,
    t: TreeView,
)
    requires
        left.dom().finite(),
    ensures
        within(shown_tree(left, labels, scope, t).1, left),
    decreases left.dom().len(), t, 0nat,
{
    match t {
        TreeView::Var { id } => {
            if left.contains_key(id.0) && left[id.0] is Some {
                lemma_shown_tree_within(left.remove(id.0), labels, scope, left[id.0]->Some_0);
                let r = shown_tree(left, labels, scope, t);
                assert(within(left.remove(id.0), left));
                lemma_within_trans(r.1, left.remove(id.0), left);
            }
        },
        TreeView::Agent { id, aux } => {
            lemma_shown_ports_within(left, labels, scope, aux, aux.len());
        },
    }
}

/// Showing trees leaves a part of the bindings.
pub proof fn lemma_shown_ports_within(
    left: Map<u64, Option<TreeView>>,
    labels: Map<AgentId, Seq<char>>,
    scope: Map<u64, Seq<char>>,
    ts: Seq<TreeView>,
    n: nat,
)
    requires
        left.dom().finite(),
    ensures
        within(shown_ports(left, labels, scope, ts, n).1, left),
    decreases left.dom().len(), ts, n,
{
    if n == 0 || n > ts.len() {
    } else {
        lemma_shown_ports_within(left, labels, scope, ts, (n - 1) as nat);
        let rest = shown_ports(left, labels, scope, ts, (n - 1) as nat).1;
        lemma_shown_tree_within(rest, labels, scope, ts[n - 1]);
        lemma_within_trans(shown_tree(rest, labels, scope, ts[n - 1]).1, rest, left);
    }
}

/// The text of one decimal digit.
fn digit_text(d: u64) -> (s: &'static str)
    requires
        d < 10,
    ensures
        s@ == seq![digit_char(d as nat)],
{
    proof {
        reveal_strlit("0");
        reveal_strlit("1");
        reveal_strlit("2");
        reveal_strlit("3");
        reveal_strlit("4");
        reveal_strlit("5");
        reveal_strlit("6");
        reveal_strlit("7");
        reveal_strlit("8");
        reveal_strlit("9");
    }
    let s = if d == 0 {
        "0"
    } else if d == 1 {
        "1"
    } else if d == 2 {
        "2"
    } else if d == 3 {
        "3"
    } else if d == 4 {
        "4"
    } else if d == 5 {
        "5"
    } else if d == 6 {
        "6"
    } else if d == 7 {
        "7"
    } else if d == 8 {
        "8"
    } else {
        "9"
    };
    assert(s@ =~= seq![digit_char(d as nat)]);
    s
}

/// The number `n` in decimal.
pub fn decimal(n: u64) -> (s: String)
    ensures
        s@ == digits(n as nat),
    decreases n,
{
    if n < 10 {
        String::from_str(digit_text(n))
    } else {
        let mut s = decimal(n / 10);
        s.append(digit_text(n % 10));
        assert(s@ =~= digits(n as nat));
        s
    }
}

/// How the variable `v` is shown.
pub fn show_var(scope: &BTreeMap<u64, String>, v: u64) -> (s: String)
    ensures
        s@ == var_label(scope_views(scope@), v),
{
    match scope.get(&v) {
        Some(name) => name.clone(),
        None => {
            proof {
                reveal_strlit("?");
            }
            let mut s = String::from_str("?");
            let d = decimal(v);
            s.append(d.as_str());
            assert(s@ =~= seq!['?'] + digits(v as nat));
            s
        },
    }
}

/// Whether `k` is among `visited`.
fn seen(visited: &Vec<u64>, k: u64) -> (b: bool)
    ensures
        b == visited@.contains(k),
{
    let mut i: usize = 0;
    while i < visited.len()
        invariant
            i <= visited.len(),
            forall|j: int| 0 <= j < i ==> visited@[j] != k,
        decreases visited.len() - i,
    {
        if visited[i] == k {
            return true;
        }
        i += 1;
    }
    false
}

/// The bindings of a store that were not followed.
pub open spec fn unvisited(vars: Map<u64, Option<TreeView>>, visited: Seq<u64>) -> Map<
    u64,
    Option<TreeView>,
> {
    vars.remove_keys(visited.to_set())
}

/// Visiting a variable takes its binding out of the bindings to follow.
proof fn lemma_visit(vars: Map<u64, Option<TreeView>>, visited: Seq<u64>, k: u64)
    ensures
        unvisited(vars, visited.push(k)) == unvisited(vars, visited).remove(k),
{
    assert forall|j: u64| visited.push(k).to_set().contains(j) <==> (visited.to_set().contains(j)
        || j == k) by {
        if visited.contains(j) {
            let i = choose|i: int| 0 <= i < visited.len() && visited[i] == j;
            assert(visited.push(k)[i] == j);
        }
        if j == k {
            assert(visited.push(k)[visited.len() as int] == k);
        }
    }
    assert(unvisited(vars, visited.push(k)) =~= unvisited(vars, visited).remove(k));
}

/// The variables that the store holds.
fn store_keys(m: &BTreeMap<u64, Option<Tree>>) -> (keys: Vec<u64>)
    ensures
        keys@.to_set() == m@.dom(),
{
    let mut keys: Vec<u64> = Vec::new();
    for k in it: m.keys()
        invariant
            it.seq() == m.keys().remaining(),
            keys@.len() == it.index(),
            forall|i: int| 0 <= i < keys@.len() ==> keys@[i] == *it.seq()[i],
    {
        keys.push(*k);
    }
    proof {
        assert(keys@ =~= m.keys().remaining().unref());
    }
    keys
}

/// The least of `keys` that is not below `bound`.
fn least_from(keys: &Vec<u64>, bound: u64) -> (r: Option<u64>)
    ensures
        match r {
            Some(k) => is_least_from(keys@.to_set(), bound, k),
            None => !exists|k: u64| is_least_from(keys@.to_set(), bound, k),
        },
{
    let mut best: Option<u64> = None;
    let mut i: usize = 0;
    while i < keys.len()
        invariant
            i <= keys.len(),
            match best {
                Some(k) => keys@.contains(k) && bound <= k && forall|j: int|
                    0 <= j < i && bound <= keys@[j] ==> k <= keys@[j],
                None => forall|j: int| 0 <= j < i ==> keys@[j] < bound,
            },
        decreases keys.len() - i,
    {
        let k = keys[i];
        if k >= bound {
            match best {
                Some(b) => {
                    if k < b {
                        best = Some(k);
                    }
                },
                None => {
                    best = Some(k);
                },
            }
        }
        i += 1;
    }
    proof {
        match best {
            Some(k) => {
                assert forall|j: u64| keys@.to_set().contains(j) && bound <= j implies k <= j by {
                    let idx = choose|idx: int| 0 <= idx < keys@.len() && keys@[idx] == j;
                    assert(keys@[idx] == j);
                }
            },
            None => {
                assert forall|k: u64| !is_least_from(keys@.to_set(), bound, k) by {
                    if keys@.to_set().contains(k) {
                        let idx = choose|idx: int| 0 <= idx < keys@.len() && keys@[idx] == k;
                        assert(keys@[idx] < bound);
                    }
                }
            },
        }
    }
    best
}

/// How the agent `a` is shown.
pub fn show_label(labels: &AgentMap<String>, a: AgentId) -> (s: String)
    ensures
        s@ == agent_label(name_views(labels.map()), a),
{
    match labels.get(a) {
        Some(name) => name.clone(),
        None => {
            proof {
                reveal_strlit("~#");
                reveal_strlit("#");
            }
            let mut s = if a.1 {
                String::from_str("~#")
            } else {
                String::from_str("#")
            };
            let d = decimal(a.0);
            s.append(d.as_str());
            proof {
                if a.1 {
                    assert(s@ =~= seq!['~', '#'] + digits(a.0 as nat));
                } else {
                    assert(s@ =~= seq!['#'] + digits(a.0 as nat));
                }
            }
            s
        },
    }
}

impl Net {
    /// The text of `tree`. A bound variable that is not among `visited` is
    /// shown by its value and joins `visited`; nothing else does, so `visited`
    /// grows by the variables that were followed, in the order in which they
    /// were met.
    pub fn show_tree(
        &self,
        labels: &AgentMap<String>,
        scope: &BTreeMap<u64, String>,
        visited: &mut Vec<u64>,
        tree: &Tree,
    ) -> (r: String)
        ensures
            (r@, unvisited(self@.vars, final(visited)@)) == shown_tree(
                unvisited(self@.vars, old(visited)@),
                name_views(labels.map()),
                scope_views(scope@),
                tree@,
            ),
            final(visited)@ == old(visited)@ + followed_tree(
                unvisited(self@.vars, old(visited)@),
                name_views(labels.map()),
                scope_views(scope@),
                tree@,
            ),
        decreases unvisited(self@.vars, old(visited)@).dom().len(), tree,
    {
        let ghost left = unvisited(self@.vars, visited@);
        let ghost names = name_views(labels.map());
        let ghost vars = scope_views(scope@);
        proof {
            lemma_room(self);
            vstd::set_lib::lemma_len_subset(left.dom(), self@.vars.dom());
            lemma_shown_tree_within(left, names, vars, tree@);
        }
        match tree {
            Tree::Agent { id, aux } => {
                proof {
                    lemma_agent_view(*id, *aux);
                }
                let mut text = show_label(labels, *id);
                let ghost ts = views(aux@);
                let mut body = String::new();
                let mut i: usize = 0;
                while i < aux.len()
                    invariant
                        tree is Agent,
                        tree->Agent_aux == aux,
                        ts == views(aux@),
                        i <= aux.len(),
                        left == unvisited(self@.vars, old(visited)@),
                        left.dom().finite(),
                        names == name_views(labels.map()),
                        vars == scope_views(scope@),
                        shown_ports(left, names, vars, ts, i as nat) == (
                            body@,
                            unvisited(self@.vars, visited@),
                        ),
                        visited@ == old(visited)@ + followed_ports(left, names, vars, ts, i as nat),
                    decreases aux.len() - i,
                {
                    proof {
                        lemma_shown_ports_within(left, names, vars, ts, i as nat);
                        assert(ts[i as int] == aux@[i as int]@);
                    }
                    let ghost before = body@;
                    let ghost met = visited@;
                    if i > 0 {
                        proof {
                            reveal_strlit(" ");
                        }
                        body.append(" ");
                    }
                    let part = self.show_tree(labels, scope, visited, &aux[i]);
                    body.append(part.as_str());
                    proof {
                        assert(body@ =~= before + (if i > 0 {
                            seq![' ']
                        } else {
                            Seq::empty()
                        }) + part@);
                        assert(visited@ =~= old(visited)@ + (followed_ports(
                            left,
                            names,
                            vars,
                            ts,
                            i as nat,
                        ) + followed_tree(
                            unvisited(self@.vars, met),
                            names,
                            vars,
                            ts[i as int],
                        )));
                    }
                    i += 1;
                }
                if aux.len() > 0 {
                    proof {
                        reveal_strlit("(");
                        reveal_strlit(")");
                    }
                    text.append("(");
                    text.append(body.as_str());
                    text.append(")");
                }
                proof {
                    assert(i as nat == ts.len());
                    assert(text@ =~= shown_tree(left, names, vars, tree@).0);
                    assert(visited@ == old(visited)@ + followed_tree(left, names, vars, tree@));
                }
                text
            },
            Tree::Var { id } => {
                if !seen(visited, id.0) {
                    match self.vars.get(&id.0) {
                        Some(Some(value)) => {
                            proof {
                                lemma_visit(self@.vars, visited@, id.0);
                            }
                            visited.push(id.0);
                            let ghost met = visited@;
                            let text = self.show_tree(labels, scope, visited, value);
                            proof {
                                assert(visited@ =~= old(visited)@ + (seq![id.0] + followed_tree(
                                    left.remove(id.0),
                                    names,
                                    vars,
                                    value@,
                                )));
                            }
                            return text;
                        },
                        _ => {},
                    }
                }
                proof {
                    assert(visited@ =~= old(visited)@ + Seq::<u64>::empty());
                }
                show_var(scope, id.0)
            },
        }
    }

    /// The lines of `pairs`, each `a = b` and a line break.
    fn show_pairs(
        &self,
        labels: &AgentMap<String>,
        scope: &BTreeMap<u64, String>,
        visited: &mut Vec<u64>,
        pairs: &Vec<(Tree, Tree)>,
    ) -> (r: String)
        ensures
            (r@, unvisited(self@.vars, final(visited)@)) == shown_pairs(
                unvisited(self@.vars, old(visited)@),
                name_views(labels.map()),
                scope_views(scope@),
                pair_views(pairs@),
                pairs@.len(),
            ),
    {
        let ghost left = unvisited(self@.vars, visited@);
        let ghost names = name_views(labels.map());
        let ghost vars = scope_views(scope@);
        let ghost ps = pair_views(pairs@);
        let mut text = String::new();
        let mut i: usize = 0;
        while i < pairs.len()
            invariant
                i <= pairs.len(),
                ps == pair_views(pairs@),
                names == name_views(labels.map()),
                vars == scope_views(scope@),
                shown_pairs(left, names, vars, ps, i as nat) == (
                    text@,
                    unvisited(self@.vars, visited@),
                ),
            decreases pairs.len() - i,
        {
            let ghost before = text@;
            let a = self.show_tree(labels, scope, visited, &pairs[i].0);
            let b = self.show_tree(labels, scope, visited, &pairs[i].1);
            proof {
                reveal_strlit(" = ");
                reveal_strlit("\n");
            }
            text.append(a.as_str());
            text.append(" = ");
            text.append(b.as_str());
            text.append("\n");
            proof {
                assert(" = "@ =~= seq![' ', '=', ' ']);
                assert("\n"@ =~= seq!['\n']);
                assert(text@ =~= before + a@ + seq![' ', '=', ' '] + b@ + seq!['\n']);
            }
            i += 1;
        }
        text
    }

    /// The lines of the bound variables whose bindings were not followed, in
    /// increasing order of the variables.
    fn show_bound(
        &self,
        labels: &AgentMap<String>,
        scope: &BTreeMap<u64, String>,
        visited: &mut Vec<u64>,
    ) -> (r: String)
        ensures
            (r@, unvisited(self@.vars, final(visited)@)) == shown_vars(
                self@.vars,
                unvisited(self@.vars, old(visited)@),
                name_views(labels.map()),
                scope_views(scope@),
                0,
            ),
    {
        let ghost names = name_views(labels.map());
        let ghost vars = scope_views(scope@);
        let ghost left1 = unvisited(self@.vars, visited@);
        let keys = store_keys(&self.vars);
        proof {
            assert(self@.vars.dom() =~= self.vars@.dom());
        }
        let mut bound: u64 = 0;
        let mut done = false;
        let mut middle = String::new();
        proof {
            let whole = shown_vars(self@.vars, left1, names, vars, 0);
            assert(middle@ + whole.0 =~= whole.0);
        }
        while !done
            invariant
                keys@.to_set() == self@.vars.dom(),
                names == name_views(labels.map()),
                vars == scope_views(scope@),
                left1 == unvisited(self@.vars, old(visited)@),
                !done ==> shown_vars(self@.vars, left1, names, vars, 0) == (
                    middle@ + shown_vars(
                        self@.vars,
                        unvisited(self@.vars, visited@),
                        names,
                        vars,
                        bound,
                    ).0,
                    shown_vars(
                        self@.vars,
                        unvisited(self@.vars, visited@),
                        names,
                        vars,
                        bound,
                    ).1,
                ),
                done ==> shown_vars(self@.vars, left1, names, vars, 0) == (
                    middle@,
                    unvisited(self@.vars, visited@),
                ),
            decreases
                    if done {
                        0int
                    } else {
                        1 + (u64::MAX - bound)
                    },
        {
            let ghost now = unvisited(self@.vars, visited@);
            match least_from(&keys, bound) {
                None => {
                    done = true;
                    proof {
                        assert(middle@ + Seq::<char>::empty() =~= middle@);
                    }
                },
                Some(k) => {
                    proof {
                        let c = choose|c: u64| is_least_from(self@.vars.dom(), bound, c);
                        assert(is_least_from(self@.vars.dom(), bound, k));
                        assert(c == k);
                    }
                    let ghost before = middle@;
                    let mut line = String::new();
                    if !seen(visited, k) {
                        match self.vars.get(&k) {
                            Some(Some(value)) => {
                                proof {
                                    lemma_visit(self@.vars, visited@, k);
                                    assert(now.contains_key(k));
                                }
                                visited.push(k);
                                let shown = self.show_tree(labels, scope, visited, value);
                                let name = show_var(scope, k);
                                proof {
                                    reveal_strlit(" = ");
                                    reveal_strlit("\n");
                                }
                                line.append(name.as_str());
                                line.append(" = ");
                                line.append(shown.as_str());
                                line.append("\n");
                                proof {
                                    assert(" = "@ =~= seq![' ', '=', ' ']);
                                    assert("\n"@ =~= seq!['\n']);
                                    assert(line@ =~= name@ + seq![' ', '=', ' '] + shown@
                                        + seq!['\n']);
                                }
                            },
                            _ => {
                                proof {
                                    assert(!(now.contains_key(k) && self@.vars[k] is Some));
                                }
                            },
                        }
                    } else {
                        proof {
                            assert(!now.contains_key(k));
                        }
                    }
                    middle.append(line.as_str());
                    if k == u64::MAX {
                        done = true;
                    } else {
                        proof {
                            let tail = shown_vars(
                                self@.vars,
                                unvisited(self@.vars, visited@),
                                names,
                                vars,
                                (k + 1) as u64,
                            );
                            assert(before + (line@ + tail.0) =~= middle@ + tail.0);
                        }
                        bound = k + 1;
                    }
                },
            }
        }
        middle
    }

    /// The text of the net without its bound variables.
    pub fn show_net_compact(&self, labels: &AgentMap<String>, scope: &BTreeMap<u64, String>) -> (r:
        String)
        ensures
            r@ == shown_net(self@, name_views(labels.map()), scope_views(scope@), false),
    {
        self.show_net(labels, scope, false)
    }

    /// The text of the net: a line for each pending pair, then, where
    /// `show_vars` is set, a line for each bound variable whose binding was
    /// not followed, then a line for each stuck pair.
    pub fn show_net(
        &self,
        labels: &AgentMap<String>,
        scope: &BTreeMap<u64, String>,
        show_vars: bool,
    ) -> (r: String)
        ensures
            r@ == shown_net(self@, name_views(labels.map()), scope_views(scope@), show_vars),
    {
        let mut visited: Vec<u64> = Vec::new();
        proof {
            assert(unvisited(self@.vars, visited@) =~= self@.vars);
        }
        let mut text = self.show_pairs(labels, scope, &mut visited, &self.interactions);
        if show_vars {
            let middle = self.show_bound(labels, scope, &mut visited);
            text.append(middle.as_str());
        } else {
            proof {
                assert(text@ + Seq::<char>::empty() =~= text@);
            }
        }
        let third = self.show_pairs(labels, scope, &mut visited, &self.stuck);
        text.append(third.as_str());
        text
    }
}

} // verus!
