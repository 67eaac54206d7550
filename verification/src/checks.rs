//! The three verification passes: completeness, duality, well-typedness.
//! Each hands back its findings in the order in which it met them.

use crate::builder::{Definition, ProgramBuilder};
use crate::checker::{connected_to, derive_type, type_of};
use crate::net::{is_first_free, lemma_first_free, react, reduced, Net, NetView};
use crate::rules::{unordered, InteractionSystem, SystemView};
use crate::tables::lemma_place;
use crate::term::{lemma_agent_view, views, AgentId, Tree, TreeView, VarId};
use vstd::prelude::*;

verus! {

/// A gap in the rules: the types `a_type` and `b_type` have a rule, `a` and
/// `b` are of these types, and `a` and `b` have none.
#[derive(Clone, Copy, Debug, PartialEq, Eq, Structural)]
pub struct CompletenessViolation {
    pub a: AgentId,
    pub b: AgentId,
    pub a_type: AgentId,
    pub b_type: AgentId,
}

/// A broken chain: `a` has a rule with `b`, the dual of `b` has one with
/// `c`, and `a` has none with `c`.
#[derive(Clone, Copy, Debug, PartialEq, Eq, Structural)]
pub struct InverseViolation {
    pub a: AgentId,
    pub b: AgentId,
    pub b_dual: AgentId,
    pub c: AgentId,
}

/// A rule that is not well typed: the net that probes the rule at position
/// `rule`, and what it reduces to, with its stuck pairs.
#[derive(Debug)]
pub struct TypingViolation {
    pub rule: usize,
    pub left_id: AgentId,
    pub right_id: AgentId,
    pub probe: Net,
    pub reduced: Net,
}

/// The mathematical value of a [`TypingViolation`].
pub ghost struct TypingViolationView {
    pub rule: usize,
    pub left_id: AgentId,
    pub right_id: AgentId,
    pub probe: NetView,
    pub reduced: NetView,
}

impl View for TypingViolation {
    type V = TypingViolationView;

    open spec fn view(&self) -> TypingViolationView {
        TypingViolationView {
            rule: self.rule,
            left_id: self.left_id,
            right_id: self.right_id,
            probe: self.probe@,
            reduced: self.reduced@,
        }
    }
}

/// The values of a sequence of typing violations.
pub open spec fn typing_views(vs: Seq<TypingViolation>) -> Seq<TypingViolationView> {
    Seq::new(vs.len(), |i: int| vs[i]@)
}

/// The first `n` of `agents` that have a type, each after its type.
pub open spec fn typed_agents(
    sys: SystemView,
    annotator: AgentId,
    annotation: AgentId,
    agents: Seq<AgentId>,
    n: nat,
) -> Seq<(AgentId, AgentId)>
    decreases n,
{
    if n == 0 || n > agents.len() {
        Seq::empty()
    } else {
        let rest = typed_agents(sys, annotator, annotation, agents, (n - 1) as nat);
        match type_of(sys, annotator, annotation, agents[n - 1]) {
            Some(t) => rest.push((t, agents[n - 1])),
            None => rest,
        }
    }
}

/// The gaps between the instance `a` of `ta` and the instances of `tb`
/// among the first `j` typed agents. Where the two types are one type, a
/// pair of its instances is taken in one order only.
pub open spec fn gaps_of_instance(
    sys: SystemView,
    typed: Seq<(AgentId, AgentId)>,
    ta: AgentId,
    tb: AgentId,
    a: AgentId,
    j: nat,
) -> Seq<CompletenessViolation>
    decreases j,
{
    if j == 0 || j > typed.len() {
        Seq::empty()
    } else {
        let rest = gaps_of_instance(sys, typed, ta, tb, a, (j - 1) as nat);
        let b = typed[j - 1].1;
        if typed[j - 1].0 == tb && (ta != tb || a.le(b)) && !sys.table.contains_key(
            unordered(a, b),
        ) {
            rest.push(CompletenessViolation { a, b, a_type: ta, b_type: tb })
        } else {
            rest
        }
    }
}

/// The gaps between the instances of `ta` among the first `i` typed agents
/// and the instances of `tb`.
pub open spec fn gaps_of_types(
    sys: SystemView,
    typed: Seq<(AgentId, AgentId)>,
    ta: AgentId,
    tb: AgentId,
    i: nat,
) -> Seq<CompletenessViolation>
    decreases i,
{
    if i == 0 || i > typed.len() {
        Seq::empty()
    } else {
        let rest = gaps_of_types(sys, typed, ta, tb, (i - 1) as nat);
        if typed[i - 1].0 == ta {
            rest + gaps_of_instance(sys, typed, ta, tb, typed[i - 1].1, typed.len())
        } else {
            rest
        }
    }
}

/// The gaps under the type `ta` and each of the first `k` agents as the
/// second type: a pair of types counts where the first is not after the
/// second and the two have a rule.
pub open spec fn gaps_of_type(
    sys: SystemView,
    typed: Seq<(AgentId, AgentId)>,
    agents: Seq<AgentId>,
    ta: AgentId,
    k: nat,
) -> Seq<CompletenessViolation>
    decreases k,
{
    if k == 0 || k > agents.len() {
        Seq::empty()
    } else {
        let rest = gaps_of_type(sys, typed, agents, ta, (k - 1) as nat);
        let tb = agents[k - 1];
        if ta.le(tb) && sys.table.contains_key(unordered(ta, tb)) {
            rest + gaps_of_types(sys, typed, ta, tb, typed.len())
        } else {
            rest
        }
    }
}

/// The gaps under each of the first `m` agents as the first type.
pub open spec fn gaps(
    sys: SystemView,
    typed: Seq<(AgentId, AgentId)>,
    agents: Seq<AgentId>,
    m: nat,
) -> Seq<CompletenessViolation>
    decreases m,
{
    if m == 0 || m > agents.len() {
        Seq::empty()
    } else {
        gaps(sys, typed, agents, (m - 1) as nat) + gaps_of_type(
            sys,
            typed,
            agents,
            agents[m - 1],
            agents.len(),
        )
    }
}

/// Whether `v` is a gap among `agents`: its types are among the agents, the
/// first not after the second, and have a rule; its instances are among
/// the agents, of these types, and have no rule; and where the two types
/// are one type, the first instance is not after the second.
pub open spec fn is_gap(
    sys: SystemView,
    annotator: AgentId,
    annotation: AgentId,
    agents: Seq<AgentId>,
    v: CompletenessViolation,
) -> bool {
    &&& agents.contains(v.a_type)
    &&& agents.contains(v.b_type)
    &&& agents.contains(v.a)
    &&& agents.contains(v.b)
    &&& v.a_type.le(v.b_type)
    &&& sys.table.contains_key(unordered(v.a_type, v.b_type))
    &&& type_of(sys, annotator, annotation, v.a) == Some(v.a_type)
    &&& type_of(sys, annotator, annotation, v.b) == Some(v.b_type)
    &&& (v.a_type == v.b_type ==> v.a.le(v.b))
    &&& !sys.table.contains_key(unordered(v.a, v.b))
}

/// What a sequence with one more element holds.
proof fn lemma_holds_push<T>(s: Seq<T>, x: T, y: T)
    ensures
        s.push(x).contains(y) <==> s.contains(y) || x == y,
{
    if s.contains(y) {
        let i = choose|i: int| 0 <= i < s.len() && s[i] == y;
        assert(s.push(x)[i] == y);
    }
    if x == y {
        assert(s.push(x)[s.len() as int] == y);
    }
}

/// What two sequences, one after the other, hold.
proof fn lemma_holds_add<T>(s: Seq<T>, t: Seq<T>, y: T)
    ensures
        (s + t).contains(y) <==> s.contains(y) || t.contains(y),
{
    if s.contains(y) {
        let i = choose|i: int| 0 <= i < s.len() && s[i] == y;
        assert((s + t)[i] == y);
    }
    if t.contains(y) {
        let i = choose|i: int| 0 <= i < t.len() && t[i] == y;
        assert((s + t)[s.len() + i] == y);
    }
    if (s + t).contains(y) {
        let i = choose|i: int| 0 <= i < (s + t).len() && (s + t)[i] == y;
        if i < s.len() {
            assert(s[i] == y);
        } else {
            assert(t[i - s.len()] == y);
        }
    }
}

/// What the first `n` elements of a sequence hold, by what one fewer hold.
proof fn lemma_holds_take<T>(s: Seq<T>, n: nat, y: T)
    requires
        0 < n <= s.len(),
    ensures
        s.take(n as int).contains(y) <==> s.take(n - 1).contains(y) || s[n - 1] == y,
{
    assert(s.take(n as int) =~= s.take(n - 1).push(s[n - 1]));
    lemma_holds_push(s.take(n - 1), s[n - 1], y);
}

/// The typed agents are the agents that have a type, each with its type.
proof fn lemma_typed_agents(
    sys: SystemView,
    annotator: AgentId,
    annotation: AgentId,
    agents: Seq<AgentId>,
    n: nat,
    t: AgentId,
    a: AgentId,
)
    requires
        n <= agents.len(),
    ensures
        typed_agents(sys, annotator, annotation, agents, n).contains((t, a)) <==> agents.take(
            n as int,
        ).contains(a) && type_of(sys, annotator, annotation, a) == Some(t),
    decreases n,
{
    if n == 0 {
        assert(agents.take(0).len() == 0);
        assert(typed_agents(sys, annotator, annotation, agents, n).len() == 0);
    } else {
        let rest = typed_agents(sys, annotator, annotation, agents, (n - 1) as nat);
        lemma_typed_agents(sys, annotator, annotation, agents, (n - 1) as nat, t, a);
        lemma_holds_take(agents, n, a);
        match type_of(sys, annotator, annotation, agents[n - 1]) {
            Some(u) => {
                lemma_holds_push(rest, (u, agents[n - 1]), (t, a));
            },
            None => {},
        }
    }
}

/// What stands between two instances: the rule that is missing, and the one
/// order in which two instances of one type are taken.
pub open spec fn is_open(sys: SystemView, v: CompletenessViolation) -> bool {
    (v.a_type == v.b_type ==> v.a.le(v.b)) && !sys.table.contains_key(unordered(v.a, v.b))
}

/// The gaps of one instance are its open pairs with the instances of the
/// second type.
proof fn lemma_gaps_of_instance(
    sys: SystemView,
    typed: Seq<(AgentId, AgentId)>,
    ta: AgentId,
    tb: AgentId,
    a: AgentId,
    j: nat,
    v: CompletenessViolation,
)
    requires
        j <= typed.len(),
    ensures
        gaps_of_instance(sys, typed, ta, tb, a, j).contains(v) <==> v.a == a && v.a_type == ta
            && v.b_type == tb && typed.take(j as int).contains((tb, v.b)) && is_open(sys, v),
    decreases j,
{
    if j == 0 {
        assert(typed.take(0).len() == 0);
        assert(gaps_of_instance(sys, typed, ta, tb, a, j).len() == 0);
    } else {
        let rest = gaps_of_instance(sys, typed, ta, tb, a, (j - 1) as nat);
        lemma_gaps_of_instance(sys, typed, ta, tb, a, (j - 1) as nat, v);
        lemma_holds_take(typed, j, (tb, v.b));
        let b = typed[j - 1].1;
        lemma_holds_push(rest, CompletenessViolation { a, b, a_type: ta, b_type: tb }, v);
    }
}

/// The gaps of two types are the open pairs of their instances.
proof fn lemma_gaps_of_types(
    sys: SystemView,
    typed: Seq<(AgentId, AgentId)>,
    ta: AgentId,
    tb: AgentId,
    i: nat,
    v: CompletenessViolation,
)
    requires
        i <= typed.len(),
    ensures
        gaps_of_types(sys, typed, ta, tb, i).contains(v) <==> v.a_type == ta && v.b_type == tb
            && typed.take(i as int).contains((ta, v.a)) && typed.contains((tb, v.b)) && is_open(
            sys,
            v,
        ),
    decreases i,
{
    if i == 0 {
        assert(typed.take(0).len() == 0);
        assert(gaps_of_types(sys, typed, ta, tb, i).len() == 0);
    } else {
        let rest = gaps_of_types(sys, typed, ta, tb, (i - 1) as nat);
        lemma_gaps_of_types(sys, typed, ta, tb, (i - 1) as nat, v);
        lemma_holds_take(typed, i, (ta, v.a));
        if typed[i - 1].0 == ta {
            let here = gaps_of_instance(sys, typed, ta, tb, typed[i - 1].1, typed.len());
            lemma_gaps_of_instance(sys, typed, ta, tb, typed[i - 1].1, typed.len(), v);
            assert(typed.take(typed.len() as int) =~= typed);
            lemma_holds_add(rest, here, v);
        }
    }
}

/// The gaps under one type are the open pairs of its instances with the
/// instances of each type that it is not after and has a rule with.
proof fn lemma_gaps_of_type(
    sys: SystemView,
    typed: Seq<(AgentId, AgentId)>,
    agents: Seq<AgentId>,
    ta: AgentId,
    k: nat,
    v: CompletenessViolation,
)
    requires
        k <= agents.len(),
    ensures
        gaps_of_type(sys, typed, agents, ta, k).contains(v) <==> v.a_type == ta && agents.take(
            k as int,
        ).contains(v.b_type) && ta.le(v.b_type) && sys.table.contains_key(
            unordered(ta, v.b_type),
        ) && typed.contains((ta, v.a)) && typed.contains((v.b_type, v.b)) && is_open(sys, v),
    decreases k,
{
    if k == 0 {
        assert(agents.take(0).len() == 0);
        assert(gaps_of_type(sys, typed, agents, ta, k).len() == 0);
    } else {
        let rest = gaps_of_type(sys, typed, agents, ta, (k - 1) as nat);
        lemma_gaps_of_type(sys, typed, agents, ta, (k - 1) as nat, v);
        lemma_holds_take(agents, k, v.b_type);
        let tb = agents[k - 1];
        if ta.le(tb) && sys.table.contains_key(unordered(ta, tb)) {
            let here = gaps_of_types(sys, typed, ta, tb, typed.len());
            lemma_gaps_of_types(sys, typed, ta, tb, typed.len(), v);
            assert(typed.take(typed.len() as int) =~= typed);
            lemma_holds_add(rest, here, v);
        }
    }
}

/// The gaps under the first `m` agents as the first type.
proof fn lemma_gaps(
    sys: SystemView,
    typed: Seq<(AgentId, AgentId)>,
    agents: Seq<AgentId>,
    m: nat,
    v: CompletenessViolation,
)
    requires
        m <= agents.len(),
    ensures
        gaps(sys, typed, agents, m).contains(v) <==> agents.take(m as int).contains(v.a_type)
            && agents.contains(v.b_type) && v.a_type.le(v.b_type) && sys.table.contains_key(
            unordered(v.a_type, v.b_type),
        ) && typed.contains((v.a_type, v.a)) && typed.contains((v.b_type, v.b)) && is_open(
            sys,
            v,
        ),
    decreases m,
{
    if m == 0 {
        assert(agents.take(0).len() == 0);
        assert(gaps(sys, typed, agents, m).len() == 0);
    } else {
        let rest = gaps(sys, typed, agents, (m - 1) as nat);
        lemma_gaps(sys, typed, agents, (m - 1) as nat, v);
        lemma_holds_take(agents, m, v.a_type);
        let here = gaps_of_type(sys, typed, agents, agents[m - 1], agents.len());
        lemma_gaps_of_type(sys, typed, agents, agents[m - 1], agents.len(), v);
        assert(agents.take(agents.len() as int) =~= agents);
        lemma_holds_add(rest, here, v);
    }
}

/// Completeness reports exactly the gaps: a finding that names the
/// instances `a`, `b` and the types `ta`, `tb` is among the findings if and
/// only if all four are among the agents, `ta` is not after `tb` and has a
/// rule with it, `a` is of type `ta` and `b` of type `tb`, `a` and `b` have
/// no rule, and, where `ta` is `tb`, `a` is not after `b`.
pub proof fn law_gaps_are_the_missing_rules(
    sys: SystemView,
    annotator: AgentId,
    annotation: AgentId,
    agents: Seq<AgentId>,
    v: CompletenessViolation,
)
    ensures
        gaps(
            sys,
            typed_agents(sys, annotator, annotation, agents, agents.len()),
            agents,
            agents.len(),
        ).contains(v) <==> is_gap(sys, annotator, annotation, agents, v),
{
    let typed = typed_agents(sys, annotator, annotation, agents, agents.len());
    lemma_gaps(sys, typed, agents, agents.len(), v);
    lemma_typed_agents(sys, annotator, annotation, agents, agents.len(), v.a_type, v.a);
    lemma_typed_agents(sys, annotator, annotation, agents, agents.len(), v.b_type, v.b);
    assert(agents.take(agents.len() as int) =~= agents);
}

/// Two sequences without repetitions that share no element make one
/// without repetitions.
proof fn lemma_joined<T>(s: Seq<T>, t: Seq<T>)
    requires
        s.no_duplicates(),
        t.no_duplicates(),
        forall|y: T| !(s.contains(y) && t.contains(y)),
    ensures
        (s + t).no_duplicates(),
{
    assert forall|i: int, j: int| 0 <= i < s.len() && 0 <= j < t.len() implies s[i] != t[j] by {
        assert(s.contains(s[i]));
        assert(t.contains(t[j]));
    }
    vstd::seq_lib::lemma_no_dup_in_concat(s, t);
}

/// No instance stands twice among the typed agents.
pub open spec fn once_each(typed: Seq<(AgentId, AgentId)>) -> bool {
    forall|i: int, j: int|
        0 <= i < j < typed.len() ==> (#[trigger] typed[i]).1 != (#[trigger] typed[j]).1
}

/// Where no agent stands twice, no instance stands twice among the typed
/// agents.
proof fn lemma_typed_once(
    sys: SystemView,
    annotator: AgentId,
    annotation: AgentId,
    agents: Seq<AgentId>,
    n: nat,
)
    requires
        n <= agents.len(),
        agents.no_duplicates(),
    ensures
        once_each(typed_agents(sys, annotator, annotation, agents, n)),
    decreases n,
{
    if n > 0 {
        let rest = typed_agents(sys, annotator, annotation, agents, (n - 1) as nat);
        let all = typed_agents(sys, annotator, annotation, agents, n);
        lemma_typed_once(sys, annotator, annotation, agents, (n - 1) as nat);
        assert forall|i: int, j: int| 0 <= i < j < all.len() implies (#[trigger] all[i]).1 != (
        #[trigger] all[j]).1 by {
            if j == rest.len() {
                assert(rest.contains(rest[i]));
                lemma_typed_agents(
                    sys,
                    annotator,
                    annotation,
                    agents,
                    (n - 1) as nat,
                    rest[i].0,
                    rest[i].1,
                );
                let k = lemma_place(agents, n - 1, rest[i].1);
                assert(agents[k] == rest[i].1);
            } else {
                assert(all[i] == rest[i]);
                assert(all[j] == rest[j]);
            }
        }
    }
}

/// An instance that stands at `at` among the typed agents does not stand
/// before.
proof fn lemma_not_before(typed: Seq<(AgentId, AgentId)>, at: int, t: AgentId)
    requires
        once_each(typed),
        0 <= at < typed.len(),
    ensures
        !typed.take(at).contains((t, typed[at].1)),
{
    if typed.take(at).contains((t, typed[at].1)) {
        let k = lemma_place(typed, at, (t, typed[at].1));
        assert(typed[k].1 == typed[at].1);
    }
}

/// No gap of one instance is found twice.
proof fn lemma_gaps_of_instance_once(
    sys: SystemView,
    typed: Seq<(AgentId, AgentId)>,
    ta: AgentId,
    tb: AgentId,
    a: AgentId,
    j: nat,
)
    requires
        j <= typed.len(),
        once_each(typed),
    ensures
        gaps_of_instance(sys, typed, ta, tb, a, j).no_duplicates(),
    decreases j,
{
    if j > 0 {
        let rest = gaps_of_instance(sys, typed, ta, tb, a, (j - 1) as nat);
        lemma_gaps_of_instance_once(sys, typed, ta, tb, a, (j - 1) as nat);
        let v = CompletenessViolation { a, b: typed[j - 1].1, a_type: ta, b_type: tb };
        lemma_gaps_of_instance(sys, typed, ta, tb, a, (j - 1) as nat, v);
        lemma_not_before(typed, j - 1, tb);
        assert(!rest.contains(v));
        assert forall|y: CompletenessViolation| !(rest.contains(y) && seq![v].contains(y)) by {
            if seq![v].contains(y) {
                assert(y == v);
            }
        }
        assert(seq![v].no_duplicates());
        lemma_joined(rest, seq![v]);
        assert(rest + seq![v] =~= rest.push(v));
    }
}

/// No gap of two types is found twice.
proof fn lemma_gaps_of_types_once(
    sys: SystemView,
    typed: Seq<(AgentId, AgentId)>,
    ta: AgentId,
    tb: AgentId,
    i: nat,
)
    requires
        i <= typed.len(),
        once_each(typed),
    ensures
        gaps_of_types(sys, typed, ta, tb, i).no_duplicates(),
    decreases i,
{
    if i > 0 {
        let rest = gaps_of_types(sys, typed, ta, tb, (i - 1) as nat);
        lemma_gaps_of_types_once(sys, typed, ta, tb, (i - 1) as nat);
        if typed[i - 1].0 == ta {
            let a = typed[i - 1].1;
            let here = gaps_of_instance(sys, typed, ta, tb, a, typed.len());
            lemma_gaps_of_instance_once(sys, typed, ta, tb, a, typed.len());
            lemma_not_before(typed, i - 1, ta);
            assert forall|y: CompletenessViolation| !(rest.contains(y) && here.contains(y)) by {
                lemma_gaps_of_types(sys, typed, ta, tb, (i - 1) as nat, y);
                lemma_gaps_of_instance(sys, typed, ta, tb, a, typed.len(), y);
            }
            lemma_joined(rest, here);
        }
    }
}

/// No gap under one type is found twice.
proof fn lemma_gaps_of_type_once(
    sys: SystemView,
    typed: Seq<(AgentId, AgentId)>,
    agents: Seq<AgentId>,
    ta: AgentId,
    k: nat,
)
    requires
        k <= agents.len(),
        once_each(typed),
        agents.no_duplicates(),
    ensures
        gaps_of_type(sys, typed, agents, ta, k).no_duplicates(),
    decreases k,
{
    if k > 0 {
        let rest = gaps_of_type(sys, typed, agents, ta, (k - 1) as nat);
        lemma_gaps_of_type_once(sys, typed, agents, ta, (k - 1) as nat);
        let tb = agents[k - 1];
        if ta.le(tb) && sys.table.contains_key(unordered(ta, tb)) {
            let here = gaps_of_types(sys, typed, ta, tb, typed.len());
            lemma_gaps_of_types_once(sys, typed, ta, tb, typed.len());
            assert forall|y: CompletenessViolation| !(rest.contains(y) && here.contains(y)) by {
                lemma_gaps_of_type(sys, typed, agents, ta, (k - 1) as nat, y);
                lemma_gaps_of_types(sys, typed, ta, tb, typed.len(), y);
                if agents.take(k - 1).contains(tb) {
                    let at = lemma_place(agents, k - 1, tb);
                    assert(agents[at] == agents[k - 1]);
                }
            }
            lemma_joined(rest, here);
        }
    }
}

/// No gap under the first `m` agents is found twice.
proof fn lemma_gaps_once(
    sys: SystemView,
    typed: Seq<(AgentId, AgentId)>,
    agents: Seq<AgentId>,
    m: nat,
)
    requires
        m <= agents.len(),
        once_each(typed),
        agents.no_duplicates(),
    ensures
        gaps(sys, typed, agents, m).no_duplicates(),
    decreases m,
{
    if m > 0 {
        let rest = gaps(sys, typed, agents, (m - 1) as nat);
        lemma_gaps_once(sys, typed, agents, (m - 1) as nat);
        let ta = agents[m - 1];
        let here = gaps_of_type(sys, typed, agents, ta, agents.len());
        lemma_gaps_of_type_once(sys, typed, agents, ta, agents.len());
        assert forall|y: CompletenessViolation| !(rest.contains(y) && here.contains(y)) by {
            lemma_gaps(sys, typed, agents, (m - 1) as nat, y);
            lemma_gaps_of_type(sys, typed, agents, ta, agents.len(), y);
            if agents.take(m - 1).contains(ta) {
                let at = lemma_place(agents, m - 1, ta);
                assert(agents[at] == agents[m - 1]);
            }
        }
        lemma_joined(rest, here);
    }
}

/// Completeness reports each gap once: where no agent stands twice among
/// the agents, no finding stands twice among the findings.
pub proof fn law_gaps_are_reported_once(
    sys: SystemView,
    annotator: AgentId,
    annotation: AgentId,
    agents: Seq<AgentId>,
)
    requires
        agents.no_duplicates(),
    ensures
        gaps(
            sys,
            typed_agents(sys, annotator, annotation, agents, agents.len()),
            agents,
            agents.len(),
        ).no_duplicates(),
{
    lemma_typed_once(sys, annotator, annotation, agents, agents.len());
    lemma_gaps_once(
        sys,
        typed_agents(sys, annotator, annotation, agents, agents.len()),
        agents,
        agents.len(),
    );
}

/// The broken chains from `a` over `b` to the first `k` of the agents `cs`.
pub open spec fn breaks_over(sys: SystemView, a: AgentId, b: AgentId, cs: Seq<AgentId>, k: nat)
    -> Seq<InverseViolation>
    decreases k,
{
    if k == 0 || k > cs.len() {
        Seq::empty()
    } else {
        let rest = breaks_over(sys, a, b, cs, (k - 1) as nat);
        if !sys.table.contains_key(unordered(a, cs[k - 1])) {
            rest.push(InverseViolation { a, b, b_dual: b.dual(), c: cs[k - 1] })
        } else {
            rest
        }
    }
}

/// The broken chains from `a` over the first `j` of the agents `bs`.
pub open spec fn breaks_from(
    sys: SystemView,
    agents: Seq<AgentId>,
    a: AgentId,
    bs: Seq<AgentId>,
    j: nat,
) -> Seq<InverseViolation>
    decreases j,
{
    if j == 0 || j > bs.len() {
        Seq::empty()
    } else {
        let cs = connected_to(sys, agents, bs[j - 1].dual(), agents.len());
        breaks_from(sys, agents, a, bs, (j - 1) as nat) + breaks_over(
            sys,
            a,
            bs[j - 1],
            cs,
            cs.len(),
        )
    }
}

/// The broken chains from the first `i` of the agents.
pub open spec fn breaks(sys: SystemView, agents: Seq<AgentId>, i: nat) -> Seq<
    InverseViolation,
>
    decreases i,
{
    if i == 0 || i > agents.len() {
        Seq::empty()
    } else {
        let bs = connected_to(sys, agents, agents[i - 1], agents.len());
        breaks(sys, agents, (i - 1) as nat) + breaks_from(sys, agents, agents[i - 1], bs, bs.len())
    }
}

/// The store that holds the variables below `n`, all unbound.
pub open spec fn blank(n: nat) -> Map<u64, Option<TreeView>> {
    Map::new(|k: u64| k < n, |k: u64| None::<TreeView>)
}

/// The ports `wrap(x(from)), .., wrap(x(from + n - 1))`.
pub open spec fn observed(wrap: AgentId, from: nat, n: nat) -> Seq<TreeView> {
    Seq::new(
        n,
        |i: int| TreeView::Agent {
            id: wrap,
            aux: seq![TreeView::Var { id: VarId((from + i) as u64) }],
        },
    )
}

/// The ports `wrap(anti(x(from))), .., wrap(anti(x(from + n - 1)))`.
pub open spec fn negated(wrap: AgentId, anti: AgentId, from: nat, n: nat) -> Seq<TreeView> {
    Seq::new(
        n,
        |i: int| TreeView::Agent {
            id: wrap,
            aux: seq![
                TreeView::Agent {
                    id: anti,
                    aux: seq![TreeView::Var { id: VarId((from + i) as u64) }],
                },
            ],
        },
    )
}

/// The net that probes a rule between `left` of `nl` ports and `right` of
/// `nr` ports. A variable stands for each port and one more for the output.
/// Each side over its observed ports meets the observed output; then the two
/// sides over their negated ports meet each other.
pub open spec fn typing_probe(
    sys: SystemView,
    annotator: AgentId,
    antitype: AgentId,
    left: AgentId,
    nl: nat,
    right: AgentId,
    nr: nat,
) -> NetView {
    let out = TreeView::Agent {
        id: annotator,
        aux: seq![TreeView::Var { id: VarId((nl + nr) as u64) }],
    };
    let n0 = NetView {
        interactions: Seq::empty(),
        vars: blank(nl + nr + 1),
        stuck: Seq::empty(),
    };
    let n1 = react(n0, sys, TreeView::Agent { id: left, aux: observed(annotator, 0, nl) }, out);
    let n2 = react(
        n1,
        sys,
        TreeView::Agent { id: right, aux: observed(annotator, nl, nr) },
        out,
    );
    react(
        n2,
        sys,
        TreeView::Agent { id: left, aux: negated(annotator, antitype, 0, nl) },
        TreeView::Agent { id: right, aux: negated(annotator, antitype, nl, nr) },
    )
}

/// Whether the check passes over a rule: the rules of the annotation agent
/// and of the annotator are not probed.
pub open spec fn exempt(d: Definition, annotation: AgentId, annotator: AgentId) -> bool {
    d.left_id == annotation || d.right_id == annotation || d.left_id == annotator || d.right_id
        == annotator
}

/// What the check finds of the rule `d`, which stands at the position `at`:
/// nothing where the rule is exempt or its probe reduces without a stuck
/// pair; else the probe and what it reduced to.
#[verifier::opaque]
pub open spec fn finding(
    sys: SystemView,
    annotation: AgentId,
    annotator: AgentId,
    antitype: AgentId,
    d: Definition,
    at: usize,
) -> Option<TypingViolationView> {
    let probe = typing_probe(
        sys,
        annotator,
        antitype,
        d.left_id,
        d.left_children@.len(),
        d.right_id,
        d.right_children@.len(),
    );
    let end = reduced(probe, sys, u64::MAX as nat);
    if !exempt(d, annotation, annotator) && end.stuck.len() > 0 {
        Some(
            TypingViolationView {
                rule: at,
                left_id: d.left_id,
                right_id: d.right_id,
                probe,
                reduced: end,
            },
        )
    } else {
        None
    }
}

/// The ill-typed ones among the first `n` of the rules `defs`: those whose
/// reduced probe has a stuck pair.
pub open spec fn ill_typed(
    sys: SystemView,
    annotation: AgentId,
    annotator: AgentId,
    antitype: AgentId,
    defs: Seq<Definition>,
    n: nat,
) -> Seq<TypingViolationView>
    decreases n,
{
    if n == 0 || n > defs.len() {
        Seq::empty()
    } else {
        let rest = ill_typed(sys, annotation, annotator, antitype, defs, (n - 1) as nat);
        match finding(sys, annotation, annotator, antitype, defs[n - 1], (n - 1) as usize) {
            Some(v) => rest.push(v),
            None => rest,
        }
    }
}

/// The value of a finding, where there is one.
pub open spec fn finding_view(v: Option<TypingViolation>) -> Option<TypingViolationView> {
    match v {
        Some(v) => Some(v@),
        None => None,
    }
}

/// Probes the rule `d`, which stands at the position `at`: builds its
/// probe, reduces a copy of it, and hands both back where a stuck pair is
/// left.
pub fn probe_rule(
    system: &InteractionSystem,
    annotation: AgentId,
    annotator: AgentId,
    antitype: AgentId,
    d: &Definition,
    at: usize,
) -> (v: Option<TypingViolation>)
    ensures
        finding_view(v) == finding(system@, annotation, annotator, antitype, *d, at),
{
    reveal(finding);
    if d.left_id == annotation || d.right_id == annotation || d.left_id == annotator || d.right_id
        == annotator {
        return None;
    }
    let probe = build_typing_probe(
        system,
        annotator,
        antitype,
        d.left_id,
        d.left_children.len(),
        d.right_id,
        d.right_children.len(),
    );
    let mut net = probe.clone();
    net.normal(system);
    if net.stuck.len() > 0 {
        Some(TypingViolation { rule: at, left_id: d.left_id, right_id: d.right_id, probe, reduced: net })
    } else {
        None
    }
}

/// Allocates `n` variables in `net`, which holds the variables below `from`
/// and no others, and wraps each: in `wrap` alone, or in `wrap` over `anti`.
fn observe_ports(net: &mut Net, wrap: AgentId, from: u64, n: usize) -> (ports: Vec<Tree>)
    requires
        old(net)@.vars == blank(from as nat),
    ensures
        from + n <= usize::MAX,
        final(net)@ == (NetView { vars: blank((from + n) as nat), ..old(net)@ }),
        views(ports@) == observed(wrap, from as nat, n as nat),
{
    let mut ports: Vec<Tree> = Vec::new();
    let mut i: usize = 0;
    let size = net.vars.len();
    proof {
        assert(net@.vars.dom() =~= net.vars@.dom());
        lemma_blank_len(from as nat);
    }
    while i < n
        invariant
            i <= n,
            from + i <= usize::MAX,
            ports@.len() == i,
            net@ == (NetView { vars: blank((from + i) as nat), ..old(net)@ }),
            forall|j: int|
                0 <= j < i ==> ports@[j]@ == (TreeView::Agent {
                    id: wrap,
                    aux: seq![TreeView::Var { id: VarId((from + j) as u64) }],
                }),
        decreases n - i,
    {
        proof {
            assert(is_first_free(net@.vars, (from + i) as u64));
            lemma_first_free(net@.vars, (from + i) as u64);
        }
        let v = net.new_var();
        let count = net.vars.len();
        proof {
            assert(net@.vars =~= blank((from + i + 1) as nat));
            assert(net@.vars.dom() =~= net.vars@.dom());
            lemma_blank_len((from + i + 1) as nat);
        }
        let mut inner: Vec<Tree> = Vec::new();
        inner.push(Tree::Var { id: v });
        proof {
            lemma_agent_view(wrap, inner);
            assert(views(inner@) =~= seq![TreeView::Var { id: v }]);
        }
        ports.push(Tree::Agent { id: wrap, aux: inner });
        i += 1;
    }
    assert(views(ports@) =~= observed(wrap, from as nat, n as nat));
    ports
}

/// A blank store of `n` variables has `n` elements.
proof fn lemma_blank_len(n: nat)
    requires
        n <= u64::MAX + 1,
    ensures
        blank(n).dom().finite(),
        blank(n).dom().len() == n,
    decreases n,
{
    if n == 0 {
        assert(blank(n).dom() =~= Set::empty());
    } else {
        lemma_blank_len((n - 1) as nat);
        assert(blank(n).dom() =~= blank((n - 1) as nat).dom().insert((n - 1) as u64));
    }
}

/// The ports `wrap(anti(x(from))), ..` for variables that are allocated.
fn negate_ports(wrap: AgentId, anti: AgentId, from: u64, n: usize) -> (ports: Vec<Tree>)
    requires
        from + n <= u64::MAX,
    ensures
        views(ports@) == negated(wrap, anti, from as nat, n as nat),
{
    let mut ports: Vec<Tree> = Vec::new();
    let mut i: usize = 0;
    while i < n
        invariant
            i <= n,
            from + n <= u64::MAX,
            ports@.len() == i,
            forall|j: int|
                0 <= j < i ==> ports@[j]@ == (TreeView::Agent {
                    id: wrap,
                    aux: seq![
                        TreeView::Agent {
                            id: anti,
                            aux: seq![TreeView::Var { id: VarId((from + j) as u64) }],
                        },
                    ],
                }),
        decreases n - i,
    {
        let mut inner: Vec<Tree> = Vec::new();
        inner.push(Tree::Var { id: VarId(from + i as u64) });
        proof {
            lemma_agent_view(anti, inner);
            assert(views(inner@) =~= seq![TreeView::Var { id: VarId((from + i) as u64) }]);
        }
        let mut outer: Vec<Tree> = Vec::new();
        outer.push(Tree::Agent { id: anti, aux: inner });
        proof {
            lemma_agent_view(wrap, outer);
            assert(views(outer@) =~= seq![
                TreeView::Agent {
                    id: anti,
                    aux: seq![TreeView::Var { id: VarId((from + i) as u64) }],
                },
            ]);
        }
        ports.push(Tree::Agent { id: wrap, aux: outer });
        i += 1;
    }
    assert(views(ports@) =~= negated(wrap, anti, from as nat, n as nat));
    ports
}

/// The net that probes a rule between `left` of `nl` ports and `right` of
/// `nr` ports.
pub fn build_typing_probe(
    system: &InteractionSystem,
    annotator: AgentId,
    antitype: AgentId,
    left: AgentId,
    nl: usize,
    right: AgentId,
    nr: usize,
) -> (net: Net)
    ensures
        net@ == typing_probe(system@, annotator, antitype, left, nl as nat, right, nr as nat),
{
    let mut net = Net::new();
    assert(net@.vars =~= blank(0));
    let left_ports = observe_ports(&mut net, annotator, 0, nl);
    let right_ports = observe_ports(&mut net, annotator, nl as u64, nr);
    let out_a = observe_ports(&mut net, annotator, (nl + nr) as u64, 1);
    proof {
        assert(views(out_a@).len() == 1);
        assert(views(out_a@)[0] == out_a@[0]@);
    }
    let mut out_b: Vec<Tree> = Vec::new();
    out_b.push(out_a[0].clone());
    let left_negated = negate_ports(annotator, antitype, 0, nl);
    let right_negated = negate_ports(annotator, antitype, nl as u64, nr);
    let ghost out = TreeView::Agent {
        id: annotator,
        aux: seq![TreeView::Var { id: VarId((nl + nr) as u64) }],
    };
    let mut out_a = out_a;
    let first_out = out_a.pop().unwrap();
    let second_out = out_b.pop().unwrap();
    proof {
        assert(first_out@ == out);
        assert(second_out@ == out);
        lemma_agent_view(left, left_ports);
        lemma_agent_view(right, right_ports);
        lemma_agent_view(left, left_negated);
        lemma_agent_view(right, right_negated);
    }
    net.interact(system, Tree::Agent { id: left, aux: left_ports }, first_out);
    net.interact(system, Tree::Agent { id: right, aux: right_ports }, second_out);
    net.interact(
        system,
        Tree::Agent { id: left, aux: left_negated },
        Tree::Agent { id: right, aux: right_negated },
    );
    net
}

impl<'i> ProgramBuilder<'i> {
    /// The completeness check: wherever two types have a rule, every pair of
    /// their instances must have one. Returns each pair of instances that
    /// has none, with the two types: the types in the one order in which the
    /// first is not after the second, the first instance of the first type
    /// and the second of the second, whatever the order of the instances;
    /// two instances of one type in the one order in which the first is not
    /// after the second. The findings are exactly these gaps, and in a
    /// well-formed builder each is found once.
    pub fn check_completeness(&self) -> (found: Vec<CompletenessViolation>)
        requires
            self.interaction_system is Some,
            self.agent_named("::"@) is Some,
            self.agent_named(":"@) is Some,
        ensures
            found@ == gaps(
                self.system(),
                typed_agents(
                    self.system(),
                    self.agent_named("::"@)->Some_0,
                    self.agent_named(":"@)->Some_0,
                    self.universe(),
                    self.universe().len(),
                ),
                self.universe(),
                self.universe().len(),
            ),
            forall|v: CompletenessViolation|
                found@.contains(v) <==> is_gap(
                    self.system(),
                    self.agent_named("::"@)->Some_0,
                    self.agent_named(":"@)->Some_0,
                    self.universe(),
                    v,
                ),
            self.wf() ==> found@.no_duplicates(),
    {
        let system = self.interaction_system.as_ref().unwrap();
        let annotator = self.get_agent_id("::").unwrap();
        let annotation = self.get_agent_id(":").unwrap();
        let agents = self.agent_list();
        let mut typed: Vec<(AgentId, AgentId)> = Vec::new();
        let mut n: usize = 0;
        while n < agents.len()
            invariant
                n <= agents@.len(),
                typed@ == typed_agents(system@, annotator, annotation, agents@, n as nat),
            decreases agents@.len() - n,
        {
            match derive_type(system, annotator, annotation, agents[n]) {
                Some(t) => {
                    typed.push((t, agents[n]));
                },
                None => {},
            }
            n += 1;
        }
        let mut found: Vec<CompletenessViolation> = Vec::new();
        let mut m: usize = 0;
        while m < agents.len()
            invariant
                m <= agents@.len(),
                found@ == gaps(system@, typed@, agents@, m as nat),
            decreases agents@.len() - m,
        {
            let ta = agents[m];
            let ghost base_m = found@;
            let mut k: usize = 0;
            while k < agents.len()
                invariant
                    k <= agents@.len(),
                    found@ == base_m + gaps_of_type(system@, typed@, agents@, ta, k as nat),
                decreases agents@.len() - k,
            {
                let tb = agents[k];
                if ta.precedes(tb) && system.has_rule(ta, tb) {
                    let ghost base_k = found@;
                    let mut i: usize = 0;
                    while i < typed.len()
                        invariant
                            i <= typed@.len(),
                            found@ == base_k + gaps_of_types(system@, typed@, ta, tb, i as nat),
                        decreases typed@.len() - i,
                    {
                        if typed[i].0 == ta {
                            let a = typed[i].1;
                            let ghost base_i = found@;
                            let mut j: usize = 0;
                            while j < typed.len()
                                invariant
                                    j <= typed@.len(),
                                    found@ == base_i + gaps_of_instance(
                                        system@,
                                        typed@,
                                        ta,
                                        tb,
                                        a,
                                        j as nat,
                                    ),
                                decreases typed@.len() - j,
                            {
                                let b = typed[j].1;
                                if typed[j].0 == tb && (ta != tb || a.precedes(b))
                                    && !system.has_rule(a, b) {
                                    found.push(
                                        CompletenessViolation { a, b, a_type: ta, b_type: tb },
                                    );
                                }
                                j += 1;
                            }
                        }
                        i += 1;
                    }
                }
                k += 1;
            }
            m += 1;
        }
        proof {
            assert forall|v: CompletenessViolation|
                found@.contains(v) <==> is_gap(system@, annotator, annotation, agents@, v) by {
                law_gaps_are_the_missing_rules(system@, annotator, annotation, agents@, v);
            }
            if self.wf() {
                law_gaps_are_reported_once(system@, annotator, annotation, agents@);
            }
        }
        found
    }

    /// The duality check: where `a` has a rule with `b` and the dual of `b`
    /// has one with `c`, `a` must have one with `c`. Returns each chain for
    /// which it has none.
    pub fn check_inverse(&self) -> (found: Vec<InverseViolation>)
        requires
            self.interaction_system is Some,
        ensures
            found@ == breaks(self.system(), self.universe(), self.universe().len()),
    {
        let system = self.interaction_system.as_ref().unwrap();
        let agents = self.agent_list();
        let mut found: Vec<InverseViolation> = Vec::new();
        let mut i: usize = 0;
        while i < agents.len()
            invariant
                i <= agents@.len(),
                agents@ == self.universe(),
                self.interaction_system is Some,
                system@ == self.system(),
                found@ == breaks(system@, agents@, i as nat),
            decreases agents@.len() - i,
        {
            let a = agents[i];
            let bs = self.can_connect_to(a);
            let ghost base_i = found@;
            let mut j: usize = 0;
            while j < bs.len()
                invariant
                    j <= bs@.len(),
                    agents@ == self.universe(),
                    self.interaction_system is Some,
                    system@ == self.system(),
                    found@ == base_i + breaks_from(system@, agents@, a, bs@, j as nat),
                decreases bs@.len() - j,
            {
                let b = bs[j];
                let cs = self.can_connect_to(self.agent_inverse(b));
                let ghost base_j = found@;
                let mut k: usize = 0;
                while k < cs.len()
                    invariant
                        k <= cs@.len(),
                        found@ == base_j + breaks_over(system@, a, b, cs@, k as nat),
                    decreases cs@.len() - k,
                {
                    if !system.has_rule(a, cs[k]) {
                        found.push(InverseViolation { a, b, b_dual: b.inverse(), c: cs[k] });
                    }
                    k += 1;
                }
                j += 1;
            }
            i += 1;
        }
        found
    }

    /// The well-typedness check: the net that probes a rule must reduce
    /// without a stuck pair. Returns, for each rule that fails, the probe and
    /// what it reduced to.
    pub fn check_well_typedness(&self) -> (found: Vec<TypingViolation>)
        requires
            self.interaction_system is Some,
            self.agent_named(":"@) is Some,
            self.agent_named("::"@) is Some,
            self.agent_named("~"@) is Some,
        ensures
            typing_views(found@) == ill_typed(
                self.system(),
                self.agent_named(":"@)->Some_0,
                self.agent_named("::"@)->Some_0,
                self.agent_named("~"@)->Some_0,
                self.def@,
                self.def@.len(),
            ),
    {
        let system = self.interaction_system.as_ref().unwrap();
        let annotation = self.get_agent_id(":").unwrap();
        let annotator = self.get_agent_id("::").unwrap();
        let antitype = self.get_agent_id("~").unwrap();
        let mut found: Vec<TypingViolation> = Vec::new();
        let mut n: usize = 0;
        while n < self.def.len()
            invariant
                n <= self.def@.len(),
                typing_views(found@) == ill_typed(
                    system@,
                    annotation,
                    annotator,
                    antitype,
                    self.def@,
                    n as nat,
                ),
            decreases self.def@.len() - n,
        {
            let ghost before = typing_views(found@);
            match probe_rule(system, annotation, annotator, antitype, &self.def[n], n) {
                Some(v) => {
                    found.push(v);
                    assert(typing_views(found@) =~= before.push(v@));
                },
                None => {},
            }
            n += 1;
        }
        found
    }
}

} // verus!
