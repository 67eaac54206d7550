//! Identities and scopes: every agent name gets a base index, every agent
//! has a dual, and names are resolved through a stack of nested scopes.

use crate::net::{first_free, is_first_free, Net, NetView};
use crate::rules::{InteractionSystem, SystemView};
use crate::tables::{as_map, put, put_all, vals_of, AgentMap, NameMap};
use crate::term::{views, AgentId, Tree, TreeView, VarId};
use vstd::prelude::*;
use vstd::std_specs::iter::IteratorSpec;
use vstd::string::*;

verus! {

/// A rule as the program states it: the two agents and, for each, the trees
/// at its ports, with every local redex of the rule reduced away.
#[derive(Debug)]
pub struct Definition {
    pub left_id: AgentId,
    pub left_children: Vec<Tree>,
    pub right_id: AgentId,
    pub right_children: Vec<Tree>,
}

/// The variables of one scope: their net and their names.
#[derive(Debug)]
pub struct Vars {
    pub net: Net,
    pub var_scope: NameMap<VarId>,
}

/// One lexical scope.
#[derive(Debug)]
pub struct Level {
    pub agent_scope: NameMap<AgentId>,
    pub vars: Vars,
}

/// The state of a program while it is being built.
#[derive(Debug)]
pub struct ProgramBuilder<'i> {
    /// The program text, its characters, and the position of the next
    /// character to read.
    pub input: &'i str,
    pub text: Vec<char>,
    pub index: usize,
    /// The stack of scopes, innermost last.
    pub levels: Vec<Level>,
    /// The rules stated so far.
    pub def: Vec<Definition>,
    /// The name of each agent.
    pub agent_scope_back: AgentMap<String>,
    /// The number of ports of each agent.
    pub arities: AgentMap<u64>,
    /// The base index that the next new name gets.
    pub next_agent_id: u64,
    /// The rules compiled from `def`, once they are.
    pub interaction_system: Option<InteractionSystem>,
    /// The lines that reductions asked to be shown.
    pub output: Vec<String>,
}

/// The mathematical value of a [`Definition`].
pub ghost struct DefinitionView {
    pub left_id: AgentId,
    pub left_children: Seq<TreeView>,
    pub right_id: AgentId,
    pub right_children: Seq<TreeView>,
}

impl View for Definition {
    type V = DefinitionView;

    open spec fn view(&self) -> DefinitionView {
        DefinitionView {
            left_id: self.left_id,
            left_children: views(self.left_children@),
            right_id: self.right_id,
            right_children: views(self.right_children@),
        }
    }
}

/// The mathematical value of a [`Level`]: its agent names with their
/// agents, in the order of declaration; its variable names with their
/// variables; and its net.
pub ghost struct LevelView {
    pub agents: Seq<(Seq<char>, AgentId)>,
    pub vars: Seq<(Seq<char>, VarId)>,
    pub net: NetView,
}

impl View for Level {
    type V = LevelView;

    open spec fn view(&self) -> LevelView {
        LevelView { agents: self.agent_scope@, vars: self.vars.var_scope@, net: self.vars.net@ }
    }
}

/// The mathematical value of a [`ProgramBuilder`].
pub ghost struct BuilderView {
    pub text: Seq<char>,
    pub index: nat,
    pub levels: Seq<LevelView>,
    pub defs: Seq<DefinitionView>,
    pub names: Map<AgentId, Seq<char>>,
    pub arities: Map<AgentId, u64>,
    pub next: nat,
    pub system: Option<SystemView>,
    pub output: Seq<Seq<char>>,
}

/// The values of a sequence of scopes.
pub open spec fn level_views(levels: Seq<Level>) -> Seq<LevelView> {
    Seq::new(levels.len(), |i: int| levels[i]@)
}

/// The values of a sequence of rules.
pub open spec fn definition_views(defs: Seq<Definition>) -> Seq<DefinitionView> {
    Seq::new(defs.len(), |i: int| defs[i]@)
}

/// The values of a sequence of lines.
pub open spec fn line_views(lines: Seq<String>) -> Seq<Seq<char>> {
    Seq::new(lines.len(), |i: int| lines[i]@)
}

impl<'i> View for ProgramBuilder<'i> {
    type V = BuilderView;

    open spec fn view(&self) -> BuilderView {
        BuilderView {
            text: self.text@,
            index: self.index as nat,
            levels: level_views(self.levels@),
            defs: definition_views(self.def@),
            names: name_views(self.agent_scope_back.map()),
            arities: self.arities.map(),
            next: self.next_agent_id as nat,
            system: match self.interaction_system {
                Some(sys) => Some(sys@),
                None => None,
            },
            output: line_views(self.output@),
        }
    }
}

/// The agent that the innermost scope holding `n` gives to it.
pub open spec fn find_agent(levels: Seq<LevelView>, n: Seq<char>) -> Option<AgentId>
    decreases levels.len(),
{
    if levels.len() == 0 {
        None
    } else if as_map(levels.last().agents).contains_key(n) {
        Some(as_map(levels.last().agents)[n])
    } else {
        find_agent(levels.drop_last(), n)
    }
}

/// The variable that the innermost scope holding `n` gives to it.
pub open spec fn find_var(levels: Seq<LevelView>, n: Seq<char>) -> Option<VarId>
    decreases levels.len(),
{
    if levels.len() == 0 {
        None
    } else if as_map(levels.last().vars).contains_key(n) {
        Some(as_map(levels.last().vars)[n])
    } else {
        find_var(levels.drop_last(), n)
    }
}

/// The scope without names, with the empty net.
pub open spec fn empty_level() -> LevelView {
    LevelView { agents: Seq::empty(), vars: Seq::empty(), net: Net::empty_view() }
}

/// The builder with the innermost scope replaced.
pub open spec fn with_last(bv: BuilderView, level: LevelView) -> BuilderView {
    BuilderView { levels: bv.levels.drop_last().push(level), ..bv }
}

/// Resolving the agent name `n`: the agent, and the builder after it. A
/// base name that no scope holds is declared in the innermost scope under
/// the next base index, with its name and the name of its dual on record;
/// each marked suffix of `n` goes on record as the name of its agent.
pub open spec fn declared_agent(bv: BuilderView, n: Seq<char>) -> (AgentId, BuilderView) {
    let b = base_name(n);
    match find_agent(bv.levels, b) {
        Some(id0) => (
            marked_id(id0, n),
            BuilderView { names: marked_names(bv.names, id0, n), ..bv },
        ),
        None => {
            let id0 = AgentId(bv.next as u64, false);
            let last = bv.levels.last();
            let level = LevelView { agents: put(last.agents, b, id0), ..last };
            (
                marked_id(id0, n),
                BuilderView {
                    names: marked_names(
                        bv.names.insert(id0, b).insert(id0.dual(), seq!['~'] + b),
                        id0,
                        n,
                    ),
                    next: bv.next + 1,
                    ..with_last(bv, level)
                },
            )
        },
    }
}

/// Resolving the variable name `n`: the variable, and the builder after
/// it. A name that no scope holds gets the least free variable of the net of
/// the innermost scope.
pub open spec fn declared_var(bv: BuilderView, n: Seq<char>) -> (VarId, BuilderView) {
    match find_var(bv.levels, n) {
        Some(id) => (id, bv),
        None => {
            let last = bv.levels.last();
            let v = first_free(last.net.vars);
            let level = LevelView {
                vars: put(last.vars, n, VarId(v)),
                net: NetView { vars: last.net.vars.insert(v, None), ..last.net },
                ..last
            };
            (VarId(v), with_last(bv, level))
        },
    }
}

/// The builder after `a` and its dual were given the arity `k`.
pub open spec fn with_arity(bv: BuilderView, a: AgentId, k: u64) -> BuilderView {
    BuilderView { arities: bv.arities.insert(a, k).insert(a.dual(), k), ..bv }
}

/// Whether the name is a duality marker in front of a name.
pub open spec fn is_marked(n: Seq<char>) -> bool {
    n.len() > 1 && n[0] == '~'
}

/// The name without its duality markers.
pub open spec fn base_name(n: Seq<char>) -> Seq<char>
    decreases n.len(),
{
    if is_marked(n) {
        base_name(n.skip(1))
    } else {
        n
    }
}

/// The agent that `n` names where its base name names `id0`: each duality
/// marker flips the polarity.
pub open spec fn marked_id(id0: AgentId, n: Seq<char>) -> AgentId
    decreases n.len(),
{
    if is_marked(n) {
        marked_id(id0, n.skip(1)).dual()
    } else {
        id0
    }
}

/// The names on record once `n` was resolved: every marked suffix of `n` is
/// the name of the agent that it names.
pub open spec fn marked_names(back: Map<AgentId, Seq<char>>, id0: AgentId, n: Seq<char>) -> Map<
    AgentId,
    Seq<char>,
>
    decreases n.len(),
{
    if is_marked(n) {
        marked_names(back, id0, n.skip(1)).insert(marked_id(id0, n), n)
    } else {
        back
    }
}

/// The duals of a sequence of agents.
pub open spec fn duals(agents: Seq<AgentId>) -> Seq<AgentId> {
    Seq::new(agents.len(), |i: int| agents[i].dual())
}

/// Storing entries never takes a key out of a map.
pub proof fn lemma_put_all_keeps(
    entries: Seq<(Seq<char>, AgentId)>,
    more: Seq<(Seq<char>, AgentId)>,
    n: nat,
    k: Seq<char>,
)
    requires
        as_map(entries).contains_key(k),
    ensures
        as_map(put_all(entries, more, n)).contains_key(k),
    decreases n,
{
    if n == 0 || n > more.len() {
    } else {
        lemma_put_all_keeps(entries, more, (n - 1) as nat, k);
        crate::tables::lemma_put(
            put_all(entries, more, (n - 1) as nat),
            more[n - 1].0,
            more[n - 1].1,
        );
    }
}

/// A name that the outermost scope holds is resolved.
pub proof fn lemma_base_named(levels: Seq<LevelView>, n: Seq<char>)
    requires
        levels.len() > 0,
        as_map(levels[0].agents).contains_key(n),
    ensures
        find_agent(levels, n) is Some,
    decreases levels.len(),
{
    if levels.len() > 1 && !as_map(levels.last().agents).contains_key(n) {
        assert(levels.drop_last()[0] == levels[0]);
        lemma_base_named(levels.drop_last(), n);
    }
}

/// A map of names as a map of character sequences.
pub open spec fn name_views(m: Map<AgentId, String>) -> Map<AgentId, Seq<char>> {
    Map::new(|a: AgentId| m.contains_key(a), |a: AgentId| m[a]@)
}

/// Putting a name on record puts its characters on record.
pub proof fn lemma_name_views_insert(m: Map<AgentId, String>, a: AgentId, n: String)
    ensures
        name_views(m.insert(a, n)) == name_views(m).insert(a, n@),
{
    assert(name_views(m.insert(a, n)) =~= name_views(m).insert(a, n@));
}

/// The agents of the scopes, outermost scope first, each scope in the order
/// of declaration.
pub open spec fn declared(levels: Seq<LevelView>) -> Seq<AgentId>
    decreases levels.len(),
{
    if levels.len() == 0 {
        Seq::empty()
    } else {
        declared(levels.drop_last()) + vals_of(levels.last().agents)
    }
}

/// No agent stands twice among `agents`, and none of them is a dual.
pub open spec fn plain(agents: Seq<AgentId>) -> bool {
    &&& agents.no_duplicates()
    &&& forall|i: int| 0 <= i < agents.len() ==> !(#[trigger] agents[i]).1
}

/// The agents of the scopes with the innermost scope replaced.
pub proof fn lemma_declared_last(levels: Seq<LevelView>, level: LevelView)
    ensures
        declared(levels.drop_last().push(level)) == declared(levels.drop_last()) + vals_of(
            level.agents,
        ),
        levels.len() > 0 ==> declared(levels) == declared(levels.drop_last()) + vals_of(
            levels.last().agents,
        ),
{
    assert(levels.drop_last().push(level).drop_last() =~= levels.drop_last());
}

/// The front of a plain sequence is plain.
pub proof fn lemma_plain_front(s: Seq<AgentId>, t: Seq<AgentId>)
    requires
        plain(s + t),
    ensures
        plain(s),
{
    assert forall|i: int, j: int| 0 <= i < s.len() && 0 <= j < s.len() && i != j implies s[i]
        != s[j] by {
        assert((s + t)[i] == s[i]);
        assert((s + t)[j] == s[j]);
    }
    assert forall|i: int| 0 <= i < s.len() implies !(#[trigger] s[i]).1 by {
        assert((s + t)[i] == s[i]);
    }
}

/// A plain sequence stays plain with one more agent that is no dual and
/// has a larger base index than every agent of the sequence.
pub proof fn lemma_plain_push(s: Seq<AgentId>, a: AgentId)
    requires
        plain(s),
        !a.1,
        forall|i: int| 0 <= i < s.len() ==> (#[trigger] s[i]).0 < a.0,
    ensures
        plain(s.push(a)),
{
}

/// The agents of scopes whose agents have base indices below `bound` have
/// base indices below `bound`.
pub proof fn lemma_declared_bound(levels: Seq<LevelView>, bound: u64)
    requires
        forall|l: int, i: int|
            0 <= l < levels.len() && 0 <= i < levels[l].agents.len() ==> (
            #[trigger] levels[l].agents[i]).1.0 < bound,
    ensures
        forall|k: int| 0 <= k < declared(levels).len() ==> (#[trigger] declared(levels)[k]).0 < bound,
    decreases levels.len(),
{
    if levels.len() > 0 {
        let front = levels.drop_last();
        assert forall|l: int, i: int|
            0 <= l < front.len() && 0 <= i < front[l].agents.len() implies (
        #[trigger] front[l].agents[i]).1.0 < bound by {
            assert(front[l] == levels[l]);
        }
        lemma_declared_bound(front, bound);
        let here = vals_of(levels.last().agents);
        assert forall|k: int| 0 <= k < declared(levels).len() implies (
        #[trigger] declared(levels)[k]).0 < bound by {
            if k >= declared(front).len() {
                let i = k - declared(front).len();
                assert(declared(levels)[k] == here[i]);
                assert(here[i] == levels[levels.len() - 1].agents[i].1);
            } else {
                assert(declared(levels)[k] == declared(front)[k]);
            }
        }
    }
}

/// Each entry after entries were stored is an entry from before or one of
/// the entries stored, and where the values of both together are plain
/// behind the agents `before`, so are the values afterwards.
pub proof fn lemma_merged_plain(
    before: Seq<AgentId>,
    entries: Seq<(Seq<char>, AgentId)>,
    more: Seq<(Seq<char>, AgentId)>,
    n: nat,
)
    requires
        n <= more.len(),
        plain(before + vals_of(entries) + vals_of(more)),
    ensures
        plain(before + vals_of(put_all(entries, more, n))),
        forall|j: int|
            0 <= j < put_all(entries, more, n).len() ==> entries.contains(
                #[trigger] put_all(entries, more, n)[j],
            ) || more.take(n as int).contains(put_all(entries, more, n)[j]),
    decreases n,
{
    let all = before + vals_of(entries) + vals_of(more);
    let ve = vals_of(entries);
    let vm = vals_of(more);
    let cur = put_all(entries, more, n);
    assert forall|i: int| 0 <= i < before.len() implies all[i] == before[i] by {}
    assert forall|i: int| 0 <= i < ve.len() implies all[before.len() + i] == entries[i].1 by {}
    assert forall|i: int| 0 <= i < vm.len() implies all[before.len() + ve.len() + i]
        == more[i].1 by {}
    if n == 0 {
        assert(cur == entries);
        assert(before + vals_of(entries) =~= (before + vals_of(entries)));
        lemma_plain_front(before + vals_of(entries), vals_of(more));
        assert forall|j: int| 0 <= j < cur.len() implies entries.contains(#[trigger] cur[j]) by {}
    } else {
        let prev = put_all(entries, more, (n - 1) as nat);
        lemma_merged_plain(before, entries, more, (n - 1) as nat);
        let k = more[n - 1].0;
        let v = more[n - 1].1;
        assert(cur == put(prev, k, v));
        let keys = crate::tables::keys_of(prev);
        // the place of the entry that was stored
        let f = if keys.contains(k) {
            crate::tables::first_index(keys, k)
        } else {
            prev.len() as int
        };
        if keys.contains(k) {
            crate::tables::lemma_first_index(keys, k);
            assert(cur == prev.update(f, (k, v)));
        } else {
            assert(cur == prev.push((k, v)));
        }
        assert(0 <= f < cur.len() && cur[f] == (k, v));
        assert forall|j: int| 0 <= j < cur.len() && j != f implies j < prev.len() && #[trigger] cur[j]
            == prev[j] by {}
        assert(more.take(n as int)[n - 1] == more[n - 1]);
        assert(all[before.len() + ve.len() + (n - 1)] == v);
        // where each entry comes from
        assert forall|j: int| 0 <= j < cur.len() implies entries.contains(#[trigger] cur[j])
            || more.take(n as int).contains(cur[j]) by {
            if j != f {
                assert(cur[j] == prev[j]);
                if !entries.contains(prev[j]) {
                    let i = crate::tables::lemma_place(more, n - 1, prev[j]);
                    assert(more.take(n as int)[i] == prev[j]);
                }
            }
        }
        // the value of each entry from before is another than the new one
        assert forall|j: int| 0 <= j < prev.len() implies (#[trigger] prev[j]).1 != v by {
            if entries.contains(prev[j]) {
                let i = choose|i: int| 0 <= i < entries.len() && entries[i] == prev[j];
                assert(all[before.len() + i] == prev[j].1);
            } else {
                let i = crate::tables::lemma_place(more, n - 1, prev[j]);
                assert(all[before.len() + ve.len() + i] == prev[j].1);
            }
        }
        let old_vals = before + vals_of(prev);
        let new_vals = before + vals_of(cur);
        let m = before.len() as int;
        assert forall|i: int| 0 <= i < m implies new_vals[i] == before[i] && old_vals[i]
            == before[i] && all[i] == before[i] by {}
        assert forall|i: int| m <= i < new_vals.len() implies new_vals[i] == cur[i - m].1 by {}
        assert forall|i: int| m <= i < old_vals.len() implies old_vals[i] == prev[i - m].1 by {}
        assert forall|i: int| 0 <= i < new_vals.len() implies !(#[trigger] new_vals[i]).1 by {
            if i < m {
                assert(!old_vals[i].1);
            } else if i - m == f {
                assert(!all[before.len() + ve.len() + (n - 1)].1);
            } else {
                assert(cur[i - m] == prev[i - m]);
                assert(!old_vals[i].1);
            }
        }
        assert forall|i: int, j: int|
            0 <= i < new_vals.len() && 0 <= j < new_vals.len() && i != j implies new_vals[i]
            != new_vals[j] by {
            if i < m && j < m {
                assert(old_vals[i] != old_vals[j]);
            } else if i < m {
                if j - m == f {
                    assert(all[i] != all[before.len() + ve.len() + (n - 1)]);
                } else {
                    assert(cur[j - m] == prev[j - m]);
                    assert(old_vals[i] != old_vals[j]);
                }
            } else if j < m {
                if i - m == f {
                    assert(all[j] != all[before.len() + ve.len() + (n - 1)]);
                } else {
                    assert(cur[i - m] == prev[i - m]);
                    assert(old_vals[i] != old_vals[j]);
                }
            } else if i - m == f {
                assert(cur[j - m] == prev[j - m]);
            } else if j - m == f {
                assert(cur[i - m] == prev[i - m]);
            } else {
                assert(cur[i - m] == prev[i - m]);
                assert(cur[j - m] == prev[j - m]);
                assert(old_vals[i] != old_vals[j]);
            }
        }
    }
}

/// The agents of a plain sequence and their duals: no agent stands twice.
pub proof fn lemma_with_duals(agents: Seq<AgentId>)
    requires
        plain(agents),
    ensures
        (agents + duals(agents)).no_duplicates(),
{
    let all = agents + duals(agents);
    assert forall|i: int, j: int| 0 <= i < all.len() && 0 <= j < all.len() && i != j implies all[i]
        != all[j] by {
        let n = agents.len() as int;
        if i < n && j < n {
        } else if i < n {
            assert(all[j] == agents[j - n].dual());
        } else if j < n {
            assert(all[i] == agents[i - n].dual());
        } else {
            assert(all[i] == agents[i - n].dual());
            assert(all[j] == agents[j - n].dual());
            assert(agents[i - n] != agents[j - n]);
        }
    }
}

/// An agent found in the scopes is among their agents.
pub proof fn lemma_found_is_declared(levels: Seq<LevelView>, n: Seq<char>)
    requires
        find_agent(levels, n) is Some,
    ensures
        declared(levels).contains(find_agent(levels, n)->Some_0),
    decreases levels.len(),
{
    let front = declared(levels.drop_last());
    let here = levels.last().agents;
    if as_map(here).contains_key(n) {
        let keys = crate::tables::keys_of(here);
        crate::tables::lemma_first_index(keys, n);
        let i = crate::tables::first_index(keys, n);
        assert(declared(levels)[front.len() + i] == vals_of(here)[i]);
    } else {
        lemma_found_is_declared(levels.drop_last(), n);
        let a = find_agent(levels, n)->Some_0;
        let k = choose|k: int| 0 <= k < front.len() && front[k] == a;
        assert(declared(levels)[k] == a);
    }
}

/// In scopes whose agents are plain, two names name two agents.
pub proof fn lemma_names_apart(levels: Seq<LevelView>, n1: Seq<char>, n2: Seq<char>)
    requires
        plain(declared(levels)),
        find_agent(levels, n1) is Some,
        find_agent(levels, n2) is Some,
        n1 != n2,
    ensures
        find_agent(levels, n1)->Some_0 != find_agent(levels, n2)->Some_0,
    decreases levels.len(),
{
    let front = declared(levels.drop_last());
    let here = levels.last().agents;
    let keys = crate::tables::keys_of(here);
    let all = declared(levels);
    lemma_plain_front(front, vals_of(here));
    let in1 = as_map(here).contains_key(n1);
    let in2 = as_map(here).contains_key(n2);
    if in1 && in2 {
        crate::tables::lemma_first_index(keys, n1);
        crate::tables::lemma_first_index(keys, n2);
        let i1 = crate::tables::first_index(keys, n1);
        let i2 = crate::tables::first_index(keys, n2);
        assert(all[front.len() + i1] == vals_of(here)[i1]);
        assert(all[front.len() + i2] == vals_of(here)[i2]);
    } else if in1 {
        crate::tables::lemma_first_index(keys, n1);
        let i1 = crate::tables::first_index(keys, n1);
        assert(all[front.len() + i1] == vals_of(here)[i1]);
        lemma_found_is_declared(levels.drop_last(), n2);
        let k = choose|k: int| 0 <= k < front.len() && front[k] == find_agent(levels, n2)->Some_0;
        assert(all[k] == front[k]);
    } else if in2 {
        crate::tables::lemma_first_index(keys, n2);
        let i2 = crate::tables::first_index(keys, n2);
        assert(all[front.len() + i2] == vals_of(here)[i2]);
        lemma_found_is_declared(levels.drop_last(), n1);
        let k = choose|k: int| 0 <= k < front.len() && front[k] == find_agent(levels, n1)->Some_0;
        assert(all[k] == front[k]);
    } else {
        lemma_names_apart(levels.drop_last(), n1, n2);
    }
}

/// Duality markers leave the base index of an agent as it is.
pub proof fn lemma_marked_base(id0: AgentId, n: Seq<char>)
    ensures
        marked_id(id0, n).0 == id0.0,
    decreases n.len(),
{
    if is_marked(n) {
        lemma_marked_base(id0, n.skip(1));
    }
}

/// An agent found in the scopes is found in one of them.
pub proof fn lemma_find_agent_at(levels: Seq<LevelView>, n: Seq<char>)
    requires
        find_agent(levels, n) is Some,
    ensures
        exists|l: int|
            0 <= l < levels.len() && as_map(levels[l].agents).contains_key(n) && find_agent(
                levels,
                n,
            ) == Some(as_map(levels[l].agents)[n]),
    decreases levels.len(),
{
    if as_map(levels.last().agents).contains_key(n) {
        let l = levels.len() - 1;
        assert(0 <= l < levels.len() && as_map(levels[l].agents).contains_key(n));
    } else {
        lemma_find_agent_at(levels.drop_last(), n);
        let l = choose|l: int|
            0 <= l < levels.drop_last().len() && as_map(levels.drop_last()[l].agents).contains_key(
                n,
            ) && find_agent(levels.drop_last(), n) == Some(
                as_map(levels.drop_last()[l].agents)[n],
            );
        assert(levels[l] == levels.drop_last()[l]);
    }
}

/// An agent found in the scopes of a well-formed builder has a base index
/// that was given out.
pub proof fn lemma_found_agent_bound(b: ProgramBuilder, n: Seq<char>)
    requires
        b.wf(),
        b.agent_named(n) is Some,
    ensures
        b.agent_named(n)->Some_0.0 < b.next_agent_id,
{
    lemma_find_agent_at(b@.levels, n);
    let l = choose|l: int|
        0 <= l < b@.levels.len() && as_map(b@.levels[l].agents).contains_key(n) && find_agent(
            b@.levels,
            n,
        ) == Some(as_map(b@.levels[l].agents)[n]);
    let m = b.levels@[l].agent_scope;
    assert(b@.levels[l].agents == m@);
    crate::tables::lemma_first_index(m.keys(), n);
    let i = crate::tables::first_index(m.keys(), n);
    assert(m.map()[n] == m.entries@[i].1);
}

impl<'i> ProgramBuilder<'i> {
    /// What every builder made by [`ProgramBuilder::new`] and changed by its
    /// methods satisfies: dual agents have one arity, every agent on record
    /// has a base index that was given out, no table holds a key twice, and
    /// no two names of the scopes name one agent, nor any of them a dual.
    pub open spec fn wf(self) -> bool {
        &&& forall|a: AgentId| #[trigger]
            self.arities.map().contains_key(a) ==> self.arities.map().contains_key(a.dual())
                && self.arities.map()[a.dual()] == self.arities.map()[a]
        &&& forall|i: int|
            0 <= i < self.agent_scope_back.entries@.len() ==> (
            #[trigger] self.agent_scope_back.entries@[i]).0.0 < self.next_agent_id
        &&& forall|l: int, i: int|
            0 <= l < self.levels@.len() && 0 <= i < self.levels@[l].agent_scope.entries@.len()
                ==> (#[trigger] self.levels@[l].agent_scope.entries@[i]).1.0 < self.next_agent_id
        &&& 2 * self.next_agent_id <= self.agent_scope_back.entries@.len()
        &&& self.arities.wf()
        &&& self.agent_scope_back.wf()
        &&& forall|l: int|
            0 <= l < self.levels@.len() ==> (#[trigger] self.levels@[l]).agent_scope.wf()
        &&& plain(declared(self@.levels))
    }

    /// The name on record for each agent.
    pub open spec fn names(self) -> Map<AgentId, Seq<char>> {
        name_views(self.agent_scope_back.map())
    }

    /// The agent that `n` names in the scopes as they stand.
    pub open spec fn agent_named(self, n: Seq<char>) -> Option<AgentId> {
        find_agent(self@.levels, n)
    }

    /// The variable that `n` names in the scopes as they stand.
    pub open spec fn var_named(self, n: Seq<char>) -> Option<VarId> {
        find_var(self@.levels, n)
    }

    /// Every name that the outermost scope of `before` holds is held by the
    /// outermost scope of `self`.
    pub open spec fn base_kept(self, before: Self) -> bool {
        before.levels@.len() > 0 ==> self.levels@.len() > 0 && forall|n: Seq<char>| #[trigger]
            as_map(before@.levels[0].agents).contains_key(n) ==> as_map(
                self@.levels[0].agents,
            ).contains_key(n)
    }

    /// The program text and the position in it are as in `other`.
    pub open spec fn same_source(self, other: Self) -> bool {
        &&& self.input == other.input
        &&& self.text == other.text
        &&& self.index == other.index
    }

    /// Everything but the scopes and the names on record is as in `other`.
    pub open spec fn same_program(self, other: Self) -> bool {
        &&& self.same_source(other)
        &&& self.def == other.def
        &&& self.arities == other.arities
        &&& self.interaction_system == other.interaction_system
        &&& self.output == other.output
    }

    /// A builder for the program text `input`, with one empty scope.
    pub fn new(input: &'i str) -> (b: Self)
        ensures
            b@ == (BuilderView {
                text: input@,
                index: 0,
                levels: seq![empty_level()],
                defs: Seq::empty(),
                names: Map::empty(),
                arities: Map::empty(),
                next: 0,
                system: None,
                output: Seq::empty(),
            }),
            b.wf(),
            b.input == input,
            b.text@ == input@,
            b.index == 0,
            b.levels@.len() == 1,
            b.levels@[0].agent_scope.entries@.len() == 0,
            b.levels@[0].vars.var_scope.entries@.len() == 0,
            b.levels@[0].vars.net@ == Net::empty_view(),
            b.def@.len() == 0,
            b.agent_scope_back.entries@.len() == 0,
            b.arities.entries@.len() == 0,
            b.next_agent_id == 0,
            b.interaction_system is None,
            b.output@.len() == 0,
    {
        let mut text: Vec<char> = Vec::new();
        for c in it: input.chars()
            invariant
                it.seq() == spec_iter(input).remaining(),
                text@.len() == it.index(),
                forall|i: int| 0 <= i < text@.len() ==> text@[i] == it.seq()[i],
        {
            text.push(c);
        }
        assert(text@ =~= input@);
        let mut b = ProgramBuilder {
            input,
            text,
            index: 0,
            levels: Vec::new(),
            def: Vec::new(),
            agent_scope_back: AgentMap::new(),
            arities: AgentMap::new(),
            next_agent_id: 0,
            interaction_system: None,
            output: Vec::new(),
        };
        b.enter();
        proof {
            assert(b@.levels =~= seq![empty_level()]);
            assert(b@.defs =~= Seq::empty());
            assert(b@.output =~= Seq::empty());
            assert(b@.names =~= Map::empty());
        }
        b
    }

    /// Enters a nested scope: an empty level becomes the innermost one.
    pub fn enter(&mut self)
        ensures
            final(self)@ == (BuilderView {
                levels: old(self)@.levels.push(empty_level()),
                ..old(self)@
            }),
            final(self).levels@.len() == old(self).levels@.len() + 1,
            final(self).levels@.drop_last() == old(self).levels@,
            final(self).levels@.last().agent_scope.entries@.len() == 0,
            final(self).levels@.last().vars.var_scope.entries@.len() == 0,
            final(self).levels@.last().vars.net@ == Net::empty_view(),
            final(self).same_program(*old(self)),
            final(self).agent_scope_back == old(self).agent_scope_back,
            final(self).next_agent_id == old(self).next_agent_id,
            old(self).wf() ==> final(self).wf(),
            final(self).base_kept(*old(self)),
            forall|n: Seq<char>| final(self).agent_named(n) == old(self).agent_named(n),
            forall|n: Seq<char>| final(self).var_named(n) == old(self).var_named(n),
    {
        let level = Level {
            agent_scope: NameMap::new(),
            vars: Vars { net: Net::new(), var_scope: NameMap::new() },
        };
        self.levels.push(level);
        proof {
            assert(self.levels@.drop_last() =~= old(self).levels@);
            assert(self.levels@.last().vars.net@ =~= Net::empty_view());
            assert(self.levels@.last()@ == empty_level());
            assert(self@.levels =~= old(self)@.levels.push(empty_level()));
            assert(self@.levels.drop_last() =~= old(self)@.levels);
            assert(as_map(empty_level().agents) =~= Map::<Seq<char>, AgentId>::empty());
            assert(as_map(empty_level().vars) =~= Map::<Seq<char>, VarId>::empty());
        }
    }

    /// Leaves the innermost scope and hands it out.
    pub fn exit(&mut self) -> (level: Option<Level>)
        ensures
            match level {
                Some(l) => old(self).levels@.len() > 0 && l == old(self).levels@.last()
                    && final(self).levels@ == old(self).levels@.drop_last() && final(self)@ == (
                BuilderView { levels: old(self)@.levels.drop_last(), ..old(self)@ }),
                None => old(self).levels@.len() == 0 && final(self).levels@ == old(self).levels@
                    && final(self)@ == old(self)@,
            },
            old(self).levels@.len() > 1 ==> final(self).base_kept(*old(self)),
            final(self).same_program(*old(self)),
            final(self).agent_scope_back == old(self).agent_scope_back,
            final(self).next_agent_id == old(self).next_agent_id,
            old(self).wf() ==> final(self).wf(),
    {
        let level = self.levels.pop();
        proof {
            if old(self).levels@.len() > 0 {
                assert(self.levels@ =~= old(self).levels@.drop_last());
                assert(self@.levels =~= old(self)@.levels.drop_last());
                if old(self).wf() {
                    lemma_declared_last(old(self)@.levels, old(self)@.levels.last());
                    lemma_plain_front(
                        declared(old(self)@.levels.drop_last()),
                        vals_of(old(self)@.levels.last().agents),
                    );
                }
            } else {
                assert(self@.levels =~= old(self)@.levels);
            }
        }
        level
    }

    /// The dual of an agent.
    pub fn agent_inverse(&self, a: AgentId) -> (d: AgentId)
        ensures
            d == a.dual(),
    {
        a.inverse()
    }

    /// Gives out the next base index.
    pub fn new_agent_id(&mut self) -> (a: AgentId)
        requires
            old(self).next_agent_id < u64::MAX,
        ensures
            a == AgentId(old(self).next_agent_id, false),
            final(self)@ == (BuilderView { next: old(self)@.next + 1, ..old(self)@ }),
            final(self).next_agent_id == old(self).next_agent_id + 1,
            final(self).same_program(*old(self)),
            final(self).levels == old(self).levels,
            final(self).agent_scope_back == old(self).agent_scope_back,
    {
        let a = AgentId(self.next_agent_id, false);
        self.next_agent_id += 1;
        a
    }

    /// Records that `a` and its dual have `arity` ports.
    pub fn set_arity(&mut self, a: AgentId, arity: u64)
        ensures
            final(self)@ == with_arity(old(self)@, a, arity),
            final(self).arities.map() == old(self).arities.map().insert(a, arity).insert(
                a.dual(),
                arity,
            ),
            old(self).wf() ==> final(self).wf(),
            final(self).base_kept(*old(self)),
            final(self).same_source(*old(self)),
            final(self).def == old(self).def,
            final(self).levels == old(self).levels,
            final(self).agent_scope_back == old(self).agent_scope_back,
            final(self).next_agent_id == old(self).next_agent_id,
            final(self).interaction_system == old(self).interaction_system,
            final(self).output == old(self).output,
    {
        self.arities.insert(a, arity);
        let inv = self.agent_inverse(a);
        self.arities.insert(inv, arity);
        proof {
            assert(a.dual().dual() == a);
            if old(self).wf() {
                assert forall|x: AgentId| #[trigger]
                    self.arities.map().contains_key(x) implies self.arities.map().contains_key(
                    x.dual(),
                ) && self.arities.map()[x.dual()] == self.arities.map()[x] by {
                    assert(x.dual().dual() == x);
                    if x != a && x != a.dual() {
                        assert(old(self).arities.map().contains_key(x));
                    }
                }
            }
        }
    }

    /// The agent that `n` names; a base name that no scope holds is declared
    /// in the innermost scope under a new base index. Each duality marker in
    /// front of the base name flips the polarity.
    pub fn get_or_new_agent_id(&mut self, n: String) -> (id: AgentId)
        requires
            old(self).wf(),
            old(self).levels@.len() > 0,
        ensures
            (id, final(self)@) == declared_agent(old(self)@, n@),
            final(self).wf(),
            final(self).same_program(*old(self)),
            final(self).levels@.len() == old(self).levels@.len(),
            id.0 < final(self).next_agent_id,
            final(self).base_kept(*old(self)),
            final(self).agent_named(base_name(n@)) is Some,
            id == marked_id(final(self).agent_named(base_name(n@))->Some_0, n@),
            old(self).agent_named(base_name(n@)) is Some ==> final(self).levels == old(self).levels
                && final(self).next_agent_id == old(self).next_agent_id,
            forall|m: Seq<char>| #[trigger]
                old(self).agent_named(m) is Some ==> final(self).agent_named(m) == old(
                    self,
                ).agent_named(m),
        decreases n@.len(),
    {
        let len = n.as_str().unicode_len();
        if len > 1 && n.as_str().get_char(0) == '~' {
            let s = String::from_str(n.as_str().substring_char(1, len));
            assert(s@ =~= n@.skip(1));
            let id0 = self.get_or_new_agent_id(s);
            let id = id0.inverse();
            let ghost mid = self@;
            proof {
                lemma_name_views_insert(self.agent_scope_back.map(), id, n);
            }
            self.agent_scope_back.insert(id, n);
            proof {
                assert(self@ == (BuilderView { names: mid.names.insert(id, n@), ..mid }));
                assert(base_name(n@) == base_name(n@.skip(1)));
            }
            id
        } else {
            match self.get_agent_id(n.as_str()) {
                Some(id) => {
                    proof {
                        lemma_found_agent_bound(*self, n@);
                        assert(self@ == (BuilderView {
                            names: marked_names(self@.names, id, n@),
                            ..self@
                        }));
                    }
                    id
                },
                None => {
                    let count = self.agent_scope_back.entries.len();
                    let id = self.new_agent_id();
                    let ghost mid = *self;
                    let mut level = self.levels.pop().unwrap();
                    proof {
                        assert(old(self)@.levels.last() == old(self).levels@.last()@);
                        assert(!level.agent_scope.keys().contains(n@));
                    }
                    level.agent_scope.insert(n.clone(), id);
                    self.levels.push(level);
                    let name = n.clone();
                    proof {
                        lemma_name_views_insert(self.agent_scope_back.map(), id, name);
                        reveal_strlit("~");
                    }
                    self.agent_scope_back.insert(id, name);
                    let dual_name = String::from_str("~").concat(n.as_str());
                    proof {
                        lemma_name_views_insert(self.agent_scope_back.map(), id.dual(), dual_name);
                    }
                    self.agent_scope_back.insert(id.inverse(), dual_name);
                    proof {
                        assert(self.levels@.drop_last() =~= old(self).levels@.drop_last());
                        assert(dual_name@ =~= seq!['~'] + n@);
                        let last = old(self)@.levels.last();
                        let level = LevelView { agents: put(last.agents, n@, id), ..last };
                        assert(old(self).levels@.last()@ == last);
                        assert(self.levels@.last()@ == level);
                        crate::tables::lemma_put(last.agents, n@, id);
                        assert(self@.levels.drop_last() =~= old(self)@.levels.drop_last());
                        assert(self@.levels =~= old(self)@.levels.drop_last().push(level)) by {
                            assert forall|i: int| 0 <= i < self@.levels.len() - 1 implies self@.levels[i]
                                == old(self)@.levels[i] by {
                                assert(self.levels@[i] == self.levels@.drop_last()[i]);
                                assert(old(self).levels@[i] == old(self).levels@.drop_last()[i]);
                            }
                        }
                        // the new agent is another than every agent of the scopes
                        assert(!crate::tables::keys_of(last.agents).contains(n@));
                        assert(level.agents == last.agents.push((n@, id)));
                        assert(vals_of(level.agents) =~= vals_of(last.agents).push(id));
                        lemma_declared_last(old(self)@.levels, level);
                        assert(declared(self@.levels) =~= declared(old(self)@.levels).push(id));
                        assert forall|l: int, i: int|
                            0 <= l < old(self)@.levels.len() && 0 <= i < old(
                                self,
                            )@.levels[l].agents.len() implies (#[trigger] old(
                            self,
                        )@.levels[l].agents[i]).1.0 < old(self).next_agent_id by {
                            assert(old(self)@.levels[l].agents[i].1 == old(
                                self,
                            ).levels@[l].agent_scope.entries@[i].1);
                        }
                        lemma_declared_bound(old(self)@.levels, old(self).next_agent_id);
                        lemma_plain_push(declared(old(self)@.levels), id);
                    }
                    id
                },
            }
        }
    }

    /// The variable that `n` names; a name that no scope holds gets a new
    /// variable of the innermost scope's net.
    pub fn get_or_new_var_id(&mut self, n: String) -> (id: VarId)
        requires
            old(self).levels@.len() > 0,
        ensures
            (id, final(self)@) == declared_var(old(self)@, n@),
            final(self).same_program(*old(self)),
            final(self).agent_scope_back == old(self).agent_scope_back,
            final(self).next_agent_id == old(self).next_agent_id,
            final(self).levels@.len() == old(self).levels@.len(),
            old(self).wf() ==> final(self).wf(),
            final(self).base_kept(*old(self)),
    {
        match self.get_var_id(n.as_str()) {
            Some(id) => id,
            None => {
                let mut level = self.levels.pop().unwrap();
                let id = level.vars.net.new_var();
                level.vars.var_scope.insert(n, id);
                self.levels.push(level);
                proof {
                    assert(self.levels@.drop_last() =~= old(self).levels@.drop_last());
                    let last = old(self)@.levels.last();
                    let next = LevelView {
                        vars: put(last.vars, n@, id),
                        net: NetView { vars: last.net.vars.insert(id.0, None), ..last.net },
                        ..last
                    };
                    assert(old(self).levels@.last()@ == last);
                    assert(self.levels@.last()@ == next);
                    assert(self@.levels =~= old(self)@.levels.drop_last().push(next)) by {
                        assert forall|i: int| 0 <= i < self@.levels.len() - 1 implies self@.levels[i]
                            == old(self)@.levels[i] by {
                            assert(self.levels@[i] == self.levels@.drop_last()[i]);
                            assert(old(self).levels@[i] == old(self).levels@.drop_last()[i]);
                        }
                    }
                    assert(old(self).wf() ==> self.wf()) by {
                        if old(self).wf() {
                            lemma_declared_last(old(self)@.levels, next);
                            assert(declared(self@.levels) == declared(old(self)@.levels));
                            assert forall|l: int| 0 <= l < self.levels@.len() implies (
                            #[trigger] self.levels@[l]).agent_scope.wf() by {
                                assert(self.levels@[l].agent_scope == old(
                                    self,
                                ).levels@[l].agent_scope);
                            }
                            assert forall|l: int, i: int|
                                0 <= l < self.levels@.len() && 0 <= i
                                    < self.levels@[l].agent_scope.entries@.len() implies (
                            #[trigger] self.levels@[l].agent_scope.entries@[i]).1.0
                                < self.next_agent_id by {
                                assert(self.levels@[l].agent_scope == old(
                                    self,
                                ).levels@[l].agent_scope);
                            }
                        }
                    }
                }
                id
            },
        }
    }

    /// The name under which an agent is shown: the name of its base index,
    /// after a duality marker where the polarity is flipped.
    pub open spec fn shown(self, a: AgentId) -> Seq<char> {
        if a.1 {
            seq!['~'] + self.names()[AgentId(a.0, false)]
        } else {
            self.names()[a]
        }
    }

    /// The name under which the agent `a` is shown.
    pub fn show_agent(&self, a: AgentId) -> (name: String)
        requires
            self.names().contains_key(AgentId(a.0, false)),
        ensures
            name@ == self.shown(a),
    {
        let base = self.agent_scope_back.get(AgentId(a.0, false)).unwrap();
        if a.1 {
            proof {
                reveal_strlit("~");
            }
            let name = String::from_str("~").concat(base.as_str());
            assert(name@ =~= seq!['~'] + base@);
            name
        } else {
            base.clone()
        }
    }

    /// Every declared agent, then the dual of every declared agent: the
    /// declared agents scope by scope from the outermost, and within a scope
    /// in the order in which its names were declared. In a well-formed
    /// builder no agent stands twice in the list.
    pub fn agent_list(&self) -> (agents: Vec<AgentId>)
        ensures
            agents@ == declared(self@.levels) + duals(declared(self@.levels)),
            self.wf() ==> agents@.no_duplicates(),
    {
        proof {
            if self.wf() {
                lemma_with_duals(declared(self@.levels));
            }
        }
        let mut agents: Vec<AgentId> = Vec::new();
        let mut l: usize = 0;
        while l < self.levels.len()
            invariant
                l <= self.levels@.len(),
                agents@ == declared(self@.levels.take(l as int)),
            decreases self.levels@.len() - l,
        {
            let scope = &self.levels[l].agent_scope;
            let ghost before = agents@;
            let mut i: usize = 0;
            while i < scope.entries.len()
                invariant
                    i <= scope.entries@.len(),
                    agents@ == before + scope.vals().take(i as int),
                decreases scope.entries@.len() - i,
            {
                agents.push(scope.entries[i].1);
                assert(agents@ =~= before + scope.vals().take(i + 1));
                i += 1;
            }
            proof {
                assert(scope.vals().take(i as int) =~= scope.vals());
                assert(self@.levels.take(l + 1).drop_last() =~= self@.levels.take(l as int));
                assert(self@.levels.take(l + 1).last() == self.levels@[l as int]@);
            }
            l += 1;
        }
        assert(self@.levels.take(l as int) =~= self@.levels);
        let count = agents.len();
        let ghost firsts = agents@;
        let mut i: usize = 0;
        while i < count
            invariant
                i <= count,
                count == firsts.len(),
                agents@ == firsts + duals(firsts.take(i as int)),
            decreases count - i,
        {
            let d = self.agent_inverse(agents[i]);
            agents.push(d);
            assert(agents@ =~= firsts + duals(firsts.take(i + 1)));
            i += 1;
        }
        assert(firsts.take(count as int) =~= firsts);
        agents
    }

    /// Merges the agents of a scope that was left into the innermost scope:
    /// each of its names, in order, now names its agent there. The builder
    /// stays well formed where the agents of the scope were given out and
    /// are, together with the agents of the scopes, plain.
    pub fn merge_agents(&mut self, scope: &NameMap<AgentId>)
        requires
            old(self).levels@.len() > 0,
        ensures
            final(self).same_program(*old(self)),
            final(self).agent_scope_back == old(self).agent_scope_back,
            final(self).next_agent_id == old(self).next_agent_id,
            final(self).levels@.len() == old(self).levels@.len(),
            final(self).levels@.drop_last() == old(self).levels@.drop_last(),
            final(self).levels@.last().vars == old(self).levels@.last().vars,
            final(self)@ == with_last(
                old(self)@,
                LevelView {
                    agents: put_all(old(self)@.levels.last().agents, scope@, scope@.len()),
                    ..old(self)@.levels.last()
                },
            ),
            final(self).base_kept(*old(self)),
            (old(self).wf() && plain(declared(old(self)@.levels) + vals_of(scope@)) && forall|
                i: int,
            |
                0 <= i < scope.entries@.len() ==> (#[trigger] scope.entries@[i]).1.0 < old(
                    self,
                ).next_agent_id) ==> final(self).wf(),
    {
        let ghost next = self.next_agent_id;
        let ghost ok = old(self).wf() && plain(declared(old(self)@.levels) + vals_of(scope@))
            && forall|i: int|
            0 <= i < scope.entries@.len() ==> (#[trigger] scope.entries@[i]).1.0 < next;
        let mut level = self.levels.pop().unwrap();
        let ghost level0 = level;
        let mut i: usize = 0;
        while i < scope.entries.len()
            invariant
                i <= scope.entries@.len(),
                level.vars == level0.vars,
                level.agent_scope@ == put_all(level0.agent_scope@, scope@, i as nat),
                level0.agent_scope.wf() ==> level.agent_scope.wf(),
                ok ==> forall|j: int|
                    0 <= j < level.agent_scope.entries@.len() ==> (
                    #[trigger] level.agent_scope.entries@[j]).1.0 < next,
                ok ==> forall|j: int|
                    0 <= j < scope.entries@.len() ==> (#[trigger] scope.entries@[j]).1.0 < next,
            decreases scope.entries@.len() - i,
        {
            let name = scope.entries[i].0.clone();
            let id = scope.entries[i].1;
            let ghost prev = level.agent_scope.entries@;
            level.agent_scope.insert(name, id);
            proof {
                if ok {
                    assert forall|j: int|
                        0 <= j < level.agent_scope.entries@.len() implies (
                    #[trigger] level.agent_scope.entries@[j]).1.0 < next by {
                        if level.agent_scope.entries@[j] == (name, id) {
                            assert(scope.entries@[i as int].1.0 < next);
                        } else {
                            assert(level.agent_scope.entries@[j] == prev[j]);
                        }
                    }
                }
            }
            i += 1;
        }
        self.levels.push(level);
        proof {
            assert(self.levels@.drop_last() =~= old(self).levels@.drop_last());
            let last = old(self)@.levels.last();
            let next_level = LevelView {
                agents: put_all(last.agents, scope@, scope@.len()),
                ..last
            };
            assert(old(self).levels@.last()@ == last);
            assert(self.levels@.last()@ == next_level);
            assert(self@.levels =~= old(self)@.levels.drop_last().push(next_level)) by {
                assert forall|i: int| 0 <= i < self@.levels.len() - 1 implies self@.levels[i] == old(
                    self,
                )@.levels[i] by {
                    assert(self.levels@[i] == self.levels@.drop_last()[i]);
                    assert(old(self).levels@[i] == old(self).levels@.drop_last()[i]);
                }
            }
            assert forall|n: Seq<char>| #[trigger]
                as_map(old(self)@.levels[0].agents).contains_key(n) implies as_map(
                self@.levels[0].agents,
            ).contains_key(n) by {
                if self.levels@.len() > 1 {
                    assert(self.levels@[0] == self.levels@.drop_last()[0]);
                    assert(old(self).levels@[0] == old(self).levels@.drop_last()[0]);
                } else {
                    lemma_put_all_keeps(last.agents, scope@, scope@.len(), n);
                }
            }
            if ok {
                lemma_declared_last(old(self)@.levels, next_level);
                lemma_merged_plain(
                    declared(old(self)@.levels.drop_last()),
                    last.agents,
                    scope@,
                    scope@.len(),
                );
                assert(old(self).levels@[old(self).levels@.len() - 1].agent_scope.wf());
                assert forall|l: int| 0 <= l < self.levels@.len() implies (
                #[trigger] self.levels@[l]).agent_scope.wf() by {
                    if l < self.levels@.len() - 1 {
                        assert(self.levels@[l] == old(self).levels@[l]);
                    } else {
                        assert(self.levels@[l] == level);
                        assert(level0 == old(self).levels@[l]);
                    }
                }
                assert forall|l: int, i: int|
                    0 <= l < self.levels@.len() && 0 <= i
                        < self.levels@[l].agent_scope.entries@.len() implies (
                #[trigger] self.levels@[l].agent_scope.entries@[i]).1.0
                    < self.next_agent_id by {
                    if l < self.levels@.len() - 1 {
                        assert(self.levels@[l] == old(self).levels@[l]);
                    } else {
                        assert(self.levels@[l] == level);
                        assert(level0 == old(self).levels@[l]);
                    }
                }
            }
        }
    }

    /// The agent that `n` names, looked up from the innermost scope outwards.
    pub fn get_agent_id(&self, n: &str) -> (r: Option<AgentId>)
        ensures
            r == self.agent_named(n@),
    {
        let key = String::from_str(n);
        let mut l: usize = self.levels.len();
        assert(self@.levels.take(l as int) =~= self@.levels);
        while l > 0
            invariant
                l <= self.levels@.len(),
                key@ == n@,
                find_agent(self@.levels, n@) == find_agent(self@.levels.take(l as int), n@),
            decreases l,
        {
            l -= 1;
            assert(self@.levels.take(l + 1).drop_last() =~= self@.levels.take(l as int));
            assert(self@.levels.take(l + 1).last() == self.levels@[l as int]@);
            match self.levels[l].agent_scope.get(&key) {
                Some(id) => {
                    return Some(*id);
                },
                None => {},
            }
        }
        None
    }

    /// The variable that `n` names, looked up from the innermost scope
    /// outwards.
    pub fn get_var_id(&self, n: &str) -> (r: Option<VarId>)
        ensures
            r == self.var_named(n@),
    {
        let key = String::from_str(n);
        let mut l: usize = self.levels.len();
        assert(self@.levels.take(l as int) =~= self@.levels);
        while l > 0
            invariant
                l <= self.levels@.len(),
                key@ == n@,
                find_var(self@.levels, n@) == find_var(self@.levels.take(l as int), n@),
            decreases l,
        {
            l -= 1;
            assert(self@.levels.take(l + 1).drop_last() =~= self@.levels.take(l as int));
            assert(self@.levels.take(l + 1).last() == self.levels@[l as int]@);
            match self.levels[l].vars.var_scope.get(&key) {
                Some(id) => {
                    return Some(*id);
                },
                None => {},
            }
        }
        None
    }
}

} // verus!
