//! The surface syntax: trees over names.

use vstd::prelude::*;

verus! {

/// A term as written: an agent name applied to its ports, or a variable name.
#[derive(Debug)]
pub enum Tree {
    Agent(String, Vec<Tree>),
    Var(String),
}

/// The mathematical value of a written term.
pub ghost enum TermView {
    Agent(Seq<char>, Seq<TermView>),
    Var(Seq<char>),
}

/// The value of a written term.
pub open spec fn term_view(t: Tree) -> TermView
    decreases t, 0nat,
{
    match t {
        Tree::Agent(name, aux) => TermView::Agent(name@, prefix_term_views(aux, aux@.len())),
        Tree::Var(name) => TermView::Var(name@),
    }
}

/// The values of the first `n` terms of a vector.
pub open spec fn prefix_term_views(ts: Vec<Tree>, n: nat) -> Seq<TermView>
    decreases ts, n,
{
    if n == 0 || n > ts@.len() {
        Seq::empty()
    } else {
        prefix_term_views(ts, (n - 1) as nat).push(term_view(ts@[n - 1]))
    }
}

impl View for Tree {
    type V = TermView;

    open spec fn view(&self) -> TermView {
        term_view(*self)
    }
}

/// The values of a sequence of written terms.
pub open spec fn term_views(ts: Seq<Tree>) -> Seq<TermView> {
    Seq::new(ts.len(), |i: int| ts[i]@)
}

/// The values of a prefix, by position.
proof fn lemma_prefix_term_views(ts: Vec<Tree>, n: nat)
    requires
        n <= ts@.len(),
    ensures
        prefix_term_views(ts, n) == term_views(ts@.take(n as int)),
    decreases n,
{
    if n > 0 {
        lemma_prefix_term_views(ts, (n - 1) as nat);
    }
    assert(prefix_term_views(ts, n) =~= term_views(ts@.take(n as int)));
}

/// The value of a written agent term is the name over the values of its
/// ports.
pub proof fn lemma_agent_term_view(name: String, aux: Vec<Tree>)
    ensures
        Tree::Agent(name, aux)@ == TermView::Agent(name@, term_views(aux@)),
{
    lemma_prefix_term_views(aux, aux@.len());
    assert(aux@.take(aux@.len() as int) =~= aux@);
}

} // verus!
