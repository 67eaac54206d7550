//! What reading a program does to the builder, as functions on its value:
//! each takes the builder before, and gives the builder after and what was
//! read, or the message of the error that ended the reading. The text and
//! the position are part of the builder.

use crate::builder::{
    declared_agent, with_arity, with_last, BuilderView, DefinitionView, LevelView, empty_level,
};
use crate::compile::{lowered, lowered_ports, with_system};
use crate::lexer::{
    bracket_end, ctr_name_at, debug_form, error_offset, expected_message, is_macro_at, skip_blank,
    skip_spaces, token_at, var_name_at,
};
use crate::net::{reduced, subst_ports, NetView};
use crate::rules::SystemView;
use crate::show::shown_net;
use crate::syntax;
use crate::syntax::TermView;
use crate::tables::put_all;
use crate::term::{TreeView, VarId};
use vstd::prelude::*;

verus! {

/// The value of what a reading gave: the characters of a name or of a
/// message.
pub open spec fn name_result(r: Result<String, String>) -> Result<Seq<char>, Seq<char>> {
    match r {
        Ok(name) => Ok(name@),
        Err(e) => Err(e@),
    }
}

/// The value of what a reading gave: nothing, or the characters of a
/// message.
pub open spec fn unit_result(r: Result<(), String>) -> Result<(), Seq<char>> {
    match r {
        Ok(_) => Ok(()),
        Err(e) => Err(e@),
    }
}

/// The value of what a reading gave: a position, or the characters of a
/// message.
pub open spec fn position_result(r: Result<usize, String>) -> Result<nat, Seq<char>> {
    match r {
        Ok(i) => Ok(i as nat),
        Err(e) => Err(e@),
    }
}

/// The value of what a reading gave: a written term, or the characters of a
/// message.
pub open spec fn term_result(r: Result<syntax::Tree, String>) -> Result<TermView, Seq<char>> {
    match r {
        Ok(t) => Ok(t@),
        Err(e) => Err(e@),
    }
}

/// The builder at the position `i` of its text.
pub open spec fn at(bv: BuilderView, i: int) -> BuilderView {
    BuilderView { index: i as nat, ..bv }
}

/// The builder after the blanks at its position.
pub open spec fn spaced(bv: BuilderView) -> BuilderView {
    at(bv, skip_spaces(bv.text, bv.index as int))
}

/// The builder inside a new innermost scope.
pub open spec fn entered(bv: BuilderView) -> BuilderView {
    BuilderView { levels: bv.levels.push(empty_level()), ..bv }
}

/// The builder without its innermost scope.
pub open spec fn left(bv: BuilderView) -> BuilderView {
    BuilderView { levels: bv.levels.drop_last(), ..bv }
}

/// Whether `after` reads the same text as `before`, further on.
pub open spec fn further(before: BuilderView, after: BuilderView) -> bool {
    after.text == before.text && before.index < after.index <= before.text.len()
}

/// Whether `after` reads the same text as `before`, not before it.
pub open spec fn onward(before: BuilderView, after: BuilderView) -> bool {
    after.text == before.text && before.index <= after.index <= before.text.len()
}

/// Reading an agent name.
pub open spec fn read_ctr_name(bv: BuilderView) -> (BuilderView, Result<Seq<char>, Seq<char>>) {
    match ctr_name_at(bv.text, bv.index as int) {
        Some((name, end)) => (at(bv, end), Ok(name)),
        None => {
            let stop = skip_spaces(bv.text, bv.index as int);
            (
                at(bv, stop),
                Err(
                    if stop < bv.text.len() {
                        "Expected an agent name."@
                    } else {
                        "Expected a character for ctr_name."@
                    },
                ),
            )
        },
    }
}

/// The builder after something other than a variable name was met at its
/// position: the rest of the text, as the debugging format writes it, is put
/// out as a line.
pub open spec fn complained(bv: BuilderView) -> BuilderView {
    BuilderView {
        output: bv.output.push(
            debug_form(bv.text.subrange(bv.index as int, bv.text.len() as int)),
        ),
        ..bv
    }
}

/// Reading a variable name. Where something else stands at the position,
/// the rest of the text is put out before the error is returned.
pub open spec fn read_var_name(bv: BuilderView) -> (BuilderView, Result<Seq<char>, Seq<char>>) {
    match var_name_at(bv.text, bv.index as int) {
        Some((name, end)) => (at(bv, end), Ok(name)),
        None => {
            let stop = skip_spaces(bv.text, bv.index as int);
            if stop < bv.text.len() {
                (complained(at(bv, stop)), Err("Expected a variable name."@))
            } else {
                (at(bv, stop), Err("Expected a character for var_name."@))
            }
        },
    }
}

/// Reading the token `token` after blanks and comments.
pub open spec fn read_token(bv: BuilderView, token: Seq<char>) -> (
    BuilderView,
    Result<(), Seq<char>>,
) {
    match token_at(bv.text, bv.index as int, token) {
        Some(end) => (at(bv, end), Ok(())),
        None => {
            let stop = skip_blank(bv.text, bv.index as int);
            (at(bv, stop), Err(expected_message(bv.text, error_offset(bv.text, stop), token)))
        },
    }
}

/// The name of each variable of a scope by its number, after the first `n`
/// names: a later name for a number replaces an earlier one.
pub open spec fn var_names(vars: Seq<(Seq<char>, VarId)>, n: nat) -> Map<u64, Seq<char>>
    decreases n,
{
    if n == 0 || n > vars.len() {
        Map::empty()
    } else {
        var_names(vars, (n - 1) as nat).insert(vars[n - 1].1.0, vars[n - 1].0)
    }
}

/// The name of the macro that reduces a scope.
pub open spec fn reduce_name() -> Seq<char> {
    seq!['R', 'e', 'd', 'u', 'c', 'e']
}

/// The message for an item that is neither a redex nor a rule between two
/// agents.
pub open spec fn invalid_item() -> Seq<char> {
    "Invalid item found!"@
}

/// The end of `Reduce`: the innermost scope is left, the rules are compiled,
/// the net of the scope is reduced under them, and its text is put out.
pub open spec fn reduce_out(bv: BuilderView) -> BuilderView {
    let scope = bv.levels.last();
    let ready = with_system(left(bv));
    let net = reduced(scope.net, ready.system->Some_0, u64::MAX as nat);
    let text = shown_net(net, ready.names, var_names(scope.vars, scope.vars.len()), false);
    BuilderView { output: ready.output.push(text), ..ready }
}

/// The builder with the pair `a`, `b` pending in the net of its innermost
/// scope.
pub open spec fn linked(bv: BuilderView, a: TreeView, b: TreeView) -> BuilderView {
    let last = bv.levels.last();
    with_last(
        bv,
        LevelView {
            net: NetView { interactions: last.net.interactions.push((a, b)), ..last.net },
            ..last
        },
    )
}

/// The end of a rule: the scope of the rule is left and its agents join the
/// scope around it; its net is reduced without rules; the ports of the two
/// sides are read out of the net; the two agents are resolved; and the rule
/// joins the rules of the program.
pub open spec fn rule_out(
    bv: BuilderView,
    left_name: Seq<char>,
    left_ports: Seq<TreeView>,
    right_name: Seq<char>,
    right_ports: Seq<TreeView>,
) -> BuilderView {
    let scope = bv.levels.last();
    let outer = left(bv);
    let merged = with_last(
        outer,
        LevelView {
            agents: put_all(outer.levels.last().agents, scope.agents, scope.agents.len()),
            ..outer.levels.last()
        },
    );
    let none = SystemView { table: Map::empty(), arities: Map::empty(), antitype: None };
    let net = reduced(scope.net, none, u64::MAX as nat);
    let (left_children, rest) = subst_ports(net.vars, left_ports, left_ports.len());
    let (right_children, rest2) = subst_ports(rest, right_ports, right_ports.len());
    let (left_id, first) = declared_agent(merged, left_name);
    let (right_id, second) = declared_agent(first, right_name);
    BuilderView {
        defs: second.defs.push(
            DefinitionView { left_id, left_children, right_id, right_children },
        ),
        ..second
    }
}

/// The agent `name` over the ports that were read, once its closing
/// bracket is read.
pub open spec fn ported(name: Seq<char>, read: (BuilderView, Result<Seq<TermView>, Seq<char>>)) -> (
    BuilderView,
    Result<TermView, Seq<char>>,
) {
    match read.1 {
        Err(e) => (read.0, Err(e)),
        Ok(args) => {
            let (closed, close) = read_token(read.0, seq![')']);
            match close {
                Err(e) => (closed, Err(e)),
                Ok(_) => (closed, Ok(TermView::Agent(name, args))),
            }
        },
    }
}

/// With the terms `before` put in front of the ports that were read.
pub open spec fn with_terms(
    before: Seq<TermView>,
    read: (BuilderView, Result<Seq<TermView>, Seq<char>>),
) -> (BuilderView, Result<Seq<TermView>, Seq<char>>) {
    match read.1 {
        Err(e) => (read.0, Err(e)),
        Ok(rest) => (read.0, Ok(before + rest)),
    }
}

/// Reading a macro.
pub open spec fn read_macro(bv: BuilderView) -> (BuilderView, Result<nat, Seq<char>>)
    decreases bv.text.len() - bv.index, 1nat,
{
    let (named, name) = read_ctr_name(bv);
    match name {
        Err(e) => (named, Err(e)),
        Ok(name) => {
            let (opened, open) = read_token(named, seq!['[']);
            match open {
                Err(e) => (opened, Err(e)),
                Ok(_) => if name == reduce_name() {
                    let (inside, brace) = read_token(spaced(entered(opened)), seq!['{']);
                    match brace {
                        Err(e) => (inside, Err(e)),
                        Ok(_) => if further(bv, inside) {
                            let (read, scope) = read_scope(inside);
                            match scope {
                                Err(e) => (read, Err(e)),
                                Ok(_) => {
                                    let (closed, close) = read_token(spaced(read), seq!['}']);
                                    match close {
                                        Err(e) => (closed, Err(e)),
                                        Ok(_) => close_macro(reduce_out(closed)),
                                    }
                                },
                            }
                        } else {
                            (inside, Err(Seq::empty()))
                        },
                    }
                } else {
                    close_macro(at(opened, bracket_end(opened.text, opened.index as int)))
                },
            }
        },
    }
}

/// Reading the closing bracket of a macro.
pub open spec fn close_macro(bv: BuilderView) -> (BuilderView, Result<nat, Seq<char>>) {
    let (closed, close) = read_token(bv, seq![']']);
    match close {
        Err(e) => (closed, Err(e)),
        Ok(_) => (closed, Ok(closed.index)),
    }
}

/// Reading the macros that stand at the position, one after the other. What
/// a failed attempt at a macro did to the builder stays; the position goes
/// back to where the attempt began.
pub open spec fn read_macros(bv: BuilderView) -> BuilderView
    decreases bv.text.len() - bv.index, 2nat,
{
    let (after, end) = read_macro(bv);
    match end {
        Ok(_) => if further(bv, after) {
            read_macros(after)
        } else {
            after
        },
        Err(_) => at(after, bv.index as int),
    }
}

/// Reading a tree.
pub open spec fn read_tree(bv: BuilderView) -> (BuilderView, Result<TermView, Seq<char>>)
    decreases bv.text.len() - bv.index, 3nat,
{
    let start = spaced(bv);
    if onward(bv, start) {
        let here = read_macros(start);
        let (named, name) = read_ctr_name(here);
        match name {
            Ok(name) => {
                let next = spaced(named);
                if next.index < next.text.len() && next.text[next.index as int] == '(' {
                    let (inside, _open) = read_token(next, seq!['(']);
                    if further(bv, inside) {
                        ported(name, read_args(inside))
                    } else {
                        (inside, Err(Seq::empty()))
                    }
                } else {
                    (next, Ok(TermView::Agent(name, Seq::empty())))
                }
            },
            Err(_) => {
                let (named, name) = read_var_name(at(named, here.index as int));
                match name {
                    Ok(name) => (named, Ok(TermView::Var(name))),
                    Err(e) => (named, Err(e)),
                }
            },
        }
    } else {
        (start, Err(Seq::empty()))
    }
}

/// Reading the ports of an agent, up to the closing round bracket.
pub open spec fn read_args(bv: BuilderView) -> (BuilderView, Result<Seq<TermView>, Seq<char>>)
    decreases bv.text.len() - bv.index, 4nat,
{
    if bv.index < bv.text.len() && bv.text[bv.index as int] == ')' {
        (bv, Ok(Seq::empty()))
    } else {
        let (read, tree) = read_tree(bv);
        match tree {
            Err(e) => (read, Err(e)),
            Ok(tree) => {
                let next = spaced(read);
                if further(bv, next) {
                    let (end, rest) = read_args(next);
                    match rest {
                        Err(e) => (end, Err(e)),
                        Ok(rest) => (end, Ok(seq![tree] + rest)),
                    }
                } else {
                    (next, Err(Seq::empty()))
                }
            },
        }
    }
}

/// Reading the scope of a rule, where one stands at the position.
pub open spec fn read_rule_scope(bv: BuilderView) -> (BuilderView, Result<(), Seq<char>>)
    decreases bv.text.len() - bv.index, 8nat,
{
    let start = spaced(bv);
    if start.index < start.text.len() && start.text[start.index as int] == '{' {
        let (inside, open) = read_token(start, seq!['{']);
        match open {
            Err(e) => (inside, Err(e)),
            Ok(_) => if further(bv, inside) {
                let (read, scope) = read_scope(inside);
                match scope {
                    Err(e) => (read, Err(e)),
                    Ok(_) => read_token(read, seq!['}']),
                }
            } else {
                (inside, Err(Seq::empty()))
            },
        }
    } else {
        (start, Ok(()))
    }
}

/// Reading the rest of a rule whose sides `left` and `right` were read and
/// whose scope was entered.
pub open spec fn read_rule(bv: BuilderView, left: TermView, right: TermView) -> (
    BuilderView,
    Result<(), Seq<char>>,
)
    decreases bv.text.len() - bv.index, 9nat,
{
    match (left, right) {
        (TermView::Agent(left_name, left_terms), TermView::Agent(right_name, right_terms)) => {
            let (left_ports, first) = lowered_ports(bv, left_terms, left_terms.len());
            let (right_ports, second) = lowered_ports(first, right_terms, right_terms.len());
            if second.text == bv.text && second.index == bv.index {
                let (read, scope) = read_rule_scope(second);
                match scope {
                    Err(e) => (read, Err(e)),
                    Ok(_) => (
                        rule_out(read, left_name, left_ports, right_name, right_ports),
                        Ok(()),
                    ),
                }
            } else {
                (second, Err(Seq::empty()))
            }
        },
        _ => (bv, Err(invalid_item())),
    }
}

/// Reading the rest of a redex whose left side `left` was read: the equals
/// sign and the right side; the two sides are lowered and join the net of
/// the innermost scope.
pub open spec fn read_redex(bv: BuilderView, left: TermView) -> (BuilderView, Result<(), Seq<char>>)
    decreases bv.text.len() - bv.index, 10nat,
{
    let (after, _eq) = read_token(bv, seq!['=']);
    if further(bv, after) {
        let (read, tree) = read_tree(after);
        match tree {
            Err(e) => (read, Err(e)),
            Ok(right) => {
                let (a, first) = lowered(read, left);
                let (b, second) = lowered(first, right);
                (linked(second, a, b), Ok(()))
            },
        }
    } else {
        (after, Err(Seq::empty()))
    }
}

/// Reading the rest of a rule whose left side `left` was read: the tilde
/// and the right side; then the scope of the rule is entered and the rule
/// is read to its end.
pub open spec fn read_sides(bv: BuilderView, left: TermView) -> (BuilderView, Result<(), Seq<char>>)
    decreases bv.text.len() - bv.index, 11nat,
{
    let (after, _tilde) = read_token(bv, seq!['~']);
    if further(bv, after) {
        let (read, tree) = read_tree(after);
        match tree {
            Err(e) => (read, Err(e)),
            Ok(right) => if further(bv, read) {
                read_rule(entered(read), left, right)
            } else {
                (read, Err(Seq::empty()))
            },
        }
    } else {
        (after, Err(Seq::empty()))
    }
}

/// Reading one item: a macro; or a tree and, after blanks, the rest of a
/// redex or of a rule.
pub open spec fn read_item(bv: BuilderView) -> (BuilderView, Result<(), Seq<char>>)
    decreases bv.text.len() - bv.index, 5nat,
{
    if is_macro_at(bv.text, bv.index as int) {
        let (after, end) = read_macro(bv);
        match end {
            Ok(_) => (after, Ok(())),
            Err(e) => (after, Err(e)),
        }
    } else {
        let (read, tree) = read_tree(bv);
        match tree {
            Err(e) => (read, Err(e)),
            Ok(left) => {
                let next = spaced(read);
                if !(further(bv, next) && next.index < next.text.len()) {
                    (next, Err(invalid_item()))
                } else if next.text[next.index as int] == '=' {
                    read_redex(next, left)
                } else if next.text[next.index as int] == '~' {
                    read_sides(next, left)
                } else {
                    (next, Err(invalid_item()))
                }
            },
        }
    }
}

/// Reading the items of a scope, up to its closing brace or the end of the
/// text.
pub open spec fn read_items(bv: BuilderView) -> (BuilderView, Result<(), Seq<char>>)
    decreases bv.text.len() - bv.index, 6nat,
{
    if !(bv.index < bv.text.len()) || bv.text[bv.index as int] == '}' {
        (bv, Ok(()))
    } else {
        let start = spaced(bv);
        if onward(bv, start) {
            let (read, item) = read_item(start);
            match item {
                Err(e) => (read, Err(e)),
                Ok(_) => {
                    let next = spaced(read);
                    if further(bv, next) {
                        read_items(next)
                    } else {
                        (next, Err(Seq::empty()))
                    }
                },
            }
        } else {
            (start, Err(Seq::empty()))
        }
    }
}

/// Reading a scope: blanks, then its items.
pub open spec fn read_scope(bv: BuilderView) -> (BuilderView, Result<(), Seq<char>>)
    decreases bv.text.len() - bv.index, 7nat,
{
    let start = spaced(bv);
    if onward(bv, start) {
        read_items(start)
    } else {
        (start, Err(Seq::empty()))
    }
}

/// Reading a program: the reserved agents are declared with their arities:
/// the annotation agent `:` of two ports, the antitype agent `~` and the
/// annotator `::` of one port each; then the items of the outermost scope
/// are read.
pub open spec fn read_program(bv: BuilderView) -> (BuilderView, Result<(), Seq<char>>) {
    let (annotation, first) = declared_agent(bv, seq![':']);
    let (antitype, second) = declared_agent(with_arity(first, annotation, 2), seq!['~']);
    let (annotator, third) = declared_agent(with_arity(second, antitype, 1), seq![':', ':']);
    read_scope(with_arity(third, annotator, 1))
}

} // verus!
