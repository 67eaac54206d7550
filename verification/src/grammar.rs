//! The grammar of programs: names, trees, macros and scopes, read from the
//! program text into the builder. What each reading does is stated by the
//! function of the same kind on the value of the builder.

use crate::builder::{lemma_declared_last, Definition, Level, ProgramBuilder};
use crate::compile::lowered_ports;
use crate::effects::{
    at, linked, name_result, ported, position_result, read_args, read_ctr_name, read_item,
    read_items, read_macro, read_macros, read_program, read_redex, read_rule, read_rule_scope,
    read_scope, read_sides, read_tree, read_var_name, reduce_name, reduce_out, term_result,
    unit_result, var_names, with_terms,
};
use crate::lexer::{
    bracket_end, ctr_name_at, ctr_start, is_macro_at, lemma_name_end, lemma_token_here,
    skip_spaces, var_name_at,
};
use crate::net::subst_ports;
use crate::rules::InteractionSystem;
use crate::show::scope_views;
use crate::syntax;
use crate::syntax::{lemma_agent_term_view, term_views, TermView};
use crate::tables::{as_map, NameMap};
use crate::term::{views, Tree, VarId};
use std::collections::BTreeMap;
use vstd::prelude::*;
use vstd::string::*;

verus! {

/// What reading leaves as it was: the text itself; and what it only moves
/// forward or grows: the position, the names of the outermost scope, the
/// rules and the lines of output.
pub open spec fn advanced(before: ProgramBuilder, after: ProgramBuilder) -> bool {
    &&& after.input == before.input
    &&& after.text == before.text
    &&& before.index <= after.index <= after.text@.len()
    &&& after.base_kept(before)
    &&& before.def@.len() <= after.def@.len()
    &&& before.output@.len() <= after.output@.len()
    &&& after.ready()
}

/// The name of each variable of a scope, by its number.
pub fn names_of_vars(scope: &NameMap<VarId>) -> (names: BTreeMap<u64, String>)
    ensures
        scope_views(names@) == var_names(scope@, scope@.len()),
{
    let mut names: BTreeMap<u64, String> = BTreeMap::new();
    let mut i: usize = 0;
    assert(scope_views(names@) =~= var_names(scope@, 0));
    while i < scope.entries.len()
        invariant
            i <= scope.entries@.len(),
            scope_views(names@) == var_names(scope@, i as nat),
        decreases scope.entries@.len() - i,
    {
        let name = scope.entries[i].0.clone();
        let id = scope.entries[i].1;
        let ghost before = names@;
        names.insert(id.0, name);
        proof {
            assert(scope_views(names@) =~= scope_views(before).insert(id.0, name@));
        }
        i += 1;
    }
    names
}

impl<'i> ProgramBuilder<'i> {
    /// Reads an agent name: after blanks, a first character that an agent
    /// name may begin with, and the name characters that follow.
    pub fn parse_ctr_name(&mut self) -> (r: Result<String, String>)
        requires
            old(self).text@ == old(self).input@,
            old(self).index <= old(self).text@.len(),
        ensures
            (final(self)@, name_result(r)) == read_ctr_name(old(self)@),
            final(self).moved_from(*old(self)),
            old(self).index <= final(self).index <= old(self).text@.len(),
            r is Ok ==> final(self).index > old(self).index,
            match ctr_name_at(old(self).text@, old(self).index as int) {
                Some((name, end)) => final(self).index == end,
                None => final(self).index == skip_spaces(old(self).text@, old(self).index as int),
            },
    {
        self.skip_trivia();
        let first = match self.peek_one() {
            Some(c) => c,
            None => {
                return Err(String::from_str("Expected a character for ctr_name."));
            },
        };
        if ctr_start(first) {
            let start = self.index;
            assert(self.index < self.text.len());
            self.index += 1;
            proof {
                lemma_name_end(self.text@, self.index as int);
            }
            self.skip_name();
            Ok(self.slice(start, self.index))
        } else {
            Err(String::from_str("Expected an agent name."))
        }
    }

    /// Reads a variable name: after blanks, a lower-case letter and the name
    /// characters that follow. Where something else stands there, the rest
    /// of the text joins the lines of output, as the debugging format writes
    /// it, and the error is returned.
    pub fn parse_var_name(&mut self) -> (r: Result<String, String>)
        requires
            old(self).text@ == old(self).input@,
            old(self).index <= old(self).text@.len(),
        ensures
            (final(self)@, name_result(r)) == read_var_name(old(self)@),
            r is Ok ==> final(self).moved_from(*old(self)),
            final(self).input == old(self).input,
            final(self).text == old(self).text,
            final(self).levels == old(self).levels,
            final(self).def == old(self).def,
            final(self).agent_scope_back == old(self).agent_scope_back,
            final(self).arities == old(self).arities,
            final(self).next_agent_id == old(self).next_agent_id,
            final(self).interaction_system == old(self).interaction_system,
            old(self).output@.len() <= final(self).output@.len(),
            old(self).index <= final(self).index <= old(self).text@.len(),
            r is Ok ==> final(self).index > old(self).index,
            match var_name_at(old(self).text@, old(self).index as int) {
                Some((name, end)) => final(self).index == end,
                None => final(self).index == skip_spaces(old(self).text@, old(self).index as int),
            },
    {
        self.skip_trivia();
        let first = match self.peek_one() {
            Some(c) => c,
            None => {
                return Err(String::from_str("Expected a character for var_name."));
            },
        };
        if 'a' <= first && first <= 'z' {
            let start = self.index;
            assert(self.index < self.text.len());
            self.index += 1;
            proof {
                lemma_name_end(self.text@, self.index as int);
            }
            self.skip_name();
            Ok(self.slice(start, self.index))
        } else {
            let ghost before = self@;
            let line = self.rest_quoted();
            self.output.push(line);
            proof {
                assert(self@.output =~= before.output.push(line@));
            }
            Err(String::from_str("Expected a variable name."))
        }
    }

    /// Whether a macro stands at the position: an agent name and, after
    /// blanks, an opening square bracket. The position stays as it was.
    pub fn peek_macro(&mut self) -> (r: Result<bool, String>)
        requires
            old(self).text@ == old(self).input@,
            old(self).index <= old(self).text@.len(),
        ensures
            *final(self) == *old(self),
            r == Ok::<bool, String>(is_macro_at(old(self).text@, old(self).index as int)),
    {
        let index = self.index;
        let found = match self.parse_ctr_name() {
            Ok(_) => {
                self.skip_trivia();
                match self.peek_one() {
                    Some(c) => c == '[',
                    None => false,
                }
            },
            Err(_) => false,
        };
        self.index = index;
        Ok(found)
    }

    /// Reads a macro: a name and its argument in square brackets. `Reduce`
    /// reads a scope in braces, reduces its net under the rules stated so
    /// far and puts the text of the reduced net out; the argument of any
    /// other macro is passed over. Returns the position after the macro.
    pub fn parse_macro(&mut self) -> (r: Result<usize, String>)
        requires
            old(self).ready(),
        ensures
            (final(self)@, position_result(r)) == read_macro(old(self)@),
            advanced(*old(self), *final(self)),
            final(self).levels@.len() >= old(self).levels@.len(),
            r matches Ok(end) ==> end == final(self).index && final(self).index > old(self).index,
        decreases old(self).text@.len() - old(self).index, 1nat,
    {
        proof {
            reveal_strlit("[");
            reveal_strlit("]");
            reveal_strlit("{");
            reveal_strlit("}");
            reveal_strlit("Reduce");
            assert("["@ =~= seq!['[']);
            assert("]"@ =~= seq![']']);
            assert("{"@ =~= seq!['{']);
            assert("}"@ =~= seq!['}']);
            assert("Reduce"@ =~= reduce_name());
        }
        let ctr_name = match self.parse_ctr_name() {
            Ok(name) => name,
            Err(e) => {
                return Err(e);
            },
        };
        match self.consume("[") {
            Ok(_) => {},
            Err(e) => {
                return Err(e);
            },
        }
        if ctr_name == String::from_str("Reduce") {
            self.enter();
            self.skip_trivia();
            match self.consume("{") {
                Ok(_) => {},
                Err(e) => {
                    return Err(e);
                },
            }
            match self.parse_scope() {
                Ok(_) => {},
                Err(e) => {
                    return Err(e);
                },
            }
            self.skip_trivia();
            match self.consume("}") {
                Ok(_) => {},
                Err(e) => {
                    return Err(e);
                },
            }
            let ghost closed = self@;
            let mut result = self.exit().unwrap();
            self.build_interaction_system();
            let ghost before = self@;
            let shown = {
                let system = self.interaction_system.as_ref().unwrap();
                result.vars.net.normal(system);
                let vars = names_of_vars(&result.vars.var_scope);
                result.vars.net.show_net_compact(&self.agent_scope_back, &vars)
            };
            self.output.push(shown);
            proof {
                assert(self@.output =~= before.output.push(shown@));
                assert(self@ == reduce_out(closed));
            }
        } else {
            let ghost from = self.index as int;
            let ghost opened = self@;
            while self.index < self.text.len() && self.text[self.index] != ']'
                invariant
                    self.index <= self.text@.len(),
                    self.ready(),
                    advanced(*old(self), *self),
                    self.levels@.len() >= old(self).levels@.len(),
                    self.index > old(self).index,
                    self@ == at(opened, self.index as int),
                    bracket_end(self.text@, self.index as int) == bracket_end(self.text@, from),
                decreases self.text@.len() - self.index,
            {
                self.index += 1;
            }
        }
        match self.consume("]") {
            Ok(_) => {},
            Err(e) => {
                return Err(e);
            },
        }
        Ok(self.index)
    }

    /// Reads a tree: after any macros, an agent name with its ports in
    /// round brackets, or an agent name alone, or a variable name.
    pub fn parse_tree(&mut self) -> (r: Result<syntax::Tree, String>)
        requires
            old(self).ready(),
        ensures
            (final(self)@, term_result(r)) == read_tree(old(self)@),
            advanced(*old(self), *final(self)),
            final(self).levels@.len() >= old(self).levels@.len(),
            r is Ok ==> final(self).index > old(self).index,
        decreases old(self).text@.len() - old(self).index, 2nat,
    {
        self.skip_trivia();
        let ghost start = self@;
        let mut old_idx = self.index;
        loop
            invariant_except_break
                self.index == old_idx,
                read_macros(start) == read_macros(self@),
            invariant
                advanced(*old(self), *self),
                self.levels@.len() >= old(self).levels@.len(),
                old(self).index <= old_idx <= self.text@.len(),
            ensures
                advanced(*old(self), *self),
                self.levels@.len() >= old(self).levels@.len(),
                old(self).index <= old_idx <= self.text@.len(),
                read_macros(start) == at(self@, old_idx as int),
            decreases self.text@.len() - old_idx,
        {
            match self.parse_macro() {
                Ok(m) => {
                    old_idx = m;
                },
                Err(_) => {
                    break;
                },
            }
        }
        self.index = old_idx;
        let old_idx = self.index;
        match self.parse_ctr_name() {
            Ok(ctr_name) => {
                self.skip_trivia();
                let open = match self.peek_one() {
                    Some(c) => c == '(',
                    None => false,
                };
                if open {
                    proof {
                        reveal_strlit("(");
                        reveal_strlit(")");
                        assert("("@ =~= seq!['(']);
                        assert(")"@ =~= seq![')']);
                        lemma_token_here(self.text@, self.index as int, '(');
                    }
                    match self.consume("(") {
                        Ok(_) => {},
                        Err(e) => {
                            return Err(e);
                        },
                    }
                    let mut args: Vec<syntax::Tree> = Vec::new();
                    let ghost inside = self@;
                    proof {
                        let whole = read_args(inside).1;
                        if whole is Ok {
                            assert(term_views(args@) + whole->Ok_0 =~= whole->Ok_0);
                        }
                    }
                    loop
                        invariant
                            advanced(*old(self), *self),
                            self.levels@.len() >= old(self).levels@.len(),
                            self.index > old(self).index,
                            read_tree(old(self)@) == ported(ctr_name@, read_args(inside)),
                            read_args(inside) == with_terms(term_views(args@), read_args(self@)),
                        ensures
                            advanced(*old(self), *self),
                            self.levels@.len() >= old(self).levels@.len(),
                            self.index > old(self).index,
                            self.index < self.text@.len(),
                            self.text@[self.index as int] == ')',
                            read_tree(old(self)@) == ported(ctr_name@, read_args(inside)),
                            read_args(inside) == (
                                self@,
                                Ok::<Seq<TermView>, Seq<char>>(term_views(args@)),
                            ),
                        decreases self.text@.len() - self.index,
                    {
                        let closed = match self.peek_one() {
                            Some(c) => c == ')',
                            None => false,
                        };
                        if closed {
                            proof {
                                assert(term_views(args@) + Seq::<TermView>::empty()
                                    =~= term_views(args@));
                            }
                            break;
                        }
                        let ghost done = term_views(args@);
                        match self.parse_tree() {
                            Ok(arg) => {
                                args.push(arg);
                                proof {
                                    assert(term_views(args@) =~= done.push(arg@));
                                }
                            },
                            Err(e) => {
                                return Err(e);
                            },
                        }
                        self.skip_trivia();
                        proof {
                            let t = term_views(args@).last();
                            let more = read_args(self@).1;
                            if more is Ok {
                                assert(done + (seq![t] + more->Ok_0) =~= term_views(args@)
                                    + more->Ok_0);
                            }
                        }
                    }
                    proof {
                        lemma_token_here(self.text@, self.index as int, ')');
                        lemma_agent_term_view(ctr_name, args);
                    }
                    match self.consume(")") {
                        Ok(_) => {},
                        Err(e) => {
                            return Err(e);
                        },
                    }
                    return Ok(syntax::Tree::Agent(ctr_name, args));
                }
                let none: Vec<syntax::Tree> = Vec::new();
                proof {
                    lemma_agent_term_view(ctr_name, none);
                    assert(term_views(none@) =~= Seq::<TermView>::empty());
                }
                return Ok(syntax::Tree::Agent(ctr_name, none));
            },
            Err(_) => {
                self.index = old_idx;
            },
        }
        match self.parse_var_name() {
            Ok(var_name) => Ok(syntax::Tree::Var(var_name)),
            Err(e) => Err(e),
        }
    }

    /// Reads a scope in braces where one stands at the position.
    pub fn maybe_parse_scope(&mut self) -> (r: Result<(), String>)
        requires
            old(self).ready(),
        ensures
            (final(self)@, unit_result(r)) == read_rule_scope(old(self)@),
            advanced(*old(self), *final(self)),
            final(self).levels@.len() >= old(self).levels@.len(),
        decreases old(self).text@.len() - old(self).index, 5nat,
    {
        self.skip_trivia();
        let open = match self.peek_one() {
            Some(c) => c == '{',
            None => false,
        };
        if open {
            proof {
                reveal_strlit("{");
                reveal_strlit("}");
                assert("{"@ =~= seq!['{']);
                assert("}"@ =~= seq!['}']);
                lemma_token_here(self.text@, self.index as int, '{');
            }
            match self.consume("{") {
                Ok(_) => {},
                Err(e) => {
                    return Err(e);
                },
            }
            match self.parse_scope() {
                Ok(_) => {},
                Err(e) => {
                    return Err(e);
                },
            }
            match self.consume("}") {
                Ok(_) => {},
                Err(e) => {
                    return Err(e);
                },
            }
        }
        Ok(())
    }

    /// Reads the items of a scope up to its closing brace or the end of the
    /// text.
    pub fn parse_scope(&mut self) -> (r: Result<(), String>)
        requires
            old(self).ready(),
        ensures
            (final(self)@, unit_result(r)) == read_scope(old(self)@),
            advanced(*old(self), *final(self)),
            final(self).levels@.len() >= old(self).levels@.len(),
        decreases old(self).text@.len() - old(self).index, 4nat,
    {
        self.skip_trivia();
        loop
            invariant
                advanced(*old(self), *self),
                self.levels@.len() >= old(self).levels@.len(),
                read_scope(old(self)@) == read_items(self@),
            ensures
                advanced(*old(self), *self),
                self.levels@.len() >= old(self).levels@.len(),
                read_scope(old(self)@) == (self@, Ok::<(), Seq<char>>(())),
            decreases self.text@.len() - self.index,
        {
            let more = match self.peek_one() {
                Some(c) => c != '}',
                None => false,
            };
            if !more {
                break;
            }
            self.skip_trivia();
            match self.parse_item() {
                Ok(_) => {},
                Err(e) => {
                    return Err(e);
                },
            }
            self.skip_trivia();
        }
        Ok(())
    }

    /// Reads one item: a macro, a redex `a = b`, which joins the net of the
    /// scope, or a rule `A(..) ~ B(..)` with an optional scope of its own,
    /// which joins the rules once its scope is reduced away.
    pub fn parse_item(&mut self) -> (r: Result<(), String>)
        requires
            old(self).ready(),
        ensures
            (final(self)@, unit_result(r)) == read_item(old(self)@),
            advanced(*old(self), *final(self)),
            final(self).levels@.len() >= old(self).levels@.len(),
            r is Ok ==> final(self).index > old(self).index,
        decreases old(self).text@.len() - old(self).index, 3nat,
    {
        let is_macro = match self.peek_macro() {
            Ok(b) => b,
            Err(e) => {
                return Err(e);
            },
        };
        if is_macro {
            return match self.parse_macro() {
                Ok(_) => Ok(()),
                Err(e) => Err(e),
            };
        }
        let left = match self.parse_tree() {
            Ok(t) => t,
            Err(e) => {
                return Err(e);
            },
        };
        self.skip_trivia();
        let next = self.peek_one();
        let is_redex = match next {
            Some(c) => c == '=',
            None => false,
        };
        let is_rule = match next {
            Some(c) => c == '~',
            None => false,
        };
        if is_redex {
            self.parse_redex(left)
        } else if is_rule {
            self.parse_sides(left)
        } else {
            Err(String::from_str("Invalid item found!"))
        }
    }

    /// Reads the rest of a redex whose left side was read and whose equals
    /// sign stands at the position.
    pub fn parse_redex(&mut self, left: syntax::Tree) -> (r: Result<(), String>)
        requires
            old(self).ready(),
            old(self).index < old(self).text@.len(),
            old(self).text@[old(self).index as int] == '=',
        ensures
            (final(self)@, unit_result(r)) == read_redex(old(self)@, left@),
            advanced(*old(self), *final(self)),
            final(self).levels@.len() >= old(self).levels@.len(),
            r is Ok ==> final(self).index > old(self).index,
        decreases old(self).text@.len() - old(self).index, 7nat,
    {
        proof {
            reveal_strlit("=");
            assert("="@ =~= seq!['=']);
            lemma_token_here(self.text@, self.index as int, '=');
        }
        match self.consume("=") {
            Ok(_) => {},
            Err(e) => {
                return Err(e);
            },
        }
        let right = match self.parse_tree() {
            Ok(t) => t,
            Err(e) => {
                return Err(e);
            },
        };
        let a = self.lower(&left);
        let b = self.lower(&right);
        let ghost lowered_both = self@;
        let mut level = self.levels.pop().unwrap();
        level.vars.net.link(a, b);
        self.levels.push(level);
        proof {
            assert(self@.levels =~= linked(lowered_both, a@, b@).levels);
            lemma_declared_last(lowered_both.levels, self@.levels.last());
        }
        Ok(())
    }

    /// Reads the rest of a rule whose left side was read and whose tilde
    /// stands at the position.
    pub fn parse_sides(&mut self, left: syntax::Tree) -> (r: Result<(), String>)
        requires
            old(self).ready(),
            old(self).index < old(self).text@.len(),
            old(self).text@[old(self).index as int] == '~',
        ensures
            (final(self)@, unit_result(r)) == read_sides(old(self)@, left@),
            advanced(*old(self), *final(self)),
            final(self).levels@.len() >= old(self).levels@.len(),
            r is Ok ==> final(self).index > old(self).index,
        decreases old(self).text@.len() - old(self).index, 7nat,
    {
        proof {
            reveal_strlit("~");
            assert("~"@ =~= seq!['~']);
            lemma_token_here(self.text@, self.index as int, '~');
        }
        match self.consume("~") {
            Ok(_) => {},
            Err(e) => {
                return Err(e);
            },
        }
        let right = match self.parse_tree() {
            Ok(t) => t,
            Err(e) => {
                return Err(e);
            },
        };
        self.enter();
        self.parse_rule(left, right)
    }

    /// Reads the rest of a rule whose two sides were read and whose scope
    /// was entered: the ports of the two sides become trees of the scope,
    /// the scope of the rule is read and left, its agents join the scope
    /// around it, its net is reduced, and the ports read out of the net make
    /// the rule. Each side of a rule must be an agent.
    pub fn parse_rule(&mut self, left: syntax::Tree, right: syntax::Tree) -> (r: Result<
        (),
        String,
    >)
        requires
            old(self).ready(),
            old(self).levels@.len() > 1,
        ensures
            (final(self)@, unit_result(r)) == read_rule(old(self)@, left@, right@),
            advanced(*old(self), *final(self)),
            final(self).levels@.len() >= old(self).levels@.len() - 1,
        decreases old(self).text@.len() - old(self).index, 6nat,
    {
        let (l_name, l_children) = match left {
            syntax::Tree::Agent(name, children) => {
                proof {
                    lemma_agent_term_view(name, children);
                }
                (name, children)
            },
            syntax::Tree::Var(_) => {
                return Err(String::from_str("Invalid item found!"));
            },
        };
        let (r_name, r_children) = match right {
            syntax::Tree::Agent(name, children) => {
                proof {
                    lemma_agent_term_view(name, children);
                }
                (name, children)
            },
            syntax::Tree::Var(_) => {
                return Err(String::from_str("Invalid item found!"));
            },
        };
        let l_trees = self.lower_all(&l_children);
        let r_trees = self.lower_all(&r_children);
        match self.maybe_parse_scope() {
            Ok(_) => {},
            Err(e) => {
                return Err(e);
            },
        }
        let ghost entered = *self;
        let mut scope = self.exit().unwrap();
        proof {
            lemma_declared_last(entered@.levels, entered@.levels.last());
            assert(entered@.levels.last().agents == scope.agent_scope@);
            assert forall|i: int| 0 <= i < scope.agent_scope.entries@.len() implies (
            #[trigger] scope.agent_scope.entries@[i]).1.0 < self.next_agent_id by {
                let l = entered.levels@.len() - 1;
                assert(entered.levels@[l].agent_scope.entries@[i] == scope.agent_scope.entries@[i]);
            }
        }
        self.merge_agents(&scope.agent_scope);
        let none = InteractionSystem::new();
        scope.vars.net.normal(&none);
        let left_children = read_all(&mut scope, &l_trees);
        let right_children = read_all(&mut scope, &r_trees);
        let left_id = self.get_or_new_agent_id(l_name);
        let right_id = self.get_or_new_agent_id(r_name);
        let ghost resolved = self@;
        let def = Definition { left_id, left_children, right_id, right_children };
        self.def.push(def);
        proof {
            assert(self@.defs =~= resolved.defs.push(def@));
        }
        Ok(())
    }

    /// Turns written terms into trees, from left to right.
    pub fn lower_all(&mut self, terms: &Vec<syntax::Tree>) -> (trees: Vec<Tree>)
        requires
            old(self).wf(),
            old(self).levels@.len() > 0,
        ensures
            (views(trees@), final(self)@) == lowered_ports(
                old(self)@,
                term_views(terms@),
                terms@.len(),
            ),
            final(self).wf(),
            final(self).levels@.len() == old(self).levels@.len(),
            final(self).base_kept(*old(self)),
            final(self).same_source(*old(self)),
            final(self).def == old(self).def,
            final(self).interaction_system == old(self).interaction_system,
            final(self).output == old(self).output,
    {
        let ghost ts = term_views(terms@);
        let mut trees: Vec<Tree> = Vec::new();
        let mut i: usize = 0;
        while i < terms.len()
            invariant
                i <= terms@.len(),
                trees@.len() == i,
                ts == term_views(terms@),
                self.wf(),
                self.levels@.len() == old(self).levels@.len(),
                self.levels@.len() > 0,
                self.base_kept(*old(self)),
                self.same_source(*old(self)),
                self.def == old(self).def,
                self.interaction_system == old(self).interaction_system,
                self.output == old(self).output,
                (views(trees@), self@) == lowered_ports(old(self)@, ts, i as nat),
            decreases terms@.len() - i,
        {
            let ghost done = views(trees@);
            let tree = self.lower(&terms[i]);
            trees.push(tree);
            proof {
                assert(ts[i as int] == terms@[i as int]@);
                assert(views(trees@) =~= done.push(tree@));
            }
            i += 1;
        }
        trees
    }

    /// A name that a builder of one scope resolves is held by that scope.
    proof fn lemma_only_scope(self, n: Seq<char>)
        requires
            self.levels@.len() == 1,
            self.agent_named(n) is Some,
        ensures
            as_map(self@.levels[0].agents).contains_key(n),
    {
        reveal_with_fuel(crate::builder::find_agent, 2);
        assert(self@.levels.drop_last().len() == 0);
        assert(self@.levels.last() == self@.levels[0]);
    }

    /// Reads a whole program: the reserved agents are declared with their
    /// arities, then the items of the outermost scope are read.
    pub fn build(&mut self) -> (r: Result<(), String>)
        requires
            old(self).ready(),
            old(self).levels@.len() == 1,
        ensures
            (final(self)@, unit_result(r)) == read_program(old(self)@),
            advanced(*old(self), *final(self)),
            final(self).agent_named(":"@) is Some,
            final(self).agent_named("~"@) is Some,
            final(self).agent_named("::"@) is Some,
    {
        proof {
            reveal_strlit(":");
            reveal_strlit("~");
            reveal_strlit("::");
            assert(crate::builder::base_name(":"@) == ":"@);
            assert(crate::builder::base_name("~"@) == "~"@);
            assert(crate::builder::base_name("::"@) == "::"@);
            assert(":"@ =~= seq![':']);
            assert("~"@ =~= seq!['~']);
            assert("::"@ =~= seq![':', ':']);
        }
        let a = self.get_or_new_agent_id(String::from_str(":"));
        proof {
            self.lemma_only_scope(":"@);
        }
        self.set_arity(a, 2);
        let a = self.get_or_new_agent_id(String::from_str("~"));
        proof {
            self.lemma_only_scope("~"@);
        }
        self.set_arity(a, 1);
        let a = self.get_or_new_agent_id(String::from_str("::"));
        proof {
            self.lemma_only_scope("::"@);
        }
        self.set_arity(a, 1);
        let r = self.parse_scope();
        proof {
            crate::builder::lemma_base_named(self@.levels, ":"@);
            crate::builder::lemma_base_named(self@.levels, "~"@);
            crate::builder::lemma_base_named(self@.levels, "::"@);
        }
        r
    }
}

/// Reads each of the trees out of the net of a scope, from left to right:
/// what one tree consumes of the store, the next no longer finds.
pub fn read_all(scope: &mut Level, trees: &Vec<Tree>) -> (read: Vec<Tree>)
    ensures
        (views(read@), final(scope).vars.net@.vars) == subst_ports(
            old(scope).vars.net@.vars,
            views(trees@),
            trees@.len(),
        ),
        final(scope).vars.net@.interactions == old(scope).vars.net@.interactions,
        final(scope).vars.net@.stuck == old(scope).vars.net@.stuck,
        final(scope).agent_scope == old(scope).agent_scope,
        final(scope).vars.var_scope == old(scope).vars.var_scope,
{
    let ghost vars0 = scope.vars.net@.vars;
    let ghost ts = views(trees@);
    let mut read: Vec<Tree> = Vec::new();
    let mut i: usize = 0;
    proof {
        crate::net::lemma_room(&scope.vars.net);
    }
    while i < trees.len()
        invariant
            i <= trees@.len(),
            read@.len() == i,
            ts == views(trees@),
            vars0.dom().finite(),
            (views(read@), scope.vars.net@.vars) == subst_ports(vars0, ts, i as nat),
            scope.vars.net@.interactions == old(scope).vars.net@.interactions,
            scope.vars.net@.stuck == old(scope).vars.net@.stuck,
            scope.agent_scope == old(scope).agent_scope,
            scope.vars.var_scope == old(scope).vars.var_scope,
        decreases trees@.len() - i,
    {
        let ghost before = views(read@);
        proof {
            crate::net::lemma_subst_ports_shrinks(vars0, ts, i as nat);
        }
        let tree = scope.vars.net.substitute_in(&trees[i]);
        read.push(tree);
        proof {
            assert(ts[i as int] == trees@[i as int]@);
            assert(views(read@) =~= before.push(tree@));
        }
        i += 1;
    }
    read
}

} // verus!
