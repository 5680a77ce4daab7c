//! The formatting engine: the layout rules on machine integers and a
//! `String`.

use crate::atom::Atom;
use crate::layout::{Layout, Level};
use crate::text::{
    ends_with_blank_line, ends_with_newline, push_spaces, strip_trailing_newlines,
};
use crate::token::Token;
use std::fmt::Error;
use vstd::prelude::*;
use vstd::string::StringExecFns;

verus! {

/// The state of one formatting pass.
pub(crate) struct Formatter {
    output: String,
    default_indentation: usize,
    preceded_by_expression: bool,
    levels: Vec<usize>,
    is_operator: Vec<bool>,
    awaiting_new_level: bool,
    x: usize,
}

impl View for Formatter {
    type V = Layout;

    closed spec fn view(&self) -> Layout {
        Layout {
            output: self.output@,
            x: self.x as nat,
            levels: Seq::new(
                self.levels@.len(),
                |i: int|
                    Level { column: self.levels@[i] as nat, from_operator: self.is_operator@[i] },
            ),
            awaiting_new_level: self.awaiting_new_level,
            preceded_by_expression: self.preceded_by_expression,
            default_indentation: self.default_indentation as nat,
        }
    }
}

impl Formatter {
    /// The two stacks have one entry each for every level, and the state is
    /// one that a pass can be in.
    pub(crate) closed spec fn wf(&self) -> bool {
        &&& self.levels@.len() == self.is_operator@.len()
        &&& self@.wf()
    }

    /// The columns of a formatter are machine integers.
    proof fn lemma_representable(&self)
        ensures
            self@.representable(),
    {
    }

    /// A formatter that has written nothing.
    pub(crate) fn new(default_indentation: usize) -> (formatter: Formatter)
        ensures
            formatter.wf(),
            formatter@ == Layout::new(default_indentation as nat),
    {
        let formatter = Formatter {
            output: String::new(),
            default_indentation,
            preceded_by_expression: false,
            levels: Vec::new(),
            is_operator: Vec::new(),
            awaiting_new_level: false,
            x: 0,
        };
        assert(formatter@.levels =~= Seq::<Level>::empty());
        formatter
    }

    /// The text written so far.
    pub(crate) fn into_output(self) -> (output: String)
        ensures
            output@ == self@.output,
    {
        self.output
    }

    fn push_level(&mut self, column: usize, from_operator: bool)
        requires
            old(self).levels@.len() == old(self).is_operator@.len(),
        ensures
            final(self).levels@.len() == final(self).is_operator@.len(),
            final(self)@ == old(self)@.push_level(column as nat, from_operator),
    {
        self.levels.push(column);
        self.is_operator.push(from_operator);
        assert(self@.levels =~= old(self)@.levels.push(
            Level { column: column as nat, from_operator },
        ));
    }

    fn pop_level(&mut self)
        requires
            old(self).levels@.len() == old(self).is_operator@.len(),
        ensures
            final(self).levels@.len() == final(self).is_operator@.len(),
            final(self)@ == old(self)@.pop_level(),
    {
        let _ = self.levels.pop();
        let _ = self.is_operator.pop();
        assert(self@.levels =~= old(self)@.pop_level().levels);
    }

    fn operator_pending(&self) -> (pending: bool)
        requires
            self.levels@.len() == self.is_operator@.len(),
        ensures
            pending == self@.operator_pending(),
    {
        let depth = self.is_operator.len();
        depth > 0 && self.is_operator[depth - 1]
    }

    fn pop_operator(&mut self)
        requires
            old(self).levels@.len() == old(self).is_operator@.len(),
        ensures
            final(self).levels@.len() == final(self).is_operator@.len(),
            final(self)@ == old(self)@.pop_operator(),
    {
        if self.operator_pending() {
            self.pop_level();
        }
    }

    fn leading_space(&mut self)
        requires
            old(self).levels@.len() == old(self).is_operator@.len(),
            old(self)@.leading_space().x <= usize::MAX,
        ensures
            final(self).levels@.len() == final(self).is_operator@.len(),
            final(self)@ == old(self)@.leading_space(),
    {
        if ends_with_newline(&self.output) {
            let depth = self.levels.len();
            self.x = if depth > 0 {
                self.levels[depth - 1]
            } else {
                0
            };
            push_spaces(&mut self.output, self.x);
        } else if self.preceded_by_expression {
            self.output.push(' ');
            self.x = self.x + 1;
        }
        assert(self@.levels =~= old(self)@.levels);
    }

    fn put_default_level_or_leading_space(&mut self)
        requires
            old(self).wf(),
            old(self)@.put_default_level_or_leading_space().representable(),
        ensures
            final(self).levels@.len() == final(self).is_operator@.len(),
            final(self)@ == old(self)@.put_default_level_or_leading_space(),
    {
        if self.awaiting_new_level {
            proof {
                let next = self@.put_default_level_or_leading_space();
                assert(next.levels[next.levels.len() - 1].column <= usize::MAX);
            }
            let level = self.x - 1 + self.default_indentation;
            self.push_level(level, false);
        } else {
            self.leading_space();
        }
    }

    /// Takes one token: writes it and moves the state on, as
    /// [`Layout::step`] says. An atom that cannot be rendered leaves the
    /// formatter as it was.
    pub(crate) fn token<A: Atom>(&mut self, token: Token<'_, A>) -> (result: Result<(), Error>)
        requires
            old(self).wf(),
            old(self)@.step(token@) matches Ok(next) ==> next.representable(),
        ensures
            final(self).wf(),
            match result {
                Ok(()) => old(self)@.step(token@) == Ok::<Layout, Error>(final(self)@),
                Err(error) => {
                    &&& old(self)@.step(token@) == Err::<Layout, Error>(error)
                    &&& *final(self) == *old(self)
                },
            },
    {
        match token {
            Token::Atom(atom) => {
                let width = atom.width();
                let text = match atom.render() {
                    Ok(text) => text,
                    Err(error) => {
                        return Err(error);
                    },
                };
                let ghost next = self@.atom(
                    width as nat,
                    atom.model().custom_indentation,
                    text@,
                );
                if self.awaiting_new_level {
                    proof {
                        let placed = self@.push_level(
                            self@.head_level(width as nat, atom.model().custom_indentation),
                            false,
                        );
                        assert(!placed.operator_pending());
                        assert(next.levels[next.levels.len() - 1].column <= usize::MAX);
                    }
                    let level = match atom.custom_indentation() {
                        Some(indentation) => self.x - 1 + indentation,
                        None => self.x + width + 1,
                    };
                    self.push_level(level, false);
                } else {
                    self.leading_space();
                }
                self.x = self.x + width;
                self.output.append(text.as_str());
                self.preceded_by_expression = true;
                self.awaiting_new_level = false;
                self.pop_operator();
                assert(self@ =~= next);
            },
            Token::LParen => {
                proof {
                    self.lemma_representable();
                    let placed = self@.put_default_level_or_leading_space();
                    assert(self@.lparen().levels == placed.levels);
                }
                self.put_default_level_or_leading_space();
                self.output.push('(');
                self.x = self.x + 1;
                self.preceded_by_expression = false;
                self.awaiting_new_level = true;
                assert(self@ =~= old(self)@.lparen());
            },
            Token::RParen => {
                strip_trailing_newlines(&mut self.output);
                self.output.push(')');
                self.x = self.x + 1;
                if !self.awaiting_new_level {
                    self.pop_operator();
                    self.pop_level();
                }
                self.preceded_by_expression = true;
                self.awaiting_new_level = false;
                assert(self@ =~= old(self)@.rparen());
            },
            Token::PrefixOperator(operator) => {
                proof {
                    self.lemma_representable();
                    let placed = self@.put_default_level_or_leading_space();
                    let next = self@.prefix_operator(operator@);
                    if self.awaiting_new_level {
                        assert(next.levels[next.levels.len() - 2] == placed.levels.last());
                    }
                }
                self.put_default_level_or_leading_space();
                self.output.append(operator);
                self.x = self.x + operator.len();
                self.preceded_by_expression = false;
                self.awaiting_new_level = false;
                if self.operator_pending() {
                    self.pop_level();
                }
                self.push_level(self.x, true);
                assert(self@ =~= old(self)@.prefix_operator(operator@));
            },
            Token::NewLine => {
                if !(self.output.as_str().is_empty() || ends_with_blank_line(&self.output)) {
                    self.output.push('\n');
                    self.preceded_by_expression = false;
                    self.awaiting_new_level = false;
                }
                assert(self@ =~= old(self)@.newline());
            },
            Token::Comment(comment) => {
                proof {
                    self.lemma_representable();
                    let placed = self@.put_default_level_or_leading_space();
                    assert(self@.comment(comment@).levels == placed.levels);
                }
                self.put_default_level_or_leading_space();
                if self.awaiting_new_level {
                    self.output.push(' ');
                }
                self.output.append(comment);
                self.output.push('\n');
                self.preceded_by_expression = false;
                self.awaiting_new_level = false;
                assert(self@ =~= old(self)@.comment(comment@));
            },
        }
        Ok(())
    }
}

} // verus!
