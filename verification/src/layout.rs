//! The layout rules as mathematics: the state of one formatting pass and
//! what each token does to it.

use crate::text::{spaces, without_trailing_newlines};
use crate::token::TokenView;
use std::fmt::Error;
use vstd::prelude::*;
use vstd::utf8::{encode_utf8, is_ascii_chars, is_ascii_chars_encode_utf8};

verus! {

/// The column that the continuation lines of one open form are indented to.
pub struct Level {
    /// The column.
    pub column: nat,
    /// Whether a prefix operator introduced the entry. Such an entry lasts
    /// for the one form that follows the operator.
    pub from_operator: bool,
}

/// The state of a formatting pass.
#[verifier::ext_equal]
pub struct Layout {
    /// The text written so far.
    pub output: Seq<char>,
    /// The current column.
    pub x: nat,
    /// The levels of the open lists whose indentation is known, innermost last.
    pub levels: Seq<Level>,
    /// Whether a list was just opened and its indentation is not known yet.
    pub awaiting_new_level: bool,
    /// Whether the last thing written was an atom or the end of a list.
    pub preceded_by_expression: bool,
    /// The indentation of a list whose head is not a plain atom.
    pub default_indentation: nat,
}

/// The width of a prefix operator: the length of its text in bytes.
pub open spec fn byte_length(text: Seq<char>) -> nat {
    encode_utf8(text).len()
}

/// The width of an operator of ASCII characters is the number of its
/// characters.
pub proof fn lemma_ascii_byte_length(text: Seq<char>)
    requires
        is_ascii_chars(text),
    ensures
        byte_length(text) == text.len(),
{
    is_ascii_chars_encode_utf8(text);
}

impl Layout {
    /// The state before the first token.
    pub open spec fn new(default_indentation: nat) -> Layout {
        Layout {
            output: Seq::empty(),
            x: 0,
            levels: Seq::empty(),
            awaiting_new_level: false,
            preceded_by_expression: false,
            default_indentation,
        }
    }

    /// What holds of every state that a pass goes through: while a list
    /// waits for its head, the last character written is its opening
    /// parenthesis, which the column has gone past.
    pub open spec fn wf(self) -> bool {
        self.awaiting_new_level ==> {
            &&& !self.preceded_by_expression
            &&& self.x >= 1
            &&& self.output.len() > 0
            &&& self.output.last() == '('
        }
    }

    /// Whether every column of the state fits in a `usize`.
    pub open spec fn representable(self) -> bool {
        &&& self.x <= usize::MAX
        &&& self.default_indentation <= usize::MAX
        &&& forall|i: int| 0 <= i < self.levels.len() ==> (#[trigger] self.levels[i]).column <= usize::MAX
    }

    /// Whether the text so far ends in a line break.
    pub open spec fn at_line_start(self) -> bool {
        self.output.len() > 0 && self.output.last() == '\n'
    }

    /// Whether the text so far ends in a blank line.
    pub open spec fn after_blank_line(self) -> bool {
        &&& self.output.len() >= 2
        &&& self.output[self.output.len() - 1] == '\n'
        &&& self.output[self.output.len() - 2] == '\n'
    }

    /// The column a new line starts at: the innermost level, or 0 outside
    /// every list.
    pub open spec fn indentation(self) -> nat {
        if self.levels.len() > 0 {
            self.levels.last().column
        } else {
            0
        }
    }

    /// The column of the parenthesis that was just written.
    pub open spec fn paren_column(self) -> nat {
        if self.x >= 1 {
            (self.x - 1) as nat
        } else {
            0
        }
    }

    /// Whether the innermost entry comes from a prefix operator.
    pub open spec fn operator_pending(self) -> bool {
        self.levels.len() > 0 && self.levels.last().from_operator
    }

    /// The state with one more entry.
    pub open spec fn push_level(self, column: nat, from_operator: bool) -> Layout {
        Layout { levels: self.levels.push(Level { column, from_operator }), ..self }
    }

    /// The state without its innermost entry; the same state if there is none.
    pub open spec fn pop_level(self) -> Layout {
        if self.levels.len() > 0 {
            Layout { levels: self.levels.drop_last(), ..self }
        } else {
            self
        }
    }

    /// The state without the entry of a pending prefix operator.
    pub open spec fn pop_operator(self) -> Layout {
        if self.operator_pending() {
            self.pop_level()
        } else {
            self
        }
    }

    /// The leading-space rule. At the start of a line the indentation is
    /// written and the column set to it; elsewhere one space separates the
    /// next token from an expression before it.
    pub open spec fn leading_space(self) -> Layout {
        if self.at_line_start() {
            Layout {
                output: self.output + spaces(self.indentation()),
                x: self.indentation(),
                ..self
            }
        } else if self.preceded_by_expression {
            Layout { output: self.output.push(' '), x: self.x + 1, ..self }
        } else {
            self
        }
    }

    /// What precedes a token that is not a plain atom. As the head of a list
    /// it fixes the list's level at the default indentation from the
    /// parenthesis; anywhere else the leading-space rule applies.
    pub open spec fn put_default_level_or_leading_space(self) -> Layout {
        if self.awaiting_new_level {
            self.push_level(self.paren_column() + self.default_indentation, false)
        } else {
            self.leading_space()
        }
    }

    /// The level that an atom gives the list it heads: its custom
    /// indentation from the parenthesis, or else the column at which a
    /// second element would stand on the same line.
    pub open spec fn head_level(self, width: nat, custom_indentation: Option<nat>) -> nat {
        match custom_indentation {
            Some(indentation) => self.paren_column() + indentation,
            None => self.x + width + 1,
        }
    }

    /// An atom of the given width, hint and text.
    pub open spec fn atom(
        self,
        width: nat,
        custom_indentation: Option<nat>,
        text: Seq<char>,
    ) -> Layout {
        let placed = if self.awaiting_new_level {
            self.push_level(self.head_level(width, custom_indentation), false)
        } else {
            self.leading_space()
        };
        Layout {
            output: placed.output + text,
            x: placed.x + width,
            preceded_by_expression: true,
            awaiting_new_level: false,
            ..placed
        }.pop_operator()
    }

    /// An opening parenthesis.
    pub open spec fn lparen(self) -> Layout {
        let placed = self.put_default_level_or_leading_space();
        Layout {
            output: placed.output.push('('),
            x: placed.x + 1,
            preceded_by_expression: false,
            awaiting_new_level: true,
            ..placed
        }
    }

    /// A closing parenthesis. It takes the place of the line breaks at the
    /// end of the text. A list that had a head gives up its level, and
    /// before it the entry of a prefix operator that was still pending.
    pub open spec fn rparen(self) -> Layout {
        let closed = Layout {
            output: without_trailing_newlines(self.output).push(')'),
            x: self.x + 1,
            preceded_by_expression: true,
            awaiting_new_level: false,
            ..self
        };
        if self.awaiting_new_level {
            closed
        } else {
            closed.pop_operator().pop_level()
        }
    }

    /// A prefix operator. Its entry is the column after it; an operator
    /// that follows another takes over the entry of the first.
    pub open spec fn prefix_operator(self, operator: Seq<char>) -> Layout {
        let placed = self.put_default_level_or_leading_space();
        let x = placed.x + byte_length(operator);
        let written = Layout {
            output: placed.output + operator,
            x,
            preceded_by_expression: false,
            awaiting_new_level: false,
            ..placed
        };
        if placed.operator_pending() {
            written.pop_level().push_level(x, true)
        } else {
            written.push_level(x, true)
        }
    }

    /// An explicit line break. It is dropped at the start of the text and
    /// after a blank line.
    pub open spec fn newline(self) -> Layout {
        if self.output.len() == 0 || self.after_blank_line() {
            self
        } else {
            Layout {
                output: self.output.push('\n'),
                preceded_by_expression: false,
                awaiting_new_level: false,
                ..self
            }
        }
    }

    /// A line comment. One more space parts it from the parenthesis of a
    /// list that it heads, and a line break follows it.
    pub open spec fn comment(self, comment: Seq<char>) -> Layout {
        let placed = self.put_default_level_or_leading_space();
        let gap = if self.awaiting_new_level {
            seq![' ']
        } else {
            Seq::empty()
        };
        Layout {
            output: (placed.output + gap + comment).push('\n'),
            preceded_by_expression: false,
            awaiting_new_level: false,
            ..placed
        }
    }

    /// The state after one more token, or the error of an atom that cannot
    /// be rendered.
    pub open spec fn step(self, token: TokenView) -> Result<Layout, Error> {
        match token {
            TokenView::Atom(atom) => match atom.text {
                Ok(text) => Ok(self.atom(atom.width, atom.custom_indentation, text)),
                Err(error) => Err(error),
            },
            TokenView::LParen => Ok(self.lparen()),
            TokenView::RParen => Ok(self.rparen()),
            TokenView::PrefixOperator(operator) => Ok(self.prefix_operator(operator)),
            TokenView::NewLine => Ok(self.newline()),
            TokenView::Comment(comment) => Ok(self.comment(comment)),
        }
    }
}

} // verus!
