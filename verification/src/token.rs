//! The lexical units the formatter consumes.

use crate::atom::{Atom, AtomModel};
use vstd::prelude::*;

verus! {

/// The smallest unit of Lisp syntax.
#[derive(Clone, Copy, PartialEq, Eq)]
pub enum Token<'src, A: Atom> {
    /// An [`Atom`].
    Atom(A),
    /// An opening parenthesis.
    LParen,
    /// A closing parenthesis.
    RParen,
    /// A prefix operator, usually for quoting or unquoting. The width of this
    /// must equal the number of bytes, which is true for all printable ASCII
    /// characters.
    PrefixOperator(&'src str),
    /// An explicit line break.
    NewLine,
    /// A line comment with an implicit line break after it. Embedded line
    /// breaks are not allowed.
    Comment(&'src str),
}

/// A token as plain values: what the layout rules read from a [`Token`].
pub enum TokenView {
    /// A leaf value, described by its [`AtomModel`].
    Atom(AtomModel),
    /// An opening parenthesis.
    LParen,
    /// A closing parenthesis.
    RParen,
    /// A prefix operator and its text.
    PrefixOperator(Seq<char>),
    /// An explicit line break.
    NewLine,
    /// A line comment and its text.
    Comment(Seq<char>),
}

impl<'src, A: Atom> View for Token<'src, A> {
    type V = TokenView;

    open spec fn view(&self) -> TokenView {
        match *self {
            Token::Atom(atom) => TokenView::Atom(atom.model()),
            Token::LParen => TokenView::LParen,
            Token::RParen => TokenView::RParen,
            Token::PrefixOperator(operator) => TokenView::PrefixOperator(operator@),
            Token::NewLine => TokenView::NewLine,
            Token::Comment(comment) => TokenView::Comment(comment@),
        }
    }
}

/// The views of a sequence of tokens, in order.
pub open spec fn views<'src, A: Atom>(tokens: Seq<Token<'src, A>>) -> Seq<TokenView> {
    Seq::new(tokens.len(), |i: int| tokens[i]@)
}

} // verus!
