use lispfmt::{Atom, AtomModel, Token};
use std::fmt::Error;

#[derive(Clone, Copy, PartialEq, Eq)]
struct Symbol {
    name: &'static str,
    width: usize,
    indentation: Option<usize>,
}

impl Atom for Symbol {
    fn model(&self) -> AtomModel {
        unreachable!()
    }

    fn width(&self) -> usize {
        self.width
    }

    fn custom_indentation(&self) -> Option<usize> {
        self.indentation
    }

    fn render(&self) -> Result<String, Error> {
        Ok(self.name.to_string())
    }
}

type Tokens = Vec<Token<'static, Symbol>>;

fn atom(name: &'static str) -> Token<'static, Symbol> {
    Token::Atom(Symbol { name, width: name.len(), indentation: None })
}

fn special(name: &'static str, indentation: usize) -> Token<'static, Symbol> {
    Token::Atom(Symbol { name, width: name.len(), indentation: Some(indentation) })
}

fn wide(name: &'static str, width: usize) -> Token<'static, Symbol> {
    Token::Atom(Symbol { name, width, indentation: None })
}

fn text(tokens: Tokens, default_indentation: usize) -> String {
    lispfmt::format(&mut tokens.into_iter(), default_indentation).unwrap()
}

#[test]
fn continuation_aligns_under_first_argument() {
    let tokens = vec![Token::LParen, atom("foo"), Token::NewLine, atom("bar"), Token::RParen];
    assert_eq!(text(tokens, 2), "(foo\n     bar)\n");
}

#[test]
fn continuation_counts_from_the_column_of_the_list() {
    let tokens = vec![
        atom("ab"),
        Token::LParen,
        atom("foo"),
        Token::NewLine,
        atom("bar"),
        Token::RParen,
    ];
    assert_eq!(text(tokens, 2), "ab (foo\n        bar)\n");
}

#[test]
fn continuation_uses_the_width_not_the_text() {
    let tokens = vec![Token::LParen, wide("ab", 5), Token::NewLine, atom("x"), Token::RParen];
    assert_eq!(text(tokens, 2), "(ab\n       x)\n");
}

#[test]
fn custom_indentation_counts_from_the_parenthesis() {
    let tokens = vec![Token::LParen, special("let", 2), Token::NewLine, atom("x"), Token::RParen];
    assert_eq!(text(tokens, 4), "(let\n  x)\n");
}

#[test]
fn custom_indentation_inside_a_line() {
    let tokens = vec![
        atom("a"),
        Token::LParen,
        special("let", 2),
        Token::NewLine,
        atom("x"),
        Token::RParen,
    ];
    assert_eq!(text(tokens, 4), "a (let\n    x)\n");
}

#[test]
fn custom_indentation_of_zero() {
    let tokens = vec![Token::LParen, special("do", 0), Token::NewLine, atom("x"), Token::RParen];
    assert_eq!(text(tokens, 2), "(do\nx)\n");
}

#[test]
fn list_as_head_takes_the_default_indentation() {
    let tokens = vec![
        Token::LParen,
        Token::LParen,
        atom("a"),
        Token::RParen,
        Token::NewLine,
        atom("b"),
        Token::RParen,
    ];
    assert_eq!(text(tokens.clone(), 2), "((a)\n  b)\n");
    assert_eq!(text(tokens, 4), "((a)\n    b)\n");
}

#[test]
fn inner_list_closes_back_to_the_outer_level() {
    let tokens = vec![
        Token::LParen,
        atom("f"),
        Token::LParen,
        atom("g"),
        Token::NewLine,
        atom("x"),
        Token::RParen,
        Token::NewLine,
        atom("y"),
        Token::RParen,
    ];
    assert_eq!(text(tokens, 2), "(f (g\n      x)\n   y)\n");
}

#[test]
fn top_level_comment_and_continuation() {
    let tokens = vec![atom("x"), Token::Comment("; hi"), atom("y")];
    assert_eq!(text(tokens, 2), "x ; hi\ny\n");
}

#[test]
fn top_level_lines_start_at_column_zero() {
    let tokens = vec![
        Token::LParen,
        atom("a"),
        Token::RParen,
        Token::NewLine,
        Token::LParen,
        atom("b"),
        Token::RParen,
        Token::NewLine,
        Token::PrefixOperator("'"),
        atom("c"),
    ];
    assert_eq!(text(tokens, 2), "(a)\n(b)\n'c\n");
}

#[test]
fn comment_as_head_is_parted_from_the_parenthesis() {
    let tokens = vec![Token::LParen, Token::Comment("; c"), atom("a"), Token::RParen];
    assert_eq!(text(tokens, 2), "( ; c\n  a)\n");
}

#[test]
fn comment_inside_a_list_breaks_the_line() {
    let tokens = vec![
        Token::LParen,
        atom("foo"),
        Token::Comment("; c"),
        atom("bar"),
        Token::RParen,
    ];
    assert_eq!(text(tokens, 2), "(foo ; c\n     bar)\n");
}

#[test]
fn prefix_operator_before_a_list() {
    let tokens = vec![
        Token::PrefixOperator("'"),
        Token::LParen,
        atom("a"),
        Token::NewLine,
        atom("b"),
        Token::RParen,
    ];
    assert_eq!(text(tokens, 2), "'(a\n    b)\n");
}

#[test]
fn prefix_operator_as_head_takes_the_default_indentation() {
    let tokens = vec![
        Token::LParen,
        Token::PrefixOperator("'"),
        atom("a"),
        Token::NewLine,
        atom("b"),
        Token::RParen,
    ];
    assert_eq!(text(tokens, 2), "('a\n  b)\n");
}

#[test]
fn prefix_operator_lasts_for_one_atom() {
    let tokens = vec![
        Token::PrefixOperator(",@"),
        atom("a"),
        Token::NewLine,
        atom("b"),
    ];
    assert_eq!(text(tokens, 2), ",@a\nb\n");
}

#[test]
fn consecutive_prefix_operators_share_one_level() {
    let tokens = vec![
        Token::LParen,
        atom("x"),
        Token::PrefixOperator(","),
        Token::PrefixOperator("@"),
        Token::LParen,
        atom("a"),
        Token::NewLine,
        atom("b"),
        Token::RParen,
        Token::NewLine,
        atom("c"),
        Token::RParen,
    ];
    assert_eq!(text(tokens, 2), "(x ,@(a\n        b)\n     c)\n");
}

#[test]
fn prefix_operator_is_separated_from_an_expression() {
    let tokens = vec![atom("a"), Token::PrefixOperator("'"), atom("b")];
    assert_eq!(text(tokens, 2), "a 'b\n");
}
