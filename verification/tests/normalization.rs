use lispfmt::{Atom, AtomModel, Token};
use std::fmt::Error;

#[derive(Clone, Copy, PartialEq, Eq)]
struct Word(&'static str);

impl Atom for Word {
    fn model(&self) -> AtomModel {
        unreachable!()
    }

    fn width(&self) -> usize {
        self.0.len()
    }

    fn custom_indentation(&self) -> Option<usize> {
        None
    }

    fn render(&self) -> Result<String, Error> {
        Ok(self.0.to_string())
    }
}

fn word(name: &'static str) -> Token<'static, Word> {
    Token::Atom(Word(name))
}

fn text(tokens: Vec<Token<'static, Word>>) -> String {
    lispfmt::format(&mut tokens.into_iter(), 2).unwrap()
}

#[test]
fn empty_stream_gives_one_line_break() {
    assert_eq!(text(vec![]), "\n");
}

#[test]
fn line_breaks_alone_give_one_line_break() {
    assert_eq!(text(vec![Token::NewLine]), "\n");
    assert_eq!(text(vec![Token::NewLine, Token::NewLine, Token::NewLine]), "\n");
}

#[test]
fn comment_at_the_end_is_followed_by_one_line_break() {
    assert_eq!(text(vec![word("a"), Token::Comment("; c")]), "a ; c\n");
    assert_eq!(text(vec![word("a"), Token::Comment("; c"), Token::NewLine]), "a ; c\n");
}

#[test]
fn empty_comment_behind_a_blank_line_leaves_one_line_break() {
    let tokens = vec![word("a"), Token::NewLine, Token::NewLine, Token::Comment("")];
    assert_eq!(text(tokens), "a\n");
}

#[test]
fn atoms_are_separated_by_single_spaces() {
    assert_eq!(text(vec![word("a"), word("b"), word("c")]), "a b c\n");
}

#[test]
fn flat_stream_keeps_line_breaks_and_one_blank_line() {
    let tokens = vec![
        word("x"),
        word("y"),
        Token::NewLine,
        word("z"),
        Token::NewLine,
        Token::NewLine,
        Token::NewLine,
        word("w"),
        Token::NewLine,
    ];
    assert_eq!(text(tokens), "x y\nz\n\nw\n");
}

#[test]
fn leading_line_breaks_are_dropped() {
    assert_eq!(text(vec![Token::NewLine, Token::NewLine, word("x")]), "x\n");
}

#[test]
fn trailing_line_breaks_become_one() {
    assert_eq!(text(vec![word("x"), Token::NewLine, Token::NewLine, Token::NewLine]), "x\n");
    assert_eq!(text(vec![word("x"), Token::NewLine]), "x\n");
    assert_eq!(text(vec![word("x")]), "x\n");
}

#[test]
fn empty_list_is_a_pair_of_parentheses() {
    assert_eq!(text(vec![Token::LParen, Token::RParen]), "()\n");
}

#[test]
fn empty_list_ignores_surrounding_line_breaks() {
    let tokens = vec![
        Token::NewLine,
        Token::LParen,
        Token::NewLine,
        Token::NewLine,
        Token::RParen,
        Token::NewLine,
        Token::NewLine,
    ];
    assert_eq!(text(tokens), "()\n");
}

#[test]
fn empty_list_inside_a_list() {
    let tokens = vec![
        Token::LParen,
        word("f"),
        Token::LParen,
        Token::NewLine,
        Token::RParen,
        Token::NewLine,
        word("x"),
        Token::RParen,
    ];
    assert_eq!(text(tokens), "(f ()\n   x)\n");
}

#[test]
fn list_never_opens_with_a_line_break() {
    let tokens = vec![Token::LParen, Token::NewLine, Token::NewLine, word("a"), Token::RParen];
    assert_eq!(text(tokens), "(a)\n");
}

#[test]
fn closing_parenthesis_takes_up_line_breaks() {
    let tokens = vec![
        Token::LParen,
        word("a"),
        Token::NewLine,
        word("b"),
        Token::NewLine,
        Token::NewLine,
        Token::RParen,
    ];
    assert_eq!(text(tokens), "(a\n   b)\n");
}

#[test]
fn closing_parentheses_gather_on_one_line() {
    let tokens = vec![
        Token::LParen,
        word("a"),
        Token::LParen,
        word("b"),
        Token::NewLine,
        Token::RParen,
        Token::NewLine,
        Token::RParen,
    ];
    assert_eq!(text(tokens), "(a (b))\n");
}

#[test]
fn excess_closing_parentheses_are_written() {
    assert_eq!(text(vec![Token::RParen, Token::RParen, word("a")]), ")) a\n");
    assert_eq!(text(vec![word("a"), Token::RParen, Token::NewLine, word("b")]), "a)\nb\n");
}

#[test]
fn excess_closing_parenthesis_leaves_later_lists_alone() {
    let tokens = vec![
        Token::LParen,
        word("a"),
        Token::RParen,
        Token::RParen,
        Token::NewLine,
        Token::LParen,
        word("foo"),
        Token::NewLine,
        word("bar"),
        Token::RParen,
    ];
    assert_eq!(text(tokens), "(a))\n(foo\n     bar)\n");
}

#[test]
fn unclosed_list_still_gives_text() {
    let tokens = vec![Token::LParen, word("a"), Token::NewLine, word("b")];
    assert_eq!(text(tokens), "(a\n   b\n");
}

#[test]
fn formatting_the_formatted_text_again_changes_nothing() {
    let first = vec![
        Token::NewLine,
        Token::LParen,
        Token::NewLine,
        word("foo"),
        Token::NewLine,
        Token::NewLine,
        Token::NewLine,
        word("bar"),
        Token::NewLine,
        Token::RParen,
        Token::NewLine,
        Token::NewLine,
    ];
    let once = text(first);
    assert_eq!(once, "(foo\n\n     bar)\n");
    let read_back = vec![
        Token::LParen,
        word("foo"),
        Token::NewLine,
        Token::NewLine,
        word("bar"),
        Token::RParen,
        Token::NewLine,
    ];
    assert_eq!(text(read_back), once);
}

#[test]
fn reading_back_keeps_a_blank_line_and_drops_the_rest() {
    let first = vec![
        word("a"),
        Token::NewLine,
        Token::NewLine,
        Token::NewLine,
        Token::LParen,
        Token::NewLine,
        word("b"),
        Token::NewLine,
        Token::RParen,
        Token::NewLine,
    ];
    let once = text(first);
    assert_eq!(once, "a\n\n(b)\n");
    let read_back = vec![
        word("a"),
        Token::NewLine,
        Token::NewLine,
        Token::LParen,
        word("b"),
        Token::RParen,
        Token::NewLine,
    ];
    assert_eq!(text(read_back), once);
}

#[test]
fn reading_back_an_unclosed_list() {
    let once = text(vec![word("a"), Token::LParen]);
    assert_eq!(once, "a (\n");
    assert_eq!(text(vec![word("a"), Token::LParen, Token::NewLine]), once);
}

#[test]
fn reading_back_the_empty_text() {
    let once = text(vec![]);
    assert_eq!(text(vec![Token::NewLine]), once);
}
