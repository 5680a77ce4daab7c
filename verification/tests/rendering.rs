use lispfmt::{Atom, AtomModel, Token};
use std::fmt::Error;

#[derive(Clone, Copy, PartialEq, Eq)]
struct Fallible {
    name: &'static str,
    fails: bool,
}

impl Atom for Fallible {
    fn model(&self) -> AtomModel {
        unreachable!()
    }

    fn width(&self) -> usize {
        self.name.len()
    }

    fn custom_indentation(&self) -> Option<usize> {
        None
    }

    fn render(&self) -> Result<String, Error> {
        if self.fails {
            Err(Error)
        } else {
            Ok(self.name.to_string())
        }
    }
}

fn good(name: &'static str) -> Token<'static, Fallible> {
    Token::Atom(Fallible { name, fails: false })
}

fn bad(name: &'static str) -> Token<'static, Fallible> {
    Token::Atom(Fallible { name, fails: true })
}

#[test]
fn every_atom_rendered_gives_the_text() {
    let tokens = vec![Token::LParen, good("a"), good("b"), Token::RParen];
    assert_eq!(lispfmt::format(&mut tokens.into_iter(), 2), Ok("(a b)\n".to_string()));
}

#[test]
fn atom_that_cannot_be_rendered_gives_its_error() {
    let tokens = vec![Token::LParen, good("a"), bad("b"), Token::RParen];
    assert_eq!(lispfmt::format(&mut tokens.into_iter(), 2), Err(Error));
}

#[test]
fn failing_head_of_a_list_gives_its_error() {
    let tokens = vec![Token::LParen, bad("a"), Token::RParen];
    assert_eq!(lispfmt::format(&mut tokens.into_iter(), 2), Err(Error));
}

#[test]
fn error_stops_the_reading_of_the_stream() {
    let tokens = vec![good("a"), bad("b"), good("c"), Token::NewLine, good("d")];
    let mut stream = tokens.into_iter();
    assert!(lispfmt::format(&mut stream, 2).is_err());
    assert_eq!(stream.len(), 3);
    assert!(matches!(stream.next(), Some(Token::Atom(Fallible { name: "c", fails: false }))));
}

#[test]
fn success_reads_the_whole_stream() {
    let tokens = vec![Token::LParen, Token::NewLine, good("a"), Token::RParen];
    let mut stream = tokens.into_iter();
    assert_eq!(lispfmt::format(&mut stream, 2), Ok("(a)\n".to_string()));
    assert_eq!(stream.len(), 0);
}

#[test]
fn tokens_compare_by_value() {
    assert!(good("a") == good("a"));
    assert!(good("a") != bad("a"));
    assert!(Token::<Fallible>::LParen != Token::RParen);
    assert!(Token::<Fallible>::Comment("; a") == Token::Comment("; a"));
    let copy = good("a");
    let same = copy;
    assert!(copy == same);
}
