//! A pretty-printer for Lisp-like syntax: it takes a stream of tokens and
//! returns them as canonically indented text.

pub mod atom;
pub mod flat;
mod formatter;
pub mod laws;
pub mod layout;
pub mod limits;
pub mod stable;
pub mod stream;
pub mod text;
pub mod token;

pub use crate::atom::{Atom, AtomModel};
pub use crate::token::{Token, TokenView};

use crate::formatter::Formatter;
use crate::laws::{ends_in_one_line_break, formatted_text_ends_in_one_line_break};
use crate::layout::Layout;
use crate::stream::{
    consumed, follows_open, formatted, lemma_failure_is_final, lemma_formatted_result,
    lemma_rendered_prefix, lemma_run_push, lemma_significant_push, rendered_prefix, renders, run,
    significant, within_limits,
};
use crate::text::strip_trailing_newlines;
use crate::token::views;
use std::fmt::Error;
use vstd::prelude::*;
use vstd::std_specs::iter::IteratorSpec;

verus! {

/// Formats a [`Token`] stream, producing a [`String`].
///
/// Line breaks that directly follow an opening parenthesis are dropped.
/// Every other token is laid out as [`Layout::step`] says, and the text is
/// finished so that it ends in exactly one line break: a stream that writes
/// nothing gives one line break.
///
/// The stream has to end, and every column that the layout computes has to
/// fit in a `usize`; a stream whose
/// [`total_cost`](crate::limits::total_cost) does is such a stream, by
/// [`lemma_cost_within_limits`](crate::limits::lemma_cost_within_limits).
///
/// # Errors
///
/// This function returns an error if it fails to render any of the
/// [`Atom`]s: the error of the first such atom, behind which it stops
/// reading the stream.
pub fn format<'src, A: Atom>(
    tokens: &mut impl Iterator<Item = Token<'src, A>>,
    default_indentation: usize,
) -> (result: Result<String, Error>)
    requires
        (*old(tokens)).obeys_prophetic_iter_laws(),
        (*old(tokens)).decrease() is Some,
        within_limits(views((*old(tokens)).remaining()), default_indentation as nat),
    ensures
        match result {
            Ok(text) => formatted(views((*old(tokens)).remaining()), default_indentation as nat)
                == Ok::<Seq<char>, Error>(text@),
            Err(error) => formatted(
                views((*old(tokens)).remaining()),
                default_indentation as nat,
            ) == Err::<Seq<char>, Error>(error),
        },
        result matches Ok(text) ==> ends_in_one_line_break(text@),
        result is Ok <==> forall|j: int|
            0 <= j < (*old(tokens)).remaining().len() ==> renders(
                #[trigger] views((*old(tokens)).remaining())[j],
            ),
        result matches Err(error) ==> {
            let failed = rendered_prefix(views((*old(tokens)).remaining())) as int;
            &&& failed < (*old(tokens)).remaining().len()
            &&& views((*old(tokens)).remaining())[failed] matches TokenView::Atom(atom)
            &&& atom.text == Err::<Seq<char>, Error>(error)
        },
        (*final(tokens)).remaining() == (*old(tokens)).remaining().skip(
            consumed(views((*old(tokens)).remaining())) as int,
        ),
{
    let mut formatter = Formatter::new(default_indentation);
    let ghost all = (*tokens).remaining();
    let ghost start = Layout::new(default_indentation as nat);
    let ghost mut taken: int = 0;
    let mut after_open = false;
    proof {
        lemma_formatted_result(views(all), default_indentation as nat);
        formatted_text_ends_in_one_line_break(views(all), default_indentation as nat);
    }
    loop
        invariant
            (*tokens).obeys_prophetic_iter_laws(),
            (*tokens).decrease() is Some,
            all == (*old(tokens)).remaining(),
            0 <= taken <= all.len(),
            (*tokens).remaining() == all.skip(taken),
            formatter.wf(),
            run(start, significant(views(all).take(taken))) == Ok::<Layout, Error>(formatter@),
            after_open == follows_open(views(all).take(taken)),
            within_limits(views(all), default_indentation as nat),
            start == Layout::new(default_indentation as nat),
            forall|j: int| 0 <= j < taken ==> renders(#[trigger] views(all)[j]),
        ensures
            taken == all.len(),
            (*tokens).remaining().len() == 0,
            run(start, significant(views(all))) == Ok::<Layout, Error>(formatter@),
            forall|j: int| 0 <= j < all.len() ==> renders(#[trigger] views(all)[j]),
        decreases (*tokens).decrease()->0,
    {
        let token = match tokens.next() {
            Some(token) => token,
            None => {
                assert(views(all).take(taken) =~= views(all));
                break ;
            },
        };
        let ghost seen = views(all).take(taken);
        proof {
            assert(token == all[taken]);
            assert(all.skip(taken).drop_first() =~= all.skip(taken + 1));
            assert(views(all).take(taken + 1) =~= seen.push(token@));
            lemma_significant_push(seen, token@);
            lemma_run_push(start, significant(seen), token@);
        }
        let is_newline = matches!(token, Token::NewLine);
        if !(after_open && is_newline) {
            after_open = matches!(token, Token::LParen);
            match formatter.token(token) {
                Ok(()) => {},
                Err(error) => {
                    proof {
                        lemma_failure_is_final(start, views(all), taken + 1);
                        lemma_rendered_prefix(views(all), taken);
                    }
                    return Err(error);
                },
            }
        }
        proof {
            taken = taken + 1;
        }
    }
    proof {
        lemma_rendered_prefix(views(all), all.len() as int);
    }
    let mut output = formatter.into_output();
    strip_trailing_newlines(&mut output);
    output.push('\n');
    Ok(output)
}

} // verus!
