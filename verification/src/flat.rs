//! Streams without lists: atoms and line breaks only.

use crate::layout::Layout;
use crate::stream::{
    follows_open, formatted, lemma_run_first, lemma_significant_push, normalized, run, significant,
};
use crate::text::{breaks, lemma_without_trailing_breaks, spaces};
use crate::token::TokenView;
use std::fmt::Error;
use vstd::prelude::*;

verus! {

/// Whether a stream holds atoms and line breaks only.
pub open spec fn is_flat(tokens: Seq<TokenView>) -> bool {
    forall|i: int|
        0 <= i < tokens.len() ==> (#[trigger] tokens[i]) is Atom || tokens[i] is NewLine
}

/// Whether a text is not empty and holds no line break.
pub open spec fn printable(text: Seq<char>) -> bool {
    text.len() > 0 && !text.contains('\n')
}

/// Whether every atom of the stream can be rendered, to a printable text.
pub open spec fn atoms_printable(tokens: Seq<TokenView>) -> bool {
    forall|i: int|
        0 <= i < tokens.len() ==> ((#[trigger] tokens[i]) matches TokenView::Atom(atom)
            ==> atom.text is Ok && printable(atom.text->Ok_0))
}

/// What stands between two atoms with `requested` line breaks between
/// them: one space, or the line breaks, of which no more than two are kept.
pub open spec fn separator(requested: nat) -> Seq<char> {
    if requested == 0 {
        seq![' ']
    } else if requested == 1 {
        breaks(1)
    } else {
        breaks(2)
    }
}

/// The text of a flat stream. `pending` is the number of line breaks since
/// the last atom, and `None` before the first atom: none is written there.
/// One line break ends the text, also where the stream holds no atom.
pub open spec fn joined(tokens: Seq<TokenView>, pending: Option<nat>) -> Seq<char>
    decreases tokens.len(),
{
    if tokens.len() == 0 {
        breaks(1)
    } else {
        match tokens.first() {
            TokenView::Atom(atom) => {
                let before = match pending {
                    Some(requested) => separator(requested),
                    None => Seq::empty(),
                };
                before + atom.text->Ok_0 + joined(tokens.drop_first(), Some(0))
            },
            _ => joined(
                tokens.drop_first(),
                match pending {
                    Some(requested) => Some(requested + 1),
                    None => None,
                },
            ),
        }
    }
}

/// A state in the middle of a flat stream: `base` is its text up to the
/// last atom, behind which stand the line breaks that are pending.
pub open spec fn flat_state(layout: Layout, base: Seq<char>, pending: Option<nat>) -> bool {
    &&& layout.levels.len() == 0
    &&& !layout.awaiting_new_level
    &&& match pending {
        None => layout.output.len() == 0 && base.len() == 0 && !layout.preceded_by_expression,
        Some(requested) => {
            &&& base.len() > 0
            &&& base.last() != '\n'
            &&& layout.output == base + if requested <= 2 {
                breaks(requested)
            } else {
                breaks(2)
            }
            &&& layout.preceded_by_expression == (requested == 0)
        },
    }
}

/// No token of a flat stream is dropped.
pub proof fn lemma_flat_is_significant(tokens: Seq<TokenView>)
    requires
        is_flat(tokens),
    ensures
        significant(tokens) == tokens,
        !follows_open(tokens),
    decreases tokens.len(),
{
    if tokens.len() > 0 {
        let earlier = tokens.drop_last();
        assert forall|i: int| 0 <= i < earlier.len() implies (#[trigger] earlier[i]) is Atom
            || earlier[i] is NewLine by {
            assert(earlier[i] == tokens[i]);
        }
        lemma_flat_is_significant(earlier);
        assert(earlier.push(tokens.last()) =~= tokens);
        lemma_significant_push(earlier, tokens.last());
    } else {
        assert(significant(tokens) =~= tokens);
    }
}

/// The rest of a flat stream finishes the text as `joined` says.
pub proof fn lemma_flat_rest(
    layout: Layout,
    base: Seq<char>,
    pending: Option<nat>,
    tokens: Seq<TokenView>,
)
    requires
        flat_state(layout, base, pending),
        is_flat(tokens),
        atoms_printable(tokens),
    ensures
        run(layout, tokens) matches Ok(end) && normalized(end.output) == base + joined(
            tokens,
            pending,
        ),
    decreases tokens.len(),
{
    if tokens.len() == 0 {
        match pending {
            None => {
                assert(layout.output =~= base + breaks(0));
                lemma_without_trailing_breaks(base, 0);
            },
            Some(requested) => {
                lemma_without_trailing_breaks(
                    base,
                    if requested <= 2 {
                        requested
                    } else {
                        2
                    },
                );
            },
        }
        assert(base.push('\n') =~= base + breaks(1));
    } else {
        let rest = tokens.drop_first();
        assert forall|i: int| 0 <= i < rest.len() implies (#[trigger] rest[i]) is Atom
            || rest[i] is NewLine by {
            assert(rest[i] == tokens[i + 1]);
        }
        assert forall|i: int| 0 <= i < rest.len() implies ((#[trigger] rest[i]) matches TokenView::Atom(
            atom,
        ) ==> atom.text is Ok && printable(atom.text->Ok_0)) by {
            assert(rest[i] == tokens[i + 1]);
        }
        lemma_run_first(layout, tokens);
        let first = tokens[0];
        match first {
            TokenView::Atom(atom) => {
                let text = atom.text->Ok_0;
                assert(text.contains(text.last()));
                let next = layout.atom(atom.width, atom.custom_indentation, text);
                let before = match pending {
                    Some(requested) => separator(requested),
                    None => Seq::<char>::empty(),
                };
                let grown = base + before + text;
                assert(spaces(0) =~= Seq::<char>::empty());
                assert(next.output =~= grown) by {
                    match pending {
                        None => {},
                        Some(requested) => {
                            if requested == 0 {
                                assert(layout.output =~= base);
                            } else {
                                assert(layout.output.last() == '\n');
                            }
                        },
                    }
                }
                assert(grown.last() == text.last());
                assert(grown + breaks(0) =~= grown);
                assert(next.levels =~= layout.levels);
                lemma_flat_rest(next, grown, Some(0), rest);
                assert(base + joined(tokens, pending) =~= grown + joined(rest, Some(0)));
            },
            _ => {
                let next = layout.newline();
                match pending {
                    None => {
                        lemma_flat_rest(next, base, None, rest);
                    },
                    Some(requested) => {
                        if requested == 0 {
                            assert(layout.output =~= base);
                            assert(next.output =~= base + breaks(1));
                        } else if requested == 1 {
                            assert(layout.output[layout.output.len() - 2] == base.last());
                            assert(next.output =~= base + breaks(2));
                        } else {
                            assert(layout.output[layout.output.len() - 2] == '\n');
                            assert(layout.after_blank_line());
                        }
                        lemma_flat_rest(next, base, Some(requested + 1), rest);
                    },
                }
            },
        }
    }
}

/// A stream of atoms and line breaks gives the atoms in order, separated
/// by single spaces where no line break was asked for, and else by the
/// line breaks, of which at most two in a row are kept. No line break
/// stands before the first atom, and exactly one ends the text.
pub proof fn flat_stream_is_joined(tokens: Seq<TokenView>, default_indentation: nat)
    requires
        is_flat(tokens),
        atoms_printable(tokens),
    ensures
        formatted(tokens, default_indentation) == Ok::<Seq<char>, Error>(joined(tokens, None)),
{
    lemma_flat_is_significant(tokens);
    lemma_flat_rest(Layout::new(default_indentation), Seq::empty(), None, tokens);
    assert(Seq::<char>::empty() + joined(tokens, None) =~= joined(tokens, None));
}

} // verus!
