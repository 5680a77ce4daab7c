//! Formatting again what was formatted: the stream that a reader of the
//! formatted text finds is formatted to the same text.

use crate::flat::printable;
use crate::laws::newlines;
use crate::layout::Layout;
use crate::stream::{drive, formatted, lemma_formatted_is_driven, normalized};
use crate::text::{breaks, lemma_breaks_are_trailing, lemma_without_trailing_breaks, spaces};
use crate::token::TokenView;
use std::fmt::Error;
use vstd::prelude::*;

verus! {

/// Whether a token is no comment, and an atom or operator with a printable
/// text.
pub open spec fn is_plain(token: TokenView) -> bool {
    match token {
        TokenView::Atom(atom) => atom.text is Ok && printable(atom.text->Ok_0),
        TokenView::PrefixOperator(text) => printable(text),
        TokenView::Comment(_) => false,
        _ => true,
    }
}

/// One line break more, of which no more than two are kept.
pub open spec fn one_more(pending: nat) -> nat {
    if pending < 2 {
        pending + 1
    } else {
        2
    }
}

/// The stream as it is read back from the formatted text, from the middle
/// of the stream on. `pending` line breaks were asked for since the last
/// token that is none, of which the text keeps at most two; `quiet` says
/// that line breaks write nothing here, at the start of the stream and
/// behind an opening parenthesis.
pub open spec fn settle(tokens: Seq<TokenView>, pending: nat, quiet: bool) -> Seq<TokenView>
    decreases tokens.len(),
{
    if tokens.len() == 0 {
        seq![TokenView::NewLine]
    } else {
        let first = tokens.first();
        let rest = tokens.drop_first();
        match first {
            TokenView::NewLine => settle(
                rest,
                if quiet {
                    0
                } else {
                    one_more(pending)
                },
                quiet,
            ),
            TokenView::RParen => seq![first] + settle(rest, 0, false),
            _ => newlines(pending).push(first) + settle(rest, 0, first is LParen),
        }
    }
}

/// The stream as it is read back from the formatted text: the tokens that
/// are no line breaks, in their order, and one line break token for every
/// line break of the text, where it stands in the text. A line break that
/// the text does not show is gone: at the start, behind an opening
/// parenthesis, before a closing one, and the third in a row. One line
/// break ends the stream, as one ends the text.
pub open spec fn settled(tokens: Seq<TokenView>) -> Seq<TokenView> {
    settle(tokens, 0, true)
}

/// The state `anchor` with `pending` line breaks written behind it.
pub open spec fn broken(anchor: Layout, pending: nat) -> Layout {
    if pending == 0 {
        anchor
    } else {
        Layout {
            output: anchor.output + breaks(pending),
            preceded_by_expression: false,
            awaiting_new_level: false,
            ..anchor
        }
    }
}

/// What holds of the state behind the last token that is no line break,
/// and of the line breaks that are pending behind it.
pub open spec fn anchored(anchor: Layout, pending: nat, quiet: bool) -> bool {
    &&& pending <= 2
    &&& quiet ==> pending == 0
    &&& quiet == (anchor.awaiting_new_level || anchor.output.len() == 0)
    &&& !quiet ==> anchor.output.last() != '\n'
}

/// Whether two passes end, in texts that are finished to the same text.
pub open spec fn same_text(first: Result<Layout, Error>, second: Result<Layout, Error>) -> bool {
    &&& first matches Ok(end)
    &&& second matches Ok(again)
    &&& normalized(end.output) == normalized(again.output)
}

/// Line break tokens behind a token that wrote text write their line
/// breaks, up to two.
pub proof fn lemma_drive_newlines(anchor: Layout, written: nat, more: nat, rest: Seq<TokenView>)
    requires
        !anchor.awaiting_new_level,
        anchor.output.len() > 0,
        anchor.output.last() != '\n',
        written + more <= 2,
    ensures
        drive(broken(anchor, written), false, newlines(more) + rest) == drive(
            broken(anchor, written + more),
            false,
            rest,
        ),
    decreases more,
{
    if more == 0 {
        assert(newlines(0) + rest =~= rest);
    } else {
        let fewer = (more - 1) as nat;
        let tokens = newlines(more) + rest;
        assert(tokens.first() is NewLine);
        assert(tokens.drop_first() =~= newlines(fewer) + rest);
        let before = broken(anchor, written);
        if written == 1 {
            assert(before.output[before.output.len() - 2] == anchor.output.last());
        }
        assert(!before.after_blank_line());
        assert(before.output.push('\n') =~= anchor.output + breaks(written + 1));
        assert(before.newline() =~= broken(anchor, written + 1));
        lemma_drive_newlines(anchor, written + 1, fewer, rest);
    }
}

/// From the middle of a stream on, the stream and the stream as it is read
/// back give the same text.
pub proof fn lemma_settle(anchor: Layout, pending: nat, quiet: bool, tokens: Seq<TokenView>)
    requires
        anchored(anchor, pending, quiet),
        forall|i: int| 0 <= i < tokens.len() ==> is_plain(#[trigger] tokens[i]),
    ensures
        same_text(
            drive(broken(anchor, pending), anchor.awaiting_new_level, tokens),
            drive(anchor, anchor.awaiting_new_level, settle(tokens, pending, quiet)),
        ),
    decreases tokens.len(),
{
    let open = anchor.awaiting_new_level;
    let state = broken(anchor, pending);
    if tokens.len() == 0 {
        let last = seq![TokenView::NewLine];
        assert(last.first() is NewLine);
        assert(last.drop_first() =~= Seq::<TokenView>::empty());
        lemma_breaks_are_trailing(anchor.output, pending);
        assert(anchor.output + breaks(0) =~= anchor.output);
        if !open && anchor.output.len() > 0 {
            assert(anchor.output.push('\n') =~= anchor.output + breaks(1));
            lemma_breaks_are_trailing(anchor.output, 1);
        }
        let none = last.drop_first();
        assert(drive(anchor, true, none) == Ok::<Layout, Error>(anchor));
        assert(drive(anchor.newline(), false, none) == Ok::<Layout, Error>(anchor.newline()));
    } else {
        let first = tokens.first();
        let rest = tokens.drop_first();
        assert(is_plain(tokens[0]));
        assert forall|i: int| 0 <= i < rest.len() implies is_plain(#[trigger] rest[i]) by {
            assert(rest[i] == tokens[i + 1]);
        }
        match first {
            TokenView::NewLine => {
                if quiet {
                    lemma_settle(anchor, 0, true, rest);
                } else {
                    if pending == 1 {
                        assert(state.output[state.output.len() - 2] == anchor.output.last());
                    }
                    if pending < 2 {
                        assert(state.output.push('\n') =~= anchor.output + breaks(pending + 1));
                        assert(state.newline() =~= broken(anchor, pending + 1));
                    } else {
                        assert(state.after_blank_line());
                    }
                    lemma_settle(anchor, one_more(pending), false, rest);
                }
            },
            TokenView::RParen => {
                let next = anchor.rparen();
                lemma_breaks_are_trailing(anchor.output, pending);
                assert(state.rparen() =~= next);
                let read = seq![first] + settle(rest, 0, false);
                assert(read.first() == first);
                assert(read.drop_first() =~= settle(rest, 0, false));
                lemma_settle(next, 0, false, rest);
            },
            _ => {
                let next = state.step(first)->Ok_0;
                let after = settle(rest, 0, first is LParen);
                let read = newlines(pending).push(first) + after;
                let behind = seq![first] + after;
                assert(read =~= newlines(pending) + behind);
                assert(behind.first() == first);
                assert(behind.drop_first() =~= after);
                if pending > 0 {
                    lemma_drive_newlines(anchor, 0, pending, behind);
                } else {
                    assert(newlines(0) + behind =~= behind);
                }
                match first {
                    TokenView::Atom(atom) => {
                        let text = atom.text->Ok_0;
                        assert(text.contains(text.last()));
                        assert(next.output.last() == text.last());
                    },
                    TokenView::PrefixOperator(text) => {
                        assert(text.contains(text.last()));
                        assert(next.output.last() == text.last());
                    },
                    _ => {},
                }
                lemma_settle(next, 0, first is LParen, rest);
            },
        }
    }
}

/// The number of line breaks in a text.
pub open spec fn count_breaks(text: Seq<char>) -> nat
    decreases text.len(),
{
    if text.len() == 0 {
        0
    } else {
        count_breaks(text.drop_last()) + if text.last() == '\n' {
            1nat
        } else {
            0
        }
    }
}

/// The number of line break tokens in a stream.
pub open spec fn count_newlines(tokens: Seq<TokenView>) -> nat
    decreases tokens.len(),
{
    if tokens.len() == 0 {
        0
    } else {
        count_newlines(tokens.drop_last()) + if tokens.last() is NewLine {
            1nat
        } else {
            0
        }
    }
}

/// The line breaks of two texts in a row are those of both.
pub proof fn lemma_count_breaks_concat(first: Seq<char>, second: Seq<char>)
    ensures
        count_breaks(first + second) == count_breaks(first) + count_breaks(second),
    decreases second.len(),
{
    if second.len() == 0 {
        assert(first + second =~= first);
    } else {
        assert((first + second).drop_last() =~= first + second.drop_last());
        lemma_count_breaks_concat(first, second.drop_last());
    }
}

/// A text that holds no line break counts none.
pub proof fn lemma_count_breaks_none(text: Seq<char>)
    requires
        !text.contains('\n'),
    ensures
        count_breaks(text) == 0,
    decreases text.len(),
{
    if text.len() > 0 {
        assert(text.contains(text.last()));
        assert forall|i: int| 0 <= i < text.drop_last().len() implies text.drop_last()[i]
            != '\n' by {
            assert(text.contains(text[i]));
        }
        lemma_count_breaks_none(text.drop_last());
    }
}

/// A run of line breaks counts as many as it is long.
pub proof fn lemma_count_breaks_run(count: nat)
    ensures
        count_breaks(breaks(count)) == count,
    decreases count,
{
    if count > 0 {
        assert(breaks(count).drop_last() =~= breaks((count - 1) as nat));
        lemma_count_breaks_run((count - 1) as nat);
    }
}

/// The line break tokens of two streams in a row are those of both.
pub proof fn lemma_count_newlines_concat(first: Seq<TokenView>, second: Seq<TokenView>)
    ensures
        count_newlines(first + second) == count_newlines(first) + count_newlines(second),
    decreases second.len(),
{
    if second.len() == 0 {
        assert(first + second =~= first);
    } else {
        assert((first + second).drop_last() =~= first + second.drop_last());
        lemma_count_newlines_concat(first, second.drop_last());
    }
}

/// A run of line break tokens counts as many as it is long.
pub proof fn lemma_count_newlines_run(count: nat)
    ensures
        count_newlines(newlines(count)) == count,
    decreases count,
{
    if count > 0 {
        assert(newlines(count).drop_last() =~= newlines((count - 1) as nat));
        lemma_count_newlines_run((count - 1) as nat);
    }
}

/// A token that is no line break and no closing parenthesis writes no
/// line break.
pub proof fn lemma_plain_step_writes_no_break(state: Layout, token: TokenView)
    requires
        is_plain(token),
        !(token is NewLine),
        !(token is RParen),
    ensures
        state.step(token) matches Ok(next) && count_breaks(next.output) == count_breaks(
            state.output,
        ),
{
    let indent = spaces(state.indentation());
    assert(!indent.contains('\n'));
    assert(!seq![' '].contains('\n'));
    assert(!seq!['('].contains('\n'));
    lemma_count_breaks_none(indent);
    lemma_count_breaks_none(seq![' ']);
    lemma_count_breaks_none(seq!['(']);
    lemma_count_breaks_concat(state.output, indent);
    lemma_count_breaks_concat(state.output, seq![' ']);
    assert(state.output + seq![' '] =~= state.output.push(' '));
    let space = state.leading_space().output;
    assert(count_breaks(space) == count_breaks(state.output));
    let placed = state.put_default_level_or_leading_space().output;
    assert(count_breaks(placed) == count_breaks(state.output));
    match token {
        TokenView::Atom(atom) => {
            let text = atom.text->Ok_0;
            lemma_count_breaks_none(text);
            lemma_count_breaks_concat(state.output, text);
            lemma_count_breaks_concat(space, text);
        },
        TokenView::PrefixOperator(text) => {
            lemma_count_breaks_none(text);
            lemma_count_breaks_concat(placed, text);
        },
        _ => {
            lemma_count_breaks_concat(placed, seq!['(']);
            assert(placed + seq!['('] =~= placed.push('('));
        },
    }
}

/// From the middle of a stream on, the finished text holds one line break
/// more for every line break token of the stream as it is read back.
pub proof fn lemma_settle_counts(anchor: Layout, pending: nat, quiet: bool, tokens: Seq<TokenView>)
    requires
        anchored(anchor, pending, quiet),
        anchor.output.len() > 0 ==> anchor.output.last() != '\n',
        forall|i: int| 0 <= i < tokens.len() ==> is_plain(#[trigger] tokens[i]),
    ensures
        drive(broken(anchor, pending), anchor.awaiting_new_level, tokens) matches Ok(end)
            && count_breaks(normalized(end.output)) == count_breaks(anchor.output) + count_newlines(
            settle(tokens, pending, quiet),
        ),
    decreases tokens.len(),
{
    let state = broken(anchor, pending);
    lemma_without_trailing_breaks(anchor.output, pending);
    if pending == 0 {
        assert(anchor.output + breaks(0) =~= anchor.output);
    }
    if tokens.len() == 0 {
        let last = seq![TokenView::NewLine];
        assert(last.drop_last() =~= Seq::<TokenView>::empty());
        assert(count_newlines(last.drop_last()) == 0);
        assert(anchor.output.push('\n').drop_last() =~= anchor.output);
    } else {
        let first = tokens.first();
        let rest = tokens.drop_first();
        assert(is_plain(tokens[0]));
        assert forall|i: int| 0 <= i < rest.len() implies is_plain(#[trigger] rest[i]) by {
            assert(rest[i] == tokens[i + 1]);
        }
        match first {
            TokenView::NewLine => {
                if quiet {
                    lemma_settle_counts(anchor, 0, true, rest);
                } else {
                    if pending == 1 {
                        assert(state.output[state.output.len() - 2] == anchor.output.last());
                    }
                    if pending < 2 {
                        assert(state.output.push('\n') =~= anchor.output + breaks(pending + 1));
                        assert(state.newline() =~= broken(anchor, pending + 1));
                    } else {
                        assert(state.after_blank_line());
                    }
                    lemma_settle_counts(anchor, one_more(pending), false, rest);
                }
            },
            TokenView::RParen => {
                let next = state.rparen();
                assert(next.output == anchor.output.push(')'));
                assert(next.output.drop_last() =~= anchor.output);
                lemma_settle_counts(next, 0, false, rest);
                lemma_count_newlines_concat(seq![first], settle(rest, 0, false));
                assert(seq![first].drop_last() =~= Seq::<TokenView>::empty());
                assert(count_newlines(seq![first].drop_last()) == 0);
            },
            _ => {
                lemma_plain_step_writes_no_break(state, first);
                let next = state.step(first)->Ok_0;
                match first {
                    TokenView::Atom(atom) => {
                        let text = atom.text->Ok_0;
                        assert(text.contains(text.last()));
                        assert(next.output.last() == text.last());
                    },
                    TokenView::PrefixOperator(text) => {
                        assert(text.contains(text.last()));
                        assert(next.output.last() == text.last());
                    },
                    _ => {},
                }
                lemma_settle_counts(next, 0, first is LParen, rest);
                lemma_count_breaks_concat(anchor.output, breaks(pending));
                lemma_count_breaks_run(pending);
                let after = settle(rest, 0, first is LParen);
                lemma_count_newlines_concat(newlines(pending).push(first), after);
                assert(newlines(pending).push(first).drop_last() =~= newlines(pending));
                lemma_count_newlines_run(pending);
            },
        }
    }
}

/// The stream as it is read back holds exactly one line break token for
/// every line break of the formatted text.
pub proof fn settled_has_one_newline_for_each_line_break(
    tokens: Seq<TokenView>,
    default_indentation: nat,
)
    requires
        forall|i: int| 0 <= i < tokens.len() ==> is_plain(#[trigger] tokens[i]),
    ensures
        formatted(tokens, default_indentation) matches Ok(text) && count_breaks(text)
            == count_newlines(settled(tokens)),
{
    lemma_formatted_is_driven(tokens, default_indentation);
    lemma_settle_counts(Layout::new(default_indentation), 0, true, tokens);
}

/// Formatting is stable. Where a stream holds no comment and every atom
/// and operator is printable, the stream as it is read back from the
/// formatted text is formatted to the same text.
pub proof fn formatting_again_changes_nothing(tokens: Seq<TokenView>, default_indentation: nat)
    requires
        forall|i: int| 0 <= i < tokens.len() ==> is_plain(#[trigger] tokens[i]),
    ensures
        formatted(tokens, default_indentation) is Ok,
        formatted(settled(tokens), default_indentation) == formatted(tokens, default_indentation),
{
    let start = Layout::new(default_indentation);
    lemma_formatted_is_driven(tokens, default_indentation);
    lemma_formatted_is_driven(settled(tokens), default_indentation);
    lemma_settle(start, 0, true, tokens);
}

} // verus!
