//! A whole pass as mathematics: which tokens of a stream count, what the
//! formatter has written after the last of them, and how the text is
//! finished.

use crate::layout::Layout;
use crate::text::without_trailing_newlines;
use crate::token::TokenView;
use std::fmt::Error;
use vstd::prelude::*;

verus! {

/// Whether an atom of the stream can be rendered; true of every other token.
pub open spec fn renders(token: TokenView) -> bool {
    token matches TokenView::Atom(atom) ==> atom.text is Ok
}

/// The number of tokens before the first atom that cannot be rendered; the
/// length of the stream if there is no such atom.
pub open spec fn rendered_prefix(tokens: Seq<TokenView>) -> nat
    decreases tokens.len(),
{
    if tokens.len() == 0 || !renders(tokens.first()) {
        0
    } else {
        1 + rendered_prefix(tokens.drop_first())
    }
}

/// The number of tokens that a pass takes from the stream: it stops behind
/// the first atom that cannot be rendered.
pub open spec fn consumed(tokens: Seq<TokenView>) -> nat {
    if rendered_prefix(tokens) < tokens.len() {
        rendered_prefix(tokens) + 1
    } else {
        tokens.len()
    }
}

/// Whether the stream ends right behind an opening parenthesis, or behind
/// line breaks that follow one.
pub open spec fn follows_open(tokens: Seq<TokenView>) -> bool
    decreases tokens.len(),
{
    tokens.len() > 0 && (tokens.last() is LParen || (tokens.last() is NewLine && follows_open(
        tokens.drop_last(),
    )))
}

/// The stream without the line breaks that directly follow an opening
/// parenthesis: a list never opens with a line break.
pub open spec fn significant(tokens: Seq<TokenView>) -> Seq<TokenView>
    decreases tokens.len(),
{
    if tokens.len() == 0 {
        Seq::empty()
    } else if tokens.last() is NewLine && follows_open(tokens.drop_last()) {
        significant(tokens.drop_last())
    } else {
        significant(tokens.drop_last()).push(tokens.last())
    }
}

/// The state after every token of `tokens` was taken in turn, starting from
/// `start`; the error of the first atom that cannot be rendered.
pub open spec fn run(start: Layout, tokens: Seq<TokenView>) -> Result<Layout, Error>
    decreases tokens.len(),
{
    if tokens.len() == 0 {
        Ok(start)
    } else {
        match run(start, tokens.drop_last()) {
            Ok(layout) => layout.step(tokens.last()),
            Err(error) => Err(error),
        }
    }
}

/// The finished text: whatever line breaks the text ended in, it ends in
/// exactly one. A text that ended in none gets one, a blank line at the end
/// is taken away, and the empty text becomes one line break.
pub open spec fn normalized(text: Seq<char>) -> Seq<char> {
    without_trailing_newlines(text).push('\n')
}

/// The text that formatting `tokens` gives, or the error of the first atom
/// that cannot be rendered.
pub open spec fn formatted(tokens: Seq<TokenView>, default_indentation: nat) -> Result<
    Seq<char>,
    Error,
> {
    match run(Layout::new(default_indentation), significant(tokens)) {
        Ok(layout) => Ok(normalized(layout.output)),
        Err(error) => Err(error),
    }
}

/// Whether every column that the pass computes fits in a `usize`.
pub open spec fn within_limits(tokens: Seq<TokenView>, default_indentation: nat) -> bool {
    forall|n: int|
        0 <= n <= tokens.len() ==> (run(
            Layout::new(default_indentation),
            significant(#[trigger] tokens.take(n)),
        ) matches Ok(layout) ==> layout.representable())
}

/// Taking one more token is one more step.
pub proof fn lemma_run_push(start: Layout, tokens: Seq<TokenView>, token: TokenView)
    ensures
        run(start, tokens.push(token)) == match run(start, tokens) {
            Ok(layout) => layout.step(token),
            Err(error) => Err(error),
        },
{
    assert(tokens.push(token).drop_last() =~= tokens);
}

/// One more token of the stream counts unless it is a line break behind an
/// opening parenthesis.
pub proof fn lemma_significant_push(tokens: Seq<TokenView>, token: TokenView)
    ensures
        significant(tokens.push(token)) == if token is NewLine && follows_open(tokens) {
            significant(tokens)
        } else {
            significant(tokens).push(token)
        },
        follows_open(tokens.push(token)) == (token is LParen || (token is NewLine
            && follows_open(tokens))),
{
    assert(tokens.push(token).drop_last() =~= tokens);
}

/// The index of the first atom that cannot be rendered is the length of
/// the rendered prefix.
pub proof fn lemma_rendered_prefix(tokens: Seq<TokenView>, n: int)
    requires
        0 <= n <= tokens.len(),
        forall|j: int| 0 <= j < n ==> renders(#[trigger] tokens[j]),
        n < tokens.len() ==> !renders(tokens[n]),
    ensures
        rendered_prefix(tokens) == n,
    decreases n,
{
    if n > 0 {
        let rest = tokens.drop_first();
        assert forall|j: int| 0 <= j < n - 1 implies renders(#[trigger] rest[j]) by {
            assert(rest[j] == tokens[j + 1]);
        }
        lemma_rendered_prefix(rest, n - 1);
    }
}

/// An error ends the pass: what follows the atom that cannot be rendered
/// does not change the result.
pub proof fn lemma_failure_is_final(start: Layout, tokens: Seq<TokenView>, n: int)
    requires
        0 <= n <= tokens.len(),
        run(start, significant(tokens.take(n))) is Err,
    ensures
        run(start, significant(tokens)) == run(start, significant(tokens.take(n))),
    decreases tokens.len(),
{
    if n == tokens.len() {
        assert(tokens.take(n) =~= tokens);
    } else {
        let shorter = tokens.drop_last();
        assert(shorter.take(n) =~= tokens.take(n));
        lemma_failure_is_final(start, shorter, n);
        assert(shorter.push(tokens.last()) =~= tokens);
        lemma_significant_push(shorter, tokens.last());
        lemma_run_push(start, significant(shorter), tokens.last());
    }
}

/// A pass over a stream that is not empty is the step of its first token
/// and the pass over the rest.
pub proof fn lemma_run_first(start: Layout, tokens: Seq<TokenView>)
    requires
        tokens.len() > 0,
    ensures
        run(start, tokens) == match start.step(tokens.first()) {
            Ok(next) => run(next, tokens.drop_first()),
            Err(error) => Err(error),
        },
    decreases tokens.len(),
{
    let earlier = tokens.drop_last();
    if earlier.len() == 0 {
        assert(tokens.drop_first() =~= Seq::<TokenView>::empty());
    } else {
        lemma_run_first(start, earlier);
        assert(earlier.first() == tokens.first());
        assert(tokens.drop_first().drop_last() =~= earlier.drop_first());
    }
}

/// A pass succeeds exactly when every atom can be rendered, and fails with
/// the error of the first atom that cannot.
pub proof fn lemma_run_result(start: Layout, tokens: Seq<TokenView>)
    ensures
        run(start, tokens) is Ok <==> rendered_prefix(tokens) == tokens.len(),
        rendered_prefix(tokens) <= tokens.len(),
        rendered_prefix(tokens) < tokens.len() ==> {
            &&& tokens[rendered_prefix(tokens) as int] matches TokenView::Atom(atom)
            &&& atom.text is Err
            &&& run(start, tokens) == Err::<Layout, Error>(atom.text->Err_0)
        },
    decreases tokens.len(),
{
    if tokens.len() > 0 {
        lemma_run_first(start, tokens);
        if let Ok(next) = start.step(tokens.first()) {
            lemma_run_result(next, tokens.drop_first());
        }
    }
}

/// The atoms of a stream all count, so the tokens that count can be
/// rendered exactly when those of the stream can.
pub proof fn lemma_significant_renders(tokens: Seq<TokenView>)
    ensures
        rendered_prefix(significant(tokens)) == significant(tokens).len() <==> rendered_prefix(
            tokens,
        ) == tokens.len(),
    decreases tokens.len(),
{
    lemma_renders_all(tokens);
    lemma_renders_all(significant(tokens));
    if tokens.len() > 0 {
        let earlier = tokens.drop_last();
        lemma_significant_renders(earlier);
        lemma_renders_all(earlier);
        lemma_renders_all(significant(earlier));
        assert(earlier.push(tokens.last()) =~= tokens);
        lemma_significant_push(earlier, tokens.last());
        let kept = significant(earlier);
        if rendered_prefix(tokens) == tokens.len() {
            assert forall|j: int| 0 <= j < earlier.len() implies renders(#[trigger] earlier[j]) by {
                assert(earlier[j] == tokens[j]);
            }
            assert(renders(tokens[tokens.len() - 1]));
        }
        if rendered_prefix(significant(tokens)) == significant(tokens).len() {
            if significant(tokens) == kept.push(tokens.last()) {
                assert forall|j: int| 0 <= j < kept.len() implies renders(#[trigger] kept[j]) by {
                    assert(kept[j] == kept.push(tokens.last())[j]);
                }
                assert(renders(kept.push(tokens.last())[kept.len() as int]));
            }
            assert forall|j: int| 0 <= j < tokens.len() implies renders(#[trigger] tokens[j]) by {
                if j < earlier.len() {
                    assert(earlier[j] == tokens[j]);
                }
            }
        }
    }
}

/// The rendered prefix is the whole stream exactly when every token of it
/// can be rendered.
pub proof fn lemma_renders_all(tokens: Seq<TokenView>)
    ensures
        rendered_prefix(tokens) == tokens.len() <==> forall|j: int|
            0 <= j < tokens.len() ==> renders(#[trigger] tokens[j]),
        rendered_prefix(tokens) <= tokens.len(),
    decreases tokens.len(),
{
    if tokens.len() > 0 {
        let rest = tokens.drop_first();
        lemma_renders_all(rest);
        if rendered_prefix(tokens) == tokens.len() {
            assert forall|j: int| 0 <= j < tokens.len() implies renders(#[trigger] tokens[j]) by {
                if j > 0 {
                    assert(rest[j - 1] == tokens[j]);
                }
            }
        }
        if forall|j: int| 0 <= j < tokens.len() ==> renders(#[trigger] tokens[j]) {
            assert(renders(tokens[0]));
            assert forall|j: int| 0 <= j < rest.len() implies renders(#[trigger] rest[j]) by {
                assert(rest[j] == tokens[j + 1]);
            }
        }
    }
}

/// Formatting succeeds exactly when every atom of the stream can be
/// rendered.
pub proof fn lemma_formatted_result(tokens: Seq<TokenView>, default_indentation: nat)
    ensures
        formatted(tokens, default_indentation) is Ok <==> forall|j: int|
            0 <= j < tokens.len() ==> renders(#[trigger] tokens[j]),
{
    lemma_run_result(Layout::new(default_indentation), significant(tokens));
    lemma_significant_renders(tokens);
    lemma_renders_all(tokens);
}

/// A pass over two streams in a row is the pass over the second, started
/// where the pass over the first ended.
pub proof fn lemma_run_concat(start: Layout, first: Seq<TokenView>, second: Seq<TokenView>)
    ensures
        run(start, first + second) == match run(start, first) {
            Ok(middle) => run(middle, second),
            Err(error) => Err(error),
        },
    decreases second.len(),
{
    if second.len() == 0 {
        assert(first + second =~= first);
    } else {
        lemma_run_concat(start, first, second.drop_last());
        assert((first + second).drop_last() =~= first + second.drop_last());
    }
}

/// The pass as it is read from the front: the state after the tokens of
/// `tokens` that count, where `after_open` says whether the stream so far
/// ends behind an opening parenthesis and line breaks.
pub open spec fn drive(start: Layout, after_open: bool, tokens: Seq<TokenView>) -> Result<
    Layout,
    Error,
>
    decreases tokens.len(),
{
    if tokens.len() == 0 {
        Ok(start)
    } else if after_open && tokens.first() is NewLine {
        drive(start, true, tokens.drop_first())
    } else {
        match start.step(tokens.first()) {
            Ok(next) => drive(next, tokens.first() is LParen, tokens.drop_first()),
            Err(error) => Err(error),
        }
    }
}

/// A pass over a stream goes on from the end of a pass over its start.
pub proof fn lemma_drive_continues(start: Layout, before: Seq<TokenView>, rest: Seq<TokenView>)
    ensures
        run(start, significant(before + rest)) == match run(start, significant(before)) {
            Ok(middle) => drive(middle, follows_open(before), rest),
            Err(error) => Err(error),
        },
    decreases rest.len(),
{
    if rest.len() == 0 {
        assert(before + rest =~= before);
    } else {
        let first = rest.first();
        let grown = before.push(first);
        assert(before + rest =~= grown + rest.drop_first());
        lemma_drive_continues(start, grown, rest.drop_first());
        lemma_significant_push(before, first);
        lemma_run_push(start, significant(before), first);
    }
}

/// The formatted text is the finished text of the pass read from the front.
pub proof fn lemma_formatted_is_driven(tokens: Seq<TokenView>, default_indentation: nat)
    ensures
        formatted(tokens, default_indentation) == match drive(
            Layout::new(default_indentation),
            false,
            tokens,
        ) {
            Ok(layout) => Ok::<Seq<char>, Error>(normalized(layout.output)),
            Err(error) => Err(error),
        },
{
    let none = Seq::<TokenView>::empty();
    lemma_drive_continues(Layout::new(default_indentation), none, tokens);
    assert(none + tokens =~= tokens);
}

} // verus!
