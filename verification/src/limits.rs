//! How far the columns of a pass can grow: a bound that is easy to compute
//! and under which every stream can be formatted.

use crate::layout::{byte_length, Layout};
use crate::stream::{lemma_significant_push, run, significant, within_limits};
use crate::token::TokenView;
use vstd::prelude::*;

verus! {

/// The most that one token adds to the largest column of a state.
pub open spec fn cost(token: TokenView, default_indentation: nat) -> nat {
    match token {
        TokenView::Atom(atom) => atom.width + 1 + match atom.custom_indentation {
            Some(indentation) => indentation,
            None => 0,
        },
        TokenView::LParen => default_indentation + 2,
        TokenView::RParen => 1,
        TokenView::PrefixOperator(operator) => byte_length(operator) + default_indentation + 1,
        TokenView::NewLine => 0,
        TokenView::Comment(_) => default_indentation + 1,
    }
}

/// The costs of the tokens of a stream, added up.
pub open spec fn total_cost(tokens: Seq<TokenView>, default_indentation: nat) -> nat
    decreases tokens.len(),
{
    if tokens.len() == 0 {
        0
    } else {
        total_cost(tokens.drop_last(), default_indentation) + cost(
            tokens.last(),
            default_indentation,
        )
    }
}

/// Whether no column of the state is above `bound`.
pub open spec fn bounded(layout: Layout, bound: nat) -> bool {
    &&& layout.x <= bound
    &&& forall|i: int| 0 <= i < layout.levels.len() ==> (#[trigger] layout.levels[i]).column <= bound
}

/// One token raises the columns by no more than its cost.
pub proof fn lemma_step_cost(layout: Layout, token: TokenView, bound: nat)
    requires
        bounded(layout, bound),
    ensures
        layout.step(token) matches Ok(next) ==> {
            &&& bounded(next, bound + cost(token, layout.default_indentation))
            &&& next.default_indentation == layout.default_indentation
        },
{
}

/// A pass raises the columns by no more than the cost of its stream.
pub proof fn lemma_run_cost(start: Layout, tokens: Seq<TokenView>, bound: nat)
    requires
        bounded(start, bound),
    ensures
        run(start, tokens) matches Ok(end) ==> {
            &&& bounded(end, bound + total_cost(tokens, start.default_indentation))
            &&& end.default_indentation == start.default_indentation
        },
    decreases tokens.len(),
{
    if tokens.len() > 0 {
        lemma_run_cost(start, tokens.drop_last(), bound);
        if let Ok(before) = run(start, tokens.drop_last()) {
            lemma_step_cost(
                before,
                tokens.last(),
                bound + total_cost(tokens.drop_last(), start.default_indentation),
            );
        }
    }
}

/// The tokens that count cost no more than the whole stream.
pub proof fn lemma_significant_cost(tokens: Seq<TokenView>, default_indentation: nat)
    ensures
        total_cost(significant(tokens), default_indentation) <= total_cost(
            tokens,
            default_indentation,
        ),
    decreases tokens.len(),
{
    if tokens.len() > 0 {
        let earlier = tokens.drop_last();
        lemma_significant_cost(earlier, default_indentation);
        assert(earlier.push(tokens.last()) =~= tokens);
        lemma_significant_push(earlier, tokens.last());
        assert(significant(earlier).push(tokens.last()).drop_last() =~= significant(earlier));
    }
}

/// The start of a stream costs no more than the whole stream.
pub proof fn lemma_prefix_cost(tokens: Seq<TokenView>, n: int, default_indentation: nat)
    requires
        0 <= n <= tokens.len(),
    ensures
        total_cost(tokens.take(n), default_indentation) <= total_cost(tokens, default_indentation),
    decreases tokens.len(),
{
    if n == tokens.len() {
        assert(tokens.take(n) =~= tokens);
    } else {
        assert(tokens.drop_last().take(n) =~= tokens.take(n));
        lemma_prefix_cost(tokens.drop_last(), n, default_indentation);
    }
}

/// A stream whose total cost fits in a `usize` is within the limits of the
/// formatter.
pub proof fn lemma_cost_within_limits(tokens: Seq<TokenView>, default_indentation: nat)
    requires
        default_indentation <= usize::MAX,
        total_cost(tokens, default_indentation) <= usize::MAX,
    ensures
        within_limits(tokens, default_indentation),
{
    let start = Layout::new(default_indentation);
    assert forall|n: int| 0 <= n <= tokens.len() implies (run(
        start,
        significant(#[trigger] tokens.take(n)),
    ) matches Ok(layout) ==> layout.representable()) by {
        lemma_prefix_cost(tokens, n, default_indentation);
        lemma_significant_cost(tokens.take(n), default_indentation);
        lemma_run_cost(start, significant(tokens.take(n)), 0);
    }
}

} // verus!
