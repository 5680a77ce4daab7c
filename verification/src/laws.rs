//! What the layout rules guarantee, proved of every state and every stream.

use crate::atom::AtomModel;
use crate::layout::{byte_length, Layout, Level};
use crate::flat::{flat_state, joined, lemma_flat_rest};
use crate::stream::{
    follows_open, formatted, lemma_run_concat, lemma_run_push, lemma_significant_push, normalized,
    run, significant,
};
use crate::text::{breaks, lemma_without_trailing_breaks, spaces, without_trailing_newlines};
use crate::token::TokenView;
use std::fmt::Error;
use vstd::prelude::*;

verus! {

/// Text without the line breaks at its end is empty or ends in another
/// character.
pub proof fn lemma_no_trailing_newline(text: Seq<char>)
    ensures
        without_trailing_newlines(text).len() > 0 ==> without_trailing_newlines(text).last()
            != '\n',
        without_trailing_newlines(text).len() <= text.len(),
    decreases text.len(),
{
    if text.len() > 0 && text.last() == '\n' {
        lemma_no_trailing_newline(text.drop_last());
    }
}

/// Every token keeps a state well formed.
pub proof fn lemma_step_keeps_wf(layout: Layout, token: TokenView)
    requires
        layout.wf(),
    ensures
        layout.step(token) matches Ok(next) ==> next.wf(),
{
}

/// A pass that starts in a well-formed state stays in one.
pub proof fn lemma_run_keeps_wf(start: Layout, tokens: Seq<TokenView>)
    requires
        start.wf(),
    ensures
        run(start, tokens) matches Ok(layout) ==> layout.wf(),
    decreases tokens.len(),
{
    if tokens.len() > 0 {
        lemma_run_keeps_wf(start, tokens.drop_last());
        if let Ok(before) = run(start, tokens.drop_last()) {
            lemma_step_keeps_wf(before, tokens.last());
        }
    }
}

/// A closing parenthesis never stands directly behind a line break: it
/// takes the place of the line breaks at the end of the text.
pub proof fn rparen_follows_no_line_break(layout: Layout)
    ensures
        layout.rparen().output == without_trailing_newlines(layout.output).push(')'),
        layout.rparen().output.len() >= 2 ==> layout.rparen().output[layout.rparen().output.len()
            - 2] != '\n',
{
    lemma_no_trailing_newline(layout.output);
}

/// A closing parenthesis takes the place of every line break at the end of
/// the text, not of one only, and moves the column on by one.
pub proof fn rparen_takes_every_line_break(layout: Layout, content: Seq<char>, count: nat)
    requires
        layout.output == content + breaks(count),
        content.len() == 0 || content.last() != '\n',
    ensures
        layout.rparen().output == content.push(')'),
        layout.rparen().x == layout.x + 1,
        layout.rparen().preceded_by_expression,
        !layout.rparen().awaiting_new_level,
{
    lemma_without_trailing_breaks(content, count);
}

/// An atom that heads a list is written directly behind the parenthesis
/// and fixes the level of the list. Without a custom indentation the level
/// is the column behind the atom and one space, `x + width + 1`. With the
/// custom indentation `n` it is `n` columns from the parenthesis,
/// `x + n - 1`, whatever the width of the atom and the default indentation.
pub proof fn head_atom_fixes_the_level(layout: Layout, atom: AtomModel)
    requires
        layout.awaiting_new_level,
        layout.x >= 1,
        atom.text is Ok,
    ensures
        ({
            let column = match atom.custom_indentation {
                Some(indentation) => (layout.x + indentation - 1) as nat,
                None => layout.x + atom.width + 1,
            };
            layout.step(TokenView::Atom(atom)) == Ok::<Layout, Error>(
                Layout {
                    output: layout.output + atom.text->Ok_0,
                    x: layout.x + atom.width,
                    levels: layout.levels.push(Level { column, from_operator: false }),
                    preceded_by_expression: true,
                    awaiting_new_level: false,
                    ..layout
                },
            )
        }),
{
}

/// A prefix operator inside a line is written where the column stands and
/// moves it on by its width. It overwrites the entry of an operator
/// directly before it, so that the depth does not grow, and else adds one
/// entry.
pub proof fn prefix_operator_takes_one_entry(layout: Layout, operator: Seq<char>)
    requires
        !layout.awaiting_new_level,
        !layout.preceded_by_expression,
        !layout.at_line_start(),
    ensures
        ({
            let x = layout.x + byte_length(operator);
            let entry = Level { column: x, from_operator: true };
            layout.step(TokenView::PrefixOperator(operator)) == Ok::<Layout, Error>(
                Layout {
                    output: layout.output + operator,
                    x,
                    levels: if layout.operator_pending() {
                        layout.levels.drop_last().push(entry)
                    } else {
                        layout.levels.push(entry)
                    },
                    preceded_by_expression: false,
                    awaiting_new_level: false,
                    ..layout
                },
            )
        }),
{
}

/// An empty list is written as `()`: the closing parenthesis directly
/// follows the opening one, and the pair leaves the levels as the opening
/// parenthesis set them.
pub proof fn empty_list_is_tight(layout: Layout)
    ensures
        layout.lparen().output.last() == '(',
        layout.lparen().rparen().output == layout.lparen().output.push(')'),
        layout.lparen().rparen().levels == layout.lparen().levels,
{
    let opened = layout.lparen();
    assert(without_trailing_newlines(opened.output) == opened.output);
}

/// A closing parenthesis that no open list answers to is written like any
/// other and leaves the state without levels, as it was.
pub proof fn excess_rparen_changes_no_level(layout: Layout)
    requires
        layout.levels.len() == 0,
    ensures
        layout.step(TokenView::RParen) == Ok::<Layout, Error>(
            Layout {
                output: without_trailing_newlines(layout.output).push(')'),
                x: layout.x + 1,
                preceded_by_expression: true,
                awaiting_new_level: false,
                ..layout
            },
        ),
{
    assert(layout.rparen().levels =~= layout.levels);
}

/// Outside every list a new line starts at column 0: the next token is
/// written directly behind the line break.
pub proof fn top_level_line_starts_at_column_zero(
    layout: Layout,
    width: nat,
    custom_indentation: Option<nat>,
    text: Seq<char>,
)
    requires
        layout.levels.len() == 0,
        layout.at_line_start(),
        !layout.awaiting_new_level,
    ensures
        layout.leading_space() == (Layout { x: 0, ..layout }),
        layout.atom(width, custom_indentation, text).output == layout.output + text,
        layout.atom(width, custom_indentation, text).x == width,
        layout.lparen().output == layout.output.push('('),
        layout.lparen().x == 1,
        layout.prefix_operator(text).output == layout.output + text,
        layout.prefix_operator(text).x == byte_length(text),
        layout.comment(text).output == (layout.output + text).push('\n'),
{
    assert(spaces(0) =~= Seq::<char>::empty());
    assert(layout.output + spaces(0) =~= layout.output);
    assert(layout.leading_space() =~= (Layout { x: 0, ..layout }));
    assert(layout.output + Seq::<char>::empty() =~= layout.output);
}

/// The column at which the lines of a list continue behind its head: the
/// custom indentation of the head counted from the parenthesis, or else
/// the column behind the head and one space.
pub open spec fn continuation_column(paren_column: nat, head: AtomModel) -> nat {
    match head.custom_indentation {
        Some(indentation) => paren_column + indentation,
        None => paren_column + 1 + head.width + 1,
    }
}

/// In a list that an atom heads, a line break is followed by spaces up to
/// the continuation column of the head, wherever the list stands. With the
/// parenthesis at column `c` and a head of width `w` that is column
/// `c + 1 + w + 1`, and column `c + n` where the head asks for the
/// indentation `n`.
pub proof fn continuation_line_is_indented(layout: Layout, head: AtomModel, next: AtomModel)
    requires
        head.text is Ok,
        !head.text->Ok_0.contains('\n'),
        next.text is Ok,
    ensures
        ({
            let opened = layout.lparen();
            let paren_column = opened.paren_column();
            let column = continuation_column(paren_column, head);
            let tokens = seq![
                TokenView::LParen,
                TokenView::Atom(head),
                TokenView::NewLine,
                TokenView::Atom(next),
            ];
            &&& opened.x == paren_column + 1
            &&& run(layout, tokens) matches Ok(end)
            &&& end.output == opened.output + head.text->Ok_0 + seq!['\n'] + spaces(column)
                + next.text->Ok_0
            &&& end.x == column + next.width
            &&& end.levels == opened.levels.push(Level { column, from_operator: false })
        }),
{
    let opened = layout.lparen();
    let column = continuation_column(opened.paren_column(), head);
    let text = head.text->Ok_0;
    let t0 = TokenView::LParen;
    let t1 = TokenView::Atom(head);
    let t2 = TokenView::NewLine;
    let t3 = TokenView::Atom(next);
    let tokens = seq![t0, t1, t2, t3];
    assert(tokens =~= Seq::<TokenView>::empty().push(t0).push(t1).push(t2).push(t3));
    lemma_run_push(layout, Seq::<TokenView>::empty(), t0);
    lemma_run_push(layout, Seq::<TokenView>::empty().push(t0), t1);
    lemma_run_push(layout, Seq::<TokenView>::empty().push(t0).push(t1), t2);
    lemma_run_push(layout, Seq::<TokenView>::empty().push(t0).push(t1).push(t2), t3);
    let headed = opened.atom(head.width, head.custom_indentation, text);
    assert(headed.output == opened.output + text);
    assert(headed.levels == opened.levels.push(Level { column, from_operator: false }));
    assert(!headed.after_blank_line()) by {
        if text.len() > 0 {
            assert(text.contains(text.last()));
            assert(headed.output.last() == text.last());
        } else {
            assert(headed.output =~= opened.output);
        }
    }
    let broken = headed.newline();
    assert(broken.output == headed.output.push('\n'));
    assert(broken.at_line_start());
    assert(broken.indentation() == column);
    let end = broken.atom(next.width, next.custom_indentation, next.text->Ok_0);
    assert(end.levels =~= headed.levels);
    assert(end.output =~= opened.output + text + seq!['\n'] + spaces(column) + next.text->Ok_0);
}

/// Prefix operators, one token for each text.
pub open spec fn operators(texts: Seq<Seq<char>>) -> Seq<TokenView> {
    Seq::new(texts.len(), |i: int| TokenView::PrefixOperator(texts[i]))
}

/// The widths of the operators, added up.
pub open spec fn total_width(texts: Seq<Seq<char>>) -> nat
    decreases texts.len(),
{
    if texts.len() == 0 {
        0
    } else {
        total_width(texts.drop_last()) + byte_length(texts.last())
    }
}

/// Prefix operators in a row share one entry: those that follow the first
/// add no level, and each moves the entry and the column on by its width.
pub proof fn prefix_operators_share_one_level(
    layout: Layout,
    first: Seq<char>,
    more: Seq<Seq<char>>,
)
    ensures
        ({
            let started = layout.prefix_operator(first);
            let column = started.x + total_width(more);
            &&& started.x == layout.put_default_level_or_leading_space().x + byte_length(first)
            &&& started.levels.len() > 0
            &&& started.levels.last() == (Level { column: started.x, from_operator: true })
            &&& run(started, operators(more)) matches Ok(end)
            &&& end.levels.len() == started.levels.len()
            &&& end.levels == started.levels.drop_last().push(
                Level { column, from_operator: true },
            )
            &&& end.x == column
            &&& !end.awaiting_new_level
            &&& !end.preceded_by_expression
        }),
    decreases more.len(),
{
    let started = layout.prefix_operator(first);
    if more.len() == 0 {
        assert(operators(more) =~= Seq::<TokenView>::empty());
        assert(started.levels.drop_last().push(started.levels.last()) =~= started.levels);
    } else {
        let earlier = more.drop_last();
        prefix_operators_share_one_level(layout, first, earlier);
        let token = TokenView::PrefixOperator(more.last());
        assert(operators(more) =~= operators(earlier).push(token));
        lemma_run_push(started, operators(earlier), token);
        let before = run(started, operators(earlier))->Ok_0;
        let placed = before.put_default_level_or_leading_space();
        assert(placed.x == before.x);
        assert(placed.levels == before.levels);
        let end = before.prefix_operator(more.last());
        assert(end.levels =~= started.levels.drop_last().push(
            Level { column: started.x + total_width(more), from_operator: true },
        ));
    }
}

/// The atom behind prefix operators takes their entry away again.
pub proof fn atom_ends_prefix_operators(layout: Layout, operator: Seq<char>, atom: AtomModel)
    requires
        atom.text is Ok,
    ensures
        ({
            let started = layout.prefix_operator(operator);
            &&& started.step(TokenView::Atom(atom)) matches Ok(end)
            &&& end.levels == started.levels.drop_last()
        }),
{
}

/// Line breaks, one token each.
pub open spec fn newlines(count: nat) -> Seq<TokenView> {
    Seq::new(count, |i: int| TokenView::NewLine)
}

/// A list never opens with a line break: the line breaks that directly
/// follow an opening parenthesis do not count.
pub proof fn list_opens_without_line_break(before: Seq<TokenView>, count: nat)
    ensures
        follows_open(before.push(TokenView::LParen) + newlines(count)),
        significant(before.push(TokenView::LParen) + newlines(count)) == significant(
            before.push(TokenView::LParen),
        ),
    decreases count,
{
    let opened = before.push(TokenView::LParen);
    if count == 0 {
        assert(opened + newlines(0) =~= opened);
    } else {
        let fewer = (count - 1) as nat;
        list_opens_without_line_break(before, fewer);
        assert(opened + newlines(count) =~= (opened + newlines(fewer)).push(TokenView::NewLine));
        lemma_significant_push(opened + newlines(fewer), TokenView::NewLine);
    }
}

/// Whether a character shows: it is neither a space nor a line break.
pub open spec fn visible(c: char) -> bool {
    c != ' ' && c != '\n'
}

/// Whether a text is not empty and ends in a character that shows.
pub open spec fn ends_visibly(text: Seq<char>) -> bool {
    text.len() > 0 && visible(text.last())
}

/// Whether the text that a token brings with it ends visibly; true of a
/// token that brings none.
pub open spec fn writes_visibly(token: TokenView) -> bool {
    match token {
        TokenView::Atom(atom) => atom.text matches Ok(text) ==> ends_visibly(text),
        TokenView::PrefixOperator(text) => ends_visibly(text),
        TokenView::Comment(text) => ends_visibly(text),
        _ => true,
    }
}

/// Whether a text, the line breaks at its end set aside, is empty or ends
/// in a character that shows.
pub open spec fn content_ends_visibly(text: Seq<char>) -> bool {
    without_trailing_newlines(text).len() == 0 || visible(without_trailing_newlines(text).last())
}

/// One token keeps the content of the text ending visibly.
pub proof fn lemma_step_keeps_content_visible(layout: Layout, token: TokenView)
    requires
        content_ends_visibly(layout.output),
        writes_visibly(token),
    ensures
        layout.step(token) matches Ok(next) ==> content_ends_visibly(next.output),
{
    match token {
        TokenView::NewLine => {
            assert(layout.output.push('\n').drop_last() =~= layout.output);
        },
        TokenView::Comment(text) => {
            let next = layout.comment(text);
            let written = next.output.drop_last();
            assert(written.last() == text.last());
            assert(without_trailing_newlines(written) == written);
            assert(without_trailing_newlines(next.output) == without_trailing_newlines(written));
        },
        TokenView::RParen => {
            lemma_no_trailing_newline(layout.output);
        },
        _ => {},
    }
}

/// Where every atom, operator and comment ends in a character that shows,
/// a closing parenthesis hugs the content before it: no line break and no
/// indentation part them.
pub proof fn closing_paren_hugs_content(start: Layout, tokens: Seq<TokenView>)
    requires
        content_ends_visibly(start.output),
        forall|i: int| 0 <= i < tokens.len() ==> writes_visibly(#[trigger] tokens[i]),
    ensures
        run(start, tokens) matches Ok(layout) ==> {
            let closed = layout.rparen().output;
            &&& content_ends_visibly(layout.output)
            &&& closed.last() == ')'
            &&& closed.len() >= 2 ==> visible(closed[closed.len() - 2])
        },
    decreases tokens.len(),
{
    if tokens.len() > 0 {
        let earlier = tokens.drop_last();
        assert forall|i: int| 0 <= i < earlier.len() implies writes_visibly(
            #[trigger] earlier[i],
        ) by {
            assert(earlier[i] == tokens[i]);
        }
        closing_paren_hugs_content(start, earlier);
        if let Ok(before) = run(start, earlier) {
            lemma_step_keeps_content_visible(before, tokens.last());
        }
    }
    if let Ok(layout) = run(start, tokens) {
        lemma_no_trailing_newline(layout.output);
    }
}

/// Line breaks at the start of a stream all count, and write nothing.
pub proof fn lemma_leading_newlines(count: nat, default_indentation: nat)
    ensures
        significant(newlines(count)) == newlines(count),
        !follows_open(newlines(count)),
        run(Layout::new(default_indentation), newlines(count)) == Ok::<Layout, Error>(
            Layout::new(default_indentation),
        ),
    decreases count,
{
    if count == 0 {
        assert(significant(newlines(0)) =~= newlines(0));
    } else {
        let fewer = (count - 1) as nat;
        lemma_leading_newlines(fewer, default_indentation);
        assert(newlines(count) =~= newlines(fewer).push(TokenView::NewLine));
        lemma_significant_push(newlines(fewer), TokenView::NewLine);
        lemma_run_push(Layout::new(default_indentation), newlines(fewer), TokenView::NewLine);
    }
}

/// Line breaks behind a stream that does not end in an opening parenthesis
/// all count.
pub proof fn lemma_trailing_newlines(before: Seq<TokenView>, count: nat)
    requires
        !follows_open(before),
    ensures
        significant(before + newlines(count)) == significant(before) + newlines(count),
        !follows_open(before + newlines(count)),
    decreases count,
{
    if count == 0 {
        assert(before + newlines(0) =~= before);
        assert(significant(before) + newlines(0) =~= significant(before));
    } else {
        let fewer = (count - 1) as nat;
        lemma_trailing_newlines(before, fewer);
        assert(before + newlines(count) =~= (before + newlines(fewer)).push(TokenView::NewLine));
        lemma_significant_push(before + newlines(fewer), TokenView::NewLine);
        assert(significant(before) + newlines(count) =~= (significant(before) + newlines(
            fewer,
        )).push(TokenView::NewLine));
    }
}

/// Line breaks alone end the text in one line break.
pub proof fn lemma_joined_newlines(count: nat, pending: Option<nat>)
    ensures
        joined(newlines(count), pending) == breaks(1),
    decreases count,
{
    if count > 0 {
        let fewer = (count - 1) as nat;
        assert(newlines(count).drop_first() =~= newlines(fewer));
        lemma_joined_newlines(
            fewer,
            match pending {
                Some(requested) => Some(requested + 1),
                None => None,
            },
        );
    }
}

/// An empty list alone is formatted as `()` and one line break, whatever
/// line breaks stand before it, inside it and behind it.
pub proof fn lone_empty_list(leading: nat, inner: nat, trailing: nat, default_indentation: nat)
    ensures
        formatted(
            newlines(leading).push(TokenView::LParen) + newlines(inner) + seq![TokenView::RParen]
                + newlines(trailing),
            default_indentation,
        ) == Ok::<Seq<char>, Error>(seq!['(', ')', '\n']),
{
    let start = Layout::new(default_indentation);
    let opened = newlines(leading).push(TokenView::LParen);
    let closed = (opened + newlines(inner)).push(TokenView::RParen);
    let tokens = opened + newlines(inner) + seq![TokenView::RParen] + newlines(trailing);
    assert(tokens =~= closed + newlines(trailing));
    lemma_leading_newlines(leading, default_indentation);
    lemma_significant_push(newlines(leading), TokenView::LParen);
    list_opens_without_line_break(newlines(leading), inner);
    lemma_significant_push(opened + newlines(inner), TokenView::RParen);
    lemma_trailing_newlines(closed, trailing);
    let kept = opened.push(TokenView::RParen);
    assert(significant(tokens) == kept + newlines(trailing));
    lemma_run_push(start, newlines(leading), TokenView::LParen);
    lemma_run_push(start, opened, TokenView::RParen);
    lemma_run_concat(start, kept, newlines(trailing));
    let pair = start.lparen().rparen();
    let text = seq!['(', ')'];
    assert(start.lparen().output =~= seq!['(']);
    assert(pair.output =~= text);
    assert(text + breaks(0) =~= text);
    assert(pair.levels =~= Seq::<Level>::empty());
    assert(flat_state(pair, text, Some(0)));
    lemma_flat_rest(pair, text, Some(0), newlines(trailing));
    lemma_joined_newlines(trailing, Some(0));
    assert(text + breaks(1) =~= seq!['(', ')', '\n']);
}

/// Whether the text that a token brings with it holds no closing
/// parenthesis; true of a token that brings none.
pub open spec fn writes_no_closing_paren(token: TokenView) -> bool {
    match token {
        TokenView::Atom(atom) => atom.text matches Ok(text) ==> !text.contains(')'),
        TokenView::PrefixOperator(text) => !text.contains(')'),
        TokenView::Comment(text) => !text.contains(')'),
        _ => true,
    }
}

/// Whether every closing parenthesis of a text, unless it is the first
/// character, stands directly behind a character that shows.
pub open spec fn parens_hug_content(text: Seq<char>) -> bool {
    forall|j: int| 0 < j < text.len() && #[trigger] text[j] == ')' ==> visible(text[j - 1])
}

/// Text without a closing parenthesis can be added behind any text.
pub proof fn lemma_added_text_keeps_hug(text: Seq<char>, added: Seq<char>)
    requires
        parens_hug_content(text),
        !added.contains(')'),
    ensures
        parens_hug_content(text + added),
{
    let whole = text + added;
    assert forall|j: int| 0 < j < whole.len() && #[trigger] whole[j] == ')' implies visible(
        whole[j - 1],
    ) by {
        if j < text.len() {
            assert(text[j] == ')');
        } else {
            assert(added.contains(added[j - text.len()]));
        }
    }
}

/// The text without the line breaks at its end is a start of the text.
pub proof fn lemma_without_trailing_newlines_is_prefix(text: Seq<char>)
    ensures
        without_trailing_newlines(text).len() <= text.len(),
        without_trailing_newlines(text) == text.take(without_trailing_newlines(text).len() as int),
    decreases text.len(),
{
    if text.len() > 0 && text.last() == '\n' {
        let shorter = text.drop_last();
        lemma_without_trailing_newlines_is_prefix(shorter);
        let kept = without_trailing_newlines(shorter).len() as int;
        assert(shorter.take(kept) =~= text.take(kept));
    } else {
        assert(text.take(text.len() as int) =~= text);
    }
}

/// A closing parenthesis that takes the place of the line breaks at the
/// end of a text hugs the content before them.
pub proof fn lemma_closed_text_keeps_hug(text: Seq<char>, closing: char)
    requires
        parens_hug_content(text),
        content_ends_visibly(text),
    ensures
        parens_hug_content(without_trailing_newlines(text).push(closing)),
{
    lemma_without_trailing_newlines_is_prefix(text);
    let content = without_trailing_newlines(text);
    let closed = content.push(closing);
    assert forall|j: int| 0 < j < closed.len() && #[trigger] closed[j] == ')' implies visible(
        closed[j - 1],
    ) by {
        if j < content.len() {
            assert(text[j] == ')');
        }
    }
}

/// One token keeps every closing parenthesis of the text hugging its
/// content.
pub proof fn lemma_step_keeps_hug(layout: Layout, token: TokenView)
    requires
        parens_hug_content(layout.output),
        content_ends_visibly(layout.output),
        writes_visibly(token),
        writes_no_closing_paren(token),
    ensures
        layout.step(token) matches Ok(next) ==> parens_hug_content(next.output),
{
    let indent = spaces(layout.indentation());
    assert(!indent.contains(')'));
    assert(!seq![' '].contains(')'));
    assert(!Seq::<char>::empty().contains(')'));
    let space = layout.leading_space().output;
    assert(parens_hug_content(space)) by {
        if layout.at_line_start() {
            lemma_added_text_keeps_hug(layout.output, indent);
        } else if layout.preceded_by_expression {
            lemma_added_text_keeps_hug(layout.output, seq![' ']);
            assert(layout.output + seq![' '] =~= layout.output.push(' '));
        }
    }
    let placed = layout.put_default_level_or_leading_space().output;
    assert(parens_hug_content(placed));
    match token {
        TokenView::Atom(atom) => {
            if let Ok(text) = atom.text {
                if layout.awaiting_new_level {
                    lemma_added_text_keeps_hug(layout.output, text);
                } else {
                    lemma_added_text_keeps_hug(space, text);
                }
            }
        },
        TokenView::LParen => {
            assert(!seq!['('].contains(')'));
            lemma_added_text_keeps_hug(placed, seq!['(']);
            assert(placed + seq!['('] =~= placed.push('('));
        },
        TokenView::RParen => {
            lemma_closed_text_keeps_hug(layout.output, ')');
        },
        TokenView::PrefixOperator(text) => {
            lemma_added_text_keeps_hug(placed, text);
        },
        TokenView::NewLine => {
            assert(!seq!['\n'].contains(')'));
            lemma_added_text_keeps_hug(layout.output, seq!['\n']);
            assert(layout.output + seq!['\n'] =~= layout.output.push('\n'));
        },
        TokenView::Comment(text) => {
            let gap = if layout.awaiting_new_level {
                seq![' ']
            } else {
                Seq::<char>::empty()
            };
            lemma_added_text_keeps_hug(placed, gap);
            lemma_added_text_keeps_hug(placed + gap, text);
            assert(!seq!['\n'].contains(')'));
            lemma_added_text_keeps_hug(placed + gap + text, seq!['\n']);
            assert(placed + gap + text + seq!['\n'] =~= (placed + gap + text).push('\n'));
        },
    }
}

/// A pass keeps every closing parenthesis of its text hugging its content.
pub proof fn lemma_run_keeps_hug(start: Layout, tokens: Seq<TokenView>)
    requires
        parens_hug_content(start.output),
        content_ends_visibly(start.output),
        forall|i: int| 0 <= i < tokens.len() ==> writes_visibly(#[trigger] tokens[i]),
        forall|i: int| 0 <= i < tokens.len() ==> writes_no_closing_paren(#[trigger] tokens[i]),
    ensures
        run(start, tokens) matches Ok(layout) ==> parens_hug_content(layout.output)
            && content_ends_visibly(layout.output),
    decreases tokens.len(),
{
    if tokens.len() > 0 {
        let earlier = tokens.drop_last();
        assert forall|i: int| 0 <= i < earlier.len() implies writes_visibly(
            #[trigger] earlier[i],
        ) by {
            assert(earlier[i] == tokens[i]);
        }
        assert forall|i: int| 0 <= i < earlier.len() implies writes_no_closing_paren(
            #[trigger] earlier[i],
        ) by {
            assert(earlier[i] == tokens[i]);
        }
        lemma_run_keeps_hug(start, earlier);
        if let Ok(before) = run(start, earlier) {
            lemma_step_keeps_hug(before, tokens.last());
            lemma_step_keeps_content_visible(before, tokens.last());
        }
    }
}

/// Every token of the tokens that count is a token of the stream.
pub proof fn lemma_significant_keeps(tokens: Seq<TokenView>, holds: spec_fn(TokenView) -> bool)
    requires
        forall|i: int| 0 <= i < tokens.len() ==> holds(#[trigger] tokens[i]),
    ensures
        forall|i: int| 0 <= i < significant(tokens).len() ==> holds(
            #[trigger] significant(tokens)[i],
        ),
    decreases tokens.len(),
{
    if tokens.len() > 0 {
        let earlier = tokens.drop_last();
        assert forall|i: int| 0 <= i < earlier.len() implies holds(#[trigger] earlier[i]) by {
            assert(earlier[i] == tokens[i]);
        }
        lemma_significant_keeps(earlier, holds);
        assert(holds(tokens[tokens.len() - 1]));
        let kept = significant(earlier);
        assert forall|i: int| 0 <= i < significant(tokens).len() implies holds(
            #[trigger] significant(tokens)[i],
        ) by {
            if i < kept.len() {
                assert(significant(tokens)[i] == kept[i]);
            }
        }
    }
}

/// Whether a text ends in exactly one line break.
pub open spec fn ends_in_one_line_break(text: Seq<char>) -> bool {
    &&& text.len() > 0
    &&& text.last() == '\n'
    &&& text.len() >= 2 ==> text[text.len() - 2] != '\n'
}

/// A finished text ends in exactly one line break.
pub proof fn lemma_normalized_ends_in_one_line_break(text: Seq<char>)
    ensures
        ends_in_one_line_break(normalized(text)),
{
    lemma_no_trailing_newline(text);
}

/// The formatted text always ends in exactly one line break.
pub proof fn formatted_text_ends_in_one_line_break(
    tokens: Seq<TokenView>,
    default_indentation: nat,
)
    ensures
        formatted(tokens, default_indentation) matches Ok(text) ==> ends_in_one_line_break(text),
{
    if let Ok(layout) = run(Layout::new(default_indentation), significant(tokens)) {
        lemma_normalized_ends_in_one_line_break(layout.output);
    }
}

/// Where every atom, operator and comment ends in a character that shows
/// and holds no closing parenthesis, no closing parenthesis of the
/// formatted text dangles: none stands behind a line break with nothing but
/// spaces between them. Each one, unless the text starts with it, directly
/// follows a character that is neither a space nor a line break.
pub proof fn formatted_text_has_no_dangling_paren(
    tokens: Seq<TokenView>,
    default_indentation: nat,
)
    requires
        forall|i: int| 0 <= i < tokens.len() ==> writes_visibly(#[trigger] tokens[i]),
        forall|i: int| 0 <= i < tokens.len() ==> writes_no_closing_paren(#[trigger] tokens[i]),
    ensures
        formatted(tokens, default_indentation) matches Ok(text) ==> {
            &&& parens_hug_content(text)
            &&& forall|i: int, j: int|
                0 <= i < j < text.len() && #[trigger] text[i] == '\n' && #[trigger] text[j] == ')'
                    ==> i < j - 1 && text[j - 1] != ' ' && text[j - 1] != '\n'
        },
{
    lemma_significant_keeps(tokens, |token: TokenView| writes_visibly(token));
    lemma_significant_keeps(tokens, |token: TokenView| writes_no_closing_paren(token));
    let start = Layout::new(default_indentation);
    assert(without_trailing_newlines(start.output) =~= Seq::<char>::empty());
    lemma_run_keeps_hug(start, significant(tokens));
    if let Ok(layout) = run(start, significant(tokens)) {
        lemma_closed_text_keeps_hug(layout.output, '\n');
        let text = normalized(layout.output);
        assert forall|i: int, j: int|
            0 <= i < j < text.len() && #[trigger] text[i] == '\n' && #[trigger] text[j]
                == ')' implies i < j - 1 && text[j - 1] != ' ' && text[j - 1] != '\n' by {
            assert(visible(text[j - 1]));
        }
    }
}

} // verus!
