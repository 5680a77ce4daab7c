//! The text buffer: the operations on `String` that the formatter uses.

use vstd::prelude::*;

verus! {

/// `String::push`: appends the given character to the end of the string.
pub assume_specification[ String::push ](text: &mut String, ch: char)
    ensures
        final(text)@ == old(text)@.push(ch),
;

/// `String::pop`: removes the last character from the string and returns
/// it, or returns `None` and changes nothing when the string is empty.
pub assume_specification[ String::pop ](text: &mut String) -> (ch: Option<char>)
    ensures
        old(text)@.len() > 0 ==> {
            &&& ch == Some(old(text)@.last())
            &&& final(text)@ == old(text)@.drop_last()
        },
        old(text)@.len() == 0 ==> ch is None && final(text)@ == old(text)@,
;

/// `str::ends_with` with a string as its pattern: whether `suffix` matches
/// the end of `text`. Both are valid UTF-8, so their bytes match exactly
/// when their characters do.
#[verifier::external_body]
pub(crate) fn ends_with(text: &str, suffix: &str) -> (found: bool)
    ensures
        found == suffix@.is_suffix_of(text@),
{
    text.ends_with(suffix)
}

/// A run of `count` spaces.
pub open spec fn spaces(count: nat) -> Seq<char> {
    Seq::new(count, |i: int| ' ')
}

/// A run of `count` line breaks.
pub open spec fn breaks(count: nat) -> Seq<char> {
    Seq::new(count, |i: int| '\n')
}

/// `text` without the line breaks at its end.
pub open spec fn without_trailing_newlines(text: Seq<char>) -> Seq<char>
    decreases text.len(),
{
    if text.len() > 0 && text.last() == '\n' {
        without_trailing_newlines(text.drop_last())
    } else {
        text
    }
}

/// Whether `text` is not empty and ends in a line break.
pub(crate) fn ends_with_newline(text: &String) -> (found: bool)
    ensures
        found == (text@.len() > 0 && text@.last() == '\n'),
{
    proof {
        reveal_strlit("\n");
    }
    let found = ends_with(text.as_str(), "\n");
    proof {
        if text@.len() >= 1 {
            let tail = text@.subrange(text@.len() - 1, text@.len() as int);
            assert(tail[0] == text@.last());
            assert("\n"@[0] == '\n');
        }
    }
    found
}

/// Whether `text` ends in two line breaks.
pub(crate) fn ends_with_blank_line(text: &String) -> (found: bool)
    ensures
        found == (text@.len() >= 2 && text@[text@.len() - 1] == '\n' && text@[text@.len() - 2]
            == '\n'),
{
    proof {
        reveal_strlit("\n\n");
    }
    let found = ends_with(text.as_str(), "\n\n");
    proof {
        let suffix = "\n\n"@;
        if text@.len() >= 2 {
            let tail = text@.subrange(text@.len() - 2, text@.len() as int);
            assert(tail[0] == text@[text@.len() - 2]);
            assert(tail[1] == text@[text@.len() - 1]);
            assert(suffix[0] == '\n' && suffix[1] == '\n');
        }
    }
    found
}

/// Appends `count` spaces to `text`.
pub(crate) fn push_spaces(text: &mut String, count: usize)
    ensures
        final(text)@ == old(text)@ + spaces(count as nat),
{
    let mut written: usize = 0;
    while written < count
        invariant
            written <= count,
            text@ == old(text)@ + spaces(written as nat),
        decreases count - written,
    {
        text.push(' ');
        written = written + 1;
    }
}

/// Removes every line break at the end of `text`.
pub(crate) fn strip_trailing_newlines(text: &mut String)
    ensures
        final(text)@ == without_trailing_newlines(old(text)@),
{
    while ends_with_newline(text)
        invariant
            without_trailing_newlines(text@) == without_trailing_newlines(old(text)@),
        decreases text@.len(),
    {
        let _ = text.pop();
    }
}

/// Line breaks behind a text that ends in none are the line breaks at the
/// end of the whole.
pub proof fn lemma_without_trailing_breaks(base: Seq<char>, count: nat)
    requires
        base.len() == 0 || base.last() != '\n',
    ensures
        without_trailing_newlines(base + breaks(count)) == base,
    decreases count,
{
    if count == 0 {
        assert(base + breaks(0) =~= base);
    } else {
        let fewer = (count - 1) as nat;
        assert((base + breaks(count)).drop_last() =~= base + breaks(fewer));
        lemma_without_trailing_breaks(base, fewer);
    }
}

/// Line breaks behind a text do not change what the text is without the
/// line breaks at its end.
pub proof fn lemma_breaks_are_trailing(text: Seq<char>, count: nat)
    ensures
        without_trailing_newlines(text + breaks(count)) == without_trailing_newlines(text),
    decreases count,
{
    if count == 0 {
        assert(text + breaks(0) =~= text);
    } else {
        let fewer = (count - 1) as nat;
        assert((text + breaks(count)).drop_last() =~= text + breaks(fewer));
        lemma_breaks_are_trailing(text, fewer);
    }
}

} // verus!
