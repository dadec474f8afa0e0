//! What is typed into the focused window.

use vstd::prelude::*;

use crate::text;

verus! {

/// The key strokes for a piece of text: the text, with a space behind it so
/// that the next piece does not run into it.
pub open spec fn typed(text: Seq<char>) -> Seq<char> {
    if text.len() > 0 && text.last() == ' ' {
        text
    } else {
        text.push(' ')
    }
}

/// The characters to type for a piece of text; none where it is empty.
pub fn type_text(text: &str) -> (out: Option<String>)
    ensures
        match out {
            None => text@.len() == 0,
            Some(s) => text@.len() > 0 && s@ == typed(text@),
        },
{
    if text.is_empty() {
        None
    } else if text::ends_with_space(text) {
        Some(text.to_owned())
    } else {
        let mut s: String = text.to_owned();
        s.append(" ");
        proof {
            reveal_strlit(" ");
        }
        assert(s@ =~= text@.push(' '));
        Some(s)
    }
}

/// What is typed begins with the text, ends with a space and has at most one
/// character more; typing it again would add nothing.
pub proof fn lemma_typed(text: Seq<char>)
    ensures
        typed(text).take(text.len() as int) == text,
        typed(text).last() == ' ',
        text.len() <= typed(text).len() <= text.len() + 1,
        typed(typed(text)) == typed(text),
{
    assert(typed(text).take(text.len() as int) =~= text);
}

/// A space is added behind text that ends without one, and behind no other.
pub proof fn lemma_one_space_behind(text: Seq<char>)
    ensures
        typed(text.push(' ')) == text.push(' '),
        text.len() > 0 && text.last() != ' ' ==> typed(text) == text.push(' '),
{
}

} // verus!
