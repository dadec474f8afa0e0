//! Collecting the text of a recording, piece by piece.

use vstd::prelude::*;

use crate::output::{type_text, typed};
use crate::text;
use crate::text::trimmed;

verus! {

/// News about the text of a recording.
pub enum TranscriptEvent {
    /// A piece that will not change any more, and all the text up to it.
    Final { delta: String, accumulated: String },
    /// A guess that may still change.
    Interim(String),
}

/// Whether text in this output mode goes to the clipboard only.
pub open spec fn clipboard_only(output_mode: Seq<char>) -> bool {
    output_mode == "clipboard"@
}

/// Text with a piece behind it, and a space between them unless there is one or
/// the text is empty.
pub open spec fn joined(text: Seq<char>, piece: Seq<char>) -> Seq<char> {
    if text.len() == 0 || text.last() == ' ' {
        text + piece
    } else {
        text.push(' ') + piece
    }
}

/// What is to be done with a new piece of text.
pub struct Delivery {
    /// All the text so far: for the clipboard, the transcript file and the overlay.
    pub full: String,
    /// What to type, where the output mode asks for typing.
    pub typed: Option<String>,
}

/// What is to be done at the end of a recording.
pub struct Ending {
    /// Whether to press Enter.
    pub press_enter: bool,
    /// The line for the history.
    pub history: String,
}

/// The text of a recording so far.
pub struct Transcript {
    full: String,
}

impl View for Transcript {
    type V = Seq<char>;

    closed spec fn view(&self) -> Seq<char> {
        self.full@
    }
}

impl Transcript {
    /// The text at the start of a recording: none.
    pub fn new() -> (t: Transcript)
        ensures
            t@ == Seq::<char>::empty(),
    {
        Transcript { full: String::new() }
    }

    /// The text so far.
    pub fn text(&self) -> (r: &str)
        ensures
            r@ == self@,
    {
        self.full.as_str()
    }

    /// Adds a piece that has been transcribed, and says what is to be done with
    /// it; an empty piece changes nothing and nothing is to be done.
    pub fn add_piece(&mut self, piece: &str, output_mode: &str) -> (r: Option<Delivery>)
        ensures
            match r {
                None => piece@.len() == 0 && final(self)@ == old(self)@,
                Some(d) => {
                    &&& piece@.len() > 0
                    &&& final(self)@ == joined(old(self)@, piece@)
                    &&& d.full@ == final(self)@
                    &&& match d.typed {
                        None => clipboard_only(output_mode@),
                        Some(t) => !clipboard_only(output_mode@) && t@ == typed(piece@),
                    }
                },
            },
    {
        if piece.is_empty() {
            return None;
        }
        if !self.full.as_str().is_empty() && !text::ends_with_space(self.full.as_str()) {
            self.full.append(" ");
            proof {
                reveal_strlit(" ");
            }
            assert(self.full@ =~= old(self)@.push(' '));
        }
        self.full.append(piece);
        let typed: Option<String> = if text::same_text(output_mode, "clipboard") {
            None
        } else {
            type_text(piece)
        };
        Some(Delivery { full: self.full.clone(), typed })
    }

    /// Says what is to be done at the end of the recording: Enter is pressed where
    /// it is wanted, text was typed and there was any; the history gets the text
    /// without the white space around it.
    pub fn ending(&self, enter: bool, output_mode: &str) -> (r: Ending)
        ensures
            r.history@ == trimmed(self@),
            r.press_enter == (enter && !clipboard_only(output_mode@) && trimmed(self@).len() > 0),
    {
        let history: &str = text::trim(self.full.as_str());
        let press_enter: bool = enter && !text::same_text(output_mode, "clipboard")
            && !history.is_empty();
        Ending { press_enter, history: history.to_owned() }
    }
}

/// Adding a piece keeps the text before it and the piece whole, and never glues
/// the two together.
pub proof fn lemma_joined(text: Seq<char>, piece: Seq<char>)
    ensures
        joined(text, piece).take(text.len() as int) == text,
        joined(text, piece).skip(joined(text, piece).len() - piece.len()) == piece,
        text.len() > 0 ==> joined(text, piece)[joined(text, piece).len() - piece.len() - 1] == ' ',
        text.len() + piece.len() <= joined(text, piece).len() <= text.len() + piece.len() + 1,
{
    let all = joined(text, piece);
    assert(all.take(text.len() as int) =~= text);
    assert(all.skip(all.len() - piece.len()) =~= piece);
}

/// The text after these pieces.
pub open spec fn collected(pieces: Seq<Seq<char>>) -> Seq<char>
    decreases pieces.len(),
{
    if pieces.len() == 0 {
        Seq::empty()
    } else {
        joined(collected(pieces.drop_last()), pieces.last())
    }
}

/// The key strokes for these pieces.
pub open spec fn key_strokes(pieces: Seq<Seq<char>>) -> Seq<char>
    decreases pieces.len(),
{
    if pieces.len() == 0 {
        Seq::empty()
    } else {
        key_strokes(pieces.drop_last()) + typed(pieces.last())
    }
}

/// What is typed piece by piece is what would be typed for the collected text
/// at once: they differ by no more than the space behind the last piece.
pub proof fn lemma_typing_follows_text(pieces: Seq<Seq<char>>)
    requires
        pieces.len() > 0,
        forall|i: int| 0 <= i < pieces.len() ==> (#[trigger] pieces[i]).len() > 0,
    ensures
        key_strokes(pieces) == typed(collected(pieces)),
        collected(pieces).len() > 0,
    decreases pieces.len(),
{
    let before = pieces.drop_last();
    let piece = pieces.last();
    assert(pieces[pieces.len() - 1].len() > 0);
    if before.len() == 0 {
        assert(collected(before) =~= Seq::empty() && key_strokes(before) =~= Seq::empty());
        assert(collected(pieces) =~= piece);
        assert(key_strokes(pieces) =~= typed(piece));
    } else {
        assert forall|i: int| 0 <= i < before.len() implies (#[trigger] before[i]).len() > 0 by {
            assert(before[i] == pieces[i]);
        }
        lemma_typing_follows_text(before);
        assert(collected(pieces).last() == piece.last());
        assert(key_strokes(pieces) =~= typed(collected(pieces)));
    }
}

/// The first piece is the whole text. A piece behind text that ends with a space
/// follows at once, and one behind other text follows after one space; nothing
/// else is added, left out or changed.
pub proof fn lemma_joined_exactly(text: Seq<char>, piece: Seq<char>)
    ensures
        joined(Seq::empty(), piece) == piece,
        joined(text.push(' '), piece) == text.push(' ') + piece,
        text.len() > 0 && text.last() != ' ' ==> joined(text, piece) == text + seq![' '] + piece,
{
    assert(Seq::<char>::empty() + piece =~= piece);
    assert(text.push(' ') =~= text + seq![' ']);
}

/// Text goes to the clipboard only in the output mode of that name, letter for
/// letter, and in no other.
pub proof fn lemma_clipboard_only(output_mode: Seq<char>)
    ensures
        clipboard_only(output_mode) <==> output_mode == seq![
            'c',
            'l',
            'i',
            'p',
            'b',
            'o',
            'a',
            'r',
            'd',
        ],
{
    reveal_strlit("clipboard");
    assert("clipboard"@ =~= seq!['c', 'l', 'i', 'p', 'b', 'o', 'a', 'r', 'd']);
}

} // verus!
