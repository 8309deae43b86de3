//! Hiding a model's reasoning while its output streams in.
//!
//! A model brackets its reasoning by `<think>` and `</think>`, or by
//! `<thinking>` and `</thinking>`. Output comes in pieces, and a tag may be
//! broken over several of them, so [`ThinkingFilter`] holds the end of what it
//! has seen back until the next piece, or the end of the stream, settles it.

use vstd::prelude::*;

use crate::stream;
use crate::text;

verus! {

/// The short tag that opens (`inside == false`) or closes a reasoning block.
pub open spec fn short_tag(inside: bool) -> Seq<char> {
    if inside {
        "</think>"@
    } else {
        "<think>"@
    }
}

/// The long tag that opens (`inside == false`) or closes a reasoning block.
pub open spec fn long_tag(inside: bool) -> Seq<char> {
    if inside {
        "</thinking>"@
    } else {
        "<thinking>"@
    }
}

/// How many bytes are held back while no tag is in sight.
pub open spec fn hold(inside: bool) -> nat {
    if inside {
        11
    } else {
        10
    }
}

/// Where the next tag stands, short or long, and how long it is.
pub open spec fn next_tag(inside: bool, text: Seq<char>) -> Option<(int, nat)> {
    let short = text::find_text(text, short_tag(inside));
    let long = text::find_text(text, long_tag(inside));
    match (short, long) {
        (Some(i), Some(j)) => if i <= j {
            Some((i, short_tag(inside).len()))
        } else {
            Some((j, long_tag(inside).len()))
        },
        (Some(i), None) => Some((i, short_tag(inside).len())),
        (None, Some(j)) => Some((j, long_tag(inside).len())),
        (None, None) => None,
    }
}

/// What one call makes of the text that the filter holds.
#[verifier::ext_equal]
pub struct Scan {
    /// What is shown.
    pub shown: Seq<char>,
    /// Whether the scan ends inside a reasoning block.
    pub inside: bool,
    /// What is held back.
    pub rest: Seq<char>,
}

/// Scans `text`, block by block.
pub open spec fn scan(show: bool, inside: bool, text: Seq<char>) -> Scan
    decreases text.len(),
{
    proof {
        lemma_next_tag(inside, text);
    }
    match next_tag(inside, text) {
        Some((i, n)) => {
            let later = scan(show, !inside, text.skip(i + n));
            let shown = if show {
                text.take(i + n)
            } else if inside {
                Seq::empty()
            } else {
                text.take(i)
            };
            Scan { shown: shown + later.shown, ..later }
        },
        None => Scan {
            shown: if show || !inside {
                text::head(text, hold(inside))
            } else {
                Seq::empty()
            },
            inside,
            rest: text::tail(text, hold(inside)),
        },
    }
}

/// What is left of `text` once its last tag has been passed, and on which side
/// of that tag it lies.
pub open spec fn leftover(inside: bool, text: Seq<char>) -> (bool, Seq<char>)
    decreases text.len(),
{
    proof {
        lemma_next_tag(inside, text);
    }
    match next_tag(inside, text) {
        Some((i, n)) => leftover(!inside, text.skip(i + n)),
        None => (inside, text),
    }
}

/// The part of the leftover that is to be held back consists of whole characters.
pub open spec fn settles(inside: bool, text: Seq<char>) -> bool {
    text::aligned(leftover(inside, text).1, hold(leftover(inside, text).0))
}

/// A tag lies within the text and takes up some of it.
pub proof fn lemma_next_tag(inside: bool, text: Seq<char>)
    ensures
        next_tag(inside, text) matches Some((i, n)) ==> {
            &&& 0 <= i
            &&& 0 < n
            &&& i + n <= text.len()
            &&& text.skip(i + n).len() < text.len()
        },
{
    lemma_tags();
    text::lemma_find_text(text, short_tag(inside));
    text::lemma_find_text(text, long_tag(inside));
}

/// How long the tags are.
pub proof fn lemma_tags()
    ensures
        short_tag(false).len() == 7,
        long_tag(false).len() == 10,
        short_tag(true).len() == 8,
        long_tag(true).len() == 11,
{
    reveal_strlit("<think>");
    reveal_strlit("<thinking>");
    reveal_strlit("</think>");
    reveal_strlit("</thinking>");
}

/// The state of a filter.
#[verifier::ext_equal]
pub struct FilterState {
    /// Whether reasoning is shown.
    pub show: bool,
    /// Whether the stream is inside a reasoning block.
    pub inside: bool,
    /// What is held back.
    pub held: Seq<char>,
}

/// The state at the start of a stream.
pub open spec fn fresh(show: bool) -> FilterState {
    FilterState { show, inside: false, held: Seq::empty() }
}

impl FilterState {
    /// The piece can be taken: no character is torn apart by what is held back.
    pub open spec fn accepts(self, piece: Seq<char>) -> bool {
        settles(self.inside, self.held + piece)
    }

    /// What is shown when the piece is taken.
    pub open spec fn shown(self, piece: Seq<char>) -> Seq<char> {
        scan(self.show, self.inside, self.held + piece).shown
    }

    /// The state once the piece has been taken.
    pub open spec fn after(self, piece: Seq<char>) -> FilterState {
        let s = scan(self.show, self.inside, self.held + piece);
        FilterState { show: self.show, inside: s.inside, held: s.rest }
    }

    /// What is shown when the stream ends.
    pub open spec fn remaining(self) -> Seq<char> {
        if self.show || !self.inside {
            self.held
        } else {
            Seq::empty()
        }
    }
}

/// Filters a stream of text, piece by piece.
pub struct ThinkingFilter {
    show_thinking: bool,
    in_thinking: bool,
    buffer: String,
}

impl View for ThinkingFilter {
    type V = FilterState;

    closed spec fn view(&self) -> FilterState {
        FilterState { show: self.show_thinking, inside: self.in_thinking, held: self.buffer@ }
    }
}

/// The next tag in `text`: what stands before it, the tag, what stands after it.
fn split_at_tag<'a>(inside: bool, text: &'a str) -> (r: Option<(&'a str, &'static str, &'a str)>)
    ensures
        match r {
            Some((before, tag, after)) => {
                &&& next_tag(inside, text@) == Some((before@.len() as int, tag@.len()))
                &&& text@ == before@ + tag@ + after@
            },
            None => next_tag(inside, text@) is None,
        },
{
    let short: &'static str = if inside {
        "</think>"
    } else {
        "<think>"
    };
    let long: &'static str = if inside {
        "</thinking>"
    } else {
        "<thinking>"
    };
    proof {
        lemma_tags();
    }
    match (text::split_at_first(text, short), text::split_at_first(text, long)) {
        (Some((before, after)), Some((before_long, after_long))) => {
            if before.unicode_len() <= before_long.unicode_len() {
                Some((before, short, after))
            } else {
                Some((before_long, long, after_long))
            }
        },
        (Some((before, after)), None) => Some((before, short, after)),
        (None, Some((before, after))) => Some((before, long, after)),
        (None, None) => None,
    }
}

/// How many bytes are held back while no tag is in sight.
fn hold_size(inside: bool) -> (r: usize)
    ensures
        r == hold(inside),
{
    if inside {
        11
    } else {
        10
    }
}

impl ThinkingFilter {
    /// A filter at the start of a stream.
    pub fn new(show_thinking: bool) -> (r: Self)
        ensures
            r@ == fresh(show_thinking),
            r@.show == show_thinking,
            !r@.inside,
            r@.held == Seq::<char>::empty(),
    {
        ThinkingFilter { show_thinking, in_thinking: false, buffer: String::new() }
    }

    /// Whether [`process`](Self::process) can take the piece.
    pub fn accepts(&self, piece: &str) -> (r: bool)
        ensures
            r == self@.accepts(piece@),
    {
        let mut inside = self.in_thinking;
        let mut rest = self.buffer.clone();
        rest.append(piece);
        loop
            invariant
                leftover(inside, rest@) == leftover(self@.inside, self@.held + piece@),
            decreases rest@.len(),
        {
            proof {
                lemma_next_tag(inside, rest@);
            }
            match split_at_tag(inside, rest.as_str()) {
                Some((before, tag, after)) => {
                    assert(rest@.skip(before@.len() as int + tag@.len()) =~= after@);
                    let next = after.to_owned();
                    rest = next;
                    inside = !inside;
                },
                None => {
                    return text::is_aligned(rest.as_str(), hold_size(inside));
                },
            }
        }
    }

    /// Takes a piece of the stream and gives back what is to be shown of it.
    ///
    /// The end of the text may be the beginning of a tag, so some bytes of it are
    /// held back. They must be whole characters.
    pub fn process(&mut self, piece: &str) -> (r: String)
        requires
            old(self)@.accepts(piece@),
        ensures
            r@ == old(self)@.shown(piece@),
            final(self)@ == old(self)@.after(piece@),
            final(self)@.show == old(self)@.show,
            old(self)@.show ==> r@ + final(self)@.held == old(self)@.held + piece@,
            text::utf8_len(final(self)@.held) <= if final(self)@.inside {
                11nat
            } else {
                10
            },
    {
        proof {
            stream::nothing_is_lost(self@, piece@);
            stream::little_is_held_back(self@, piece@);
        }
        let show = self.show_thinking;
        let ghost whole = scan(show, self@.inside, self@.held + piece@);
        self.buffer.append(piece);
        let mut output = String::new();
        assert(Seq::<char>::empty() + whole.shown =~= whole.shown);
        loop
            invariant_except_break
                self.show_thinking == show,
                ({
                    let s = scan(show, self.in_thinking, self.buffer@);
                    whole == (Scan { shown: output@ + s.shown, ..s })
                }),
                settles(self.in_thinking, self.buffer@),
            ensures
                self.show_thinking == show,
                whole == (Scan {
                    shown: output@,
                    inside: self.in_thinking,
                    rest: self.buffer@,
                }),
            decreases self.buffer@.len(),
        {
            let inside = self.in_thinking;
            let ghost text = self.buffer@;
            let ghost shown = output@;
            proof {
                lemma_next_tag(inside, text);
            }
            match split_at_tag(inside, self.buffer.as_str()) {
                Some((before, tag, after)) => {
                    let ghost i = before@.len() as int;
                    let ghost n = tag@.len();
                    proof {
                        assert(text.skip(i + n) =~= after@);
                        assert(text.take(i) =~= before@);
                        assert(text.take(i + n) =~= before@ + tag@);
                    }
                    if show || !inside {
                        output.append(before);
                    }
                    if show {
                        output.append(tag);
                    }
                    let next = after.to_owned();
                    self.buffer = next;
                    self.in_thinking = !inside;
                    proof {
                        let s = scan(show, !inside, after@);
                        assert(whole.shown =~= output@ + s.shown);
                    }
                },
                None => {
                    let (shown_now, held) = text::split_tail(
                        self.buffer.as_str(),
                        hold_size(inside),
                    );
                    if show || !inside {
                        output.append(shown_now);
                    }
                    let next = held.to_owned();
                    self.buffer = next;
                    assert(whole.shown =~= output@);
                    break;
                },
            }
        }
        output
    }

    /// Ends the stream and gives back what is still to be shown.
    pub fn flush(&mut self) -> (r: String)
        ensures
            r@ == old(self)@.remaining(),
            r@ == if old(self)@.show || !old(self)@.inside {
                old(self)@.held
            } else {
                Seq::<char>::empty()
            },
            final(self)@.show == old(self)@.show,
            final(self)@.inside == old(self)@.inside,
            final(self)@.held == Seq::<char>::empty(),
            final(self)@ == (FilterState { held: Seq::empty(), ..old(self)@ }),
    {
        let rest = if !self.in_thinking || self.show_thinking {
            self.buffer.clone()
        } else {
            String::new()
        };
        self.buffer = String::new();
        rest
    }
}

} // verus!
