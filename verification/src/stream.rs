//! What a [`ThinkingFilter`](crate::thinking::ThinkingFilter) makes of a whole
//! stream, however the stream is cut into pieces.

use vstd::prelude::*;

use crate::text;
use crate::thinking;
use crate::thinking::FilterState;

verus! {

/// What is shown of the pieces, and the state that they leave.
pub open spec fn run(state: FilterState, pieces: Seq<Seq<char>>) -> (Seq<char>, FilterState)
    decreases pieces.len(),
{
    if pieces.len() == 0 {
        (Seq::empty(), state)
    } else {
        let (shown, end) = run(state.after(pieces.first()), pieces.drop_first());
        (state.shown(pieces.first()) + shown, end)
    }
}

/// Everything that is shown of a stream, its end included.
pub open spec fn transcript(show: bool, pieces: Seq<Seq<char>>) -> Seq<char> {
    let (shown, end) = run(thinking::fresh(show), pieces);
    shown + end.remaining()
}

/// The text without its reasoning blocks. A block that is never closed reaches
/// to the end.
pub open spec fn visible(inside: bool, text: Seq<char>) -> Seq<char>
    decreases text.len(),
{
    proof {
        thinking::lemma_next_tag(inside, text);
    }
    match thinking::next_tag(inside, text) {
        Some((i, n)) => {
            let later = visible(!inside, text.skip(i + n));
            if inside {
                later
            } else {
                text.take(i) + later
            }
        },
        None => if inside {
            Seq::empty()
        } else {
            text
        },
    }
}

/// `tag` opens (`inside == false`) or closes a reasoning block.
pub open spec fn is_tag(inside: bool, tag: Seq<char>) -> bool {
    tag == thinking::short_tag(inside) || tag == thinking::long_tag(inside)
}

/// With reasoning shown, one call shows and holds exactly the text that it had.
proof fn lemma_scan_lossless(inside: bool, text: Seq<char>)
    ensures
        thinking::scan(true, inside, text).shown + thinking::scan(true, inside, text).rest == text,
    decreases text.len(),
{
    thinking::lemma_next_tag(inside, text);
    match thinking::next_tag(inside, text) {
        Some((i, n)) => {
            lemma_scan_lossless(!inside, text.skip(i + n));
            let later = thinking::scan(true, !inside, text.skip(i + n));
            assert(text.take(i + n) + later.shown + later.rest =~= text.take(i + n) + (later.shown
                + later.rest));
            assert(text.take(i + n) + text.skip(i + n) =~= text);
        },
        None => {
            text::lemma_tail(text, thinking::hold(inside));
        },
    }
}

/// With reasoning shown, taking a piece loses nothing of it and adds nothing to it:
/// what is shown, and what is held back behind it, is what was held back before and
/// the piece. With reasoning shown or not, the filter goes on as it was set up.
pub proof fn nothing_is_lost(state: FilterState, piece: Seq<char>)
    ensures
        state.after(piece).show == state.show,
        state.show ==> state.shown(piece) + state.after(piece).held == state.held + piece,
{
    lemma_scan_lossless(state.inside, state.held + piece);
}

proof fn lemma_rest(show: bool, inside: bool, text: Seq<char>)
    ensures
        ({
            let s = thinking::scan(show, inside, text);
            let (last_inside, last) = thinking::leftover(inside, text);
            &&& s.inside == last_inside
            &&& s.rest == text::tail(last, thinking::hold(last_inside))
        }),
    decreases text.len(),
{
    thinking::lemma_next_tag(inside, text);
    match thinking::next_tag(inside, text) {
        Some((i, n)) => {
            lemma_rest(show, !inside, text.skip(i + n));
        },
        None => {},
    }
}

/// Whatever comes, no more is held back than the longest tag that may be under way
/// takes: 10 bytes outside a reasoning block and 11 bytes inside one.
pub proof fn little_is_held_back(state: FilterState, piece: Seq<char>)
    ensures
        vstd::utf8::encode_utf8(state.after(piece).held).len() <= if state.after(piece).inside {
            11nat
        } else {
            10
        },
{
    let text = state.held + piece;
    lemma_rest(state.show, state.inside, text);
    let (inside, last) = thinking::leftover(state.inside, text);
    text::lemma_tail(last, thinking::hold(inside));
}

proof fn lemma_run_lossless(state: FilterState, pieces: Seq<Seq<char>>)
    requires
        state.show,
    ensures
        run(state, pieces).1.show,
        run(state, pieces).0 + run(state, pieces).1.held == state.held + pieces.flatten(),
    decreases pieces.len(),
{
    if pieces.len() == 0 {
        assert(Seq::<char>::empty() + state.held =~= state.held + Seq::<char>::empty());
    } else {
        let piece = pieces.first();
        let next = state.after(piece);
        lemma_run_lossless(next, pieces.drop_first());
        lemma_scan_lossless(state.inside, state.held + piece);
        let (shown, end) = run(next, pieces.drop_first());
        let later = pieces.drop_first().flatten();
        assert(state.shown(piece) + shown + end.held =~= state.shown(piece) + (shown + end.held));
        assert(state.shown(piece) + (next.held + later) =~= state.shown(piece) + next.held + later);
        assert(state.held + piece + later =~= state.held + (piece + later));
    }
}

/// With reasoning shown, a stream is shown exactly as it came, however it was
/// cut into pieces: nothing is lost, added or moved.
pub proof fn shown_reasoning_is_lossless(pieces: Seq<Seq<char>>)
    ensures
        transcript(true, pieces) == pieces.flatten(),
{
    lemma_run_lossless(thinking::fresh(true), pieces);
    assert(Seq::<char>::empty() + pieces.flatten() =~= pieces.flatten());
}

/// Every tag is ASCII, fits in what is held back, has its only `<` in front and its
/// only `>` at the end.
proof fn lemma_tag_shape(inside: bool, tag: Seq<char>)
    requires
        is_tag(inside, tag),
    ensures
        0 < tag.len() <= thinking::hold(inside),
        vstd::utf8::is_ascii_chars(tag),
        tag[0] == '<',
        tag.last() == '>',
        forall|k: int| 0 < k < tag.len() ==> tag[k] != '<',
        forall|k: int| 0 <= k < tag.len() - 1 ==> tag[k] != '>',
{
    reveal_strlit("<think>");
    reveal_strlit("<thinking>");
    reveal_strlit("</think>");
    reveal_strlit("</thinking>");
}

/// An occurrence is untouched by what follows it.
proof fn lemma_occurs_extend(text: Seq<char>, more: Seq<char>, tag: Seq<char>, i: int)
    requires
        i + tag.len() <= text.len(),
    ensures
        text::occurs_at(text, tag, i) == text::occurs_at(text + more, tag, i),
{
    if 0 <= i {
        assert((text + more).subrange(i, i + tag.len()) =~= text.subrange(i, i + tag.len()));
    }
}

/// An occurrence moves with what is put in front of it.
proof fn lemma_occurs_shift(front: Seq<char>, text: Seq<char>, tag: Seq<char>, i: int)
    requires
        0 <= i,
    ensures
        text::occurs_at(text, tag, i) == text::occurs_at(front + text, tag, front.len() + i),
{
    if i + tag.len() <= text.len() {
        let k = front.len() + i;
        assert((front + text).subrange(k, k + tag.len()) =~= text.subrange(i, i + tag.len()));
    }
}

/// Two tags of one kind do not overlap.
proof fn lemma_no_overlap(inside: bool, text: Seq<char>, a: Seq<char>, i: int, b: Seq<char>, j: int)
    requires
        is_tag(inside, a),
        is_tag(inside, b),
        text::occurs_at(text, a, i),
        text::occurs_at(text, b, j),
        i < j,
    ensures
        i + a.len() <= j,
{
    lemma_tag_shape(inside, a);
    lemma_tag_shape(inside, b);
    if j < i + a.len() {
        assert(text.subrange(i, i + a.len())[j - i] == text[j]);
        assert(text.subrange(j, j + b.len())[0] == text[j]);
    }
}

/// Two tags of one kind in one place are the same.
proof fn lemma_same_place(inside: bool, text: Seq<char>, a: Seq<char>, b: Seq<char>, i: int)
    requires
        is_tag(inside, a),
        is_tag(inside, b),
        text::occurs_at(text, a, i),
        text::occurs_at(text, b, i),
    ensures
        a == b,
{
    lemma_tag_shape(inside, a);
    lemma_tag_shape(inside, b);
    if a.len() < b.len() {
        let k = a.len() - 1;
        assert(text.subrange(i, i + a.len())[k] == text[i + k]);
        assert(text.subrange(i, i + b.len())[k] == text[i + k]);
    } else if b.len() < a.len() {
        let k = b.len() - 1;
        assert(text.subrange(i, i + a.len())[k] == text[i + k]);
        assert(text.subrange(i, i + b.len())[k] == text[i + k]);
    }
}

/// The next tag is settled by the text up to its end.
proof fn lemma_next_tag_extend(inside: bool, text: Seq<char>, more: Seq<char>)
    requires
        thinking::next_tag(inside, text) is Some,
    ensures
        thinking::next_tag(inside, text + more) == thinking::next_tag(inside, text),
{
    thinking::lemma_tags();
    let short = thinking::short_tag(inside);
    let long = thinking::long_tag(inside);
    let whole = text + more;
    text::lemma_find_text(text, short);
    text::lemma_find_text(text, long);
    text::lemma_find_text(whole, short);
    text::lemma_find_text(whole, long);
    let (i, n) = thinking::next_tag(inside, text)->0;
    if n == short.len() {
        lemma_occurs_extend(text, more, short, i);
        assert forall|j: int| j < i implies !text::occurs_at(whole, short, j) by {
            lemma_occurs_extend(text, more, short, j);
        }
        text::lemma_find_text_is(whole, short, i);
        if text::find_text(whole, long) is Some {
            let j = text::find_text(whole, long)->0;
            if j < i {
                lemma_no_overlap(inside, whole, long, j, short, i);
                lemma_occurs_extend(text, more, long, j);
            }
        }
    } else {
        lemma_occurs_extend(text, more, long, i);
        assert forall|j: int| j < i implies !text::occurs_at(whole, long, j) by {
            lemma_occurs_extend(text, more, long, j);
        }
        text::lemma_find_text_is(whole, long, i);
        if text::find_text(whole, short) is Some {
            let j = text::find_text(whole, short)->0;
            if j <= i {
                lemma_occurs_extend(text, more, short, j);
            }
        }
    }
}

/// Without an occurrence in reach of the front, a search finds the same behind it.
proof fn lemma_find_shift(front: Seq<char>, text: Seq<char>, tag: Seq<char>)
    requires
        forall|i: int| i < front.len() ==> !text::occurs_at(front + text, tag, i),
    ensures
        match text::find_text(text, tag) {
            Some(i) => text::find_text(front + text, tag) == Some(front.len() + i),
            None => text::find_text(front + text, tag) is None,
        },
{
    let whole = front + text;
    text::lemma_find_text(text, tag);
    text::lemma_find_text(whole, tag);
    match text::find_text(text, tag) {
        Some(i) => {
            lemma_occurs_shift(front, text, tag, i);
            assert forall|j: int| j < front.len() + i implies !text::occurs_at(whole, tag, j) by {
                if j >= front.len() {
                    lemma_occurs_shift(front, text, tag, j - front.len());
                }
            }
            text::lemma_find_text_is(whole, tag, front.len() + i);
        },
        None => {
            if text::contains_text(whole, tag) {
                let j = choose|j: int| text::occurs_at(whole, tag, j);
                lemma_occurs_shift(front, text, tag, j - front.len());
                assert(text::occurs_at(text, tag, j - front.len()));
            }
        },
    }
}

/// No tag begins in a part that is no longer held back.
proof fn lemma_head_is_settled(inside: bool, text: Seq<char>, more: Seq<char>, tag: Seq<char>, i: int)
    requires
        is_tag(inside, tag),
        thinking::next_tag(inside, text) is None,
        i < text::head(text, thinking::hold(inside)).len(),
    ensures
        !text::occurs_at(text + more, tag, i),
{
    let n = thinking::hold(inside);
    lemma_tag_shape(inside, tag);
    text::lemma_find_text(text, thinking::short_tag(inside));
    text::lemma_find_text(text, thinking::long_tag(inside));
    if text::occurs_at(text + more, tag, i) {
        if i + tag.len() <= text.len() {
            lemma_occurs_extend(text, more, tag, i);
            assert(text::contains_text(text, tag));
        } else {
            text::lemma_tail(text, n);
            let last = text.skip(i);
            let whole = (text + more).subrange(i, i + tag.len());
            assert forall|k: int| 0 <= k < last.len() implies '\0' <= #[trigger] last[k]
                <= '\u{7f}' by {
                assert(last[k] == whole[k]);
                assert(tag[k] == whole[k]);
            }
            vstd::utf8::is_ascii_chars_encode_utf8(last);
            assert(text =~= text.take(i) + last);
            text::lemma_tail_covers(text.take(i), last, n);
        }
    }
}

/// Where no tag begins in the front, it is visible outside a block and nothing
/// inside one.
proof fn lemma_visible_behind(inside: bool, front: Seq<char>, back: Seq<char>)
    requires
        forall|tag: Seq<char>, i: int|
            is_tag(inside, tag) && i < front.len() ==> !#[trigger] text::occurs_at(
                front + back,
                tag,
                i,
            ),
    ensures
        visible(inside, front + back) == if inside {
            visible(inside, back)
        } else {
            front + visible(inside, back)
        },
{
    lemma_find_shift(front, back, thinking::short_tag(inside));
    lemma_find_shift(front, back, thinking::long_tag(inside));
    thinking::lemma_next_tag(inside, back);
    match thinking::next_tag(inside, back) {
        Some((i, k)) => {
            let later = visible(!inside, back.skip(i + k));
            assert((front + back).skip(front.len() + i + k) =~= back.skip(i + k));
            assert((front + back).take(front.len() + i) + later =~= front + (back.take(i) + later));
        },
        None => {},
    }
}

/// What is let go while no tag is in sight is visible outside a block and
/// nothing inside one.
proof fn lemma_visible_head(inside: bool, text: Seq<char>, more: Seq<char>)
    requires
        thinking::next_tag(inside, text) is None,
    ensures
        ({
            let n = thinking::hold(inside);
            let later = visible(inside, text::tail(text, n) + more);
            visible(inside, text + more) == if inside {
                later
            } else {
                text::head(text, n) + later
            }
        }),
{
    let n = thinking::hold(inside);
    let front = text::head(text, n);
    let back = text::tail(text, n) + more;
    text::lemma_tail(text, n);
    assert(text + more =~= front + back);
    assert forall|tag: Seq<char>, i: int|
        is_tag(inside, tag) && i < front.len() implies !#[trigger] text::occurs_at(
        front + back,
        tag,
        i,
    ) by {
        lemma_head_is_settled(inside, text, more, tag, i);
    }
    lemma_visible_behind(inside, front, back);
}

/// One call shows what is visible of its text, up to what it holds back, and no tag
/// is left in that.
proof fn lemma_scan_visible(inside: bool, text: Seq<char>, more: Seq<char>)
    ensures
        ({
            let s = thinking::scan(false, inside, text);
            &&& visible(inside, text + more) == s.shown + visible(s.inside, s.rest + more)
            &&& thinking::next_tag(s.inside, s.rest) is None
        }),
    decreases text.len(),
{
    thinking::lemma_next_tag(inside, text);
    let s = thinking::scan(false, inside, text);
    match thinking::next_tag(inside, text) {
        Some((i, n)) => {
            lemma_scan_visible(!inside, text.skip(i + n), more);
            lemma_next_tag_extend(inside, text, more);
            let later = thinking::scan(false, !inside, text.skip(i + n));
            let last = visible(later.inside, later.rest + more);
            assert((text + more).skip(i + n) =~= text.skip(i + n) + more);
            assert((text + more).take(i) =~= text.take(i));
            assert(text.take(i) + (later.shown + last) =~= text.take(i) + later.shown + last);
            assert(Seq::<char>::empty() + later.shown =~= later.shown);
        },
        None => {
            lemma_visible_head(inside, text, more);
            lemma_tail_is_quiet(inside, text);
            let last = visible(inside, s.rest + more);
            assert(Seq::<char>::empty() + last =~= last);
        },
    }
}

/// Where the text has no tag, its ending has none.
proof fn lemma_tail_is_quiet(inside: bool, text: Seq<char>)
    requires
        thinking::next_tag(inside, text) is None,
    ensures
        thinking::next_tag(inside, text::tail(text, thinking::hold(inside))) is None,
{
    let n = thinking::hold(inside);
    let front = text::head(text, n);
    let back = text::tail(text, n);
    let short = thinking::short_tag(inside);
    let long = thinking::long_tag(inside);
    text::lemma_tail(text, n);
    text::lemma_find_text(text, short);
    text::lemma_find_text(text, long);
    text::lemma_find_text(back, short);
    text::lemma_find_text(back, long);
    if text::contains_text(back, short) {
        let i = text::find_text(back, short)->0;
        lemma_occurs_shift(front, back, short, i);
    }
    if text::contains_text(back, long) {
        let i = text::find_text(back, long)->0;
        lemma_occurs_shift(front, back, long, i);
    }
}

proof fn lemma_run_visible(state: FilterState, pieces: Seq<Seq<char>>)
    requires
        !state.show,
        thinking::next_tag(state.inside, state.held) is None,
    ensures
        visible(state.inside, state.held + pieces.flatten()) == run(state, pieces).0 + run(
            state,
            pieces,
        ).1.remaining(),
    decreases pieces.len(),
{
    if pieces.len() == 0 {
        assert(state.held + Seq::<char>::empty() =~= state.held);
        text::lemma_find_text(state.held, thinking::short_tag(state.inside));
        text::lemma_find_text(state.held, thinking::long_tag(state.inside));
        assert(Seq::<char>::empty() + state.remaining() =~= state.remaining());
    } else {
        let piece = pieces.first();
        let next = state.after(piece);
        let later = pieces.drop_first().flatten();
        lemma_scan_visible(state.inside, state.held + piece, later);
        lemma_run_visible(next, pieces.drop_first());
        assert(state.held + piece + later =~= state.held + (piece + later));
        let (shown, end) = run(next, pieces.drop_first());
        assert(state.shown(piece) + (shown + end.remaining()) =~= state.shown(piece) + shown
            + end.remaining());
    }
}

/// With reasoning hidden, a stream is shown without its reasoning blocks, however it
/// was cut into pieces: a tag may be broken over any number of them, and each block
/// may be written with either tag.
pub proof fn hidden_reasoning_is_removed(pieces: Seq<Seq<char>>)
    ensures
        transcript(false, pieces) == visible(false, pieces.flatten()),
{
    let state = thinking::fresh(false);
    thinking::lemma_next_tag(false, state.held);
    lemma_run_visible(state, pieces);
    assert(state.held + pieces.flatten() =~= pieces.flatten());
}

/// No tag of the kind stands in the text.
pub open spec fn free_of_tags(inside: bool, text: Seq<char>) -> bool {
    &&& !text::contains_text(text, thinking::short_tag(inside))
    &&& !text::contains_text(text, thinking::long_tag(inside))
}

/// The tag behind a text without one is the first.
proof fn lemma_tag_behind(inside: bool, front: Seq<char>, tag: Seq<char>, more: Seq<char>)
    requires
        is_tag(inside, tag),
        free_of_tags(inside, front),
    ensures
        thinking::next_tag(inside, front + tag + more) == Some((front.len() as int, tag.len())),
{
    let text = front + tag + more;
    let short = thinking::short_tag(inside);
    let long = thinking::long_tag(inside);
    let k = front.len() as int;
    thinking::lemma_tags();
    assert(text.subrange(k, k + tag.len()) =~= tag);
    assert(text =~= front + (tag + more));
    assert forall|other: Seq<char>, i: int|
        is_tag(inside, other) && i < k implies !#[trigger] text::occurs_at(text, other, i) by {
        if text::occurs_at(text, other, i) {
            lemma_no_overlap(inside, text, other, i, tag, k);
            lemma_occurs_extend(front, tag + more, other, i);
            assert(text::contains_text(front, other));
        }
    }
    text::lemma_find_text(text, short);
    text::lemma_find_text(text, long);
    if tag == short {
        text::lemma_find_text_is(text, short, k);
    } else {
        text::lemma_find_text_is(text, long, k);
        if text::find_text(text, short) == Some(k) {
            lemma_same_place(inside, text, short, long, k);
        }
    }
}

/// Text without an opening tag is visible as it stands.
pub proof fn plain_text_is_visible(text: Seq<char>)
    requires
        free_of_tags(false, text),
    ensures
        visible(false, text) == text,
{
}

/// A reasoning block is not visible, and what stands around it is.
pub proof fn closed_block_is_invisible(
    before: Seq<char>,
    open: Seq<char>,
    reasoning: Seq<char>,
    close: Seq<char>,
    after: Seq<char>,
)
    requires
        is_tag(false, open),
        is_tag(true, close),
        free_of_tags(false, before),
        free_of_tags(true, reasoning),
    ensures
        visible(false, before + open + reasoning + close + after) == before + visible(false, after),
{
    let text = before + open + reasoning + close + after;
    let more = reasoning + close + after;
    assert(text =~= before + open + more);
    lemma_tag_behind(false, before, open, more);
    lemma_tag_behind(true, reasoning, close, after);
    thinking::lemma_next_tag(false, text);
    thinking::lemma_next_tag(true, more);
    assert(text.take(before.len() as int) =~= before);
    assert(text.skip(before.len() + open.len() as int) =~= more);
    assert(more.skip(reasoning.len() + close.len() as int) =~= after);
    assert(visible(true, more) == visible(false, after));
    assert(visible(false, text) == before + visible(true, more));
}

/// A reasoning block that is never closed hides all that follows.
pub proof fn open_block_is_invisible(before: Seq<char>, open: Seq<char>, reasoning: Seq<char>)
    requires
        is_tag(false, open),
        free_of_tags(false, before),
        free_of_tags(true, reasoning),
    ensures
        visible(false, before + open + reasoning) == before,
{
    let text = before + open + reasoning;
    lemma_tag_behind(false, before, open, reasoning);
    thinking::lemma_next_tag(false, text);
    assert(text.take(before.len() as int) =~= before);
    assert(text.skip(before.len() + open.len() as int) =~= reasoning);
    assert(visible(true, reasoning) == Seq::<char>::empty());
    assert(before + Seq::<char>::empty() =~= before);
}

/// No tag that opens a block stands in the text, or, from inside a block, none that
/// closes it.
proof fn lemma_free(inside: bool, text: Seq<char>)
    requires
        !inside ==> !text::stands_in(text, "<think>"@) && !text::stands_in(text, "<thinking>"@),
        inside ==> !text::stands_in(text, "</think>"@) && !text::stands_in(text, "</thinking>"@),
    ensures
        free_of_tags(inside, text),
        thinking::next_tag(inside, text) is None,
{
    text::containing_is_standing_in(text, thinking::short_tag(inside));
    text::containing_is_standing_in(text, thinking::long_tag(inside));
}

proof fn lemma_pass(
    state: FilterState,
    piece: Seq<char>,
    before: Seq<char>,
    tag: Seq<char>,
    after: Seq<char>,
)
    requires
        is_tag(state.inside, tag),
        free_of_tags(state.inside, before),
        state.held + piece == before + tag + after,
    ensures
        ({
            let next = FilterState { show: state.show, inside: !state.inside, held: after };
            let none = Seq::<char>::empty();
            &&& state.shown(piece) == (if state.show || !state.inside {
                before
            } else {
                none
            }) + (if state.show {
                tag
            } else {
                none
            }) + next.shown(none)
            &&& state.after(piece) == next.after(none)
            &&& state.accepts(piece) == next.accepts(none)
        }),
{
    let text = before + tag + after;
    let next = FilterState { show: state.show, inside: !state.inside, held: after };
    let none = Seq::<char>::empty();
    lemma_tag_behind(state.inside, before, tag, after);
    thinking::lemma_next_tag(state.inside, text);
    let k = before.len() as int;
    assert(text.take(k) =~= before);
    assert(text.take(k + tag.len()) =~= before + tag);
    assert(text.skip(k + tag.len()) =~= after);
    assert(after + none =~= after);
    assert(next.held + none == after);
    let later = thinking::scan(state.show, !state.inside, after);
    assert(state.shown(piece) =~= (if state.show || !state.inside {
        before
    } else {
        none
    }) + (if state.show {
        tag
    } else {
        none
    }) + later.shown);
}

/// Outside a reasoning block the first tag that opens one is passed at once. What
/// stands before it is shown; the tag is shown with reasoning only. What follows it is
/// taken as a filter inside a block would take it.
pub proof fn opening_tag_is_passed(
    state: FilterState,
    piece: Seq<char>,
    before: Seq<char>,
    open: Seq<char>,
    after: Seq<char>,
)
    requires
        !state.inside,
        state.held + piece == before + open + after,
        open == "<think>"@ || open == "<thinking>"@,
        !text::stands_in(before, "<think>"@),
        !text::stands_in(before, "<thinking>"@),
    ensures
        ({
            let next = FilterState { show: state.show, inside: true, held: after };
            let none = Seq::<char>::empty();
            &&& state.shown(piece) == before + (if state.show {
                open
            } else {
                none
            }) + next.shown(none)
            &&& state.after(piece) == next.after(none)
            &&& state.accepts(piece) == next.accepts(none)
        }),
{
    lemma_free(false, before);
    lemma_pass(state, piece, before, open, after);
}

/// Inside a reasoning block the first tag that closes it is passed at once. With
/// reasoning shown, what stands before it and the tag are shown, and nothing of them
/// without. What follows it is taken as a filter outside a block would take it.
pub proof fn closing_tag_is_passed(
    state: FilterState,
    piece: Seq<char>,
    before: Seq<char>,
    close: Seq<char>,
    after: Seq<char>,
)
    requires
        state.inside,
        state.held + piece == before + close + after,
        close == "</think>"@ || close == "</thinking>"@,
        !text::stands_in(before, "</think>"@),
        !text::stands_in(before, "</thinking>"@),
    ensures
        ({
            let next = FilterState { show: state.show, inside: false, held: after };
            let none = Seq::<char>::empty();
            &&& state.shown(piece) == (if state.show {
                before + close
            } else {
                none
            }) + next.shown(none)
            &&& state.after(piece) == next.after(none)
            &&& state.accepts(piece) == next.accepts(none)
        }),
{
    let next = FilterState { show: state.show, inside: false, held: after };
    let none = Seq::<char>::empty();
    lemma_free(true, before);
    lemma_pass(state, piece, before, close, after);
    assert(none + none + next.shown(none) =~= none + next.shown(none));
}

/// Text without a tag is let go up to its last bytes: 10 outside a reasoning block
/// and 11 inside one are held back, or all of it where it has no more. What is let go
/// is shown, unless it is reasoning that is not to be shown.
pub proof fn untagged_text_is_let_go(
    state: FilterState,
    piece: Seq<char>,
    front: Seq<char>,
    back: Seq<char>,
)
    requires
        !state.inside ==> !text::stands_in(state.held + piece, "<think>"@) && !text::stands_in(
            state.held + piece,
            "<thinking>"@,
        ),
        state.inside ==> !text::stands_in(state.held + piece, "</think>"@) && !text::stands_in(
            state.held + piece,
            "</thinking>"@,
        ),
        state.held + piece == front + back,
        ({
            let n = if state.inside {
                11nat
            } else {
                10
            };
            let size = vstd::utf8::encode_utf8(back).len();
            size == n || (front.len() == 0 && size <= n)
        }),
    ensures
        state.accepts(piece),
        state.shown(piece) == if state.show || !state.inside {
            front
        } else {
            Seq::empty()
        },
        state.after(piece) == (FilterState { show: state.show, inside: state.inside, held: back }),
{
    let n = thinking::hold(state.inside);
    let text = state.held + piece;
    lemma_free(state.inside, text);
    if vstd::utf8::encode_utf8(back).len() == n {
        text::lemma_tail_exact(front, back, n);
    } else {
        assert(text =~= back);
        text::lemma_tail(text, n);
        assert(front =~= Seq::<char>::empty());
    }
}

/// Text without a tag is taken only where it can be cut in front of what is to be
/// held back.
pub proof fn accepted_text_can_be_cut(state: FilterState, piece: Seq<char>)
    requires
        !state.inside ==> !text::stands_in(state.held + piece, "<think>"@) && !text::stands_in(
            state.held + piece,
            "<thinking>"@,
        ),
        state.inside ==> !text::stands_in(state.held + piece, "</think>"@) && !text::stands_in(
            state.held + piece,
            "</thinking>"@,
        ),
        state.accepts(piece),
    ensures
        ({
            let n = if state.inside {
                11nat
            } else {
                10
            };
            exists|front: Seq<char>, back: Seq<char>|
                state.held + piece == #[trigger] (front + back) && (vstd::utf8::encode_utf8(
                    back,
                ).len() == n || (front.len() == 0 && vstd::utf8::encode_utf8(back).len() <= n))
        }),
{
    lemma_free(state.inside, state.held + piece);
    text::aligned_is_a_cut(state.held + piece, thinking::hold(state.inside));
}

/// A stream in which no tag opens a block is shown as it came.
pub proof fn untagged_stream_is_shown(pieces: Seq<Seq<char>>)
    requires
        !text::stands_in(pieces.flatten(), "<think>"@),
        !text::stands_in(pieces.flatten(), "<thinking>"@),
    ensures
        transcript(false, pieces) == pieces.flatten(),
{
    hidden_reasoning_is_removed(pieces);
    lemma_free(false, pieces.flatten());
    plain_text_is_visible(pieces.flatten());
}

/// Of a stream, a reasoning block between either pair of tags is left out, however
/// the stream was cut into pieces. What stands before it is shown, and what stands
/// after it is shown as it would be alone.
pub proof fn block_is_left_out(
    pieces: Seq<Seq<char>>,
    before: Seq<char>,
    open: Seq<char>,
    reasoning: Seq<char>,
    close: Seq<char>,
    after: Seq<char>,
)
    requires
        pieces.flatten() == before + open + reasoning + close + after,
        open == "<think>"@ || open == "<thinking>"@,
        close == "</think>"@ || close == "</thinking>"@,
        !text::stands_in(before, "<think>"@),
        !text::stands_in(before, "<thinking>"@),
        !text::stands_in(reasoning, "</think>"@),
        !text::stands_in(reasoning, "</thinking>"@),
    ensures
        transcript(false, pieces) == before + transcript(false, seq![after]),
{
    lemma_free(false, before);
    lemma_free(true, reasoning);
    closed_block_is_invisible(before, open, reasoning, close, after);
    hidden_reasoning_is_removed(pieces);
    hidden_reasoning_is_removed(seq![after]);
    assert(seq![after].drop_first() =~= Seq::<Seq<char>>::empty());
    assert(seq![after].drop_first().flatten() =~= Seq::<char>::empty());
    assert(seq![after].flatten() =~= after);
}

/// Of a stream in which a reasoning block is never closed, only what stands before
/// the block is shown.
pub proof fn unclosed_block_is_left_out(
    pieces: Seq<Seq<char>>,
    before: Seq<char>,
    open: Seq<char>,
    reasoning: Seq<char>,
)
    requires
        pieces.flatten() == before + open + reasoning,
        open == "<think>"@ || open == "<thinking>"@,
        !text::stands_in(before, "<think>"@),
        !text::stands_in(before, "<thinking>"@),
        !text::stands_in(reasoning, "</think>"@),
        !text::stands_in(reasoning, "</thinking>"@),
    ensures
        transcript(false, pieces) == before,
{
    lemma_free(false, before);
    lemma_free(true, reasoning);
    open_block_is_invisible(before, open, reasoning);
    hidden_reasoning_is_removed(pieces);
}

/// Two ways of cutting one text into pieces show the same.
pub proof fn cuts_agree(show: bool, a: Seq<Seq<char>>, b: Seq<Seq<char>>)
    requires
        a.flatten() == b.flatten(),
    ensures
        transcript(show, a) == transcript(show, b),
{
    if show {
        shown_reasoning_is_lossless(a);
        shown_reasoning_is_lossless(b);
    } else {
        hidden_reasoning_is_removed(a);
        hidden_reasoning_is_removed(b);
    }
}

/// The leftover is an end of the text.
proof fn lemma_leftover(inside: bool, text: Seq<char>)
    ensures
        ({
            let last = thinking::leftover(inside, text).1;
            &&& last.len() <= text.len()
            &&& last == text.skip(text.len() - last.len())
        }),
    decreases text.len(),
{
    thinking::lemma_next_tag(inside, text);
    match thinking::next_tag(inside, text) {
        Some((i, n)) => {
            let back = text.skip(i + n);
            lemma_leftover(!inside, back);
            let last = thinking::leftover(!inside, back).1;
            assert(back.skip(back.len() - last.len()) =~= text.skip(text.len() - last.len()));
        },
        None => {
            assert(text =~= text.skip(0));
        },
    }
}

/// Every piece of ASCII text is accepted, whatever ASCII text is held back.
pub proof fn ascii_is_accepted(state: FilterState, piece: Seq<char>)
    requires
        vstd::utf8::is_ascii_chars(state.held),
        vstd::utf8::is_ascii_chars(piece),
    ensures
        state.accepts(piece),
{
    let text = state.held + piece;
    lemma_leftover(state.inside, text);
    let (inside, last) = thinking::leftover(state.inside, text);
    let n = thinking::hold(inside);
    vstd::utf8::is_ascii_chars_encode_utf8(last);
    if last.len() > n {
        let a = last.take(last.len() - n);
        let b = last.skip(last.len() - n);
        vstd::utf8::is_ascii_chars_encode_utf8(b);
        assert(last =~= a + b);
        text::lemma_tail_exact(a, b, n);
    }
}

} // verus!
