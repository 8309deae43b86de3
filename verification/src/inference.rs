//! Turning the tokens that a model samples into an answer.
//!
//! [`Generation`] is told of each token as it is sampled. It says what is to be
//! printed, whether another token is to be sampled, and at which position.

use vstd::prelude::*;

use crate::stream;
use crate::text;
use crate::thinking;
use crate::thinking::FilterState;
use crate::thinking::ThinkingFilter;

verus! {

/// A token of a prompt, as it is handed to the model.
#[derive(Debug)]
pub struct BatchEntry<T> {
    /// The token.
    pub token: T,
    /// Its position in the context.
    pub position: i32,
    /// Whether the model's prediction behind it is wanted.
    pub logits: bool,
}

/// The number whose 32 bits are the low bits of `n`, the highest of them its sign.
pub open spec fn low_i32(n: int) -> int {
    let low = n % 0x1_0000_0000;
    if low < 0x8000_0000 {
        low
    } else {
        low - 0x1_0000_0000
    }
}

/// Keeps the low 32 bits.
fn to_i32(n: u64) -> (r: i32)
    ensures
        r == low_i32(n as int),
        n < 0x8000_0000 ==> r == n,
{
    assert(n % 0x1_0000_0000 < 0x8000_0000 ==> (n as i32) == n % 0x1_0000_0000) by (bit_vector);
    assert(n % 0x1_0000_0000 >= 0x8000_0000 ==> (n as i32) == n % 0x1_0000_0000 - 0x1_0000_0000)
        by (bit_vector);
    #[verifier::truncate]
    let r = n as i32;
    r
}

/// Lays a prompt out for the model: the tokens in their order, at the positions
/// from zero on. Only behind the last one a prediction is wanted.
pub fn prompt_batch<T: Copy>(tokens: &[T]) -> (r: Vec<BatchEntry<T>>)
    ensures
        r@.len() == tokens@.len(),
        forall|i: int|
            0 <= i < tokens@.len() ==> {
                let entry = #[trigger] r@[i];
                &&& entry.token == tokens@[i]
                &&& entry.position == low_i32(i)
                &&& i < 0x8000_0000 ==> entry.position == i
                &&& entry.logits == (i == tokens@.len() - 1)
            },
{
    let mut entries: Vec<BatchEntry<T>> = Vec::new();
    let n: usize = tokens.len();
    let mut i: usize = 0;
    while i < n
        invariant
            n == tokens@.len(),
            i <= n,
            entries@.len() == i,
            forall|j: int|
                0 <= j < i ==> {
                    let entry = #[trigger] entries@[j];
                    &&& entry.token == tokens@[j]
                    &&& entry.position == low_i32(j)
                    &&& j < 0x8000_0000 ==> entry.position == j
                    &&& entry.logits == (j == tokens@.len() - 1)
                },
        decreases n - i,
    {
        entries.push(
            BatchEntry { token: tokens[i], position: to_i32(i as u64), logits: i == n - 1 },
        );
        i += 1;
    }
    entries
}

/// What `String::from_utf8_lossy` makes of the bytes.
pub uninterp spec fn lossy_text(bytes: Seq<u8>) -> Seq<char>;

/// The text that the bytes encode, by `String::from_utf8_lossy`.
///
/// Bytes that are UTF-8 give the text that they encode. Nothing is said of the
/// replacement characters that stand in for others.
#[verifier::external_body]
fn decode_lossy(bytes: &[u8]) -> (r: String)
    ensures
        r@ == lossy_text(bytes@),
        vstd::utf8::valid_utf8(bytes@) ==> r@ == vstd::utf8::decode_utf8(bytes@),
{
    String::from_utf8_lossy(bytes).into_owned()
}

/// The text of the bytes of a token: none where there are no bytes.
pub open spec fn piece_text(bytes: Option<Vec<u8>>) -> Seq<char> {
    match bytes {
        Some(bytes) => lossy_text(bytes@),
        None => Seq::empty(),
    }
}

/// The text of a token. `fetch` asks the model for its bytes, in a buffer of the
/// given size: a small one first, and a large one where that fails.
pub fn token_to_string<G: Fn(usize) -> Option<Vec<u8>>>(fetch: G) -> (r: String)
    requires
        call_requires(fetch, (32usize,)),
        call_requires(fetch, (256usize,)),
    ensures
        exists|first: Option<Vec<u8>>|
            #![trigger call_ensures(fetch, (32usize,), first)]
            call_ensures(fetch, (32usize,), first) && if first is Some {
                r@ == piece_text(first)
            } else {
                exists|second: Option<Vec<u8>>|
                    #![trigger call_ensures(fetch, (256usize,), second)]
                    call_ensures(fetch, (256usize,), second) && r@ == piece_text(second)
            },
        exists|first: Option<Vec<u8>>|
            #![trigger call_ensures(fetch, (32usize,), first)]
            call_ensures(fetch, (32usize,), first) && match first {
                Some(bytes) => {
                    &&& r@ == lossy_text(bytes@)
                    &&& vstd::utf8::valid_utf8(bytes@) ==> r@ == vstd::utf8::decode_utf8(bytes@)
                },
                None => exists|second: Option<Vec<u8>>|
                    #![trigger call_ensures(fetch, (256usize,), second)]
                    call_ensures(fetch, (256usize,), second) && match second {
                        Some(bytes) => {
                            &&& r@ == lossy_text(bytes@)
                            &&& vstd::utf8::valid_utf8(bytes@) ==> r@ == vstd::utf8::decode_utf8(
                                bytes@,
                            )
                        },
                        None => r@ == Seq::<char>::empty(),
                    },
            },
{
    let first = fetch(32);
    match &first {
        Some(bytes) => decode_lossy(bytes.as_slice()),
        None => {
            let second = fetch(256);
            match &second {
                Some(bytes) => decode_lossy(bytes.as_slice()),
                None => {
                    let none = String::new();
                    assert(none@ == piece_text(second));
                    none
                },
            }
        },
    }
}

/// A token that was sampled.
#[derive(Debug)]
pub enum Sampled {
    /// One that steers the model.
    Control,
    /// One that stands for this text.
    Text(String),
}

impl View for Sampled {
    type V = Option<Seq<char>>;

    open spec fn view(&self) -> Option<Seq<char>> {
        match self {
            Sampled::Control => None,
            Sampled::Text(piece) => Some(piece@),
        }
    }
}

/// The text marks the end of a turn.
pub open spec fn is_stop(piece: Seq<char>) -> bool {
    text::contains_text(piece, "<|im_end|>"@) || text::contains_text(piece, "<|eot_id|>"@)
}

/// The token is part of the answer.
pub open spec fn is_answer(sampled: Option<Seq<char>>) -> bool {
    sampled matches Some(piece) && !is_stop(piece)
}

/// How far an answer has come.
#[verifier::ext_equal]
pub struct GenerationState {
    /// What is printed of the answer.
    pub filter: FilterState,
    /// The answer so far.
    pub reply: Seq<char>,
    /// The position of the next token in the context.
    pub position: i32,
    /// The size of the context.
    pub limit: i32,
    /// Whether a token has been sampled.
    pub started: bool,
}

impl GenerationState {
    /// The token can be taken.
    pub open spec fn accepts(self, sampled: Option<Seq<char>>) -> bool {
        is_answer(sampled) ==> self.filter.accepts(sampled->0)
    }

    /// What is printed when the token is taken.
    pub open spec fn shown(self, sampled: Option<Seq<char>>) -> Seq<char> {
        if is_answer(sampled) {
            self.filter.shown(sampled->0)
        } else {
            Seq::empty()
        }
    }

    /// Another token is to be sampled. A token that is no part of the answer ends
    /// it, unless it is the very first one.
    pub open spec fn goes_on(self, sampled: Option<Seq<char>>, is_end: bool) -> bool {
        &&& is_answer(sampled) || !self.started
        &&& !is_end
        &&& self.position < self.limit
    }

    /// The state once the token has been taken.
    pub open spec fn after(self, sampled: Option<Seq<char>>, is_end: bool) -> GenerationState {
        let (filter, reply) = if is_answer(sampled) {
            (self.filter.after(sampled->0), self.reply + sampled->0)
        } else {
            (self.filter, self.reply)
        };
        let position = if self.goes_on(sampled, is_end) {
            (self.position + 1) as i32
        } else {
            self.position
        };
        GenerationState { filter, reply, position, limit: self.limit, started: true }
    }
}

/// What follows a token.
#[derive(Debug)]
pub struct Step {
    /// What is to be printed.
    pub shown: String,
    /// The position at which the token is handed to the model for the next one to
    /// be sampled, or none at the end of the answer.
    pub next: Option<i32>,
}

/// An answer under way.
pub struct Generation {
    filter: ThinkingFilter,
    reply: String,
    position: i32,
    limit: i32,
    started: bool,
}

impl View for Generation {
    type V = GenerationState;

    closed spec fn view(&self) -> GenerationState {
        GenerationState {
            filter: self.filter@,
            reply: self.reply@,
            position: self.position,
            limit: self.limit,
            started: self.started,
        }
    }
}

/// Whether the token is part of the answer.
fn answer_text(sampled: &Sampled) -> (r: Option<&str>)
    ensures
        match r {
            Some(piece) => is_answer(sampled@) && sampled@ == Some(piece@),
            None => !is_answer(sampled@),
        },
{
    proof {
        reveal_strlit("<|im_end|>");
        reveal_strlit("<|eot_id|>");
    }
    match sampled {
        Sampled::Control => None,
        Sampled::Text(piece) => {
            let piece = piece.as_str();
            if text::contains(piece, "<|im_end|>") || text::contains(piece, "<|eot_id|>") {
                None
            } else {
                Some(piece)
            }
        },
    }
}

impl Generation {
    /// An answer at its start: behind a prompt of so many tokens, in a context of
    /// the given size.
    pub fn new(n_prompt: usize, n_ctx: u32, show_thinking: bool) -> (r: Self)
        ensures
            r@.filter == thinking::fresh(show_thinking),
            r@.reply == Seq::<char>::empty(),
            r@.position == low_i32(n_prompt as int),
            r@.limit == low_i32(n_ctx as int),
            !r@.started,
            r@.filter.show == show_thinking,
            !r@.filter.inside,
            r@.filter.held == Seq::<char>::empty(),
            n_prompt < 0x8000_0000 ==> r@.position == n_prompt,
            n_ctx < 0x8000_0000 ==> r@.limit == n_ctx,
    {
        Generation {
            filter: ThinkingFilter::new(show_thinking),
            reply: String::new(),
            position: to_i32(n_prompt as u64),
            limit: to_i32(n_ctx as u64),
            started: false,
        }
    }

    /// Whether [`take`](Self::take) can take the token.
    pub fn accepts(&self, sampled: &Sampled) -> (r: bool)
        ensures
            r == self@.accepts(sampled@),
            r == match *sampled {
                Sampled::Control => true,
                Sampled::Text(piece) => {
                    ||| text::stands_in(piece@, "<|im_end|>"@)
                    ||| text::stands_in(piece@, "<|eot_id|>"@)
                    ||| self@.filter.accepts(piece@)
                },
            },
    {
        proof {
            answer_ends_for_no_other_reason(self@, sampled@, false);
            token_is_kept_or_passed_over(self@, sampled@, false);
        }
        match answer_text(sampled) {
            Some(piece) => self.filter.accepts(piece),
            None => true,
        }
    }

    /// Takes a token that was sampled. `is_end` says that it is the one by which the
    /// model ends its text.
    pub fn take(&mut self, sampled: &Sampled, is_end: bool) -> (r: Step)
        requires
            old(self)@.accepts(sampled@),
        ensures
            r.shown@ == old(self)@.shown(sampled@),
            r.next == if old(self)@.goes_on(sampled@, is_end) {
                Some(old(self)@.position)
            } else {
                None
            },
            final(self)@ == old(self)@.after(sampled@, is_end),
            r.next is Some <==> {
                &&& !is_end
                &&& old(self)@.position < old(self)@.limit
                &&& !old(self)@.started || (*sampled matches Sampled::Text(piece)
                    && !text::stands_in(piece@, "<|im_end|>"@) && !text::stands_in(
                    piece@,
                    "<|eot_id|>"@,
                ))
            },
            r.next matches Some(position) ==> position == old(self)@.position,
            final(self)@.position == old(self)@.position + if r.next is Some {
                1int
            } else {
                0
            },
            final(self)@.limit == old(self)@.limit,
            final(self)@.started,
            match *sampled {
                Sampled::Text(piece) if !text::stands_in(piece@, "<|im_end|>"@)
                    && !text::stands_in(piece@, "<|eot_id|>"@) => {
                    &&& final(self)@.reply == old(self)@.reply + piece@
                    &&& final(self)@.filter == old(self)@.filter.after(piece@)
                    &&& r.shown@ == old(self)@.filter.shown(piece@)
                },
                _ => {
                    &&& final(self)@.reply == old(self)@.reply
                    &&& final(self)@.filter == old(self)@.filter
                    &&& r.shown@ == Seq::<char>::empty()
                },
            },
    {
        proof {
            answer_ends_for_no_other_reason(self@, sampled@, is_end);
            token_is_kept_or_passed_over(self@, sampled@, is_end);
        }
        let (shown, answered) = match answer_text(sampled) {
            Some(piece) => {
                let shown = self.filter.process(piece);
                self.reply.append(piece);
                (shown, true)
            },
            None => (String::new(), false),
        };
        let halted = self.started && !answered;
        self.started = true;
        if halted || is_end || self.position >= self.limit {
            Step { shown, next: None }
        } else {
            let position = self.position;
            self.position = position + 1;
            Step { shown, next: Some(position) }
        }
    }

    /// Ends the answer: what is still to be printed, and the whole of it.
    pub fn finish(self) -> (r: (String, String))
        ensures
            r.0@ == self@.filter.remaining(),
            r.1@ == self@.reply,
            r.0@ == if self@.filter.show || !self@.filter.inside {
                self@.filter.held
            } else {
                Seq::<char>::empty()
            },
    {
        let mut filter = self.filter;
        let rest = filter.flush();
        (rest, self.reply)
    }
}

/// A token as it is reported: its text, if it has one, and whether it ends the
/// model's text.
pub type Token = (Option<Seq<char>>, bool);

/// What is printed of the tokens, and the state that they leave.
pub open spec fn run(state: GenerationState, tokens: Seq<Token>) -> (Seq<char>, GenerationState)
    decreases tokens.len(),
{
    if tokens.len() == 0 {
        (Seq::empty(), state)
    } else {
        let (sampled, is_end) = tokens.first();
        let (shown, end) = run(state.after(sampled, is_end), tokens.drop_first());
        (state.shown(sampled) + shown, end)
    }
}

/// The pieces of the answer among the tokens.
pub open spec fn pieces(tokens: Seq<Token>) -> Seq<Seq<char>>
    decreases tokens.len(),
{
    if tokens.len() == 0 {
        Seq::empty()
    } else {
        let later = pieces(tokens.drop_first());
        if is_answer(tokens.first().0) {
            seq![tokens.first().0->0] + later
        } else {
            later
        }
    }
}

/// Everything that is printed of an answer, its end included.
pub open spec fn printed(state: GenerationState, tokens: Seq<Token>) -> Seq<char> {
    let (shown, end) = run(state, tokens);
    shown + end.filter.remaining()
}

/// The state in which an answer starts.
pub open spec fn starts(state: GenerationState, show: bool) -> bool {
    state.filter == thinking::fresh(show) && state.reply == Seq::<char>::empty()
}

proof fn lemma_run(state: GenerationState, tokens: Seq<Token>)
    ensures
        run(state, tokens).0 == stream::run(state.filter, pieces(tokens)).0,
        run(state, tokens).1.filter == stream::run(state.filter, pieces(tokens)).1,
        run(state, tokens).1.reply == state.reply + pieces(tokens).flatten(),
    decreases tokens.len(),
{
    if tokens.len() == 0 {
        assert(state.reply + Seq::<char>::empty() =~= state.reply);
    } else {
        let (sampled, is_end) = tokens.first();
        let next = state.after(sampled, is_end);
        let rest = tokens.drop_first();
        lemma_run(next, rest);
        let later = pieces(rest);
        if is_answer(sampled) {
            let piece = sampled->0;
            let all = seq![piece] + later;
            assert(all.first() == piece);
            assert(all.drop_first() =~= later);
            assert(state.reply + piece + later.flatten() =~= state.reply + (piece
                + later.flatten()));
        } else {
            assert(Seq::<char>::empty() + run(next, rest).0 =~= run(next, rest).0);
        }
    }
}

/// The answer that is kept is the text of its tokens, whether reasoning is shown
/// or not.
pub proof fn reply_is_unfiltered(state: GenerationState, show: bool, tokens: Seq<Token>)
    requires
        starts(state, show),
    ensures
        run(state, tokens).1.reply == pieces(tokens).flatten(),
{
    lemma_run(state, tokens);
    assert(Seq::<char>::empty() + pieces(tokens).flatten() =~= pieces(tokens).flatten());
}

/// With reasoning shown, the answer is printed as it is kept.
pub proof fn printed_as_kept(state: GenerationState, tokens: Seq<Token>)
    requires
        starts(state, true),
    ensures
        printed(state, tokens) == run(state, tokens).1.reply,
{
    reply_is_unfiltered(state, true, tokens);
    lemma_run(state, tokens);
    stream::shown_reasoning_is_lossless(pieces(tokens));
}

/// With reasoning hidden, the answer is printed without the reasoning blocks that
/// are kept with it.
pub proof fn printed_without_reasoning(state: GenerationState, tokens: Seq<Token>)
    requires
        starts(state, false),
    ensures
        printed(state, tokens) == stream::visible(false, run(state, tokens).1.reply),
{
    reply_is_unfiltered(state, false, tokens);
    lemma_run(state, tokens);
    stream::hidden_reasoning_is_removed(pieces(tokens));
}

/// After each of the tokens another one was sampled.
pub open spec fn all_go_on(state: GenerationState, tokens: Seq<Token>) -> bool
    decreases tokens.len(),
{
    tokens.len() > 0 ==> {
        let (sampled, is_end) = tokens.first();
        &&& state.goes_on(sampled, is_end)
        &&& all_go_on(state.after(sampled, is_end), tokens.drop_first())
    }
}

/// An answer stays in the context: each of its tokens takes the position behind the
/// one before it, and none goes beyond the limit.
pub proof fn answer_fits_the_context(state: GenerationState, tokens: Seq<Token>)
    requires
        all_go_on(state, tokens),
    ensures
        run(state, tokens).1.position == state.position + tokens.len(),
        run(state, tokens).1.limit == state.limit,
        tokens.len() > 0 ==> state.position + tokens.len() <= state.limit,
    decreases tokens.len(),
{
    if tokens.len() > 0 {
        let (sampled, is_end) = tokens.first();
        answer_fits_the_context(state.after(sampled, is_end), tokens.drop_first());
    }
}

/// Only the first token can be passed over: a later one that is no part of the
/// answer ends it.
pub proof fn interruption_ends_the_answer(
    state: GenerationState,
    sampled: Option<Seq<char>>,
    is_end: bool,
    later: Option<Seq<char>>,
    later_is_end: bool,
)
    requires
        !is_answer(later),
    ensures
        !state.after(sampled, is_end).goes_on(later, later_is_end),
{
}

/// A token ends the answer only for one of these reasons: it ends the model's text,
/// the context is full, or it is no first token and either has no text or one in
/// which the mark of a turn's end stands.
pub proof fn answer_ends_for_no_other_reason(
    state: GenerationState,
    sampled: Option<Seq<char>>,
    is_end: bool,
)
    ensures
        !state.goes_on(sampled, is_end) <==> {
            ||| is_end
            ||| state.position >= state.limit
            ||| state.started && match sampled {
                Some(piece) => text::stands_in(piece, "<|im_end|>"@) || text::stands_in(
                    piece,
                    "<|eot_id|>"@,
                ),
                None => true,
            }
        },
        state.after(sampled, is_end).position == state.position + if state.goes_on(
            sampled,
            is_end,
        ) {
            1int
        } else {
            0
        },
        state.after(sampled, is_end).limit == state.limit,
        state.after(sampled, is_end).started,
{
    if let Some(piece) = sampled {
        text::containing_is_standing_in(piece, "<|im_end|>"@);
        text::containing_is_standing_in(piece, "<|eot_id|>"@);
    }
}

/// A text in which no mark of a turn's end stands is added to the answer as it is
/// and goes through the filter. Any other token leaves both alone and prints
/// nothing.
pub proof fn token_is_kept_or_passed_over(
    state: GenerationState,
    sampled: Option<Seq<char>>,
    is_end: bool,
)
    ensures
        match sampled {
            Some(piece) if !text::stands_in(piece, "<|im_end|>"@) && !text::stands_in(
                piece,
                "<|eot_id|>"@,
            ) => {
                &&& state.accepts(sampled) == state.filter.accepts(piece)
                &&& state.shown(sampled) == state.filter.shown(piece)
                &&& state.after(sampled, is_end).filter == state.filter.after(piece)
                &&& state.after(sampled, is_end).reply == state.reply + piece
            },
            _ => {
                &&& state.accepts(sampled)
                &&& state.shown(sampled) == Seq::<char>::empty()
                &&& state.after(sampled, is_end).filter == state.filter
                &&& state.after(sampled, is_end).reply == state.reply
            },
        },
{
    if let Some(piece) = sampled {
        text::containing_is_standing_in(piece, "<|im_end|>"@);
        text::containing_is_standing_in(piece, "<|eot_id|>"@);
    }
}

/// Texts in which no mark of a turn's end stands, none of them the one by which the
/// model ends its text, are all of them the answer, as many as the context has room
/// for: after each another token is sampled, and what is kept is the texts, one
/// behind the other.
pub proof fn plain_texts_are_the_answer(state: GenerationState, texts: Seq<Seq<char>>)
    requires
        state.position + texts.len() <= state.limit,
        forall|i: int|
            0 <= i < texts.len() ==> !text::stands_in(#[trigger] texts[i], "<|im_end|>"@)
                && !text::stands_in(texts[i], "<|eot_id|>"@),
    ensures
        ({
            let tokens = texts.map_values(|t: Seq<char>| (Some(t), false));
            &&& all_go_on(state, tokens)
            &&& run(state, tokens).1.reply == state.reply + texts.flatten()
            &&& run(state, tokens).1.position == state.position + texts.len()
        }),
    decreases texts.len(),
{
    let tokens: Seq<Token> = texts.map_values(|t: Seq<char>| (Some(t), false));
    if texts.len() == 0 {
        assert(texts.flatten() =~= Seq::<char>::empty());
        assert(state.reply + texts.flatten() =~= state.reply);
    } else {
        let piece = texts[0];
        assert(tokens.first() == (Some(piece), false));
        answer_ends_for_no_other_reason(state, Some(piece), false);
        token_is_kept_or_passed_over(state, Some(piece), false);
        let rest = texts.drop_first();
        assert forall|i: int| 0 <= i < rest.len() implies !text::stands_in(
            #[trigger] rest[i],
            "<|im_end|>"@,
        ) && !text::stands_in(rest[i], "<|eot_id|>"@) by {
            assert(rest[i] == texts[i + 1]);
        }
        plain_texts_are_the_answer(state.after(Some(piece), false), rest);
        assert(tokens.drop_first() =~= rest.map_values(|t: Seq<char>| (Some(t), false)));
        assert(state.reply + piece + rest.flatten() =~= state.reply + (piece + rest.flatten()));
    }
}

/// A position is the number of tokens before it as long as that number fits, and
/// beyond that agrees with it in its low 32 bits.
pub proof fn position_is_a_count(n: int)
    requires
        0 <= n,
    ensures
        n < 0x8000_0000 ==> low_i32(n) == n,
        (low_i32(n) - n) % 0x1_0000_0000 == 0,
        -0x8000_0000 <= low_i32(n) < 0x8000_0000,
{
}

} // verus!
