//! Downloading a model file so that a broken download never takes its place.
//!
//! The file is received under a temporary name and given its own name when all
//! of it is there. [`Download`] decides what is done next; the caller does it
//! and reports what came of it.

use vstd::prelude::*;

verus! {

/// How many bytes are received at a time.
pub const BUFFER_SIZE: usize = 8192;

/// The extension of the temporary name.
pub fn partial_extension() -> (r: &'static str)
    ensures
        r@ == "tmp"@,
{
    "tmp"
}

/// A byte that stands for a visible ASCII character, a space or a tab.
pub open spec fn visible_ascii(b: u8) -> bool {
    32 <= b < 127 || b == 9
}

/// The text of a header value, by `reqwest::header::HeaderValue::to_str` on what
/// `HeaderValue::from_bytes` makes of the bytes.
///
/// There is a text exactly where every byte is visible ASCII, a space or a tab,
/// and then each byte stands for its character.
#[verifier::external_body]
fn header_text(value: &[u8]) -> (r: Option<String>)
    ensures
        r is Some <==> forall|i: int| 0 <= i < value@.len() ==> visible_ascii(#[trigger] value@[i]),
        r matches Some(s) ==> s@ == value@.map_values(|b: u8| b as char),
{
    let value = reqwest::header::HeaderValue::from_bytes(value).ok()?;
    value.to_str().ok().map(String::from)
}

/// The success of a status, by `reqwest::StatusCode::is_success`.
///
/// A status code has three digits, the first of them not zero. It reports success
/// from 200 to 299.
#[verifier::external_body]
fn status_is_success(status: u16) -> (r: bool)
    requires
        100 <= status <= 999,
    ensures
        r == (200 <= status <= 299),
{
    reqwest::StatusCode::from_u16(status).is_ok_and(|s| s.is_success())
}

/// A status in words: what `reqwest::StatusCode` displays, the code and the
/// reason that is customary for it.
pub uninterp spec fn status_line(status: u16) -> Seq<char>;

/// The three digits of a status code, and a space.
pub open spec fn status_code(status: u16) -> Seq<char> {
    seq![
        ('0' as u16 + status / 100) as char,
        ('0' as u16 + status / 10 % 10) as char,
        ('0' as u16 + status % 10) as char,
        ' ',
    ]
}

/// A status in words, by the `Display` of `reqwest::StatusCode`.
///
/// It begins with the code and a space. Nothing is said of the reason behind them,
/// which comes out of a table of some sixty entries.
#[verifier::external_body]
fn status_text(status: u16) -> (r: String)
    requires
        100 <= status <= 999,
    ensures
        r@ == status_line(status),
        r@.len() >= 4,
        r@.take(4) == status_code(status),
{
    reqwest::StatusCode::from_u16(status).map(|s| s.to_string()).unwrap_or_default()
}

/// The character is a decimal digit.
pub open spec fn is_digit(c: char) -> bool {
    '0' <= c <= '9'
}

/// The number that the digits write.
pub open spec fn decimal(digits: Seq<char>) -> nat
    decreases digits.len(),
{
    if digits.len() == 0 {
        0
    } else {
        decimal(digits.drop_last()) * 10 + (digits.last() as nat - '0' as nat) as nat
    }
}

/// The digits of a number that may be written with a plus sign.
pub open spec fn unsigned_digits(s: Seq<char>) -> Seq<char> {
    if s.len() > 0 && s[0] == '+' {
        s.skip(1)
    } else {
        s
    }
}

/// `s` writes a number that fits in 64 bits.
pub open spec fn is_u64(s: Seq<char>) -> bool {
    let digits = unsigned_digits(s);
    &&& digits.len() > 0
    &&& forall|i: int| 0 <= i < digits.len() ==> is_digit(#[trigger] digits[i])
    &&& decimal(digits) <= u64::MAX
}

/// A number only grows by more digits.
proof fn lemma_decimal_grows(digits: Seq<char>, n: int)
    requires
        0 <= n <= digits.len(),
        forall|i: int| 0 <= i < digits.len() ==> is_digit(#[trigger] digits[i]),
    ensures
        decimal(digits.take(n)) <= decimal(digits),
    decreases digits.len() - n,
{
    if n < digits.len() {
        lemma_decimal_grows(digits, n + 1);
        assert(digits.take(n + 1).drop_last() =~= digits.take(n));
    } else {
        assert(digits.take(n) =~= digits);
    }
}

/// Reads a number without a sign or with a plus sign.
pub fn parse_u64(s: &str) -> (r: Option<u64>)
    ensures
        match r {
            Some(n) => is_u64(s@) && n == decimal(unsigned_digits(s@)),
            None => !is_u64(s@),
        },
{
    let ghost digits = unsigned_digits(s@);
    if !s.is_ascii() {
        proof {
            let k = choose|k: int| 0 <= k < s@.len() && !('\0' <= #[trigger] s@[k] <= '\u{7f}');
            if digits.len() == s@.len() {
                assert(!is_digit(digits[k]));
            } else {
                assert(k > 0);
                assert(digits[k - 1] == s@[k]);
            }
        }
        return None;
    }
    let bytes = s.as_bytes();
    proof {
        vstd::utf8::is_ascii_chars_encode_utf8(s@);
        assert(bytes@.len() == s@.len());
        assert forall|k: int| 0 <= k < bytes@.len() implies #[trigger] bytes@[k] as int
            == s@[k] as int by {
            let c = s@[k];
            assert('\0' <= c <= '\u{7f}');
            assert(bytes@[k] == c as u8);
        }
    }
    let start: usize = if bytes.len() > 0 && bytes[0] == 43 {
        1
    } else {
        0
    };
    proof {
        if bytes@.len() > 0 {
            assert(bytes@[0] as int == s@[0] as int);
        }
        assert(digits =~= s@.skip(start as int));
    }
    if start == bytes.len() {
        return None;
    }
    let mut value: u64 = 0;
    let mut i: usize = start;
    assert(digits.take(0) =~= Seq::<char>::empty());
    while i < bytes.len()
        invariant
            start <= i <= bytes@.len(),
            bytes@.len() == s@.len(),
            digits == unsigned_digits(s@),
            digits == s@.skip(start as int),
            forall|k: int| 0 <= k < bytes@.len() ==> #[trigger] bytes@[k] as int == s@[k] as int,
            forall|k: int| 0 <= k < i - start ==> is_digit(#[trigger] digits[k]),
            value == decimal(digits.take(i - start)),
        decreases bytes@.len() - i,
    {
        let b = bytes[i];
        let ghost k = i - start;
        assert(digits[k] == s@[i as int]);
        if b < 48 || b > 57 {
            assert(!is_digit(digits[k]));
            return None;
        }
        assert(is_digit(digits[k]));
        assert(digits.take(k + 1).drop_last() =~= digits.take(k));
        assert(decimal(digits.take(k + 1)) == value * 10 + (b - 48));
        match value.checked_mul(10) {
            None => {
                proof {
                    if is_u64(s@) {
                        lemma_decimal_grows(digits, k + 1);
                    }
                }
                return None;
            },
            Some(tens) => match tens.checked_add((b - 48) as u64) {
                None => {
                    proof {
                        if is_u64(s@) {
                            lemma_decimal_grows(digits, k + 1);
                        }
                    }
                    return None;
                },
                Some(next) => {
                    value = next;
                },
            },
        }
        i += 1;
    }
    assert(digits.take(i - start) =~= digits);
    Some(value)
}

/// The length that a response announces, in a text that is there and is a number,
/// or else zero.
pub open spec fn announced(value: Option<Seq<u8>>) -> u64 {
    match value {
        Some(bytes) => {
            let s = bytes.map_values(|b: u8| b as char);
            if is_u64(s) {
                decimal(unsigned_digits(s)) as u64
            } else {
                0
            }
        },
        None => 0,
    }
}

/// The length that a response announces in its `Content-Length` header.
pub fn content_length(value: Option<&[u8]>) -> (r: u64)
    ensures
        r == announced(match value {
            Some(bytes) => Some(bytes@),
            None => None,
        }),
        value is None ==> r == 0,
        value matches Some(bytes) ==> bytes@.len() > 0 && (forall|i: int|
            0 <= i < bytes@.len() ==> 48 <= #[trigger] bytes@[i] <= 57) ==> {
            let n = decimal(bytes@.map_values(|b: u8| b as char));
            r == if n <= u64::MAX {
                n
            } else {
                0
            }
        },
{
    proof {
        if let Some(bytes) = value {
            if bytes@.len() > 0 && (forall|i: int|
                0 <= i < bytes@.len() ==> 48 <= #[trigger] bytes@[i] <= 57) {
                announced_digits_are_read(bytes@);
            }
        }
    }
    match value {
        None => 0,
        Some(bytes) => {
            let ghost s = bytes@.map_values(|b: u8| b as char);
            match header_text(bytes) {
                None => {
                    proof {
                        let i = choose|i: int|
                            0 <= i < bytes@.len() && !visible_ascii(#[trigger] bytes@[i]);
                        assert(s[i] == bytes@[i] as char);
                        if is_u64(s) {
                            let digits = unsigned_digits(s);
                            if digits.len() == s.len() {
                                assert(is_digit(digits[i]));
                            } else if i > 0 {
                                assert(is_digit(digits[i - 1]));
                            }
                        }
                    }
                    0
                },
                Some(value) => match parse_u64(value.as_str()) {
                    Some(n) => n,
                    None => 0,
                },
            }
        },
    }
}

/// What is said of a refused download, given the status in words.
pub fn refusal_text(status: &str) -> (r: String)
    ensures
        r@ == "Failed to download model: HTTP "@ + status@,
{
    let mut text = String::new();
    text.append("Failed to download model: HTTP ");
    text.append(status);
    assert(text@ =~= "Failed to download model: HTTP "@ + status@);
    text
}

/// What is said of a download that the server refused.
pub fn refusal_message(status: u16) -> (r: String)
    requires
        100 <= status <= 999,
    ensures
        r@ == "Failed to download model: HTTP "@ + status_line(status),
        status_line(status).take(4) == status_code(status),
{
    let status = status_text(status);
    refusal_text(status.as_str())
}

/// How far a download has come.
#[derive(Clone, Copy, Debug, PartialEq, Eq, Structural)]
pub enum Phase {
    /// The file has been asked for.
    Requesting,
    /// The temporary file is being created.
    Creating,
    /// The next part is being received.
    Receiving,
    /// A part is being written.
    Writing,
    /// The temporary file is being given its own name.
    Promoting,
    /// Nothing is left to do.
    Ended,
}

/// What came of what was done.
#[derive(Clone, Copy, Debug, PartialEq, Eq, Structural)]
pub enum Event {
    /// The server answered with a status and announced a length.
    Responded { status: u16, total: u64 },
    /// The temporary file is there.
    Created,
    /// A part of this many bytes was received; none at the end.
    Received(usize),
    /// The part was written.
    Written,
    /// The file has its own name.
    Promoted,
    /// It failed.
    Failed,
}

/// What is to be done.
#[derive(Clone, Copy, Debug, PartialEq, Eq, Structural)]
pub enum Action {
    /// Ask for the file.
    Request,
    /// Create the temporary file, for a file of the announced length.
    Create { total: u64 },
    /// Receive the next part.
    Receive,
    /// Write the part that was received, of this many bytes.
    Write(usize),
    /// Give the temporary file its own name.
    Promote,
    /// Report success.
    Finish,
    /// Remove the temporary file, if it is there, and report that the server
    /// refused.
    DiscardRefused { status: u16 },
    /// Remove the temporary file, if it is there, and report the failure.
    DiscardFailed,
    /// Report the failure.
    Fail,
}

/// The event is an outcome of what is done in this phase.
pub open spec fn fits(phase: Phase, event: Event) -> bool {
    match (phase, event) {
        (Phase::Requesting, Event::Responded { status, .. }) => 100 <= status <= 999,
        (Phase::Creating, Event::Created) => true,
        (Phase::Receiving, Event::Received(_)) => true,
        (Phase::Writing, Event::Written) => true,
        (Phase::Promoting, Event::Promoted) => true,
        (Phase::Ended, _) => false,
        (_, Event::Failed) => true,
        _ => false,
    }
}

/// What follows an event.
pub open spec fn next(phase: Phase, event: Event) -> (Phase, Action) {
    match event {
        Event::Responded { status, total } => if 200 <= status <= 299 {
            (Phase::Creating, Action::Create { total })
        } else {
            (Phase::Ended, Action::DiscardRefused { status })
        },
        Event::Created => (Phase::Receiving, Action::Receive),
        Event::Received(n) => if n == 0 {
            (Phase::Promoting, Action::Promote)
        } else {
            (Phase::Writing, Action::Write(n))
        },
        Event::Written => (Phase::Receiving, Action::Receive),
        Event::Promoted => (Phase::Ended, Action::Finish),
        Event::Failed => if phase == Phase::Promoting {
            (Phase::Ended, Action::Fail)
        } else {
            (Phase::Ended, Action::DiscardFailed)
        },
    }
}

/// A download under way.
pub struct Download {
    phase: Phase,
}

impl View for Download {
    type V = Phase;

    closed spec fn view(&self) -> Phase {
        self.phase
    }
}

impl Download {
    /// A download at its start, and the first thing to do.
    pub fn start() -> (r: (Self, Action))
        ensures
            r.0@ == Phase::Requesting,
            r.1 == Action::Request,
    {
        (Download { phase: Phase::Requesting }, Action::Request)
    }

    /// Takes note of what came of the last action and says what to do next.
    pub fn step(&mut self, event: Event) -> (action: Action)
        requires
            fits(old(self)@, event),
        ensures
            (final(self)@, action) == next(old(self)@, event),
            match event {
                Event::Responded { status, total } => action == if 200 <= status <= 299 {
                    Action::Create { total }
                } else {
                    Action::DiscardRefused { status }
                },
                Event::Created => action == Action::Receive,
                Event::Received(n) => action == if n == 0 {
                    Action::Promote
                } else {
                    Action::Write(n)
                },
                Event::Written => action == Action::Receive,
                Event::Promoted => action == Action::Finish,
                Event::Failed => action == if old(self)@ == Phase::Promoting {
                    Action::Fail
                } else {
                    Action::DiscardFailed
                },
            },
            final(self)@ == match action {
                Action::Create { .. } => Phase::Creating,
                Action::Receive => Phase::Receiving,
                Action::Write(_) => Phase::Writing,
                Action::Promote => Phase::Promoting,
                _ => Phase::Ended,
            },
    {
        let (phase, action) = match event {
            Event::Responded { status, total } => if status_is_success(status) {
                (Phase::Creating, Action::Create { total })
            } else {
                (Phase::Ended, Action::DiscardRefused { status })
            },
            Event::Created => (Phase::Receiving, Action::Receive),
            Event::Received(n) => if n == 0 {
                (Phase::Promoting, Action::Promote)
            } else {
                (Phase::Writing, Action::Write(n))
            },
            Event::Written => (Phase::Receiving, Action::Receive),
            Event::Promoted => (Phase::Ended, Action::Finish),
            Event::Failed => match self.phase {
                Phase::Promoting => (Phase::Ended, Action::Fail),
                _ => (Phase::Ended, Action::DiscardFailed),
            },
        };
        self.phase = phase;
        action
    }
}

/// Where a download stands after the events, and what is to be done.
pub open spec fn after(events: Seq<Event>) -> (Phase, Action)
    decreases events.len(),
{
    if events.len() == 0 {
        (Phase::Requesting, Action::Request)
    } else {
        next(after(events.drop_last()).0, events.last())
    }
}

/// Every event is an outcome of the action before it.
pub open spec fn is_run(events: Seq<Event>) -> bool
    decreases events.len(),
{
    events.len() > 0 ==> is_run(events.drop_last()) && fits(
        after(events.drop_last()).0,
        events.last(),
    )
}

/// The server answered with success.
pub open spec fn is_agreement(event: Event) -> bool {
    event matches Event::Responded { status, .. } && 200 <= status <= 299
}

/// The event at `i` is that a part was received, or in its turn that it was written.
pub open spec fn in_turn(i: int, event: Event) -> bool {
    if i % 2 == 0 {
        event matches Event::Received(n) && n > 0
    } else {
        event == Event::Written
    }
}

/// The server agreed, the temporary file was created, and from then on every part
/// that was received was written.
pub open spec fn received_in_full(events: Seq<Event>) -> bool {
    &&& events.len() >= 2
    &&& is_agreement(events[0])
    &&& events[1] == Event::Created
    &&& forall|i: int| 2 <= i < events.len() ==> in_turn(i, #[trigger] events[i])
}

proof fn lemma_phases(events: Seq<Event>)
    requires
        is_run(events),
    ensures
        match after(events).0 {
            Phase::Requesting => events.len() == 0,
            Phase::Creating => events.len() == 1 && is_agreement(events[0]),
            Phase::Receiving => events.len() % 2 == 0 && received_in_full(events),
            Phase::Writing => events.len() % 2 == 1 && received_in_full(events),
            Phase::Promoting => {
                &&& events.len() % 2 == 1
                &&& events.last() == Event::Received(0)
                &&& received_in_full(events.drop_last())
            },
            Phase::Ended => true,
        },
        after(events).1 == Action::Promote ==> after(events).0 == Phase::Promoting,
        after(events).1 == Action::Finish ==> events.len() > 0 && events.last() == Event::Promoted
            && after(events.drop_last()).0 == Phase::Promoting,
        after(events).0 == Phase::Promoting ==> after(events).1 == Action::Promote,
    decreases events.len(),
{
    if events.len() > 0 {
        let most = events.drop_last();
        lemma_phases(most);
        if received_in_full(most) {
            assert forall|i: int| 2 <= i < most.len() implies in_turn(i, #[trigger] events[i]) by {
                assert(most[i] == events[i]);
            }
            assert(most[0] == events[0] && most[1] == events[1]);
        }
    }
}

/// The file is given its own name only when all of it was received and written:
/// no step had failed, and the last thing received was the end.
pub proof fn promoted_when_complete(events: Seq<Event>)
    requires
        is_run(events),
        after(events).1 == Action::Promote,
    ensures
        received_in_full(events.drop_last()),
        events.last() == Event::Received(0),
        !events.contains(Event::Failed),
{
    lemma_phases(events);
    let most = events.drop_last();
    assert forall|i: int| 0 <= i < events.len() implies events[i] != Event::Failed by {
        if i < most.len() {
            assert(most[i] == events[i]);
        }
    }
}

/// Success is reported only of a file that was given its own name.
pub proof fn finished_when_promoted(events: Seq<Event>)
    requires
        is_run(events),
        after(events).1 == Action::Finish,
    ensures
        events.last() == Event::Promoted,
        after(events.drop_last()).1 == Action::Promote,
{
    lemma_phases(events);
    lemma_phases(events.drop_last());
}

/// A refusal, and a failure before the file is given its own name, is met by
/// removing the temporary file, and nothing is done after that.
pub proof fn failure_is_discarded(events: Seq<Event>, event: Event)
    requires
        is_run(events),
        fits(after(events).0, event),
        event == Event::Failed || event is Responded && !is_agreement(event),
        after(events).1 != Action::Promote,
    ensures
        match event {
            Event::Responded { status, .. } => after(events.push(event)).1
                == (Action::DiscardRefused { status }),
            _ => after(events.push(event)).1 == Action::DiscardFailed,
        },
        forall|later: Event| !is_run(events.push(event).push(later)),
{
    lemma_phases(events);
    assert(events.push(event).drop_last() =~= events);
    assert forall|later: Event| !is_run(events.push(event).push(later)) by {
        assert(events.push(event).push(later).drop_last() =~= events.push(event));
    }
}

/// A number is read from its first digit to its last: one more digit makes it ten
/// times as large and adds the digit.
pub proof fn digits_are_read_in_order(digits: Seq<char>, c: char)
    requires
        '0' <= c <= '9',
    ensures
        decimal(Seq::empty()) == 0,
        decimal(digits.push(c)) == 10 * decimal(digits) + (c as int - '0' as int),
{
    assert(digits.push(c).drop_last() =~= digits);
}

/// The texts that are numbers: one digit or more, with or without a plus sign in
/// front, which does not change the number. A text with anything else in it is none.
pub proof fn numbers_are_digits(digits: Seq<char>, text: Seq<char>, i: int)
    ensures
        digits.len() > 0 && (forall|k: int|
            0 <= k < digits.len() ==> '0' <= #[trigger] digits[k] <= '9') ==> {
            &&& is_u64(digits) <==> decimal(digits) <= u64::MAX
            &&& is_u64(seq!['+'] + digits) <==> decimal(digits) <= u64::MAX
            &&& unsigned_digits(digits) == digits
            &&& unsigned_digits(seq!['+'] + digits) == digits
        },
        0 <= i < text.len() && !('0' <= text[i] <= '9') && !(i == 0 && text[i] == '+') ==> !is_u64(
            text,
        ),
        !is_u64(Seq::empty()),
        !is_u64(seq!['+']),
{
    if digits.len() > 0 && (forall|k: int|
        0 <= k < digits.len() ==> '0' <= #[trigger] digits[k] <= '9') {
        assert('0' <= digits[0] <= '9');
        assert((seq!['+'] + digits).skip(1) =~= digits);
        assert(unsigned_digits(digits) == digits);
        assert(unsigned_digits(seq!['+'] + digits) == digits);
    }
    if 0 <= i < text.len() && !('0' <= text[i] <= '9') && !(i == 0 && text[i] == '+') {
        let read = unsigned_digits(text);
        if read.len() == text.len() {
            assert(read[i] == text[i]);
        } else {
            assert(i > 0);
            assert(read[i - 1] == text[i]);
        }
    }
    assert(seq!['+'].skip(1) =~= Seq::<char>::empty());
}

/// A length that is announced in digits is the number that they write, also behind a
/// plus sign, or zero where that number does not fit.
pub proof fn announced_digits_are_read(bytes: Seq<u8>)
    requires
        bytes.len() > 0,
        forall|i: int| 0 <= i < bytes.len() ==> 48 <= #[trigger] bytes[i] <= 57,
    ensures
        ({
            let n = decimal(bytes.map_values(|b: u8| b as char));
            announced(Some(bytes)) == if n <= u64::MAX {
                n
            } else {
                0
            }
        }),
        announced(Some(seq![43u8] + bytes)) == announced(Some(bytes)),
{
    let digits = bytes.map_values(|b: u8| b as char);
    assert forall|k: int| 0 <= k < digits.len() implies '0' <= #[trigger] digits[k] <= '9' by {
        assert(digits[k] == bytes[k] as char);
    }
    numbers_are_digits(digits, digits, 0);
    assert((seq![43u8] + bytes).map_values(|b: u8| b as char) =~= seq!['+'] + digits);
}

/// Where no length is announced, or it is announced in anything but digits, it is
/// taken to be zero.
pub proof fn other_announcements_are_zero(bytes: Seq<u8>, i: int)
    ensures
        announced(None) == 0,
        announced(Some(Seq::empty())) == 0,
        0 <= i < bytes.len() && !(48 <= bytes[i] <= 57) && !(i == 0 && bytes[i] == 43)
            ==> announced(Some(bytes)) == 0,
{
    let text = bytes.map_values(|b: u8| b as char);
    numbers_are_digits(Seq::empty(), text, i);
    assert(Seq::<u8>::empty().map_values(|b: u8| b as char) =~= Seq::<char>::empty());
    if 0 <= i < bytes.len() {
        assert(text[i] == bytes[i] as char);
    }
}

/// A refusal names the status by its number.
pub proof fn status_code_is_the_number(status: u16)
    requires
        100 <= status <= 999,
    ensures
        status_code(status).len() == 4,
        decimal(status_code(status).take(3)) == status,
        status_code(status)[3] == ' ',
{
    let code = status_code(status);
    let a = code.take(3);
    let b = code.take(2);
    let c = code.take(1);
    assert(a.drop_last() =~= b);
    assert(b.drop_last() =~= c);
    assert(c.drop_last() =~= Seq::<char>::empty());
    assert(decimal(Seq::<char>::empty()) == 0);
    assert(decimal(c) == status / 100);
    assert(decimal(b) == decimal(c) * 10 + status / 10 % 10);
    assert(decimal(a) == decimal(b) * 10 + status % 10);
}

/// What was asked for decides what can come of it: each action has its own outcome,
/// of whatever size or status, and can fail. After the last one nothing comes.
pub proof fn outcomes_answer_the_action(events: Seq<Event>, event: Event)
    requires
        is_run(events),
    ensures
        is_run(events.push(event)) <==> match after(events).1 {
            Action::Request => event == Event::Failed || (event is Responded && 100
                <= event->status <= 999),
            Action::Create { .. } => event == Event::Failed || event == Event::Created,
            Action::Receive => event == Event::Failed || event is Received,
            Action::Write(_) => event == Event::Failed || event == Event::Written,
            Action::Promote => event == Event::Failed || event == Event::Promoted,
            _ => false,
        },
{
    assert(events.push(event).drop_last() =~= events);
    if events.len() > 0 {
        assert(after(events) == next(after(events.drop_last()).0, events.last()));
    }
}

/// What comes of an action decides what is done next. What was announced, received
/// or refused is handed on as it came.
pub proof fn action_answers_the_outcome(events: Seq<Event>, event: Event)
    requires
        is_run(events),
        is_run(events.push(event)),
    ensures
        after(events.push(event)).1 == match event {
            Event::Responded { status, total } => if 200 <= status <= 299 {
                Action::Create { total }
            } else {
                Action::DiscardRefused { status }
            },
            Event::Created => Action::Receive,
            Event::Received(n) => if n == 0 {
                Action::Promote
            } else {
                Action::Write(n)
            },
            Event::Written => Action::Receive,
            Event::Promoted => Action::Finish,
            Event::Failed => if after(events).1 == Action::Promote {
                Action::Fail
            } else {
                Action::DiscardFailed
            },
        },
{
    lemma_phases(events);
    assert(events.push(event).drop_last() =~= events);
}

/// How many bytes came with each part that was received, in order.
pub open spec fn received(events: Seq<Event>) -> Seq<usize>
    decreases events.len(),
{
    if events.len() == 0 {
        Seq::empty()
    } else {
        match events.last() {
            Event::Received(n) if n > 0 => received(events.drop_last()).push(n),
            _ => received(events.drop_last()),
        }
    }
}

/// How many bytes are to be written each time that something is, in order.
pub open spec fn written(events: Seq<Event>) -> Seq<usize>
    decreases events.len(),
{
    if events.len() == 0 {
        Seq::empty()
    } else {
        match after(events).1 {
            Action::Write(n) => written(events.drop_last()).push(n),
            _ => written(events.drop_last()),
        }
    }
}

/// The sum of the counts.
pub open spec fn total(counts: Seq<usize>) -> nat
    decreases counts.len(),
{
    if counts.len() == 0 {
        0
    } else {
        total(counts.drop_last()) + counts.last() as nat
    }
}

/// All that is received is written: at every moment the parts that were asked to be
/// written are those that were received, in their order and of their sizes, and so
/// are as many bytes. When the file is given its own name, each of these parts has
/// been written.
pub proof fn all_that_is_received_is_written(events: Seq<Event>)
    requires
        is_run(events),
    ensures
        written(events) == received(events),
        total(written(events)) == total(received(events)),
        after(events).1 == Action::Promote ==> forall|i: int|
            0 <= i < events.len() && (#[trigger] events[i] matches Event::Received(n) && n > 0)
                ==> i + 1 < events.len() && events[i + 1] == Event::Written && after(
                events.take(i + 1),
            ).1 == Action::Write(events[i]->Received_0),
    decreases events.len(),
{
    lemma_phases(events);
    if events.len() > 0 {
        let most = events.drop_last();
        all_that_is_received_is_written(most);
        assert(most.push(events.last()) =~= events);
        action_answers_the_outcome(most, events.last());
    }
    if after(events).1 == Action::Promote {
        promoted_when_complete(events);
        let most = events.drop_last();
        assert forall|i: int|
            0 <= i < events.len() && (#[trigger] events[i] matches Event::Received(n) && n
                > 0) implies i + 1 < events.len() && events[i + 1] == Event::Written && after(
            events.take(i + 1),
        ).1 == Action::Write(events[i]->Received_0) by {
            assert(most[i] == events[i]);
            assert(in_turn(i, most[i]));
            assert(most.len() % 2 == 0);
            assert(i % 2 == 0);
            assert(in_turn(i + 1, most[i + 1]));
            let part = events.take(i + 1);
            assert(part.last() == events[i]);
        }
    }
}

} // verus!
