//! Searching, cutting and measuring text.
//!
//! Text is modelled as a sequence of characters. Its length in bytes is the
//! length of its UTF-8 encoding, which is what the sizes in this crate count.

use vstd::prelude::*;
use vstd::utf8::*;

verus! {

/// The number of bytes that a text takes in UTF-8.
pub open spec fn utf8_len(s: Seq<char>) -> nat {
    encode_utf8(s).len()
}

/// `pattern` stands in `s` at character `i`.
pub open spec fn occurs_at(s: Seq<char>, pattern: Seq<char>, i: int) -> bool {
    &&& 0 <= i
    &&& i + pattern.len() <= s.len()
    &&& s.subrange(i, i + pattern.len()) == pattern
}

/// `pattern` stands somewhere in `s`.
pub open spec fn contains_text(s: Seq<char>, pattern: Seq<char>) -> bool {
    exists|i: int| occurs_at(s, pattern, i)
}

/// `s` is made of something, `part`, and something more.
pub open spec fn stands_in(s: Seq<char>, part: Seq<char>) -> bool {
    exists|before: Seq<char>, after: Seq<char>| s == #[trigger] (before + part + after)
}

/// `pattern` stands in `s` at character `i` and nowhere before it.
pub open spec fn first_occurs_at(s: Seq<char>, pattern: Seq<char>, i: int) -> bool {
    &&& occurs_at(s, pattern, i)
    &&& forall|j: int| j < i ==> !occurs_at(s, pattern, j)
}

/// The character at which `pattern` first stands in `s`.
pub open spec fn find_text(s: Seq<char>, pattern: Seq<char>) -> Option<int> {
    if contains_text(s, pattern) {
        Some(choose|i: int| first_occurs_at(s, pattern, i))
    } else {
        None
    }
}

/// The longest ending of `s` that takes at most `n` bytes.
pub open spec fn tail(s: Seq<char>, n: nat) -> Seq<char>
    decreases s.len(),
{
    if s.len() == 0 || utf8_len(s) <= n {
        s
    } else {
        tail(s.drop_first(), n)
    }
}

/// What stands before [`tail`].
pub open spec fn head(s: Seq<char>, n: nat) -> Seq<char> {
    s.take(s.len() - tail(s, n).len())
}

/// The last `n` bytes of `s` are whole characters, or `s` has no more than `n`.
pub open spec fn aligned(s: Seq<char>, n: nat) -> bool {
    utf8_len(s) <= n || utf8_len(tail(s, n)) == n
}

/// The encoding of a concatenation is the concatenation of the encodings.
proof fn lemma_encode_concat(a: Seq<char>, b: Seq<char>)
    ensures
        encode_utf8(a + b) == encode_utf8(a) + encode_utf8(b),
        utf8_len(a + b) == utf8_len(a) + utf8_len(b),
    decreases a.len(),
{
    if a.len() == 0 {
        assert(a + b =~= b);
        assert(encode_utf8(a) + encode_utf8(b) =~= encode_utf8(b));
    } else {
        lemma_encode_concat(a.drop_first(), b);
        assert((a + b).drop_first() =~= a.drop_first() + b);
        assert(encode_utf8(a + b) =~= encode_utf8(a) + encode_utf8(b));
    }
}

/// Texts with the same encoding are the same.
proof fn lemma_encode_injective(a: Seq<char>, b: Seq<char>)
    requires
        encode_utf8(a) == encode_utf8(b),
    ensures
        a == b,
{
    encode_utf8_decode_utf8(a);
    encode_utf8_decode_utf8(b);
}

/// Every character takes at least one byte.
proof fn lemma_utf8_len_lower(s: Seq<char>)
    ensures
        s.len() <= utf8_len(s),
    decreases s.len(),
{
    if s.len() > 0 {
        lemma_utf8_len_lower(s.drop_first());
    }
}

/// The encoding of a text that is not empty starts with no continuation byte.
proof fn lemma_encode_leads(s: Seq<char>)
    requires
        s.len() > 0,
    ensures
        encode_utf8(s).len() > 0,
        !is_continuation_byte(encode_utf8(s)[0]),
{
    encode_utf8_first_scalar(s);
    lemma_utf8_len_lower(s);
}

/// Between two encoded texts lies a character boundary.
proof fn lemma_boundary_between(a: Seq<char>, b: Seq<char>)
    ensures
        is_char_boundary(encode_utf8(a + b), utf8_len(a) as int),
{
    lemma_encode_concat(a, b);
    let bytes = encode_utf8(a + b);
    encode_utf8_valid_utf8(a + b);
    if b.len() == 0 {
        is_char_boundary_start_end_of_seq(bytes);
        assert(a + b =~= a);
    } else {
        lemma_encode_leads(b);
        assert(bytes[utf8_len(a) as int] == encode_utf8(b)[0]);
        is_char_boundary_iff_not_is_continuation_byte(bytes, utf8_len(a) as int);
    }
}

/// If a pattern stands somewhere, it stands somewhere first.
proof fn lemma_first_occurrence(s: Seq<char>, pattern: Seq<char>, i: int)
    requires
        occurs_at(s, pattern, i),
    ensures
        exists|k: int| #[trigger] first_occurs_at(s, pattern, k) && k <= i,
    decreases i,
{
    if exists|j: int| j < i && occurs_at(s, pattern, j) {
        let j = choose|j: int| j < i && occurs_at(s, pattern, j);
        lemma_first_occurrence(s, pattern, j);
    } else {
        assert(first_occurs_at(s, pattern, i));
    }
}

/// What [`find_text`] finds is the first occurrence.
pub proof fn lemma_find_text(s: Seq<char>, pattern: Seq<char>)
    ensures
        find_text(s, pattern) matches Some(i) ==> first_occurs_at(s, pattern, i),
        find_text(s, pattern) is None ==> !contains_text(s, pattern),
{
    if contains_text(s, pattern) {
        let i = choose|i: int| occurs_at(s, pattern, i);
        lemma_first_occurrence(s, pattern, i);
    }
}

/// The first occurrence is what [`find_text`] finds.
pub proof fn lemma_find_text_is(s: Seq<char>, pattern: Seq<char>, i: int)
    requires
        first_occurs_at(s, pattern, i),
    ensures
        find_text(s, pattern) == Some(i),
{
    lemma_find_text(s, pattern);
    let k = find_text(s, pattern)->0;
    assert(first_occurs_at(s, pattern, k));
}

/// Between what stands before it and what stands after it, a pattern occurs.
pub proof fn joined_pattern_occurs(before: Seq<char>, pattern: Seq<char>, after: Seq<char>)
    ensures
        occurs_at(before + pattern + after, pattern, before.len() as int),
{
    let s = before + pattern + after;
    let k = before.len() as int;
    assert(s.subrange(k, k + pattern.len()) =~= pattern);
}

/// An occurrence cuts the text into what stands before it, the pattern, and what
/// stands after it.
pub proof fn occurrence_cuts(s: Seq<char>, pattern: Seq<char>, i: int)
    requires
        occurs_at(s, pattern, i),
    ensures
        0 <= i,
        i + pattern.len() <= s.len(),
        s == s.take(i) + pattern + s.skip(i + pattern.len()),
{
    assert(s =~= s.take(i) + pattern + s.skip(i + pattern.len()));
}

/// A text contains what it is made of with something before and after, and nothing
/// else.
pub proof fn containing_is_standing_in(s: Seq<char>, pattern: Seq<char>)
    ensures
        contains_text(s, pattern) <==> stands_in(s, pattern),
{
    if contains_text(s, pattern) {
        let i = choose|i: int| occurs_at(s, pattern, i);
        occurrence_cuts(s, pattern, i);
        assert(s == s.take(i) + pattern + s.skip(i + pattern.len()));
    }
    if stands_in(s, pattern) {
        let (before, after) = choose|before: Seq<char>, after: Seq<char>|
            s == #[trigger] (before + pattern + after);
        joined_pattern_occurs(before, pattern, after);
        assert(occurs_at(s, pattern, before.len() as int));
    }
}

/// What is known of [`tail`] and [`head`].
pub proof fn lemma_tail(s: Seq<char>, n: nat)
    ensures
        tail(s, n).len() <= s.len(),
        utf8_len(tail(s, n)) <= n,
        head(s, n) + tail(s, n) == s,
        utf8_len(s) <= n ==> tail(s, n) == s && head(s, n) == Seq::<char>::empty(),
    decreases s.len(),
{
    if s.len() == 0 || utf8_len(s) <= n {
        assert(head(s, n) + tail(s, n) =~= s);
    } else {
        lemma_tail(s.drop_first(), n);
        let t = tail(s, n);
        assert(s =~= seq![s[0]] + s.drop_first());
        assert(head(s, n) =~= seq![s[0]] + head(s.drop_first(), n));
        assert(head(s, n) + t =~= s);
    }
}

/// An ending that fits in `n` bytes lies within the longest one.
pub proof fn lemma_tail_covers(a: Seq<char>, b: Seq<char>, n: nat)
    requires
        utf8_len(b) <= n,
    ensures
        b.len() <= tail(a + b, n).len(),
        head(a + b, n).len() <= a.len(),
    decreases a.len(),
{
    let s = a + b;
    lemma_tail(s, n);
    if s.len() == 0 || utf8_len(s) <= n {
    } else {
        if a.len() == 0 {
            assert(s =~= b);
        } else {
            assert(s.drop_first() =~= a.drop_first() + b);
            lemma_tail_covers(a.drop_first(), b, n);
        }
    }
}

/// An ending of exactly `n` bytes is the longest one that fits.
pub proof fn lemma_tail_exact(a: Seq<char>, b: Seq<char>, n: nat)
    requires
        utf8_len(b) == n,
    ensures
        tail(a + b, n) == b,
        head(a + b, n) == a,
        aligned(a + b, n),
    decreases a.len(),
{
    let s = a + b;
    lemma_encode_concat(a, b);
    lemma_utf8_len_lower(a);
    if a.len() == 0 {
        assert(s =~= b);
        assert(head(s, n) =~= a);
    } else {
        assert(s.drop_first() =~= a.drop_first() + b);
        lemma_tail_exact(a.drop_first(), b, n);
        assert(head(s, n) =~= a);
    }
}

/// The last `n` bytes are whole characters exactly where the text can be cut in
/// front of them, or has no more than them.
pub proof fn aligned_is_a_cut(s: Seq<char>, n: nat)
    ensures
        aligned(s, n) <==> exists|a: Seq<char>, b: Seq<char>|
            s == #[trigger] (a + b) && (encode_utf8(b).len() == n || (a.len() == 0 && encode_utf8(
                b,
            ).len() <= n)),
{
    lemma_tail(s, n);
    if aligned(s, n) {
        assert(s == head(s, n) + tail(s, n));
    }
    if exists|a: Seq<char>, b: Seq<char>|
        s == #[trigger] (a + b) && (encode_utf8(b).len() == n || (a.len() == 0 && encode_utf8(
            b,
        ).len() <= n)) {
        let (a, b) = choose|a: Seq<char>, b: Seq<char>|
            s == #[trigger] (a + b) && (encode_utf8(b).len() == n || (a.len() == 0 && encode_utf8(
                b,
            ).len() <= n));
        if encode_utf8(b).len() == n {
            lemma_tail_exact(a, b, n);
        } else {
            assert(s =~= b);
        }
    }
}

/// Whether two texts are the same.
pub fn same_text(a: &str, b: &str) -> (r: bool)
    ensures
        r == (a@ == b@),
{
    let x = a.as_bytes();
    let y = b.as_bytes();
    if x.len() != y.len() {
        return false;
    }
    let mut i: usize = 0;
    while i < x.len()
        invariant
            i <= x@.len(),
            x@.len() == y@.len(),
            x@ == encode_utf8(a@),
            y@ == encode_utf8(b@),
            forall|j: int| 0 <= j < i ==> x@[j] == y@[j],
        decreases x@.len() - i,
    {
        if x[i] != y[i] {
            return false;
        }
        i += 1;
    }
    assert(x@ =~= y@);
    proof {
        lemma_encode_injective(a@, b@);
    }
    true
}

/// `pattern` stands in `bytes` at byte `i`.
spec fn bytes_at(bytes: Seq<u8>, pattern: Seq<u8>, i: int) -> bool {
    0 <= i && i + pattern.len() <= bytes.len() && bytes.subrange(i, i + pattern.len()) == pattern
}

/// Whether `pattern` stands in `bytes` at byte `i`.
fn matches_at(bytes: &[u8], pattern: &[u8], i: usize) -> (r: bool)
    requires
        i + pattern@.len() <= bytes@.len(),
    ensures
        r == bytes_at(bytes@, pattern@, i as int),
{
    let end: usize = bytes.len();
    let mut j: usize = 0;
    while j < pattern.len()
        invariant
            j <= pattern@.len(),
            end == bytes@.len(),
            i + pattern@.len() <= end,
            forall|k: int| 0 <= k < j ==> bytes@[i + k] == pattern@[k],
        decreases pattern@.len() - j,
    {
        if bytes[i + j] != pattern[j] {
            assert(bytes@.subrange(i as int, i + pattern@.len())[j as int] != pattern@[j as int]);
            return false;
        }
        j += 1;
    }
    assert(bytes@.subrange(i as int, i + pattern@.len()) =~= pattern@);
    true
}

/// A character occurrence is a byte occurrence.
proof fn lemma_bytes_at(s: Seq<char>, pattern: Seq<char>, i: int)
    requires
        occurs_at(s, pattern, i),
    ensures
        bytes_at(encode_utf8(s), encode_utf8(pattern), utf8_len(s.take(i)) as int),
{
    let a = s.take(i);
    let c = s.skip(i + pattern.len());
    assert(s =~= a + (pattern + c));
    lemma_encode_concat(a, pattern + c);
    lemma_encode_concat(pattern, c);
    let bytes = encode_utf8(s);
    let p = encode_utf8(pattern);
    assert(bytes.subrange(utf8_len(a) as int, (utf8_len(a) + p.len()) as int) =~= p);
}

/// The byte at which `pattern` first stands in `s`.
fn find_byte(s: &str, pattern: &str) -> (r: Option<usize>)
    ensures
        r matches Some(i) ==> bytes_at(encode_utf8(s@), encode_utf8(pattern@), i as int) && forall|
            j: int,
        |
            j < i ==> !bytes_at(encode_utf8(s@), encode_utf8(pattern@), j),
        r is None ==> forall|j: int| !bytes_at(encode_utf8(s@), encode_utf8(pattern@), j),
{
    let bytes = s.as_bytes();
    let p = pattern.as_bytes();
    if p.len() > bytes.len() {
        return None;
    }
    let last: usize = bytes.len() - p.len();
    let mut i: usize = 0;
    while i <= last
        invariant
            i <= last + 1,
            last == bytes@.len() - p@.len(),
            bytes@ == encode_utf8(s@),
            p@ == encode_utf8(pattern@),
            forall|j: int| j < i ==> !bytes_at(bytes@, p@, j),
        decreases last + 1 - i,
    {
        if matches_at(bytes, p, i) {
            return Some(i);
        }
        if i == last {
            return None;
        }
        i += 1;
    }
    None
}

/// Encoded text that starts with an encoded pattern has a character boundary behind it.
proof fn lemma_boundary_behind(rest: Seq<char>, pattern: Seq<char>)
    requires
        bytes_at(encode_utf8(rest), encode_utf8(pattern), 0),
    ensures
        is_char_boundary(encode_utf8(rest), utf8_len(pattern) as int),
{
    let bytes = encode_utf8(rest);
    let n = utf8_len(pattern) as int;
    encode_utf8_valid_utf8(rest);
    encode_utf8_valid_utf8(pattern);
    if n < bytes.len() {
        let last = bytes.subrange(n, bytes.len() as int);
        if !valid_utf8(last) {
            partial_valid_partial_invalid_utf8(bytes, n);
        }
        decode_utf8_encode_utf8(last);
        let text = decode_utf8(last);
        assert(text.len() > 0);
        lemma_encode_leads(text);
        assert(bytes[n] == last[0]);
        is_char_boundary_iff_not_is_continuation_byte(bytes, n);
    } else {
        is_char_boundary_start_end_of_seq(bytes);
    }
}

/// Where a pattern stands among bytes, characters begin.
proof fn lemma_boundary_before(s: Seq<char>, pattern: Seq<char>, i: int)
    requires
        pattern.len() > 0,
        bytes_at(encode_utf8(s), encode_utf8(pattern), i),
    ensures
        is_char_boundary(encode_utf8(s), i),
{
    let bytes = encode_utf8(s);
    let p = encode_utf8(pattern);
    encode_utf8_valid_utf8(s);
    lemma_encode_leads(pattern);
    assert(bytes.subrange(i, i + p.len())[0] == p[0]);
    is_char_boundary_iff_not_is_continuation_byte(bytes, i);
}

/// The first byte occurrence is the first character occurrence.
proof fn lemma_found(s: Seq<char>, pattern: Seq<char>, before: Seq<char>, after: Seq<char>)
    requires
        s == before + pattern + after,
        forall|j: int|
            j < utf8_len(before) ==> !bytes_at(encode_utf8(s), encode_utf8(pattern), j),
    ensures
        find_text(s, pattern) == Some(before.len() as int),
{
    let k = before.len() as int;
    assert(s.subrange(k, k + pattern.len()) =~= pattern);
    assert forall|j: int| j < k implies !occurs_at(s, pattern, j) by {
        if occurs_at(s, pattern, j) {
            lemma_bytes_at(s, pattern, j);
            let a = s.take(j);
            let b = before.skip(j);
            assert(before =~= a + b);
            lemma_encode_concat(a, b);
            lemma_utf8_len_lower(b);
        }
    }
    lemma_find_text_is(s, pattern, k);
}

/// Encodings that join to an encoding come from texts that join to the text.
proof fn lemma_joined(s: Seq<char>, a: Seq<char>, b: Seq<char>, i: int)
    requires
        0 <= i <= encode_utf8(s).len(),
        encode_utf8(a) == encode_utf8(s).subrange(0, i),
        encode_utf8(b) == encode_utf8(s).subrange(i, encode_utf8(s).len() as int),
    ensures
        s == a + b,
{
    lemma_encode_concat(a, b);
    assert(encode_utf8(a) + encode_utf8(b) =~= encode_utf8(s));
    lemma_encode_injective(a + b, s);
}

/// What stands before and after the first occurrence of `pattern` in `s`.
pub fn split_at_first<'a>(s: &'a str, pattern: &str) -> (r: Option<(&'a str, &'a str)>)
    requires
        pattern@.len() > 0,
    ensures
        match r {
            Some((before, after)) => {
                &&& find_text(s@, pattern@) == Some(before@.len() as int)
                &&& s@ == before@ + pattern@ + after@
                &&& forall|a: Seq<char>, b: Seq<char>|
                    s@ == #[trigger] (a + pattern@ + b) ==> before@.len() <= a.len()
            },
            None => find_text(s@, pattern@) is None && !stands_in(s@, pattern@),
        },
{
    match find_byte(s, pattern) {
        None => {
            proof {
                if contains_text(s@, pattern@) {
                    let i = choose|i: int| occurs_at(s@, pattern@, i);
                    lemma_bytes_at(s@, pattern@, i);
                }
                containing_is_standing_in(s@, pattern@);
            }
            None
        },
        Some(i) => {
            proof {
                lemma_boundary_before(s@, pattern@, i as int);
            }
            let (before, rest) = s.split_at(i);
            let n: usize = pattern.as_bytes().len();
            proof {
                lemma_joined(s@, before@, rest@, i as int);
                assert(encode_utf8(rest@).subrange(0, n as int) =~= encode_utf8(pattern@));
                lemma_boundary_behind(rest@, pattern@);
            }
            let (middle, after) = rest.split_at(n);
            proof {
                lemma_joined(rest@, middle@, after@, n as int);
                lemma_encode_injective(middle@, pattern@);
                assert(s@ =~= before@ + pattern@ + after@);
                lemma_found(s@, pattern@, before@, after@);
                lemma_find_text(s@, pattern@);
                assert forall|a: Seq<char>, b: Seq<char>|
                    s@ == #[trigger] (a + pattern@ + b) implies before@.len() <= a.len() by {
                    joined_pattern_occurs(a, pattern@, b);
                }
            }
            Some((before, after))
        },
    }
}

/// Whether `pattern` stands in `s`.
pub fn contains(s: &str, pattern: &str) -> (r: bool)
    requires
        pattern@.len() > 0,
    ensures
        r == contains_text(s@, pattern@),
        r == stands_in(s@, pattern@),
{
    proof {
        containing_is_standing_in(s@, pattern@);
    }
    match split_at_first(s, pattern) {
        Some(_) => true,
        None => false,
    }
}

/// Whether the last `n` bytes of `s` are whole characters.
pub fn is_aligned(s: &str, n: usize) -> (r: bool)
    ensures
        r == aligned(s@, n as nat),
        r <==> exists|a: Seq<char>, b: Seq<char>|
            s@ == #[trigger] (a + b) && (encode_utf8(b).len() == n || (a.len() == 0 && encode_utf8(
                b,
            ).len() <= n)),
{
    proof {
        aligned_is_a_cut(s@, n as nat);
    }
    let len = s.as_bytes().len();
    if len <= n {
        return true;
    }
    let r = s.is_char_boundary(len - n);
    proof {
        let bytes = encode_utf8(s@);
        encode_utf8_valid_utf8(s@);
        if r {
            let i = len - n;
            valid_utf8_split(bytes, i);
            let a = decode_utf8(bytes.subrange(0, i));
            let b = decode_utf8(bytes.subrange(i, len as int));
            decode_utf8_encode_utf8(bytes.subrange(0, i));
            decode_utf8_encode_utf8(bytes.subrange(i, len as int));
            decode_utf8_split(bytes, i);
            encode_utf8_decode_utf8(s@);
            assert(s@ =~= a + b);
            lemma_tail_exact(a, b, n as nat);
        } else if aligned(s@, n as nat) {
            lemma_tail(s@, n as nat);
            lemma_encode_concat(head(s@, n as nat), tail(s@, n as nat));
            lemma_boundary_between(head(s@, n as nat), tail(s@, n as nat));
        }
    }
    r
}

/// Cuts off the last `n` bytes of `s`, or all of a shorter `s`.
pub fn split_tail<'a>(s: &'a str, n: usize) -> (r: (&'a str, &'a str))
    requires
        aligned(s@, n as nat),
    ensures
        r.0@ == head(s@, n as nat),
        r.1@ == tail(s@, n as nat),
        s@ == r.0@ + r.1@,
        encode_utf8(r.1@).len() == if encode_utf8(s@).len() <= n {
            encode_utf8(s@).len()
        } else {
            n as nat
        },
{
    let len = s.as_bytes().len();
    let keep: usize = if n < len {
        n
    } else {
        len
    };
    let ghost m = n as nat;
    proof {
        lemma_tail(s@, m);
        lemma_encode_concat(head(s@, m), tail(s@, m));
        lemma_boundary_between(head(s@, m), tail(s@, m));
    }
    let (a, b) = s.split_at(len - keep);
    proof {
        assert(encode_utf8(a@) =~= encode_utf8(head(s@, m)));
        assert(encode_utf8(b@) =~= encode_utf8(tail(s@, m)));
        lemma_encode_injective(a@, head(s@, m));
        lemma_encode_injective(b@, tail(s@, m));
    }
    (a, b)
}

} // verus!
