//! Text by its bytes: the facts about UTF-8 that a byte-indexed text rests on.
use vstd::prelude::*;
use vstd::string::*;
use vstd::utf8::*;

verus! {

/// The encoding of two texts after one another is the one's followed by the other's.
pub proof fn lemma_encode_concat(a: Seq<char>, b: Seq<char>)
    ensures
        encode_utf8(a + b) == encode_utf8(a) + encode_utf8(b),
    decreases a.len(),
{
    if a.len() == 0 {
        assert(a + b =~= b);
        assert(encode_utf8(a) + encode_utf8(b) =~= encode_utf8(b));
    } else {
        assert((a + b).drop_first() =~= a.drop_first() + b);
        lemma_encode_concat(a.drop_first(), b);
        assert(encode_utf8(a + b) =~= encode_utf8(a) + encode_utf8(b));
    }
}

/// A text has no more characters than bytes.
pub proof fn lemma_no_more_chars_than_bytes(chars: Seq<char>)
    ensures
        chars.len() <= encode_utf8(chars).len(),
    decreases chars.len(),
{
    if chars.len() > 0 {
        lemma_no_more_chars_than_bytes(chars.drop_first());
    }
}

/// A character starts behind every ASCII byte.
pub proof fn lemma_boundary_after_ascii(bytes: Seq<u8>, i: int)
    requires
        valid_utf8(bytes),
        0 < i <= bytes.len(),
        bytes[i - 1] < 0x80,
    ensures
        is_char_boundary(bytes, i),
    decreases bytes.len(),
{
    reveal_with_fuel(is_char_boundary, 2);
    let n = length_of_first_scalar(bytes);
    let rest = pop_first_scalar(bytes);
    if i <= n {
        is_char_boundary_iff_not_is_continuation_byte(bytes, i - 1);
        let b = bytes[i - 1];
        assert(b < 0x80 ==> !is_continuation_byte(b)) by (bit_vector);
        assert(is_char_boundary(bytes, i - 1));
        assert(i == 1);
        assert(b < 0x80 ==> is_leading_byte_width_1(b)) by (bit_vector);
        assert(n == 1);
    } else {
        assert(rest[i - n - 1] == bytes[i - 1]);
        lemma_boundary_after_ascii(rest, i - n);
    }
}

/// A character starts at every ASCII byte.
pub proof fn lemma_boundary_at_ascii(bytes: Seq<u8>, i: int)
    requires
        valid_utf8(bytes),
        0 <= i < bytes.len(),
        bytes[i] < 0x80,
    ensures
        is_char_boundary(bytes, i),
{
    let b = bytes[i];
    assert(b < 0x80 ==> !is_continuation_byte(b)) by (bit_vector);
    is_char_boundary_iff_not_is_continuation_byte(bytes, i);
}

/// Where a character starts in a text, one starts in every prefix that goes that far.
pub proof fn lemma_boundary_in_prefix(bytes: Seq<u8>, i: int, end: int)
    requires
        valid_utf8(bytes),
        is_char_boundary(bytes, i),
        is_char_boundary(bytes, end),
        0 <= i <= end <= bytes.len(),
    ensures
        valid_utf8(bytes.subrange(0, end)),
        is_char_boundary(bytes.subrange(0, end), i),
{
    valid_utf8_split(bytes, end);
    let prefix = bytes.subrange(0, end);
    if i == end {
        is_char_boundary_start_end_of_seq(prefix);
    } else {
        is_char_boundary_iff_not_is_continuation_byte(bytes, i);
        is_char_boundary_iff_not_is_continuation_byte(prefix, i);
    }
}

/// The bytes `from..to` of a text, which start and end between characters.
pub fn slice(text: &str, from: usize, to: usize) -> (part: &str)
    requires
        from <= to <= encode_utf8(text@).len(),
        is_char_boundary(encode_utf8(text@), from as int),
        is_char_boundary(encode_utf8(text@), to as int),
    ensures
        encode_utf8(part@) == encode_utf8(text@).subrange(from as int, to as int),
{
    let ghost bytes = encode_utf8(text@);
    proof {
        encode_utf8_valid_utf8(text@);
        lemma_boundary_in_prefix(bytes, from as int, to as int);
    }
    let (head, tail) = text.split_at(to);
    let (before, part) = head.split_at(from);
    assert(bytes.subrange(0, to as int).subrange(from as int, to as int) =~= bytes.subrange(
        from as int,
        to as int,
    ));
    part
}

/// The number of characters of a text. An ASCII text has as many as it has bytes.
pub fn char_len(s: &str) -> (n: usize)
    ensures
        n == s@.len(),
{
    if s.is_ascii() {
        proof {
            is_ascii_spec_bytes(s);
        }
        let total: usize = s.as_bytes().len();
        total
    } else {
        s.unicode_len()
    }
}

} // verus!
