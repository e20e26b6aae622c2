//! Character offsets and byte offsets in a text.
//!
//! Selections count characters, parse trees count bytes of the text's UTF-8
//! form. The text itself is a rope slice; this module states what the rope's
//! two conversions compute and proves the few facts about them that the
//! selection operations rest on.

use ropey::RopeSlice;
use vstd::prelude::*;

verus! {

/// `ropey::RopeSlice`, a text or a part of one.
#[verifier::external_type_specification]
#[verifier::external_body]
pub struct ExRopeSlice<'a>(RopeSlice<'a>);

/// The characters of a text, in order.
pub uninterp spec fn text_chars(text: RopeSlice) -> Seq<char>;

/// Number of bytes that a character takes in UTF-8.
pub open spec fn utf8_width(c: char) -> int {
    let v = c as u32;
    if v < 0x80 {
        1
    } else if v < 0x800 {
        2
    } else if v < 0x1_0000 {
        3
    } else {
        4
    }
}

/// Number of bytes that the first `n` characters take.
pub open spec fn byte_offset(chars: Seq<char>, n: int) -> int
    decreases n,
{
    if n <= 0 || n > chars.len() {
        0
    } else {
        byte_offset(chars, n - 1) + utf8_width(chars[n - 1])
    }
}

/// Number of bytes of the whole text.
pub open spec fn byte_len(chars: Seq<char>) -> int {
    byte_offset(chars, chars.len() as int)
}

/// The greatest `i` up to `n` such that the first `i` characters take no
/// more than `byte` bytes.
pub open spec fn last_char_upto(chars: Seq<char>, byte: int, n: int) -> int
    decreases n,
{
    if n <= 0 {
        0
    } else if byte_offset(chars, n) <= byte {
        n
    } else {
        last_char_upto(chars, byte, n - 1)
    }
}

/// Index of the character that the byte at offset `byte` belongs to; the
/// number of characters when `byte` is the length of the text.
pub open spec fn char_offset(chars: Seq<char>, byte: int) -> int {
    last_char_upto(chars, byte, chars.len() as int)
}

/// Number of characters of the text: `RopeSlice::len_chars`.
#[verifier::external_body]
pub(crate) fn text_len_chars(text: &RopeSlice) -> (n: usize)
    ensures
        n == text_chars(*text).len(),
{
    text.len_chars()
}

/// Number of bytes of the text: `RopeSlice::len_bytes`.
#[verifier::external_body]
pub(crate) fn text_len_bytes(text: &RopeSlice) -> (n: usize)
    ensures
        n == byte_len(text_chars(*text)),
{
    text.len_bytes()
}

/// Byte offset of a character: `RopeSlice::char_to_byte`, which takes any
/// index up to and including the number of characters and fails beyond it.
#[verifier::external_body]
pub(crate) fn text_char_to_byte(text: &RopeSlice, char_idx: usize) -> (b: usize)
    requires
        char_idx <= text_chars(*text).len(),
    ensures
        b == byte_offset(text_chars(*text), char_idx as int),
{
    text.char_to_byte(char_idx)
}

/// Character offset of a byte: `RopeSlice::byte_to_char`, which takes any
/// offset up to and including the number of bytes and fails beyond it. A
/// byte inside a character counts for that character.
#[verifier::external_body]
pub(crate) fn text_byte_to_char(text: &RopeSlice, byte_idx: usize) -> (c: usize)
    requires
        byte_idx <= byte_len(text_chars(*text)),
    ensures
        c == char_offset(text_chars(*text), byte_idx as int),
{
    text.byte_to_char(byte_idx)
}

/// No prefix of a text takes a negative number of bytes.
pub proof fn lemma_byte_offset_nonnegative(chars: Seq<char>, n: int)
    ensures
        0 <= byte_offset(chars, n),
    decreases n,
{
    if 0 < n <= chars.len() {
        lemma_byte_offset_nonnegative(chars, n - 1);
    }
}

/// Byte offsets grow with character offsets, at least as fast.
pub proof fn lemma_byte_offset_monotonic(chars: Seq<char>, i: int, j: int)
    requires
        0 <= i <= j <= chars.len(),
    ensures
        0 <= byte_offset(chars, i) <= byte_offset(chars, j),
        i < j ==> byte_offset(chars, i) < byte_offset(chars, j),
        j - i <= byte_offset(chars, j) - byte_offset(chars, i),
    decreases j - i,
{
    lemma_byte_offset_nonnegative(chars, i);
    if i < j {
        lemma_byte_offset_monotonic(chars, i, j - 1);
    }
}

/// What the search for a byte's character yields: an index within the first
/// `n` characters whose offset is at or before the byte, and the last such
/// index.
pub proof fn lemma_last_char_upto(chars: Seq<char>, byte: int, n: int)
    requires
        0 <= n <= chars.len(),
        0 <= byte,
    ensures
        0 <= last_char_upto(chars, byte, n) <= n,
        byte_offset(chars, last_char_upto(chars, byte, n)) <= byte,
        forall|k: int|
            last_char_upto(chars, byte, n) < k <= n ==> byte < #[trigger] byte_offset(chars, k),
    decreases n,
{
    if n > 0 && byte_offset(chars, n) > byte {
        lemma_last_char_upto(chars, byte, n - 1);
    }
}

/// A byte offset converted to a character offset and back does not move
/// forward, and every character boundary at or before the byte stays at or
/// before the result.
pub proof fn lemma_char_offset_floor(chars: Seq<char>, byte: int)
    requires
        0 <= byte,
    ensures
        0 <= char_offset(chars, byte) <= chars.len(),
        byte_offset(chars, char_offset(chars, byte)) <= byte,
        forall|k: int|
            0 <= k <= chars.len() && #[trigger] byte_offset(chars, k) <= byte ==> k <= char_offset(
                chars,
                byte,
            ),
{
    lemma_last_char_upto(chars, byte, chars.len() as int);
}

/// A character offset converted to a byte offset and back is itself.
pub proof fn lemma_char_byte_round_trip(chars: Seq<char>, i: int)
    requires
        0 <= i <= chars.len(),
    ensures
        char_offset(chars, byte_offset(chars, i)) == i,
{
    let b = byte_offset(chars, i);
    lemma_byte_offset_monotonic(chars, 0, i);
    lemma_char_offset_floor(chars, b);
    let r = char_offset(chars, b);
    assert(i <= r);
    if i < r {
        lemma_byte_offset_monotonic(chars, i, r);
    }
}

/// Character offsets grow with byte offsets.
pub proof fn lemma_char_offset_monotonic(chars: Seq<char>, a: int, b: int)
    requires
        0 <= a <= b,
    ensures
        char_offset(chars, a) <= char_offset(chars, b),
{
    lemma_char_offset_floor(chars, a);
    lemma_char_offset_floor(chars, b);
    let k = char_offset(chars, a);
    assert(byte_offset(chars, k) <= b);
}

} // verus!
