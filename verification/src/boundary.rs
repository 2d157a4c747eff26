//! Facts about character boundaries in UTF-8 byte sequences that the scanner
//! relies on to keep its cursor on a position that can be sliced at.

use vstd::prelude::*;
use vstd::utf8::*;

verus! {

/// In valid UTF-8, an index is a character boundary exactly when it is the
/// end of the sequence or holds a byte that is not a continuation byte.
pub proof fn lemma_boundary_by_byte(bytes: Seq<u8>, index: int)
    requires
        valid_utf8(bytes),
        0 <= index <= bytes.len(),
    ensures
        is_char_boundary(bytes, index) <==> (index == bytes.len() || !is_continuation_byte(
            bytes[index],
        )),
{
    if index == bytes.len() {
        is_char_boundary_start_end_of_seq(bytes);
    } else {
        is_char_boundary_iff_not_is_continuation_byte(bytes, index);
    }
}

/// A boundary of the part that follows a boundary is a boundary of the whole.
pub proof fn lemma_boundary_in_suffix(bytes: Seq<u8>, start: int, offset: int)
    requires
        valid_utf8(bytes),
        is_char_boundary(bytes, start),
        is_char_boundary(bytes.subrange(start, bytes.len() as int), offset),
    ensures
        is_char_boundary(bytes, start + offset),
        0 <= offset <= bytes.len() - start,
{
    lemma_boundary_bounds(bytes, start);
    let tail = bytes.subrange(start, bytes.len() as int);
    valid_utf8_split(bytes, start);
    lemma_boundary_bounds(tail, offset);
    lemma_boundary_by_byte(tail, offset);
    lemma_boundary_by_byte(bytes, start + offset);
}

/// A character boundary lies within the sequence.
pub proof fn lemma_boundary_bounds(bytes: Seq<u8>, index: int)
    requires
        valid_utf8(bytes),
        is_char_boundary(bytes, index),
    ensures
        0 <= index <= bytes.len(),
{
}

/// The position after a one-byte character is a boundary.
pub proof fn lemma_boundary_after_ascii(bytes: Seq<u8>, index: int)
    requires
        valid_utf8(bytes),
        0 <= index < bytes.len(),
        bytes[index] < 0x80,
    ensures
        is_char_boundary(bytes, index),
        is_char_boundary(bytes, index + 1),
{
    lemma_boundary_by_byte(bytes, index);
    valid_utf8_split(bytes, index);
    // What begins at `index` begins with a character of one byte, so its
    // second byte begins a character or is its end.
    let tail = bytes.subrange(index, bytes.len() as int);
    assert(tail[0] == bytes[index]);
    assert(length_of_first_scalar(tail) == 1);
    assert(is_char_boundary(pop_first_scalar(tail), 0));
    assert(is_char_boundary(tail, 1));
    lemma_boundary_in_suffix(bytes, index, 1);
}

/// Where one valid sequence begins with another, the end of the shorter one is
/// a boundary of the longer one.
pub proof fn lemma_boundary_after_prefix(bytes: Seq<u8>, prefix: Seq<u8>)
    requires
        valid_utf8(bytes),
        valid_utf8(prefix),
        prefix.is_prefix_of(bytes),
    ensures
        is_char_boundary(bytes, prefix.len() as int),
    decreases prefix.len(),
{
    if prefix.len() > 0 {
        // Both begin with the same character, and what follows it in the
        // one is a prefix of what follows it in the other.
        let k = length_of_first_scalar(prefix);
        assert(valid_first_scalar(prefix));
        assert(valid_first_scalar(bytes));
        assert(bytes[0] == prefix[0]);
        assert(length_of_first_scalar(bytes) == k);
        let rest = pop_first_scalar(bytes);
        let short = pop_first_scalar(prefix);
        assert(short.is_prefix_of(rest)) by {
            assert forall|i: int| 0 <= i < short.len() implies short[i] == rest[i] by {
                assert(prefix[i + k] == bytes[i + k]);
            }
            assert(short =~= rest.subrange(0, short.len() as int));
        }
        lemma_boundary_after_prefix(rest, short);
    }
}

} // verus!
