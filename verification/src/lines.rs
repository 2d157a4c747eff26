//! Splitting a buffer into lines.
//!
//! A line ends at a line feed, or at the end of the buffer. A carriage return
//! directly before the line feed belongs to the terminator, not to the line.
//! A buffer that ends with a terminator has no empty last line.

use crate::boundary::{lemma_boundary_after_ascii, lemma_boundary_by_byte};
use vstd::prelude::*;
use vstd::string::*;
use vstd::utf8::*;

verus! {

/// The byte that ends a line.
pub const LINE_FEED: u8 = 0x0a;

/// The byte that, directly before a line feed, belongs to the terminator.
pub const CARRIAGE_RETURN: u8 = 0x0d;

/// Number of bytes before the first line feed of `bytes`; its length where it
/// holds none.
pub open spec fn line_break(bytes: Seq<u8>) -> nat
    decreases bytes.len(),
{
    if bytes.len() == 0 || bytes[0] == LINE_FEED {
        0
    } else {
        1 + line_break(bytes.drop_first())
    }
}

/// Length of the first line of `bytes`, its terminator not counted.
pub open spec fn first_line_len(bytes: Seq<u8>) -> nat {
    let n = line_break(bytes);
    if 0 < n < bytes.len() && bytes[n - 1] == CARRIAGE_RETURN {
        (n - 1) as nat
    } else {
        n
    }
}

/// The first line of `bytes`, without its terminator.
pub open spec fn first_line(bytes: Seq<u8>) -> Seq<u8> {
    bytes.subrange(0, first_line_len(bytes) as int)
}

/// What follows the first line of `bytes` and its terminator.
pub open spec fn after_first_line(bytes: Seq<u8>) -> Seq<u8> {
    let n = line_break(bytes);
    if n < bytes.len() {
        bytes.subrange(n as int + 1, bytes.len() as int)
    } else {
        Seq::empty()
    }
}

/// The lines of `bytes`, in order.
pub open spec fn lines_of(bytes: Seq<u8>) -> Seq<Seq<u8>>
    decreases bytes.len(),
{
    if bytes.len() == 0 {
        Seq::empty()
    } else {
        seq![first_line(bytes)] + lines_of(after_first_line(bytes))
    }
}

/// `line_break` is the one index that has no line feed before it and is
/// either a line feed or the end.
pub proof fn lemma_line_break(bytes: Seq<u8>, n: int)
    requires
        0 <= n <= bytes.len(),
        forall|k: int| 0 <= k < n ==> bytes[k] != LINE_FEED,
        n == bytes.len() || bytes[n] == LINE_FEED,
    ensures
        line_break(bytes) == n,
    decreases n,
{
    if n > 0 {
        let tail = bytes.drop_first();
        assert forall|k: int| 0 <= k < n - 1 implies tail[k] != LINE_FEED by {
            assert(tail[k] == bytes[k + 1]);
        }
        lemma_line_break(tail, n - 1);
    }
}

/// `line_break` stays within the buffer and stops at a line feed.
pub proof fn lemma_line_break_bounds(bytes: Seq<u8>)
    ensures
        line_break(bytes) <= bytes.len(),
        line_break(bytes) < bytes.len() ==> bytes[line_break(bytes) as int] == LINE_FEED,
        forall|k: int| 0 <= k < line_break(bytes) ==> bytes[k] != LINE_FEED,
    decreases bytes.len(),
{
    if bytes.len() == 0 || bytes[0] == LINE_FEED {
    } else {
        let tail = bytes.drop_first();
        lemma_line_break_bounds(tail);
        assert forall|k: int| 0 <= k < line_break(bytes) implies bytes[k] != LINE_FEED by {
            if k > 0 {
                assert(tail[k - 1] == bytes[k]);
            }
        }
    }
}

/// A buffer has at most as many lines as bytes.
pub proof fn lemma_line_count(bytes: Seq<u8>)
    ensures
        lines_of(bytes).len() <= bytes.len(),
    decreases bytes.len(),
{
    if bytes.len() > 0 {
        lemma_line_break_bounds(bytes);
        lemma_line_count(after_first_line(bytes));
    }
}

/// The first line of valid UTF-8 and what follows it are valid UTF-8.
pub proof fn lemma_first_line_valid(bytes: Seq<u8>)
    requires
        valid_utf8(bytes),
    ensures
        valid_utf8(first_line(bytes)),
        valid_utf8(after_first_line(bytes)),
        is_char_boundary(bytes, first_line_len(bytes) as int),
{
    lemma_line_break_bounds(bytes);
    let n = line_break(bytes) as int;
    let m = first_line_len(bytes) as int;
    lemma_boundary_by_byte(bytes, m);
    valid_utf8_split(bytes, m);
    if n < bytes.len() {
        lemma_boundary_after_ascii(bytes, n);
        valid_utf8_split(bytes, n + 1);
    }
}

/// The lines of valid UTF-8 are valid UTF-8.
pub proof fn lemma_lines_valid(bytes: Seq<u8>)
    requires
        valid_utf8(bytes),
    ensures
        forall|i: int| 0 <= i < lines_of(bytes).len() ==> valid_utf8(#[trigger] lines_of(bytes)[i]),
    decreases bytes.len(),
{
    if bytes.len() > 0 {
        lemma_line_break_bounds(bytes);
        lemma_first_line_valid(bytes);
        lemma_lines_valid(after_first_line(bytes));
        let rest = lines_of(after_first_line(bytes));
        assert forall|i: int| 0 <= i < lines_of(bytes).len() implies valid_utf8(
            #[trigger] lines_of(bytes)[i],
        ) by {
            if i > 0 {
                assert(lines_of(bytes)[i] == rest[i - 1]);
            }
        }
    }
}

/// Splits `text` into its first line and what follows that line's terminator.
pub fn split_first_line(text: &str) -> (parts: (&str, &str))
    ensures
        parts.0.spec_bytes() == first_line(text.spec_bytes()),
        parts.1.spec_bytes() == after_first_line(text.spec_bytes()),
{
    let bytes = text.as_bytes();
    let len: usize = bytes.len();
    let mut end: usize = 0;
    while end < len && bytes[end] != LINE_FEED
        invariant
            end <= len,
            len == bytes@.len(),
            forall|k: int| 0 <= k < end ==> bytes@[k] != LINE_FEED,
        decreases len - end,
    {
        end += 1;
    }
    proof {
        encode_utf8_valid_utf8(text@);
        lemma_line_break(bytes@, end as int);
        lemma_boundary_by_byte(bytes@, end as int);
    }
    let (head, tail) = text.split_at(end);
    proof {
        encode_utf8_valid_utf8(head@);
        encode_utf8_valid_utf8(tail@);
    }
    if end < len {
        proof {
            lemma_boundary_after_ascii(tail.spec_bytes(), 0);
        }
        let (_, rest) = tail.split_at(1);
        assert(rest.spec_bytes() =~= after_first_line(bytes@));
        if end > 0 && bytes[end - 1] == CARRIAGE_RETURN {
            proof {
                lemma_boundary_by_byte(head.spec_bytes(), end - 1);
            }
            let (line, _) = head.split_at(end - 1);
            assert(line.spec_bytes() =~= first_line(bytes@));
            (line, rest)
        } else {
            assert(head.spec_bytes() =~= first_line(bytes@));
            (head, rest)
        }
    } else {
        assert(head.spec_bytes() =~= first_line(bytes@));
        assert(tail.spec_bytes() =~= after_first_line(bytes@));
        (head, tail)
    }
}

} // verus!
