//! Resolving a byte offset to a line, a column and an excerpt of that line.
//!
//! The lines are walked in order. An offset below a line's length lies in that
//! line; one equal to it lies at the line's end; a greater one is reduced by
//! the length and one more, whatever the terminator's width, and carried to
//! the next line. An offset that no line takes lies past the end.
//!
//! Columns count bytes. The excerpt works on characters: its token is the
//! whole character that holds the byte at the offset, so the three parts are
//! text whatever the offset.

use crate::boundary::lemma_boundary_by_byte;
use vstd::prelude::*;
use vstd::string::*;
use vstd::utf8::*;

verus! {

/// A line cut in three: what precedes the token, the token, and what follows
/// it.
pub struct Excerpt {
    pub prefix: Seq<char>,
    pub token: Seq<char>,
    pub suffix: Seq<char>,
}

/// Where an offset lies: the number of its line, its column counted from
/// one, and the excerpt of that line.
pub struct Located {
    pub line: nat,
    pub column: nat,
    pub excerpt: Excerpt,
}

/// The token shown for an offset at the end of a line.
pub open spec fn line_end_token() -> Seq<char> {
    "\\n"@
}

/// The token shown for an offset that no line takes.
pub open spec fn eof_token() -> Seq<char> {
    "<eof>"@
}

/// First byte of the character that holds the byte at `p`.
pub open spec fn char_start(bytes: Seq<u8>, p: int) -> int
    decreases p,
{
    if 0 < p < bytes.len() && is_continuation_byte(bytes[p]) {
        char_start(bytes, p - 1)
    } else {
        p
    }
}

/// End of the character that holds the byte at `p`: the first index after `p`
/// that is not a continuation byte.
pub open spec fn char_end(bytes: Seq<u8>, p: int) -> int
    decreases bytes.len() - p,
{
    if 0 <= p && p + 1 < bytes.len() && is_continuation_byte(bytes[p + 1]) {
        char_end(bytes, p + 1)
    } else {
        p + 1
    }
}

/// `line` cut around the character that holds the byte at `p`.
pub open spec fn cut(line: Seq<u8>, p: nat) -> Excerpt
    recommends
        p < line.len(),
{
    let from = char_start(line, p as int);
    let to = char_end(line, p as int);
    Excerpt {
        prefix: decode_utf8(line.subrange(0, from)),
        token: decode_utf8(line.subrange(from, to)),
        suffix: decode_utf8(line.subrange(to, line.len() as int)),
    }
}

/// An offset inside `line`, which has the number `number`.
pub open spec fn within_line(line: Seq<u8>, p: nat, number: nat) -> Located
    recommends
        p < line.len(),
{
    Located { line: number, column: p + 1, excerpt: cut(line, p) }
}

/// The offset at the end of `line`, which has the number `number`.
pub open spec fn at_line_end(line: Seq<u8>, number: nat) -> Located {
    Located {
        line: number,
        column: line.len() + 1,
        excerpt: Excerpt {
            prefix: decode_utf8(line),
            token: line_end_token(),
            suffix: Seq::empty(),
        },
    }
}

/// An offset that no line has taken; `p` is what is left of it, and `number`
/// the number of the last line.
pub open spec fn past_end(p: nat, number: nat) -> Located {
    Located {
        line: number,
        column: p + 1,
        excerpt: Excerpt { prefix: Seq::empty(), token: eof_token(), suffix: Seq::empty() },
    }
}

/// Where the offset `p` lies in `lines`, the first of which has the number
/// `base + 1`.
pub open spec fn resolve(lines: Seq<Seq<u8>>, p: nat, base: nat) -> Located
    decreases lines.len(),
{
    if lines.len() == 0 {
        past_end(p, base)
    } else if p < lines[0].len() {
        within_line(lines[0], p, base + 1)
    } else if p == lines[0].len() {
        at_line_end(lines[0], base + 1)
    } else {
        resolve(lines.drop_first(), (p - lines[0].len() - 1) as nat, base + 1)
    }
}

/// The offset at which the walk reaches line `i`: the lengths of the lines
/// before it, and one more for each.
pub open spec fn line_start(lines: Seq<Seq<u8>>, i: nat) -> nat
    decreases i,
{
    if i == 0 || lines.len() == 0 {
        0
    } else {
        lines[0].len() + 1 + line_start(lines.drop_first(), (i - 1) as nat)
    }
}

/// The line number is between `base` and `base` plus the number of lines, and
/// above `base` where there is a line; the column is at most `p + 1`.
pub proof fn lemma_resolve_bounds(lines: Seq<Seq<u8>>, p: nat, base: nat)
    ensures
        base <= resolve(lines, p, base).line <= base + lines.len(),
        lines.len() > 0 ==> base < resolve(lines, p, base).line,
        1 <= resolve(lines, p, base).column <= p + 1,
    decreases lines.len(),
{
    if lines.len() > 0 && p > lines[0].len() {
        lemma_resolve_bounds(lines.drop_first(), (p - lines[0].len() - 1) as nat, base + 1);
    }
}

/// The character that holds the byte at `p` starts and ends on boundaries
/// that enclose `p`, and between the two, the first left out, every byte
/// continues a character.
pub proof fn lemma_char_span(bytes: Seq<u8>, p: int)
    requires
        valid_utf8(bytes),
        0 <= p < bytes.len(),
    ensures
        0 <= char_start(bytes, p) <= p < char_end(bytes, p) <= bytes.len(),
        is_char_boundary(bytes, char_start(bytes, p)),
        is_char_boundary(bytes, char_end(bytes, p)),
        forall|j: int|
            char_start(bytes, p) < j < char_end(bytes, p) ==> is_continuation_byte(bytes[j]),
{
    lemma_char_start(bytes, p);
    lemma_char_end(bytes, p);
}

proof fn lemma_char_start(bytes: Seq<u8>, p: int)
    requires
        valid_utf8(bytes),
        0 <= p < bytes.len(),
    ensures
        0 <= char_start(bytes, p) <= p,
        is_char_boundary(bytes, char_start(bytes, p)),
        forall|j: int| char_start(bytes, p) < j <= p ==> is_continuation_byte(bytes[j]),
    decreases p,
{
    if 0 < p && is_continuation_byte(bytes[p]) {
        lemma_char_start(bytes, p - 1);
    } else {
        lemma_boundary_by_byte(bytes, p);
    }
}

proof fn lemma_char_end(bytes: Seq<u8>, p: int)
    requires
        valid_utf8(bytes),
        0 <= p < bytes.len(),
    ensures
        p < char_end(bytes, p) <= bytes.len(),
        is_char_boundary(bytes, char_end(bytes, p)),
        forall|j: int| p < j < char_end(bytes, p) ==> is_continuation_byte(bytes[j]),
    decreases bytes.len() - p,
{
    if p + 1 < bytes.len() && is_continuation_byte(bytes[p + 1]) {
        lemma_char_end(bytes, p + 1);
    } else {
        lemma_boundary_by_byte(bytes, p + 1);
    }
}

/// Whether `byte` continues a character begun before it.
pub fn is_continuation(byte: u8) -> (yes: bool)
    ensures
        yes == is_continuation_byte(byte),
{
    0x80 <= byte && byte <= 0xbf
}

/// Cuts `line` at the character that holds the byte at `p`, into what
/// precedes it, the character, and what follows it.
pub fn cut_at(line: &str, p: usize) -> (parts: (&str, &str, &str))
    requires
        p < line.spec_bytes().len(),
    ensures
        (Excerpt { prefix: parts.0@, token: parts.1@, suffix: parts.2@ }) == cut(
            line.spec_bytes(),
            p as nat,
        ),
{
    let bytes = line.as_bytes();
    let len: usize = bytes.len();
    let mut from: usize = p;
    while from > 0 && is_continuation(bytes[from])
        invariant
            from <= p < len,
            len == bytes@.len(),
            char_start(bytes@, from as int) == char_start(bytes@, p as int),
        decreases from,
    {
        from -= 1;
    }
    let mut to: usize = p + 1;
    while to < len && is_continuation(bytes[to])
        invariant
            p < to <= len,
            len == bytes@.len(),
            char_end(bytes@, to - 1) == char_end(bytes@, p as int),
        decreases len - to,
    {
        to += 1;
    }
    proof {
        encode_utf8_valid_utf8(line@);
        lemma_char_span(bytes@, p as int);
    }
    let (prefix, tail) = line.split_at(from);
    proof {
        encode_utf8_valid_utf8(tail@);
        lemma_boundary_by_byte(tail.spec_bytes(), to - from);
        lemma_boundary_by_byte(bytes@, to as int);
    }
    let (token, suffix) = tail.split_at(to - from);
    proof {
        encode_utf8_decode_utf8(prefix@);
        encode_utf8_decode_utf8(token@);
        encode_utf8_decode_utf8(suffix@);
        assert(token.spec_bytes() =~= bytes@.subrange(from as int, to as int));
        assert(suffix.spec_bytes() =~= bytes@.subrange(to as int, len as int));
    }
    (prefix, token, suffix)
}

} // verus!
