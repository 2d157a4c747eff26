//! What holds of the scanner across calls, and of the walk over the lines.

use crate::boundary::{
    lemma_boundary_after_ascii, lemma_boundary_after_prefix, lemma_boundary_bounds,
    lemma_boundary_by_byte, lemma_boundary_in_suffix,
};
use crate::lines::{
    after_first_line, first_line, first_line_len, lemma_line_break_bounds, lemma_line_count,
    lemma_lines_valid, line_break, lines_of, CARRIAGE_RETURN, LINE_FEED,
};
use crate::locate::{
    at_line_end, char_end, char_start, cut, eof_token, lemma_char_span, lemma_resolve_bounds,
    line_end_token, line_start, past_end, resolve, within_line,
};
use crate::parser::{is_whitespace, leading_whitespace, ParserView};
use vstd::prelude::*;
use vstd::utf8::*;

verus! {

/// The leading whitespace is a run of whitespace that cannot be made longer:
/// every byte of it is whitespace, and it ends at the end of the bytes or at
/// a byte that is none.
pub proof fn lemma_leading_whitespace(bytes: Seq<u8>)
    ensures
        leading_whitespace(bytes) <= bytes.len(),
        forall|k: int| 0 <= k < leading_whitespace(bytes) ==> is_whitespace(bytes[k]),
        leading_whitespace(bytes) < bytes.len() ==> !is_whitespace(
            bytes[leading_whitespace(bytes) as int],
        ),
    decreases bytes.len(),
{
    if bytes.len() == 0 || !is_whitespace(bytes[0]) {
    } else {
        let tail = bytes.drop_first();
        lemma_leading_whitespace(tail);
        assert forall|k: int| 0 <= k < leading_whitespace(bytes) implies is_whitespace(
            bytes[k],
        ) by {
            if k > 0 {
                assert(tail[k - 1] == bytes[k]);
            }
        }
    }
}

/// Skipping whitespace a second time changes nothing.
pub proof fn lemma_ws_idempotent(parser: ParserView)
    requires
        parser.cursor <= parser.text.len(),
    ensures
        parser.after_ws().after_ws() == parser.after_ws(),
{
    lemma_leading_whitespace(parser.rest());
    let skipped = leading_whitespace(parser.rest());
    let then = parser.after_ws().rest();
    assert(then.len() > 0 ==> then[0] == parser.rest()[skipped as int]);
    assert(leading_whitespace(then) == 0);
}

/// Skipping whitespace leaves the cursor at the end of the text or on a byte
/// that is no whitespace, and passes over whitespace only.
pub proof fn lemma_ws_stops(parser: ParserView)
    requires
        parser.cursor <= parser.text.len(),
    ensures
        parser.cursor <= parser.after_ws().cursor <= parser.text.len(),
        forall|k: int| parser.cursor <= k < parser.after_ws().cursor ==> is_whitespace(
            parser.text[k],
        ),
        parser.after_ws().cursor < parser.text.len() ==> !is_whitespace(
            parser.text[parser.after_ws().cursor as int],
        ),
{
    lemma_leading_whitespace(parser.rest());
    let rest = parser.rest();
    assert forall|k: int| parser.cursor <= k < parser.after_ws().cursor implies is_whitespace(
        parser.text[k],
    ) by {
        assert(rest[k - parser.cursor] == parser.text[k]);
    }
    if parser.after_ws().cursor < parser.text.len() {
        assert(rest[leading_whitespace(rest) as int] == parser.text[parser.after_ws().cursor as int]);
    }
}

/// A literal that the text begins with at the cursor is read: the cursor
/// moves by its length, and stays on a character boundary. What was read is
/// no longer ahead: a second attempt is decided by the text behind it.
pub proof fn lemma_tag_read(parser: ParserView, lit: Seq<u8>)
    requires
        parser.wf(),
        valid_utf8(lit),
        parser.starts_with(lit),
    ensures
        parser.after_tag(lit).cursor == parser.cursor + lit.len(),
        parser.after_tag(lit).wf(),
        parser.after_tag(lit).rest() == parser.rest().subrange(
            lit.len() as int,
            parser.rest().len() as int,
        ),
        parser.after_tag(lit).starts_with(lit) <==> lit.is_prefix_of(
            parser.rest().subrange(lit.len() as int, parser.rest().len() as int),
        ),
{
    lemma_boundary_bounds(parser.text, parser.cursor as int);
    valid_utf8_split(parser.text, parser.cursor as int);
    lemma_boundary_after_prefix(parser.rest(), lit);
    lemma_boundary_in_suffix(parser.text, parser.cursor as int, lit.len() as int);
    assert(parser.after_tag(lit).rest() =~= parser.rest().subrange(
        lit.len() as int,
        parser.rest().len() as int,
    ));
}

/// The encoding of two texts put together is their encodings put together.
pub proof fn lemma_encode_concat(a: Seq<char>, b: Seq<char>)
    ensures
        encode_utf8(a + b) == encode_utf8(a) + encode_utf8(b),
{
    let left = encode_utf8(a);
    let right = encode_utf8(b);
    encode_utf8_valid_utf8(a);
    encode_utf8_valid_utf8(b);
    valid_utf8_concat(left, right);
    assert(left =~= (left + right).subrange(0, left.len() as int));
    assert(right =~= (left + right).subrange(left.len() as int, (left + right).len() as int));
    lemma_boundary_after_prefix(left + right, left);
    decode_utf8_split(left + right, left.len() as int);
    encode_utf8_decode_utf8(a);
    encode_utf8_decode_utf8(b);
    decode_utf8_encode_utf8(left + right);
}

/// Reading by bytes is reading by characters: the bytes from the cursor on
/// begin with the encoding of `lit` exactly when the text from the cursor on
/// begins with `lit`.
pub proof fn lemma_starts_with_text(parser: ParserView, lit: Seq<char>)
    requires
        parser.wf(),
    ensures
        parser.starts_with(encode_utf8(lit)) <==> lit.is_prefix_of(parser.rest_text()),
{
    let rest = parser.rest();
    let bytes = encode_utf8(lit);
    lemma_boundary_bounds(parser.text, parser.cursor as int);
    valid_utf8_split(parser.text, parser.cursor as int);
    encode_utf8_valid_utf8(lit);
    encode_utf8_decode_utf8(lit);
    if parser.starts_with(bytes) {
        lemma_boundary_after_prefix(rest, bytes);
        decode_utf8_split(rest, bytes.len() as int);
        let text = parser.rest_text();
        assert(rest.subrange(0, bytes.len() as int) =~= bytes);
        assert(lit =~= text.subrange(0, lit.len() as int));
    }
    if lit.is_prefix_of(parser.rest_text()) {
        let text = parser.rest_text();
        let tail = text.subrange(lit.len() as int, text.len() as int);
        assert(text =~= lit + tail);
        lemma_encode_concat(lit, tail);
        decode_utf8_encode_utf8(rest);
        assert(bytes =~= rest.subrange(0, bytes.len() as int));
    }
}

/// A literal that the text does not begin with at the cursor leaves the
/// parser as it was, however often it is tried.
pub proof fn lemma_tag_refused(parser: ParserView, lit: Seq<u8>)
    requires
        !parser.starts_with(lit),
    ensures
        parser.after_tag(lit) == parser,
        parser.after_tag(lit).after_tag(lit) == parser,
{
}

/// A match that is taken is read: the cursor moves to its end and stays on a
/// character boundary, and the text that was ahead is the text of the match
/// and then the text that is ahead now.
pub proof fn lemma_match_read(parser: ParserView, found: Option<(usize, usize)>)
    requires
        parser.wf(),
        parser.accepts(found),
        parser.can_take(found),
    ensures
        parser.after_match(found).cursor == parser.cursor + found.unwrap().1,
        parser.after_match(found).wf(),
        parser.rest_text() == parser.matched_text(found) + parser.after_match(found).rest_text(),
{
    let end = found.unwrap().1 as int;
    let rest = parser.rest();
    lemma_boundary_bounds(parser.text, parser.cursor as int);
    valid_utf8_split(parser.text, parser.cursor as int);
    lemma_boundary_in_suffix(parser.text, parser.cursor as int, end);
    decode_utf8_split(rest, end);
    assert(parser.after_match(found).rest() =~= rest.subrange(end, rest.len() as int));
}

/// A search that found nothing, or something that begins behind the cursor,
/// leaves the parser as it was.
pub proof fn lemma_match_refused(parser: ParserView, found: Option<(usize, usize)>)
    requires
        found matches Some(span) ==> span.0 != 0,
    ensures
        !parser.accepts(found),
        parser.after_match(found) == parser,
{
}

/// The three parts of an excerpt make up the line they were cut from.
pub proof fn lemma_excerpt_is_line(line: Seq<u8>, p: nat)
    requires
        valid_utf8(line),
        p < line.len(),
    ensures
        cut(line, p).prefix + cut(line, p).token + cut(line, p).suffix == decode_utf8(line),
{
    let from = char_start(line, p as int);
    let to = char_end(line, p as int);
    lemma_char_span(line, p as int);
    let tail = line.subrange(from, line.len() as int);
    valid_utf8_split(line, from);
    decode_utf8_split(line, from);
    lemma_boundary_by_byte(line, to);
    lemma_boundary_by_byte(tail, to - from);
    decode_utf8_split(tail, to - from);
    assert(tail.subrange(0, to - from) =~= line.subrange(from, to));
    assert(tail.subrange(to - from, tail.len() as int) =~= line.subrange(to, line.len() as int));
    let parts = cut(line, p);
    assert(parts.prefix + parts.token + parts.suffix =~= decode_utf8(line));
}

/// The token of an excerpt is one character.
pub proof fn lemma_token_is_character(line: Seq<u8>, p: nat)
    requires
        valid_utf8(line),
        p < line.len(),
    ensures
        cut(line, p).token.len() == 1,
{
    let from = char_start(line, p as int);
    let to = char_end(line, p as int);
    lemma_char_span(line, p as int);
    // The character that begins at `from` ends on the next boundary. Only
    // continuation bytes lie between `from` and `to`, and none at `to`, so
    // that boundary is `to`.
    let tail = line.subrange(from, line.len() as int);
    valid_utf8_split(line, from);
    let width = length_of_first_scalar(tail);
    assert(valid_first_scalar(tail));
    assert(is_char_boundary(pop_first_scalar(tail), 0));
    assert(is_char_boundary(tail, width));
    lemma_boundary_in_suffix(line, from, width);
    lemma_boundary_by_byte(line, from + width);
    lemma_boundary_by_byte(line, to);
    assert(forall|j: int| 0 < j < width ==> tail[j] == line[from + j]);
    assert(to == from + width);
    // So the token is that character and nothing more.
    let token = line.subrange(from, to);
    assert(token =~= tail.subrange(0, width));
    valid_utf8_split(tail, width);
    assert(token[0] == tail[0]);
    assert(pop_first_scalar(token) =~= Seq::<u8>::empty());
    assert(decode_utf8(pop_first_scalar(token)) =~= Seq::<char>::empty());
    assert(decode_utf8(token) =~= seq![decode_first_scalar(token) as char]);
}

/// Where the byte at `p` is a character of its own, the excerpt is cut
/// directly before and directly behind that byte.
pub proof fn lemma_cut_at_single_byte(line: Seq<u8>, p: nat)
    requires
        valid_utf8(line),
        p < line.len(),
        line[p as int] < 0x80,
    ensures
        cut(line, p).prefix == decode_utf8(line.subrange(0, p as int)),
        cut(line, p).token == decode_utf8(line.subrange(p as int, p as int + 1)),
        cut(line, p).suffix == decode_utf8(line.subrange(p as int + 1, line.len() as int)),
{
    lemma_boundary_after_ascii(line, p as int);
    lemma_boundary_by_byte(line, p as int + 1);
}

/// The walk reaches a line one behind the end of the line before it.
pub proof fn lemma_line_start_step(lines: Seq<Seq<u8>>, i: nat)
    requires
        i < lines.len(),
    ensures
        line_start(lines, i + 1) == line_start(lines, i) + lines[i as int].len() + 1,
    decreases i,
{
    if i > 0 {
        let tail = lines.drop_first();
        assert(tail[i - 1] == lines[i as int]);
        lemma_line_start_step(tail, (i - 1) as nat);
    } else {
        assert(line_start(lines.drop_first(), 0) == 0);
    }
}

/// An offset inside line `i` resolves to that line, and to the column one
/// above its distance from the line's start.
pub proof fn lemma_inside_line(lines: Seq<Seq<u8>>, i: nat, p: nat, base: nat)
    requires
        i < lines.len(),
        p < lines[i as int].len(),
    ensures
        resolve(lines, line_start(lines, i) + p, base) == within_line(
            lines[i as int],
            p,
            base + i + 1,
        ),
    decreases i,
{
    if i > 0 {
        let tail = lines.drop_first();
        assert(tail[i - 1] == lines[i as int]);
        lemma_inside_line(tail, (i - 1) as nat, p, base + 1);
    }
}

/// An offset inside a line of the text shows that line, cut around one
/// character: the three parts of the excerpt make up the line, and the token
/// is one character of it.
pub proof fn lemma_excerpt_of_text(parser: ParserView, i: nat, p: nat)
    requires
        valid_utf8(parser.text),
        i < lines_of(parser.text).len(),
        p < lines_of(parser.text)[i as int].len(),
    ensures
        ({
            let lines = lines_of(parser.text);
            let place = parser.locate(line_start(lines, i) + p);
            &&& place.line == parser.line_offset + i + 1
            &&& place.column == p + 1
            &&& place.excerpt.prefix + place.excerpt.token + place.excerpt.suffix == decode_utf8(
                lines[i as int],
            )
            &&& place.excerpt.token.len() == 1
        }),
{
    let lines = lines_of(parser.text);
    lemma_lines_valid(parser.text);
    lemma_inside_line(lines, i, p, parser.line_offset);
    lemma_excerpt_is_line(lines[i as int], p);
    lemma_token_is_character(lines[i as int], p);
}

/// An offset exactly at the length of line `i` resolves to the end of that
/// line: the token is the line-end token, and nothing of the next line.
pub proof fn lemma_line_end(lines: Seq<Seq<u8>>, i: nat, base: nat)
    requires
        i < lines.len(),
    ensures
        resolve(lines, line_start(lines, i) + lines[i as int].len(), base) == at_line_end(
            lines[i as int],
            base + i + 1,
        ),
        resolve(lines, line_start(lines, i) + lines[i as int].len(), base).excerpt.token
            == line_end_token(),
    decreases i,
{
    if i > 0 {
        let tail = lines.drop_first();
        assert(tail[i - 1] == lines[i as int]);
        lemma_line_end(tail, (i - 1) as nat, base + 1);
    }
}

/// An offset that the walk carries past every line resolves to the end of
/// file, with the number of the last line.
pub proof fn lemma_past_lines(lines: Seq<Seq<u8>>, p: nat, base: nat)
    requires
        p >= line_start(lines, lines.len()),
    ensures
        resolve(lines, p, base) == past_end(
            (p - line_start(lines, lines.len())) as nat,
            base + lines.len(),
        ),
    decreases lines.len(),
{
    if lines.len() > 0 {
        lemma_past_lines(lines.drop_first(), (p - lines[0].len() - 1) as nat, base + 1);
    }
}

/// Line and column of every offset below the largest `usize` fit in a
/// `usize` where the base line number and the length of the text together do.
pub proof fn lemma_fits(parser: ParserView, p: nat)
    requires
        parser.line_offset + parser.text.len() <= usize::MAX,
        p < usize::MAX,
    ensures
        parser.fits(p),
{
    lemma_resolve_bounds(lines_of(parser.text), p, parser.line_offset);
    lemma_line_count(parser.text);
}

/// Whether a carriage return stands directly before a line feed in `bytes`.
pub open spec fn has_crlf(bytes: Seq<u8>) -> bool {
    exists|i: int|
        0 < i < bytes.len() && bytes[i - 1] == CARRIAGE_RETURN && #[trigger] bytes[i] == LINE_FEED
}

/// A two-byte terminator behind the first line is one of the whole.
pub proof fn lemma_crlf_behind_first_line(bytes: Seq<u8>)
    requires
        has_crlf(after_first_line(bytes)),
    ensures
        has_crlf(bytes),
{
    let after = after_first_line(bytes);
    let n = line_break(bytes) as int;
    let i = choose|i: int|
        0 < i < after.len() && after[i - 1] == CARRIAGE_RETURN && #[trigger] after[i] == LINE_FEED;
    assert(bytes[i + n] == CARRIAGE_RETURN);
    assert(bytes[i + n + 1] == LINE_FEED);
}

/// In a text without two-byte terminators the walk is true to the text: it
/// reaches each line at the offset where that line begins, so a column is the
/// distance from the line's first byte, and one more.
pub proof fn lemma_line_is_slice(bytes: Seq<u8>, i: nat)
    requires
        !has_crlf(bytes),
        i < lines_of(bytes).len(),
    ensures
        line_start(lines_of(bytes), i) + lines_of(bytes)[i as int].len() <= bytes.len(),
        lines_of(bytes)[i as int] == bytes.subrange(
            line_start(lines_of(bytes), i) as int,
            (line_start(lines_of(bytes), i) + lines_of(bytes)[i as int].len()) as int,
        ),
        i > 0 ==> bytes[line_start(lines_of(bytes), i) - 1] == LINE_FEED,
    decreases i,
{
    let lines = lines_of(bytes);
    let after = after_first_line(bytes);
    let n = line_break(bytes) as int;
    lemma_line_break_bounds(bytes);
    assert(lines.drop_first() =~= lines_of(after));
    if n > 0 && n < bytes.len() && bytes[n - 1] == CARRIAGE_RETURN {
        assert(bytes[n] == LINE_FEED);
    }
    if i > 0 {
        if has_crlf(after) {
            lemma_crlf_behind_first_line(bytes);
        }
        lemma_line_is_slice(after, (i - 1) as nat);
        let start = line_start(lines_of(after), (i - 1) as nat) as int;
        let len = lines[i as int].len() as int;
        assert(lines[i as int] == lines_of(after)[i - 1]);
        assert(after.subrange(start, start + len) =~= bytes.subrange(
            n + 1 + start,
            n + 1 + start + len,
        ));
        if i > 1 {
            assert(after[start - 1] == bytes[n + start]);
        }
    }
}

/// Whether the walk over the lines of `bytes` ends no later than `bytes`: the
/// text is empty, or its last line has a terminator, or some terminator is
/// two bytes wide.
pub open spec fn walk_ends_within(bytes: Seq<u8>) -> bool {
    bytes.len() == 0 || bytes.last() == LINE_FEED || has_crlf(bytes)
}

/// The walk over the lines of `bytes` ends at most one past `bytes`, and
/// within it where `walk_ends_within` holds.
pub proof fn lemma_walk_length(bytes: Seq<u8>)
    ensures
        line_start(lines_of(bytes), lines_of(bytes).len()) <= bytes.len() + 1,
        walk_ends_within(bytes) ==> line_start(lines_of(bytes), lines_of(bytes).len())
            <= bytes.len(),
    decreases bytes.len(),
{
    if bytes.len() > 0 {
        let lines = lines_of(bytes);
        let after = after_first_line(bytes);
        let n = line_break(bytes) as int;
        lemma_line_break_bounds(bytes);
        lemma_walk_length(after);
        assert(lines.drop_first() =~= lines_of(after));
        assert(lines[0] == first_line(bytes));
        if walk_ends_within(bytes) && first_line_len(bytes) == n && after.len() > 0 {
            if has_crlf(bytes) {
                let i = choose|i: int|
                    0 < i < bytes.len() && bytes[i - 1] == CARRIAGE_RETURN && #[trigger] bytes[i]
                        == LINE_FEED;
                assert(i > n + 1);
                assert(after[i - n - 2] == bytes[i - 1]);
                assert(after[i - n - 1] == LINE_FEED);
                assert(has_crlf(after));
            } else {
                assert(after.last() == bytes.last());
            }
        }
    }
}

/// An offset at or behind the end of the text resolves to the end of file.
///
/// The one offset left out is the end of a text whose last line has no
/// terminator and in which no terminator is two bytes wide: that offset is
/// the end of the last line.
pub proof fn lemma_past_end(parser: ParserView, p: nat)
    requires
        p >= parser.text.len(),
        p > parser.text.len() || walk_ends_within(parser.text),
    ensures
        parser.locate(p).excerpt.token == eof_token(),
        parser.locate(p).excerpt.prefix == Seq::<char>::empty(),
        parser.locate(p).excerpt.suffix == Seq::<char>::empty(),
        parser.locate(p).line == parser.line_offset + lines_of(parser.text).len(),
{
    lemma_walk_length(parser.text);
    lemma_past_lines(lines_of(parser.text), p, parser.line_offset);
}

/// The end of a text whose last line has no terminator, and in which no
/// terminator is two bytes wide, resolves to the end of the last line.
pub proof fn lemma_end_of_open_line(bytes: Seq<u8>, base: nat)
    requires
        !walk_ends_within(bytes),
    ensures
        resolve(lines_of(bytes), bytes.len(), base).excerpt.token == line_end_token(),
        resolve(lines_of(bytes), bytes.len(), base).line == base + lines_of(bytes).len(),
    decreases bytes.len(),
{
    let lines = lines_of(bytes);
    let after = after_first_line(bytes);
    let n = line_break(bytes) as int;
    lemma_line_break_bounds(bytes);
    assert(lines.drop_first() =~= lines_of(after));
    assert(lines[0] == first_line(bytes));
    if n < bytes.len() {
        if n > 0 && bytes[n - 1] == CARRIAGE_RETURN {
            assert(bytes[n] == LINE_FEED);
            assert(has_crlf(bytes));
        }
        assert(after.len() > 0);
        assert(after.last() == bytes.last());
        if has_crlf(after) {
            lemma_crlf_behind_first_line(bytes);
        }
        lemma_end_of_open_line(after, base + 1);
    }
}

} // verus!
