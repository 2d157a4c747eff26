//! The scanner: a cursor over a text, moved by whitespace skipping and by
//! literal matches, and the errors it reports.

use crate::boundary::{
    lemma_boundary_after_ascii, lemma_boundary_after_prefix, lemma_boundary_bounds,
    lemma_boundary_in_suffix,
};
use crate::error::{PRes, ParsErr, ParsErrView};
use crate::lines::{
    after_first_line, first_line, lemma_line_break_bounds, lines_of, split_first_line,
};
use crate::locate::{cut_at, lemma_resolve_bounds, resolve, Located};
use crate::pattern::{find_first, first_match, pattern_source, pattern_text};
use crate::render::byte_len;
use regex::Regex;
use vstd::prelude::*;
use vstd::string::*;
use vstd::utf8::*;

verus! {

/// Whether `byte` is a space, a tab, a line feed or a carriage return.
pub open spec fn is_whitespace(byte: u8) -> bool {
    byte == 0x20 || byte == 0x09 || byte == 0x0a || byte == 0x0d
}

/// Length of the longest run of whitespace that `bytes` begins with.
pub open spec fn leading_whitespace(bytes: Seq<u8>) -> nat
    decreases bytes.len(),
{
    if bytes.len() == 0 || !is_whitespace(bytes[0]) {
        0
    } else {
        1 + leading_whitespace(bytes.drop_first())
    }
}

/// The message of a literal that did not match.
pub open spec fn expected_tag(tag: Seq<char>) -> Seq<char> {
    "expected tag `"@ + tag + "`"@
}

/// The message of a pattern that did not match.
pub open spec fn no_match(source: Seq<char>) -> Seq<char> {
    "no match for regex `"@ + source + "`"@
}

/// What a parser holds: the bytes of its text, the offset of its cursor in
/// them, and the number that the line before the first has.
pub struct ParserView {
    pub text: Seq<u8>,
    pub cursor: nat,
    pub line_offset: nat,
}

impl ParserView {
    /// The text is UTF-8 and the cursor sits on a character boundary of it,
    /// its end included.
    pub open spec fn wf(self) -> bool {
        valid_utf8(self.text) && is_char_boundary(self.text, self.cursor as int)
    }

    /// Whether nothing is left to read.
    pub open spec fn is_eof(self) -> bool {
        self.cursor >= self.text.len()
    }

    /// Number of bytes after the one at the cursor; zero at the end.
    pub open spec fn chars_left(self) -> nat {
        if self.is_eof() {
            0
        } else {
            (self.text.len() - self.cursor - 1) as nat
        }
    }

    /// The bytes from the cursor on.
    pub open spec fn rest(self) -> Seq<u8>
        recommends
            self.cursor <= self.text.len(),
    {
        self.text.subrange(self.cursor as int, self.text.len() as int)
    }

    /// The text from the cursor on.
    pub open spec fn rest_text(self) -> Seq<char>
        recommends
            self.wf(),
    {
        decode_utf8(self.rest())
    }

    /// Whether the bytes from the cursor on begin with `lit`.
    pub open spec fn starts_with(self, lit: Seq<u8>) -> bool
        recommends
            self.cursor <= self.text.len(),
    {
        lit.is_prefix_of(self.rest())
    }

    /// The same text with the cursor `n` bytes further.
    pub open spec fn advance(self, n: nat) -> ParserView {
        ParserView { cursor: self.cursor + n, ..self }
    }

    /// The parser after an attempt to read `lit`: behind it if it is there,
    /// unchanged if not.
    pub open spec fn after_tag(self, lit: Seq<u8>) -> ParserView {
        if self.starts_with(lit) {
            self.advance(lit.len())
        } else {
            self
        }
    }

    /// Whether a search that ended in `found` counts as a match at the cursor:
    /// it found something, and that begins where the search began.
    pub open spec fn accepts(self, found: Option<(usize, usize)>) -> bool {
        found matches Some(span) && span.0 == 0
    }

    /// Whether the end of what `found` holds can be moved to: it lies in the
    /// rest of the text, on a character boundary.
    pub open spec fn can_take(self, found: Option<(usize, usize)>) -> bool {
        self.accepts(found) ==> found.unwrap().1 <= self.rest().len() && is_char_boundary(
            self.rest(),
            found.unwrap().1 as int,
        )
    }

    /// The parser after a search that ended in `found`: behind the match if
    /// it counts, unchanged if not.
    pub open spec fn after_match(self, found: Option<(usize, usize)>) -> ParserView {
        if self.accepts(found) {
            self.advance(found.unwrap().1 as nat)
        } else {
            self
        }
    }

    /// The text of the match that `found` holds.
    pub open spec fn matched_text(self, found: Option<(usize, usize)>) -> Seq<char>
        recommends
            self.accepts(found),
    {
        decode_utf8(self.rest().subrange(0, found.unwrap().1 as int))
    }

    /// The parser with the cursor behind the whitespace it stands on.
    pub open spec fn after_ws(self) -> ParserView {
        self.advance(leading_whitespace(self.rest()))
    }

    /// Where the offset `p` lies in the text.
    pub open spec fn locate(self, p: nat) -> Located {
        resolve(lines_of(self.text), p, self.line_offset)
    }

    /// Whether line and column of the offset `p` can be held in a `usize`.
    /// They can wherever the base line number and the length of the text
    /// together can, and `p` is not the largest `usize`.
    pub open spec fn fits(self, p: nat) -> bool {
        self.locate(p).line <= usize::MAX && self.locate(p).column <= usize::MAX
    }

    /// The error for the offset `p` with the one message `message`.
    pub open spec fn error_at(self, p: nat, message: Seq<char>) -> ParsErrView {
        ParsErrView { place: self.locate(p), messages: seq![message] }
    }
}

/// A position in the parser.
pub struct Pos {
    /// Actual position
    pos: usize,
}

impl View for Pos {
    type V = nat;

    /// The byte offset that the position stands for.
    closed spec fn view(&self) -> nat {
        self.pos as nat
    }
}

/// Parser.
pub struct Parser<'s> {
    /// Text being parsed.
    pub text: &'s str,
    /// Current position in the text.
    pos: usize,
    /// Line offset, for errors.
    line_offset: usize,
}

impl<'s> View for Parser<'s> {
    type V = ParserView;

    closed spec fn view(&self) -> ParserView {
        ParserView {
            text: self.text.spec_bytes(),
            cursor: self.pos as nat,
            line_offset: self.line_offset as nat,
        }
    }
}

impl<'s> Parser<'s> {
    /// Constructor.
    pub fn new(text: &'s str, line_offset: usize) -> (parser: Self)
        ensures
            parser@ == (ParserView {
                text: text.spec_bytes(),
                cursor: 0,
                line_offset: line_offset as nat,
            }),
            parser@.wf(),
    {
        proof {
            encode_utf8_valid_utf8(text@);
        }
        Parser { text, pos: 0, line_offset }
    }

    /// Changes the text being parsed.
    ///
    /// The cursor keeps its offset: it is not set back to the start. The
    /// parser is well-formed afterwards exactly if that offset is a character
    /// boundary of the new text, its end included.
    pub fn set(&mut self, text: &'s str, line_offset: usize)
        ensures
            final(self)@ == (ParserView {
                text: text.spec_bytes(),
                cursor: old(self)@.cursor,
                line_offset: line_offset as nat,
            }),
            final(self)@.wf() == is_char_boundary(text.spec_bytes(), old(self)@.cursor as int),
    {
        proof {
            encode_utf8_valid_utf8(text@);
        }
        self.text = text;
        self.line_offset = line_offset
    }

    /// True if at EOF: the cursor is at the end of the text, or behind it
    /// after a change to a shorter text.
    pub fn is_eof(&self) -> (eof: bool)
        ensures
            eof == self@.is_eof(),
    {
        self.pos >= self.text.as_bytes().len()
    }

    /// The current position.
    pub fn pos(&self) -> (pos: Pos)
        ensures
            pos@ == self@.cursor,
    {
        Pos { pos: self.pos }
    }

    /// Number of characters left.
    ///
    /// The byte at the cursor is not counted, so the count is one less than
    /// the length of `rest` wherever the cursor is not at the end. Matching
    /// does not go by this count.
    pub fn chars_left(&self) -> (left: usize)
        ensures
            left == self@.chars_left(),
    {
        if self.is_eof() {
            0
        } else {
            self.text.as_bytes().len() - self.pos - 1
        }
    }

    /// Returns the portion of the text that's not been parsed yet.
    pub fn rest(&self) -> (rest: &str)
        requires
            self@.wf(),
        ensures
            rest.spec_bytes() == self@.rest(),
            rest@ == self@.rest_text(),
    {
        let (_, rest) = self.text.split_at(self.pos);
        proof {
            encode_utf8_decode_utf8(rest@);
        }
        rest
    }

    /// Consumes all whitespaces after the current position.
    pub fn ws(&mut self)
        requires
            old(self)@.wf(),
        ensures
            final(self)@ == old(self)@.after_ws(),
            final(self)@.wf(),
    {
        let bytes = self.text.as_bytes();
        let len: usize = bytes.len();
        proof {
            lemma_boundary_bounds(bytes@, self.pos as int);
        }
        let ghost start = self.pos;
        while self.pos < len && is_space(bytes[self.pos])
            invariant
                self.text == old(self).text,
                self.line_offset == old(self).line_offset,
                bytes@ == self.text.spec_bytes(),
                len == bytes@.len(),
                valid_utf8(bytes@),
                start == old(self).pos,
                start <= self.pos <= len,
                is_char_boundary(bytes@, self.pos as int),
                leading_whitespace(old(self)@.rest()) == (self.pos - start) + leading_whitespace(
                    bytes@.subrange(self.pos as int, len as int),
                ),
            decreases len - self.pos,
        {
            proof {
                lemma_boundary_after_ascii(bytes@, self.pos as int);
                let here = bytes@.subrange(self.pos as int, len as int);
                assert(here.drop_first() =~= bytes@.subrange(self.pos + 1, len as int));
            }
            self.pos += 1;
        }
    }

    /// Tries to parse a tag.
    ///
    /// The tag is read exactly if the text from the cursor on begins with it.
    /// The test is made on all the bytes that are left, not on `chars_left`:
    /// a tag that ends where the text ends is read. A tag longer than what is
    /// left is refused.
    pub fn try_tag(&mut self, tag: &str) -> (matched: bool)
        requires
            old(self)@.wf(),
        ensures
            matched == old(self)@.starts_with(tag.spec_bytes()),
            final(self)@ == old(self)@.after_tag(tag.spec_bytes()),
            final(self)@.wf(),
    {
        let bytes = self.text.as_bytes();
        let lit = tag.as_bytes();
        let len: usize = bytes.len();
        let n: usize = lit.len();
        proof {
            lemma_boundary_bounds(bytes@, self.pos as int);
        }
        if len - self.pos < n {
            return false;
        }
        let mut i: usize = 0;
        while i < n
            invariant
                i <= n,
                n == lit@.len(),
                len == bytes@.len(),
                self.pos + n <= len,
                *self == *old(self),
                old(self)@.wf(),
                bytes@ == self.text.spec_bytes(),
                lit@ == tag.spec_bytes(),
                forall|k: int| 0 <= k < i ==> bytes@[self.pos + k] == lit@[k],
            decreases n - i,
        {
            if bytes[self.pos + i] != lit[i] {
                proof {
                    let rest = old(self)@.rest();
                    assert(rest.len() == len - self.pos);
                    assert(rest[i as int] == bytes@[self.pos + i]);
                    assert(rest.subrange(0, n as int)[i as int] != lit@[i as int]);
                }
                return false;
            }
            i += 1;
        }
        proof {
            let rest = old(self)@.rest();
            assert(rest.len() == len - self.pos);
            assert(lit@ =~= rest.subrange(0, n as int));
            encode_utf8_valid_utf8(tag@);
            valid_utf8_split(bytes@, self.pos as int);
            lemma_boundary_after_prefix(rest, lit@);
            lemma_boundary_in_suffix(bytes@, self.pos as int, n as int);
        }
        self.pos += n;
        true
    }

    /// Parses a tag or fails.
    ///
    /// On failure the cursor stays, and the error lies at it. Its line and
    /// column must then fit in a `usize`.
    pub fn tag(&mut self, tag: &str) -> (res: PRes<()>)
        requires
            old(self)@.wf(),
            !old(self)@.starts_with(tag.spec_bytes()) ==> old(self)@.fits(old(self)@.cursor),
        ensures
            final(self)@ == old(self)@.after_tag(tag.spec_bytes()),
            final(self)@.wf(),
            res is Ok <==> old(self)@.starts_with(tag.spec_bytes()),
            res matches Err(err) ==> err@ == old(self)@.error_at(
                old(self)@.cursor,
                expected_tag(tag@),
            ),
    {
        if !self.try_tag(tag) {
            let message = expected_tag_message(tag);
            Err(self.error_here(message.as_str()))
        } else {
            Ok(())
        }
    }

    /// Takes the outcome of a search that began at the cursor: the offsets of
    /// the first match, counted from the cursor, or `None`.
    ///
    /// A match that begins at the cursor is read and its text returned. Any
    /// other outcome leaves the cursor where it is.
    pub fn accept_match(&mut self, found: Option<(usize, usize)>) -> (res: Option<String>)
        requires
            old(self)@.wf(),
            old(self)@.can_take(found),
        ensures
            final(self)@ == old(self)@.after_match(found),
            final(self)@.wf(),
            res is Some <==> old(self)@.accepts(found),
            res matches Some(text) ==> text@ == old(self)@.matched_text(found),
    {
        match found {
            Some((start, end)) => {
                if start == 0 {
                    let len: usize = self.text.as_bytes().len();
                    proof {
                        lemma_boundary_bounds(self@.text, self.pos as int);
                        lemma_boundary_in_suffix(self@.text, self.pos as int, end as int);
                        assert(self.pos + end <= len);
                    }
                    let (_, rest) = self.text.split_at(self.pos);
                    let (text, _) = rest.split_at(end);
                    proof {
                        encode_utf8_decode_utf8(text@);
                    }
                    self.pos = self.pos + end;
                    Some(text.to_owned())
                } else {
                    None
                }
            },
            None => None,
        }
    }

    /// Tries to parse a regex.
    ///
    /// A regex's result is only considered relevant if the match starts at the
    /// current position. Hence, for efficiency reasons, all regexes should start
    /// with `^` indicating the start of the string.
    ///
    /// Otherwise, `Regex` will try to match over the rest of the text in its
    /// entirety, but the result will be ignored by the parser (unless it starts
    /// at the current position).
    pub fn try_re(&mut self, re: &Regex) -> (res: Option<String>)
        requires
            old(self)@.wf(),
        ensures
            final(self)@ == old(self)@.after_match(
                first_match(*re, old(self)@.rest_text()),
            ),
            final(self)@.wf(),
            res is Some <==> old(self)@.accepts(first_match(*re, old(self)@.rest_text())),
            res matches Some(text) ==> text@ == old(self)@.matched_text(
                first_match(*re, old(self)@.rest_text()),
            ),
    {
        let found = find_first(re, self.rest());
        self.accept_match(found)
    }

    /// Parses a regex or fails.
    ///
    /// On failure the cursor stays, and the error lies at it. Line and column
    /// of the cursor must fit in a `usize`, as only the search tells whether
    /// they are needed.
    pub fn re(&mut self, re: &Regex) -> (res: PRes<String>)
        requires
            old(self)@.wf(),
            old(self)@.fits(old(self)@.cursor),
        ensures
            final(self)@ == old(self)@.after_match(
                first_match(*re, old(self)@.rest_text()),
            ),
            final(self)@.wf(),
            res is Ok <==> old(self)@.accepts(first_match(*re, old(self)@.rest_text())),
            res matches Ok(text) ==> text@ == old(self)@.matched_text(
                first_match(*re, old(self)@.rest_text()),
            ),
            res matches Err(err) ==> err@ == old(self)@.error_at(
                old(self)@.cursor,
                no_match(pattern_text(*re)),
            ),
    {
        if let Some(res) = self.try_re(re) {
            return Ok(res)
        } else {
            let message = no_match_message(pattern_source(re));
            Err(self.error_here(message.as_str()))
        }
    }

    /// Generates a parse error at the current position.
    ///
    /// Its line and column must fit in a `usize`.
    pub fn error_here(&self, msg: &str) -> (err: ParsErr)
        requires
            self@.fits(self@.cursor),
        ensures
            err@ == self@.error_at(self@.cursor, msg@),
    {
        let pos = self.pos();
        self.error(pos, msg)
    }

    /// Generates a parse error at the given position.
    ///
    /// Its line and column must fit in a `usize`. The position need not be one
    /// of this text: the offset it stands for is resolved in the text that
    /// the parser holds now.
    pub fn error(&self, pos: Pos, msg: &str) -> (err: ParsErr)
        requires
            self@.fits(pos@),
        ensures
            err@ == self@.error_at(pos@, msg@),
    {
        let mut p: usize = pos.pos;
        let mut line_count: usize = self.line_offset;
        let mut rest: &str = self.text;
        let ghost place = self@.locate(pos@);
        while byte_len(rest) > 0
            invariant
                place == self@.locate(pos@),
                place == resolve(lines_of(rest.spec_bytes()), p as nat, line_count as nat),
                place.line <= usize::MAX,
                place.column <= usize::MAX,
            decreases rest.spec_bytes().len(),
        {
            let ghost before = rest.spec_bytes();
            let (line, next) = split_first_line(rest);
            proof {
                lemma_resolve_bounds(lines_of(before), p as nat, line_count as nat);
                lemma_line_break_bounds(before);
                assert(lines_of(before).drop_first() =~= lines_of(after_first_line(before)));
                assert(lines_of(before)[0] == first_line(before));
            }
            line_count += 1;
            let n = byte_len(line);
            if p < n {
                let (prefix, token, suffix) = cut_at(line, p);
                return ParsErr::assemble(
                    line_count,
                    p + 1,
                    msg.to_owned(),
                    prefix.to_owned(),
                    token.to_owned(),
                    suffix.to_owned(),
                );
            } else if p == n {
                proof {
                    encode_utf8_decode_utf8(line@);
                }
                return ParsErr::assemble(
                    line_count,
                    p + 1,
                    msg.to_owned(),
                    line.to_owned(),
                    "\\n".to_owned(),
                    String::new(),
                );
            } else {
                p -= n + 1;
                rest = next;
            }
        }
        ParsErr::assemble(
            line_count,
            p + 1,
            msg.to_owned(),
            String::new(),
            "<eof>".to_owned(),
            String::new(),
        )
    }
}

/// The message of a pattern with the text `source` that did not match.
pub fn no_match_message(source: &str) -> (message: String)
    ensures
        message@ == no_match(source@),
{
    let mut message = String::new();
    message.append("no match for regex `");
    message.append(source);
    message.append("`");
    assert(message@ =~= no_match(source@));
    message
}

/// The message of the literal `tag` that did not match.
pub fn expected_tag_message(tag: &str) -> (message: String)
    ensures
        message@ == expected_tag(tag@),
{
    let mut message = String::new();
    message.append("expected tag `");
    message.append(tag);
    message.append("`");
    assert(message@ =~= expected_tag(tag@));
    message
}

/// Whether `byte` is a space, a tab, a line feed or a carriage return.
pub fn is_space(byte: u8) -> (yes: bool)
    ensures
        yes == is_whitespace(byte),
{
    byte == 0x20 || byte == 0x09 || byte == 0x0a || byte == 0x0d
}

} // verus!
