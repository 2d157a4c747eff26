//! The parse error: a position, the messages gathered for it, and the line it
//! points into.

use crate::locate::{Excerpt, Located};
use crate::render::{
    caret_line, caret_string, header, header_string, join, join_strings, source_line,
    source_string, texts,
};
use vstd::prelude::*;
use vstd::string::*;

verus! {

/// What a parse error holds: where it lies, and its messages, oldest first.
pub struct ParsErrView {
    pub place: Located,
    pub messages: Seq<Seq<char>>,
}

impl ParsErrView {
    /// The lines of the report: the header, each message, the source line and
    /// the caret line.
    pub open spec fn lines(self) -> Seq<Seq<char>> {
        seq![header(self.place.line, self.place.column)] + self.messages + seq![
            source_line(
                self.place.excerpt.prefix,
                self.place.excerpt.token,
                self.place.excerpt.suffix,
            ),
            caret_line(self.place.excerpt.prefix, self.place.excerpt.token),
        ]
    }

    /// The report as one text.
    pub open spec fn text(self) -> Seq<char> {
        join(self.lines())
    }
}

/// Parse result.
pub type PRes<T> = Result<T, ParsErr>;

/// Parse error.
#[derive(Debug)]
pub struct ParsErr {
    /// Line/col position.
    pos: (usize, usize),
    /// Error messages.
    msg: Vec<String>,
    /// Error line: before error token.
    prf: String,
    /// Error line: error token.
    tkn: String,
    /// Error line: after error token.
    suf: String,
}

impl View for ParsErr {
    type V = ParsErrView;

    closed spec fn view(&self) -> ParsErrView {
        ParsErrView {
            place: Located {
                line: self.pos.0 as nat,
                column: self.pos.1 as nat,
                excerpt: Excerpt { prefix: self.prf@, token: self.tkn@, suffix: self.suf@ },
            },
            messages: texts(self.msg@),
        }
    }
}

impl ParsErr {
    /// An error at `line` and `column` with one message and this excerpt.
    pub(crate) fn assemble(
        line: usize,
        column: usize,
        message: String,
        prefix: String,
        token: String,
        suffix: String,
    ) -> (err: ParsErr)
        ensures
            err@ == (ParsErrView {
                place: Located {
                    line: line as nat,
                    column: column as nat,
                    excerpt: Excerpt { prefix: prefix@, token: token@, suffix: suffix@ },
                },
                messages: seq![message@],
            }),
    {
        let mut msg: Vec<String> = Vec::new();
        msg.push(message);
        assert(texts(msg@) =~= seq![message@]);
        ParsErr { pos: (line, column), msg, prf: prefix, tkn: token, suf: suffix }
    }

    /// Pushes a new error message.
    pub fn push(&mut self, msg: String)
        ensures
            final(self)@ == (ParsErrView {
                messages: old(self)@.messages.push(msg@),
                ..old(self)@
            }),
    {
        self.msg.push(msg);
        assert(texts(self.msg@) =~= texts(old(self).msg@).push(msg@));
    }

    /// Position of the error (line, column).
    pub fn pos(&self) -> (at: (usize, usize))
        ensures
            at.0 == self@.place.line,
            at.1 == self@.place.column,
    {
        self.pos
    }

    /// Error messages.
    pub fn msg(&self) -> (messages: &[String])
        ensures
            texts(messages@) == self@.messages,
    {
        self.msg.as_slice()
    }

    /// Prefix, token, and suffix of the error line.
    pub fn err(&self) -> (parts: (&str, &str, &str))
        ensures
            parts.0@ == self@.place.excerpt.prefix,
            parts.1@ == self@.place.excerpt.token,
            parts.2@ == self@.place.excerpt.suffix,
    {
        (self.prf.as_str(), self.tkn.as_str(), self.suf.as_str())
    }

    /// The lines of the report, in order.
    pub fn lines(&self) -> (lines: Vec<String>)
        ensures
            texts(lines@) == self@.lines(),
    {
        let mut lines: Vec<String> = Vec::new();
        lines.push(header_string(self.pos.0, self.pos.1));
        let ghost head = seq![header(self@.place.line, self@.place.column)];
        let mut i: usize = 0;
        while i < self.msg.len()
            invariant
                i <= self.msg.len(),
                head.len() == 1,
                lines@.len() == i + 1,
                texts(lines@) == head + texts(self.msg@).take(i as int),
            decreases self.msg.len() - i,
        {
            let ghost before = texts(lines@);
            let message = self.msg[i].clone();
            lines.push(message);
            i += 1;
            proof {
                let after = head + texts(self.msg@).take(i as int);
                assert(texts(lines@).len() == after.len());
                assert forall|j: int| 0 <= j < after.len() implies texts(lines@)[j] == after[j] by {
                    if j < i {
                        assert(texts(lines@)[j] == before[j]);
                    }
                }
                assert(texts(lines@) =~= after);
            }
        }
        let ghost before = texts(lines@);
        let source = source_string(self.prf.as_str(), self.tkn.as_str(), self.suf.as_str());
        let carets = caret_string(self.prf.as_str(), self.tkn.as_str());
        lines.push(source);
        lines.push(carets);
        proof {
            let all = self@.lines();
            assert(texts(self.msg@).take(i as int) =~= self@.messages);
            assert(texts(lines@).len() == all.len());
            assert forall|j: int| 0 <= j < all.len() implies texts(lines@)[j] == all[j] by {
                if j < before.len() {
                    assert(texts(lines@)[j] == before[j]);
                }
            }
            assert(texts(lines@) =~= all);
        }
        lines
    }

    /// Applies some treatment to each line of the error, in order.
    ///
    /// The lines are those of `lines`. A contract cannot speak of the calls
    /// made on `treatment`, so this one only asks that each line can be
    /// handed to it.
    pub fn default_lines<F: FnMut(&str)>(&self, mut treatment: F)
        requires
            forall|i: int, line: &str|
                0 <= i < self@.lines().len() && line@ == self@.lines()[i] ==> call_requires(
                    treatment,
                    (line,),
                ),
    {
        let lines = self.lines();
        let mut i: usize = 0;
        while i < lines.len()
            invariant
                i <= lines.len(),
                texts(lines@) == self@.lines(),
                forall|i: int, line: &str|
                    0 <= i < self@.lines().len() && line@ == self@.lines()[i] ==> call_requires(
                        treatment,
                        (line,),
                    ),
            decreases lines.len() - i,
        {
            let line = lines[i].as_str();
            assert(line@ == texts(lines@)[i as int]);
            treatment(line);
            i += 1;
        }
    }

    /// Multi-line default representation.
    pub fn default_str(&self) -> (s: String)
        ensures
            s@ == self@.text(),
    {
        let lines = self.lines();
        join_strings(&lines)
    }
}

} // verus!
