//! The text of a report: a header with the position, the messages, the source
//! line, and a line of carets under the token.

use vstd::prelude::*;
use vstd::string::*;
use vstd::utf8::*;

verus! {

/// The character for a digit below ten.
pub open spec fn digit(d: nat) -> char
    recommends
        d < 10,
{
    if d == 0 {
        '0'
    } else if d == 1 {
        '1'
    } else if d == 2 {
        '2'
    } else if d == 3 {
        '3'
    } else if d == 4 {
        '4'
    } else if d == 5 {
        '5'
    } else if d == 6 {
        '6'
    } else if d == 7 {
        '7'
    } else if d == 8 {
        '8'
    } else {
        '9'
    }
}

/// `n` in decimal, without leading zeros.
pub open spec fn decimal(n: nat) -> Seq<char>
    decreases n,
{
    if n < 10 {
        seq![digit(n)]
    } else {
        decimal(n / 10).push(digit(n % 10))
    }
}

/// `n` copies of `c`.
pub open spec fn repeat(c: char, n: nat) -> Seq<char> {
    Seq::new(n, |i: int| c)
}

/// The first line of a report.
pub open spec fn header(line: nat, column: nat) -> Seq<char> {
    "Error at ["@ + decimal(line) + ", "@ + decimal(column) + "]"@
}

/// The source line of a report: the three parts of the excerpt, put together
/// again behind a bar.
pub open spec fn source_line(prefix: Seq<char>, token: Seq<char>, suffix: Seq<char>) -> Seq<char> {
    "| "@ + prefix + token + suffix
}

/// The caret line of a report: behind a bar, one space for each byte of the
/// prefix and one caret for each byte of the token.
pub open spec fn caret_line(prefix: Seq<char>, token: Seq<char>) -> Seq<char> {
    "| "@ + repeat(' ', encode_utf8(prefix).len()) + repeat('^', encode_utf8(token).len())
}

/// What the strings of `v` hold, in order.
pub open spec fn texts(v: Seq<String>) -> Seq<Seq<char>> {
    Seq::new(v.len(), |i: int| v[i]@)
}

/// `lines` with a line feed between each two.
pub open spec fn join(lines: Seq<Seq<char>>) -> Seq<char>
    decreases lines.len(),
{
    if lines.len() == 0 {
        Seq::empty()
    } else if lines.len() == 1 {
        lines[0]
    } else {
        join(lines.drop_last()) + seq!['\n'] + lines.last()
    }
}

/// The digit `d` as a text of one character.
fn digit_str(d: usize) -> (s: &'static str)
    requires
        d < 10,
    ensures
        s@ == seq![digit(d as nat)],
{
    proof {
        reveal_strlit("0");
        reveal_strlit("1");
        reveal_strlit("2");
        reveal_strlit("3");
        reveal_strlit("4");
        reveal_strlit("5");
        reveal_strlit("6");
        reveal_strlit("7");
        reveal_strlit("8");
        reveal_strlit("9");
    }
    let s = if d == 0 {
        "0"
    } else if d == 1 {
        "1"
    } else if d == 2 {
        "2"
    } else if d == 3 {
        "3"
    } else if d == 4 {
        "4"
    } else if d == 5 {
        "5"
    } else if d == 6 {
        "6"
    } else if d == 7 {
        "7"
    } else if d == 8 {
        "8"
    } else {
        "9"
    };
    assert(s@ =~= seq![digit(d as nat)]);
    s
}

/// Appends `n` in decimal to `out`.
pub fn push_decimal(out: &mut String, n: usize)
    ensures
        final(out)@ == old(out)@ + decimal(n as nat),
    decreases n,
{
    if n >= 10 {
        push_decimal(out, n / 10);
    }
    out.append(digit_str(n % 10));
    assert(out@ =~= old(out)@ + decimal(n as nat));
}

/// Appends `n` copies of the one character that `unit` holds to `out`.
fn push_repeated(out: &mut String, unit: &str, c: char, n: usize)
    requires
        unit@ == seq![c],
    ensures
        final(out)@ == old(out)@ + repeat(c, n as nat),
{
    let mut i: usize = 0;
    while i < n
        invariant
            i <= n,
            unit@ == seq![c],
            out@ == old(out)@ + repeat(c, i as nat),
        decreases n - i,
    {
        out.append(unit);
        i += 1;
        assert(out@ =~= old(out)@ + repeat(c, i as nat));
    }
}

/// Number of bytes that `s` takes.
pub fn byte_len(s: &str) -> (n: usize)
    ensures
        n == encode_utf8(s@).len(),
{
    s.as_bytes().len()
}

/// The header of a report at `line` and `column`.
pub fn header_string(line: usize, column: usize) -> (s: String)
    ensures
        s@ == header(line as nat, column as nat),
{
    let mut s = String::new();
    s.append("Error at [");
    push_decimal(&mut s, line);
    s.append(", ");
    push_decimal(&mut s, column);
    s.append("]");
    assert(s@ =~= header(line as nat, column as nat));
    s
}

/// The source line of a report with this excerpt.
pub fn source_string(prefix: &str, token: &str, suffix: &str) -> (s: String)
    ensures
        s@ == source_line(prefix@, token@, suffix@),
{
    let mut s = String::new();
    s.append("| ");
    s.append(prefix);
    s.append(token);
    s.append(suffix);
    assert(s@ =~= source_line(prefix@, token@, suffix@));
    s
}

/// The caret line of a report with this prefix and token.
pub fn caret_string(prefix: &str, token: &str) -> (s: String)
    ensures
        s@ == caret_line(prefix@, token@),
{
    let mut s = String::new();
    s.append("| ");
    proof {
        reveal_strlit(" ");
        reveal_strlit("^");
        assert(" "@ =~= seq![' ']);
        assert("^"@ =~= seq!['^']);
    }
    push_repeated(&mut s, " ", ' ', byte_len(prefix));
    push_repeated(&mut s, "^", '^', byte_len(token));
    assert(s@ =~= caret_line(prefix@, token@));
    s
}

/// `lines` with a line feed between each two.
pub fn join_strings(lines: &Vec<String>) -> (s: String)
    ensures
        s@ == join(texts(lines@)),
{
    let mut s = String::new();
    let mut i: usize = 0;
    proof {
        reveal_strlit("\n");
        assert("\n"@ =~= seq!['\n']);
    }
    while i < lines.len()
        invariant
            i <= lines.len(),
            "\n"@ == seq!['\n'],
            s@ == join(texts(lines@).take(i as int)),
        decreases lines.len() - i,
    {
        if i > 0 {
            s.append("\n");
        }
        s.append(lines[i].as_str());
        i += 1;
        proof {
            let all = texts(lines@);
            assert(all.take(i as int).drop_last() =~= all.take(i - 1));
            assert(all.take(i as int).last() == lines[i - 1]@);
            assert(s@ =~= join(all.take(i as int)));
        }
    }
    assert(texts(lines@).take(i as int) =~= texts(lines@));
    s
}

} // verus!
