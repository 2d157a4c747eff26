use parsimple::lines::split_first_line;
use parsimple::locate::{cut_at, is_continuation};
use parsimple::parser::{expected_tag_message, is_space, no_match_message};
use parsimple::render::{
    byte_len, caret_string, header_string, join_strings, push_decimal, source_string,
};

#[test]
fn first_line_and_what_follows() {
    assert_eq!(split_first_line("ab\ncd\nef"), ("ab", "cd\nef"));
    assert_eq!(split_first_line("ab\r\ncd"), ("ab", "cd"));
    assert_eq!(split_first_line("ab"), ("ab", ""));
    assert_eq!(split_first_line("ab\n"), ("ab", ""));
    assert_eq!(split_first_line("\ncd"), ("", "cd"));
    assert_eq!(split_first_line("\r\ncd"), ("", "cd"));
    assert_eq!(split_first_line("a\rb\n"), ("a\rb", ""));
    assert_eq!(split_first_line("ab\r"), ("ab\r", ""));
    assert_eq!(split_first_line("a\r\r\nb"), ("a\r", "b"));
    assert_eq!(split_first_line(""), ("", ""));
    assert_eq!(split_first_line("é\nü"), ("é", "ü"));
}

#[test]
fn walking_the_lines_agrees_with_std() {
    let texts = [
        "",
        "a",
        "a\n",
        "a\nb",
        "a\r\nb\r\n",
        "\n",
        "\n\n",
        "\r\n\r\n",
        "a\rb",
        "a\r",
        "\r",
        "a\n\r\nb\n\n",
        "é\r\nü\n",
    ];
    for text in texts {
        let mut mine: Vec<&str> = Vec::new();
        let mut rest = text;
        while !rest.is_empty() {
            let (line, next) = split_first_line(rest);
            mine.push(line);
            rest = next;
        }
        let theirs: Vec<&str> = text.lines().collect();
        assert_eq!(mine, theirs);
    }
}

#[test]
fn cut_at_a_character() {
    assert_eq!(cut_at("abc", 0), ("", "a", "bc"));
    assert_eq!(cut_at("abc", 1), ("a", "b", "c"));
    assert_eq!(cut_at("abc", 2), ("ab", "c", ""));
    assert_eq!(cut_at("a€c", 1), ("a", "€", "c"));
    assert_eq!(cut_at("a€c", 2), ("a", "€", "c"));
    assert_eq!(cut_at("a€c", 3), ("a", "€", "c"));
    assert_eq!(cut_at("a€c", 4), ("a€", "c", ""));
    assert_eq!(cut_at("𝄞", 3), ("", "𝄞", ""));
}

#[test]
fn continuation_bytes() {
    assert!(!is_continuation(0x00));
    assert!(!is_continuation(0x7f));
    assert!(is_continuation(0x80));
    assert!(is_continuation(0xbf));
    assert!(!is_continuation(0xc0));
    assert!(!is_continuation(0xff));
}

#[test]
fn whitespace_bytes() {
    assert!(is_space(b' '));
    assert!(is_space(b'\t'));
    assert!(is_space(b'\n'));
    assert!(is_space(b'\r'));
    assert!(!is_space(0x0b));
    assert!(!is_space(0x0c));
    assert!(!is_space(b'a'));
    assert!(!is_space(0xa0));
}

#[test]
fn decimal_digits() {
    let mut out = String::from("n=");
    push_decimal(&mut out, 0);
    assert_eq!(out, "n=0");
    push_decimal(&mut out, 7);
    push_decimal(&mut out, 10);
    push_decimal(&mut out, 9876543210);
    assert_eq!(out, "n=07109876543210");
    let mut out = String::new();
    push_decimal(&mut out, usize::MAX);
    assert_eq!(out, usize::MAX.to_string());
}

#[test]
fn report_pieces() {
    assert_eq!(header_string(1, 9), "Error at [1, 9]");
    assert_eq!(header_string(120, 3004), "Error at [120, 3004]");
    assert_eq!(source_string("   blah ", "s", "tuff ~"), "|    blah stuff ~");
    assert_eq!(caret_string("   blah ", "s"), "|         ^");
    assert_eq!(caret_string("", "<eof>"), "| ^^^^^");
    assert_eq!(caret_string("é", "€"), "|   ^^^");
    assert_eq!(byte_len(""), 0);
    assert_eq!(byte_len("a€"), 4);
}

#[test]
fn joined_lines() {
    assert_eq!(join_strings(&vec![]), "");
    assert_eq!(join_strings(&vec!["a".to_string()]), "a");
    assert_eq!(
        join_strings(&vec!["a".to_string(), "".to_string(), "b".to_string()]),
        "a\n\nb"
    );
}

#[test]
fn messages() {
    assert_eq!(expected_tag_message("end"), "expected tag `end`");
    assert_eq!(expected_tag_message(""), "expected tag ``");
    assert_eq!(no_match_message("[a-z]+"), "no match for regex `[a-z]+`");
}
