use parsimple::{Parser, Regex};

#[test]
fn tag_scenario() {
    let mut parser = Parser::new("   blah  end", 0);
    parser.ws();
    assert_eq!(parser.rest(), "blah  end");
    assert!(parser.try_tag("blah"));
    assert_eq!(parser.rest(), "  end");

    assert!(!parser.try_tag("end"));
    assert_eq!(parser.rest(), "  end");
}

#[test]
fn tag_or_error() {
    let mut parser = Parser::new("   blah  end", 0);
    parser.ws();
    assert_eq!(parser.rest(), "blah  end");
    parser.tag("blah").unwrap();
    assert_eq!(parser.rest(), "  end");

    let err = parser.tag("end").unwrap_err();
    assert_eq!(
        err.default_str(),
        "\
Error at [1, 8]
expected tag `end`
|    blah  end
|        ^\
  "
    );
    assert_eq!(parser.rest(), "  end");
}

#[test]
fn pattern_scenario() {
    let mut parser = Parser::new("   blah  end", 0);
    parser.ws();
    assert_eq!(parser.rest(), "blah  end");
    let alpha_re = Regex::new(r"[a-zA-Z]+").unwrap();
    let res = parser.try_re(&alpha_re);
    assert_eq!(res, Some("blah".into()));

    assert_eq!(parser.rest(), "  end");

    let res = parser.try_re(&alpha_re);
    assert_eq!(res, None);
    assert_eq!(parser.rest(), "  end");
}

#[test]
fn pattern_or_error() {
    let mut parser = Parser::new("   blah  end", 0);
    parser.ws();
    assert_eq!(parser.rest(), "blah  end");
    let alpha_re = Regex::new(r"[a-zA-Z]+").unwrap();
    let res = parser.re(&alpha_re).unwrap();
    assert_eq!(res, "blah".to_string());

    assert_eq!(parser.rest(), "  end");

    let err = parser.re(&alpha_re).unwrap_err();
    assert_eq!(
        err.default_str(),
        "\
Error at [1, 8]
no match for regex `[a-zA-Z]+`
|    blah  end
|        ^\
  "
    );
    assert_eq!(parser.rest(), "  end");
}

#[test]
fn pattern_must_match_at_the_cursor() {
    let mut parser = Parser::new("12 abc", 0);
    let alpha_re = Regex::new(r"[a-z]+").unwrap();
    assert_eq!(alpha_re.find("12 abc").map(|m| m.start()), Some(3));
    assert_eq!(parser.try_re(&alpha_re), None);
    assert_eq!(parser.rest(), "12 abc");
    assert!(!parser.is_eof());
    let digits = Regex::new(r"^[0-9]+").unwrap();
    assert_eq!(parser.try_re(&digits), Some("12".to_string()));
    assert_eq!(parser.rest(), " abc");
}

#[test]
fn pattern_with_wide_characters() {
    let mut parser = Parser::new("αβγ δ", 0);
    let greek = Regex::new(r"^\p{Greek}+").unwrap();
    assert_eq!(parser.try_re(&greek), Some("αβγ".to_string()));
    assert_eq!(parser.rest(), " δ");
    assert_eq!(parser.chars_left(), 2);
}

#[test]
fn empty_match_at_the_cursor_is_taken() {
    let mut parser = Parser::new("abc", 0);
    let maybe = Regex::new(r"^x*").unwrap();
    assert_eq!(parser.try_re(&maybe), Some(String::new()));
    assert_eq!(parser.rest(), "abc");
}

#[test]
fn search_outcome_decides() {
    let mut parser = Parser::new("abcd", 0);
    assert_eq!(parser.accept_match(None), None);
    assert_eq!(parser.rest(), "abcd");
    assert_eq!(parser.accept_match(Some((1, 3))), None);
    assert_eq!(parser.rest(), "abcd");
    assert_eq!(parser.accept_match(Some((0, 2))), Some("ab".to_string()));
    assert_eq!(parser.rest(), "cd");
    assert_eq!(parser.accept_match(Some((0, 2))), Some("cd".to_string()));
    assert_eq!(parser.rest(), "");
    assert!(parser.is_eof());
}

#[test]
fn tag_read_moves_by_its_length() {
    let mut parser = Parser::new("abab!", 0);
    assert!(parser.try_tag("ab"));
    assert_eq!(parser.rest(), "ab!");
    assert!(parser.try_tag("ab"));
    assert_eq!(parser.rest(), "!");
    assert!(!parser.try_tag("ab"));
    assert_eq!(parser.rest(), "!");
}

#[test]
fn tag_refused_leaves_the_cursor() {
    let mut parser = Parser::new("abc", 0);
    assert!(!parser.try_tag("abd"));
    assert!(!parser.try_tag("abd"));
    assert!(!parser.try_tag("b"));
    assert_eq!(parser.rest(), "abc");
    assert_eq!(parser.chars_left(), 2);
}

#[test]
fn tag_longer_than_the_rest_is_refused() {
    let mut parser = Parser::new("ab", 0);
    assert!(!parser.try_tag("abc"));
    assert_eq!(parser.rest(), "ab");
    assert!(parser.tag("abc").is_err());
    assert_eq!(parser.rest(), "ab");
}

#[test]
fn tag_up_to_the_end_is_read() {
    let mut parser = Parser::new("abc", 0);
    assert!(parser.try_tag("abc"));
    assert!(parser.is_eof());
    assert_eq!(parser.rest(), "");
}

#[test]
fn empty_tag_is_read_anywhere() {
    let mut parser = Parser::new("a", 0);
    assert!(parser.try_tag(""));
    assert_eq!(parser.rest(), "a");
    assert!(parser.try_tag("a"));
    assert!(parser.try_tag(""));
    assert!(parser.is_eof());
}

#[test]
fn tag_cannot_end_inside_a_character() {
    let mut parser = Parser::new("é", 0);
    assert!(!parser.try_tag("\u{c3}"));
    assert!(!parser.try_tag("e"));
    assert_eq!(parser.rest(), "é");
    assert!(parser.try_tag("é"));
    assert!(parser.is_eof());
}

#[test]
fn ws_twice_is_ws_once() {
    let mut parser = Parser::new(" \t\r\n  x  y", 0);
    parser.ws();
    assert_eq!(parser.rest(), "x  y");
    parser.ws();
    assert_eq!(parser.rest(), "x  y");
    assert!(parser.try_tag("x"));
    parser.ws();
    parser.ws();
    assert_eq!(parser.rest(), "y");
}

#[test]
fn ws_on_no_whitespace_does_nothing() {
    let mut parser = Parser::new("x ", 0);
    parser.ws();
    assert_eq!(parser.rest(), "x ");
    assert!(parser.try_tag("x"));
    parser.ws();
    assert!(parser.is_eof());
    parser.ws();
    assert!(parser.is_eof());
}

#[test]
fn ws_skips_the_four_only() {
    let mut parser = Parser::new(" \u{b}x", 0);
    parser.ws();
    assert_eq!(parser.rest(), "\u{b}x");
    let mut parser = Parser::new("\t\u{a0}x", 0);
    parser.ws();
    assert_eq!(parser.rest(), "\u{a0}x");
    let mut parser = Parser::new("\u{2003}x", 0);
    parser.ws();
    assert_eq!(parser.rest(), "\u{2003}x");
}

#[test]
fn chars_left_leaves_out_the_byte_at_the_cursor() {
    let mut parser = Parser::new("abc", 0);
    assert_eq!(parser.chars_left(), 2);
    assert!(!parser.is_eof());
    assert!(parser.try_tag("ab"));
    assert_eq!(parser.chars_left(), 0);
    assert!(!parser.is_eof());
    assert!(parser.try_tag("c"));
    assert_eq!(parser.chars_left(), 0);
    assert!(parser.is_eof());
    let empty = Parser::new("", 0);
    assert_eq!(empty.chars_left(), 0);
    assert!(empty.is_eof());
}

#[test]
fn set_keeps_the_cursor() {
    let mut parser = Parser::new("abcdef", 0);
    assert!(parser.try_tag("abc"));
    parser.set("uvwxyz", 5);
    assert_eq!(parser.text, "uvwxyz");
    assert_eq!(parser.rest(), "xyz");
    let err = parser.error_here("m");
    assert_eq!(err.pos(), (6, 4));
    parser.set("uv", 0);
    assert!(parser.is_eof());
    assert_eq!(parser.chars_left(), 0);
}
