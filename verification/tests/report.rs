use parsimple::Parser;

#[test]
fn err() {
  let mut parser = Parser::new(
    "   blah stuff ~", 0
  ) ;
  parser.ws() ;
  assert! { parser.try_tag("blah") }
  parser.ws() ;

  let err = parser.error_here("life sux") ;

  println!("{}", err.default_str()) ;

  assert_eq! {
    err.default_str(), "\
Error at [1, 9]
life sux
|    blah stuff ~
|         ^\
    "
  }
}

#[test]
fn error_parts_at_cursor() {
    let mut parser = Parser::new("   blah stuff ~", 0);
    parser.ws();
    assert!(parser.try_tag("blah"));
    parser.ws();
    let err = parser.error_here("life sux");
    assert_eq!(err.pos(), (1, 9));
    assert_eq!(err.err(), ("   blah ", "s", "tuff ~"));
    assert_eq!(err.msg().len(), 1);
    assert_eq!(err.msg()[0], "life sux");
}

#[test]
fn report_lines_in_order() {
    let parser = Parser::new("abc", 0);
    let mut err = parser.error_here("inner");
    err.push("outer".to_string());
    err.push("outermost".to_string());
    let mut seen: Vec<String> = Vec::new();
    err.default_lines(|line| seen.push(line.to_string()));
    assert_eq!(seen, err.lines());
    assert_eq!(
        err.lines(),
        vec![
            "Error at [1, 1]".to_string(),
            "inner".to_string(),
            "outer".to_string(),
            "outermost".to_string(),
            "| abc".to_string(),
            "| ^".to_string(),
        ]
    );
    assert_eq!(
        err.default_str(),
        "Error at [1, 1]\ninner\nouter\noutermost\n| abc\n| ^"
    );
    assert_eq!(err.msg().len(), 3);
    assert_eq!(err.msg()[2], "outermost");
}

#[test]
fn error_at_earlier_position() {
    let mut parser = Parser::new("let x = ;", 0);
    assert!(parser.try_tag("let"));
    parser.ws();
    let start = parser.pos();
    assert!(parser.try_tag("x"));
    parser.ws();
    assert!(parser.try_tag("="));
    parser.ws();
    let err = parser.error(start, "binding without a value");
    assert_eq!(err.pos(), (1, 5));
    assert_eq!(err.err(), ("let ", "x", " = ;"));
    assert_eq!(
        err.default_str(),
        "Error at [1, 5]\nbinding without a value\n| let x = ;\n|     ^"
    );
}

#[test]
fn second_line_and_line_offset() {
    let mut parser = Parser::new("first\nsecond line\nthird", 41);
    assert!(parser.try_tag("first"));
    parser.ws();
    assert!(parser.try_tag("second"));
    parser.ws();
    let err = parser.error_here("here");
    assert_eq!(err.pos(), (43, 8));
    assert_eq!(err.err(), ("second ", "l", "ine"));
    assert_eq!(
        err.default_str(),
        "Error at [43, 8]\nhere\n| second line\n|        ^"
    );
}

#[test]
fn decimal_with_several_digits() {
    let mut parser = Parser::new("0123456789abcdefghij", 99);
    assert!(parser.try_tag("0123456789ab"));
    let err = parser.error_here("m");
    assert_eq!(err.pos(), (100, 13));
    assert_eq!(
        err.default_str(),
        "Error at [100, 13]\nm\n| 0123456789abcdefghij\n|             ^"
    );
    let far = Parser::new("x", 1234567889);
    assert_eq!(far.error_here("m").lines()[0], "Error at [1234567890, 1]");
}

#[test]
fn offset_at_line_length_is_line_end() {
    let mut parser = Parser::new("ab\ncd", 0);
    assert!(parser.try_tag("ab"));
    let err = parser.error_here("m");
    assert_eq!(err.pos(), (1, 3));
    assert_eq!(err.err(), ("ab", "\\n", ""));
    assert_eq!(err.default_str(), "Error at [1, 3]\nm\n| ab\\n\n|   ^^");
}

#[test]
fn offset_past_terminated_text_is_eof() {
    let mut parser = Parser::new("ab\n", 0);
    assert!(parser.try_tag("ab\n"));
    assert!(parser.is_eof());
    let err = parser.error_here("m");
    assert_eq!(err.pos(), (1, 1));
    assert_eq!(err.err(), ("", "<eof>", ""));
    assert_eq!(err.default_str(), "Error at [1, 1]\nm\n| <eof>\n| ^^^^^");
}

#[test]
fn offset_in_empty_text_is_eof() {
    let parser = Parser::new("", 7);
    let err = parser.error_here("m");
    assert_eq!(err.pos(), (7, 1));
    assert_eq!(err.err(), ("", "<eof>", ""));
}

#[test]
fn end_of_unterminated_text_is_end_of_last_line() {
    let mut parser = Parser::new("ab\ncd", 0);
    assert!(parser.try_tag("ab\ncd"));
    assert!(parser.is_eof());
    let err = parser.error_here("m");
    assert_eq!(err.pos(), (2, 3));
    assert_eq!(err.err(), ("cd", "\\n", ""));
}

#[test]
fn offset_behind_the_text_is_eof() {
    let mut parser = Parser::new("abcdef", 0);
    assert!(parser.try_tag("abcdef"));
    let behind = parser.pos();
    parser.set("ab", 0);
    let err = parser.error(behind, "m");
    assert_eq!(err.pos(), (1, 4));
    assert_eq!(err.err(), ("", "<eof>", ""));
}

#[test]
fn carriage_return_belongs_to_the_terminator() {
    let mut parser = Parser::new("a\r\nbc", 0);
    assert!(parser.try_tag("a"));
    let err = parser.error_here("m");
    assert_eq!(err.pos(), (1, 2));
    assert_eq!(err.err(), ("a", "\\n", ""));
    parser.ws();
    let err = parser.error_here("m");
    assert_eq!(err.pos(), (2, 2));
    assert_eq!(err.err(), ("b", "c", ""));
}

#[test]
fn lone_carriage_return_stays_in_the_line() {
    let mut parser = Parser::new("a\rb", 0);
    assert!(parser.try_tag("a\r"));
    let err = parser.error_here("m");
    assert_eq!(err.pos(), (1, 3));
    assert_eq!(err.err(), ("a\r", "b", ""));
}

#[test]
fn empty_lines_count() {
    let mut parser = Parser::new("\n\nx", 0);
    assert!(parser.try_tag("\n\n"));
    let err = parser.error_here("m");
    assert_eq!(err.pos(), (3, 1));
    assert_eq!(err.err(), ("", "x", ""));
}

#[test]
fn token_is_a_whole_character() {
    let mut parser = Parser::new("aé~", 0);
    assert!(parser.try_tag("a"));
    let err = parser.error_here("m");
    assert_eq!(err.pos(), (1, 2));
    assert_eq!(err.err(), ("a", "é", "~"));
    assert_eq!(err.default_str(), "Error at [1, 2]\nm\n| aé~\n|  ^^");
    assert!(parser.try_tag("é"));
    let err = parser.error_here("m");
    assert_eq!(err.pos(), (1, 4));
    assert_eq!(err.err(), ("aé", "~", ""));
    assert_eq!(err.default_str(), "Error at [1, 4]\nm\n| aé~\n|    ^");
}

#[test]
fn offset_inside_a_character_shows_that_character() {
    let mut parser = Parser::new("ab", 0);
    assert!(parser.try_tag("a"));
    parser.set("€", 0);
    let err = parser.error_here("m");
    assert_eq!(err.pos(), (1, 2));
    assert_eq!(err.err(), ("", "€", ""));
    assert_eq!(err.default_str(), "Error at [1, 2]\nm\n| €\n| ^^^");
}
