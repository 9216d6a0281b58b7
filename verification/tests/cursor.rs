use expr_front::parse::{char_is_whitespace, Input, NumberError, ParseError, ParseErrorKind};
use expr_front::syntax::chars_of;

fn rest(input: &Input) -> String {
    input.text.iter().collect()
}

#[test]
fn whitespace_is_the_unicode_property() {
    for c in ['\t', '\n', '\u{b}', '\u{c}', '\r', ' ', '\u{85}', '\u{a0}', '\u{1680}', '\u{2000}',
        '\u{200a}', '\u{2028}', '\u{2029}', '\u{202f}', '\u{205f}', '\u{3000}']
    {
        assert!(char_is_whitespace(c));
    }
    for c in ['a', '0', '-', '[', '_', '\u{8}', '\u{e}', '\u{200b}', '\u{180e}', '\u{feff}'] {
        assert!(!char_is_whitespace(c));
    }
}

#[test]
fn whitespace_agrees_with_std_on_every_char() {
    for code in 0..=0x10FFFFu32 {
        if let Some(c) = char::from_u32(code) {
            assert_eq!(char_is_whitespace(c), c.is_whitespace());
        }
    }
}

#[test]
fn skip_trivia_strips_whitespace_and_comments_in_chains() {
    let cases = [
        ("", ""),
        ("abc", "abc"),
        ("   abc  ", "abc  "),
        ("-- note\nabc", "abc"),
        ("  -- one\n\t-- two\n  \n-- three\nabc -- four", "abc -- four"),
        ("-- no line break", ""),
        ("-", "-"),
        ("- - x", "- - x"),
        ("--\n--\n", ""),
        ("\u{3000}-- Мы прячем\n\u{a0}x", "x"),
    ];
    for (text, expected) in cases {
        let chars = chars_of(text);
        let mut input = Input::new(&chars);
        input.skip_trivia();
        assert_eq!(rest(&input), expected);
    }
}

#[test]
fn shift_takes_one_scalar_value() {
    let chars = chars_of("é[");
    let mut input = Input::new(&chars);
    assert_eq!(input.shift().unwrap(), 'é');
    assert_eq!(rest(&input), "[");
    assert_eq!(input.shift().unwrap(), '[');
    let error = input.shift().unwrap_err();
    assert!(matches!(error.kind, ParseErrorKind::UnexpectedEndOfInput));
    assert_eq!(error.message, "unexpected end of input");
    assert_eq!(rest(&input), "");
}

#[test]
fn shift_if_commits_only_on_a_match() {
    let chars = chars_of("7x");
    let mut input = Input::new(&chars);
    assert_eq!(input.shift_if(|c| c.is_ascii_digit()), Some('7'));
    assert_eq!(rest(&input), "x");
    assert_eq!(input.shift_if(|c| c.is_ascii_digit()), None);
    assert_eq!(rest(&input), "x");
    assert_eq!(input.shift_if(|_| true), Some('x'));
    assert_eq!(input.shift_if(|_| true), None);
}

#[test]
fn at_looks_without_consuming() {
    let chars = chars_of("]x");
    let input = Input::new(&chars);
    assert!(input.at(']'));
    assert!(!input.at('x'));
    assert_eq!(rest(&input), "]x");
    let empty = chars_of("");
    assert!(!Input::new(&empty).at(']'));
}

#[test]
fn fork_is_an_independent_copy() {
    let chars = chars_of("ab");
    let input = Input::new(&chars);
    let mut copy = input.fork();
    copy.shift().unwrap();
    assert_eq!(rest(&copy), "b");
    assert_eq!(rest(&input), "ab");
}

#[test]
fn expect_skips_trivia_and_consumes_the_character() {
    let chars = chars_of("  -- open\n [ 1");
    let mut input = Input::new(&chars);
    input.expect('[').unwrap();
    assert_eq!(rest(&input), " 1");
}

#[test]
fn expect_reports_the_character_it_wanted() {
    let chars = chars_of(" ]x");
    let mut input = Input::new(&chars);
    let error = input.expect(',').unwrap_err();
    assert!(matches!(error.kind, ParseErrorKind::ExpectedChar(',')));
    assert_eq!(error.message, "expected `,`");
    assert_eq!(rest(&input), "x");

    let chars = chars_of("  ");
    let mut input = Input::new(&chars);
    let error = input.expect(',').unwrap_err();
    assert!(matches!(error.kind, ParseErrorKind::UnexpectedEndOfInput));
    assert_eq!(error.message, "unexpected end of input");
}

#[test]
fn accumulate_reads_the_longest_token() {
    let chars = chars_of("  abc123 rest");
    let mut input = Input::new(&chars);
    let token = input
        .accumulate(|c| c.is_alphabetic(), |c| c.is_alphanumeric(), "identifier")
        .unwrap();
    assert_eq!(token, "abc123");
    assert_eq!(rest(&input), " rest");
}

#[test]
fn accumulate_applies_the_start_test_to_the_first_character_only() {
    let chars = chars_of("4_2_");
    let mut input = Input::new(&chars);
    let token =
        input.accumulate(|c| c.is_ascii_digit(), |c| c.is_ascii_digit() || c == '_', "number").unwrap();
    assert_eq!(token, "4_2_");
    assert_eq!(rest(&input), "");
}

#[test]
fn accumulate_names_the_token_it_wanted() {
    let chars = chars_of(" _1");
    let mut input = Input::new(&chars);
    let error = input
        .accumulate(|c| c.is_ascii_digit(), |c| c.is_ascii_digit() || c == '_', "number")
        .unwrap_err();
    match &error.kind {
        ParseErrorKind::ExpectedToken(description) => assert_eq!(description, "number"),
        _ => panic!("wrong kind of error"),
    }
    assert_eq!(error.message, "expected number");
    assert_eq!(rest(&input), "1");

    let chars = chars_of(" -- only trivia");
    let mut input = Input::new(&chars);
    let error = input.accumulate(|_| true, |_| true, "anything").unwrap_err();
    assert_eq!(error.message, "unexpected end of input");
}

#[test]
fn require_unambiguous_commits_to_the_single_success() {
    let chars = chars_of("abc");
    let mut input = Input::new(&chars);
    let mut moved = input.fork();
    moved.shift().unwrap();
    let failure = ParseError::new(ParseErrorKind::UnexpectedEndOfInput);
    let value = input.require_unambiguous([Err(failure), Ok((5u8, moved))], "thing").unwrap();
    assert_eq!(value, 5);
    assert_eq!(rest(&input), "bc");
}

#[test]
fn require_unambiguous_without_success_names_what_was_expected() {
    let chars = chars_of("abc");
    let mut input = Input::new(&chars);
    let first = ParseError::new(ParseErrorKind::UnexpectedEndOfInput);
    let second = ParseError::new(ParseErrorKind::ExpectedChar('['));
    let error =
        input.require_unambiguous::<2, u8>([Err(first), Err(second)], "expression").unwrap_err();
    assert_eq!(error.message, "expected expression");
    assert_eq!(rest(&input), "abc");
    let error = input.require_unambiguous::<0, u8>([], "nothing").unwrap_err();
    assert_eq!(error.message, "expected nothing");
}

#[test]
fn every_kind_of_error_has_its_message() {
    let cases = [
        (ParseErrorKind::UnexpectedEndOfInput, "unexpected end of input"),
        (ParseErrorKind::ExpectedChar(']'), "expected `]`"),
        (ParseErrorKind::ExpectedToken(String::from("expression")), "expected expression"),
        (
            ParseErrorKind::NumericConversionError(NumberError::Empty),
            "parse error: cannot parse integer from empty string",
        ),
        (
            ParseErrorKind::NumericConversionError(NumberError::InvalidDigit),
            "parse error: invalid digit found in string",
        ),
        (
            ParseErrorKind::NumericConversionError(NumberError::Overflow),
            "parse error: number too large to fit in target type",
        ),
    ];
    for (kind, message) in cases {
        assert_eq!(ParseError::new(kind).message, message);
    }
}
