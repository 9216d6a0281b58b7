use expr_front::parse::{Input, NumberError, ParseError, ParseErrorKind};
use expr_front::syntax::grammar::{delimited_run, list, number, parse_u64, strip_separators};
use expr_front::syntax::{chars_of, parse, parse_list, Expr, ExprKind, Rule};
use expr_front::tables::{Key, Tables};

fn compact(expr: Expr, tables: &Tables) -> String {
    expr_front::tables::debug::Debug::debug_with(&expr, tables).compact()
}

fn compact_list(items: &Vec<Expr>, tables: &Tables) -> String {
    expr_front::tables::debug::Debug::debug_with(items, tables).compact()
}

fn integers(items: &[Expr], tables: &Tables) -> Vec<u64> {
    items
        .iter()
        .map(|item| match tables.data(*item).kind {
            ExprKind::Integer(n) => n,
            _ => panic!("not an integer"),
        })
        .collect()
}

#[test]
fn empty_list_yields_an_empty_sequence() {
    let mut tables = Tables::default();
    let items = parse::<Vec<Expr>>("[]", &mut tables).unwrap();
    assert!(items.is_empty());
    assert_eq!(tables.expr_count(), 0);
}

#[test]
fn comment_before_a_list_is_ignored_whatever_its_script() {
    let mut tables = Tables::default();
    let plain = parse::<Vec<Expr>>("[]", &mut tables).unwrap();
    let commented = parse::<Vec<Expr>>("-- any unicode text\n[]", &mut tables).unwrap();
    let cyrillic =
        parse::<Vec<Expr>>("-- Мы прячем золото в трастовые фонды\n[]", &mut tables).unwrap();
    assert_eq!(plain, commented);
    assert_eq!(plain, cyrillic);
    assert_eq!(plain, []);
}

#[test]
fn separators_in_a_literal_change_nothing() {
    let mut tables = Tables::default();
    let grouped = parse::<Vec<Expr>>("[4_000_000]", &mut tables).unwrap();
    let plain = parse::<Vec<Expr>>("[4000000]", &mut tables).unwrap();
    assert_eq!(integers(&grouped, &tables), vec![4000000]);
    assert_eq!(integers(&plain, &tables), vec![4000000]);
}

#[test]
fn trailing_comma_is_optional() {
    let mut tables = Tables::default();
    let with = parse::<Vec<Expr>>("[40, 2, 42,]", &mut tables).unwrap();
    let without = parse::<Vec<Expr>>("[40, 2, 42]", &mut tables).unwrap();
    assert_eq!(integers(&with, &tables), vec![40, 2, 42]);
    assert_eq!(integers(&without, &tables), vec![40, 2, 42]);
}

#[test]
fn unterminated_list_of_literals_reports_the_end_of_input() {
    let mut tables = Tables::default();
    let error = parse_list("[", &mut tables, Rule::Number).unwrap_err();
    assert!(matches!(error.kind, ParseErrorKind::UnexpectedEndOfInput));
    assert_eq!(error.message, "unexpected end of input");
}

#[test]
fn unterminated_list_of_expressions_reports_the_missing_expression() {
    let mut tables = Tables::default();
    let error = parse::<Vec<Expr>>("[", &mut tables).unwrap_err();
    assert_eq!(error.message, "expected expression");
    let error = parse::<Expr>("[", &mut tables).unwrap_err();
    assert_eq!(error.message, "expected expression");
}

#[test]
fn missing_close_after_the_items_reports_the_end_of_input() {
    let mut tables = Tables::default();
    let error = parse_list("[1,", &mut tables, Rule::Number).unwrap_err();
    assert_eq!(error.message, "unexpected end of input");
    let error = parse_list("[1", &mut tables, Rule::Number).unwrap_err();
    assert_eq!(error.message, "unexpected end of input");
}

#[test]
fn item_without_comma_or_close_reports_the_comma() {
    let mut tables = Tables::default();
    let error = parse::<Vec<Expr>>("[1 2]", &mut tables).unwrap_err();
    assert!(matches!(error.kind, ParseErrorKind::ExpectedChar(',')));
    assert_eq!(error.message, "expected `,`");
    let error = parse::<Vec<Expr>>("[1 ]", &mut tables).unwrap_err();
    assert_eq!(error.message, "expected `,`");
}

#[test]
fn list_without_open_reports_the_bracket() {
    let mut tables = Tables::default();
    let error = parse::<Vec<Expr>>("1]", &mut tables).unwrap_err();
    assert!(matches!(error.kind, ParseErrorKind::ExpectedChar('[')));
    assert_eq!(error.message, "expected `[`");
}

#[test]
fn double_comma_is_refused() {
    let mut tables = Tables::default();
    let error = parse::<Vec<Expr>>("[1,,]", &mut tables).unwrap_err();
    assert_eq!(error.message, "expected expression");
}

#[test]
fn trivia_is_allowed_before_items_and_before_commas() {
    let mut tables = Tables::default();
    let expr = parse::<Expr>("  [ -- first\n 1 , -- second\n 2 ,\n ]", &mut tables).unwrap();
    assert_eq!(compact(expr, &tables), "[1, 2]");
    let expr = parse::<Expr>("[ ]", &mut tables).unwrap();
    assert_eq!(compact(expr, &tables), "[]");
}

#[test]
fn nested_lists_keep_their_shape() {
    let mut tables = Tables::default();
    let expr = parse::<Expr>("[[1, [2, 3]], [], [[[4]]],]", &mut tables).unwrap();
    assert_eq!(compact(expr, &tables), "[[1, [2, 3]], [], [[[4]]]]");
}

#[test]
fn nodes_are_added_children_first() {
    let mut tables = Tables::default();
    let expr = parse::<Expr>("[7, [8], 9]", &mut tables).unwrap();
    assert_eq!(tables.expr_count(), 5);
    assert_eq!(expr.as_usize(), 4);
    assert!(matches!(tables.data(Expr::from_usize(0)).kind, ExprKind::Integer(7)));
    assert!(matches!(tables.data(Expr::from_usize(1)).kind, ExprKind::Integer(8)));
    match &tables.data(Expr::from_usize(2)).kind {
        ExprKind::List(items) => assert_eq!(items, &vec![Expr::from_usize(1)]),
        _ => panic!("not a list"),
    }
    assert!(matches!(tables.data(Expr::from_usize(3)).kind, ExprKind::Integer(9)));
    match &tables.data(expr).kind {
        ExprKind::List(items) => {
            assert_eq!(items, &vec![Expr::from_usize(0), Expr::from_usize(2), Expr::from_usize(3)])
        }
        _ => panic!("not a list"),
    }
}

#[test]
fn nodes_of_a_failed_parse_stay_in_the_arena() {
    let mut tables = Tables::default();
    let error = parse::<Expr>("[1, 2, [3", &mut tables).unwrap_err();
    assert_eq!(error.message, "expected expression");
    assert_eq!(tables.expr_count(), 3);
    let expr = parse::<Expr>("5", &mut tables).unwrap();
    assert_eq!(expr.as_usize(), 3);
}

#[test]
fn text_after_the_expression_is_not_read() {
    let mut tables = Tables::default();
    let expr = parse::<Expr>("12 ] garbage", &mut tables).unwrap();
    assert_eq!(compact(expr, &tables), "12");
}

#[test]
fn literal_must_start_with_a_digit() {
    let mut tables = Tables::default();
    let error = parse::<Expr>("_1", &mut tables).unwrap_err();
    assert_eq!(error.message, "expected expression");
    let chars = chars_of("_1");
    let mut input = Input::new(&chars);
    let error = number(&mut input, &mut tables).unwrap_err();
    assert_eq!(error.message, "expected number");
    assert_eq!(tables.expr_count(), 0);
}

#[test]
fn largest_literal_fits_and_the_next_one_does_not() {
    let mut tables = Tables::default();
    let items = parse_list("[18446744073709551615, 0, 007]", &mut tables, Rule::Number).unwrap();
    assert_eq!(integers(&items, &tables), vec![u64::MAX, 0, 7]);

    let error = parse_list("[18446744073709551616]", &mut tables, Rule::Number).unwrap_err();
    assert!(matches!(
        error.kind,
        ParseErrorKind::NumericConversionError(NumberError::Overflow)
    ));
    assert_eq!(error.message, "parse error: number too large to fit in target type");

    let error = parse::<Expr>("18_446_744_073_709_551_616", &mut tables).unwrap_err();
    assert_eq!(error.message, "expected expression");
}

#[test]
fn parse_u64_agrees_with_std() {
    let cases = [
        "0",
        "7",
        "42",
        "000",
        "18446744073709551615",
        "18446744073709551616",
        "99999999999999999999999999",
        "",
        "12a",
        "a12",
        "99999999999999999999999999x",
        "9x9999999999999999999999999",
        "1_0",
        " 1",
        "+5",
        "+",
        "-",
        "-5",
        "++5",
        "5+",
        "+18446744073709551615",
        "+18446744073709551616",
        "٣",
    ];
    for text in cases {
        let expected = match text.parse::<u64>() {
            Ok(n) => Ok(n),
            Err(e) => Err(match e.kind() {
                std::num::IntErrorKind::Empty => NumberError::Empty,
                std::num::IntErrorKind::InvalidDigit => NumberError::InvalidDigit,
                std::num::IntErrorKind::PosOverflow => NumberError::Overflow,
                _ => panic!("no such error for an unsigned number"),
            }),
        };
        assert_eq!(parse_u64(text), expected);
    }
    assert_eq!(parse_u64(""), Err(NumberError::Empty));
    assert_eq!(parse_u64("12a"), Err(NumberError::InvalidDigit));
    assert_eq!(parse_u64("99999999999999999999999999x"), Err(NumberError::Overflow));
    assert_eq!(parse_u64("18446744073709551616"), Err(NumberError::Overflow));
    assert_eq!(parse_u64("+5"), Ok(5));
}

#[test]
fn number_error_messages_are_those_of_std() {
    let cases = [
        ("", NumberError::Empty),
        ("x", NumberError::InvalidDigit),
        ("18446744073709551616", NumberError::Overflow),
    ];
    for (text, error) in cases {
        let std_message = text.parse::<u64>().unwrap_err().to_string();
        let ours = ParseError::new(ParseErrorKind::NumericConversionError(error)).message;
        assert_eq!(ours, format!("parse error: {std_message}"));
    }
}

#[test]
fn strip_separators_removes_every_underscore() {
    assert_eq!(strip_separators("4_000_000"), "4000000");
    assert_eq!(strip_separators("1__2_"), "12");
    assert_eq!(strip_separators("12"), "12");
    assert_eq!(strip_separators("___"), "");
    assert_eq!(strip_separators(""), "");
}

#[test]
fn try_parse_leaves_the_cursor_where_it_was() {
    let mut tables = Tables::default();
    let chars = chars_of(" 12, 13");
    let input = Input::new(&chars);
    let (expr, after) = input.try_parse(&mut tables, number).unwrap();
    assert_eq!(compact(expr, &tables), "12");
    assert_eq!(after.text.iter().collect::<String>(), ", 13");
    assert_eq!(input.text.iter().collect::<String>(), " 12, 13");
    assert!(input.try_parse(&mut tables, list).is_err());
    let shifted = input.try_parse(&mut tables, |this, _| this.shift()).unwrap();
    assert_eq!(shifted.0, ' ');
    assert_eq!(shifted.1.text.iter().collect::<String>(), "12, 13");
}

#[test]
fn try_parse_keeps_the_nodes_of_a_failed_attempt() {
    let mut tables = Tables::default();
    let chars = chars_of("[1, 2");
    let input = Input::new(&chars);
    let error = input.try_parse(&mut tables, list).unwrap_err();
    assert_eq!(error.message, "unexpected end of input");
    assert_eq!(tables.expr_count(), 2);
}

#[test]
fn parse_comma_stops_before_the_closing_character() {
    let mut tables = Tables::default();
    let chars = chars_of("1, 2, 3) tail");
    let mut input = Input::new(&chars);
    let items = input.parse_comma(&mut tables, ')', Rule::Expr).unwrap();
    assert_eq!(compact_list(&items, &tables), "[1, 2, 3]");
    assert_eq!(input.text.iter().collect::<String>(), ") tail");
}

#[test]
fn delimited_takes_any_pair_of_delimiters() {
    let mut tables = Tables::default();
    let chars = chars_of("( [1], 2, ) tail");
    let mut input = Input::new(&chars);
    let items = delimited_run(&mut input, &mut tables, '(', ')', Rule::Expr).unwrap();
    assert_eq!(compact_list(&items, &tables), "[[1], 2]");
    assert_eq!(input.text.iter().collect::<String>(), " tail");
}

#[test]
fn delimited_runs_any_parser_between_the_delimiters() {
    let mut tables = Tables::default();
    let chars = chars_of(" < 42 > tail");
    let mut input = Input::new(&chars);
    let expr = input.delimited(&mut tables, '<', '>', number).unwrap();
    assert_eq!(compact(expr, &tables), "42");
    assert_eq!(input.text.iter().collect::<String>(), " tail");

    let chars = chars_of("<42]");
    let mut input = Input::new(&chars);
    let error = input.delimited(&mut tables, '<', '>', number).unwrap_err();
    assert_eq!(error.message, "expected `>`");

    let chars = chars_of("<x>");
    let mut input = Input::new(&chars);
    let error = input.delimited(&mut tables, '<', '>', number).unwrap_err();
    assert_eq!(error.message, "expected number");

    let chars = chars_of("42>");
    let mut input = Input::new(&chars);
    let error = input.delimited(&mut tables, '<', '>', number).unwrap_err();
    assert_eq!(error.message, "expected `<`");
    assert_eq!(input.text.iter().collect::<String>(), "2>");
}

#[test]
fn input_parse_reads_by_type() {
    let mut tables = Tables::default();
    let chars = chars_of("[1] [2, 3]");
    let mut input = Input::new(&chars);
    let expr: Expr = input.parse(&mut tables).unwrap();
    assert_eq!(compact(expr, &tables), "[1]");
    let items: Vec<Expr> = input.parse(&mut tables).unwrap();
    assert_eq!(compact_list(&items, &tables), "[2, 3]");
    let expr = input.parse_rule(&mut tables, Rule::Expr);
    assert!(expr.is_err());
}
