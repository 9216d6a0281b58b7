use expr_front::span::Span;
use expr_front::syntax::debug::{decimal, push_decimal};
use expr_front::syntax::{parse, Expr, ExprData, ExprKind};
use expr_front::tables::{Printer, Tables};

fn compact(expr: Expr, tables: &Tables) -> String {
    expr_front::tables::debug::Debug::debug_with(&expr, tables).compact()
}

fn pretty(expr: Expr, tables: &Tables) -> String {
    expr_front::tables::debug::Debug::debug_with(&expr, tables).pretty()
}

#[test]
fn decimal_writes_the_digits_of_a_number() {
    for n in [0u64, 1, 9, 10, 11, 99, 100, 4000000, 1234567890, u64::MAX] {
        assert_eq!(decimal(n), n.to_string());
    }
    let mut text = String::from("n = ");
    push_decimal(&mut text, 42);
    assert_eq!(text, "n = 42");
}

#[test]
fn compact_rendering_is_the_debug_form_of_nested_vectors() {
    let mut tables = Tables::default();
    let expr = parse::<Expr>("[[1, 2], [], [3]]", &mut tables).unwrap();
    let value: Vec<Vec<u64>> = vec![vec![1, 2], vec![], vec![3]];
    assert_eq!(compact(expr, &tables), format!("{:?}", value));
}

#[test]
fn pretty_rendering_is_the_alternate_debug_form_of_nested_vectors() {
    let mut tables = Tables::default();
    let expr = parse::<Expr>("[[1, 2], [], [[3]]]", &mut tables).unwrap();
    let value: Vec<Vec<Vec<u64>>> = vec![vec![vec![1], vec![2]], vec![], vec![vec![3]]];
    let expected = format!("{:#?}", value);
    let flat = parse::<Expr>("[[[1], [2]], [], [[3]]]", &mut tables).unwrap();
    assert_eq!(pretty(flat, &tables), expected);
    assert_eq!(
        pretty(expr, &tables),
        "[\n    [\n        1,\n        2,\n    ],\n    [],\n    [\n        [\n            3,\n        ],\n    ],\n]"
    );
}

#[test]
fn rendering_follows_storage_order_of_hand_built_nodes() {
    let mut tables = Tables::default();
    let a = tables.add(ExprData { kind: ExprKind::Integer(3), span: Span::default() });
    let b = tables.add(ExprData { kind: ExprKind::Integer(1), span: Span::default() });
    let list = tables.add(ExprData { kind: ExprKind::List(vec![b, a, b]), span: Span::default() });
    assert_eq!(compact(list, &tables), "[1, 3, 1]");
    assert_eq!(tables.expr_count(), 3);
}

#[test]
fn printer_appends_to_what_was_written() {
    let mut tables = Tables::default();
    let expr = parse::<Expr>("[5]", &mut tables).unwrap();
    let mut printer = Printer::new(false);
    printer.write_str("value: ");
    expr_front::tables::debug::Debug::fmt(&expr, &tables, &mut printer);
    printer.write_str(";");
    assert_eq!(printer.finish(), "value: [5];");
}

#[test]
fn printer_indents_inside_an_entered_list() {
    let mut tables = Tables::default();
    let expr = parse::<Expr>("[5]", &mut tables).unwrap();
    let mut printer = Printer::new(true);
    let outer = printer.enter();
    printer.write_indent();
    expr_front::tables::debug::Debug::fmt(&expr, &tables, &mut printer);
    printer.leave(outer);
    printer.write_indent();
    printer.write_str("end");
    assert_eq!(printer.finish(), "    [\n        5,\n    ]end");
}

#[test]
fn reading_a_compact_rendering_gives_the_same_expression() {
    let mut tables = Tables::default();
    for text in ["7", "[]", "[1, [2, 3], [], [[4]]]", "[18446744073709551615, 0]"] {
        let first = parse::<Expr>(text, &mut tables).unwrap();
        let rendered = compact(first, &tables);
        assert_eq!(rendered, text);
        let second = parse::<Expr>(&rendered, &mut tables).unwrap();
        assert_eq!(compact(second, &tables), rendered);
    }
}

#[test]
fn reading_a_pretty_rendering_gives_the_same_expression() {
    let mut tables = Tables::default();
    let first = parse::<Expr>("[1, [2, 3], [], [[4]]]", &mut tables).unwrap();
    let rendered = pretty(first, &tables);
    let second = parse::<Expr>(&rendered, &mut tables).unwrap();
    assert_eq!(compact(second, &tables), "[1, [2, 3], [], [[4]]]");
}

#[test]
fn only_integers_and_lists_are_printable() {
    let mut tables = Tables::default();
    let number = tables.add(ExprData { kind: ExprKind::Integer(3), span: Span::default() });
    let truth = tables.add(ExprData { kind: ExprKind::Boolean(true), span: Span::default() });
    let good = tables.add(ExprData { kind: ExprKind::List(vec![number]), span: Span::default() });
    let bad =
        tables.add(ExprData { kind: ExprKind::List(vec![number, truth]), span: Span::default() });
    assert!(expr_front::tables::debug::Debug::is_printable(&number, &tables));
    assert!(expr_front::tables::debug::Debug::is_printable(&good, &tables));
    assert!(!expr_front::tables::debug::Debug::is_printable(&truth, &tables));
    assert!(!expr_front::tables::debug::Debug::is_printable(&bad, &tables));
    assert!(expr_front::tables::debug::Debug::is_printable(&vec![number, good], &tables));
    assert!(!expr_front::tables::debug::Debug::is_printable(&vec![number, bad], &tables));
}
