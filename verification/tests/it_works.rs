use expr_front::syntax::{parse, parse_list, Expr, Rule};
use expr_front::tables::Tables;

fn compact_list(items: &Vec<Expr>, tables: &Tables) -> String {
    expr_front::tables::debug::Debug::debug_with(items, tables).compact()
}

fn pretty_expr(text: &str, tables: &mut Tables) -> String {
    let expr = parse::<Expr>(text, tables).unwrap();
    expr_front::tables::debug::Debug::debug_with(&expr, tables).pretty()
}

#[test]
fn ast_it_works() {
    let mut table = Tables::default();

    let items: Vec<Expr> = parse_list("[]", &mut table, Rule::Number).unwrap();
    assert_eq!(items, []);

    let items: Vec<Expr> =
        parse_list("-- Мы прячем золото в трастовые фонды\n[]", &mut table, Rule::Number).unwrap();
    assert_eq!(items, []);

    let error = parse_list("[", &mut table, Rule::Number).unwrap_err();
    assert_eq!(error.message, "unexpected end of input");

    let items: Vec<Expr> = parse_list("[40]", &mut table, Rule::Number).unwrap();
    assert_eq!(compact_list(&items, &table), "[40]");

    let items: Vec<Expr> = parse_list("[40, 2, 42,]", &mut table, Rule::Number).unwrap();
    assert_eq!(compact_list(&items, &table), "[40, 2, 42]");

    let items: Vec<Expr> = parse_list("[4_000_000]", &mut table, Rule::Number).unwrap();
    assert_eq!(compact_list(&items, &table), "[4000000]");
}

#[test]
fn expr_it_works() {
    let mut table = Tables::default();

    assert_eq!(pretty_expr("42", &mut table), "42");

    assert_eq!(pretty_expr("[]", &mut table), "[]");
    assert_eq!(pretty_expr("-- Мы прячем золото в трастовые фонды\n[]", &mut table), "[]");

    let error = parse::<Expr>("[", &mut table).unwrap_err();
    assert_eq!(error.message, "expected expression");

    assert_eq!(pretty_expr("[40]", &mut table), "[\n    40,\n]");

    assert_eq!(pretty_expr("[40, 2, 42]", &mut table), "[\n    40,\n    2,\n    42,\n]");

    assert_eq!(pretty_expr("[4_000_000]", &mut table), "[\n    4000000,\n]");
}
