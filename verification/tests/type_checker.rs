use expr_front::span::Span;
use expr_front::syntax::{parse, Expr, ExprData, ExprKind};
use expr_front::tables::Tables;
use expr_front::type_checker::unify::{occurs_check, resolve, unify};
use expr_front::type_checker::{Mode, Ty, TyData, TypeChecker, TypeMismatch};

fn node(tables: &mut Tables, kind: ExprKind) -> Expr {
    tables.add(ExprData { kind, span: Span::default() })
}

fn shape(tables: &Tables, ty: Ty) -> String {
    match *tables.data(resolve(tables, ty)) {
        TyData::Bool => String::from("Bool"),
        TyData::Integer => String::from("Integer"),
        TyData::Float => String::from("Float"),
        TyData::List(item) => format!("List({})", shape(tables, item)),
        TyData::Infer(_) => String::from("?"),
    }
}

#[test]
fn checker_stores_the_types_without_parts_once() {
    let mut tables = Tables::default();
    let _first = TypeChecker::new(&mut tables);
    assert_eq!(tables.ty_count(), 3);
    let _second = TypeChecker::new(&mut tables);
    assert_eq!(tables.ty_count(), 3);
}

#[test]
fn literals_have_the_type_of_their_kind() {
    let mut tables = Tables::default();
    let checker = TypeChecker::new(&mut tables);
    let integer = node(&mut tables, ExprKind::Integer(1));
    let float = node(&mut tables, ExprKind::Float(1.5f64.to_bits()));
    let boolean = node(&mut tables, ExprKind::Boolean(true));
    let ty = checker.infer_expr(&mut tables, integer).unwrap();
    assert_eq!(*tables.data(ty), TyData::Integer);
    let ty = checker.infer_expr(&mut tables, float).unwrap();
    assert_eq!(*tables.data(ty), TyData::Float);
    let ty = checker.infer_expr(&mut tables, boolean).unwrap();
    assert_eq!(*tables.data(ty), TyData::Bool);
    assert_eq!(tables.ty_count(), 3);
    assert_eq!(tables.infer_count(), 0);
}

#[test]
fn list_of_integers_is_a_list_of_integer() {
    let mut tables = Tables::default();
    let checker = TypeChecker::new(&mut tables);
    let expr = parse::<Expr>("[1, 2, 3]", &mut tables).unwrap();
    let ty = checker.infer_expr(&mut tables, expr).unwrap();
    assert_eq!(shape(&tables, ty), "List(Integer)");
    assert_eq!(tables.infer_count(), 1);
}

#[test]
fn nested_lists_unify_their_item_types() {
    let mut tables = Tables::default();
    let checker = TypeChecker::new(&mut tables);
    let expr = parse::<Expr>("[[], [[1]], []]", &mut tables).unwrap();
    let ty = checker.infer_expr(&mut tables, expr).unwrap();
    assert_eq!(shape(&tables, ty), "List(List(List(Integer)))");
}

#[test]
fn empty_list_has_an_open_item_type() {
    let mut tables = Tables::default();
    let checker = TypeChecker::new(&mut tables);
    let expr = parse::<Expr>("[]", &mut tables).unwrap();
    let ty = checker.infer_expr(&mut tables, expr).unwrap();
    assert_eq!(shape(&tables, ty), "List(?)");
}

#[test]
fn list_of_mixed_items_is_a_mismatch_at_the_first_wrong_item() {
    let mut tables = Tables::default();
    let checker = TypeChecker::new(&mut tables);
    let one = node(&mut tables, ExprKind::Integer(1));
    let truth = node(&mut tables, ExprKind::Boolean(true));
    let two = node(&mut tables, ExprKind::Integer(2));
    let list = node(&mut tables, ExprKind::List(vec![one, truth, two]));
    let error = checker.infer_expr(&mut tables, list).unwrap_err();
    assert_eq!(error.expr, truth);
    assert_eq!(*tables.data(error.actual), TyData::Bool);
    assert_eq!(shape(&tables, error.expected), "Integer");
}

#[test]
fn list_of_lists_of_different_depth_is_a_mismatch() {
    let mut tables = Tables::default();
    let checker = TypeChecker::new(&mut tables);
    let expr = parse::<Expr>("[[1], 2]", &mut tables).unwrap();
    let error = checker.infer_expr(&mut tables, expr).unwrap_err();
    assert_eq!(*tables.data(error.actual), TyData::Integer);
    assert_eq!(shape(&tables, error.expected), "List(Integer)");
}

#[test]
fn conditional_has_the_type_of_its_branches() {
    let mut tables = Tables::default();
    let checker = TypeChecker::new(&mut tables);
    let test = node(&mut tables, ExprKind::Boolean(false));
    let yes = node(&mut tables, ExprKind::Integer(1));
    let no = node(&mut tables, ExprKind::Integer(2));
    let cond = node(&mut tables, ExprKind::If(test, yes, Some(no)));
    let ty = checker.infer_expr(&mut tables, cond).unwrap();
    assert_eq!(shape(&tables, ty), "Integer");
    assert_eq!(tables.infer_count(), 1);
}

#[test]
fn conditional_without_second_branch_has_the_type_of_the_first() {
    let mut tables = Tables::default();
    let checker = TypeChecker::new(&mut tables);
    let test = node(&mut tables, ExprKind::Boolean(false));
    let yes = node(&mut tables, ExprKind::Float(0));
    let cond = node(&mut tables, ExprKind::If(test, yes, None));
    let ty = checker.infer_expr(&mut tables, cond).unwrap();
    assert_eq!(shape(&tables, ty), "Float");
}

#[test]
fn conditional_with_a_test_that_is_no_truth_value_is_a_mismatch() {
    let mut tables = Tables::default();
    let checker = TypeChecker::new(&mut tables);
    let test = node(&mut tables, ExprKind::Integer(0));
    let yes = node(&mut tables, ExprKind::Integer(1));
    let cond = node(&mut tables, ExprKind::If(test, yes, None));
    let error = checker.infer_expr(&mut tables, cond).unwrap_err();
    assert_eq!(error.expr, test);
    assert_eq!(*tables.data(error.expected), TyData::Bool);
    assert_eq!(*tables.data(error.actual), TyData::Integer);
    assert_eq!(tables.infer_count(), 0);
}

#[test]
fn conditional_with_branches_of_different_type_is_a_mismatch() {
    let mut tables = Tables::default();
    let checker = TypeChecker::new(&mut tables);
    let test = node(&mut tables, ExprKind::Boolean(true));
    let yes = node(&mut tables, ExprKind::Integer(1));
    let no = node(&mut tables, ExprKind::Boolean(true));
    let cond = node(&mut tables, ExprKind::If(test, yes, Some(no)));
    let error = checker.infer_expr(&mut tables, cond).unwrap_err();
    assert_eq!(error.expr, no);
    assert_eq!(shape(&tables, error.expected), "Integer");
    assert_eq!(*tables.data(error.actual), TyData::Bool);
}

#[test]
fn check_expr_holds_an_expression_to_a_type() {
    let mut tables = Tables::default();
    let checker = TypeChecker::new(&mut tables);
    let integer = tables.add(TyData::Integer);
    let list_of_integer = tables.add(TyData::List(integer));
    let list_of_lists = tables.add(TyData::List(list_of_integer));
    let expr = parse::<Expr>("[[], [1]]", &mut tables).unwrap();
    assert_eq!(checker.check_expr(&mut tables, Mode::Synthesize, expr), Ok(()));
    assert_eq!(checker.check_expr(&mut tables, Mode::CheckType(list_of_lists), expr), Ok(()));
    let error =
        checker.check_expr(&mut tables, Mode::CheckType(list_of_integer), expr).unwrap_err();
    assert_eq!(error.expr, expr);
    assert_eq!(error.expected, list_of_integer);
    assert_eq!(shape(&tables, error.actual), "List(List(Integer))");
}

#[test]
fn equate_binds_a_variable_to_the_other_side() {
    let mut tables = Tables::default();
    let checker = TypeChecker::new(&mut tables);
    let expr = node(&mut tables, ExprKind::Integer(0));
    let integer = tables.add(TyData::Integer);
    let var = checker.infer_variable(&mut tables);
    let list_of_var = tables.add(TyData::List(var));
    let list_of_integer = tables.add(TyData::List(integer));
    assert_eq!(shape(&tables, list_of_var), "List(?)");
    assert_eq!(checker.equate(&mut tables, expr, list_of_var, list_of_integer), Ok(()));
    assert_eq!(shape(&tables, var), "Integer");
    assert_eq!(shape(&tables, list_of_var), "List(Integer)");
    assert_eq!(checker.equate(&mut tables, expr, var, integer), Ok(()));
}

#[test]
fn equate_reports_expected_and_actual_as_given() {
    let mut tables = Tables::default();
    let checker = TypeChecker::new(&mut tables);
    let expr = node(&mut tables, ExprKind::Integer(0));
    let integer = tables.add(TyData::Integer);
    let boolean = tables.add(TyData::Bool);
    let list_of_integer = tables.add(TyData::List(integer));
    let list_of_boolean = tables.add(TyData::List(boolean));
    assert_eq!(
        checker.equate(&mut tables, expr, list_of_integer, list_of_boolean),
        Err(TypeMismatch { expr, expected: list_of_boolean, actual: list_of_integer })
    );
    assert_eq!(
        checker.equate(&mut tables, expr, integer, list_of_integer),
        Err(TypeMismatch { expr, expected: list_of_integer, actual: integer })
    );
}

#[test]
fn equate_refuses_a_type_that_contains_itself() {
    let mut tables = Tables::default();
    let checker = TypeChecker::new(&mut tables);
    let expr = node(&mut tables, ExprKind::Integer(0));
    let var = checker.infer_variable(&mut tables);
    let list_of_var = tables.add(TyData::List(var));
    assert!(checker.equate(&mut tables, expr, var, list_of_var).is_err());
    assert!(checker.equate(&mut tables, expr, list_of_var, var).is_err());
    assert_eq!(shape(&tables, var), "?");
    assert_eq!(checker.equate(&mut tables, expr, var, var), Ok(()));
}

#[test]
fn unify_follows_chains_of_bound_variables() {
    let mut tables = Tables::default();
    let checker = TypeChecker::new(&mut tables);
    let a = checker.infer_variable(&mut tables);
    let b = checker.infer_variable(&mut tables);
    let c = checker.infer_variable(&mut tables);
    let float = tables.add(TyData::Float);
    assert!(unify(&mut tables, a, b));
    assert!(unify(&mut tables, b, c));
    assert_eq!(resolve(&tables, a), c);
    assert!(unify(&mut tables, a, float));
    assert_eq!(resolve(&tables, a), float);
    assert_eq!(resolve(&tables, b), float);
    assert_eq!(resolve(&tables, c), float);
    let boolean = tables.add(TyData::Bool);
    assert!(!unify(&mut tables, b, boolean));
}

#[test]
fn occurs_check_looks_through_lists_and_bindings() {
    let mut tables = Tables::default();
    let first = tables.mk_var();
    let second = tables.mk_var();
    let first_ty = tables.add(TyData::Infer(first));
    let second_ty = tables.add(TyData::Infer(second));
    let list = tables.add(TyData::List(second_ty));
    assert!(occurs_check(&tables, second, list));
    assert!(!occurs_check(&tables, first, list));
    tables.bind(second, first_ty);
    assert!(occurs_check(&tables, first, list));
}
