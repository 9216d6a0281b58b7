use expr_front::span::Span;
use expr_front::syntax::{Expr, ExprData, ExprKind};
use expr_front::tables::{AllocTable, InternTable, Key, RawKey, Tables};
use expr_front::type_checker::{Infer, InferData, Ty, TyData};

#[test]
fn key_round_trip_on_small_and_large_indices() {
    for i in [0usize, 1, 2, 41, 65_535, 0xFFFF_FEFF] {
        assert_eq!(RawKey::from_usize(i).as_usize(), i);
        assert_eq!(Expr::from_usize(i).as_usize(), i);
        assert_eq!(Ty::from_usize(i).as_usize(), i);
        assert_eq!(Infer::from_usize(i).as_usize(), i);
    }
}

#[test]
fn key_maximum_is_the_reserved_bound() {
    assert_eq!(RawKey::MAX, 0xFFFF_FF00);
    assert_eq!(RawKey::from_usize(RawKey::MAX as usize - 1).as_usize(), 0xFFFF_FEFF);
}

#[test]
fn keys_compare_by_index() {
    assert_eq!(RawKey::from_usize(7), RawKey::from_usize(7));
    assert_ne!(RawKey::from_usize(7), RawKey::from_usize(8));
    assert!(RawKey::from_usize(7) < RawKey::from_usize(8));
}

#[test]
fn arena_returns_keys_in_insertion_order() {
    let mut table: AllocTable<RawKey, u64> = AllocTable::default();
    assert_eq!(table.len(), 0);
    let a = table.add(10);
    let b = table.add(20);
    let c = table.add(10);
    assert_eq!(a.as_usize(), 0);
    assert_eq!(b.as_usize(), 1);
    assert_eq!(c.as_usize(), 2);
    assert_eq!(table.len(), 3);
}

#[test]
fn arena_data_is_stable_under_later_adds() {
    let mut table: AllocTable<RawKey, String> = AllocTable::default();
    let first = table.add(String::from("first"));
    assert_eq!(table.data(first), "first");
    let mut later = Vec::new();
    for i in 0..100 {
        later.push(table.add(format!("value {i}")));
    }
    assert_eq!(table.data(first), "first");
    for (i, key) in later.iter().enumerate() {
        assert_eq!(table.data(*key), &format!("value {i}"));
    }
}

#[test]
fn intern_table_starts_empty_and_gives_first_value_key_zero() {
    let mut table: InternTable<Ty, TyData> = InternTable::default();
    assert_eq!(table.len(), 0);
    let key = table.add(TyData::Float);
    assert_eq!(key.as_usize(), 0);
    assert_eq!(table.len(), 1);
    assert_eq!(*table.data(key), TyData::Float);
}

#[test]
fn intern_table_shares_keys_of_equal_values() {
    let mut table: InternTable<Ty, TyData> = InternTable::default();
    let integer = table.add(TyData::Integer);
    let list = table.add(TyData::List(integer));
    let nested = table.add(TyData::List(list));
    let list_again = table.add(TyData::List(integer));
    let nested_again = table.add(TyData::List(list_again));
    assert_eq!(list, list_again);
    assert_eq!(nested, nested_again);
    assert_eq!(table.len(), 3);
}

#[test]
fn intern_table_separates_different_values() {
    let mut table: InternTable<Ty, TyData> = InternTable::default();
    let bool_ty = table.add(TyData::Bool);
    let integer = table.add(TyData::Integer);
    let float = table.add(TyData::Float);
    let list = table.add(TyData::List(bool_ty));
    let var = table.add(TyData::Infer(Infer::from_usize(0)));
    let other_var = table.add(TyData::Infer(Infer::from_usize(1)));
    let keys = [bool_ty, integer, float, list, var, other_var];
    for i in 0..keys.len() {
        for j in 0..keys.len() {
            assert_eq!(keys[i] == keys[j], i == j);
        }
    }
}

#[test]
fn intern_table_orders_keys_by_first_insertion() {
    let mut table: InternTable<Ty, TyData> = InternTable::default();
    let inserts = [
        TyData::Float,
        TyData::Bool,
        TyData::Float,
        TyData::Integer,
        TyData::Bool,
        TyData::Integer,
    ];
    let keys: Vec<usize> = inserts.iter().map(|data| table.add(*data).as_usize()).collect();
    assert_eq!(keys, vec![0, 1, 0, 2, 1, 2]);
    assert_eq!(*table.data(Ty::from_usize(0)), TyData::Float);
    assert_eq!(*table.data(Ty::from_usize(1)), TyData::Bool);
    assert_eq!(*table.data(Ty::from_usize(2)), TyData::Integer);
}

#[test]
fn tables_route_each_kind_to_its_own_arena() {
    let mut tables = Tables::default();
    let expr = tables.add(ExprData { kind: ExprKind::Integer(7), span: Span::default() });
    let ty = tables.add(TyData::Integer);
    let var = tables.add(InferData::Unbound(3));
    assert_eq!(expr.as_usize(), 0);
    assert_eq!(ty.as_usize(), 0);
    assert_eq!(var.as_usize(), 0);
    assert_eq!(tables.expr_count(), 1);
    assert_eq!(tables.ty_count(), 1);
    assert_eq!(tables.infer_count(), 1);
    assert!(matches!(tables.data(expr).kind, ExprKind::Integer(7)));
    assert_eq!(*tables.data(ty), TyData::Integer);
    assert_eq!(*tables.data(var), InferData::Unbound(3));
}

#[test]
fn tables_intern_types_but_not_expressions() {
    let mut tables = Tables::default();
    let a = tables.add(ExprData { kind: ExprKind::Integer(7), span: Span::default() });
    let b = tables.add(ExprData { kind: ExprKind::Integer(7), span: Span::default() });
    assert_ne!(a, b);
    let s = tables.add(TyData::Bool);
    let t = tables.add(TyData::Bool);
    assert_eq!(s, t);
}

#[test]
fn variables_start_unbound_and_keep_their_binding() {
    let mut tables = Tables::default();
    let integer = tables.add(TyData::Integer);
    let first = tables.mk_var();
    let second = tables.mk_var();
    assert_eq!(*tables.data(first), InferData::Unbound(0));
    assert_eq!(tables.binding(first), None);
    tables.bind(first, integer);
    assert_eq!(tables.binding(first), Some(integer));
    assert_eq!(tables.binding(second), None);
}
