//! What checking does to the tables, step by step, as mathematical
//! functions of what the tables hold.

use vstd::prelude::*;

use super::unify::{head, rank_of_new, unified};
use super::{Infer, InferData, Mode, Primitives, Ty, TyData, TypeMismatch};
use crate::syntax::{Expr, ExprKind};
use crate::tables::intern::interned;
use crate::tables::{Key, RawKey, TablesView};

verus! {

/// Neither the type arena nor the arena of variables of `tables` holds more
/// than there are keys.
pub open spec fn fits(tables: TablesView) -> bool {
    tables.tys.len() <= RawKey::MAX && tables.infers.len() <= RawKey::MAX
}

/// The tables `after` are the tables `before` with types and variables
/// added and unbound variables bound: no expression, no stored type, no
/// variable and no binding of `before` has changed.
pub open spec fn extends(before: TablesView, after: TablesView) -> bool {
    &&& after.exprs == before.exprs
    &&& before.tys.len() <= after.tys.len()
    &&& forall|k: int| 0 <= k < before.tys.len() ==> #[trigger] after.tys[k] == before.tys[k]
    &&& before.infers.len() <= after.infers.len()
    &&& forall|v: int|
        0 <= v < before.infers.len() ==> #[trigger] after.infers[v] == before.infers[v]
    &&& forall|v: int|
        0 <= v < before.bindings.len() && before.bindings[v] is Some
            ==> #[trigger] after.bindings[v] == before.bindings[v]
}

/// The key of a type of shape `data` in `tables`, and the tables once that
/// type is stored.
pub open spec fn stored(tables: TablesView, data: TyData) -> (Ty, TablesView) {
    (
        Ty::at(interned(tables.tys, data).1),
        TablesView {
            tys: interned(tables.tys, data).0,
            rank: if tables.tys.contains(data) {
                tables.rank
            } else {
                tables.rank.push(rank_of_new(tables, data))
            },
            ..tables
        },
    )
}

/// The keys of the types without parts in `tables`, and the tables once
/// these types are stored.
pub open spec fn with_primitives(tables: TablesView) -> (Primitives, TablesView) {
    let bool_ty = stored(tables, TyData::Bool);
    let integer_ty = stored(bool_ty.1, TyData::Integer);
    let float_ty = stored(integer_ty.1, TyData::Float);
    (Primitives { bool_ty: bool_ty.0, integer_ty: integer_ty.0, float_ty: float_ty.0 }, float_ty.1)
}

/// A type that stands for a new, unbound variable, and the tables once the
/// variable is made and the type is stored.
pub open spec fn fresh(tables: TablesView) -> (Ty, TablesView) {
    stored(
        TablesView {
            infers: tables.infers.push(InferData::Unbound(0)),
            bindings: tables.bindings.push(None),
            ..tables
        },
        TyData::Infer(Infer::at(tables.infers.len() as int)),
    )
}

/// What holding the expression `expr`, of type `actual`, to the type
/// `expected` gives: the tables with the two types made the same, or the
/// mismatch and the tables as they were.
pub open spec fn equated(tables: TablesView, expr: Expr, actual: Ty, expected: Ty) -> (
    Result<(), TypeMismatch>,
    TablesView,
) {
    match unified(tables, actual, expected) {
        Some(after) => (Ok(()), after),
        None => (Err(TypeMismatch { expr, expected, actual }), tables),
    }
}

/// What checking the expression `expr` in `mode` gives: its type is found
/// and, where the mode names a type, made the same as that type.
pub open spec fn checked(tables: TablesView, prims: Primitives, mode: Mode, expr: Expr) -> (
    Result<(), TypeMismatch>,
    TablesView,
)
    decreases expr.index(), 2int, 0nat,
{
    let found = inferred(tables, prims, expr);
    match found.0 {
        Err(e) => (Err(e), found.1),
        Ok(actual) => match mode {
            Mode::Synthesize => (Ok(()), found.1),
            Mode::CheckType(expected) => equated(found.1, expr, actual, expected),
        },
    }
}

/// What checking each of `items`, all of which lie below `bound` in the
/// arena, against the type `item_ty` gives. The first mismatch ends it.
pub open spec fn checked_all(
    tables: TablesView,
    prims: Primitives,
    items: Seq<Expr>,
    item_ty: Ty,
    bound: int,
) -> (Result<(), TypeMismatch>, TablesView)
    decreases bound, 0int, items.len(),
{
    if items.len() == 0 {
        (Ok(()), tables)
    } else if 0 <= items[0].index() < bound {
        let first = checked(tables, prims, Mode::CheckType(item_ty), items[0]);
        match first.0 {
            Err(e) => first,
            Ok(_) => checked_all(first.1, prims, items.drop_first(), item_ty, bound),
        }
    } else {
        (Ok(()), tables)
    }
}

/// What finding the type of the expression `expr` gives: the key of the
/// type, or the first mismatch, and the tables with the types, variables
/// and bindings that were made on the way.
///
/// A literal has the type of its kind. A list has the type of lists of a
/// new variable, to which the type of every item is held. A conditional
/// holds its test to the type of truth values and both branches to a new
/// variable, which is its type; without a second branch it has the type of
/// the first.
pub open spec fn inferred(tables: TablesView, prims: Primitives, expr: Expr) -> (
    Result<Ty, TypeMismatch>,
    TablesView,
)
    decreases expr.index(), 1int, 0nat,
{
    if 0 <= expr.index() < tables.exprs.len() {
        match tables.exprs[expr.index()].kind {
            ExprKind::Integer(_) => (Ok(prims.integer_ty), tables),
            ExprKind::Float(_) => (Ok(prims.float_ty), tables),
            ExprKind::Boolean(_) => (Ok(prims.bool_ty), tables),
            ExprKind::List(items) => {
                let item = fresh(tables);
                let all = checked_all(item.1, prims, items@, item.0, expr.index());
                match all.0 {
                    Err(e) => (Err(e), all.1),
                    Ok(_) => {
                        let list = stored(all.1, TyData::List(item.0));
                        (Ok(list.0), list.1)
                    },
                }
            },
            ExprKind::If(test, if_true, if_false) => {
                if !(0 <= test.index() < expr.index() && 0 <= if_true.index() < expr.index()) {
                    (Ok(prims.bool_ty), tables)
                } else {
                    let tested = checked(tables, prims, Mode::CheckType(prims.bool_ty), test);
                    match tested.0 {
                        Err(e) => (Err(e), tested.1),
                        Ok(_) => {
                            let branch = fresh(tested.1);
                            let first = checked(
                                branch.1,
                                prims,
                                Mode::CheckType(branch.0),
                                if_true,
                            );
                            match (first.0, if_false) {
                                (Err(e), _) => (Err(e), first.1),
                                (Ok(_), None) => (Ok(branch.0), first.1),
                                (Ok(_), Some(other)) => {
                                    if 0 <= other.index() < expr.index() {
                                        let second = checked(
                                            first.1,
                                            prims,
                                            Mode::CheckType(branch.0),
                                            other,
                                        );
                                        match second.0 {
                                            Err(e) => (Err(e), second.1),
                                            Ok(_) => (Ok(branch.0), second.1),
                                        }
                                    } else {
                                        (Ok(branch.0), first.1)
                                    }
                                },
                            }
                        },
                    }
                }
            },
        }
    } else {
        (Ok(prims.bool_ty), tables)
    }
}

/// Making two types the same adds no type and no variable.
pub proof fn lemma_unified_keeps_sizes(tables: TablesView, a: Ty, b: Ty)
    ensures
        match unified(tables, a, b) {
            Some(after) => after.tys == tables.tys && after.infers == tables.infers,
            None => true,
        },
    decreases tables.rank[a.index()],
{
    let x = head(tables, a);
    let y = head(tables, b);
    if x != y {
        match (tables.tys[x.index()], tables.tys[y.index()]) {
            (TyData::Infer(v), _) => {},
            (_, TyData::Infer(w)) => {},
            (TyData::List(p), TyData::List(q)) => {
                if tables.rank[p.index()] < tables.rank[a.index()] {
                    lemma_unified_keeps_sizes(tables, p, q);
                }
            },
            _ => {},
        }
    }
}

/// Checking an expression removes no type and no variable.
pub proof fn lemma_checked_grows(tables: TablesView, prims: Primitives, mode: Mode, expr: Expr)
    ensures
        tables.tys.len() <= checked(tables, prims, mode, expr).1.tys.len(),
        tables.infers.len() <= checked(tables, prims, mode, expr).1.infers.len(),
    decreases expr.index(), 2int, 0nat,
{
    let found = inferred(tables, prims, expr);
    lemma_inferred_grows(tables, prims, expr);
    match (found.0, mode) {
        (Ok(actual), Mode::CheckType(expected)) => {
            lemma_unified_keeps_sizes(found.1, actual, expected);
        },
        _ => {},
    }
}

/// Checking a run of expressions removes no type and no variable.
pub proof fn lemma_checked_all_grows(
    tables: TablesView,
    prims: Primitives,
    items: Seq<Expr>,
    item_ty: Ty,
    bound: int,
)
    ensures
        tables.tys.len() <= checked_all(tables, prims, items, item_ty, bound).1.tys.len(),
        tables.infers.len() <= checked_all(tables, prims, items, item_ty, bound).1.infers.len(),
    decreases bound, 0int, items.len(),
{
    if items.len() > 0 && 0 <= items[0].index() < bound {
        let first = checked(tables, prims, Mode::CheckType(item_ty), items[0]);
        lemma_checked_grows(tables, prims, Mode::CheckType(item_ty), items[0]);
        if first.0 is Ok {
            lemma_checked_all_grows(first.1, prims, items.drop_first(), item_ty, bound);
        }
    }
}

/// Finding the type of an expression removes no type and no variable.
pub proof fn lemma_inferred_grows(tables: TablesView, prims: Primitives, expr: Expr)
    ensures
        tables.tys.len() <= inferred(tables, prims, expr).1.tys.len(),
        tables.infers.len() <= inferred(tables, prims, expr).1.infers.len(),
    decreases expr.index(), 1int, 0nat,
{
    if 0 <= expr.index() < tables.exprs.len() {
        match tables.exprs[expr.index()].kind {
            ExprKind::List(items) => {
                let item = fresh(tables);
                lemma_checked_all_grows(item.1, prims, items@, item.0, expr.index());
            },
            ExprKind::If(test, if_true, if_false) => {
                if 0 <= test.index() < expr.index() && 0 <= if_true.index() < expr.index() {
                    let tested = checked(tables, prims, Mode::CheckType(prims.bool_ty), test);
                    lemma_checked_grows(tables, prims, Mode::CheckType(prims.bool_ty), test);
                    if tested.0 is Ok {
                        let branch = fresh(tested.1);
                        let first = checked(branch.1, prims, Mode::CheckType(branch.0), if_true);
                        lemma_checked_grows(branch.1, prims, Mode::CheckType(branch.0), if_true);
                        match (first.0, if_false) {
                            (Ok(_), Some(other)) => {
                                if 0 <= other.index() < expr.index() {
                                    lemma_checked_grows(
                                        first.1,
                                        prims,
                                        Mode::CheckType(branch.0),
                                        other,
                                    );
                                }
                            },
                            _ => {},
                        }
                    }
                }
            },
            _ => {},
        }
    }
}

/// Extending extended tables extends the tables one began with.
pub proof fn lemma_extends_trans(a: TablesView, b: TablesView, c: TablesView)
    requires
        a.wf(),
        b.wf(),
        extends(a, b),
        extends(b, c),
    ensures
        extends(a, c),
{
    assert forall|k: int| 0 <= k < a.tys.len() implies #[trigger] c.tys[k] == a.tys[k] by {
        assert(b.tys[k] == a.tys[k]);
    }
    assert forall|v: int| 0 <= v < a.infers.len() implies #[trigger] c.infers[v] == a.infers[v] by {
        assert(b.infers[v] == a.infers[v]);
    }
    assert forall|v: int|
        0 <= v < a.bindings.len() && a.bindings[v] is Some implies #[trigger] c.bindings[v]
        == a.bindings[v] by {
        assert(b.bindings[v] == a.bindings[v]);
    }
}

/// A new variable takes one key in the arena of variables and its type one
/// key in the arena of types.
pub proof fn lemma_fresh(tables: TablesView)
    requires
        tables.wf(),
        tables.infers.len() < RawKey::MAX,
    ensures
        fresh(tables).1.tys.len() == tables.tys.len() + 1,
        fresh(tables).1.infers.len() == tables.infers.len() + 1,
{
    let data = TyData::Infer(Infer::at(tables.infers.len() as int));
    if tables.tys.contains(data) {
        let k = choose|k: int| 0 <= k < tables.tys.len() && tables.tys[k] == data;
        assert(tables.tys[k] == data);
        Infer::lemma_round_trip(tables.infers.len() as int);
    }
}

} // verus!
