//! Types, and the checker that assigns them to expressions.

pub mod model;
pub mod typing;
pub mod unify;

pub use unify::{Infer, InferData, TypeTree, Unification};

use vstd::prelude::*;

use crate::syntax::expr::{children_below, tree_of};
use crate::syntax::{Expr, ExprKind};
use crate::tables::intern::lemma_interned;
use crate::tables::{AllocKey, AllocValue, InternCode, Key, RawKey, Tables, TablesView};
use crate::type_checker::model::{
    checked, checked_all, equated, extends, fits, fresh, inferred, lemma_checked_all_grows,
    lemma_checked_grows, lemma_extends_trans, lemma_fresh, lemma_unified_keeps_sizes, stored,
    with_primitives,
};
use crate::type_checker::typing::{has_type, lemma_has_type_extends};
use crate::type_checker::unify::{
    applied, lemma_type_of_list, lemma_unified, lemma_unifier_unifies, type_of, unifiable,
    unifier, unify,
};

verus! {

/// The key of a type in the interned type arena. Two types are the same
/// type exactly when their keys are equal.
#[derive(Debug, Copy, Clone, PartialEq, Eq, PartialOrd, Ord, Hash, Structural)]
pub struct Ty {
    raw: RawKey,
}

impl Key for Ty {
    closed spec fn index(&self) -> int {
        self.raw.index()
    }

    closed spec fn at(i: int) -> Ty {
        Ty { raw: RawKey::at(i) }
    }

    proof fn lemma_round_trip(i: int) {
        RawKey::lemma_round_trip(i);
    }

    fn from_usize(key: usize) -> (k: Self) {
        Ty { raw: RawKey::from_usize(key) }
    }

    fn as_usize(&self) -> (i: usize) {
        self.raw.as_usize()
    }

    proof fn lemma_index_injective(a: Self, b: Self) {
        RawKey::lemma_index_injective(a.raw, b.raw);
    }

    proof fn lemma_index_lower_bound(k: Self) {
        RawKey::lemma_index_lower_bound(k.raw);
    }
}

/// The shape of a type; the parts of a composite type are keys into the same
/// arena.
#[derive(Debug, Clone, Copy, PartialEq, Eq, Hash, Structural)]
pub enum TyData {
    Bool,
    Integer,
    Float,
    List(Ty),
    /// A type yet to be found, standing for whatever its variable is bound
    /// to.
    Infer(Infer),
}

impl InternCode for TyData {
    open spec fn code(&self) -> int {
        match *self {
            TyData::Bool => 0,
            TyData::Integer => 1,
            TyData::Float => 2,
            TyData::List(item) => 2 * item.index() + 5,
            TyData::Infer(var) => 2 * var.index() + 6,
        }
    }

    fn encode(&self) -> (c: u64) {
        match *self {
            TyData::Bool => 0,
            TyData::Integer => 1,
            TyData::Float => 2,
            TyData::List(item) => 2 * (item.as_usize() as u64) + 5,
            TyData::Infer(var) => 2 * (var.as_usize() as u64) + 6,
        }
    }

    proof fn lemma_code_injective(a: Self, b: Self) {
        match a {
            TyData::List(x) => Ty::lemma_index_lower_bound(x),
            TyData::Infer(x) => Infer::lemma_index_lower_bound(x),
            _ => {},
        }
        match b {
            TyData::List(y) => Ty::lemma_index_lower_bound(y),
            TyData::Infer(y) => Infer::lemma_index_lower_bound(y),
            _ => {},
        }
        match (a, b) {
            (TyData::List(x), TyData::List(y)) => {
                Ty::lemma_index_injective(x, y);
            },
            (TyData::Infer(x), TyData::Infer(y)) => {
                Infer::lemma_index_injective(x, y);
            },
            _ => {},
        }
    }
}

/// A type that was found where another was expected.
#[derive(Debug, Clone, Copy, PartialEq, Eq, Structural)]
pub struct TypeMismatch {
    /// The expression that has the wrong type.
    pub expr: Expr,
    /// The type that was expected of it.
    pub expected: Ty,
    /// The type that it has.
    pub actual: Ty,
}

/// How an expression is looked at: to find its type, or to hold it to one.
#[derive(Debug, Clone, Copy, PartialEq, Eq, Structural)]
pub enum Mode {
    /// Find the type of the expression.
    Synthesize,
    /// Find the type of the expression and make it the same as this one.
    CheckType(Ty),
}

/// The checker: it holds the keys of the types that have no parts.
pub struct TypeChecker {
    bool_ty: Ty,
    integer_ty: Ty,
    float_ty: Ty,
}

/// A [`TypeChecker`] as a mathematical value.
pub struct Primitives {
    pub bool_ty: Ty,
    pub integer_ty: Ty,
    pub float_ty: Ty,
}

impl View for TypeChecker {
    type V = Primitives;

    closed spec fn view(&self) -> Primitives {
        Primitives { bool_ty: self.bool_ty, integer_ty: self.integer_ty, float_ty: self.float_ty }
    }
}

impl Primitives {
    /// Each key names, in `tables`, the type it is held for.
    pub open spec fn wf(self, tables: TablesView) -> bool {
        &&& 0 <= self.bool_ty.index() < tables.tys.len()
        &&& tables.tys[self.bool_ty.index()] == TyData::Bool
        &&& 0 <= self.integer_ty.index() < tables.tys.len()
        &&& tables.tys[self.integer_ty.index()] == TyData::Integer
        &&& 0 <= self.float_ty.index() < tables.tys.len()
        &&& tables.tys[self.float_ty.index()] == TyData::Float
    }
}

/// A key is known by its position.
proof fn lemma_key_at(key: Ty, i: int)
    requires
        key.index() == i,
        0 <= i < RawKey::MAX,
    ensures
        key == Ty::at(i),
{
    Ty::lemma_round_trip(i);
    Ty::lemma_index_injective(key, Ty::at(i));
}

/// Stores a type of shape `data` and returns its key.
pub fn store(tables: &mut Tables, data: TyData) -> (ty: Ty)
    requires
        old(tables).wf(),
        data.fits(old(tables)@),
    ensures
        final(tables).wf(),
        (ty, final(tables)@) == stored(old(tables)@, data),
        extends(old(tables)@, final(tables)@),
        0 <= ty.index() < final(tables)@.tys.len(),
        final(tables)@.tys[ty.index()] == data,
{
    proof {
        tables.lemma_wf();
        lemma_interned(tables@.tys, data);
    }
    let ty = tables.add(data);
    proof {
        tables.lemma_wf();
        lemma_key_at(ty, ty.index());
    }
    ty
}

impl TypeChecker {
    /// A checker for `tables`, in which it stores the types that have no
    /// parts. Those that are not stored yet need a key each.
    pub fn new(tables: &mut Tables) -> (checker: TypeChecker)
        requires
            old(tables).wf(),
            with_primitives(old(tables)@).1.tys.len() <= RawKey::MAX,
        ensures
            final(tables).wf(),
            checker@.wf(final(tables)@),
            extends(old(tables)@, final(tables)@),
            (checker@, final(tables)@) == with_primitives(old(tables)@),
    {
        proof {
            tables.lemma_wf();
            let first = stored(tables@, TyData::Bool).1;
            let second = stored(first, TyData::Integer).1;
            lemma_interned(tables@.tys, TyData::Bool);
            lemma_interned(first.tys, TyData::Integer);
            lemma_interned(second.tys, TyData::Float);
        }
        let ghost before = tables@;
        let bool_ty = store(tables, TyData::Bool);
        let ghost first = tables@;
        proof {
            tables.lemma_wf();
        }
        let integer_ty = store(tables, TyData::Integer);
        let ghost second = tables@;
        proof {
            tables.lemma_wf();
            lemma_extends_trans(before, first, second);
        }
        let float_ty = store(tables, TyData::Float);
        proof {
            tables.lemma_wf();
            lemma_extends_trans(before, second, tables@);
        }
        TypeChecker { bool_ty, integer_ty, float_ty }
    }

    /// Makes a new variable and returns the type that stands for it.
    pub fn infer_variable(&self, tables: &mut Tables) -> (ty: Ty)
        requires
            old(tables).wf(),
            old(tables)@.infers.len() < RawKey::MAX,
            old(tables)@.tys.len() < RawKey::MAX,
        ensures
            final(tables).wf(),
            (ty, final(tables)@) == fresh(old(tables)@),
            extends(old(tables)@, final(tables)@),
            0 <= ty.index() < final(tables)@.tys.len(),
            final(tables)@.tys.len() == old(tables)@.tys.len() + 1,
            final(tables)@.infers.len() == old(tables)@.infers.len() + 1,
    {
        let ghost before = tables@;
        proof {
            tables.lemma_wf();
        }
        let var = tables.mk_var();
        proof {
            tables.lemma_wf();
            Infer::lemma_round_trip(var.index());
            Infer::lemma_index_injective(var, Infer::at(var.index()));
            let data = TyData::Infer(var);
            if tables@.tys.contains(data) {
                let k = choose|k: int| 0 <= k < tables@.tys.len() && tables@.tys[k] == data;
                assert(before.tys[k] == data);
            }
        }
        store(tables, TyData::Infer(var))
    }

    /// Makes the types `a` and `b` the same, binding a variable where that
    /// is needed. Where the types cannot be made the same, the error names
    /// `expr` as the expression that has type `a` where `b` was expected,
    /// and the tables are left as they were.
    pub fn equate(&self, tables: &mut Tables, expr: Expr, a: Ty, b: Ty) -> (r: Result<
        (),
        TypeMismatch,
    >)
        requires
            old(tables).wf(),
            0 <= a.index() < old(tables)@.tys.len(),
            0 <= b.index() < old(tables)@.tys.len(),
        ensures
            final(tables).wf(),
            (r, final(tables)@) == equated(old(tables)@, expr, a, b),
            extends(old(tables)@, final(tables)@),
            final(tables)@.tys == old(tables)@.tys,
            final(tables)@.infers == old(tables)@.infers,
            r is Ok <==> unifiable(
                type_of(old(tables)@, a.index()),
                type_of(old(tables)@, b.index()),
            ),
            r is Ok ==> type_of(final(tables)@, a.index()) == type_of(final(tables)@, b.index()),
            r is Ok ==> forall|k: int|
                0 <= k < old(tables)@.tys.len() ==> #[trigger] type_of(final(tables)@, k)
                    == applied(
                    unifier(type_of(old(tables)@, a.index()), type_of(old(tables)@, b.index())),
                    type_of(old(tables)@, k),
                ),
    {
        proof {
            tables.lemma_wf();
            lemma_unified(tables@, a, b);
            if unifiable(type_of(tables@, a.index()), type_of(tables@, b.index())) {
                lemma_unifier_unifies(type_of(tables@, a.index()), type_of(tables@, b.index()));
            }
        }
        if unify(tables, a, b) {
            Ok(())
        } else {
            Err(TypeMismatch { expr, expected: b, actual: a })
        }
    }
}

/// What the checker needs to know of a node before it changes the tables.
enum Shape {
    Integer,
    Float,
    Boolean,
    List(usize),
    If(Expr, Expr, Option<Expr>),
}

/// Copies out of the node `expr` what the checker needs of it.
fn shape_of(tables: &Tables, expr: Expr) -> (shape: Shape)
    requires
        0 <= expr.index() < tables@.exprs.len(),
    ensures
        match (tables@.exprs[expr.index()].kind, shape) {
            (ExprKind::Integer(_), Shape::Integer) => true,
            (ExprKind::Float(_), Shape::Float) => true,
            (ExprKind::Boolean(_), Shape::Boolean) => true,
            (ExprKind::List(items), Shape::List(n)) => n == items@.len(),
            (ExprKind::If(test, if_true, if_false), Shape::If(a, b, c)) => test == a && if_true
                == b && if_false == c,
            _ => false,
        },
{
    match &tables.data(expr).kind {
        ExprKind::Integer(_) => Shape::Integer,
        ExprKind::Float(_) => Shape::Float,
        ExprKind::Boolean(_) => Shape::Boolean,
        ExprKind::List(items) => Shape::List(items.len()),
        ExprKind::If(test, if_true, if_false) => Shape::If(*test, *if_true, *if_false),
    }
}

/// The item at position `i` of the list node `expr`.
fn item_at(tables: &Tables, expr: Expr, i: usize) -> (item: Expr)
    requires
        0 <= expr.index() < tables@.exprs.len(),
        tables@.exprs[expr.index()].kind is List,
        i < tables@.exprs[expr.index()].kind->List_0@.len(),
    ensures
        item == tables@.exprs[expr.index()].kind->List_0@[i as int],
{
    match &tables.data(expr).kind {
        ExprKind::List(items) => items[i],
        _ => expr,
    }
}

impl TypeChecker {
    /// Finds the type of `expr` and, where `mode` names a type, makes the
    /// two the same. A mismatch is reported against `expr`.
    pub fn check_expr(&self, tables: &mut Tables, mode: Mode, expr: Expr) -> (r: Result<
        (),
        TypeMismatch,
    >)
        requires
            old(tables).wf(),
            self@.wf(old(tables)@),
            0 <= expr.index() < old(tables)@.exprs.len(),
            match mode {
                Mode::CheckType(expected) => 0 <= expected.index() < old(tables)@.tys.len(),
                Mode::Synthesize => true,
            },
            fits(checked(old(tables)@, self@, mode, expr).1),
        ensures
            final(tables).wf(),
            self@.wf(final(tables)@),
            extends(old(tables)@, final(tables)@),
            (r, final(tables)@) == checked(old(tables)@, self@, mode, expr),
            r is Ok ==> match mode {
                Mode::CheckType(expected) => has_type(
                    tree_of(old(tables)@.exprs, expr.index()),
                    type_of(final(tables)@, expected.index()),
                ),
                Mode::Synthesize => true,
            },
        decreases expr.index(), 2int,
    {
        let ghost before = tables@;
        proof {
            tables.lemma_wf();
            let found = inferred(before, self@, expr);
            match (found.0, mode) {
                (Ok(actual), Mode::CheckType(expected)) => {
                    lemma_unified_keeps_sizes(found.1, actual, expected);
                },
                _ => {},
            }
        }
        let actual = match self.infer_expr(tables, expr) {
            Ok(actual) => actual,
            Err(e) => {
                return Err(e);
            },
        };
        let ghost middle = tables@;
        match mode {
            Mode::Synthesize => Ok(()),
            Mode::CheckType(expected) => {
                proof {
                    tables.lemma_wf();
                }
                let r = self.equate(tables, expr, actual, expected);
                proof {
                    tables.lemma_wf();
                    lemma_extends_trans(before, middle, tables@);
                    if r is Ok {
                        lemma_has_type_extends(
                            tree_of(before.exprs, expr.index()),
                            middle,
                            tables@,
                            actual.index(),
                        );
                    }
                }
                r
            },
        }
    }

    /// Finds the type of `expr`, making the types, variables and bindings
    /// that this takes.
    pub fn infer_expr(&self, tables: &mut Tables, expr: Expr) -> (r: Result<Ty, TypeMismatch>)
        requires
            old(tables).wf(),
            self@.wf(old(tables)@),
            0 <= expr.index() < old(tables)@.exprs.len(),
            fits(inferred(old(tables)@, self@, expr).1),
        ensures
            final(tables).wf(),
            self@.wf(final(tables)@),
            extends(old(tables)@, final(tables)@),
            (r, final(tables)@) == inferred(old(tables)@, self@, expr),
            match r {
                Ok(ty) => 0 <= ty.index() < final(tables)@.tys.len() && has_type(
                    tree_of(old(tables)@.exprs, expr.index()),
                    type_of(final(tables)@, ty.index()),
                ),
                Err(_) => true,
            },
        decreases expr.index(), 1int,
    {
        let ghost before = tables@;
        let ghost prims = self@;
        let ghost tree = tree_of(before.exprs, expr.index());
        proof {
            tables.lemma_wf();
        }
        match shape_of(tables, expr) {
            Shape::Integer => Ok(self.integer_ty),
            Shape::Float => Ok(self.float_ty),
            Shape::Boolean => Ok(self.bool_ty),
            Shape::List(n) => {
                let ghost items = before.exprs[expr.index()].kind->List_0@;
                proof {
                    let item = fresh(before);
                    lemma_checked_all_grows(item.1, prims, items, item.0, expr.index());
                    assert(item.1.infers.len() == before.infers.len() + 1);
                    lemma_fresh(before);
                }
                let item_ty = self.infer_variable(tables);
                let ghost start = tables@;
                let mut i: usize = 0;
                proof {
                    tables.lemma_wf();
                    assert(items.skip(0) =~= items);
                }
                while i < n
                    invariant
                        before == old(tables)@,
                        (item_ty, start) == fresh(before),
                        tables.wf(),
                        prims == self@,
                        prims.wf(tables@),
                        before.wf(),
                        children_below(before.exprs[expr.index()].kind, expr.index()),
                        tables@.exprs == before.exprs,
                        extends(before, tables@),
                        0 <= expr.index() < before.exprs.len(),
                        before.exprs[expr.index()].kind is List,
                        items == before.exprs[expr.index()].kind->List_0@,
                        n == items.len(),
                        i <= n,
                        0 <= item_ty.index() < tables@.tys.len(),
                        checked_all(start, prims, items, item_ty, expr.index()) == checked_all(
                            tables@,
                            prims,
                            items.skip(i as int),
                            item_ty,
                            expr.index(),
                        ),
                        fits(checked_all(start, prims, items, item_ty, expr.index()).1),
                        forall|k: int|
                            0 <= k < i ==> has_type(
                                tree_of(before.exprs, (#[trigger] items[k]).index()),
                                type_of(tables@, item_ty.index()),
                            ),
                    decreases n - i,
                {
                    let ghost here = tables@;
                    let ghost rest = items.skip(i as int);
                    let item = item_at(tables, expr, i);
                    proof {
                        tables.lemma_wf();
                        assert(rest[0] == items[i as int]);
                        assert(rest.drop_first() =~= items.skip(i + 1));
                        let first = checked(here, prims, Mode::CheckType(item_ty), item);
                        if first.0 is Ok {
                            lemma_checked_all_grows(
                                first.1,
                                prims,
                                rest.drop_first(),
                                item_ty,
                                expr.index(),
                            );
                        }
                    }
                    let checked_item = self.check_expr(tables, Mode::CheckType(item_ty), item);
                    proof {
                        tables.lemma_wf();
                        lemma_extends_trans(before, here, tables@);
                    }
                    match checked_item {
                        Ok(_) => {},
                        Err(e) => {
                            return Err(e);
                        },
                    }
                    proof {
                        assert forall|k: int| 0 <= k < i implies has_type(
                            tree_of(before.exprs, (#[trigger] items[k]).index()),
                            type_of(tables@, item_ty.index()),
                        ) by {
                            lemma_has_type_extends(
                                tree_of(before.exprs, items[k].index()),
                                here,
                                tables@,
                                item_ty.index(),
                            );
                        }
                    }
                    i += 1;
                }
                let ghost checked_state = tables@;
                proof {
                    tables.lemma_wf();
                    assert(items.skip(n as int) =~= Seq::<Expr>::empty());
                }
                let list = store(tables, TyData::List(item_ty));
                proof {
                    tables.lemma_wf();
                    let after = tables@;
                    lemma_extends_trans(before, checked_state, after);
                    let trees = tree->List_0;
                    lemma_type_of_list(after, list, item_ty);
                    assert forall|k: int| 0 <= k < trees.len() implies has_type(
                        #[trigger] trees[k],
                        type_of(after, item_ty.index()),
                    ) by {
                        assert(has_type(
                            tree_of(before.exprs, items[k].index()),
                            type_of(checked_state, item_ty.index()),
                        ));
                        lemma_has_type_extends(
                            tree_of(before.exprs, items[k].index()),
                            checked_state,
                            after,
                            item_ty.index(),
                        );
                    }
                }
                Ok(list)
            },
            Shape::If(test, if_true, if_false) => {
                proof {
                    let tested = checked(before, prims, Mode::CheckType(prims.bool_ty), test);
                    lemma_checked_grows(before, prims, Mode::CheckType(prims.bool_ty), test);
                    if tested.0 is Ok {
                        let branch = fresh(tested.1);
                        let first = checked(branch.1, prims, Mode::CheckType(branch.0), if_true);
                        lemma_checked_grows(branch.1, prims, Mode::CheckType(branch.0), if_true);
                        match (first.0, if_false) {
                            (Ok(_), Some(other)) => {
                                lemma_checked_grows(
                                    first.1,
                                    prims,
                                    Mode::CheckType(branch.0),
                                    other,
                                );
                            },
                            _ => {},
                        }
                    }
                }
                let tested_r = self.check_expr(tables, Mode::CheckType(self.bool_ty), test);
                let ghost tested = tables@;
                proof {
                    tables.lemma_wf();
                }
                match tested_r {
                    Ok(_) => {},
                    Err(e) => {
                        return Err(e);
                    },
                }
                proof {
                    assert(fresh(tested).1.infers.len() == tested.infers.len() + 1);
                    lemma_fresh(tested);
                }
                let ty = self.infer_variable(tables);
                let ghost branched = tables@;
                proof {
                    tables.lemma_wf();
                    lemma_extends_trans(before, tested, branched);
                }
                let first_r = self.check_expr(tables, Mode::CheckType(ty), if_true);
                let ghost first = tables@;
                proof {
                    tables.lemma_wf();
                    lemma_extends_trans(before, branched, first);
                    lemma_extends_trans(tested, branched, first);
                }
                match first_r {
                    Ok(_) => {},
                    Err(e) => {
                        return Err(e);
                    },
                }
                match if_false {
                    Some(other) => {
                        let second_r = self.check_expr(tables, Mode::CheckType(ty), other);
                        proof {
                            tables.lemma_wf();
                            lemma_extends_trans(before, first, tables@);
                            lemma_extends_trans(tested, first, tables@);
                        }
                        match second_r {
                            Ok(_) => {},
                            Err(e) => {
                                return Err(e);
                            },
                        }
                    },
                    None => {},
                }
                proof {
                    let after = tables@;
                    lemma_has_type_extends(
                        tree_of(before.exprs, test.index()),
                        tested,
                        after,
                        prims.bool_ty.index(),
                    );
                    lemma_has_type_extends(
                        tree_of(before.exprs, if_true.index()),
                        first,
                        after,
                        ty.index(),
                    );
                }
                Ok(ty)
            },
        }
    }
}

} // verus!
