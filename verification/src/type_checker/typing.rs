//! What it means for an expression to have a type.

use vstd::prelude::*;

use super::unify::{type_of, TypeTree};
use super::{extends, TyData};
use crate::syntax::Tree;
use crate::tables::{Key, TablesView};

verus! {

/// Whether the expression `tree` has the type `t`. A literal has the type of
/// its kind; a list of items that all have one type has the type of lists
/// of that type; a conditional whose test is a truth value has the type
/// that its branches have.
pub open spec fn has_type(tree: Tree, t: TypeTree) -> bool
    decreases tree,
{
    match tree {
        Tree::Integer(_) => t == TypeTree::Integer,
        Tree::Float(_) => t == TypeTree::Float,
        Tree::Boolean(_) => t == TypeTree::Bool,
        Tree::List(items) => match t {
            TypeTree::List(item) => forall|k: int|
                0 <= k < items.len() ==> has_type(#[trigger] items[k], *item),
            _ => false,
        },
        Tree::If(test, if_true, if_false) => {
            &&& has_type(*test, TypeTree::Bool)
            &&& has_type(*if_true, t)
            &&& match if_false {
                Some(other) => has_type(*other, t),
                None => true,
            }
        },
    }
}

/// The type `t` with each variable that `tables` binds replaced by what it
/// is bound to.
pub open spec fn resolved(tables: TablesView, t: TypeTree) -> TypeTree
    decreases t,
{
    match t {
        TypeTree::Var(v) => if 0 <= v < tables.bindings.len() {
            match tables.bindings[v] {
                Some(ty) => type_of(tables, ty.index()),
                None => t,
            }
        } else {
            t
        },
        TypeTree::List(item) => TypeTree::List(Box::new(resolved(tables, *item))),
        _ => t,
    }
}

/// What a stored type stands for after the tables were extended is what it
/// stood for before, with the variables bound since replaced.
pub proof fn lemma_type_of_extends(before: TablesView, after: TablesView, k: int)
    requires
        before.wf(),
        after.wf(),
        extends(before, after),
        0 <= k < before.tys.len(),
    ensures
        type_of(after, k) == resolved(after, type_of(before, k)),
    decreases before.rank[k],
{
    assert(after.tys[k] == before.tys[k]);
    match before.tys[k] {
        TyData::List(item) => {
            lemma_type_of_extends(before, after, item.index());
        },
        TyData::Infer(var) => {
            match before.bindings[var.index()] {
                Some(ty) => {
                    assert(before.bindings[var.index()] is Some);
                    assert(after.bindings[var.index()] == before.bindings[var.index()]);
                    lemma_type_of_extends(before, after, ty.index());
                },
                None => {
                    match after.bindings[var.index()] {
                        Some(ty) => {
                            assert(after.bindings[var.index()] is Some);
                        },
                        None => {},
                    }
                },
            }
        },
        _ => {},
    }
}

/// An expression that has a type has every type that comes of it by
/// binding variables.
pub proof fn lemma_has_type_resolved(tree: Tree, t: TypeTree, tables: TablesView)
    requires
        has_type(tree, t),
    ensures
        has_type(tree, resolved(tables, t)),
    decreases tree,
{
    match tree {
        Tree::List(items) => {
            let item = t->List_0;
            assert forall|k: int| 0 <= k < items.len() implies has_type(
                #[trigger] items[k],
                resolved(tables, *item),
            ) by {
                lemma_has_type_resolved(items[k], *item, tables);
            }
        },
        Tree::If(test, if_true, if_false) => {
            lemma_has_type_resolved(*test, TypeTree::Bool, tables);
            lemma_has_type_resolved(*if_true, t, tables);
            match if_false {
                Some(other) => {
                    lemma_has_type_resolved(*other, t, tables);
                },
                None => {},
            }
        },
        _ => {},
    }
}

/// An expression keeps the type that a stored type stands for when the
/// tables are extended.
pub proof fn lemma_has_type_extends(tree: Tree, before: TablesView, after: TablesView, k: int)
    requires
        before.wf(),
        after.wf(),
        extends(before, after),
        0 <= k < before.tys.len(),
        has_type(tree, type_of(before, k)),
    ensures
        has_type(tree, type_of(after, k)),
{
    lemma_type_of_extends(before, after, k);
    lemma_has_type_resolved(tree, type_of(before, k), after);
}

} // verus!
