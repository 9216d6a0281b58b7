use vstd::prelude::*;

use crate::span::Span;
use crate::tables::{Key, RawKey};

verus! {

/// The key of an expression node in the expression arena.
#[derive(Debug, Copy, Clone, PartialEq, Eq, PartialOrd, Ord, Hash, Structural)]
pub struct Expr {
    raw: RawKey,
}

impl Key for Expr {
    closed spec fn index(&self) -> int {
        self.raw.index()
    }

    closed spec fn at(i: int) -> Expr {
        Expr { raw: RawKey::at(i) }
    }

    proof fn lemma_round_trip(i: int) {
        RawKey::lemma_round_trip(i);
    }

    fn from_usize(key: usize) -> (k: Self) {
        Expr { raw: RawKey::from_usize(key) }
    }

    fn as_usize(&self) -> (i: usize) {
        self.raw.as_usize()
    }

    proof fn lemma_index_injective(a: Self, b: Self) {
        RawKey::lemma_index_injective(a.raw, b.raw);
    }

    proof fn lemma_index_lower_bound(k: Self) {
        RawKey::lemma_index_lower_bound(k.raw);
    }
}

/// An expression node as the arena stores it.
#[derive(Debug)]
pub struct ExprData {
    pub kind: ExprKind,
    pub span: Span,
}

/// The shape of an expression node; sub-expressions are keys into the same
/// arena.
#[derive(Debug)]
pub enum ExprKind {
    /// `42`, `69`, etc
    Integer(u64),
    /// A float literal, kept as the bit pattern of its value.
    Float(u64),
    /// `true`, `false`
    Boolean(bool),
    /// `[]` or `[a, b, ...]`
    List(Vec<Expr>),
    /// A conditional: the test, the branch taken when it holds and, where
    /// there is one, the branch taken when it does not.
    If(Expr, Expr, Option<Expr>),
}

/// An expression as a tree of its own, free of any arena.
pub enum Tree {
    Integer(u64),
    Float(u64),
    Boolean(bool),
    List(Seq<Tree>),
    If(Box<Tree>, Box<Tree>, Option<Box<Tree>>),
}

/// Every sub-expression that a node of kind `kind` names lies at a position
/// below `bound`.
pub open spec fn children_below(kind: ExprKind, bound: int) -> bool {
    match kind {
        ExprKind::List(items) => forall|k: int|
            0 <= k < items@.len() ==> 0 <= (#[trigger] items@[k]).index() < bound,
        ExprKind::If(test, if_true, if_false) => {
            &&& 0 <= test.index() < bound
            &&& 0 <= if_true.index() < bound
            &&& match if_false {
                Some(e) => 0 <= e.index() < bound,
                None => true,
            }
        },
        _ => true,
    }
}

/// Every node of the arena names only nodes stored before it.
pub open spec fn closed(exprs: Seq<ExprData>) -> bool {
    forall|i: int| 0 <= i < exprs.len() ==> children_below((#[trigger] exprs[i]).kind, i)
}

/// The tree that the node at position `i` of the arena stands for. A node
/// named by a sub-expression key that does not lie below `i` counts as an
/// empty list; a closed arena holds no such key.
pub open spec fn tree_of(exprs: Seq<ExprData>, i: int) -> Tree
    decreases i,
{
    if 0 <= i < exprs.len() {
        match exprs[i].kind {
            ExprKind::Integer(n) => Tree::Integer(n),
            ExprKind::Float(bits) => Tree::Float(bits),
            ExprKind::Boolean(b) => Tree::Boolean(b),
            ExprKind::List(items) => Tree::List(
                Seq::new(
                    items@.len(),
                    |k: int|
                        if 0 <= items@[k].index() < i {
                            tree_of(exprs, items@[k].index())
                        } else {
                            Tree::List(Seq::empty())
                        },
                ),
            ),
            ExprKind::If(test, if_true, if_false) => Tree::If(
                Box::new(
                    if 0 <= test.index() < i {
                        tree_of(exprs, test.index())
                    } else {
                        Tree::List(Seq::empty())
                    },
                ),
                Box::new(
                    if 0 <= if_true.index() < i {
                        tree_of(exprs, if_true.index())
                    } else {
                        Tree::List(Seq::empty())
                    },
                ),
                match if_false {
                    Some(e) => Some(
                        Box::new(
                            if 0 <= e.index() < i {
                                tree_of(exprs, e.index())
                            } else {
                                Tree::List(Seq::empty())
                            },
                        ),
                    ),
                    None => None,
                },
            ),
        }
    } else {
        Tree::List(Seq::empty())
    }
}

/// Adding nodes to an arena changes no tree that was already there.
pub proof fn lemma_tree_of_extends(before: Seq<ExprData>, after: Seq<ExprData>, i: int)
    requires
        before.len() <= after.len(),
        forall|j: int| 0 <= j < before.len() ==> after[j] == before[j],
        0 <= i < before.len(),
    ensures
        tree_of(after, i) == tree_of(before, i),
    decreases i,
{
    assert(after[i] == before[i]);
    match before[i].kind {
        ExprKind::List(items) => {
            let a = tree_of(after, i)->List_0;
            let b = tree_of(before, i)->List_0;
            assert forall|k: int| 0 <= k < items@.len() implies a[k] == b[k] by {
                if 0 <= items@[k].index() < i {
                    lemma_tree_of_extends(before, after, items@[k].index());
                }
            }
            assert(a =~= b);
        },
        ExprKind::If(test, if_true, if_false) => {
            if 0 <= test.index() < i {
                lemma_tree_of_extends(before, after, test.index());
            }
            if 0 <= if_true.index() < i {
                lemma_tree_of_extends(before, after, if_true.index());
            }
            match if_false {
                Some(e) => {
                    if 0 <= e.index() < i {
                        lemma_tree_of_extends(before, after, e.index());
                    }
                },
                None => {},
            }
        },
        _ => {},
    }
}

} // verus!
