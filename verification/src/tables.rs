//! Arena storage: keys, append-only tables, the interning table, and the
//! aggregate of the arenas that one run works on.

pub mod arena;
pub mod debug;
pub mod intern;
pub mod key;

pub use arena::AllocTable;
pub use debug::{DebugWith, Printer};
pub use intern::{InternCode, InternTable};
pub use key::{Key, RawKey};

use vstd::prelude::*;

use crate::syntax::expr::{children_below, closed};
use crate::syntax::{Expr, ExprData};
use crate::tables::intern::interned;
use crate::type_checker::unify::{bound, lemma_bound_wf, occurs, rank_of_new};
use crate::type_checker::{Infer, InferData, Ty, TyData, Unification};

verus! {

/// The arenas of one run, one for each kind of node.
pub struct RawTables {
    pub exprs: AllocTable<Expr, ExprData>,
    pub tys: InternTable<Ty, TyData>,
    pub infers: Unification,
}

/// The handle through which nodes of every kind are added and read. It is
/// handed, mutably, to whatever builds nodes.
pub struct Tables {
    raw: RawTables,
    rank: Ghost<Seq<nat>>,
}

/// What the tables hold, as plain sequences in key order.
pub struct TablesView {
    /// The expression nodes.
    pub exprs: Seq<ExprData>,
    /// The distinct types.
    pub tys: Seq<TyData>,
    /// The unification variables.
    pub infers: Seq<InferData>,
    /// For each unification variable, the type it is bound to, if any.
    pub bindings: Seq<Option<Ty>>,
    /// For each type, a number greater than that of the type it leads to:
    /// the item type of a list, or what a bound variable is bound to. That
    /// such numbers exist is what it means that no type contains itself.
    pub rank: Seq<nat>,
}

/// Every part that a type of shape `data` names exists: a list's item type
/// lies below `bound` in the type arena, a variable is one of the first
/// `variables` variables.
pub open spec fn parts_below(data: TyData, bound: int, variables: int) -> bool {
    match data {
        TyData::List(item) => 0 <= item.index() < bound,
        TyData::Infer(var) => 0 <= var.index() < variables,
        _ => true,
    }
}

impl TablesView {
    /// The invariant of the tables: no arena holds more nodes than there are
    /// keys, every node names only nodes stored before it, every variable in
    /// a type exists, every binding names a stored type, and no type
    /// contains itself.
    pub open spec fn wf(self) -> bool {
        &&& self.exprs.len() <= RawKey::MAX
        &&& closed(self.exprs)
        &&& self.tys.len() <= RawKey::MAX
        &&& self.tys.no_duplicates()
        &&& forall|i: int|
            0 <= i < self.tys.len() ==> parts_below(
                #[trigger] self.tys[i],
                i,
                self.infers.len() as int,
            )
        &&& self.infers.len() <= RawKey::MAX
        &&& self.bindings.len() == self.infers.len()
        &&& forall|i: int|
            0 <= i < self.bindings.len() ==> match #[trigger] self.bindings[i] {
                Some(ty) => 0 <= ty.index() < self.tys.len(),
                None => true,
            }
        &&& self.rank.len() == self.tys.len()
        &&& forall|k: int|
            0 <= k < self.tys.len() ==> match #[trigger] self.tys[k] {
                TyData::List(item) => self.rank[item.index()] < self.rank[k],
                TyData::Infer(var) => match self.bindings[var.index()] {
                    Some(ty) => self.rank[ty.index()] < self.rank[k],
                    None => true,
                },
                _ => true,
            }
    }
}

impl View for Tables {
    type V = TablesView;

    closed spec fn view(&self) -> TablesView {
        TablesView {
            exprs: self.raw.exprs@,
            tys: self.raw.tys@,
            infers: self.raw.infers.variables(),
            bindings: self.raw.infers.bindings(),
            rank: self.rank@,
        }
    }
}

impl Default for Tables {
    fn default() -> (tables: Self)
        ensures
            tables.wf(),
            tables@.exprs == Seq::<ExprData>::empty(),
            tables@.tys == Seq::<TyData>::empty(),
            tables@.infers == Seq::<InferData>::empty(),
            tables@.bindings == Seq::<Option<Ty>>::empty(),
            tables@.rank == Seq::<nat>::empty(),
    {
        Tables {
            raw: RawTables {
                exprs: AllocTable::default(),
                tys: InternTable::default(),
                infers: Unification::new(),
            },
            rank: Ghost(Seq::empty()),
        }
    }
}

impl Tables {
    /// The tables' invariant; see [`TablesView::wf`].
    pub closed spec fn wf(&self) -> bool {
        &&& self@.wf()
        &&& self.raw.tys.wf()
    }

    /// What well-formed tables guarantee of their contents.
    pub proof fn lemma_wf(&self)
        requires
            self.wf(),
        ensures
            self@.wf(),
    {
    }

    /// The arenas, to read from.
    pub fn raw(&self) -> (raw: &RawTables)
        ensures
            raw.exprs@ == self@.exprs,
            raw.tys@ == self@.tys,
            raw.infers.variables() == self@.infers,
            raw.infers.bindings() == self@.bindings,
    {
        &self.raw
    }

    /// Adds `value` to the arena of its kind and returns its key.
    pub fn add<V: AllocValue>(&mut self, value: V) -> (key: V::Key)
        requires
            old(self).wf(),
            value.fits(old(self)@),
        ensures
            final(self).wf(),
            value.added(old(self)@, final(self)@, key),
    {
        value.add(self)
    }

    /// The node stored under `key` in the arena of its kind.
    pub fn data<K: AllocKey>(&self, key: K) -> (value: &K::Value)
        requires
            key.known(self@),
        ensures
            *value == key.value(self@),
    {
        key.data(self)
    }

    /// The number of expression nodes stored.
    pub fn expr_count(&self) -> (n: usize)
        ensures
            n == self@.exprs.len(),
    {
        self.raw.exprs.len()
    }

    /// The number of distinct types stored.
    pub fn ty_count(&self) -> (n: usize)
        ensures
            n == self@.tys.len(),
    {
        self.raw.tys.len()
    }

    /// The number of unification variables made.
    pub fn infer_count(&self) -> (n: usize)
        ensures
            n == self@.infers.len(),
    {
        self.raw.infers.len()
    }

    /// Makes a fresh, unbound unification variable.
    pub fn mk_var(&mut self) -> (var: Infer)
        requires
            old(self).wf(),
            old(self)@.infers.len() < RawKey::MAX,
        ensures
            final(self).wf(),
            final(self)@ == (TablesView {
                infers: old(self)@.infers.push(InferData::Unbound(0)),
                bindings: old(self)@.bindings.push(None),
                ..old(self)@
            }),
            var.index() == old(self)@.infers.len(),
    {
        self.raw.infers.mk_var()
    }

    /// What the variable `var` is bound to, if anything.
    pub fn binding(&self, var: Infer) -> (ty: Option<Ty>)
        requires
            self.wf(),
            0 <= var.index() < self@.infers.len(),
        ensures
            ty == self@.bindings[var.index()],
    {
        self.raw.infers.binding(var)
    }

    /// Binds the unbound variable `var` to the stored type `ty`, in which
    /// `var` must not occur.
    pub fn bind(&mut self, var: Infer, ty: Ty)
        requires
            old(self).wf(),
            0 <= var.index() < old(self)@.infers.len(),
            old(self)@.bindings[var.index()] is None,
            0 <= ty.index() < old(self)@.tys.len(),
            !occurs(old(self)@, var.index(), ty.index()),
        ensures
            final(self).wf(),
            final(self)@ == bound(old(self)@, var.index(), ty),
    {
        proof {
            lemma_bound_wf(self@, var.index(), ty);
        }
        let ghost before = self@;
        self.raw.infers.bind(var, ty);
        self.rank = Ghost(bound(before, var.index(), ty).rank);
    }
}

/// A node that the tables can store: it knows which arena is its own.
pub trait AllocValue: Sized {
    /// The kind of key that this kind of node gets.
    type Key;

    /// Whether tables holding `tables` can take this node: its arena has a
    /// key left and every node it names is stored.
    spec fn fits(&self, tables: TablesView) -> bool;

    /// How adding this node under `key` turns the contents `before` into
    /// `after`.
    spec fn added(&self, before: TablesView, after: TablesView, key: Self::Key) -> bool;

    /// Adds this node to its arena in `tables`.
    fn add(self, tables: &mut Tables) -> (key: Self::Key)
        requires
            old(tables).wf(),
            self.fits(old(tables)@),
        ensures
            final(tables).wf(),
            self.added(old(tables)@, final(tables)@, key),
    ;
}

/// A key that the tables can look up: it knows which arena is its own.
pub trait AllocKey: Sized {
    /// The kind of node that this kind of key stands for.
    type Value;

    /// Whether this key names a node stored in `tables`.
    spec fn known(&self, tables: TablesView) -> bool;

    /// The node that this key names in `tables`.
    spec fn value(&self, tables: TablesView) -> Self::Value;

    /// Reads the node that this key names in `tables`.
    fn data(self, tables: &Tables) -> (value: &Self::Value)
        requires
            self.known(tables@),
        ensures
            *value == self.value(tables@),
    ;
}

impl AllocValue for ExprData {
    type Key = Expr;

    open spec fn fits(&self, tables: TablesView) -> bool {
        &&& tables.exprs.len() < RawKey::MAX
        &&& children_below(self.kind, tables.exprs.len() as int)
    }

    open spec fn added(&self, before: TablesView, after: TablesView, key: Expr) -> bool {
        &&& after == (TablesView { exprs: before.exprs.push(*self), ..before })
        &&& key.index() == before.exprs.len()
    }

    fn add(self, tables: &mut Tables) -> (key: Expr) {
        tables.raw.exprs.add(self)
    }
}

impl AllocKey for Expr {
    type Value = ExprData;

    open spec fn known(&self, tables: TablesView) -> bool {
        0 <= self.index() < tables.exprs.len()
    }

    open spec fn value(&self, tables: TablesView) -> ExprData {
        tables.exprs[self.index()]
    }

    fn data(self, tables: &Tables) -> (value: &ExprData) {
        tables.raw.exprs.data(self)
    }
}

impl AllocValue for TyData {
    type Key = Ty;

    open spec fn fits(&self, tables: TablesView) -> bool {
        &&& tables.tys.contains(*self) || tables.tys.len() < RawKey::MAX
        &&& parts_below(*self, tables.tys.len() as int, tables.infers.len() as int)
    }

    open spec fn added(&self, before: TablesView, after: TablesView, key: Ty) -> bool {
        &&& after == (TablesView {
            tys: interned(before.tys, *self).0,
            rank: if before.tys.contains(*self) {
                before.rank
            } else {
                before.rank.push(rank_of_new(before, *self))
            },
            ..before
        })
        &&& key.index() == interned(before.tys, *self).1
    }

    fn add(self, tables: &mut Tables) -> (key: Ty) {
        let ghost before = tables@;
        let key = tables.raw.tys.add(self);
        tables.rank = Ghost(
            if before.tys.contains(self) {
                before.rank
            } else {
                before.rank.push(rank_of_new(before, self))
            },
        );
        key
    }
}

impl AllocKey for Ty {
    type Value = TyData;

    open spec fn known(&self, tables: TablesView) -> bool {
        0 <= self.index() < tables.tys.len()
    }

    open spec fn value(&self, tables: TablesView) -> TyData {
        tables.tys[self.index()]
    }

    fn data(self, tables: &Tables) -> (value: &TyData) {
        tables.raw.tys.data(self)
    }
}

impl AllocValue for InferData {
    type Key = Infer;

    open spec fn fits(&self, tables: TablesView) -> bool {
        tables.infers.len() < RawKey::MAX
    }

    open spec fn added(&self, before: TablesView, after: TablesView, key: Infer) -> bool {
        &&& after == (TablesView {
            infers: before.infers.push(*self),
            bindings: before.bindings.push(None),
            ..before
        })
        &&& key.index() == before.infers.len()
    }

    fn add(self, tables: &mut Tables) -> (key: Infer) {
        tables.raw.infers.add(self)
    }
}

impl AllocKey for Infer {
    type Value = InferData;

    open spec fn known(&self, tables: TablesView) -> bool {
        0 <= self.index() < tables.infers.len()
    }

    open spec fn value(&self, tables: TablesView) -> InferData {
        tables.infers[self.index()]
    }

    fn data(self, tables: &Tables) -> (value: &InferData) {
        tables.raw.infers.data(self)
    }
}

} // verus!
