use vstd::prelude::*;

use super::{Ty, TyData};
use crate::tables::{AllocKey, AllocTable, Key, RawKey, Tables, TablesView};

verus! {

/// The key of a unification variable.
#[derive(Debug, Copy, Clone, PartialEq, Eq, PartialOrd, Ord, Hash, Structural)]
pub struct Infer {
    raw: RawKey,
}

impl Key for Infer {
    closed spec fn index(&self) -> int {
        self.raw.index()
    }

    closed spec fn at(i: int) -> Infer {
        Infer { raw: RawKey::at(i) }
    }

    proof fn lemma_round_trip(i: int) {
        RawKey::lemma_round_trip(i);
    }

    fn from_usize(key: usize) -> (k: Self) {
        Infer { raw: RawKey::from_usize(key) }
    }

    fn as_usize(&self) -> (i: usize) {
        self.raw.as_usize()
    }

    proof fn lemma_index_injective(a: Self, b: Self) {
        RawKey::lemma_index_injective(a.raw, b.raw);
    }

    proof fn lemma_index_lower_bound(k: Self) {
        RawKey::lemma_index_lower_bound(k.raw);
    }
}

/// What the arena records of a unification variable when it is made.
#[derive(Debug, Clone, Copy, PartialEq, Eq, Structural)]
pub enum InferData {
    /// A variable that stands for no type yet. The number is its rank, kept
    /// for balancing merges; every variable starts at rank zero.
    Unbound(u32),
}

/// The unification variables and what each has been bound to. The arena of
/// variables only grows; a binding, once made, is never changed.
pub struct Unification {
    variables: AllocTable<Infer, InferData>,
    bindings: Vec<Option<Ty>>,
}

impl Unification {
    /// The variables made so far, in the order of their making.
    pub closed spec fn variables(&self) -> Seq<InferData> {
        self.variables@
    }

    /// For each variable, the type it is bound to, if any.
    pub closed spec fn bindings(&self) -> Seq<Option<Ty>> {
        self.bindings@
    }

    /// Every variable has an entry among the bindings.
    pub open spec fn wf(&self) -> bool {
        self.bindings().len() == self.variables().len()
    }

    /// A store with no variables.
    pub fn new() -> (u: Self)
        ensures
            u.wf(),
            u.variables() == Seq::<InferData>::empty(),
            u.bindings() == Seq::<Option<Ty>>::empty(),
    {
        Unification { variables: AllocTable::default(), bindings: Vec::new() }
    }

    /// The number of variables made so far.
    pub fn len(&self) -> (n: usize)
        ensures
            n == self.variables().len(),
    {
        self.variables.len()
    }

    /// Makes a fresh, unbound variable of rank zero.
    pub fn mk_var(&mut self) -> (var: Infer)
        requires
            old(self).wf(),
            old(self).variables().len() < RawKey::MAX,
        ensures
            final(self).wf(),
            final(self).variables() == old(self).variables().push(InferData::Unbound(0)),
            final(self).bindings() == old(self).bindings().push(None),
            var.index() == old(self).variables().len(),
    {
        self.add(InferData::Unbound(0))
    }

    /// Makes a fresh variable with the record `data`. It is bound to
    /// nothing.
    pub fn add(&mut self, data: InferData) -> (var: Infer)
        requires
            old(self).wf(),
            old(self).variables().len() < RawKey::MAX,
        ensures
            final(self).wf(),
            final(self).variables() == old(self).variables().push(data),
            final(self).bindings() == old(self).bindings().push(None),
            var.index() == old(self).variables().len(),
    {
        self.bindings.push(None);
        self.variables.add(data)
    }

    /// The record of `var`, which must come from this store.
    pub fn data(&self, var: Infer) -> (data: &InferData)
        requires
            0 <= var.index() < self.variables().len(),
        ensures
            *data == self.variables()[var.index()],
    {
        self.variables.data(var)
    }

    /// What `var` is bound to, if anything.
    pub fn binding(&self, var: Infer) -> (ty: Option<Ty>)
        requires
            self.wf(),
            0 <= var.index() < self.variables().len(),
        ensures
            ty == self.bindings()[var.index()],
    {
        self.bindings[var.as_usize()]
    }

    /// Binds the unbound variable `var` to `ty`.
    pub fn bind(&mut self, var: Infer, ty: Ty)
        requires
            old(self).wf(),
            0 <= var.index() < old(self).variables().len(),
            old(self).bindings()[var.index()] is None,
        ensures
            final(self).wf(),
            final(self).variables() == old(self).variables(),
            final(self).bindings() == old(self).bindings().update(var.index(), Some(ty)),
    {
        self.bindings.set(var.as_usize(), Some(ty));
    }
}

/// The rank that a type of shape `data` gets when it is first stored: one
/// more than the rank of the type it leads to, zero where it leads to none.
pub open spec fn rank_of_new(tables: TablesView, data: TyData) -> nat {
    match data {
        TyData::List(item) => tables.rank[item.index()] + 1,
        TyData::Infer(var) => match tables.bindings[var.index()] {
            Some(ty) => tables.rank[ty.index()] + 1,
            None => 0,
        },
        _ => 0,
    }
}

/// The position of the type that the type at position `k` leads to: the
/// item type of a list, or what a bound variable is bound to.
pub open spec fn next(tables: TablesView, k: int) -> Option<int> {
    if 0 <= k < tables.tys.len() {
        match tables.tys[k] {
            TyData::List(item) => Some(item.index()),
            TyData::Infer(var) => if 0 <= var.index() < tables.bindings.len() {
                match tables.bindings[var.index()] {
                    Some(ty) => Some(ty.index()),
                    None => None,
                }
            } else {
                None
            },
            _ => None,
        }
    } else {
        None
    }
}

/// Whether the variable with index `var` occurs in the type at position
/// `k`, looking through lists and bound variables.
pub open spec fn occurs(tables: TablesView, var: int, k: int) -> bool
    decreases tables.rank[k],
{
    if 0 <= k < tables.tys.len() {
        (tables.tys[k] matches TyData::Infer(w) && w.index() == var) || (match next(tables, k) {
            Some(t) => tables.rank[t] < tables.rank[k] && occurs(tables, var, t),
            None => false,
        })
    } else {
        false
    }
}

/// The tables once the variable with index `var` is bound to `ty`. Every
/// type in which the variable occurs is ranked above `ty`.
pub open spec fn bound(tables: TablesView, var: int, ty: Ty) -> TablesView {
    TablesView {
        bindings: tables.bindings.update(var, Some(ty)),
        rank: Seq::new(
            tables.rank.len(),
            |k: int|
                if occurs(tables, var, k) {
                    tables.rank[k] + tables.rank[ty.index()] + 1
                } else {
                    tables.rank[k]
                },
        ),
        ..tables
    }
}

/// Binding an unbound variable to a type in which it does not occur keeps
/// the tables well formed.
pub proof fn lemma_bound_wf(tables: TablesView, var: int, ty: Ty)
    requires
        tables.wf(),
        0 <= var < tables.infers.len(),
        tables.bindings[var] is None,
        0 <= ty.index() < tables.tys.len(),
        !occurs(tables, var, ty.index()),
    ensures
        bound(tables, var, ty).wf(),
{
    let after = bound(tables, var, ty);
    assert forall|k: int| 0 <= k < after.tys.len() implies match #[trigger] after.tys[k] {
        TyData::List(item) => after.rank[item.index()] < after.rank[k],
        TyData::Infer(w) => match after.bindings[w.index()] {
            Some(t) => after.rank[t.index()] < after.rank[k],
            None => true,
        },
        _ => true,
    } by {
        match tables.tys[k] {
            TyData::List(item) => {
                assert(occurs(tables, var, k) == occurs(tables, var, item.index()));
            },
            TyData::Infer(w) => {
                if w.index() == var {
                    assert(occurs(tables, var, k));
                } else {
                    match tables.bindings[w.index()] {
                        Some(t) => {
                            assert(occurs(tables, var, k) == occurs(tables, var, t.index()));
                        },
                        None => {},
                    }
                }
            },
            _ => {},
        }
    }
    assert forall|i: int| 0 <= i < after.bindings.len() implies match #[trigger] after.bindings[i] {
        Some(t) => 0 <= t.index() < after.tys.len(),
        None => true,
    } by {
        if i != var {
            assert(after.bindings[i] == tables.bindings[i]);
        }
    }
}

/// A type as a tree of its own, with bound variables replaced by what they
/// are bound to. What is left of variables are the unbound ones, by index.
pub enum TypeTree {
    Bool,
    Integer,
    Float,
    List(Box<TypeTree>),
    Var(int),
}

/// The type that the key at position `k` stands for.
pub open spec fn type_of(tables: TablesView, k: int) -> TypeTree
    decreases tables.rank[k],
{
    if 0 <= k < tables.tys.len() {
        match tables.tys[k] {
            TyData::Bool => TypeTree::Bool,
            TyData::Integer => TypeTree::Integer,
            TyData::Float => TypeTree::Float,
            TyData::List(item) => TypeTree::List(
                Box::new(
                    if tables.rank[item.index()] < tables.rank[k] {
                        type_of(tables, item.index())
                    } else {
                        TypeTree::Bool
                    },
                ),
            ),
            TyData::Infer(var) => match next(tables, k) {
                Some(t) => if tables.rank[t] < tables.rank[k] {
                    type_of(tables, t)
                } else {
                    TypeTree::Var(var.index())
                },
                None => TypeTree::Var(var.index()),
            },
        }
    } else {
        TypeTree::Bool
    }
}

/// The key that `ty` stands for once bound variables are followed: `ty`
/// itself, unless it is a bound variable.
pub open spec fn head(tables: TablesView, ty: Ty) -> Ty
    decreases tables.rank[ty.index()],
{
    if 0 <= ty.index() < tables.tys.len() {
        match tables.tys[ty.index()] {
            TyData::Infer(var) => if 0 <= var.index() < tables.bindings.len() {
                match tables.bindings[var.index()] {
                    Some(t) => if tables.rank[t.index()] < tables.rank[ty.index()] {
                        head(tables, t)
                    } else {
                        ty
                    },
                    None => ty,
                }
            } else {
                ty
            },
            _ => ty,
        }
    } else {
        ty
    }
}

/// The tables after the types `a` and `b` are made the same, or nothing
/// where they cannot be. Equal keys are the same type; an unbound variable
/// is bound to the other side unless it occurs there; two lists are the
/// same if their item types can be made the same.
pub open spec fn unified(tables: TablesView, a: Ty, b: Ty) -> Option<TablesView>
    decreases tables.rank[a.index()],
{
    let x = head(tables, a);
    let y = head(tables, b);
    if x == y {
        Some(tables)
    } else {
        match (tables.tys[x.index()], tables.tys[y.index()]) {
            (TyData::Infer(v), _) => if occurs(tables, v.index(), y.index()) {
                None
            } else {
                Some(bound(tables, v.index(), y))
            },
            (_, TyData::Infer(w)) => if occurs(tables, w.index(), x.index()) {
                None
            } else {
                Some(bound(tables, w.index(), x))
            },
            (TyData::List(p), TyData::List(q)) => if tables.rank[p.index()]
                < tables.rank[a.index()] {
                unified(tables, p, q)
            } else {
                None
            },
            _ => None,
        }
    }
}

/// Whether the variable `var` occurs in the type `t`.
pub open spec fn occurs_in(var: int, t: TypeTree) -> bool
    decreases t,
{
    match t {
        TypeTree::Var(w) => w == var,
        TypeTree::List(item) => occurs_in(var, *item),
        _ => false,
    }
}

/// The type `t` with `s` in place of the variable `var`.
pub open spec fn substituted(t: TypeTree, var: int, s: TypeTree) -> TypeTree
    decreases t,
{
    match t {
        TypeTree::Var(w) => if w == var {
            s
        } else {
            t
        },
        TypeTree::List(item) => TypeTree::List(Box::new(substituted(*item, var, s))),
        _ => t,
    }
}

/// Whether the types `a` and `b` can be made the same by binding
/// variables: they are the same already, or where they first differ one
/// side is a variable that does not occur in the other side.
pub open spec fn unifiable(a: TypeTree, b: TypeTree) -> bool
    decreases a,
{
    match (a, b) {
        (TypeTree::Var(v), _) => a == b || !occurs_in(v, b),
        (_, TypeTree::Var(w)) => !occurs_in(w, a),
        (TypeTree::List(x), TypeTree::List(y)) => unifiable(*x, *y),
        (TypeTree::Bool, TypeTree::Bool) => true,
        (TypeTree::Integer, TypeTree::Integer) => true,
        (TypeTree::Float, TypeTree::Float) => true,
        _ => false,
    }
}

/// The binding that makes the unifiable types `a` and `b` the same: a
/// variable and the type to bind it to; nothing where they are the same
/// already.
pub open spec fn unifier(a: TypeTree, b: TypeTree) -> Option<(int, TypeTree)>
    decreases a,
{
    match (a, b) {
        (TypeTree::Var(v), _) => if a == b {
            None
        } else {
            Some((v, b))
        },
        (_, TypeTree::Var(w)) => Some((w, a)),
        (TypeTree::List(x), TypeTree::List(y)) => unifier(*x, *y),
        _ => None,
    }
}

/// The type `t` once the binding `binding`, if any, is made.
pub open spec fn applied(binding: Option<(int, TypeTree)>, t: TypeTree) -> TypeTree {
    match binding {
        Some((var, s)) => substituted(t, var, s),
        None => t,
    }
}

/// Following bound variables ends at a stored key that stands for the same
/// type and is not a bound variable.
pub proof fn lemma_head(tables: TablesView, ty: Ty)
    requires
        tables.wf(),
        0 <= ty.index() < tables.tys.len(),
    ensures
        0 <= head(tables, ty).index() < tables.tys.len(),
        tables.rank[head(tables, ty).index()] <= tables.rank[ty.index()],
        type_of(tables, head(tables, ty).index()) == type_of(tables, ty.index()),
        match tables.tys[head(tables, ty).index()] {
            TyData::Infer(var) => tables.bindings[var.index()] is None,
            _ => true,
        },
    decreases tables.rank[ty.index()],
{
    match tables.tys[ty.index()] {
        TyData::Infer(var) => match tables.bindings[var.index()] {
            Some(t) => {
                assert(tables.bindings[var.index()] is Some);
                lemma_head(tables, t);
            },
            None => {},
        },
        _ => {},
    }
}

/// An unbound variable occurs in a stored type exactly when it occurs in
/// the tree of that type.
pub proof fn lemma_occurs(tables: TablesView, var: int, k: int)
    requires
        tables.wf(),
        0 <= var < tables.infers.len(),
        tables.bindings[var] is None,
        0 <= k < tables.tys.len(),
    ensures
        occurs(tables, var, k) == occurs_in(var, type_of(tables, k)),
    decreases tables.rank[k],
{
    match tables.tys[k] {
        TyData::List(item) => {
            lemma_occurs(tables, var, item.index());
        },
        TyData::Infer(w) => {
            match tables.bindings[w.index()] {
                Some(t) => {
                    assert(tables.bindings[w.index()] is Some);
                    lemma_occurs(tables, var, t.index());
                },
                None => {},
            }
        },
        _ => {},
    }
}

/// Putting a type in place of a variable that does not occur changes
/// nothing.
pub proof fn lemma_substituted_absent(t: TypeTree, var: int, s: TypeTree)
    requires
        !occurs_in(var, t),
    ensures
        substituted(t, var, s) == t,
    decreases t,
{
    match t {
        TypeTree::List(item) => {
            lemma_substituted_absent(*item, var, s);
        },
        _ => {},
    }
}

/// What binding a variable does to the stored types: in the tree of each,
/// the variable gives way to the tree of the type it is bound to.
pub proof fn lemma_bound_substitutes(tables: TablesView, var: int, ty: Ty, k: int)
    requires
        tables.wf(),
        0 <= var < tables.infers.len(),
        tables.bindings[var] is None,
        0 <= ty.index() < tables.tys.len(),
        !occurs(tables, var, ty.index()),
        0 <= k < tables.tys.len(),
    ensures
        type_of(bound(tables, var, ty), k) == substituted(
            type_of(tables, k),
            var,
            type_of(tables, ty.index()),
        ),
    decreases bound(tables, var, ty).rank[k],
{
    let after = bound(tables, var, ty);
    let s = type_of(tables, ty.index());
    lemma_bound_wf(tables, var, ty);
    match tables.tys[k] {
        TyData::List(item) => {
            lemma_bound_substitutes(tables, var, ty, item.index());
        },
        TyData::Infer(w) => {
            if w.index() == var {
                assert(after.bindings[w.index()] == Some(ty));
                lemma_bound_substitutes(tables, var, ty, ty.index());
                lemma_occurs(tables, var, ty.index());
                lemma_substituted_absent(s, var, s);
            } else {
                match tables.bindings[w.index()] {
                    Some(t) => {
                        assert(tables.bindings[w.index()] is Some);
                        assert(after.bindings[w.index()] == Some(t));
                        lemma_bound_substitutes(tables, var, ty, t.index());
                    },
                    None => {
                        assert(after.bindings[w.index()] is None);
                    },
                }
            }
        },
        _ => {},
    }
}

/// A type can be made the same as itself, and no binding is needed for it.
pub proof fn lemma_unifiable_same(t: TypeTree)
    ensures
        unifiable(t, t),
        unifier(t, t) is None,
    decreases t,
{
    match t {
        TypeTree::List(item) => {
            lemma_unifiable_same(*item);
        },
        _ => {},
    }
}

/// Making two stored types the same succeeds exactly when their trees can
/// be made the same. It then changes nothing but bindings and ranks, keeps
/// the tables well formed, and turns the tree of every stored type into
/// what the unifying binding makes of it.
pub proof fn lemma_unified(tables: TablesView, a: Ty, b: Ty)
    requires
        tables.wf(),
        0 <= a.index() < tables.tys.len(),
        0 <= b.index() < tables.tys.len(),
    ensures
        unified(tables, a, b) is Some <==> unifiable(
            type_of(tables, a.index()),
            type_of(tables, b.index()),
        ),
        match unified(tables, a, b) {
            Some(after) => {
                &&& after.wf()
                &&& after == (TablesView { bindings: after.bindings, rank: after.rank, ..tables })
                &&& after.bindings.len() == tables.bindings.len()
                &&& forall|v: int|
                    0 <= v < tables.bindings.len() && tables.bindings[v] is Some
                        ==> #[trigger] after.bindings[v] == tables.bindings[v]
                &&& forall|k: int|
                    0 <= k < tables.tys.len() ==> #[trigger] type_of(after, k) == applied(
                        unifier(type_of(tables, a.index()), type_of(tables, b.index())),
                        type_of(tables, k),
                    )
            },
            None => true,
        },
    decreases tables.rank[a.index()],
{
    let x = head(tables, a);
    let y = head(tables, b);
    lemma_head(tables, a);
    lemma_head(tables, b);
    let ta = type_of(tables, x.index());
    let tb = type_of(tables, y.index());
    if x == y {
        lemma_unifiable_same(ta);
    } else {
        if x.index() == y.index() {
            Ty::lemma_index_injective(x, y);
        }
        assert(tables.tys[x.index()] != tables.tys[y.index()]);
        match (tables.tys[x.index()], tables.tys[y.index()]) {
            (TyData::Infer(v), other) => {
                if let TyData::Infer(w) = other {
                    if w.index() == v.index() {
                        Infer::lemma_index_injective(v, w);
                    }
                }
                assert(ta == TypeTree::Var(v.index()));
                assert(ta != tb);
                lemma_occurs(tables, v.index(), y.index());
                if !occurs(tables, v.index(), y.index()) {
                    lemma_bound_wf(tables, v.index(), y);
                    let after = bound(tables, v.index(), y);
                    assert forall|k: int| 0 <= k < tables.tys.len() implies #[trigger] type_of(
                        after,
                        k,
                    ) == substituted(type_of(tables, k), v.index(), tb) by {
                        lemma_bound_substitutes(tables, v.index(), y, k);
                    }
                }
            },
            (_, TyData::Infer(w)) => {
                assert(tb == TypeTree::Var(w.index()));
                lemma_occurs(tables, w.index(), x.index());
                if !occurs(tables, w.index(), x.index()) {
                    lemma_bound_wf(tables, w.index(), x);
                    let after = bound(tables, w.index(), x);
                    assert forall|k: int| 0 <= k < tables.tys.len() implies #[trigger] type_of(
                        after,
                        k,
                    ) == substituted(type_of(tables, k), w.index(), ta) by {
                        lemma_bound_substitutes(tables, w.index(), x, k);
                    }
                }
            },
            (TyData::List(p), TyData::List(q)) => {
                lemma_unified(tables, p, q);
            },
            _ => {},
        }
    }
}

/// The binding that unifies two types makes of both the same type.
pub proof fn lemma_unifier_unifies(a: TypeTree, b: TypeTree)
    requires
        unifiable(a, b),
    ensures
        applied(unifier(a, b), a) == applied(unifier(a, b), b),
    decreases a,
{
    match (a, b) {
        (TypeTree::Var(v), _) => {
            if a != b {
                lemma_substituted_absent(b, v, b);
            }
        },
        (_, TypeTree::Var(w)) => {
            lemma_substituted_absent(a, w, a);
        },
        (TypeTree::List(x), TypeTree::List(y)) => {
            lemma_unifier_unifies(*x, *y);
        },
        _ => {},
    }
}

/// A stored list type stands for the lists of what its item type stands
/// for.
pub proof fn lemma_type_of_list(tables: TablesView, list: Ty, item: Ty)
    requires
        tables.wf(),
        0 <= list.index() < tables.tys.len(),
        tables.tys[list.index()] == TyData::List(item),
    ensures
        type_of(tables, list.index()) == TypeTree::List(Box::new(type_of(tables, item.index()))),
{
}

/// Whether no bound variable stands in the type at position `k`, looking
/// through lists.
pub open spec fn settled(tables: TablesView, k: int) -> bool
    decreases tables.rank[k],
{
    if 0 <= k < tables.tys.len() {
        match tables.tys[k] {
            TyData::List(item) => tables.rank[item.index()] < tables.rank[k] && settled(
                tables,
                item.index(),
            ),
            TyData::Infer(var) => next(tables, k) is None,
            _ => true,
        }
    } else {
        false
    }
}

/// Types are stored once: two keys that stand for the same type, with no
/// bound variable in it, are the same key. To compare such types is to
/// compare their keys.
pub proof fn lemma_same_type_same_key(tables: TablesView, a: Ty, b: Ty)
    requires
        tables.wf(),
        settled(tables, a.index()),
        settled(tables, b.index()),
        type_of(tables, a.index()) == type_of(tables, b.index()),
    ensures
        a == b,
    decreases tables.rank[a.index()],
{
    match (tables.tys[a.index()], tables.tys[b.index()]) {
        (TyData::List(x), TyData::List(y)) => {
            lemma_same_type_same_key(tables, x, y);
        },
        (TyData::Infer(v), TyData::Infer(w)) => {
            Infer::lemma_index_injective(v, w);
        },
        _ => {},
    }
    assert(tables.tys[a.index()] == tables.tys[b.index()]);
    Ty::lemma_index_injective(a, b);
}

/// Follows bound variables from `ty` to the key it stands for.
pub fn resolve(tables: &Tables, ty: Ty) -> (found: Ty)
    requires
        tables.wf(),
        0 <= ty.index() < tables@.tys.len(),
    ensures
        found == head(tables@, ty),
{
    proof {
        tables.lemma_wf();
    }
    let mut current = ty;
    loop
        invariant
            tables.wf(),
            tables@.wf(),
            0 <= current.index() < tables@.tys.len(),
            head(tables@, current) == head(tables@, ty),
        decreases tables@.rank[current.index()],
    {
        match *tables.data(current) {
            TyData::Infer(var) => match tables.binding(var) {
                Some(next) => {
                    assert(tables@.bindings[var.index()] is Some);
                    current = next;
                },
                None => {
                    return current;
                },
            },
            _ => {
                return current;
            },
        }
    }
}

/// Decides whether the variable `var` occurs in the type `ty`.
pub fn occurs_check(tables: &Tables, var: Infer, ty: Ty) -> (found: bool)
    requires
        tables.wf(),
        0 <= ty.index() < tables@.tys.len(),
    ensures
        found == occurs(tables@, var.index(), ty.index()),
    decreases tables@.rank[ty.index()],
{
    proof {
        tables.lemma_wf();
    }
    match *tables.data(ty) {
        TyData::Infer(w) => {
            if w == var {
                true
            } else {
                proof {
                    if w.index() == var.index() {
                        Infer::lemma_index_injective(w, var);
                    }
                }
                match tables.binding(w) {
                    Some(next) => {
                        assert(tables@.bindings[w.index()] is Some);
                        occurs_check(tables, var, next)
                    },
                    None => false,
                }
            }
        },
        TyData::List(item) => occurs_check(tables, var, item),
        _ => false,
    }
}

/// Makes the types `a` and `b` the same by binding at most one variable,
/// and says whether that could be done. Where it could not, the tables are
/// left as they were.
pub fn unify(tables: &mut Tables, a: Ty, b: Ty) -> (ok: bool)
    requires
        old(tables).wf(),
        0 <= a.index() < old(tables)@.tys.len(),
        0 <= b.index() < old(tables)@.tys.len(),
    ensures
        final(tables).wf(),
        match unified(old(tables)@, a, b) {
            Some(after) => ok && final(tables)@ == after,
            None => !ok && final(tables)@ == old(tables)@,
        },
    decreases old(tables)@.rank[a.index()],
{
    proof {
        tables.lemma_wf();
        lemma_head(tables@, a);
        lemma_head(tables@, b);
    }
    let x = resolve(tables, a);
    let y = resolve(tables, b);
    if x == y {
        return true;
    }
    let left = *tables.data(x);
    let right = *tables.data(y);
    match (left, right) {
        (TyData::Infer(v), _) => {
            if occurs_check(tables, v, y) {
                false
            } else {
                tables.bind(v, y);
                true
            }
        },
        (_, TyData::Infer(w)) => {
            if occurs_check(tables, w, x) {
                false
            } else {
                tables.bind(w, x);
                true
            }
        },
        (TyData::List(p), TyData::List(q)) => unify(tables, p, q),
        _ => false,
    }
}

} // verus!
