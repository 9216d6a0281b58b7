use indexmap::IndexSet;
use rustc_hash::FxHasher;
use std::hash::BuildHasherDefault;
use std::marker::PhantomData;
use vstd::prelude::*;

use super::key::{Key, RawKey};

verus! {

/// `indexmap::IndexSet`, held as an opaque value.
#[verifier::external_type_specification]
#[verifier::external_body]
#[verifier::reject_recursive_types(T)]
#[verifier::reject_recursive_types(S)]
pub struct ExIndexSet<T, S>(IndexSet<T, S>);

/// `rustc_hash::FxHasher`, held as an opaque value.
#[verifier::external_type_specification]
#[verifier::external_body]
pub struct ExFxHasher(FxHasher);

/// `std::hash::BuildHasherDefault`, held as an opaque value.
#[verifier::external_type_specification]
#[verifier::external_body]
#[verifier::reject_recursive_types(H)]
pub struct ExBuildHasherDefault<H>(BuildHasherDefault<H>);

/// The items of an index set, in the order of their first insertion.
pub uninterp spec fn set_items(set: IndexSet<u64, BuildHasherDefault<FxHasher>>) -> Seq<u64>;

/// `IndexSet::default`: a fresh set holds no items.
#[verifier::external_body]
fn set_new() -> (set: IndexSet<u64, BuildHasherDefault<FxHasher>>)
    ensures
        set_items(set) == Seq::<u64>::empty(),
{
    IndexSet::default()
}

/// `IndexSet::insert_full`: where the set already holds `item`, the set is
/// left as it is and the result is the position of `item` and `false`;
/// otherwise `item` is put last and the result is its position and `true`.
#[verifier::external_body]
fn set_insert_full(set: &mut IndexSet<u64, BuildHasherDefault<FxHasher>>, item: u64) -> (r: (
    usize,
    bool,
))
    ensures
        set_items(*old(set)).contains(item) ==> {
            &&& !r.1
            &&& set_items(*final(set)) == set_items(*old(set))
            &&& r.0 < set_items(*old(set)).len()
            &&& set_items(*old(set))[r.0 as int] == item
        },
        !set_items(*old(set)).contains(item) ==> {
            &&& r.1
            &&& set_items(*final(set)) == set_items(*old(set)).push(item)
            &&& r.0 == set_items(*old(set)).len()
        },
{
    set.insert_full(item)
}

/// A value that an [`InternTable`] can hold: it has a number, its code, that
/// no different value shares. The table tells values apart by their codes.
pub trait InternCode: Sized {
    /// The code of this value.
    spec fn code(&self) -> int;

    /// Computes the code of this value.
    fn encode(&self) -> (c: u64)
        ensures
            c == self.code(),
    ;

    /// Values with the same code are the same value.
    proof fn lemma_code_injective(a: Self, b: Self)
        requires
            a.code() == b.code(),
        ensures
            a == b,
    ;
}

/// What interning `value` into a table holding `items` gives: the new
/// contents and the position of `value` in them.
pub open spec fn interned<V>(items: Seq<V>, value: V) -> (Seq<V>, int) {
    if items.contains(value) {
        (items, items.index_of(value))
    } else {
        (items.push(value), items.len() as int)
    }
}

/// The contents of a table after interning each of `values`, in turn, into a
/// table holding `items`.
pub open spec fn interned_all<V>(items: Seq<V>, values: Seq<V>) -> Seq<V>
    decreases values.len(),
{
    if values.len() == 0 {
        items
    } else {
        interned_all(interned(items, values[0]).0, values.drop_first())
    }
}

/// The position at which `value` first occurs in `values`; the length of
/// `values` where it does not occur.
pub open spec fn first_index<V>(values: Seq<V>, value: V) -> int
    decreases values.len(),
{
    if values.len() == 0 {
        0
    } else if values[0] == value {
        0
    } else {
        1 + first_index(values.drop_first(), value)
    }
}

/// Interning keeps what is stored in place, stores nothing twice, and leaves
/// the interned value in the table at the position returned.
pub proof fn lemma_interned<V>(items: Seq<V>, value: V)
    requires
        items.no_duplicates(),
    ensures
        interned(items, value).0.no_duplicates(),
        items.len() <= interned(items, value).0.len(),
        forall|i: int| 0 <= i < items.len() ==> interned(items, value).0[i] == items[i],
        0 <= interned(items, value).1 < interned(items, value).0.len(),
        interned(items, value).0[interned(items, value).1] == value,
        forall|v: V| #[trigger]
            interned(items, value).0.contains(v) <==> items.contains(v) || v == value,
{
    let after = interned(items, value).0;
    if items.contains(value) {
    } else {
        assert forall|v: V| #[trigger] after.contains(v) implies items.contains(v) || v
            == value by {
            let i = choose|i: int| 0 <= i < after.len() && after[i] == v;
            if i < items.len() {
                assert(items[i] == v);
            }
        }
        assert forall|v: V| items.contains(v) || v == value implies #[trigger] after.contains(
            v,
        ) by {
            if v == value {
                assert(after[items.len() as int] == v);
            } else {
                let i = choose|i: int| 0 <= i < items.len() && items[i] == v;
                assert(after[i] == v);
            }
        }
    }
}

/// Equal values get the same key: interning a value a second time returns
/// the key of the first time and stores nothing, whatever was interned in
/// between.
pub proof fn lemma_equal_values_share_key<V>(items: Seq<V>, value: V, between: Seq<V>)
    requires
        items.no_duplicates(),
    ensures
        ({
            let first = interned(items, value);
            let later = interned(interned_all(first.0, between), value);
            later.1 == first.1 && later.0 == interned_all(first.0, between)
        }),
{
    let first = interned(items, value);
    lemma_interned(items, value);
    lemma_interned_all(first.0, between);
    let grown = interned_all(first.0, between);
    assert(grown[first.1] == value);
    assert(grown.contains(value));
}

/// Different values get different keys, whatever is interned between them.
pub proof fn lemma_different_values_differ_in_key<V>(
    items: Seq<V>,
    a: V,
    between: Seq<V>,
    b: V,
)
    requires
        items.no_duplicates(),
        a != b,
    ensures
        ({
            let first = interned(items, a);
            let second = interned(interned_all(first.0, between), b);
            first.1 != second.1
        }),
{
    let first = interned(items, a);
    lemma_interned(items, a);
    lemma_interned_all(first.0, between);
    let grown = interned_all(first.0, between);
    lemma_interned(grown, b);
    let second = interned(grown, b);
    assert(second.0[first.1] == a);
}

/// Interning a run of values keeps what is stored in place, stores nothing
/// twice, and leaves in the table what was there and what was interned.
pub proof fn lemma_interned_all<V>(items: Seq<V>, values: Seq<V>)
    requires
        items.no_duplicates(),
    ensures
        interned_all(items, values).no_duplicates(),
        items.len() <= interned_all(items, values).len(),
        forall|i: int| 0 <= i < items.len() ==> interned_all(items, values)[i] == items[i],
        forall|v: V| #[trigger]
            interned_all(items, values).contains(v) <==> items.contains(v) || values.contains(v),
    decreases values.len(),
{
    if values.len() > 0 {
        let next = interned(items, values[0]).0;
        let rest = values.drop_first();
        lemma_interned(items, values[0]);
        lemma_interned_all(next, rest);
        let all = interned_all(items, values);
        assert forall|v: V| #[trigger] all.contains(v) implies items.contains(v)
            || values.contains(v) by {
            if next.contains(v) {
                if !items.contains(v) {
                    assert(values[0] == v);
                }
            } else {
                let i = choose|i: int| 0 <= i < rest.len() && rest[i] == v;
                assert(values[i + 1] == v);
            }
        }
        assert forall|v: V| items.contains(v) || values.contains(v) implies #[trigger] all.contains(
            v,
        ) by {
            if !items.contains(v) {
                let i = choose|i: int| 0 <= i < values.len() && values[i] == v;
                if i == 0 {
                    assert(next.contains(v));
                } else {
                    assert(rest[i - 1] == v);
                }
            }
        }
    }
}

/// Key order is the order of first insertion: of two values interned into
/// an empty table, the one that occurs first among the insertions has the
/// smaller key.
pub proof fn lemma_key_order_is_first_insertion_order<V>(values: Seq<V>, a: V, b: V)
    requires
        values.contains(a),
        values.contains(b),
    ensures
        ({
            let table = interned_all(Seq::<V>::empty(), values);
            &&& table.contains(a)
            &&& table.contains(b)
            &&& (table.index_of(a) < table.index_of(b) <==> first_index(values, a) < first_index(
                values,
                b,
            ))
        }),
{
    lemma_interned_all(Seq::<V>::empty(), values);
    lemma_new_values_keep_order(Seq::<V>::empty(), values, a, b);
}

/// A value that occurs among `values` has a first occurrence there.
proof fn lemma_first_index<V>(values: Seq<V>, value: V)
    requires
        values.contains(value),
    ensures
        0 <= first_index(values, value) < values.len(),
        values[first_index(values, value)] == value,
    decreases values.len(),
{
    if values[0] != value {
        let i = choose|i: int| 0 <= i < values.len() && values[i] == value;
        assert(values.drop_first()[i - 1] == value);
        lemma_first_index(values.drop_first(), value);
    }
}

/// Of two values that are new to the table, the one interned first gets
/// the smaller position.
proof fn lemma_new_values_keep_order<V>(items: Seq<V>, values: Seq<V>, a: V, b: V)
    requires
        items.no_duplicates(),
        values.contains(a),
        values.contains(b),
        !items.contains(a),
        !items.contains(b),
    ensures
        ({
            let table = interned_all(items, values);
            &&& table.contains(a)
            &&& table.contains(b)
            &&& (table.index_of(a) < table.index_of(b) <==> first_index(values, a) < first_index(
                values,
                b,
            ))
        }),
    decreases values.len(),
{
    let table = interned_all(items, values);
    lemma_interned_all(items, values);
    lemma_first_index(values, a);
    lemma_first_index(values, b);
    let x = values[0];
    let next = interned(items, x).0;
    let rest = values.drop_first();
    lemma_interned(items, x);
    lemma_interned_all(next, rest);
    let at = items.len() as int;
    assert(table == interned_all(next, rest));
    assert(table.contains(a) && table.contains(b));
    if a == b {
    } else if a == x {
        assert(table[at] == a);
        assert(table.index_of(a) == at);
        assert(!next.contains(b));
        let j = table.index_of(b);
        assert(0 <= j < table.len() && table[j] == b);
        if j < next.len() {
            assert(next[j] == table[j]);
        }
    } else if b == x {
        assert(table[at] == b);
        assert(table.index_of(b) == at);
        assert(!next.contains(a));
        let j = table.index_of(a);
        assert(0 <= j < table.len() && table[j] == a);
        if j < next.len() {
            assert(next[j] == table[j]);
        }
    } else {
        let i = choose|i: int| 0 <= i < values.len() && values[i] == a;
        assert(i > 0 && rest[i - 1] == a);
        let j = choose|j: int| 0 <= j < values.len() && values[j] == b;
        assert(j > 0 && rest[j - 1] == b);
        assert(!next.contains(a) && !next.contains(b));
        lemma_new_values_keep_order(next, rest, a, b);
    }
}

/// An arena that stores each distinct value once: adding a value that is
/// already stored returns the key it was first given.
pub struct InternTable<K, V> {
    values: Vec<V>,
    index: IndexSet<u64, BuildHasherDefault<FxHasher>>,
    marker: PhantomData<K>,
}

impl<K, V> View for InternTable<K, V> {
    type V = Seq<V>;

    closed spec fn view(&self) -> Seq<V> {
        self.values@
    }
}

impl<K, V: InternCode> InternTable<K, V> {
    /// The table's invariant: no value is stored twice, every stored value
    /// has a key, and the hash index holds the codes of the stored values in
    /// the same order.
    pub closed spec fn wf(&self) -> bool {
        &&& self.values@.no_duplicates()
        &&& self.values@.len() <= RawKey::MAX
        &&& set_items(self.index).len() == self.values@.len()
        &&& forall|i: int|
            0 <= i < self.values@.len() ==> #[trigger] set_items(self.index)[i]
                == self.values@[i].code()
    }

    /// A well-formed table holds no value twice and no more values than
    /// there are keys.
    pub proof fn lemma_wf(&self)
        requires
            self.wf(),
        ensures
            self@.no_duplicates(),
            self@.len() <= RawKey::MAX,
    {
    }
}

impl<K, V: InternCode> Default for InternTable<K, V> {
    fn default() -> (table: Self)
        ensures
            table@ == Seq::<V>::empty(),
            table.wf(),
    {
        Self { values: Vec::new(), index: set_new(), marker: PhantomData }
    }
}

impl<K: Key, V: InternCode> InternTable<K, V> {
    /// The number of distinct values stored.
    pub fn len(&self) -> (n: usize)
        ensures
            n == self@.len(),
    {
        self.values.len()
    }

    /// Interns `value`: returns the key of the equal value already stored,
    /// or stores `value` last and returns its new key. A new value needs a
    /// free key.
    pub fn add(&mut self, value: V) -> (key: K)
        requires
            old(self).wf(),
            old(self)@.contains(value) || old(self)@.len() < RawKey::MAX,
        ensures
            final(self).wf(),
            (final(self)@, key.index()) == interned(old(self)@, value),
    {
        let code = value.encode();
        let ghost items = set_items(self.index);
        let ghost stored = self.values@;
        proof {
            if stored.contains(value) {
                let i = stored.index_of(value);
                assert(items[i] == code);
            }
            if items.contains(code) {
                let i = choose|i: int| 0 <= i < items.len() && items[i] == code;
                V::lemma_code_injective(stored[i], value);
            }
        }
        let (position, fresh) = set_insert_full(&mut self.index, code);
        if fresh {
            self.values.push(value);
            proof {
                let now = self.values@;
                assert forall|i: int, j: int|
                    0 <= i < now.len() && 0 <= j < now.len() && i != j implies now[i] != now[j] by {
                    if now[i] == now[j] {
                        if i == stored.len() {
                            assert(stored[j] == value);
                        } else if j == stored.len() {
                            assert(stored[i] == value);
                        }
                    }
                }
            }
        } else {
            proof {
                V::lemma_code_injective(stored[position as int], value);
                assert(stored.index_of(value) == position);
            }
        }
        K::from_usize(position)
    }

    /// The value stored under `key`, which must come from this table.
    pub fn data(&self, key: K) -> (value: &V)
        requires
            key.index() < self@.len(),
        ensures
            *value == self@[key.index()],
    {
        &self.values[key.as_usize()]
    }
}

} // verus!
