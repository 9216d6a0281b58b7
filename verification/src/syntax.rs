//! The syntax tree and the grammar that builds it.

pub mod debug;
pub mod expr;
pub mod grammar;
pub mod round_trip;

pub use expr::{Expr, ExprData, ExprKind, Tree};
pub use grammar::Rule;

use vstd::prelude::*;

use crate::parse::{grown, ErrorView, Input, PResult, Parse};
use crate::syntax::grammar::{delimited_parsed, delimited_run, yields_all};
use crate::tables::{RawKey, Tables};

verus! {

/// The characters of `text`, one by one.
pub fn chars_of(text: &str) -> (chars: Vec<char>)
    ensures
        chars@ == text@,
{
    let mut chars: Vec<char> = Vec::new();
    for c in it: text.chars()
        invariant
            it.seq() == text@,
            chars@ == text@.take(it.index() as int),
    {
        chars.push(c);
        proof {
            let k = it.index() as int;
            assert(text@.take(k).push(c) =~= text@.take(k + 1));
        }
    }
    proof {
        assert(text@.take(text@.len() as int) =~= text@);
    }
    chars
}

/// Reads a value of type `T` from the start of `text` and adds its nodes to
/// `tables`. Text that follows the value is not looked at.
pub fn parse<T: Parse>(text: &str, tables: &mut Tables) -> (r: PResult<T>)
    requires
        old(tables).wf(),
        old(tables)@.exprs.len() + T::read(text@).nodes <= RawKey::MAX,
    ensures
        final(tables).wf(),
        grown(old(tables)@, final(tables)@, T::read(text@).nodes),
        match r {
            Ok(value) => T::read(text@).result is Ok && value.names(
                T::read(text@).result->Ok_0,
                final(tables)@.exprs,
            ),
            Err(e) => T::read(text@).result == Err::<T::Syntax, ErrorView>(e@) && e.wf(),
        },
{
    let chars = chars_of(text);
    let mut input = Input::new(chars.as_slice());
    T::parse(&mut input, tables)
}

/// Reads one list in square brackets from the start of `text`, its items
/// read by `item`, and adds the nodes of the items to `tables`. The list
/// itself gets no node: the keys of its items are returned.
pub fn parse_list(text: &str, tables: &mut Tables, item: Rule) -> (r: PResult<Vec<Expr>>)
    requires
        old(tables).wf(),
        old(tables)@.exprs.len() + delimited_parsed(text@, '[', ']', item).nodes <= RawKey::MAX,
    ensures
        final(tables).wf(),
        grown(old(tables)@, final(tables)@, delimited_parsed(text@, '[', ']', item).nodes),
        yields_all(r, delimited_parsed(text@, '[', ']', item).result, final(tables)@.exprs),
{
    let chars = chars_of(text);
    let mut input = Input::new(chars.as_slice());
    delimited_run(&mut input, tables, '[', ']', item)
}

} // verus!
