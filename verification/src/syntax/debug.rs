//! Rendering of expressions as text.

use vstd::prelude::*;

use crate::parse::{after_trivia, lemma_after_trivia, push_char, Fragment};
use crate::syntax::expr::tree_of;
use crate::syntax::grammar::{
    comma_parsed, decimal_value, delimited_parsed, is_digit, parsed, rank, starts_with, Rule,
};
use crate::syntax::{Expr, ExprKind, Tree};
use crate::tables::debug::{Printer, PrinterView};
use crate::tables::{Key, Tables, TablesView};

verus! {

/// The character for the digit `d`.
pub open spec fn digit_char(d: nat) -> char {
    (0x30 + d) as char
}

/// The decimal digits of `n`, without leading zeros.
pub open spec fn decimal_digits(n: nat) -> Seq<char>
    decreases n,
{
    if n < 10 {
        seq![digit_char(n)]
    } else {
        decimal_digits(n / 10).push(digit_char(n % 10))
    }
}

/// The first `n` of `texts`, separated by a comma and a space.
pub open spec fn joined(texts: Seq<Seq<char>>, n: nat) -> Seq<char>
    decreases n,
{
    if n == 0 {
        Seq::empty()
    } else if n == 1 {
        texts[0]
    } else {
        joined(texts, (n - 1) as nat) + ", "@ + texts[n - 1]
    }
}

/// The first `n` of `texts`, each on a line of its own that starts with
/// `indent` and ends with a comma.
pub open spec fn lines(texts: Seq<Seq<char>>, n: nat, indent: Seq<char>) -> Seq<char>
    decreases n,
{
    if n == 0 {
        Seq::empty()
    } else {
        lines(texts, (n - 1) as nat, indent) + indent + texts[n - 1] + ",\n"@
    }
}

/// What starts the lines of the items of a list whose own lines start with
/// `indent`.
pub open spec fn inner_indent(pretty: bool, indent: Seq<char>) -> Seq<char> {
    if pretty {
        indent + "    "@
    } else {
        indent
    }
}

/// A list whose items have the renderings `texts`: in brackets, the items
/// separated by commas on one line; or, where `pretty` holds and there is an
/// item, each item on a line of its own, one level deeper than the
/// brackets.
pub open spec fn list_layout(texts: Seq<Seq<char>>, pretty: bool, indent: Seq<char>) -> Seq<char> {
    if !pretty {
        "["@ + joined(texts, texts.len()) + "]"@
    } else if texts.len() == 0 {
        "[]"@
    } else {
        "[\n"@ + lines(texts, texts.len(), inner_indent(pretty, indent)) + indent + "]"@
    }
}

/// Whether a tree has a rendering: it is made of integers and lists only.
pub open spec fn printable_tree(tree: Tree) -> bool
    decreases tree,
{
    match tree {
        Tree::Integer(_) => true,
        Tree::List(items) => forall|k: int|
            0 <= k < items.len() ==> printable_tree(#[trigger] items[k]),
        _ => false,
    }
}

/// The rendering of a tree: an integer as its decimal digits, a list as the
/// layout of the renderings of its items.
pub open spec fn tree_text(tree: Tree, pretty: bool, indent: Seq<char>) -> Seq<char>
    decreases tree, 0int,
{
    match tree {
        Tree::Integer(n) => decimal_digits(n as nat),
        Tree::List(items) => list_layout(
            item_texts(items, pretty, inner_indent(pretty, indent)),
            pretty,
            indent,
        ),
        _ => Seq::empty(),
    }
}

/// The renderings of `items`, each with lines that start with `indent`.
pub open spec fn item_texts(items: Seq<Tree>, pretty: bool, indent: Seq<char>) -> Seq<Seq<char>>
    decreases items, 1int,
{
    Seq::new(
        items.len(),
        |k: int|
            if 0 <= k < items.len() {
                tree_text(items[k], pretty, indent)
            } else {
                Seq::empty()
            },
    )
}

/// The renderings of the expressions that `entries` name, as items of a
/// list whose lines start with `indent`.
pub open spec fn entry_texts(
    entries: Seq<Expr>,
    tables: TablesView,
    pretty: bool,
    indent: Seq<char>,
) -> Seq<Seq<char>> {
    Seq::new(
        entries.len(),
        |k: int|
            tree_text(
                tree_of(tables.exprs, entries[k].index()),
                pretty,
                inner_indent(pretty, indent),
            ),
    )
}

/// Reading the decimal digits of a number gives the number back.
pub proof fn lemma_decimal_round_trip(n: nat)
    ensures
        decimal_value(decimal_digits(n)) == n,
        decimal_digits(n).len() > 0,
        forall|i: int|
            0 <= i < decimal_digits(n).len() ==> is_digit(#[trigger] decimal_digits(n)[i]),
    decreases n,
{
    if n < 10 {
        let digits = seq![digit_char(n)];
        assert(digits.drop_last() =~= Seq::<char>::empty());
        assert(decimal_value(digits.drop_last()) == 0);
    } else {
        lemma_decimal_round_trip(n / 10);
        let front = decimal_digits(n / 10);
        assert(front.push(digit_char(n % 10)).drop_last() =~= front);
    }
}

/// The character for the digit `d`.
fn digit_of(d: u64) -> (c: char)
    requires
        d < 10,
    ensures
        c == digit_char(d as nat),
{
    if d == 0 {
        '0'
    } else if d == 1 {
        '1'
    } else if d == 2 {
        '2'
    } else if d == 3 {
        '3'
    } else if d == 4 {
        '4'
    } else if d == 5 {
        '5'
    } else if d == 6 {
        '6'
    } else if d == 7 {
        '7'
    } else if d == 8 {
        '8'
    } else {
        '9'
    }
}

/// Writes the decimal digits of `n` at the end of `out`.
pub fn push_decimal(out: &mut String, n: u64)
    ensures
        final(out)@ == old(out)@ + decimal_digits(n as nat),
    decreases n,
{
    if n >= 10 {
        push_decimal(out, n / 10);
    }
    push_char(out, digit_of(n % 10));
    proof {
        if n >= 10 {
            assert(old(out)@ + decimal_digits((n / 10) as nat).push(digit_char((n % 10) as nat))
                =~= (old(out)@ + decimal_digits((n / 10) as nat)).push(
                digit_char((n % 10) as nat),
            ));
        } else {
            assert(old(out)@ + seq![digit_char(n as nat)] =~= old(out)@.push(digit_char(n as nat)));
        }
    }
}

/// The decimal digits of `n` as text.
pub fn decimal(n: u64) -> (text: String)
    ensures
        text@ == decimal_digits(n as nat),
{
    let mut text = String::new();
    push_decimal(&mut text, n);
    proof {
        assert(Seq::<char>::empty() + decimal_digits(n as nat) =~= decimal_digits(n as nat));
    }
    text
}

/// Writes the rendering of the expression `expr` to `f`.
pub fn render(expr: Expr, tables: &Tables, f: &mut Printer)
    requires
        tables.wf(),
        0 <= expr.index() < tables@.exprs.len(),
        printable_tree(tree_of(tables@.exprs, expr.index())),
    ensures
        final(f)@ == (PrinterView {
            out: old(f)@.out + tree_text(
                tree_of(tables@.exprs, expr.index()),
                old(f)@.pretty,
                old(f)@.indent,
            ),
            ..old(f)@
        }),
    decreases expr.index(), 1int,
{
    proof {
        tables.lemma_wf();
    }
    let ghost exprs = tables@.exprs;
    let ghost at = expr.index();
    let ghost tree = tree_of(exprs, at);
    match &tables.data(expr).kind {
        ExprKind::Integer(n) => {
            let digits = decimal(*n);
            f.write_str(digits.as_str());
        },
        ExprKind::List(entries) => {
            proof {
                let items = tree->List_0;
                assert forall|k: int| 0 <= k < entries@.len() implies 0 <= (
                #[trigger] entries@[k]).index() < at && printable_tree(
                    tree_of(exprs, entries@[k].index()),
                ) by {
                    assert(printable_tree(items[k]));
                }
                assert(entry_texts(entries@, tables@, f@.pretty, f@.indent) =~= item_texts(
                    items,
                    f@.pretty,
                    inner_indent(f@.pretty, f@.indent),
                ));
            }
            render_list(entries, tables, f, Ghost(at));
        },
        // No other kind of node is printable.
        _ => {},
    }
}

/// Writes the list of the expressions `entries`, all of which lie below
/// `bound` in the arena, to `f`.
pub(crate) fn render_list(entries: &Vec<Expr>, tables: &Tables, f: &mut Printer, bound: Ghost<int>)
    requires
        tables.wf(),
        bound@ <= tables@.exprs.len(),
        forall|k: int|
            0 <= k < entries@.len() ==> 0 <= (#[trigger] entries@[k]).index() < bound@
                && printable_tree(tree_of(tables@.exprs, entries@[k].index())),
    ensures
        final(f)@ == (PrinterView {
            out: old(f)@.out + list_layout(
                entry_texts(entries@, tables@, old(f)@.pretty, old(f)@.indent),
                old(f)@.pretty,
                old(f)@.indent,
            ),
            ..old(f)@
        }),
    decreases bound@, 0int,
{
    let ghost start = f@;
    let ghost texts = entry_texts(entries@, tables@, start.pretty, start.indent);
    let pretty = f.pretty();
    let n = entries.len();
    if pretty && n == 0 {
        f.write_str("[]");
        return ;
    }
    if pretty {
        f.write_str("[\n");
        let outer = f.enter();
        let mut i: usize = 0;
        while i < n
            invariant
                n == entries@.len(),
                i <= n,
                tables.wf(),
                bound@ <= tables@.exprs.len(),
                forall|k: int|
                    0 <= k < entries@.len() ==> 0 <= (#[trigger] entries@[k]).index() < bound@
                        && printable_tree(tree_of(tables@.exprs, entries@[k].index())),
                start.pretty,
                texts == entry_texts(entries@, tables@, start.pretty, start.indent),
                f@ == (PrinterView {
                    out: start.out + "[\n"@ + lines(texts, i as nat, start.indent + "    "@),
                    indent: start.indent + "    "@,
                    ..start
                }),
            decreases n - i,
        {
            let ghost before = f@.out;
            f.write_indent();
            render(entries[i], tables, f);
            f.write_str(",\n");
            proof {
                let inner = start.indent + "    "@;
                assert(before + inner + texts[i as int] + ",\n"@ =~= start.out + "[\n"@ + (lines(
                    texts,
                    i as nat,
                    inner,
                ) + inner + texts[i as int] + ",\n"@));
            }
            i += 1;
        }
        f.leave(outer);
        f.write_indent();
        f.write_str("]");
        proof {
            let inner = start.indent + "    "@;
            assert(start.out + "[\n"@ + lines(texts, n as nat, inner) + start.indent + "]"@
                =~= start.out + ("[\n"@ + lines(texts, n as nat, inner) + start.indent + "]"@));
        }
    } else {
        f.write_str("[");
        let mut i: usize = 0;
        while i < n
            invariant
                n == entries@.len(),
                i <= n,
                tables.wf(),
                bound@ <= tables@.exprs.len(),
                forall|k: int|
                    0 <= k < entries@.len() ==> 0 <= (#[trigger] entries@[k]).index() < bound@
                        && printable_tree(tree_of(tables@.exprs, entries@[k].index())),
                !start.pretty,
                texts == entry_texts(entries@, tables@, start.pretty, start.indent),
                f@ == (PrinterView { out: start.out + "["@ + joined(texts, i as nat), ..start }),
            decreases n - i,
        {
            let ghost before = f@.out;
            if i > 0 {
                f.write_str(", ");
            }
            render(entries[i], tables, f);
            proof {
                if i > 0 {
                    assert(before + ", "@ + texts[i as int] =~= start.out + "["@ + (joined(
                        texts,
                        i as nat,
                    ) + ", "@ + texts[i as int]));
                } else {
                    assert(before + texts[i as int] =~= start.out + "["@ + texts[i as int]);
                }
            }
            i += 1;
        }
        f.write_str("]");
        proof {
            assert(start.out + "["@ + joined(texts, n as nat) + "]"@ =~= start.out + ("["@
                + joined(texts, n as nat) + "]"@));
        }
    }
}

/// Decides whether the expression `expr` is stored in `tables` and made of
/// integers and lists only.
pub fn printable(expr: Expr, tables: &Tables) -> (b: bool)
    requires
        tables.wf(),
    ensures
        b == (0 <= expr.index() < tables@.exprs.len() && printable_tree(
            tree_of(tables@.exprs, expr.index()),
        )),
    decreases expr.index(), 1int,
{
    proof {
        tables.lemma_wf();
    }
    if expr.as_usize() >= tables.expr_count() {
        return false;
    }
    match &tables.data(expr).kind {
        ExprKind::Integer(_) => true,
        ExprKind::List(entries) => {
            let b = printable_all(entries, tables, Ghost(expr.index()));
            proof {
                let items = tree_of(tables@.exprs, expr.index())->List_0;
                assert forall|k: int| 0 <= k < entries@.len() implies items[k] == tree_of(
                    tables@.exprs,
                    (#[trigger] entries@[k]).index(),
                ) by {}
                if b {
                    assert forall|k: int| 0 <= k < items.len() implies printable_tree(
                        #[trigger] items[k],
                    ) by {
                        assert(printable_tree(tree_of(tables@.exprs, entries@[k].index())));
                    }
                } else {
                    let k = choose|k: int|
                        0 <= k < entries@.len() && !printable_tree(
                            tree_of(tables@.exprs, (#[trigger] entries@[k]).index()),
                        );
                    assert(!printable_tree(items[k]));
                }
            }
            b
        },
        _ => false,
    }
}

/// Decides whether each of the expressions `entries`, all of which lie
/// below `bound` in the arena, is made of integers and lists only.
pub(crate) fn printable_all(entries: &Vec<Expr>, tables: &Tables, bound: Ghost<int>) -> (b: bool)
    requires
        tables.wf(),
        bound@ <= tables@.exprs.len(),
        forall|k: int| 0 <= k < entries@.len() ==> 0 <= (#[trigger] entries@[k]).index() < bound@,
    ensures
        b == forall|k: int|
            0 <= k < entries@.len() ==> printable_tree(
                tree_of(tables@.exprs, (#[trigger] entries@[k]).index()),
            ),
    decreases bound@, 0int,
{
    let mut i: usize = 0;
    while i < entries.len()
        invariant
            tables.wf(),
            bound@ <= tables@.exprs.len(),
            i <= entries@.len(),
            forall|k: int|
                0 <= k < entries@.len() ==> 0 <= (#[trigger] entries@[k]).index() < bound@,
            forall|k: int|
                0 <= k < i ==> printable_tree(
                    tree_of(tables@.exprs, (#[trigger] entries@[k]).index()),
                ),
        decreases entries@.len() - i,
    {
        if !printable(entries[i], tables) {
            return false;
        }
        i += 1;
    }
    true
}

impl crate::tables::debug::Debug for Expr {
    /// The expression is stored in the tables and is made of integers and
    /// lists only.
    open spec fn printable(&self, tables: TablesView) -> bool {
        &&& 0 <= self.index() < tables.exprs.len()
        &&& printable_tree(tree_of(tables.exprs, self.index()))
    }

    open spec fn rendered(&self, tables: TablesView, pretty: bool, indent: Seq<char>) -> Seq<char> {
        tree_text(tree_of(tables.exprs, self.index()), pretty, indent)
    }

    fn is_printable(&self, tables: &Tables) -> (b: bool) {
        printable(*self, tables)
    }

    fn fmt(&self, tables: &Tables, f: &mut Printer) {
        render(*self, tables, f)
    }
}

impl crate::tables::debug::Debug for Vec<Expr> {
    /// Every expression of the run is printable.
    open spec fn printable(&self, tables: TablesView) -> bool {
        forall|k: int|
            0 <= k < self@.len() ==> 0 <= (#[trigger] self@[k]).index() < tables.exprs.len()
                && printable_tree(tree_of(tables.exprs, self@[k].index()))
    }

    /// The run is rendered as a list of its expressions.
    open spec fn rendered(&self, tables: TablesView, pretty: bool, indent: Seq<char>) -> Seq<char> {
        list_layout(entry_texts(self@, tables, pretty, indent), pretty, indent)
    }

    fn is_printable(&self, tables: &Tables) -> (b: bool) {
        let mut i: usize = 0;
        while i < self.len()
            invariant
                tables.wf(),
                i <= self@.len(),
                forall|k: int|
                    0 <= k < i ==> 0 <= (#[trigger] self@[k]).index() < tables@.exprs.len()
                        && printable_tree(tree_of(tables@.exprs, self@[k].index())),
            decreases self@.len() - i,
        {
            if !printable(self[i], tables) {
                return false;
            }
            i += 1;
        }
        true
    }

    fn fmt(&self, tables: &Tables, f: &mut Printer) {
        render_list(self, tables, f, Ghost(tables@.exprs.len() as int))
    }
}

/// Whatever a rule reads has a rendering.
pub proof fn lemma_parsed_is_printable(rule: Rule, s: Seq<char>)
    ensures
        match parsed(rule, s).result {
            Ok(tree) => printable_tree(tree),
            Err(_) => true,
        },
    decreases s.len(), rank(rule),
{
    match rule {
        Rule::Number => {},
        Rule::List => {
            lemma_delimited_is_printable(s, '[', ']', Rule::Expr);
        },
        Rule::Expr => {
            lemma_parsed_is_printable(Rule::Number, s);
            lemma_parsed_is_printable(Rule::List, s);
        },
    }
}

/// Whatever a delimited run reads has a rendering, item by item.
pub proof fn lemma_delimited_is_printable(s: Seq<char>, open: char, close: char, item: Rule)
    ensures
        match delimited_parsed(s, open, close, item).result {
            Ok(trees) => forall|k: int| 0 <= k < trees.len() ==> printable_tree(#[trigger] trees[k]),
            Err(_) => true,
        },
    decreases s.len(), 0int,
{
    lemma_after_trivia(s);
    let opened = open.expected(s);
    if opened.0 is Ok {
        lemma_comma_is_printable(opened.1, close, item);
    }
}

/// Whatever a comma-separated run reads has a rendering, item by item.
pub proof fn lemma_comma_is_printable(s: Seq<char>, close: char, item: Rule)
    ensures
        match comma_parsed(s, close, item).result {
            Ok(trees) => forall|k: int| 0 <= k < trees.len() ==> printable_tree(#[trigger] trees[k]),
            Err(_) => true,
        },
    decreases s.len(), 3int,
{
    lemma_after_trivia(s);
    let t = after_trivia(s);
    if !starts_with(t, close) {
        lemma_parsed_is_printable(item, t);
        let first = parsed(item, t);
        if first.result is Ok && !starts_with(first.rest, close) {
            let comma = ','.expected(first.rest);
            if comma.0 is Ok && comma.1.len() < s.len() {
                lemma_comma_is_printable(comma.1, close, item);
                let more = comma_parsed(comma.1, close, item);
                if let Ok(trees) = more.result {
                    let all = seq![first.result->Ok_0] + trees;
                    assert forall|k: int| 0 <= k < all.len() implies printable_tree(
                        #[trigger] all[k],
                    ) by {
                        if k > 0 {
                            assert(all[k] == trees[k - 1]);
                        }
                    }
                }
            }
        }
    }
}

} // verus!
