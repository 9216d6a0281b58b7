//! Reading what was rendered: the one-line rendering of an expression is a
//! text that the grammar reads as that expression.

use vstd::prelude::*;

use crate::parse::{after_trivia, is_whitespace, ErrorView, Fragment, NumberError, Parsed};
use crate::syntax::debug::{
    decimal_digits, item_texts, joined, lemma_decimal_round_trip, printable_tree, tree_text,
};
use crate::syntax::grammar::{
    comma_parsed, delimited_parsed, is_digit, is_digit_or_separator, lemma_comma_consumes,
    lemma_literal_tail, lemma_number_of_digits, literal_tail, number_of, parsed, starts_with,
    without_separators, Rule,
};
use crate::syntax::Tree;

verus! {

/// Whether a text that follows an integer literal would be read as part of
/// it.
pub open spec fn continues_literal(rest: Seq<char>) -> bool {
    rest.len() > 0 && is_digit_or_separator(rest[0])
}

/// The texts from position `k` on, separated by a comma and a space.
pub open spec fn joined_from(texts: Seq<Seq<char>>, k: int) -> Seq<char>
    decreases texts.len() - k,
{
    if k < 0 || k >= texts.len() {
        Seq::empty()
    } else if k == texts.len() - 1 {
        texts[k]
    } else {
        texts[k] + ", "@ + joined_from(texts, k + 1)
    }
}

/// Joining all the texts is joining the first `k` of them and then the
/// rest.
proof fn lemma_joined_splits(texts: Seq<Seq<char>>, k: int, n: nat)
    requires
        0 <= k < n <= texts.len(),
    ensures
        joined(texts, n) == joined(texts, k as nat) + (if k == 0 {
            Seq::<char>::empty()
        } else {
            ", "@
        }) + joined_from(texts.take(n as int), k),
    decreases n - k,
{
    let front = texts.take(n as int);
    if k == n - 1 {
        if k == 0 {
            assert(joined(texts, n) =~= joined(texts, 0) + Seq::<char>::empty() + front[k]);
        }
    } else {
        lemma_joined_splits(texts, k + 1, n);
        assert(joined(texts, (k + 1) as nat) == joined(texts, k as nat) + (if k == 0 {
            Seq::<char>::empty()
        } else {
            ", "@
        }) + texts[k]) by {
            if k == 0 {
                assert(joined(texts, 0) + Seq::<char>::empty() + texts[0] =~= texts[0]);
            }
        }
        assert(joined(texts, n) =~= joined(texts, k as nat) + (if k == 0 {
            Seq::<char>::empty()
        } else {
            ", "@
        }) + (front[k] + ", "@ + joined_from(front, k + 1)));
    }
}

/// A run of digits holds no `_`.
proof fn lemma_digits_have_no_separator(digits: Seq<char>)
    requires
        forall|i: int| 0 <= i < digits.len() ==> is_digit(#[trigger] digits[i]),
    ensures
        without_separators(digits) == digits,
    decreases digits.len(),
{
    if digits.len() > 0 {
        let front = digits.drop_last();
        assert forall|i: int| 0 <= i < front.len() implies is_digit(#[trigger] front[i]) by {
            assert(front[i] == digits[i]);
        }
        lemma_digits_have_no_separator(front);
        assert(front.push(digits.last()) =~= digits);
    }
}

/// The digits of a number, followed by a text that does not continue them,
/// are read as that number, and the text that follows is left.
pub proof fn lemma_reading_digits(n: u64, rest: Seq<char>)
    requires
        !continues_literal(rest),
    ensures
        parsed(Rule::Expr, decimal_digits(n as nat) + rest) == (Parsed {
            result: Ok::<Tree, ErrorView>(Tree::Integer(n)),
            rest,
            nodes: 1,
        }),
{
    let digits = decimal_digits(n as nat);
    let text = digits + rest;
    lemma_decimal_round_trip(n as nat);
    assert(text[0] == digits[0]);
    assert(is_digit(text[0]));
    assert(after_trivia(text) == text);
    let tail = text.drop_first();
    assert forall|i: int| 0 <= i < digits.len() - 1 implies is_digit_or_separator(
        #[trigger] tail[i],
    ) by {
        assert(tail[i] == digits[i + 1]);
    }
    if digits.len() - 1 < tail.len() {
        assert(tail[digits.len() - 1] == rest[0]);
    }
    lemma_literal_tail(tail, digits.len() - 1);
    assert(text.take(digits.len() as int) =~= digits);
    assert(text.skip(digits.len() as int) =~= rest);
    lemma_digits_have_no_separator(digits);
    lemma_number_of_digits(digits);
    assert(literal_tail(tail) == digits.len() - 1);
    assert(number_of(without_separators(text.take(digits.len() as int))) == Ok::<u64, NumberError>(
        n,
    ));
    assert(parsed(Rule::Number, text) == (Parsed {
        result: Ok::<Tree, ErrorView>(Tree::Integer(n)),
        rest,
        nodes: 1,
    }));
    assert('['.expected(text).0 is Err);
    assert(delimited_parsed(text, '[', ']', Rule::Expr).result is Err);
    assert(delimited_parsed(text, '[', ']', Rule::Expr).nodes == 0);
    assert(parsed(Rule::List, text).result is Err);
    assert(parsed(Rule::List, text).nodes == 0);
}

/// The first character of a one-line rendering is a digit or an opening
/// bracket, so no trivia stands before it and no closing bracket starts it.
proof fn lemma_rendering_starts(tree: Tree, indent: Seq<char>, rest: Seq<char>)
    requires
        printable_tree(tree),
    ensures
        tree_text(tree, false, indent).len() > 0,
        after_trivia(tree_text(tree, false, indent) + rest) == tree_text(tree, false, indent)
            + rest,
        !starts_with(tree_text(tree, false, indent) + rest, ']'),
{
    let text = tree_text(tree, false, indent);
    reveal_strlit("[");
    match tree {
        Tree::Integer(n) => {
            lemma_decimal_round_trip(n as nat);
            assert((text + rest)[0] == text[0]);
            assert(is_digit(text[0]));
        },
        Tree::List(items) => {
            assert(text[0] == '[');
            assert((text + rest)[0] == '[');
        },
        _ => {},
    }
}

/// The one-line rendering of an expression, followed by a text that does
/// not continue it, is read as that expression, and the text that follows
/// is left.
pub proof fn lemma_reading_a_rendering(tree: Tree, indent: Seq<char>, rest: Seq<char>)
    requires
        printable_tree(tree),
        tree is Integer ==> !continues_literal(rest),
    ensures
        parsed(Rule::Expr, tree_text(tree, false, indent) + rest).result == Ok::<Tree, ErrorView>(
            tree,
        ),
        parsed(Rule::Expr, tree_text(tree, false, indent) + rest).rest == rest,
    decreases tree, 0nat,
{
    match tree {
        Tree::Integer(n) => {
            lemma_reading_digits(n, rest);
        },
        Tree::List(items) => {
            reveal_strlit("[");
            reveal_strlit("]");
            let texts = item_texts(items, false, indent);
            let inside = joined(texts, texts.len());
            let text = tree_text(tree, false, indent) + rest;
            let after_open = inside + "]"@ + rest;
            assert(text =~= "["@ + after_open);
            assert(text[0] == '[');
            assert(after_trivia(text) == text);
            assert(text.drop_first() =~= after_open);
            assert(parsed(Rule::Number, text).result is Err);
            assert('['.expected(text) == (Ok::<(), ErrorView>(()), after_open));
            let closing = "]"@ + rest;
            assert(closing[0] == ']');
            assert(after_trivia(closing) == closing);
            assert(closing.drop_first() =~= rest);
            if items.len() == 0 {
                assert(after_open =~= closing);
                assert(comma_parsed(after_open, ']', Rule::Expr).result == Ok::<
                    Seq<Tree>,
                    ErrorView,
                >(Seq::empty()));
                assert(Seq::<Tree>::empty() =~= items);
            } else {
                lemma_joined_splits(texts, 0, texts.len());
                assert(texts.take(texts.len() as int) =~= texts);
                assert(inside =~= joined_from(texts, 0));
                assert(after_open =~= Seq::<char>::empty() + joined_from(texts, 0) + closing);
                lemma_reading_items(items, indent, 0, Seq::empty(), rest);
                assert(items.skip(0) =~= items);
            }
            let run = comma_parsed(after_open, ']', Rule::Expr);
            assert(run.result == Ok::<Seq<Tree>, ErrorView>(items));
            assert(run.rest == closing);
            assert(']'.expected(closing) == (Ok::<(), ErrorView>(()), rest));
            let list = delimited_parsed(text, '[', ']', Rule::Expr);
            assert(list.result == Ok::<Seq<Tree>, ErrorView>(items));
            assert(list.rest == rest);
            assert(parsed(Rule::List, text).result == Ok::<Tree, ErrorView>(tree));
        },
        _ => {},
    }
}

/// The renderings of the items of a list from position `k` on, separated by
/// commas and followed by the closing bracket, are read as those items,
/// and the closing bracket is left.
proof fn lemma_reading_items(
    items: Seq<Tree>,
    indent: Seq<char>,
    k: int,
    lead: Seq<char>,
    rest: Seq<char>,
)
    requires
        0 <= k < items.len(),
        forall|i: int| 0 <= i < items.len() ==> printable_tree(#[trigger] items[i]),
        lead.len() == 0 || lead == seq![' '],
    ensures
        comma_parsed(
            lead + joined_from(item_texts(items, false, indent), k) + ("]"@ + rest),
            ']',
            Rule::Expr,
        ).result == Ok::<Seq<Tree>, ErrorView>(items.skip(k)),
        comma_parsed(
            lead + joined_from(item_texts(items, false, indent), k) + ("]"@ + rest),
            ']',
            Rule::Expr,
        ).rest == "]"@ + rest,
    decreases items, items.len() - k,
{
    reveal_strlit("]");
    reveal_strlit(", ");
    let texts = item_texts(items, false, indent);
    let closing = "]"@ + rest;
    let s = lead + joined_from(texts, k) + closing;
    let item_text = tree_text(items[k], false, indent);
    assert(texts[k] == item_text);
    let tail = if k == items.len() - 1 {
        closing
    } else {
        ", "@ + joined_from(texts, k + 1) + closing
    };
    assert(closing[0] == ']');
    assert(!continues_literal(tail)) by {
        if k < items.len() - 1 {
            assert(tail[0] == ',');
        }
    }
    assert(lead + joined_from(texts, k) + closing =~= lead + (item_text + tail));
    lemma_rendering_starts(items[k], indent, tail);
    let t = item_text + tail;
    assert(after_trivia(s) == t) by {
        if lead.len() == 0 {
            assert(s =~= t);
        } else {
            assert(s[0] == ' ');
            assert(is_whitespace(s[0]));
            assert(s.drop_first() =~= t);
        }
    }
    lemma_reading_a_rendering(items[k], indent, tail);
    let first = parsed(Rule::Expr, t);
    if k == items.len() - 1 {
        assert(starts_with(first.rest, ']'));
        assert(seq![items[k]] =~= items.skip(k));
    } else {
        assert(first.rest[0] == ',');
        assert(!starts_with(first.rest, ']'));
        assert(after_trivia(tail) == tail);
        let after_comma = seq![' '] + joined_from(texts, k + 1) + closing;
        assert(tail.drop_first() =~= after_comma);
        assert(','.expected(first.rest) == (Ok::<(), ErrorView>(()), after_comma));
        lemma_comma_consumes(s, ']', Rule::Expr);
        lemma_reading_items(items, indent, k + 1, seq![' '], rest);
        assert(seq![items[k]] + items.skip(k + 1) =~= items.skip(k));
    }
}

} // verus!
