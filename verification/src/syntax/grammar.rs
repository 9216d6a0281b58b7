//! The grammar of expressions: what each rule reads from a text, as
//! mathematical functions, and the parsers that compute the same.

use vstd::prelude::*;
use vstd::string::StringExecFns;

use crate::parse::{
    after_comment, after_trivia, grown, lemma_after_trivia, push_char, ErrorView, Fragment, Input,
    NumberError, PResult, Parse, ParseError, ParseErrorKind, Parsed,
};
use crate::syntax::expr::{lemma_tree_of_extends, tree_of};
use crate::syntax::{Expr, ExprData, ExprKind, Tree};
use crate::tables::{Key, RawKey, Tables};

verus! {

/// A rule of the grammar that reads one expression.
#[derive(Debug, Clone, Copy, PartialEq, Eq, Structural)]
pub enum Rule {
    /// An integer literal: ASCII digits, with `_` allowed between and after
    /// them.
    Number,
    /// A list literal: `[`, expressions separated by commas, `]`. A comma
    /// may follow the last expression.
    List,
    /// Any expression: an integer literal or a list literal.
    Expr,
}

/// Whether `c` is an ASCII digit.
pub open spec fn is_digit(c: char) -> bool {
    0x30 <= c as u32 <= 0x39
}

/// The number that the ASCII digit `c` stands for.
pub open spec fn digit_value(c: char) -> nat {
    (c as u32 - 0x30) as nat
}

/// Whether `c` may follow the first digit of an integer literal.
pub open spec fn is_digit_or_separator(c: char) -> bool {
    is_digit(c) || c == '_'
}

/// How many characters at the start of `s` are digits or separators.
pub open spec fn literal_tail(s: Seq<char>) -> nat
    decreases s.len(),
{
    if s.len() > 0 && is_digit_or_separator(s[0]) {
        1 + literal_tail(s.drop_first())
    } else {
        0
    }
}

/// `s` with every `_` taken out.
pub open spec fn without_separators(s: Seq<char>) -> Seq<char>
    decreases s.len(),
{
    if s.len() == 0 {
        s
    } else if s.last() == '_' {
        without_separators(s.drop_last())
    } else {
        without_separators(s.drop_last()).push(s.last())
    }
}

/// The number that a run of digits stands for in base ten.
pub open spec fn decimal_value(digits: Seq<char>) -> nat
    decreases digits.len(),
{
    if digits.len() == 0 {
        0
    } else {
        10 * decimal_value(digits.drop_last()) + digit_value(digits.last())
    }
}

/// Reads `text` from the left as the rest of a number whose digits so far
/// stand for `acc`. The first character that is no digit, or the first digit
/// with which the number no longer fits 64 bits, decides the error.
pub open spec fn number_from(text: Seq<char>, acc: nat) -> Result<u64, NumberError>
    decreases text.len(),
{
    if text.len() == 0 {
        Ok(acc as u64)
    } else if !is_digit(text[0]) {
        Err(NumberError::InvalidDigit)
    } else if 10 * acc + digit_value(text[0]) > u64::MAX {
        Err(NumberError::Overflow)
    } else {
        number_from(text.drop_first(), 10 * acc + digit_value(text[0]))
    }
}

/// The 64-bit number that `text` stands for, or why it stands for none. The
/// text is a run of digits, before which a `+` may stand.
pub open spec fn number_of(text: Seq<char>) -> Result<u64, NumberError> {
    if text.len() == 0 {
        Err(NumberError::Empty)
    } else if text[0] == '+' {
        if text.len() == 1 {
            Err(NumberError::InvalidDigit)
        } else {
            number_from(text.drop_first(), 0)
        }
    } else {
        number_from(text, 0)
    }
}

/// Whether `s` starts with `c`.
pub open spec fn starts_with(s: Seq<char>, c: char) -> bool {
    s.len() > 0 && s[0] == c
}

/// What the rule for integer literals makes of `s`.
pub open spec fn number_parsed(s: Seq<char>) -> Parsed<Tree> {
    let t = after_trivia(s);
    if t.len() == 0 {
        Parsed { result: Err(ErrorView::UnexpectedEndOfInput), rest: t, nodes: 0 }
    } else if !is_digit(t[0]) {
        Parsed { result: Err(ErrorView::ExpectedToken("number"@)), rest: t.drop_first(), nodes: 0 }
    } else {
        let n = 1 + literal_tail(t.drop_first());
        match number_of(without_separators(t.take(n as int))) {
            Ok(value) => Parsed {
                result: Ok(Tree::Integer(value)),
                rest: t.skip(n as int),
                nodes: 1,
            },
            Err(e) => Parsed {
                result: Err(ErrorView::NumericConversionError(e)),
                rest: t.skip(n as int),
                nodes: 0,
            },
        }
    }
}

/// The place of a rule in the order in which rules call one another on the
/// same text.
pub open spec fn rank(rule: Rule) -> int {
    match rule {
        Rule::Number => 0,
        Rule::List => 1,
        Rule::Expr => 2,
    }
}

/// What `rule` makes of `s`.
pub open spec fn parsed(rule: Rule, s: Seq<char>) -> Parsed<Tree>
    decreases s.len(), rank(rule),
{
    match rule {
        Rule::Number => number_parsed(s),
        Rule::List => {
            let items = delimited_parsed(s, '[', ']', Rule::Expr);
            match items.result {
                Ok(trees) => Parsed {
                    result: Ok(Tree::List(trees)),
                    rest: items.rest,
                    nodes: items.nodes + 1,
                },
                Err(e) => Parsed { result: Err(e), rest: items.rest, nodes: items.nodes },
            }
        },
        Rule::Expr => {
            let number = parsed(Rule::Number, s);
            let list = parsed(Rule::List, s);
            let nodes = number.nodes + list.nodes;
            if number.result is Ok {
                Parsed { result: number.result, rest: number.rest, nodes }
            } else if list.result is Ok {
                Parsed { result: list.result, rest: list.rest, nodes }
            } else {
                Parsed { result: Err(ErrorView::ExpectedToken("expression"@)), rest: s, nodes }
            }
        },
    }
}

/// What reading `open`, a comma-separated run of `item`s and `close` makes
/// of `s`.
pub open spec fn delimited_parsed(s: Seq<char>, open: char, close: char, item: Rule) -> Parsed<
    Seq<Tree>,
>
    decreases s.len(), 0int,
{
    let opened = open.expected(s);
    match opened.0 {
        Err(e) => Parsed { result: Err(e), rest: opened.1, nodes: 0 },
        Ok(_) => {
            proof {
                lemma_after_trivia(s);
            }
            let items = comma_parsed(opened.1, close, item);
            match items.result {
                Err(e) => items,
                Ok(trees) => {
                    let closed = close.expected(items.rest);
                    match closed.0 {
                        Err(e) => Parsed { result: Err(e), rest: closed.1, nodes: items.nodes },
                        Ok(_) => Parsed { result: Ok(trees), rest: closed.1, nodes: items.nodes },
                    }
                },
            }
        },
    }
}

/// What reading `item`s separated by commas, up to but not including
/// `close`, makes of `s`. Trivia is skipped before each item; the run ends
/// where `close` stands in place of an item or right after one. After an
/// item that `close` does not follow, a comma must.
///
/// The text after an item and its comma is always shorter than `s`
/// ([`lemma_comma_consumes`]); the definition asks for it only so that it
/// is seen to end.
pub open spec fn comma_parsed(s: Seq<char>, close: char, item: Rule) -> Parsed<Seq<Tree>>
    decreases s.len(), 3int,
{
    let t = after_trivia(s);
    if starts_with(t, close) {
        Parsed { result: Ok(Seq::empty()), rest: t, nodes: 0 }
    } else {
        proof {
            lemma_after_trivia(s);
        }
        let first = parsed(item, t);
        match first.result {
            Err(e) => Parsed { result: Err(e), rest: first.rest, nodes: first.nodes },
            Ok(tree) => {
                if starts_with(first.rest, close) {
                    Parsed { result: Ok(seq![tree]), rest: first.rest, nodes: first.nodes }
                } else {
                    let comma = ','.expected(first.rest);
                    match comma.0 {
                        Err(e) => Parsed { result: Err(e), rest: comma.1, nodes: first.nodes },
                        Ok(_) => {
                            if comma.1.len() < s.len() {
                                let more = comma_parsed(comma.1, close, item);
                                Parsed {
                                    result: match more.result {
                                        Ok(trees) => Ok(seq![tree] + trees),
                                        Err(e) => Err(e),
                                    },
                                    rest: more.rest,
                                    nodes: first.nodes + more.nodes,
                                }
                            } else {
                                Parsed {
                                    result: Ok(seq![tree]),
                                    rest: comma.1,
                                    nodes: first.nodes,
                                }
                            }
                        },
                    }
                }
            },
        }
    }
}

/// The run of digits and separators at the start of `s` is made of digits
/// and separators, lies within `s`, and ends before a character that is
/// neither; no other length has these properties.
pub proof fn lemma_literal_tail(s: Seq<char>, n: int)
    ensures
        literal_tail(s) <= s.len(),
        forall|i: int| 0 <= i < literal_tail(s) ==> is_digit_or_separator(#[trigger] s[i]),
        literal_tail(s) < s.len() ==> !is_digit_or_separator(s[literal_tail(s) as int]),
        ({
            &&& 0 <= n <= s.len()
            &&& forall|i: int| 0 <= i < n ==> is_digit_or_separator(#[trigger] s[i])
            &&& n < s.len() ==> !is_digit_or_separator(s[n])
        }) ==> n == literal_tail(s),
    decreases s.len(),
{
    if s.len() > 0 && is_digit_or_separator(s[0]) {
        let t = s.drop_first();
        lemma_literal_tail(t, n - 1);
        assert forall|i: int| 0 <= i < literal_tail(s) implies is_digit_or_separator(
            #[trigger] s[i],
        ) by {
            if i > 0 {
                assert(s[i] == t[i - 1]);
            }
        }
        if 0 <= n <= s.len() && (forall|i: int|
            0 <= i < n ==> is_digit_or_separator(#[trigger] s[i])) && (n < s.len()
            ==> !is_digit_or_separator(s[n])) {
            assert(n > 0);
            assert forall|i: int| 0 <= i < n - 1 implies is_digit_or_separator(#[trigger] t[i]) by {
                assert(t[i] == s[i + 1]);
            }
        }
    }
}

/// No rule lengthens the text, and a rule that succeeds has read at least
/// one character.
pub proof fn lemma_parsed_consumes(rule: Rule, s: Seq<char>)
    ensures
        parsed(rule, s).rest.len() <= s.len(),
        parsed(rule, s).result is Ok ==> parsed(rule, s).rest.len() < s.len(),
    decreases s.len(), rank(rule),
{
    lemma_after_trivia(s);
    match rule {
        Rule::Number => {
            let t = after_trivia(s);
            if t.len() > 0 {
                lemma_literal_tail(t.drop_first(), 0);
            }
        },
        Rule::List => {
            lemma_delimited_consumes(s, '[', ']', Rule::Expr);
        },
        Rule::Expr => {
            lemma_parsed_consumes(Rule::Number, s);
            lemma_parsed_consumes(Rule::List, s);
        },
    }
}

/// A delimited run does not lengthen the text, and one that succeeds has
/// read at least its two delimiters.
pub proof fn lemma_delimited_consumes(s: Seq<char>, open: char, close: char, item: Rule)
    ensures
        delimited_parsed(s, open, close, item).rest.len() <= s.len(),
        delimited_parsed(s, open, close, item).result is Ok ==> delimited_parsed(
            s,
            open,
            close,
            item,
        ).rest.len() + 2 <= s.len(),
    decreases s.len(), 0int,
{
    lemma_after_trivia(s);
    let opened = open.expected(s);
    if opened.0 is Ok {
        lemma_comma_consumes(opened.1, close, item);
        let items = comma_parsed(opened.1, close, item);
        lemma_after_trivia(items.rest);
    }
}

/// A comma-separated run does not lengthen the text, and in it every item
/// and its comma are followed by a text that is shorter.
pub proof fn lemma_comma_consumes(s: Seq<char>, close: char, item: Rule)
    ensures
        comma_parsed(s, close, item).rest.len() <= s.len(),
        ({
            let first = parsed(item, after_trivia(s));
            first.result is Ok ==> ','.expected(first.rest).1.len() < s.len()
        }),
    decreases s.len(), 3int,
{
    lemma_after_trivia(s);
    let t = after_trivia(s);
    lemma_parsed_consumes(item, t);
    let first = parsed(item, t);
    lemma_after_trivia(first.rest);
    if !starts_with(t, close) && first.result is Ok && !starts_with(first.rest, close) {
        let comma = ','.expected(first.rest);
        if comma.0 is Ok {
            lemma_comma_consumes(comma.1, close, item);
        }
    }
}

/// A rule adds no more nodes than the text has characters; one that
/// succeeds adds no more than it has read.
pub proof fn lemma_nodes_bounded(rule: Rule, s: Seq<char>)
    ensures
        parsed(rule, s).nodes <= s.len(),
        parsed(rule, s).result is Ok ==> parsed(rule, s).nodes + parsed(rule, s).rest.len()
            <= s.len(),
    decreases s.len(), rank(rule),
{
    lemma_after_trivia(s);
    match rule {
        Rule::Number => {
            let t = after_trivia(s);
            if t.len() > 0 {
                lemma_literal_tail(t.drop_first(), 0);
            }
        },
        Rule::List => {
            lemma_delimited_nodes_bounded(s, '[', ']', Rule::Expr);
        },
        Rule::Expr => {
            lemma_nodes_bounded(Rule::Number, s);
            lemma_nodes_bounded(Rule::List, s);
            lemma_alternatives_exclude(s);
            if parsed(Rule::Number, s).result is Ok {
                assert('['.expected(s).0 is Err);
                assert(delimited_parsed(s, '[', ']', Rule::Expr).nodes == 0);
            }
        },
    }
}

/// A delimited run adds no more nodes than the text has characters; one
/// that succeeds adds no more than it has read between its delimiters.
pub proof fn lemma_delimited_nodes_bounded(s: Seq<char>, open: char, close: char, item: Rule)
    ensures
        delimited_parsed(s, open, close, item).nodes <= s.len(),
        delimited_parsed(s, open, close, item).result is Ok ==> delimited_parsed(
            s,
            open,
            close,
            item,
        ).nodes + delimited_parsed(s, open, close, item).rest.len() + 2 <= s.len(),
    decreases s.len(), 0int,
{
    lemma_after_trivia(s);
    let opened = open.expected(s);
    if opened.0 is Ok {
        lemma_comma_nodes_bounded(opened.1, close, item);
        let items = comma_parsed(opened.1, close, item);
        lemma_after_trivia(items.rest);
    }
}

/// A comma-separated run adds no more nodes than the text has characters;
/// one that succeeds adds no more than it has read.
pub proof fn lemma_comma_nodes_bounded(s: Seq<char>, close: char, item: Rule)
    ensures
        comma_parsed(s, close, item).nodes <= s.len(),
        comma_parsed(s, close, item).result is Ok ==> comma_parsed(s, close, item).nodes
            + comma_parsed(s, close, item).rest.len() <= s.len(),
    decreases s.len(), 3int,
{
    lemma_after_trivia(s);
    let t = after_trivia(s);
    if !starts_with(t, close) {
        lemma_nodes_bounded(item, t);
        let first = parsed(item, t);
        lemma_after_trivia(first.rest);
        if first.result is Ok && !starts_with(first.rest, close) {
            let comma = ','.expected(first.rest);
            if comma.0 is Ok {
                lemma_comma_nodes_bounded(comma.1, close, item);
            }
        }
    }
}

/// The two kinds of expression start differently, so no text is both.
pub proof fn lemma_alternatives_exclude(s: Seq<char>)
    ensures
        !(parsed(Rule::Number, s).result is Ok && parsed(Rule::List, s).result is Ok),
{
    let t = after_trivia(s);
    if parsed(Rule::Number, s).result is Ok {
        assert(t.len() > 0 && is_digit(t[0]));
        assert('['.expected(s).0 is Err);
        assert(delimited_parsed(s, '[', ']', Rule::Expr).result is Err);
    }
}

/// Inside a comment everything up to the line break is skipped, whatever
/// it is.
pub proof fn lemma_comment_body_is_skipped(body: Seq<char>, s: Seq<char>)
    requires
        !body.contains('\n'),
    ensures
        after_comment(body + seq!['\n'] + s) == after_trivia(s),
    decreases body.len(),
{
    let text = body + seq!['\n'] + s;
    if body.len() == 0 {
        assert(text.drop_first() =~= s);
    } else {
        assert(body[0] != '\n');
        let tail = body.drop_first();
        assert forall|i: int| 0 <= i < tail.len() implies tail[i] != '\n' by {
            assert(tail[i] == body[i + 1]);
        }
        assert(text.drop_first() =~= tail + seq!['\n'] + s);
        lemma_comment_body_is_skipped(tail, s);
    }
}

/// A comment before a text is trivia, whatever the comment holds: with or
/// without it the same text is left once trivia is skipped.
pub proof fn lemma_comment_is_trivia(body: Seq<char>, s: Seq<char>)
    requires
        !body.contains('\n'),
    ensures
        after_trivia(seq!['-', '-'] + body + seq!['\n'] + s) == after_trivia(s),
{
    let text = seq!['-', '-'] + body + seq!['\n'] + s;
    let inside = seq!['-'] + body;
    assert(text.drop_first() =~= inside + seq!['\n'] + s);
    assert forall|i: int| 0 <= i < inside.len() implies inside[i] != '\n' by {
        if i > 0 {
            assert(inside[i] == body[i - 1]);
        }
    }
    lemma_comment_body_is_skipped(inside, s);
}

/// What a rule reads does not depend on the trivia before it: two texts
/// that are the same once trivia is skipped give the same result and the
/// same nodes, and where that result is a success, leave the same text.
pub proof fn lemma_leading_trivia_is_ignored(rule: Rule, s1: Seq<char>, s2: Seq<char>)
    requires
        after_trivia(s1) == after_trivia(s2),
    ensures
        parsed(rule, s1).result == parsed(rule, s2).result,
        parsed(rule, s1).nodes == parsed(rule, s2).nodes,
        parsed(rule, s1).result is Ok ==> parsed(rule, s1).rest == parsed(rule, s2).rest,
{
    assert(delimited_parsed(s1, '[', ']', Rule::Expr) == delimited_parsed(
        s2,
        '[',
        ']',
        Rule::Expr,
    ));
    assert(parsed(Rule::Number, s1) == parsed(Rule::Number, s2));
    assert(parsed(Rule::List, s1) == parsed(Rule::List, s2));
}

/// A comment before an expression changes nothing of what is read.
pub proof fn lemma_leading_comment_is_ignored(rule: Rule, body: Seq<char>, s: Seq<char>)
    requires
        !body.contains('\n'),
    ensures
        parsed(rule, seq!['-', '-'] + body + seq!['\n'] + s).result == parsed(rule, s).result,
{
    lemma_comment_is_trivia(body, s);
    lemma_leading_trivia_is_ignored(rule, seq!['-', '-'] + body + seq!['\n'] + s, s);
}

/// A `_` changes nothing of the digits that are left of a literal.
pub proof fn lemma_separator_is_ignored(a: Seq<char>, b: Seq<char>)
    ensures
        without_separators(a + seq!['_'] + b) == without_separators(a + b),
    decreases b.len(),
{
    if b.len() == 0 {
        assert(a + seq!['_'] + b =~= (a + b).push('_'));
        assert((a + b).push('_').drop_last() =~= a + b);
    } else {
        let with = a + seq!['_'] + b;
        let without = a + b;
        assert(with.drop_last() =~= a + seq!['_'] + b.drop_last());
        assert(without.drop_last() =~= a + b.drop_last());
        lemma_separator_is_ignored(a, b.drop_last());
    }
}

/// Adding digits to a run of digits does not make its value smaller.
pub proof fn lemma_decimal_value_grows(a: Seq<char>, b: Seq<char>)
    ensures
        decimal_value(a) <= decimal_value(a + b),
    decreases b.len(),
{
    if b.len() == 0 {
        assert(a + b =~= a);
    } else {
        assert((a + b).drop_last() =~= a + b.drop_last());
        lemma_decimal_value_grows(a, b.drop_last());
    }
}

/// Reading digits from the left gives the value of all the digits read, or
/// the overflow error where that value does not fit 64 bits.
pub proof fn lemma_number_from(read: Seq<char>, text: Seq<char>)
    requires
        forall|i: int| 0 <= i < text.len() ==> is_digit(#[trigger] text[i]),
        decimal_value(read) <= u64::MAX,
    ensures
        number_from(text, decimal_value(read)) == (if decimal_value(read + text) <= u64::MAX {
            Ok::<u64, NumberError>(decimal_value(read + text) as u64)
        } else {
            Err::<u64, NumberError>(NumberError::Overflow)
        }),
    decreases text.len(),
{
    if text.len() == 0 {
        assert(read + text =~= read);
    } else {
        let next = read.push(text[0]);
        assert(next.drop_last() =~= read);
        assert(next + text.drop_first() =~= read + text);
        if decimal_value(next) > u64::MAX {
            lemma_decimal_value_grows(next, text.drop_first());
        } else {
            assert forall|i: int| 0 <= i < text.drop_first().len() implies is_digit(
                #[trigger] text.drop_first()[i],
            ) by {
                assert(text.drop_first()[i] == text[i + 1]);
            }
            lemma_number_from(next, text.drop_first());
        }
    }
}

/// A run of digits stands for its value in base ten, where that value fits
/// 64 bits.
pub proof fn lemma_number_of_digits(text: Seq<char>)
    requires
        text.len() > 0,
        forall|i: int| 0 <= i < text.len() ==> is_digit(#[trigger] text[i]),
    ensures
        number_of(text) == (if decimal_value(text) <= u64::MAX {
            Ok::<u64, NumberError>(decimal_value(text) as u64)
        } else {
            Err::<u64, NumberError>(NumberError::Overflow)
        }),
{
    lemma_number_from(Seq::empty(), text);
    assert(Seq::<char>::empty() + text =~= text);
}

/// A comma after the last item of a run is optional: where the closing
/// character follows an item, directly or after one comma and trivia, the
/// run ends with that item.
pub proof fn lemma_trailing_comma_is_optional(s: Seq<char>, close: char, item: Rule)
    requires
        !starts_with(after_trivia(s), close),
        parsed(item, after_trivia(s)).result is Ok,
        ({
            let after_item = parsed(item, after_trivia(s)).rest;
            ||| starts_with(after_item, close)
            ||| (','.expected(after_item).0 is Ok && starts_with(
                after_trivia(','.expected(after_item).1),
                close,
            ))
        }),
    ensures
        comma_parsed(s, close, item).result == Ok::<Seq<Tree>, ErrorView>(
            seq![parsed(item, after_trivia(s)).result->Ok_0],
        ),
        starts_with(comma_parsed(s, close, item).rest, close),
{
    let first = parsed(item, after_trivia(s));
    let tree = first.result->Ok_0;
    if !starts_with(first.rest, close) {
        lemma_comma_consumes(s, close, item);
        let comma = ','.expected(first.rest);
        assert(comma_parsed(comma.1, close, item).result == Ok::<Seq<Tree>, ErrorView>(
            Seq::empty(),
        ));
        assert(seq![tree] + Seq::<Tree>::empty() =~= seq![tree]);
    }
}

/// Decides whether `c` is an ASCII digit.
pub fn char_is_digit(c: char) -> (b: bool)
    ensures
        b == is_digit(c),
{
    let u = c as u32;
    0x30 <= u && u <= 0x39
}

/// Decides whether `c` may follow the first digit of an integer literal.
pub fn char_is_digit_or_separator(c: char) -> (b: bool)
    ensures
        b == is_digit_or_separator(c),
{
    char_is_digit(c) || c == '_'
}

/// Copies `token` without its `_` characters.
pub fn strip_separators(token: &str) -> (digits: String)
    ensures
        digits@ == without_separators(token@),
{
    let mut digits = String::new();
    for c in it: token.chars()
        invariant
            it.seq() == token@,
            digits@ == without_separators(token@.take(it.index() as int)),
    {
        proof {
            let k = it.index() as int;
            assert(token@.take(k + 1).drop_last() =~= token@.take(k));
        }
        if c != '_' {
            push_char(&mut digits, c);
        }
    }
    proof {
        assert(token@.take(token@.len() as int) =~= token@);
    }
    digits
}

/// Reads `text` as a 64-bit number in base ten.
pub fn parse_u64(text: &str) -> (r: Result<u64, NumberError>)
    ensures
        r == number_of(text@),
{
    let mut acc: u64 = 0;
    let mut first = true;
    let mut any_digit = false;
    proof {
        assert(text@.skip(0) =~= text@);
        if text@.len() > 0 {
            assert(text@.skip(1) =~= text@.drop_first());
        }
    }
    for c in it: text.chars()
        invariant
            it.seq() == text@,
            first == (it.index() == 0),
            first ==> acc == 0 && !any_digit,
            !first && text@[0] == '+' ==> any_digit == (it.index() > 1) && number_from(
                text@.drop_first(),
                0,
            ) == number_from(text@.skip(it.index() as int), acc as nat),
            !first && text@[0] != '+' ==> any_digit && number_from(text@, 0) == number_from(
                text@.skip(it.index() as int),
                acc as nat,
            ),
    {
        proof {
            let k = it.index() as int;
            assert(text@.skip(k).drop_first() =~= text@.skip(k + 1));
            assert(text@.skip(k)[0] == c);
        }
        if first && c == '+' {
            first = false;
        } else {
            if !char_is_digit(c) {
                return Err(NumberError::InvalidDigit);
            }
            let d = (c as u32 - 0x30) as u64;
            if acc > (u64::MAX - d) / 10 {
                return Err(NumberError::Overflow);
            }
            acc = 10 * acc + d;
            first = false;
            any_digit = true;
        }
    }
    if any_digit {
        Ok(acc)
    } else if first {
        Err(NumberError::Empty)
    } else {
        Err(NumberError::InvalidDigit)
    }
}

/// Each of the keys `items` names, in the arena `exprs`, the tree at the
/// same place in `trees`.
pub open spec fn denote_all(items: Seq<Expr>, trees: Seq<Tree>, exprs: Seq<ExprData>) -> bool {
    &&& items.len() == trees.len()
    &&& forall|k: int|
        0 <= k < items.len() ==> 0 <= (#[trigger] items[k]).index() < exprs.len() && tree_of(
            exprs,
            items[k].index(),
        ) == trees[k]
}

/// The parser's result `r` is the outcome `m`: the key returned names, in
/// the arena `exprs`, the tree that was to be read; or the error is the one
/// that was to occur, with its message.
pub open spec fn yields(r: PResult<Expr>, m: Result<Tree, ErrorView>, exprs: Seq<ExprData>) -> bool {
    match (r, m) {
        (Ok(e), Ok(tree)) => 0 <= e.index() < exprs.len() && tree_of(exprs, e.index()) == tree,
        (Err(e), Err(v)) => e@ == v && e.wf(),
        _ => false,
    }
}

/// As [`yields`], for a run of expressions.
pub open spec fn yields_all(
    r: PResult<Vec<Expr>>,
    m: Result<Seq<Tree>, ErrorView>,
    exprs: Seq<ExprData>,
) -> bool {
    match (r, m) {
        (Ok(items), Ok(trees)) => denote_all(items@, trees, exprs),
        (Err(e), Err(v)) => e@ == v && e.wf(),
        _ => false,
    }
}

/// Keys that name trees keep naming them when the arena grows.
pub proof fn lemma_denote_all_extends(
    items: Seq<Expr>,
    trees: Seq<Tree>,
    before: Seq<ExprData>,
    after: Seq<ExprData>,
)
    requires
        denote_all(items, trees, before),
        before.len() <= after.len(),
        forall|j: int| 0 <= j < before.len() ==> #[trigger] after[j] == before[j],
    ensures
        denote_all(items, trees, after),
{
    assert forall|k: int| 0 <= k < items.len() implies 0 <= (#[trigger] items[k]).index()
        < after.len() && tree_of(after, items[k].index()) == trees[k] by {
        lemma_tree_of_extends(before, after, items[k].index());
    }
}

/// Reads an integer literal and adds its node.
pub fn number(input: &mut Input, tables: &mut Tables) -> (r: PResult<Expr>)
    requires
        old(tables).wf(),
        old(tables)@.exprs.len() + parsed(Rule::Number, old(input)@).nodes <= RawKey::MAX,
    ensures
        final(tables).wf(),
        grown(old(tables)@, final(tables)@, parsed(Rule::Number, old(input)@).nodes),
        final(input)@ == parsed(Rule::Number, old(input)@).rest,
        yields(r, parsed(Rule::Number, old(input)@).result, final(tables)@.exprs),
{
    let ghost t = after_trivia(input@);
    let token = match input.accumulate(char_is_digit, char_is_digit_or_separator, "number") {
        Ok(token) => token,
        Err(e) => {
            return Err(e);
        },
    };
    proof {
        let n = token@.len() as int;
        let tail = t.drop_first();
        assert forall|i: int| 0 <= i < n - 1 implies is_digit_or_separator(#[trigger] tail[i]) by {
            assert(tail[i] == t[i + 1]);
        }
        if n - 1 < tail.len() {
            assert(tail[n - 1] == t[n]);
        }
        lemma_literal_tail(tail, n - 1);
    }
    let digits = strip_separators(token.as_str());
    match parse_u64(digits.as_str()) {
        Ok(value) => {
            let expr = input.mk_expr(tables, ExprKind::Integer(value));
            Ok(expr)
        },
        Err(e) => Err(ParseError::new(ParseErrorKind::NumericConversionError(e))),
    }
}

/// Whether `tables` can take the nodes that `rule` adds when it reads `s`.
pub open spec fn ready(rule: Rule, s: Seq<char>, tables: Tables) -> bool {
    tables.wf() && tables@.exprs.len() + parsed(rule, s).nodes <= RawKey::MAX
}

/// Whether `rule`, reading `s`, has turned the tables `before` into `after`,
/// left the text `rest` and returned `r`.
pub open spec fn done(
    rule: Rule,
    s: Seq<char>,
    before: Tables,
    after: Tables,
    rest: Seq<char>,
    r: PResult<Expr>,
) -> bool {
    &&& after.wf()
    &&& grown(before@, after@, parsed(rule, s).nodes)
    &&& rest == parsed(rule, s).rest
    &&& yields(r, parsed(rule, s).result, after@.exprs)
}

/// Reads `open`, then `item`s separated by commas, then `close`.
pub fn delimited_run(
    input: &mut Input,
    tables: &mut Tables,
    open: char,
    close: char,
    item: Rule,
) -> (r: PResult<Vec<Expr>>)
    requires
        old(tables).wf(),
        old(tables)@.exprs.len() + delimited_parsed(old(input)@, open, close, item).nodes
            <= RawKey::MAX,
    ensures
        final(tables).wf(),
        grown(old(tables)@, final(tables)@, delimited_parsed(old(input)@, open, close, item).nodes),
        final(input)@ == delimited_parsed(old(input)@, open, close, item).rest,
        yields_all(
            r,
            delimited_parsed(old(input)@, open, close, item).result,
            final(tables)@.exprs,
        ),
    decreases old(input)@.len(), 0int,
{
    let ghost s = input@;
    let ghost inner = open.expected(s).1;
    let ghost run = comma_parsed(inner, close, item);
    let items = |this: &mut Input, t: &mut Tables| -> (r: PResult<Vec<Expr>>)
        requires
            open.expected(s).0 is Ok,
            this@ == inner,
            t.wf(),
            (*t)@.exprs.len() + run.nodes <= RawKey::MAX,
        ensures
            final(t).wf(),
            grown(old(t)@, final(t)@, run.nodes),
            final(this)@ == run.rest,
            yields_all(r, run.result, final(t)@.exprs),
        {
            proof {
                lemma_after_trivia(s);
            }
            this.parse_comma(t, close, item)
        };
    input.delimited(tables, open, close, items)
}

/// Reads a list literal and adds its node after the nodes of its items.
pub fn list(input: &mut Input, tables: &mut Tables) -> (r: PResult<Expr>)
    requires
        old(tables).wf(),
        old(tables)@.exprs.len() + parsed(Rule::List, old(input)@).nodes <= RawKey::MAX,
    ensures
        final(tables).wf(),
        grown(old(tables)@, final(tables)@, parsed(Rule::List, old(input)@).nodes),
        final(input)@ == parsed(Rule::List, old(input)@).rest,
        yields(r, parsed(Rule::List, old(input)@).result, final(tables)@.exprs),
    decreases old(input)@.len(), 1int,
{
    let ghost trees = delimited_parsed(input@, '[', ']', Rule::Expr).result;
    match delimited_run(input, tables, '[', ']', Rule::Expr) {
        Ok(items) => {
            let ghost before = tables@.exprs;
            let ghost keys = items@;
            let expr = input.mk_expr(tables, ExprKind::List(items));
            proof {
                let after = tables@.exprs;
                let at = expr.index();
                lemma_denote_all_extends(keys, trees->Ok_0, before, after);
                assert(tree_of(after, at)->List_0 =~= trees->Ok_0);
            }
            Ok(expr)
        },
        Err(e) => Err(e),
    }
}

/// Reads one expression: tries each kind on a copy of the cursor and
/// commits to the one that succeeded.
pub fn expr(input: &mut Input, tables: &mut Tables) -> (r: PResult<Expr>)
    requires
        old(tables).wf(),
        old(tables)@.exprs.len() + parsed(Rule::Expr, old(input)@).nodes <= RawKey::MAX,
    ensures
        final(tables).wf(),
        grown(old(tables)@, final(tables)@, parsed(Rule::Expr, old(input)@).nodes),
        final(input)@ == parsed(Rule::Expr, old(input)@).rest,
        yields(r, parsed(Rule::Expr, old(input)@).result, final(tables)@.exprs),
    decreases old(input)@.len(), 4int,
{
    let ghost s = input@;
    let ghost before = *tables;
    let try_number = |i: &mut Input, t: &mut Tables| -> (r: PResult<Expr>)
        requires
            i@ == s,
            ready(Rule::Number, s, *t),
        ensures
            done(Rule::Number, s, *old(t), *final(t), final(i)@, r),
        {
            number(i, t)
        };
    let number = input.try_parse(tables, try_number);
    let ghost middle = *tables;
    proof {
        assert(middle.wf());
        assert(grown(before@, middle@, parsed(Rule::Number, s).nodes));
    }
    let try_list = |i: &mut Input, t: &mut Tables| -> (r: PResult<Expr>)
        requires
            i@ == s,
            ready(Rule::List, s, *t),
        ensures
            done(Rule::List, s, *old(t), *final(t), final(i)@, r),
        {
            list(i, t)
        };
    let list = input.try_parse(tables, try_list);
    proof {
        assert(tables.wf());
        assert(grown(middle@, tables@, parsed(Rule::List, s).nodes));
        lemma_alternatives_exclude(s);
        if let Ok((expr, rest)) = number {
            lemma_tree_of_extends(middle@.exprs, tables@.exprs, expr.index());
        }
    }
    let results = [number, list];
    input.require_unambiguous(results, "expression")
}

impl Parse for Expr {
    type Syntax = Tree;

    /// An expression is read by the rule for expressions.
    open spec fn read(s: Seq<char>) -> Parsed<Tree> {
        parsed(Rule::Expr, s)
    }

    /// The key names the tree in the arena.
    open spec fn names(&self, syntax: Tree, exprs: Seq<ExprData>) -> bool {
        0 <= self.index() < exprs.len() && tree_of(exprs, self.index()) == syntax
    }

    fn parse(input: &mut Input, tables: &mut Tables) -> (r: PResult<Self>) {
        expr(input, tables)
    }
}

impl Parse for Vec<Expr> {
    type Syntax = Seq<Tree>;

    /// A run of expressions is read as a list in square brackets. The list
    /// itself gets no node.
    open spec fn read(s: Seq<char>) -> Parsed<Seq<Tree>> {
        delimited_parsed(s, '[', ']', Rule::Expr)
    }

    /// Each key names the tree at its place.
    open spec fn names(&self, syntax: Seq<Tree>, exprs: Seq<ExprData>) -> bool {
        denote_all(self@, syntax, exprs)
    }

    fn parse(input: &mut Input, tables: &mut Tables) -> (r: PResult<Self>) {
        delimited_run(input, tables, '[', ']', Rule::Expr)
    }
}

/// The place of [`Input::parse_rule`] with `rule` in the order in which the
/// parsers call one another on the same text.
pub open spec fn parse_rank(rule: Rule) -> int {
    match rule {
        Rule::Number => 2,
        Rule::List => 2,
        Rule::Expr => 5,
    }
}

impl<'text> Input<'text> {
    /// Reads one expression by `rule`.
    pub fn parse_rule(&mut self, tables: &mut Tables, rule: Rule) -> (r: PResult<Expr>)
        requires
            old(tables).wf(),
            old(tables)@.exprs.len() + parsed(rule, old(self)@).nodes <= RawKey::MAX,
        ensures
            final(tables).wf(),
            grown(old(tables)@, final(tables)@, parsed(rule, old(self)@).nodes),
            final(self)@ == parsed(rule, old(self)@).rest,
            yields(r, parsed(rule, old(self)@).result, final(tables)@.exprs),
        decreases old(self)@.len(), parse_rank(rule),
    {
        match rule {
            Rule::Number => number(self, tables),
            Rule::List => list(self, tables),
            Rule::Expr => expr(self, tables),
        }
    }

    /// Reads `item`s separated by commas, up to but not including `close`.
    /// A comma may follow the last item.
    pub fn parse_comma(&mut self, tables: &mut Tables, close: char, item: Rule) -> (r: PResult<
        Vec<Expr>,
    >)
        requires
            old(tables).wf(),
            old(tables)@.exprs.len() + comma_parsed(old(self)@, close, item).nodes <= RawKey::MAX,
        ensures
            final(tables).wf(),
            grown(old(tables)@, final(tables)@, comma_parsed(old(self)@, close, item).nodes),
            final(self)@ == comma_parsed(old(self)@, close, item).rest,
            yields_all(r, comma_parsed(old(self)@, close, item).result, final(tables)@.exprs),
        decreases old(self)@.len(), 7int,
    {
        let mut items: Vec<Expr> = Vec::new();
        let ghost start = self@;
        let ghost first_tables = tables@;
        let ghost whole = comma_parsed(start, close, item);
        let ghost trees: Seq<Tree> = Seq::empty();
        let ghost done: nat = 0;
        proof {
            assert(trees + whole.result->Ok_0 =~= whole.result->Ok_0);
        }
        loop
            invariant
                start == old(self)@,
                first_tables == old(tables)@,
                tables.wf(),
                grown(first_tables, tables@, done),
                denote_all(items@, trees, tables@.exprs),
                self@.len() <= start.len(),
                whole == comma_parsed(start, close, item),
                first_tables.exprs.len() + whole.nodes <= RawKey::MAX,
                whole.rest == comma_parsed(self@, close, item).rest,
                whole.nodes == done + comma_parsed(self@, close, item).nodes,
                whole.result == match comma_parsed(self@, close, item).result {
                    Ok(more) => Ok::<Seq<Tree>, ErrorView>(trees + more),
                    Err(e) => Err(e),
                },
            decreases self@.len(),
        {
            let ghost here = self@;
            let ghost current = comma_parsed(here, close, item);
            let ghost old_trees = trees;
            proof {
                lemma_after_trivia(here);
                lemma_comma_consumes(here, close, item);
            }
            self.skip_trivia();
            if self.at(close) {
                proof {
                    assert(old_trees + Seq::<Tree>::empty() =~= old_trees);
                }
                return Ok(items);
            }
            let ghost before = tables@.exprs;
            let ghost old_items = items@;
            let ghost one = parsed(item, self@);
            let expr = match self.parse_rule(tables, item) {
                Ok(expr) => expr,
                Err(e) => {
                    return Err(e);
                },
            };
            items.push(expr);
            let ghost tree = one.result->Ok_0;
            proof {
                lemma_denote_all_extends(old_items, old_trees, before, tables@.exprs);
                trees = old_trees.push(tree);
                done = done + one.nodes;
                assert forall|k: int| 0 <= k < items@.len() implies 0 <= (
                #[trigger] items@[k]).index() < tables@.exprs.len() && tree_of(
                    tables@.exprs,
                    items@[k].index(),
                ) == trees[k] by {
                    if k < old_items.len() {
                        assert(items@[k] == old_items[k]);
                    }
                }
            }
            if self.at(close) {
                proof {
                    assert(old_trees + seq![tree] =~= trees);
                }
                return Ok(items);
            }
            match self.expect(',') {
                Ok(_) => {},
                Err(e) => {
                    return Err(e);
                },
            }
            proof {
                let more = comma_parsed(self@, close, item);
                if more.result is Ok {
                    assert(old_trees + (seq![tree] + more.result->Ok_0) =~= trees
                        + more.result->Ok_0);
                }
            }
        }
    }
}

} // verus!
