//! The parser's cursor and the combinators that every grammar rule is built
//! from.

use vstd::prelude::*;
use vstd::slice::slice_subrange;
use vstd::string::StringExecFns;

use crate::span::Span;
use crate::syntax::{Expr, ExprData, ExprKind};
use crate::tables::{AllocValue, RawKey, Tables, TablesView};

verus! {

/// What a parser returns: the value read, or the error.
pub type PResult<T> = Result<T, ParseError>;

/// Why a run of digits is not a 64-bit number.
#[derive(Debug, Clone, Copy, PartialEq, Eq, Structural)]
pub enum NumberError {
    /// There are no digits.
    Empty,
    /// A character is not an ASCII digit.
    InvalidDigit,
    /// The number is too large.
    Overflow,
}

/// What went wrong in a parse.
#[derive(Debug)]
pub enum ParseErrorKind {
    /// A character was required where the input ends.
    UnexpectedEndOfInput,
    /// This character was required and another one was found.
    ExpectedChar(char),
    /// The input does not start with the token described.
    ExpectedToken(String),
    /// A literal could not be turned into a number.
    NumericConversionError(NumberError),
}

/// A [`ParseErrorKind`] as a mathematical value.
pub enum ErrorView {
    UnexpectedEndOfInput,
    ExpectedChar(char),
    ExpectedToken(Seq<char>),
    NumericConversionError(NumberError),
}

impl View for ParseErrorKind {
    type V = ErrorView;

    open spec fn view(&self) -> ErrorView {
        match *self {
            ParseErrorKind::UnexpectedEndOfInput => ErrorView::UnexpectedEndOfInput,
            ParseErrorKind::ExpectedChar(c) => ErrorView::ExpectedChar(c),
            ParseErrorKind::ExpectedToken(description) => ErrorView::ExpectedToken(description@),
            ParseErrorKind::NumericConversionError(e) => ErrorView::NumericConversionError(e),
        }
    }
}

/// The text that says why a run of digits is not a number.
pub open spec fn number_error_text(e: NumberError) -> Seq<char> {
    match e {
        NumberError::Empty => "cannot parse integer from empty string"@,
        NumberError::InvalidDigit => "invalid digit found in string"@,
        NumberError::Overflow => "number too large to fit in target type"@,
    }
}

/// The message of an error of the given kind.
pub open spec fn message_of(e: ErrorView) -> Seq<char> {
    match e {
        ErrorView::UnexpectedEndOfInput => "unexpected end of input"@,
        ErrorView::ExpectedChar(c) => "expected `"@.push(c) + "`"@,
        ErrorView::ExpectedToken(description) => "expected "@ + description,
        ErrorView::NumericConversionError(e) => "parse error: "@ + number_error_text(e),
    }
}

/// A failed parse: what went wrong, and the same in words.
#[derive(Debug)]
pub struct ParseError {
    pub kind: ParseErrorKind,
    pub message: String,
}

impl View for ParseError {
    type V = ErrorView;

    open spec fn view(&self) -> ErrorView {
        self.kind@
    }
}

/// `String::push`: the character is put at the end of the string.
#[verifier::external_body]
pub(crate) fn push_char(s: &mut String, c: char)
    ensures
        final(s)@ == old(s)@.push(c),
{
    s.push(c)
}

impl ParseError {
    /// The message is the one that belongs to the kind.
    pub open spec fn wf(&self) -> bool {
        self.message@ == message_of(self@)
    }

    /// The error of the given kind, with its message.
    pub fn new(kind: ParseErrorKind) -> (e: Self)
        ensures
            e.kind == kind,
            e.wf(),
    {
        let message = match &kind {
            ParseErrorKind::UnexpectedEndOfInput => String::from_str("unexpected end of input"),
            ParseErrorKind::ExpectedChar(c) => {
                let mut message = String::from_str("expected `");
                push_char(&mut message, *c);
                message.append("`");
                message
            },
            ParseErrorKind::ExpectedToken(description) => {
                let mut message = String::from_str("expected ");
                message.append(description.as_str());
                message
            },
            ParseErrorKind::NumericConversionError(e) => {
                let mut message = String::from_str("parse error: ");
                match e {
                    NumberError::Empty => message.append("cannot parse integer from empty string"),
                    NumberError::InvalidDigit => message.append("invalid digit found in string"),
                    NumberError::Overflow => message.append(
                        "number too large to fit in target type",
                    ),
                }
                message
            },
        };
        ParseError { kind, message }
    }
}

/// Whether `r` is the outcome `m`: both succeed, or both fail with the same
/// kind of error and `r` carries that kind's message.
pub open spec fn same_outcome<T, U>(r: PResult<T>, m: Result<U, ErrorView>) -> bool {
    match (r, m) {
        (Ok(_), Ok(_)) => true,
        (Err(e), Err(v)) => e@ == v && e.wf(),
        _ => false,
    }
}

/// Whether `c` is white space: a character with the Unicode property
/// `White_Space`.
pub open spec fn is_whitespace(c: char) -> bool {
    let u = c as u32;
    ||| 0x09 <= u <= 0x0D
    ||| u == 0x20
    ||| u == 0x85
    ||| u == 0xA0
    ||| u == 0x1680
    ||| 0x2000 <= u <= 0x200A
    ||| u == 0x2028
    ||| u == 0x2029
    ||| u == 0x202F
    ||| u == 0x205F
    ||| u == 0x3000
}

/// Decides whether `c` is white space.
pub fn char_is_whitespace(c: char) -> (b: bool)
    ensures
        b == is_whitespace(c),
{
    let u = c as u32;
    (0x09 <= u && u <= 0x0D) || u == 0x20 || u == 0x85 || u == 0xA0 || u == 0x1680 || (0x2000 <= u
        && u <= 0x200A) || u == 0x2028 || u == 0x2029 || u == 0x202F || u == 0x205F || u == 0x3000
}

/// What is left of `s` once the white space and comments at its start are
/// gone. A comment runs from `--` through the next line break, or to the
/// end of the text where there is none.
pub open spec fn after_trivia(s: Seq<char>) -> Seq<char>
    decreases s.len(),
{
    if s.len() == 0 {
        s
    } else if is_whitespace(s[0]) {
        after_trivia(s.drop_first())
    } else if s.len() >= 2 && s[0] == '-' && s[1] == '-' {
        after_comment(s.drop_first())
    } else {
        s
    }
}

/// What is left of `s`, which starts inside a comment, once that comment
/// and the trivia that follows it are gone.
pub open spec fn after_comment(s: Seq<char>) -> Seq<char>
    decreases s.len(),
{
    if s.len() == 0 {
        s
    } else if s[0] == '\n' {
        after_trivia(s.drop_first())
    } else {
        after_comment(s.drop_first())
    }
}

/// Skipping trivia only removes characters from the front, and leaves a
/// text that starts with no trivia.
pub proof fn lemma_after_trivia(s: Seq<char>)
    ensures
        after_trivia(s).len() <= s.len(),
        after_trivia(s) == s.skip(s.len() - after_trivia(s).len()),
        after_trivia(after_trivia(s)) == after_trivia(s),
        after_comment(s).len() <= s.len(),
        after_comment(s) == s.skip(s.len() - after_comment(s).len()),
        after_trivia(after_comment(s)) == after_comment(s),
    decreases s.len(),
{
    if s.len() > 0 {
        let t = s.drop_first();
        lemma_after_trivia(t);
        assert forall|n: int| 0 <= n <= t.len() implies #[trigger] t.skip(n) == s.skip(n + 1) by {
            assert(t.skip(n) =~= s.skip(n + 1));
        }
        assert(s.skip(0) =~= s);
    } else {
        assert(s.skip(0) =~= s);
    }
}

/// What a rule makes of a text.
pub struct Parsed<T> {
    /// What was read, or why nothing was.
    pub result: Result<T, ErrorView>,
    /// The text left when the rule stopped, in success or in failure.
    pub rest: Seq<char>,
    /// The number of nodes the rule adds to the expression arena. A rule
    /// that fails keeps the nodes it has added.
    pub nodes: nat,
}

/// The tables `after` are the tables `before` with `nodes` expression nodes
/// added at the end and nothing else changed.
pub open spec fn grown(before: TablesView, after: TablesView, nodes: nat) -> bool {
    &&& after.exprs.len() == before.exprs.len() + nodes
    &&& forall|i: int| 0 <= i < before.exprs.len() ==> #[trigger] after.exprs[i] == before.exprs[i]
    &&& after == (TablesView { exprs: after.exprs, ..before })
}

/// A value that the parser can read from a text.
pub trait Parse: Sized {
    /// What a value of this type is read as.
    type Syntax;

    /// What reading a value of this type makes of `s`.
    spec fn read(s: Seq<char>) -> Parsed<Self::Syntax>;

    /// Whether this value stands, in the arena `exprs`, for `syntax`.
    spec fn names(&self, syntax: Self::Syntax, exprs: Seq<ExprData>) -> bool;

    /// Reads a value of this type at the cursor and adds its nodes to the
    /// tables. The arena must have a key for each of these nodes.
    fn parse(input: &mut Input, tables: &mut Tables) -> (r: PResult<Self>)
        requires
            old(tables).wf(),
            old(tables)@.exprs.len() + Self::read(old(input)@).nodes <= RawKey::MAX,
        ensures
            final(tables).wf(),
            grown(old(tables)@, final(tables)@, Self::read(old(input)@).nodes),
            final(input)@ == Self::read(old(input)@).rest,
            match r {
                Ok(value) => Self::read(old(input)@).result is Ok && value.names(
                    Self::read(old(input)@).result->Ok_0,
                    final(tables)@.exprs,
                ),
                Err(e) => Self::read(old(input)@).result == Err::<Self::Syntax, ErrorView>(e@)
                    && e.wf(),
            },
    ;
}

/// The cursor of a parse: the text that is still to be read. Copying it is
/// cheap, so a rule can be tried on a copy and the copy dropped or kept.
#[derive(Clone, Copy, Debug)]
pub struct Input<'text> {
    pub text: &'text [char],
}

impl<'text> View for Input<'text> {
    type V = Seq<char>;

    open spec fn view(&self) -> Seq<char> {
        self.text@
    }
}

/// A piece of surface syntax that can be required at the cursor.
pub trait Fragment: Sized {
    /// What requiring this fragment at the start of `s` gives: success or
    /// the error, and the text left.
    spec fn expected(&self, s: Seq<char>) -> (Result<(), ErrorView>, Seq<char>);

    /// Requires this fragment at the cursor.
    fn expect(self, input: &mut Input) -> (r: PResult<()>)
        ensures
            same_outcome(r, self.expected(old(input)@).0),
            final(input)@ == self.expected(old(input)@).1,
    ;
}

impl Fragment for char {
    /// After any trivia the next character must be this one. It is consumed
    /// whether it is or not.
    open spec fn expected(&self, s: Seq<char>) -> (Result<(), ErrorView>, Seq<char>) {
        let t = after_trivia(s);
        if t.len() == 0 {
            (Err(ErrorView::UnexpectedEndOfInput), t)
        } else if t[0] == *self {
            (Ok(()), t.drop_first())
        } else {
            (Err(ErrorView::ExpectedChar(*self)), t.drop_first())
        }
    }

    fn expect(self, input: &mut Input) -> (r: PResult<()>) {
        input.skip_trivia();
        match input.shift() {
            Err(e) => Err(e),
            Ok(c) => {
                if c != self {
                    Err(ParseError::new(ParseErrorKind::ExpectedChar(self)))
                } else {
                    Ok(())
                }
            },
        }
    }
}

impl<'text> Input<'text> {
    /// A cursor at the start of `text`.
    pub fn new(text: &'text [char]) -> (input: Self)
        ensures
            input@ == text@,
    {
        Input { text }
    }

    /// Adds a node of the given kind to the expression arena.
    pub fn mk_expr(&self, tables: &mut Tables, kind: ExprKind) -> (expr: Expr)
        requires
            old(tables).wf(),
            (ExprData { kind, span: Span {  } }).fits(old(tables)@),
        ensures
            final(tables).wf(),
            (ExprData { kind, span: Span {  } }).added(old(tables)@, final(tables)@, expr),
    {
        tables.add(ExprData { kind, span: Span::default() })
    }

    /// A copy of this cursor, to try a rule on.
    pub fn fork(self) -> (copy: Input<'text>)
        ensures
            copy == self,
    {
        self
    }

    /// Removes the white space and comments at the cursor.
    pub fn skip_trivia(&mut self)
        ensures
            final(self)@ == after_trivia(old(self)@),
    {
        let text = self.text;
        let n = text.len();
        let mut i: usize = 0;
        let mut in_comment = false;
        proof {
            assert(text@.skip(0) =~= text@);
        }
        loop
            invariant
                n == text@.len(),
                i <= n,
                in_comment ==> after_trivia(text@) == after_comment(text@.skip(i as int)),
                !in_comment ==> after_trivia(text@) == after_trivia(text@.skip(i as int)),
            ensures
                i <= n,
                after_trivia(text@) == text@.skip(i as int),
            decreases n - i,
        {
            proof {
                if i < n {
                    assert(text@.skip(i as int).drop_first() =~= text@.skip(i + 1));
                    assert(text@.skip(i as int)[0] == text@[i as int]);
                }
                if i + 1 < n {
                    assert(text@.skip(i as int)[1] == text@[i + 1]);
                }
            }
            if i >= n {
                break ;
            }
            let c = text[i];
            if in_comment {
                if c == '\n' {
                    in_comment = false;
                }
                i += 1;
            } else if char_is_whitespace(c) {
                i += 1;
            } else if c == '-' && i + 1 < n && text[i + 1] == '-' {
                in_comment = true;
                i += 1;
            } else {
                break ;
            }
        }
        self.text = slice_subrange(text, i, n);
        proof {
            assert(text@.subrange(i as int, n as int) =~= text@.skip(i as int));
        }
    }

    /// Takes the next character off the input.
    pub fn shift(&mut self) -> (r: PResult<char>)
        ensures
            old(self)@.len() == 0 ==> same_outcome::<char, char>(
                r,
                Err(ErrorView::UnexpectedEndOfInput),
            ) && final(self)@ == old(self)@,
            old(self)@.len() > 0 ==> r == Ok::<char, ParseError>(old(self)@[0]) && final(self)@
                == old(self)@.drop_first(),
    {
        let text = self.text;
        if text.len() == 0 {
            return Err(ParseError::new(ParseErrorKind::UnexpectedEndOfInput));
        }
        let ch = text[0];
        self.text = slice_subrange(text, 1, text.len());
        Ok(ch)
    }

    /// Takes the next character off the input if `f` accepts it, and leaves
    /// the input as it is otherwise.
    pub fn shift_if<F: Fn(char) -> bool>(&mut self, f: F) -> (r: Option<char>)
        requires
            forall|c: char| f.requires((c,)),
        ensures
            old(self)@.len() == 0 ==> r is None && final(self)@ == old(self)@,
            old(self)@.len() > 0 ==> match r {
                Some(c) => c == old(self)@[0] && f.ensures((c,), true) && final(self)@ == old(
                    self,
                )@.drop_first(),
                None => f.ensures((old(self)@[0],), false) && final(self)@ == old(self)@,
            },
    {
        let mut snapshot = self.fork();
        match snapshot.shift() {
            Ok(ch) => {
                if f(ch) {
                    *self = snapshot;
                    Some(ch)
                } else {
                    None
                }
            },
            Err(_) => None,
        }
    }

    /// Whether the next character is `ch`.
    pub fn at(&self, ch: char) -> (b: bool)
        ensures
            b == (self@.len() > 0 && self@[0] == ch),
    {
        self.text.len() > 0 && self.text[0] == ch
    }

    /// Runs `f` on a copy of this cursor, which stays where it is. On
    /// success the copy, as `f` left it, comes back with the value. What
    /// `f` did to the tables stays done either way.
    pub fn try_parse<T, F: FnOnce(&mut Input<'text>, &mut Tables) -> PResult<T>>(
        &self,
        tables: &mut Tables,
        f: F,
    ) -> (r: PResult<(T, Input<'text>)>)
        requires
            forall|i: &mut Input<'text>, t: &mut Tables|
                *i == *self && *t == *old(tables) ==> f.requires((i, t)),
        ensures
            exists|i: &mut Input<'text>, t: &mut Tables, found: PResult<T>|
                {
                    &&& *i == *self
                    &&& *t == *old(tables)
                    &&& #[trigger] f.ensures((i, t), found)
                    &&& *final(t) == *final(tables)
                    &&& match (found, r) {
                        (Ok(value), Ok(pair)) => pair == (value, *final(i)),
                        (Err(e), Err(d)) => e == d,
                        _ => false,
                    }
                },
    {
        let mut snapshot = self.fork();
        match f(&mut snapshot, tables) {
            Ok(value) => Ok((value, snapshot)),
            Err(e) => Err(e),
        }
    }

    /// Reads `open`, then whatever `f` reads, then `close`. The first of
    /// the three that fails ends it, with its error.
    pub fn delimited<T, F: FnOnce(&mut Input<'text>, &mut Tables) -> PResult<T>>(
        &mut self,
        tables: &mut Tables,
        open: char,
        close: char,
        f: F,
    ) -> (r: PResult<T>)
        requires
            open.expected(old(self)@).0 is Ok ==> forall|i: &mut Input<'text>, t: &mut Tables|
                i@ == open.expected(old(self)@).1 && *t == *old(tables) ==> f.requires((i, t)),
        ensures
            match open.expected(old(self)@).0 {
                Err(e) => {
                    &&& same_outcome::<T, ()>(r, Err(e))
                    &&& final(self)@ == open.expected(old(self)@).1
                    &&& *final(tables) == *old(tables)
                },
                Ok(_) => exists|i: &mut Input<'text>, t: &mut Tables, found: PResult<T>|
                    {
                        &&& i@ == open.expected(old(self)@).1
                        &&& *t == *old(tables)
                        &&& #[trigger] f.ensures((i, t), found)
                        &&& *final(t) == *final(tables)
                        &&& match found {
                            Err(e) => r == Err::<T, ParseError>(e) && *final(self) == *final(i),
                            Ok(value) => {
                                &&& final(self)@ == close.expected(final(i)@).1
                                &&& match close.expected(final(i)@).0 {
                                    Ok(_) => r == Ok::<T, ParseError>(value),
                                    Err(e) => same_outcome::<T, ()>(r, Err(e)),
                                }
                            },
                        }
                    },
            },
    {
        match self.expect(open) {
            Ok(_) => {},
            Err(e) => {
                return Err(e);
            },
        }
        let item = match f(self, tables) {
            Ok(item) => item,
            Err(e) => {
                return Err(e);
            },
        };
        match self.expect(close) {
            Ok(_) => {},
            Err(e) => {
                return Err(e);
            },
        }
        Ok(item)
    }

    /// Commits to the one alternative that succeeded. Each entry of
    /// `results` is the outcome of one alternative, tried on a copy of this
    /// cursor, with the copy as that alternative left it. With no success
    /// the cursor stays and the error names what was expected; with one,
    /// its copy becomes the cursor. The alternatives of a grammar exclude one
    /// another, so there is never more than one success.
    pub fn require_unambiguous<const N: usize, T: Copy>(
        &mut self,
        results: [PResult<(T, Input<'text>)>; N],
        expected: &str,
    ) -> (r: PResult<T>)
        requires
            forall|i: int, j: int|
                0 <= i < N && 0 <= j < N && results@[i] is Ok && results@[j] is Ok ==> i == j,
        ensures
            (forall|i: int| 0 <= i < N ==> results@[i] is Err) ==> same_outcome::<T, T>(
                r,
                Err(ErrorView::ExpectedToken(expected@)),
            ) && *final(self) == *old(self),
            forall|i: int|
                0 <= i < N && results@[i] is Ok ==> r == Ok::<T, ParseError>(results@[i]->Ok_0.0)
                    && *final(self) == results@[i]->Ok_0.1,
    {
        let mut found: Option<(T, Input<'text>)> = None;
        let mut i: usize = 0;
        while i < N
            invariant
                i <= N,
                found is None ==> forall|k: int| 0 <= k < i ==> results@[k] is Err,
                found is Some ==> exists|k: int|
                    0 <= k < i && results@[k] == Ok::<(T, Input<'text>), ParseError>(found->0),
            decreases N - i,
        {
            match &results[i] {
                Ok(pair) => {
                    found = Some((pair.0, pair.1));
                    assert(results@[i as int] == Ok::<(T, Input<'text>), ParseError>(found->0));
                },
                Err(_) => {},
            }
            i += 1;
        }
        match found {
            None => Err(ParseError::new(ParseErrorKind::ExpectedToken(String::from_str(expected)))),
            Some((t, input)) => {
                *self = input;
                Ok(t)
            },
        }
    }

    /// Reads one token: after any trivia, a character that `start_test`
    /// accepts, then every character that `continue_test` accepts, up to the
    /// first that it does not. The token is returned as text. Where the
    /// input ends after the trivia the error says so; where `start_test`
    /// refuses the first character, that character is consumed and the
    /// error names `description`.
    pub fn accumulate<F: Fn(char) -> bool, G: Fn(char) -> bool + Copy>(
        &mut self,
        start_test: F,
        continue_test: G,
        description: &str,
    ) -> (r: PResult<String>)
        requires
            forall|c: char| start_test.requires((c,)),
            forall|c: char| continue_test.requires((c,)),
        ensures
            ({
                let t = after_trivia(old(self)@);
                match r {
                    Ok(token) => {
                        let n = token@.len() as int;
                        &&& 1 <= n <= t.len()
                        &&& token@ == t.take(n)
                        &&& final(self)@ == t.skip(n)
                        &&& start_test.ensures((t[0],), true)
                        &&& forall|i: int|
                            1 <= i < n ==> continue_test.ensures((#[trigger] t[i],), true)
                        &&& n < t.len() ==> continue_test.ensures((t[n],), false)
                    },
                    Err(e) => {
                        &&& e.wf()
                        &&& if t.len() == 0 {
                            e@ == ErrorView::UnexpectedEndOfInput && final(self)@ == t
                        } else {
                            &&& e@ == ErrorView::ExpectedToken(description@)
                            &&& start_test.ensures((t[0],), false)
                            &&& final(self)@ == t.drop_first()
                        }
                    },
                }
            }),
    {
        self.skip_trivia();
        let ghost t = self@;
        let mut buffer = String::new();

        let first_char = match self.shift() {
            Ok(c) => c,
            Err(e) => {
                return Err(e);
            },
        };
        if !start_test(first_char) {
            let wanted = String::from_str(description);
            return Err(ParseError::new(ParseErrorKind::ExpectedToken(wanted)));
        }
        push_char(&mut buffer, first_char);
        proof {
            assert(buffer@ =~= t.take(1));
            assert(self@ =~= t.skip(1));
        }

        loop
            invariant
                forall|c: char| continue_test.requires((c,)),
                1 <= buffer@.len() <= t.len(),
                buffer@ == t.take(buffer@.len() as int),
                self@ == t.skip(buffer@.len() as int),
                forall|i: int|
                    1 <= i < buffer@.len() ==> continue_test.ensures((#[trigger] t[i],), true),
            ensures
                1 <= buffer@.len() <= t.len(),
                buffer@ == t.take(buffer@.len() as int),
                self@ == t.skip(buffer@.len() as int),
                forall|i: int|
                    1 <= i < buffer@.len() ==> continue_test.ensures((#[trigger] t[i],), true),
                buffer@.len() < t.len() ==> continue_test.ensures(
                    (t[buffer@.len() as int],),
                    false,
                ),
            decreases self@.len(),
        {
            let ghost k = buffer@.len() as int;
            match self.shift_if(continue_test) {
                Some(ch) => {
                    push_char(&mut buffer, ch);
                    proof {
                        assert(t.skip(k)[0] == t[k]);
                        assert(buffer@ =~= t.take(k + 1));
                        assert(self@ =~= t.skip(k + 1));
                    }
                },
                None => {
                    proof {
                        if k < t.len() {
                            assert(t.skip(k)[0] == t[k]);
                        }
                    }
                    break ;
                },
            }
        }

        Ok(buffer)
    }

    /// Reads a value of type `T` at the cursor.
    pub fn parse<T: Parse>(&mut self, tables: &mut Tables) -> (r: PResult<T>)
        requires
            old(tables).wf(),
            old(tables)@.exprs.len() + T::read(old(self)@).nodes <= RawKey::MAX,
        ensures
            final(tables).wf(),
            grown(old(tables)@, final(tables)@, T::read(old(self)@).nodes),
            final(self)@ == T::read(old(self)@).rest,
            match r {
                Ok(value) => T::read(old(self)@).result is Ok && value.names(
                    T::read(old(self)@).result->Ok_0,
                    final(tables)@.exprs,
                ),
                Err(e) => T::read(old(self)@).result == Err::<T::Syntax, ErrorView>(e@) && e.wf(),
            },
    {
        T::parse(self, tables)
    }

    /// Requires `fragment` at the cursor.
    pub fn expect<F: Fragment>(&mut self, fragment: F) -> (r: PResult<()>)
        ensures
            same_outcome(r, fragment.expected(old(self)@).0),
            final(self)@ == fragment.expected(old(self)@).1,
    {
        fragment.expect(self)
    }
}

} // verus!
