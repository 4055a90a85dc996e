//! Core Parser trait and its applicative and monadic combinators.

use core::marker::PhantomData;
use vstd::prelude::*;

use crate::error::ParseError;
use crate::error::ParseResult;
use crate::input::Input;

verus! {

/// A parser that consumes input of type `I` and produces a value of type
/// [`Parser::Out`].
///
/// Each parser carries a relational specification:
/// - [`Parser::ok`] holds of every `(value, remainder)` pair the parser may
///   succeed with;
/// - [`Parser::fails`] holds of every error it may fail with;
/// - [`Parser::must_succeed`] marks the inputs on which success is
///   guaranteed, [`Parser::must_fail`] those on which failure is.
///
/// [`Parser::parse`] is verified against this specification, and the
/// proof obligations [`Parser::lemma_ok_not_must_fail`],
/// [`Parser::lemma_fails_not_must_succeed`] and [`Parser::lemma_ok_suffix`]
/// tie the four spec functions together: a possible success rules out
/// guaranteed failure and vice versa, and a successful parse always leaves a
/// suffix of its input.
pub trait Parser<I: Input>: Sized {
    /// The type of values this parser produces.
    type Out;

    /// Well-formedness of this parser: what must hold of its configuration
    /// (in particular of any captured functions) for `parse` to be callable.
    spec fn wf(&self) -> bool;

    /// Whether the parser, run on input `s`, may succeed with value `v`
    /// leaving `rest`.
    spec fn ok(&self, s: Seq<I::Item>, v: Self::Out, rest: Seq<I::Item>) -> bool;

    /// Whether the parser, run on input `s`, may fail with error `e`.
    spec fn fails(&self, s: Seq<I::Item>, e: ParseError<I>) -> bool;

    /// Whether the parser is guaranteed to succeed on input `s`.
    spec fn must_succeed(&self, s: Seq<I::Item>) -> bool;

    /// Whether the parser is guaranteed to fail on input `s`.
    spec fn must_fail(&self, s: Seq<I::Item>) -> bool;

    /// Run the parser on the given input.
    fn parse(&self, input: I) -> (r: ParseResult<I, Self::Out>)
        requires
            self.wf(),
        ensures
            r matches Ok(p) ==> self.ok(input.seq(), p.0, p.1.seq()) && !self.must_fail(
                input.seq(),
            ),
            r matches Err(e) ==> self.fails(input.seq(), e) && !self.must_succeed(input.seq()),
    ;

    /// A possible success outcome rules out guaranteed failure.
    proof fn lemma_ok_not_must_fail(&self, s: Seq<I::Item>, v: Self::Out, rest: Seq<I::Item>)
        requires
            self.wf(),
            self.ok(s, v, rest),
        ensures
            !self.must_fail(s),
    ;

    /// A possible failure outcome rules out guaranteed success.
    proof fn lemma_fails_not_must_succeed(&self, s: Seq<I::Item>, e: ParseError<I>)
        requires
            self.wf(),
            self.fails(s, e),
        ensures
            !self.must_succeed(s),
    ;

    /// Every success leaves a suffix of the input it was given: no parser
    /// reports success while having consumed items not present in its input.
    proof fn lemma_ok_suffix(&self, s: Seq<I::Item>, v: Self::Out, rest: Seq<I::Item>)
        requires
            self.wf(),
            self.ok(s, v, rest),
        ensures
            rest.len() <= s.len(),
            rest == s.skip(s.len() - rest.len()),
    ;

    /// Applicative map: transform the result of a successful parse.
    fn map<U, F: Fn(Self::Out) -> U>(self, f: F) -> (r: Mapped<Self, F>)
        ensures
            r.parser == self,
            r.f == f,
    {
        Mapped { parser: self, f }
    }

    /// Applicative sequence: parse two things in sequence, keeping both
    /// results.
    fn and<P2>(self, other: P2) -> (r: And<Self, P2>)
        ensures
            r.left == self,
            r.right == other,
    {
        And { left: self, right: other }
    }

    /// Parse this, then that, keeping only the result of this.
    fn skip<P2>(self, other: P2) -> (r: Skip<Self, P2>)
        ensures
            r.left == self,
            r.right == other,
    {
        Skip { left: self, right: other }
    }

    /// Parse that, then this, keeping only the result of this.
    fn preceded_by<P2>(self, other: P2) -> (r: PrecededBy<P2, Self>)
        ensures
            r.first == other,
            r.second == self,
    {
        PrecededBy { first: other, second: self }
    }

    /// Monadic bind: parse this, then use the result to determine the next
    /// parser.
    fn bind<F>(self, f: F) -> (r: Bind<Self, F>)
        ensures
            r.parser == self,
            r.f == f,
    {
        Bind { parser: self, f }
    }

    /// Alternative: try this parser, and if it fails try the other on the
    /// same input.
    fn or<P2>(self, other: P2) -> (r: Or<Self, P2>)
        ensures
            r.left == self,
            r.right == other,
    {
        Or { left: self, right: other }
    }

    /// Make this parser optional: its failure is absorbed into a `None`
    /// result that consumes nothing.
    fn optional(self) -> (r: Optional<Self>)
        ensures
            r.parser == self,
    {
        Optional { parser: self }
    }

    /// Parse zero or more occurrences.
    fn many(self) -> (r: Many<Self>)
        ensures
            r.parser == self,
    {
        Many { parser: self }
    }

    /// Parse one or more occurrences.
    fn many1(self) -> (r: Many1<Self>)
        ensures
            r.parser == self,
    {
        Many1 { parser: self }
    }

    /// Fold over zero or more occurrences with an accumulator.
    fn fold_many0<A, F>(self, init: A, f: F) -> (r: FoldMany0<Self, A, F>)
        ensures
            r.parser == self,
            r.init == init,
            r.f == f,
    {
        FoldMany0 { parser: self, init, f }
    }

    /// Fold over one or more occurrences with an accumulator.
    fn fold_many1<A, F>(self, init: A, f: F) -> (r: FoldMany1<Self, A, F>)
        ensures
            r.parser == self,
            r.init == init,
            r.f == f,
    {
        FoldMany1 { parser: self, init, f }
    }
}

/// The parser cannot be counted on to succeed on `s`: either failure is
/// guaranteed outright, or at least success is not. A parser that has just
/// been observed to fail on `s` satisfies this, and so does one whose
/// [`Parser::must_fail`] holds of `s`.
pub open spec fn may_fail<I: Input, P: Parser<I>>(p: P, s: Seq<I::Item>) -> bool {
    p.must_fail(s) || !p.must_succeed(s)
}

/// Whether every success of the parser strictly shrinks the input. The
/// repetition combinators require this of their element parser: an element
/// that can succeed consuming nothing would make the repetition loop
/// forever.
pub open spec fn progressive<I: Input, P: Parser<I>>(p: P) -> bool {
    forall|s: Seq<I::Item>, v: P::Out, rest: Seq<I::Item>| #[trigger]
        p.ok(s, v, rest) ==> rest.len() < s.len()
}

/// A suffix of a suffix is a suffix: the form of the
/// [`Parser::lemma_ok_suffix`] obligation composes across sequenced parsers.
pub proof fn lemma_suffix_trans<X>(s: Seq<X>, m: Seq<X>, r: Seq<X>)
    requires
        m.len() <= s.len(),
        m == s.skip(s.len() - m.len()),
        r.len() <= m.len(),
        r == m.skip(m.len() - r.len()),
    ensures
        r.len() <= s.len(),
        r == s.skip(s.len() - r.len()),
{
    assert(s.skip(s.len() - m.len()).skip(m.len() - r.len()) =~= s.skip(s.len() - r.len()));
}

/// Map combinator - transforms parser output.
pub struct Mapped<P, F> {
    /// The underlying parser.
    pub parser: P,
    /// The function applied to the parsed value.
    pub f: F,
}

impl<I: Input, U, P: Parser<I>, F: Fn(P::Out) -> U> Parser<I> for Mapped<P, F> {
    type Out = U;

    open spec fn wf(&self) -> bool {
        &&& self.parser.wf()
        &&& forall|s: Seq<I::Item>, v: P::Out, rest: Seq<I::Item>|
            self.parser.ok(s, v, rest) ==> call_requires(self.f, (v,))
    }

    open spec fn ok(&self, s: Seq<I::Item>, u: U, rest: Seq<I::Item>) -> bool {
        exists|v: P::Out| #[trigger] self.parser.ok(s, v, rest) && call_ensures(self.f, (v,), u)
    }

    open spec fn fails(&self, s: Seq<I::Item>, e: ParseError<I>) -> bool {
        self.parser.fails(s, e)
    }

    open spec fn must_succeed(&self, s: Seq<I::Item>) -> bool {
        self.parser.must_succeed(s)
    }

    open spec fn must_fail(&self, s: Seq<I::Item>) -> bool {
        self.parser.must_fail(s)
    }

    fn parse(&self, input: I) -> (r: ParseResult<I, U>) {
        match self.parser.parse(input) {
            Ok((v, rest)) => {
                let u = (self.f)(v);
                Ok((u, rest))
            },
            Err(e) => Err(e),
        }
    }

    proof fn lemma_ok_not_must_fail(&self, s: Seq<I::Item>, u: U, rest: Seq<I::Item>) {
        let v = choose|v: P::Out| #[trigger] self.parser.ok(s, v, rest) && call_ensures(
            self.f,
            (v,),
            u,
        );
        self.parser.lemma_ok_not_must_fail(s, v, rest);
    }

    proof fn lemma_fails_not_must_succeed(&self, s: Seq<I::Item>, e: ParseError<I>) {
        self.parser.lemma_fails_not_must_succeed(s, e);
    }

    proof fn lemma_ok_suffix(&self, s: Seq<I::Item>, u: U, rest: Seq<I::Item>) {
        let v = choose|v: P::Out| #[trigger] self.parser.ok(s, v, rest) && call_ensures(
            self.f,
            (v,),
            u,
        );
        self.parser.lemma_ok_suffix(s, v, rest);
    }
}

/// And combinator - parses two things in sequence, keeping both.
pub struct And<L, R> {
    /// The parser run first.
    pub left: L,
    /// The parser run on what the first leaves.
    pub right: R,
}

impl<I: Input, L: Parser<I>, R: Parser<I>> Parser<I> for And<L, R> {
    type Out = (L::Out, R::Out);

    open spec fn wf(&self) -> bool {
        self.left.wf() && self.right.wf()
    }

    open spec fn ok(&self, s: Seq<I::Item>, v: (L::Out, R::Out), rest: Seq<I::Item>) -> bool {
        exists|mid: Seq<I::Item>|
            #[trigger] self.left.ok(s, v.0, mid) && self.right.ok(mid, v.1, rest)
    }

    open spec fn fails(&self, s: Seq<I::Item>, e: ParseError<I>) -> bool {
        ||| self.left.fails(s, e)
        ||| exists|v: L::Out, mid: Seq<I::Item>|
            #[trigger] self.left.ok(s, v, mid) && self.right.fails(mid, e)
    }

    open spec fn must_succeed(&self, s: Seq<I::Item>) -> bool {
        &&& self.left.must_succeed(s)
        &&& forall|v: L::Out, mid: Seq<I::Item>|
            #[trigger] self.left.ok(s, v, mid) ==> self.right.must_succeed(mid)
    }

    open spec fn must_fail(&self, s: Seq<I::Item>) -> bool {
        ||| self.left.must_fail(s)
        ||| forall|v: L::Out, mid: Seq<I::Item>|
            #[trigger] self.left.ok(s, v, mid) ==> self.right.must_fail(mid)
    }

    fn parse(&self, input: I) -> (r: ParseResult<I, (L::Out, R::Out)>) {
        let ghost s = input.seq();
        match self.left.parse(input) {
            Ok((lv, mid)) => {
                let ghost ms = mid.seq();
                match self.right.parse(mid) {
                    Ok((rv, rest)) => {
                        proof {
                            assert(self.left.ok(s, ((lv, rv)).0, ms));
                        }
                        Ok(((lv, rv), rest))
                    },
                    Err(e) => {
                        proof {
                            assert(self.left.ok(s, lv, ms));
                        }
                        Err(e)
                    },
                }
            },
            Err(e) => Err(e),
        }
    }

    proof fn lemma_ok_not_must_fail(
        &self,
        s: Seq<I::Item>,
        v: (L::Out, R::Out),
        rest: Seq<I::Item>,
    ) {
        let mid = choose|mid: Seq<I::Item>|
            #[trigger] self.left.ok(s, v.0, mid) && self.right.ok(mid, v.1, rest);
        self.left.lemma_ok_not_must_fail(s, v.0, mid);
        self.right.lemma_ok_not_must_fail(mid, v.1, rest);
    }

    proof fn lemma_fails_not_must_succeed(&self, s: Seq<I::Item>, e: ParseError<I>) {
        if self.left.fails(s, e) {
            self.left.lemma_fails_not_must_succeed(s, e);
        } else {
            let (v, mid) = choose|v: L::Out, mid: Seq<I::Item>|
                #[trigger] self.left.ok(s, v, mid) && self.right.fails(mid, e);
            self.right.lemma_fails_not_must_succeed(mid, e);
        }
    }

    proof fn lemma_ok_suffix(&self, s: Seq<I::Item>, v: (L::Out, R::Out), rest: Seq<I::Item>) {
        let mid = choose|mid: Seq<I::Item>|
            #[trigger] self.left.ok(s, v.0, mid) && self.right.ok(mid, v.1, rest);
        self.left.lemma_ok_suffix(s, v.0, mid);
        self.right.lemma_ok_suffix(mid, v.1, rest);
        lemma_suffix_trans(s, mid, rest);
    }
}

/// Skip combinator - parse left then right, keep only left result.
pub struct Skip<L, R> {
    /// The parser run first, whose value is kept.
    pub left: L,
    /// The parser run afterwards, whose value is dropped.
    pub right: R,
}

impl<I: Input, L: Parser<I>, R: Parser<I>> Parser<I> for Skip<L, R> {
    type Out = L::Out;

    open spec fn wf(&self) -> bool {
        self.left.wf() && self.right.wf()
    }

    open spec fn ok(&self, s: Seq<I::Item>, v: L::Out, rest: Seq<I::Item>) -> bool {
        exists|u: R::Out, mid: Seq<I::Item>|
            #[trigger] self.left.ok(s, v, mid) && #[trigger] self.right.ok(mid, u, rest)
    }

    open spec fn fails(&self, s: Seq<I::Item>, e: ParseError<I>) -> bool {
        ||| self.left.fails(s, e)
        ||| exists|v: L::Out, mid: Seq<I::Item>|
            #[trigger] self.left.ok(s, v, mid) && self.right.fails(mid, e)
    }

    open spec fn must_succeed(&self, s: Seq<I::Item>) -> bool {
        &&& self.left.must_succeed(s)
        &&& forall|v: L::Out, mid: Seq<I::Item>|
            #[trigger] self.left.ok(s, v, mid) ==> self.right.must_succeed(mid)
    }

    open spec fn must_fail(&self, s: Seq<I::Item>) -> bool {
        ||| self.left.must_fail(s)
        ||| forall|v: L::Out, mid: Seq<I::Item>|
            #[trigger] self.left.ok(s, v, mid) ==> self.right.must_fail(mid)
    }

    fn parse(&self, input: I) -> (r: ParseResult<I, L::Out>) {
        let ghost s = input.seq();
        match self.left.parse(input) {
            Ok((lv, mid)) => {
                let ghost ms = mid.seq();
                match self.right.parse(mid) {
                    Ok((rv, rest)) => {
                        proof {
                            assert(self.left.ok(s, lv, ms) && self.right.ok(ms, rv, rest.seq()));
                        }
                        Ok((lv, rest))
                    },
                    Err(e) => {
                        proof {
                            assert(self.left.ok(s, lv, ms));
                        }
                        Err(e)
                    },
                }
            },
            Err(e) => Err(e),
        }
    }

    proof fn lemma_ok_not_must_fail(&self, s: Seq<I::Item>, v: L::Out, rest: Seq<I::Item>) {
        let (u, mid) = choose|u: R::Out, mid: Seq<I::Item>|
            #[trigger] self.left.ok(s, v, mid) && #[trigger] self.right.ok(mid, u, rest);
        self.left.lemma_ok_not_must_fail(s, v, mid);
        self.right.lemma_ok_not_must_fail(mid, u, rest);
    }

    proof fn lemma_fails_not_must_succeed(&self, s: Seq<I::Item>, e: ParseError<I>) {
        if self.left.fails(s, e) {
            self.left.lemma_fails_not_must_succeed(s, e);
        } else {
            let (v, mid) = choose|v: L::Out, mid: Seq<I::Item>|
                #[trigger] self.left.ok(s, v, mid) && self.right.fails(mid, e);
            self.right.lemma_fails_not_must_succeed(mid, e);
        }
    }

    proof fn lemma_ok_suffix(&self, s: Seq<I::Item>, v: L::Out, rest: Seq<I::Item>) {
        let (u, mid) = choose|u: R::Out, mid: Seq<I::Item>|
            #[trigger] self.left.ok(s, v, mid) && #[trigger] self.right.ok(mid, u, rest);
        self.left.lemma_ok_suffix(s, v, mid);
        self.right.lemma_ok_suffix(mid, u, rest);
        lemma_suffix_trans(s, mid, rest);
    }
}

/// PrecededBy combinator - parse first then second, keep only second result.
pub struct PrecededBy<F, S> {
    /// The parser run first, whose value is dropped.
    pub first: F,
    /// The parser run afterwards, whose value is kept.
    pub second: S,
}

impl<I: Input, F: Parser<I>, S: Parser<I>> Parser<I> for PrecededBy<F, S> {
    type Out = S::Out;

    open spec fn wf(&self) -> bool {
        self.first.wf() && self.second.wf()
    }

    open spec fn ok(&self, s: Seq<I::Item>, v: S::Out, rest: Seq<I::Item>) -> bool {
        exists|u: F::Out, mid: Seq<I::Item>|
            #[trigger] self.first.ok(s, u, mid) && #[trigger] self.second.ok(mid, v, rest)
    }

    open spec fn fails(&self, s: Seq<I::Item>, e: ParseError<I>) -> bool {
        ||| self.first.fails(s, e)
        ||| exists|u: F::Out, mid: Seq<I::Item>|
            #[trigger] self.first.ok(s, u, mid) && self.second.fails(mid, e)
    }

    open spec fn must_succeed(&self, s: Seq<I::Item>) -> bool {
        &&& self.first.must_succeed(s)
        &&& forall|u: F::Out, mid: Seq<I::Item>|
            #[trigger] self.first.ok(s, u, mid) ==> self.second.must_succeed(mid)
    }

    open spec fn must_fail(&self, s: Seq<I::Item>) -> bool {
        ||| self.first.must_fail(s)
        ||| forall|u: F::Out, mid: Seq<I::Item>|
            #[trigger] self.first.ok(s, u, mid) ==> self.second.must_fail(mid)
    }

    fn parse(&self, input: I) -> (r: ParseResult<I, S::Out>) {
        let ghost s = input.seq();
        match self.first.parse(input) {
            Ok((u, mid)) => {
                let ghost ms = mid.seq();
                match self.second.parse(mid) {
                    Ok((v, rest)) => {
                        proof {
                            assert(self.first.ok(s, u, ms) && self.second.ok(ms, v, rest.seq()));
                        }
                        Ok((v, rest))
                    },
                    Err(e) => {
                        proof {
                            assert(self.first.ok(s, u, ms));
                        }
                        Err(e)
                    },
                }
            },
            Err(e) => Err(e),
        }
    }

    proof fn lemma_ok_not_must_fail(&self, s: Seq<I::Item>, v: S::Out, rest: Seq<I::Item>) {
        let (u, mid) = choose|u: F::Out, mid: Seq<I::Item>|
            #[trigger] self.first.ok(s, u, mid) && #[trigger] self.second.ok(mid, v, rest);
        self.first.lemma_ok_not_must_fail(s, u, mid);
        self.second.lemma_ok_not_must_fail(mid, v, rest);
    }

    proof fn lemma_fails_not_must_succeed(&self, s: Seq<I::Item>, e: ParseError<I>) {
        if self.first.fails(s, e) {
            self.first.lemma_fails_not_must_succeed(s, e);
        } else {
            let (u, mid) = choose|u: F::Out, mid: Seq<I::Item>|
                #[trigger] self.first.ok(s, u, mid) && self.second.fails(mid, e);
            self.second.lemma_fails_not_must_succeed(mid, e);
        }
    }

    proof fn lemma_ok_suffix(&self, s: Seq<I::Item>, v: S::Out, rest: Seq<I::Item>) {
        let (u, mid) = choose|u: F::Out, mid: Seq<I::Item>|
            #[trigger] self.first.ok(s, u, mid) && #[trigger] self.second.ok(mid, v, rest);
        self.first.lemma_ok_suffix(s, u, mid);
        self.second.lemma_ok_suffix(mid, v, rest);
        lemma_suffix_trans(s, mid, rest);
    }
}

/// Pure - lifts a value into the parser context (always succeeds).
pub fn pure<I: Input, T: Clone>(value: T) -> (r: Pure<I, T>)
    ensures
        r.value == value,
{
    Pure { value, _phantom: PhantomData }
}

/// Parser that always succeeds with a duplicate of its value, consuming
/// nothing.
pub struct Pure<I, T> {
    /// The value handed back on every parse.
    pub value: T,
    pub _phantom: PhantomData<I>,
}

impl<I: Input, T: Clone> Parser<I> for Pure<I, T> {
    type Out = T;

    open spec fn wf(&self) -> bool {
        true
    }

    open spec fn ok(&self, s: Seq<I::Item>, v: T, rest: Seq<I::Item>) -> bool {
        rest == s && vstd::pervasive::cloned::<T>(self.value, v)
    }

    open spec fn fails(&self, s: Seq<I::Item>, e: ParseError<I>) -> bool {
        false
    }

    open spec fn must_succeed(&self, s: Seq<I::Item>) -> bool {
        true
    }

    open spec fn must_fail(&self, s: Seq<I::Item>) -> bool {
        false
    }

    fn parse(&self, input: I) -> (r: ParseResult<I, T>) {
        Ok((self.value.clone(), input))
    }

    proof fn lemma_ok_not_must_fail(&self, s: Seq<I::Item>, v: T, rest: Seq<I::Item>) {
    }

    proof fn lemma_fails_not_must_succeed(&self, s: Seq<I::Item>, e: ParseError<I>) {
    }

    proof fn lemma_ok_suffix(&self, s: Seq<I::Item>, v: T, rest: Seq<I::Item>) {
        assert(rest == s.skip(0));
    }
}

/// Fail - always fails with the given error message.
pub fn fail<I: Input, T>(message: &str) -> (r: Fail<I, T>)
    ensures
        r.message@ == message@,
{
    Fail { message: message.to_owned(), _phantom: PhantomData }
}

/// Parser that always fails with a `Message` error, consuming nothing.
pub struct Fail<I, T> {
    /// The message carried by the error.
    pub message: String,
    pub _phantom: PhantomData<(I, T)>,
}

impl<I: Input, T> Parser<I> for Fail<I, T> {
    type Out = T;

    open spec fn wf(&self) -> bool {
        true
    }

    open spec fn ok(&self, s: Seq<I::Item>, v: T, rest: Seq<I::Item>) -> bool {
        false
    }

    open spec fn fails(&self, s: Seq<I::Item>, e: ParseError<I>) -> bool {
        e matches ParseError::Message { message, input } && message@ == self.message@
            && input.seq() == s
    }

    open spec fn must_succeed(&self, s: Seq<I::Item>) -> bool {
        false
    }

    open spec fn must_fail(&self, s: Seq<I::Item>) -> bool {
        true
    }

    fn parse(&self, input: I) -> (r: ParseResult<I, T>) {
        Err(ParseError::Message { message: self.message.clone(), input })
    }

    proof fn lemma_ok_not_must_fail(&self, s: Seq<I::Item>, v: T, rest: Seq<I::Item>) {
    }

    proof fn lemma_fails_not_must_succeed(&self, s: Seq<I::Item>, e: ParseError<I>) {
    }

    proof fn lemma_ok_suffix(&self, s: Seq<I::Item>, v: T, rest: Seq<I::Item>) {
    }
}

/// Apply a binary function to two parser results.
pub fn map2<I: Input, P1: Parser<I>, P2: Parser<I>, R, F: Fn(P1::Out, P2::Out) -> R>(
    p1: P1,
    p2: P2,
    f: F,
) -> (r: Map2<P1, P2, F>)
    ensures
        r.first == p1,
        r.second == p2,
        r.f == f,
{
    Map2 { first: p1, second: p2, f }
}

/// Parser applying a binary function to the values of two sequenced
/// parsers.
pub struct Map2<P1, P2, F> {
    /// The parser run first.
    pub first: P1,
    /// The parser run on what the first leaves.
    pub second: P2,
    /// The function combining the two values.
    pub f: F,
}

impl<I: Input, R, P1: Parser<I>, P2: Parser<I>, F: Fn(P1::Out, P2::Out) -> R> Parser<I> for Map2<
    P1,
    P2,
    F,
> {
    type Out = R;

    open spec fn wf(&self) -> bool {
        &&& self.first.wf()
        &&& self.second.wf()
        &&& forall|a: P1::Out, b: P2::Out| call_requires(self.f, (a, b))
    }

    open spec fn ok(&self, s: Seq<I::Item>, v: R, rest: Seq<I::Item>) -> bool {
        exists|a: P1::Out, b: P2::Out, mid: Seq<I::Item>|
            #![trigger self.first.ok(s, a, mid), self.second.ok(mid, b, rest)]
            self.first.ok(s, a, mid) && self.second.ok(mid, b, rest) && call_ensures(
                self.f,
                (a, b),
                v,
            )
    }

    open spec fn fails(&self, s: Seq<I::Item>, e: ParseError<I>) -> bool {
        ||| self.first.fails(s, e)
        ||| exists|a: P1::Out, mid: Seq<I::Item>|
            #[trigger] self.first.ok(s, a, mid) && self.second.fails(mid, e)
    }

    open spec fn must_succeed(&self, s: Seq<I::Item>) -> bool {
        &&& self.first.must_succeed(s)
        &&& forall|a: P1::Out, mid: Seq<I::Item>|
            #[trigger] self.first.ok(s, a, mid) ==> self.second.must_succeed(mid)
    }

    open spec fn must_fail(&self, s: Seq<I::Item>) -> bool {
        ||| self.first.must_fail(s)
        ||| forall|a: P1::Out, mid: Seq<I::Item>|
            #[trigger] self.first.ok(s, a, mid) ==> self.second.must_fail(mid)
    }

    fn parse(&self, input: I) -> (r: ParseResult<I, R>) {
        let ghost s = input.seq();
        match self.first.parse(input) {
            Ok((a, mid)) => {
                let ghost ag = a;
                let ghost ms = mid.seq();
                match self.second.parse(mid) {
                    Ok((b, rest)) => {
                        let ghost bg = b;
                        let v = (self.f)(a, b);
                        proof {
                            assert(self.first.ok(s, ag, ms) && self.second.ok(
                                ms,
                                bg,
                                rest.seq(),
                            ) && call_ensures(self.f, (ag, bg), v));
                        }
                        Ok((v, rest))
                    },
                    Err(e) => {
                        proof {
                            assert(self.first.ok(s, ag, ms));
                        }
                        Err(e)
                    },
                }
            },
            Err(e) => Err(e),
        }
    }

    proof fn lemma_ok_not_must_fail(&self, s: Seq<I::Item>, v: R, rest: Seq<I::Item>) {
        let (a, b, mid) = choose|a: P1::Out, b: P2::Out, mid: Seq<I::Item>|
            #![trigger self.first.ok(s, a, mid), self.second.ok(mid, b, rest)]
            self.first.ok(s, a, mid) && self.second.ok(mid, b, rest) && call_ensures(
                self.f,
                (a, b),
                v,
            );
        self.first.lemma_ok_not_must_fail(s, a, mid);
        self.second.lemma_ok_not_must_fail(mid, b, rest);
    }

    proof fn lemma_fails_not_must_succeed(&self, s: Seq<I::Item>, e: ParseError<I>) {
        if self.first.fails(s, e) {
            self.first.lemma_fails_not_must_succeed(s, e);
        } else {
            let (a, mid) = choose|a: P1::Out, mid: Seq<I::Item>|
                #[trigger] self.first.ok(s, a, mid) && self.second.fails(mid, e);
            self.second.lemma_fails_not_must_succeed(mid, e);
        }
    }

    proof fn lemma_ok_suffix(&self, s: Seq<I::Item>, v: R, rest: Seq<I::Item>) {
        let (a, b, mid) = choose|a: P1::Out, b: P2::Out, mid: Seq<I::Item>|
            #![trigger self.first.ok(s, a, mid), self.second.ok(mid, b, rest)]
            self.first.ok(s, a, mid) && self.second.ok(mid, b, rest) && call_ensures(
                self.f,
                (a, b),
                v,
            );
        self.first.lemma_ok_suffix(s, a, mid);
        self.second.lemma_ok_suffix(mid, b, rest);
        lemma_suffix_trans(s, mid, rest);
    }
}

/// Apply a ternary function to three parser results.
pub fn map3<
    I: Input,
    P1: Parser<I>,
    P2: Parser<I>,
    P3: Parser<I>,
    R,
    F: Fn(P1::Out, P2::Out, P3::Out) -> R,
>(p1: P1, p2: P2, p3: P3, f: F) -> (r: Map3<P1, P2, P3, F>)
    ensures
        r.first == p1,
        r.second == p2,
        r.third == p3,
        r.f == f,
{
    Map3 { first: p1, second: p2, third: p3, f }
}

/// Parser applying a ternary function to the values of three sequenced
/// parsers.
pub struct Map3<P1, P2, P3, F> {
    /// The parser run first.
    pub first: P1,
    /// The parser run next.
    pub second: P2,
    /// The parser run last.
    pub third: P3,
    /// The function combining the three values.
    pub f: F,
}

impl<
    I: Input,
    R,
    P1: Parser<I>,
    P2: Parser<I>,
    P3: Parser<I>,
    F: Fn(P1::Out, P2::Out, P3::Out) -> R,
> Parser<I> for Map3<P1, P2, P3, F> {
    type Out = R;

    open spec fn wf(&self) -> bool {
        &&& self.first.wf()
        &&& self.second.wf()
        &&& self.third.wf()
        &&& forall|a: P1::Out, b: P2::Out, c: P3::Out| call_requires(self.f, (a, b, c))
    }

    open spec fn ok(&self, s: Seq<I::Item>, v: R, rest: Seq<I::Item>) -> bool {
        exists|a: P1::Out, b: P2::Out, c: P3::Out, m1: Seq<I::Item>, m2: Seq<I::Item>|
            #![trigger self.first.ok(s, a, m1), self.second.ok(m1, b, m2), self.third.ok(m2, c, rest)]
            self.first.ok(s, a, m1) && self.second.ok(m1, b, m2) && self.third.ok(m2, c, rest)
                && call_ensures(self.f, (a, b, c), v)
    }

    open spec fn fails(&self, s: Seq<I::Item>, e: ParseError<I>) -> bool {
        ||| self.first.fails(s, e)
        ||| exists|a: P1::Out, m1: Seq<I::Item>|
            #[trigger] self.first.ok(s, a, m1) && self.second.fails(m1, e)
        ||| exists|a: P1::Out, b: P2::Out, m1: Seq<I::Item>, m2: Seq<I::Item>|
            #![trigger self.first.ok(s, a, m1), self.second.ok(m1, b, m2)]
            self.first.ok(s, a, m1) && self.second.ok(m1, b, m2) && self.third.fails(m2, e)
    }

    open spec fn must_succeed(&self, s: Seq<I::Item>) -> bool {
        &&& self.first.must_succeed(s)
        &&& forall|a: P1::Out, m1: Seq<I::Item>|
            #[trigger] self.first.ok(s, a, m1) ==> self.second.must_succeed(m1)
        &&& forall|a: P1::Out, b: P2::Out, m1: Seq<I::Item>, m2: Seq<I::Item>|
            #![trigger self.first.ok(s, a, m1), self.second.ok(m1, b, m2)]
            self.first.ok(s, a, m1) && self.second.ok(m1, b, m2) ==> self.third.must_succeed(m2)
    }

    open spec fn must_fail(&self, s: Seq<I::Item>) -> bool {
        ||| self.first.must_fail(s)
        ||| forall|a: P1::Out, m1: Seq<I::Item>|
            #[trigger] self.first.ok(s, a, m1) ==> self.second.must_fail(m1)
        ||| forall|a: P1::Out, b: P2::Out, m1: Seq<I::Item>, m2: Seq<I::Item>|
            #![trigger self.first.ok(s, a, m1), self.second.ok(m1, b, m2)]
            self.first.ok(s, a, m1) && self.second.ok(m1, b, m2) ==> self.third.must_fail(m2)
    }

    fn parse(&self, input: I) -> (r: ParseResult<I, R>) {
        let ghost s = input.seq();
        match self.first.parse(input) {
            Ok((a, mid1)) => {
                let ghost ag = a;
                let ghost m1 = mid1.seq();
                match self.second.parse(mid1) {
                    Ok((b, mid2)) => {
                        let ghost bg = b;
                        let ghost m2 = mid2.seq();
                        match self.third.parse(mid2) {
                            Ok((c, rest)) => {
                                let ghost cg = c;
                                let v = (self.f)(a, b, c);
                                proof {
                                    assert(self.first.ok(s, ag, m1) && self.second.ok(m1, bg, m2)
                                        && self.third.ok(m2, cg, rest.seq()) && call_ensures(
                                        self.f,
                                        (ag, bg, cg),
                                        v,
                                    ));
                                }
                                Ok((v, rest))
                            },
                            Err(e) => {
                                proof {
                                    assert(self.first.ok(s, ag, m1) && self.second.ok(
                                        m1,
                                        bg,
                                        m2,
                                    ));
                                }
                                Err(e)
                            },
                        }
                    },
                    Err(e) => {
                        proof {
                            assert(self.first.ok(s, ag, m1));
                        }
                        Err(e)
                    },
                }
            },
            Err(e) => Err(e),
        }
    }

    proof fn lemma_ok_not_must_fail(&self, s: Seq<I::Item>, v: R, rest: Seq<I::Item>) {
        let (a, b, c, m1, m2) = choose|
            a: P1::Out,
            b: P2::Out,
            c: P3::Out,
            m1: Seq<I::Item>,
            m2: Seq<I::Item>,
        |
            #![trigger self.first.ok(s, a, m1), self.second.ok(m1, b, m2), self.third.ok(m2, c, rest)]
            self.first.ok(s, a, m1) && self.second.ok(m1, b, m2) && self.third.ok(m2, c, rest)
                && call_ensures(self.f, (a, b, c), v);
        self.first.lemma_ok_not_must_fail(s, a, m1);
        self.second.lemma_ok_not_must_fail(m1, b, m2);
        self.third.lemma_ok_not_must_fail(m2, c, rest);
    }

    proof fn lemma_fails_not_must_succeed(&self, s: Seq<I::Item>, e: ParseError<I>) {
        if self.first.fails(s, e) {
            self.first.lemma_fails_not_must_succeed(s, e);
        } else if exists|a: P1::Out, m1: Seq<I::Item>|
            #[trigger] self.first.ok(s, a, m1) && self.second.fails(m1, e) {
            let (a, m1) = choose|a: P1::Out, m1: Seq<I::Item>|
                #[trigger] self.first.ok(s, a, m1) && self.second.fails(m1, e);
            self.second.lemma_fails_not_must_succeed(m1, e);
        } else {
            let (a, b, m1, m2) = choose|
                a: P1::Out,
                b: P2::Out,
                m1: Seq<I::Item>,
                m2: Seq<I::Item>,
            |
                #![trigger self.first.ok(s, a, m1), self.second.ok(m1, b, m2)]
                self.first.ok(s, a, m1) && self.second.ok(m1, b, m2) && self.third.fails(m2, e);
            self.third.lemma_fails_not_must_succeed(m2, e);
        }
    }

    proof fn lemma_ok_suffix(&self, s: Seq<I::Item>, v: R, rest: Seq<I::Item>) {
        let (a, b, c, m1, m2) = choose|
            a: P1::Out,
            b: P2::Out,
            c: P3::Out,
            m1: Seq<I::Item>,
            m2: Seq<I::Item>,
        |
            #![trigger self.first.ok(s, a, m1), self.second.ok(m1, b, m2), self.third.ok(m2, c, rest)]
            self.first.ok(s, a, m1) && self.second.ok(m1, b, m2) && self.third.ok(m2, c, rest)
                && call_ensures(self.f, (a, b, c), v);
        self.first.lemma_ok_suffix(s, a, m1);
        self.second.lemma_ok_suffix(m1, b, m2);
        lemma_suffix_trans(s, m1, m2);
        self.third.lemma_ok_suffix(m2, c, rest);
        lemma_suffix_trans(s, m2, rest);
    }
}

/// Parse two parsers and return their results as a pair: exactly the `and`
/// combinator, whose specification is transparent.
pub fn tuple2<I: Input, P1: Parser<I>, P2: Parser<I>>(p1: P1, p2: P2) -> (r: And<P1, P2>)
    ensures
        r.left == p1,
        r.right == p2,
{
    p1.and(p2)
}

/// Parse three parsers and return their results as a flat triple.
pub fn tuple3<I: Input, P1: Parser<I>, P2: Parser<I>, P3: Parser<I>>(p1: P1, p2: P2, p3: P3) -> (r:
    Mapped<And<And<P1, P2>, P3>, impl Fn(((P1::Out, P2::Out), P3::Out)) -> (
        P1::Out,
        P2::Out,
        P3::Out,
    )>)
    ensures
        r.parser.left.left == p1,
        r.parser.left.right == p2,
        r.parser.right == p3,
        (p1.wf() && p2.wf() && p3.wf()) ==> r.wf(),
        forall|s: Seq<I::Item>, v: (P1::Out, P2::Out, P3::Out), rest: Seq<I::Item>| #[trigger]
            r.ok(s, v, rest) ==> (exists|m1: Seq<I::Item>, m2: Seq<I::Item>|
                #![trigger p1.ok(s, v.0, m1), p2.ok(m1, v.1, m2)]
                p1.ok(s, v.0, m1) && p2.ok(m1, v.1, m2) && p3.ok(m2, v.2, rest)),
{
    let g = |abc: ((P1::Out, P2::Out), P3::Out)| -> (out: (P1::Out, P2::Out, P3::Out))
        ensures
            out == (abc.0.0, abc.0.1, abc.1),
        {
            ((abc.0).0, (abc.0).1, abc.1)
        };
    let r = p1.and(p2).and(p3).map(g);
    proof {
        lemma_mapped_spec(r);
        assert forall|s: Seq<I::Item>, v: (P1::Out, P2::Out, P3::Out), rest: Seq<I::Item>|
            #[trigger] r.ok(s, v, rest) implies (exists|m1: Seq<I::Item>, m2: Seq<I::Item>|
            #![trigger p1.ok(s, v.0, m1), p2.ok(m1, v.1, m2)]
            p1.ok(s, v.0, m1) && p2.ok(m1, v.1, m2) && p3.ok(m2, v.2, rest)) by {
            let abc = choose|abc: ((P1::Out, P2::Out), P3::Out)|
                #[trigger] r.parser.ok(s, abc, rest) && call_ensures(r.f, (abc,), v);
            let m2 = choose|m2: Seq<I::Item>|
                #[trigger] r.parser.left.ok(s, abc.0, m2) && r.parser.right.ok(m2, abc.1, rest);
            let m1 = choose|m1: Seq<I::Item>|
                #[trigger] p1.ok(s, abc.0.0, m1) && p2.ok(m1, abc.0.1, m2);
            assert(v == (abc.0.0, abc.0.1, abc.1));
            assert(p1.ok(s, v.0, m1) && p2.ok(m1, v.1, m2) && p3.ok(m2, v.2, rest));
        }
    }
    r
}

/// Bind combinator - monadic sequencing: the parser returned by the captured
/// function, applied to the first parser's value, runs on what the first
/// parser left.
pub struct Bind<P, F> {
    /// The parser run first.
    pub parser: P,
    /// The function choosing the parser to run next.
    pub f: F,
}

impl<I: Input, P: Parser<I>, Q: Parser<I>, F: Fn(P::Out) -> Q> Parser<I> for Bind<P, F> {
    type Out = Q::Out;

    open spec fn wf(&self) -> bool {
        &&& self.parser.wf()
        &&& forall|s: Seq<I::Item>, v: P::Out, rest: Seq<I::Item>|
            self.parser.ok(s, v, rest) ==> call_requires(self.f, (v,))
        &&& forall|v: P::Out, q: Q| #[trigger] call_ensures(self.f, (v,), q) ==> q.wf()
    }

    open spec fn ok(&self, s: Seq<I::Item>, u: Q::Out, rest: Seq<I::Item>) -> bool {
        exists|v: P::Out, mid: Seq<I::Item>, q: Q|
            #![trigger self.parser.ok(s, v, mid), q.ok(mid, u, rest)]
            self.parser.ok(s, v, mid) && call_ensures(self.f, (v,), q) && q.ok(mid, u, rest)
    }

    open spec fn fails(&self, s: Seq<I::Item>, e: ParseError<I>) -> bool {
        ||| self.parser.fails(s, e)
        ||| exists|v: P::Out, mid: Seq<I::Item>, q: Q|
            #![trigger self.parser.ok(s, v, mid), q.fails(mid, e)]
            self.parser.ok(s, v, mid) && call_ensures(self.f, (v,), q) && q.fails(mid, e)
    }

    open spec fn must_succeed(&self, s: Seq<I::Item>) -> bool {
        &&& self.parser.must_succeed(s)
        &&& forall|v: P::Out, mid: Seq<I::Item>, q: Q|
            #![trigger self.parser.ok(s, v, mid), q.must_succeed(mid)]
            self.parser.ok(s, v, mid) && call_ensures(self.f, (v,), q) ==> q.must_succeed(mid)
    }

    open spec fn must_fail(&self, s: Seq<I::Item>) -> bool {
        ||| self.parser.must_fail(s)
        ||| forall|v: P::Out, mid: Seq<I::Item>, q: Q|
            #![trigger self.parser.ok(s, v, mid), q.must_fail(mid)]
            self.parser.ok(s, v, mid) && call_ensures(self.f, (v,), q) ==> q.must_fail(mid)
    }

    fn parse(&self, input: I) -> (r: ParseResult<I, Q::Out>) {
        let ghost s = input.seq();
        match self.parser.parse(input) {
            Ok((v, mid)) => {
                let ghost vg = v;
                let ghost ms = mid.seq();
                let q = (self.f)(v);
                match q.parse(mid) {
                    Ok((u, rest)) => {
                        proof {
                            assert(self.parser.ok(s, vg, ms) && call_ensures(self.f, (vg,), q)
                                && q.ok(ms, u, rest.seq()));
                            assert(!q.must_fail(ms));
                        }
                        Ok((u, rest))
                    },
                    Err(e) => {
                        proof {
                            assert(self.parser.ok(s, vg, ms) && call_ensures(self.f, (vg,), q)
                                && q.fails(ms, e));
                            assert(!q.must_succeed(ms));
                        }
                        Err(e)
                    },
                }
            },
            Err(e) => Err(e),
        }
    }

    proof fn lemma_ok_not_must_fail(&self, s: Seq<I::Item>, u: Q::Out, rest: Seq<I::Item>) {
        let (v, mid, q) = choose|v: P::Out, mid: Seq<I::Item>, q: Q|
            #![trigger self.parser.ok(s, v, mid), q.ok(mid, u, rest)]
            self.parser.ok(s, v, mid) && call_ensures(self.f, (v,), q) && q.ok(mid, u, rest);
        self.parser.lemma_ok_not_must_fail(s, v, mid);
        q.lemma_ok_not_must_fail(mid, u, rest);
    }

    proof fn lemma_fails_not_must_succeed(&self, s: Seq<I::Item>, e: ParseError<I>) {
        if self.parser.fails(s, e) {
            self.parser.lemma_fails_not_must_succeed(s, e);
        } else {
            let (v, mid, q) = choose|v: P::Out, mid: Seq<I::Item>, q: Q|
                #![trigger self.parser.ok(s, v, mid), q.fails(mid, e)]
                self.parser.ok(s, v, mid) && call_ensures(self.f, (v,), q) && q.fails(mid, e);
            q.lemma_fails_not_must_succeed(mid, e);
        }
    }

    proof fn lemma_ok_suffix(&self, s: Seq<I::Item>, u: Q::Out, rest: Seq<I::Item>) {
        let (v, mid, q) = choose|v: P::Out, mid: Seq<I::Item>, q: Q|
            #![trigger self.parser.ok(s, v, mid), q.ok(mid, u, rest)]
            self.parser.ok(s, v, mid) && call_ensures(self.f, (v,), q) && q.ok(mid, u, rest);
        self.parser.lemma_ok_suffix(s, v, mid);
        q.lemma_ok_suffix(mid, u, rest);
        lemma_suffix_trans(s, mid, rest);
    }
}

/// Or combinator - try left; if it fails, try right on the same input.
/// The left parser's partial consumption before its failure never leaks into
/// the right parser's attempt.
pub struct Or<L, R> {
    /// The alternative tried first.
    pub left: L,
    /// The alternative tried on the original input if the first fails.
    pub right: R,
}

impl<I: Input, L: Parser<I>, R: Parser<I, Out = L::Out>> Parser<I> for Or<L, R> {
    type Out = L::Out;

    open spec fn wf(&self) -> bool {
        self.left.wf() && self.right.wf()
    }

    open spec fn ok(&self, s: Seq<I::Item>, v: L::Out, rest: Seq<I::Item>) -> bool {
        ||| self.left.ok(s, v, rest)
        ||| may_fail(self.left, s) && self.right.ok(s, v, rest)
    }

    open spec fn fails(&self, s: Seq<I::Item>, e: ParseError<I>) -> bool {
        e matches ParseError::Many(errs) && errs@.len() == 2 && self.left.fails(s, errs@[0])
            && self.right.fails(s, errs@[1])
    }

    open spec fn must_succeed(&self, s: Seq<I::Item>) -> bool {
        self.left.must_succeed(s) || self.right.must_succeed(s)
    }

    open spec fn must_fail(&self, s: Seq<I::Item>) -> bool {
        self.left.must_fail(s) && self.right.must_fail(s)
    }

    fn parse(&self, input: I) -> (r: ParseResult<I, L::Out>) {
        let ghost s = input.seq();
        let saved = input.dup();
        match self.left.parse(input) {
            Ok((v, rest)) => Ok((v, rest)),
            Err(le) => match self.right.parse(saved) {
                Ok((v, rest)) => Ok((v, rest)),
                Err(re) => {
                    let mut errs: Vec<ParseError<I>> = Vec::new();
                    errs.push(le);
                    errs.push(re);
                    Err(ParseError::Many(errs))
                },
            },
        }
    }

    proof fn lemma_ok_not_must_fail(&self, s: Seq<I::Item>, v: L::Out, rest: Seq<I::Item>) {
        if self.left.ok(s, v, rest) {
            self.left.lemma_ok_not_must_fail(s, v, rest);
        } else {
            self.right.lemma_ok_not_must_fail(s, v, rest);
        }
    }

    proof fn lemma_fails_not_must_succeed(&self, s: Seq<I::Item>, e: ParseError<I>) {
        if let ParseError::Many(errs) = e {
            self.left.lemma_fails_not_must_succeed(s, errs@[0]);
            self.right.lemma_fails_not_must_succeed(s, errs@[1]);
        }
    }

    proof fn lemma_ok_suffix(&self, s: Seq<I::Item>, v: L::Out, rest: Seq<I::Item>) {
        if self.left.ok(s, v, rest) {
            self.left.lemma_ok_suffix(s, v, rest);
        } else {
            self.right.lemma_ok_suffix(s, v, rest);
        }
    }
}

/// Optional combinator - absorbs the failure of its parser into a `None`
/// result that consumes nothing.
pub struct Optional<P> {
    /// The parser whose failure is absorbed.
    pub parser: P,
}

impl<I: Input, P: Parser<I>> Parser<I> for Optional<P> {
    type Out = Option<P::Out>;

    open spec fn wf(&self) -> bool {
        self.parser.wf()
    }

    open spec fn ok(&self, s: Seq<I::Item>, v: Option<P::Out>, rest: Seq<I::Item>) -> bool {
        match v {
            Some(x) => self.parser.ok(s, x, rest),
            None => rest == s && !self.parser.must_succeed(s),
        }
    }

    open spec fn fails(&self, s: Seq<I::Item>, e: ParseError<I>) -> bool {
        false
    }

    open spec fn must_succeed(&self, s: Seq<I::Item>) -> bool {
        true
    }

    open spec fn must_fail(&self, s: Seq<I::Item>) -> bool {
        false
    }

    fn parse(&self, input: I) -> (r: ParseResult<I, Option<P::Out>>) {
        let attempt = input.dup();
        match self.parser.parse(attempt) {
            Ok((v, rest)) => Ok((Some(v), rest)),
            Err(_) => Ok((None, input)),
        }
    }

    proof fn lemma_ok_not_must_fail(&self, s: Seq<I::Item>, v: Option<P::Out>, rest: Seq<I::Item>) {
    }

    proof fn lemma_fails_not_must_succeed(&self, s: Seq<I::Item>, e: ParseError<I>) {
    }

    proof fn lemma_ok_suffix(&self, s: Seq<I::Item>, v: Option<P::Out>, rest: Seq<I::Item>) {
        match v {
            Some(x) => self.parser.lemma_ok_suffix(s, x, rest),
            None => assert(rest == s.skip(0)),
        }
    }
}

/// The relation describing repeated application: starting from `s`, the
/// element parser succeeds once per element of `vs`, yielding those values in
/// order and leaving `rest`.
pub open spec fn many_chain<I: Input, P: Parser<I>>(
    p: P,
    s: Seq<I::Item>,
    vs: Seq<P::Out>,
    rest: Seq<I::Item>,
) -> bool
    decreases vs.len(),
{
    if vs.len() == 0 {
        rest == s
    } else {
        exists|mid: Seq<I::Item>|
            #[trigger] p.ok(s, vs[0], mid) && many_chain(p, mid, vs.drop_first(), rest)
    }
}

/// A chain extends on the right by one more success.
pub proof fn lemma_many_chain_snoc<I: Input, P: Parser<I>>(
    p: P,
    s: Seq<I::Item>,
    vs: Seq<P::Out>,
    mid: Seq<I::Item>,
    v: P::Out,
    rest: Seq<I::Item>,
)
    requires
        many_chain(p, s, vs, mid),
        p.ok(mid, v, rest),
    ensures
        many_chain(p, s, vs.push(v), rest),
    decreases vs.len(),
{
    if vs.len() == 0 {
        assert(vs.push(v)[0] == v);
        assert(vs.push(v).drop_first() =~= Seq::<P::Out>::empty());
        assert(many_chain(p, rest, vs.push(v).drop_first(), rest));
        assert(p.ok(s, vs.push(v)[0], rest));
    } else {
        let m1 = choose|m1: Seq<I::Item>|
            #[trigger] p.ok(s, vs[0], m1) && many_chain(p, m1, vs.drop_first(), mid);
        lemma_many_chain_snoc(p, m1, vs.drop_first(), mid, v, rest);
        assert(vs.push(v).drop_first() =~= vs.drop_first().push(v));
        assert(vs.push(v)[0] == vs[0]);
        assert(p.ok(s, vs.push(v)[0], m1) && many_chain(p, m1, vs.push(v).drop_first(), rest));
    }
}

/// What remains after a chain is a suffix of what the chain started from.
pub proof fn lemma_many_chain_suffix<I: Input, P: Parser<I>>(
    p: P,
    s: Seq<I::Item>,
    vs: Seq<P::Out>,
    rest: Seq<I::Item>,
)
    requires
        p.wf(),
        many_chain(p, s, vs, rest),
    ensures
        rest.len() <= s.len(),
        rest == s.skip(s.len() - rest.len()),
    decreases vs.len(),
{
    if vs.len() == 0 {
        assert(rest == s.skip(0));
    } else {
        let mid = choose|mid: Seq<I::Item>|
            #[trigger] p.ok(s, vs[0], mid) && many_chain(p, mid, vs.drop_first(), rest);
        p.lemma_ok_suffix(s, vs[0], mid);
        lemma_many_chain_suffix(p, mid, vs.drop_first(), rest);
        lemma_suffix_trans(s, mid, rest);
    }
}

/// Many combinator - zero or more occurrences. It never fails: the attempt
/// that ends the repetition is absorbed, and the values accumulated up to it
/// are returned together with the input as of the last success.
pub struct Many<P> {
    /// The element parser.
    pub parser: P,
}

impl<I: Input, P: Parser<I>> Parser<I> for Many<P> where P::Out: Clone {
    type Out = Vec<P::Out>;

    open spec fn wf(&self) -> bool {
        self.parser.wf() && progressive(self.parser)
    }

    open spec fn ok(&self, s: Seq<I::Item>, v: Vec<P::Out>, rest: Seq<I::Item>) -> bool {
        many_chain(self.parser, s, v@, rest) && !self.parser.must_succeed(rest)
    }

    open spec fn fails(&self, s: Seq<I::Item>, e: ParseError<I>) -> bool {
        false
    }

    open spec fn must_succeed(&self, s: Seq<I::Item>) -> bool {
        true
    }

    open spec fn must_fail(&self, s: Seq<I::Item>) -> bool {
        false
    }

    fn parse(&self, input: I) -> (r: ParseResult<I, Vec<P::Out>>) {
        let ghost s0 = input.seq();
        let mut acc: Vec<P::Out> = Vec::new();
        let mut cur = input;
        loop
            invariant
                self.wf(),
                many_chain(self.parser, s0, acc@, cur.seq()),
            ensures
                many_chain(self.parser, s0, acc@, cur.seq()),
                !self.parser.must_succeed(cur.seq()),
            decreases cur.seq().len(),
        {
            match self.parser.parse(cur.dup()) {
                Ok((v, rest)) => {
                    proof {
                        lemma_many_chain_snoc(self.parser, s0, acc@, cur.seq(), v, rest.seq());
                    }
                    acc.push(v);
                    cur = rest;
                },
                Err(_) => {
                    break ;
                },
            }
        }
        Ok((acc, cur))
    }

    proof fn lemma_ok_not_must_fail(&self, s: Seq<I::Item>, v: Vec<P::Out>, rest: Seq<I::Item>) {
    }

    proof fn lemma_fails_not_must_succeed(&self, s: Seq<I::Item>, e: ParseError<I>) {
    }

    proof fn lemma_ok_suffix(&self, s: Seq<I::Item>, v: Vec<P::Out>, rest: Seq<I::Item>) {
        lemma_many_chain_suffix(self.parser, s, v@, rest);
    }
}

/// Many1 combinator - one or more occurrences. The first attempt's failure
/// propagates verbatim; afterwards it behaves as [`Many`].
pub struct Many1<P> {
    /// The element parser.
    pub parser: P,
}

impl<I: Input, P: Parser<I>> Parser<I> for Many1<P> where P::Out: Clone {
    type Out = Vec<P::Out>;

    open spec fn wf(&self) -> bool {
        self.parser.wf() && progressive(self.parser)
    }

    open spec fn ok(&self, s: Seq<I::Item>, v: Vec<P::Out>, rest: Seq<I::Item>) -> bool {
        v@.len() >= 1 && many_chain(self.parser, s, v@, rest) && !self.parser.must_succeed(rest)
    }

    open spec fn fails(&self, s: Seq<I::Item>, e: ParseError<I>) -> bool {
        self.parser.fails(s, e)
    }

    open spec fn must_succeed(&self, s: Seq<I::Item>) -> bool {
        self.parser.must_succeed(s)
    }

    open spec fn must_fail(&self, s: Seq<I::Item>) -> bool {
        self.parser.must_fail(s)
    }

    fn parse(&self, input: I) -> (r: ParseResult<I, Vec<P::Out>>) {
        let ghost s0 = input.seq();
        match self.parser.parse(input) {
            Ok((first, after)) => {
                let mut acc: Vec<P::Out> = Vec::new();
                acc.push(first);
                let mut cur = after;
                proof {
                    assert(acc@.drop_first() =~= Seq::<P::Out>::empty());
                    assert(many_chain(self.parser, cur.seq(), acc@.drop_first(), cur.seq()));
                    assert(self.parser.ok(s0, acc@[0], cur.seq()));
                    assert(many_chain(self.parser, s0, acc@, cur.seq()));
                }
                loop
                    invariant
                        self.wf(),
                        acc@.len() >= 1,
                        many_chain(self.parser, s0, acc@, cur.seq()),
                    ensures
                        acc@.len() >= 1,
                        many_chain(self.parser, s0, acc@, cur.seq()),
                        !self.parser.must_succeed(cur.seq()),
                    decreases cur.seq().len(),
                {
                    match self.parser.parse(cur.dup()) {
                        Ok((v, rest)) => {
                            proof {
                                lemma_many_chain_snoc(
                                    self.parser,
                                    s0,
                                    acc@,
                                    cur.seq(),
                                    v,
                                    rest.seq(),
                                );
                            }
                            acc.push(v);
                            cur = rest;
                        },
                        Err(_) => {
                            break ;
                        },
                    }
                }
                Ok((acc, cur))
            },
            Err(e) => Err(e),
        }
    }

    proof fn lemma_ok_not_must_fail(&self, s: Seq<I::Item>, v: Vec<P::Out>, rest: Seq<I::Item>) {
        let mid = choose|mid: Seq<I::Item>|
            #[trigger] self.parser.ok(s, v@[0], mid) && many_chain(
                self.parser,
                mid,
                v@.drop_first(),
                rest,
            );
        self.parser.lemma_ok_not_must_fail(s, v@[0], mid);
    }

    proof fn lemma_fails_not_must_succeed(&self, s: Seq<I::Item>, e: ParseError<I>) {
        self.parser.lemma_fails_not_must_succeed(s, e);
    }

    proof fn lemma_ok_suffix(&self, s: Seq<I::Item>, v: Vec<P::Out>, rest: Seq<I::Item>) {
        lemma_many_chain_suffix(self.parser, s, v@, rest);
    }
}

/// Restates the specification of a [`Mapped`] parser as explicit
/// equivalences. Spec functions of a trait implementation that is generic
/// over a closure type do not unfold at concrete closure instantiations;
/// this lemma hands their definitions to such call sites.
pub proof fn lemma_mapped_spec<I: Input, U, P: Parser<I>, F: Fn(P::Out) -> U>(m: Mapped<P, F>)
    ensures
        m.wf() <==> (m.parser.wf() && forall|s: Seq<I::Item>, v: P::Out, rest: Seq<I::Item>|
            m.parser.ok(s, v, rest) ==> call_requires(m.f, (v,))),
        forall|s: Seq<I::Item>, u: U, rest: Seq<I::Item>|
            #[trigger] m.ok(s, u, rest) <==> (exists|v: P::Out|
                #[trigger] m.parser.ok(s, v, rest) && call_ensures(m.f, (v,), u)),
        forall|s: Seq<I::Item>, e: ParseError<I>| #[trigger] m.fails(s, e) <==> m.parser.fails(
            s,
            e,
        ),
        forall|s: Seq<I::Item>| #[trigger] m.must_succeed(s) <==> m.parser.must_succeed(s),
        forall|s: Seq<I::Item>| #[trigger] m.must_fail(s) <==> m.parser.must_fail(s),
{
}

/// For a chain of parsers that consume exactly the head item and yield it as
/// their value, the chained values are exactly the consumed prefix, and each
/// link is a parse of the corresponding suffix.
pub proof fn lemma_many_chain_items<I: Input, P: Parser<I, Out = I::Item>>(
    p: P,
    s: Seq<I::Item>,
    vs: Seq<I::Item>,
    rest: Seq<I::Item>,
)
    requires
        many_chain(p, s, vs, rest),
        forall|s2: Seq<I::Item>, v2: I::Item, r2: Seq<I::Item>| #[trigger]
            p.ok(s2, v2, r2) ==> s2.len() > 0 && v2 == s2[0] && r2 == s2.drop_first(),
    ensures
        vs.len() <= s.len(),
        vs == s.take(vs.len() as int),
        rest == s.skip(vs.len() as int),
        forall|i: int| 0 <= i < vs.len() ==> p.ok(s.skip(i), s[i], s.skip(i + 1)),
    decreases vs.len(),
{
    if vs.len() == 0 {
        assert(s.take(0) =~= vs);
        assert(s.skip(0) =~= s);
    } else {
        let mid = choose|mid: Seq<I::Item>|
            #[trigger] p.ok(s, vs[0], mid) && many_chain(p, mid, vs.drop_first(), rest);
        assert(mid =~= s.skip(1));
        lemma_many_chain_items(p, mid, vs.drop_first(), rest);
        let n = vs.len() as int;
        assert(vs =~= s.take(n)) by {
            assert forall|j: int| 0 <= j < n implies vs[j] == s.take(n)[j] by {
                if j > 0 {
                    assert(vs.drop_first()[j - 1] == mid.take(n - 1)[j - 1]);
                }
            }
        }
        assert(rest == mid.skip(n - 1));
        assert(mid.skip(n - 1) =~= s.skip(n));
        assert forall|i: int| 0 <= i < n implies p.ok(s.skip(i), s[i], s.skip(i + 1)) by {
            if i == 0 {
                assert(s.skip(0) =~= s);
                assert(s.skip(1) == mid);
            } else {
                assert(p.ok(mid.skip(i - 1), mid[i - 1], mid.skip(i)));
                assert(mid.skip(i - 1) =~= s.skip(i));
                assert(mid.skip(i) =~= s.skip(i + 1));
                assert(mid[i - 1] == s[i]);
            }
        }
    }
}

/// The relation describing a left fold of a combining function over a
/// sequence of parsed values: from accumulator `a0`, folding `f` over `vs`
/// may produce `a`.
pub open spec fn folds<A, T, F: Fn(A, T) -> A>(f: F, a0: A, vs: Seq<T>, a: A) -> bool
    decreases vs.len(),
{
    if vs.len() == 0 {
        a == a0
    } else {
        exists|a1: A| #[trigger] call_ensures(f, (a0, vs[0]), a1) && folds(f, a1, vs.drop_first(), a)
    }
}

/// A fold extends on the right by one more combining step.
pub proof fn lemma_folds_snoc<A, T, F: Fn(A, T) -> A>(
    f: F,
    a0: A,
    vs: Seq<T>,
    a: A,
    v: T,
    a2: A,
)
    requires
        folds(f, a0, vs, a),
        call_ensures(f, (a, v), a2),
    ensures
        folds(f, a0, vs.push(v), a2),
    decreases vs.len(),
{
    if vs.len() == 0 {
        assert(vs.push(v)[0] == v);
        assert(vs.push(v).drop_first() =~= Seq::<T>::empty());
        assert(folds(f, a2, vs.push(v).drop_first(), a2));
    } else {
        let a1 = choose|a1: A| #[trigger] call_ensures(f, (a0, vs[0]), a1) && folds(
            f,
            a1,
            vs.drop_first(),
            a,
        );
        lemma_folds_snoc(f, a1, vs.drop_first(), a, v, a2);
        assert(vs.push(v).drop_first() =~= vs.drop_first().push(v));
        assert(vs.push(v)[0] == vs[0]);
        assert(call_ensures(f, (a0, vs.push(v)[0]), a1) && folds(
            f,
            a1,
            vs.push(v).drop_first(),
            a2,
        ));
    }
}

/// FoldMany0 combinator - fold over zero or more occurrences. Like [`Many`]
/// it never fails, but it combines the parsed values into an accumulator
/// instead of materializing a list.
pub struct FoldMany0<P, A, F> {
    /// The element parser.
    pub parser: P,
    /// The initial accumulator, duplicated on every parse.
    pub init: A,
    /// The combining function.
    pub f: F,
}

impl<I: Input, P: Parser<I>, A: Clone, F: Fn(A, P::Out) -> A> Parser<I> for FoldMany0<P, A, F> {
    type Out = A;

    open spec fn wf(&self) -> bool {
        &&& self.parser.wf()
        &&& progressive(self.parser)
        &&& forall|a: A, v: P::Out| call_requires(self.f, (a, v))
    }

    open spec fn ok(&self, s: Seq<I::Item>, a: A, rest: Seq<I::Item>) -> bool {
        exists|a0: A, vs: Seq<P::Out>|
            #![trigger folds(self.f, a0, vs, a)]
            vstd::pervasive::cloned::<A>(self.init, a0) && many_chain(self.parser, s, vs, rest)
                && folds(self.f, a0, vs, a) && !self.parser.must_succeed(rest)
    }

    open spec fn fails(&self, s: Seq<I::Item>, e: ParseError<I>) -> bool {
        false
    }

    open spec fn must_succeed(&self, s: Seq<I::Item>) -> bool {
        true
    }

    open spec fn must_fail(&self, s: Seq<I::Item>) -> bool {
        false
    }

    fn parse(&self, input: I) -> (r: ParseResult<I, A>) {
        let ghost s0 = input.seq();
        let mut acc = self.init.clone();
        let ghost a0 = acc;
        let ghost mut vs: Seq<P::Out> = Seq::empty();
        let mut cur = input;
        loop
            invariant
                self.wf(),
                vstd::pervasive::cloned::<A>(self.init, a0),
                many_chain(self.parser, s0, vs, cur.seq()),
                folds(self.f, a0, vs, acc),
            ensures
                vstd::pervasive::cloned::<A>(self.init, a0),
                many_chain(self.parser, s0, vs, cur.seq()),
                folds(self.f, a0, vs, acc),
                !self.parser.must_succeed(cur.seq()),
            decreases cur.seq().len(),
        {
            match self.parser.parse(cur.dup()) {
                Ok((v, rest)) => {
                    let ghost prev = acc;
                    let ghost vg = v;
                    acc = (self.f)(acc, v);
                    proof {
                        lemma_many_chain_snoc(self.parser, s0, vs, cur.seq(), vg, rest.seq());
                        lemma_folds_snoc(self.f, a0, vs, prev, vg, acc);
                        vs = vs.push(vg);
                    }
                    cur = rest;
                },
                Err(_) => {
                    break ;
                },
            }
        }
        Ok((acc, cur))
    }

    proof fn lemma_ok_not_must_fail(&self, s: Seq<I::Item>, a: A, rest: Seq<I::Item>) {
    }

    proof fn lemma_fails_not_must_succeed(&self, s: Seq<I::Item>, e: ParseError<I>) {
    }

    proof fn lemma_ok_suffix(&self, s: Seq<I::Item>, a: A, rest: Seq<I::Item>) {
        let (a0, vs) = choose|a0: A, vs: Seq<P::Out>|
            #![trigger folds(self.f, a0, vs, a)]
            vstd::pervasive::cloned::<A>(self.init, a0) && many_chain(self.parser, s, vs, rest)
                && folds(self.f, a0, vs, a) && !self.parser.must_succeed(rest);
        lemma_many_chain_suffix(self.parser, s, vs, rest);
    }
}

/// FoldMany1 combinator - fold over one or more occurrences. The first
/// attempt's failure propagates verbatim; afterwards it behaves as
/// [`FoldMany0`].
pub struct FoldMany1<P, A, F> {
    /// The element parser.
    pub parser: P,
    /// The initial accumulator, duplicated on every parse.
    pub init: A,
    /// The combining function.
    pub f: F,
}

impl<I: Input, P: Parser<I>, A: Clone, F: Fn(A, P::Out) -> A> Parser<I> for FoldMany1<P, A, F> {
    type Out = A;

    open spec fn wf(&self) -> bool {
        &&& self.parser.wf()
        &&& progressive(self.parser)
        &&& forall|a: A, v: P::Out| call_requires(self.f, (a, v))
    }

    open spec fn ok(&self, s: Seq<I::Item>, a: A, rest: Seq<I::Item>) -> bool {
        exists|a0: A, vs: Seq<P::Out>|
            #![trigger folds(self.f, a0, vs, a)]
            vs.len() >= 1 && vstd::pervasive::cloned::<A>(self.init, a0) && many_chain(
                self.parser,
                s,
                vs,
                rest,
            ) && folds(self.f, a0, vs, a) && !self.parser.must_succeed(rest)
    }

    open spec fn fails(&self, s: Seq<I::Item>, e: ParseError<I>) -> bool {
        self.parser.fails(s, e)
    }

    open spec fn must_succeed(&self, s: Seq<I::Item>) -> bool {
        self.parser.must_succeed(s)
    }

    open spec fn must_fail(&self, s: Seq<I::Item>) -> bool {
        self.parser.must_fail(s)
    }

    fn parse(&self, input: I) -> (r: ParseResult<I, A>) {
        let ghost s0 = input.seq();
        match self.parser.parse(input) {
            Ok((first, after)) => {
                let ghost firstg = first;
                let init = self.init.clone();
                let ghost a0 = init;
                let mut acc = (self.f)(init, first);
                let ghost mut vs: Seq<P::Out> = seq![firstg];
                let mut cur = after;
                proof {
                    assert(vs.drop_first() =~= Seq::<P::Out>::empty());
                    assert(many_chain(self.parser, cur.seq(), vs.drop_first(), cur.seq()));
                    assert(self.parser.ok(s0, vs[0], cur.seq()));
                    assert(many_chain(self.parser, s0, vs, cur.seq()));
                    assert(call_ensures(self.f, (a0, vs[0]), acc));
                    assert(folds(self.f, acc, vs.drop_first(), acc));
                    assert(folds(self.f, a0, vs, acc));
                }
                loop
                    invariant
                        self.wf(),
                        vs.len() >= 1,
                        vstd::pervasive::cloned::<A>(self.init, a0),
                        many_chain(self.parser, s0, vs, cur.seq()),
                        folds(self.f, a0, vs, acc),
                    ensures
                        vs.len() >= 1,
                        vstd::pervasive::cloned::<A>(self.init, a0),
                        many_chain(self.parser, s0, vs, cur.seq()),
                        folds(self.f, a0, vs, acc),
                        !self.parser.must_succeed(cur.seq()),
                    decreases cur.seq().len(),
                {
                    match self.parser.parse(cur.dup()) {
                        Ok((v, rest)) => {
                            let ghost prev = acc;
                            let ghost vg = v;
                            acc = (self.f)(acc, v);
                            proof {
                                lemma_many_chain_snoc(
                                    self.parser,
                                    s0,
                                    vs,
                                    cur.seq(),
                                    vg,
                                    rest.seq(),
                                );
                                lemma_folds_snoc(self.f, a0, vs, prev, vg, acc);
                                vs = vs.push(vg);
                            }
                            cur = rest;
                        },
                        Err(_) => {
                            break ;
                        },
                    }
                }
                Ok((acc, cur))
            },
            Err(e) => Err(e),
        }
    }

    proof fn lemma_ok_not_must_fail(&self, s: Seq<I::Item>, a: A, rest: Seq<I::Item>) {
        let (a0, vs) = choose|a0: A, vs: Seq<P::Out>|
            #![trigger folds(self.f, a0, vs, a)]
            vs.len() >= 1 && vstd::pervasive::cloned::<A>(self.init, a0) && many_chain(
                self.parser,
                s,
                vs,
                rest,
            ) && folds(self.f, a0, vs, a) && !self.parser.must_succeed(rest);
        let mid = choose|mid: Seq<I::Item>|
            #[trigger] self.parser.ok(s, vs[0], mid) && many_chain(
                self.parser,
                mid,
                vs.drop_first(),
                rest,
            );
        self.parser.lemma_ok_not_must_fail(s, vs[0], mid);
    }

    proof fn lemma_fails_not_must_succeed(&self, s: Seq<I::Item>, e: ParseError<I>) {
        self.parser.lemma_fails_not_must_succeed(s, e);
    }

    proof fn lemma_ok_suffix(&self, s: Seq<I::Item>, a: A, rest: Seq<I::Item>) {
        let (a0, vs) = choose|a0: A, vs: Seq<P::Out>|
            #![trigger folds(self.f, a0, vs, a)]
            vs.len() >= 1 && vstd::pervasive::cloned::<A>(self.init, a0) && many_chain(
                self.parser,
                s,
                vs,
                rest,
            ) && folds(self.f, a0, vs, a) && !self.parser.must_succeed(rest);
        lemma_many_chain_suffix(self.parser, s, vs, rest);
    }
}

} // verus!
