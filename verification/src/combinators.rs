//! Basic parsing primitives and utility combinators.

use core::marker::PhantomData;
use vstd::prelude::*;

use crate::error::ParseError;
use crate::error::ParseResult;
use crate::error::debug_string;
use crate::input::Input;
use crate::parser::Parser;
use crate::parser::PrecededBy;
use crate::parser::Skip;
use crate::parser::lemma_suffix_trans;
use crate::parser::may_fail;
use crate::parser::progressive;

verus! {

/// Consumes any single item from the input.
pub fn item<I: Input>() -> (r: Item<I>) {
    Item { _phantom: PhantomData }
}

/// Parser that consumes exactly one item, whatever it is, and fails only on
/// exhausted input.
pub struct Item<I> {
    pub _phantom: PhantomData<I>,
}

impl<I: Input> Parser<I> for Item<I> {
    type Out = I::Item;

    open spec fn wf(&self) -> bool {
        true
    }

    open spec fn ok(&self, s: Seq<I::Item>, v: I::Item, rest: Seq<I::Item>) -> bool {
        s.len() > 0 && v == s[0] && rest == s.drop_first()
    }

    open spec fn fails(&self, s: Seq<I::Item>, e: ParseError<I>) -> bool {
        s.len() == 0 && e is UnexpectedEof
    }

    open spec fn must_succeed(&self, s: Seq<I::Item>) -> bool {
        s.len() > 0
    }

    open spec fn must_fail(&self, s: Seq<I::Item>) -> bool {
        s.len() == 0
    }

    fn parse(&self, input: I) -> (r: ParseResult<I, I::Item>) {
        match input.uncons() {
            Some((x, rest)) => Ok((x, rest)),
            None => Err(ParseError::UnexpectedEof),
        }
    }

    proof fn lemma_ok_not_must_fail(&self, s: Seq<I::Item>, v: I::Item, rest: Seq<I::Item>) {
    }

    proof fn lemma_fails_not_must_succeed(&self, s: Seq<I::Item>, e: ParseError<I>) {
    }

    proof fn lemma_ok_suffix(&self, s: Seq<I::Item>, v: I::Item, rest: Seq<I::Item>) {
        assert(rest =~= s.skip(1));
    }
}

/// The error a [`Satisfy`] parser reports when the head item does not pass
/// its predicate: the generic description, carrying the input at the failure
/// point.
pub open spec fn expected_item_error<I: Input>(e: ParseError<I>, s: Seq<I::Item>) -> bool {
    e matches ParseError::Expected { expected, found, input } && expected@
        == "item satisfying predicate"@ && (found matches Some(f) && f@ == "different item"@)
        && input.seq() == s
}

/// Parses an item that satisfies the given predicate.
pub fn satisfy<I: Input, F: Fn(&I::Item) -> bool>(predicate: F) -> (r: Satisfy<I, F>)
    ensures
        r.predicate == predicate,
{
    Satisfy { predicate, _phantom: PhantomData }
}

/// Parser that consumes one item if the predicate accepts it. Its error
/// message is intentionally generic, not predicate-specific.
pub struct Satisfy<I, F> {
    /// The predicate an item must pass.
    pub predicate: F,
    pub _phantom: PhantomData<I>,
}

impl<I: Input, F: Fn(&I::Item) -> bool> Parser<I> for Satisfy<I, F> {
    type Out = I::Item;

    open spec fn wf(&self) -> bool {
        forall|x: I::Item| call_requires(self.predicate, (&x,))
    }

    open spec fn ok(&self, s: Seq<I::Item>, v: I::Item, rest: Seq<I::Item>) -> bool {
        s.len() > 0 && v == s[0] && rest == s.drop_first() && call_ensures(
            self.predicate,
            (&s[0],),
            true,
        )
    }

    open spec fn fails(&self, s: Seq<I::Item>, e: ParseError<I>) -> bool {
        ||| s.len() == 0 && e is UnexpectedEof
        ||| s.len() > 0 && call_ensures(self.predicate, (&s[0],), false) && expected_item_error(
            e,
            s,
        )
    }

    open spec fn must_succeed(&self, s: Seq<I::Item>) -> bool {
        s.len() > 0 && forall|b: bool| call_ensures(self.predicate, (&s[0],), b) ==> b
    }

    open spec fn must_fail(&self, s: Seq<I::Item>) -> bool {
        s.len() == 0 || forall|b: bool| call_ensures(self.predicate, (&s[0],), b) ==> !b
    }

    fn parse(&self, input: I) -> (r: ParseResult<I, I::Item>) {
        let ghost s = input.seq();
        match input.uncons() {
            Some((x, rest)) => {
                if (self.predicate)(&x) {
                    Ok((x, rest))
                } else {
                    Err(
                        ParseError::expected(
                            "item satisfying predicate".to_owned(),
                            Some("different item".to_owned()),
                            input,
                        ),
                    )
                }
            },
            None => Err(ParseError::UnexpectedEof),
        }
    }

    proof fn lemma_ok_not_must_fail(&self, s: Seq<I::Item>, v: I::Item, rest: Seq<I::Item>) {
    }

    proof fn lemma_fails_not_must_succeed(&self, s: Seq<I::Item>, e: ParseError<I>) {
    }

    proof fn lemma_ok_suffix(&self, s: Seq<I::Item>, v: I::Item, rest: Seq<I::Item>) {
        assert(rest =~= s.skip(1));
    }
}

/// Restates the specification of a [`Satisfy`] parser as explicit
/// equivalences. Spec functions of a trait implementation that is generic
/// over a closure type do not unfold at concrete closure instantiations;
/// this lemma hands their definitions to such call sites.
pub proof fn lemma_satisfy_spec<I: Input, F: Fn(&I::Item) -> bool>(p: Satisfy<I, F>)
    ensures
        p.wf() <==> (forall|x: I::Item| call_requires(p.predicate, (&x,))),
        forall|s: Seq<I::Item>, v: I::Item, rest: Seq<I::Item>|
            #[trigger] p.ok(s, v, rest) <==> (s.len() > 0 && v == s[0] && rest == s.drop_first()
                && call_ensures(p.predicate, (&s[0],), true)),
        forall|s: Seq<I::Item>, e: ParseError<I>|
            #[trigger] p.fails(s, e) <==> ((s.len() == 0 && e is UnexpectedEof) || (s.len() > 0
                && call_ensures(p.predicate, (&s[0],), false) && expected_item_error(e, s))),
        forall|s: Seq<I::Item>|
            #[trigger] p.must_succeed(s) <==> (s.len() > 0 && forall|b: bool|
                call_ensures(p.predicate, (&s[0],), b) ==> b),
        forall|s: Seq<I::Item>|
            #[trigger] p.must_fail(s) <==> (s.len() == 0 || forall|b: bool|
                call_ensures(p.predicate, (&s[0],), b) ==> !b),
{
}

/// The full specification of "classify a run and collect it": a
/// [`Satisfy`] parser repeated with [`crate::parser::Many`] and post-processed with
/// [`crate::parser::Mapped`]. Stated in terms of the captured functions and sequence
/// operations alone, so that call sites whose closure types block the
/// unfolding of the intermediate combinators' spec functions can still use
/// it.
pub proof fn lemma_classified_run_spec<I: Input, U, F: Fn(&I::Item) -> bool, G: Fn(
    Vec<I::Item>,
) -> U>(r: crate::parser::Mapped<crate::parser::Many<Satisfy<I, F>>, G>)
    ensures
        ((forall|x: I::Item| call_requires(r.parser.parser.predicate, (&x,))) && (forall|
            cs: Vec<I::Item>,
        |
            call_requires(r.f, (cs,)))) ==> r.wf(),
        forall|s: Seq<I::Item>, u: U, rest: Seq<I::Item>| #[trigger]
            r.ok(s, u, rest) ==> (exists|cs: Vec<I::Item>|
                {
                    &&& #[trigger] call_ensures(r.f, (cs,), u)
                    &&& cs@.len() <= s.len()
                    &&& cs@ == s.take(cs@.len() as int)
                    &&& rest == s.skip(cs@.len() as int)
                    &&& forall|i: int|
                        0 <= i < cs@.len() ==> call_ensures(
                            r.parser.parser.predicate,
                            (&s[i],),
                            true,
                        )
                    &&& rest.len() > 0 ==> exists|b: bool|
                        call_ensures(r.parser.parser.predicate, (&rest[0],), b) && !b
                }),
        forall|s: Seq<I::Item>| #[trigger] r.must_succeed(s),
        forall|s: Seq<I::Item>| !(#[trigger] r.must_fail(s)),
        forall|s: Seq<I::Item>, e: ParseError<I>| !(#[trigger] r.fails(s, e)),
{
    let p = r.parser.parser;
    assert forall|s: Seq<I::Item>, u: U, rest: Seq<I::Item>| #[trigger]
        r.ok(s, u, rest) implies (exists|cs: Vec<I::Item>|
        {
            &&& #[trigger] call_ensures(r.f, (cs,), u)
            &&& cs@.len() <= s.len()
            &&& cs@ == s.take(cs@.len() as int)
            &&& rest == s.skip(cs@.len() as int)
            &&& forall|i: int|
                0 <= i < cs@.len() ==> call_ensures(p.predicate, (&s[i],), true)
            &&& rest.len() > 0 ==> exists|b: bool| call_ensures(p.predicate, (&rest[0],), b) && !b
        }) by {
        let cs = choose|cs: Vec<I::Item>| #[trigger]
            r.parser.ok(s, cs, rest) && call_ensures(r.f, (cs,), u);
        crate::parser::lemma_many_chain_items(p, s, cs@, rest);
        assert forall|i: int| 0 <= i < cs@.len() implies call_ensures(
            p.predicate,
            (&s[i],),
            true,
        ) by {
            assert(p.ok(s.skip(i), s[i], s.skip(i + 1)));
            assert(s.skip(i)[0] == s[i]);
        }
        if rest.len() > 0 {
            assert(!p.must_succeed(rest));
        }
        assert((exists|cs2: Vec<I::Item>|
            {
                &&& #[trigger] call_ensures(r.f, (cs2,), u)
                &&& cs2@.len() <= s.len()
                &&& cs2@ == s.take(cs2@.len() as int)
                &&& rest == s.skip(cs2@.len() as int)
                &&& forall|i: int|
                    0 <= i < cs2@.len() ==> call_ensures(p.predicate, (&s[i],), true)
                &&& rest.len() > 0 ==> exists|b: bool|
                    call_ensures(p.predicate, (&rest[0],), b) && !b
            })) by {
            assert(call_ensures(r.f, (cs,), u) && cs@.len() <= s.len() && cs@ == s.take(
                cs@.len() as int,
            ) && rest == s.skip(cs@.len() as int));
        }
    }
}

/// As [`lemma_classified_run_spec`], for the one-or-more repetition: the
/// same shape over [`crate::parser::Many1`].
pub proof fn lemma_classified_run1_spec<I: Input, U, F: Fn(&I::Item) -> bool, G: Fn(
    Vec<I::Item>,
) -> U>(r: crate::parser::Mapped<crate::parser::Many1<Satisfy<I, F>>, G>)
    ensures
        ((forall|x: I::Item| call_requires(r.parser.parser.predicate, (&x,))) && (forall|
            cs: Vec<I::Item>,
        |
            call_requires(r.f, (cs,)))) ==> r.wf(),
        forall|s: Seq<I::Item>, u: U, rest: Seq<I::Item>| #[trigger]
            r.ok(s, u, rest) ==> (exists|cs: Vec<I::Item>|
                {
                    &&& #[trigger] call_ensures(r.f, (cs,), u)
                    &&& 1 <= cs@.len() <= s.len()
                    &&& cs@ == s.take(cs@.len() as int)
                    &&& rest == s.skip(cs@.len() as int)
                    &&& forall|i: int|
                        0 <= i < cs@.len() ==> call_ensures(
                            r.parser.parser.predicate,
                            (&s[i],),
                            true,
                        )
                    &&& rest.len() > 0 ==> exists|b: bool|
                        call_ensures(r.parser.parser.predicate, (&rest[0],), b) && !b
                }),
        forall|s: Seq<I::Item>|
            s.len() > 0 && (forall|b: bool|
                call_ensures(r.parser.parser.predicate, (&s[0],), b) ==> b) ==> #[trigger]
                r.must_succeed(s),
        forall|s: Seq<I::Item>|
            (s.len() == 0 || (forall|b: bool|
                call_ensures(r.parser.parser.predicate, (&s[0],), b) ==> !b)) ==> #[trigger]
                r.must_fail(s),
        forall|s: Seq<I::Item>, e: ParseError<I>| #[trigger]
            r.fails(s, e) ==> ((s.len() == 0 && e is UnexpectedEof) || (s.len() > 0
                && call_ensures(r.parser.parser.predicate, (&s[0],), false)
                && expected_item_error(e, s))),
{
    let p = r.parser.parser;
    assert forall|s: Seq<I::Item>, u: U, rest: Seq<I::Item>| #[trigger]
        r.ok(s, u, rest) implies (exists|cs: Vec<I::Item>|
        {
            &&& #[trigger] call_ensures(r.f, (cs,), u)
            &&& 1 <= cs@.len() <= s.len()
            &&& cs@ == s.take(cs@.len() as int)
            &&& rest == s.skip(cs@.len() as int)
            &&& forall|i: int|
                0 <= i < cs@.len() ==> call_ensures(p.predicate, (&s[i],), true)
            &&& rest.len() > 0 ==> exists|b: bool| call_ensures(p.predicate, (&rest[0],), b) && !b
        }) by {
        let cs = choose|cs: Vec<I::Item>| #[trigger]
            r.parser.ok(s, cs, rest) && call_ensures(r.f, (cs,), u);
        crate::parser::lemma_many_chain_items(p, s, cs@, rest);
        assert forall|i: int| 0 <= i < cs@.len() implies call_ensures(
            p.predicate,
            (&s[i],),
            true,
        ) by {
            assert(p.ok(s.skip(i), s[i], s.skip(i + 1)));
            assert(s.skip(i)[0] == s[i]);
        }
        if rest.len() > 0 {
            assert(!p.must_succeed(rest));
        }
        assert((exists|cs2: Vec<I::Item>|
            {
                &&& #[trigger] call_ensures(r.f, (cs2,), u)
                &&& 1 <= cs2@.len() <= s.len()
                &&& cs2@ == s.take(cs2@.len() as int)
                &&& rest == s.skip(cs2@.len() as int)
                &&& forall|i: int|
                    0 <= i < cs2@.len() ==> call_ensures(p.predicate, (&s[i],), true)
                &&& rest.len() > 0 ==> exists|b: bool|
                    call_ensures(p.predicate, (&rest[0],), b) && !b
            })) by {
            assert(call_ensures(r.f, (cs,), u) && 1 <= cs@.len() <= s.len() && cs@ == s.take(
                cs@.len() as int,
            ) && rest == s.skip(cs@.len() as int));
        }
    }
}

/// Parses one specific item, compared by value equality.
pub fn token<I: Input>(expected: I::Item) -> (r: Token<I>)
    ensures
        r.expected == expected,
{
    Token { expected }
}

/// Parser that consumes one item if it equals the expected one.
pub struct Token<I: Input> {
    /// The item the input must start with.
    pub expected: I::Item,
}

impl<I: Input> Parser<I> for Token<I> {
    type Out = I::Item;

    open spec fn wf(&self) -> bool {
        true
    }

    open spec fn ok(&self, s: Seq<I::Item>, v: I::Item, rest: Seq<I::Item>) -> bool {
        s.len() > 0 && s[0] == self.expected && v == s[0] && rest == s.drop_first()
    }

    open spec fn fails(&self, s: Seq<I::Item>, e: ParseError<I>) -> bool {
        ||| s.len() == 0 && e is UnexpectedEof
        ||| s.len() > 0 && s[0] != self.expected && (e matches ParseError::Expected {
            expected,
            found,
            input,
        } && found is Some && input.seq() == s)
    }

    open spec fn must_succeed(&self, s: Seq<I::Item>) -> bool {
        s.len() > 0 && s[0] == self.expected
    }

    open spec fn must_fail(&self, s: Seq<I::Item>) -> bool {
        s.len() == 0 || s[0] != self.expected
    }

    fn parse(&self, input: I) -> (r: ParseResult<I, I::Item>) {
        match input.uncons() {
            Some((x, rest)) => {
                if I::item_eq(&x, &self.expected) {
                    Ok((x, rest))
                } else {
                    let description = debug_string(&self.expected);
                    let found = debug_string(&x);
                    Err(ParseError::expected(description, Some(found), input))
                }
            },
            None => Err(ParseError::UnexpectedEof),
        }
    }

    proof fn lemma_ok_not_must_fail(&self, s: Seq<I::Item>, v: I::Item, rest: Seq<I::Item>) {
    }

    proof fn lemma_fails_not_must_succeed(&self, s: Seq<I::Item>, e: ParseError<I>) {
    }

    proof fn lemma_ok_suffix(&self, s: Seq<I::Item>, v: I::Item, rest: Seq<I::Item>) {
        assert(rest =~= s.skip(1));
    }
}

/// Succeeds without consuming input (empty parser).
/// This is an alias for `pure` from the parser module.
pub fn empty<I: Input, T: Clone>(value: T) -> (r: crate::parser::Pure<I, T>)
    ensures
        r.value == value,
{
    crate::parser::pure(value)
}

/// Parses between two delimiters: composed from `preceded_by` and `skip`, so
/// its specification is exactly theirs.
pub fn between<I: Input, L: Parser<I>, P: Parser<I>, R: Parser<I>>(
    left: L,
    parser: P,
    right: R,
) -> (r: Skip<PrecededBy<L, P>, R>)
    ensures
        r.left.first == left,
        r.left.second == parser,
        r.right == right,
{
    parser.preceded_by(left).skip(right)
}

/// Choice between multiple parsers: tries each in order on the same input;
/// the first success wins, and if all fail the error aggregates every
/// alternative's error in try-order.
pub fn choice<I: Input, P: Parser<I>>(parsers: Vec<P>) -> (r: Choice<P>)
    ensures
        r.parsers == parsers,
{
    Choice { parsers }
}

/// Parser trying a list of alternatives in order.
pub struct Choice<P> {
    /// The alternatives, in the order they are tried.
    pub parsers: Vec<P>,
}

impl<I: Input, P: Parser<I>> Parser<I> for Choice<P> {
    type Out = P::Out;

    open spec fn wf(&self) -> bool {
        forall|i: int| 0 <= i < self.parsers@.len() ==> (#[trigger] self.parsers@[i]).wf()
    }

    open spec fn ok(&self, s: Seq<I::Item>, v: P::Out, rest: Seq<I::Item>) -> bool {
        exists|i: int|
            0 <= i < self.parsers@.len() && (#[trigger] self.parsers@[i]).ok(s, v, rest) && (
            forall|j: int| 0 <= j < i ==> may_fail(#[trigger] self.parsers@[j], s))
    }

    open spec fn fails(&self, s: Seq<I::Item>, e: ParseError<I>) -> bool {
        e matches ParseError::Many(errs) && errs@.len() == self.parsers@.len() && forall|i: int|
            0 <= i < errs@.len() ==> (#[trigger] self.parsers@[i]).fails(s, errs@[i])
    }

    open spec fn must_succeed(&self, s: Seq<I::Item>) -> bool {
        exists|i: int| 0 <= i < self.parsers@.len() && (#[trigger] self.parsers@[i]).must_succeed(s)
    }

    open spec fn must_fail(&self, s: Seq<I::Item>) -> bool {
        forall|i: int| 0 <= i < self.parsers@.len() ==> (#[trigger] self.parsers@[i]).must_fail(s)
    }

    fn parse(&self, input: I) -> (r: ParseResult<I, P::Out>) {
        let ghost s = input.seq();
        let mut errors: Vec<ParseError<I>> = Vec::new();
        let n = self.parsers.len();
        let mut idx: usize = 0;
        while idx < n
            invariant
                self.wf(),
                n == self.parsers@.len(),
                idx == errors@.len(),
                idx <= n,
                input.seq() == s,
                forall|j: int|
                    0 <= j < idx ==> (#[trigger] self.parsers@[j]).fails(s, errors@[j]),
                forall|j: int| 0 <= j < idx ==> !(#[trigger] self.parsers@[j]).must_succeed(s),
            decreases n - idx,
        {
            match self.parsers[idx].parse(input.dup()) {
                Ok((v, rest)) => {
                    proof {
                        assert((self.parsers@[idx as int]).ok(s, v, rest.seq()));
                        self.parsers@[idx as int].lemma_ok_not_must_fail(s, v, rest.seq());
                    }
                    return Ok((v, rest));
                },
                Err(e) => {
                    errors.push(e);
                    idx += 1;
                },
            }
        }
        Err(ParseError::many(errors))
    }

    proof fn lemma_ok_not_must_fail(&self, s: Seq<I::Item>, v: P::Out, rest: Seq<I::Item>) {
        let i = choose|i: int|
            0 <= i < self.parsers@.len() && (#[trigger] self.parsers@[i]).ok(s, v, rest) && (
            forall|j: int| 0 <= j < i ==> may_fail(#[trigger] self.parsers@[j], s));
        self.parsers@[i].lemma_ok_not_must_fail(s, v, rest);
    }

    proof fn lemma_fails_not_must_succeed(&self, s: Seq<I::Item>, e: ParseError<I>) {
        if let ParseError::Many(errs) = e {
            assert forall|i: int|
                0 <= i < self.parsers@.len() implies !(#[trigger] self.parsers@[i]).must_succeed(
                s,
            ) by {
                self.parsers@[i].lemma_fails_not_must_succeed(s, errs@[i]);
            }
        }
    }

    proof fn lemma_ok_suffix(&self, s: Seq<I::Item>, v: P::Out, rest: Seq<I::Item>) {
        let i = choose|i: int|
            0 <= i < self.parsers@.len() && (#[trigger] self.parsers@[i]).ok(s, v, rest) && (
            forall|j: int| 0 <= j < i ==> may_fail(#[trigger] self.parsers@[j], s));
        self.parsers@[i].lemma_ok_suffix(s, v, rest);
    }
}

/// The relation describing the tail of a separated list: from `s`, a
/// separator and then an element are parsed once per element of `vs`,
/// yielding those values in order and leaving `rest`.
pub open spec fn sep_chain<I: Input, P: Parser<I>, S: Parser<I>>(
    p: P,
    sep: S,
    s: Seq<I::Item>,
    vs: Seq<P::Out>,
    rest: Seq<I::Item>,
) -> bool
    decreases vs.len(),
{
    if vs.len() == 0 {
        rest == s
    } else {
        exists|u: S::Out, m1: Seq<I::Item>, m2: Seq<I::Item>|
            #![trigger sep.ok(s, u, m1), p.ok(m1, vs[0], m2)]
            sep.ok(s, u, m1) && p.ok(m1, vs[0], m2) && sep_chain(p, sep, m2, vs.drop_first(), rest)
    }
}

/// Why a separated list stopped at `rest`: either another separator cannot be
/// counted on there, or a separator can be parsed but no element can be
/// counted on after it. In the second case the separator's consumption has
/// been backtracked: `rest` still starts with it.
pub open spec fn sep_stop<I: Input, P: Parser<I>, S: Parser<I>>(
    p: P,
    sep: S,
    rest: Seq<I::Item>,
) -> bool {
    ||| !sep.must_succeed(rest)
    ||| exists|u: S::Out, m1: Seq<I::Item>| #[trigger] sep.ok(rest, u, m1) && !p.must_succeed(m1)
}

/// A separator chain extends on the right by one separator and one element.
pub proof fn lemma_sep_chain_snoc<I: Input, P: Parser<I>, S: Parser<I>>(
    p: P,
    sep: S,
    s: Seq<I::Item>,
    vs: Seq<P::Out>,
    rest: Seq<I::Item>,
    u: S::Out,
    m1: Seq<I::Item>,
    v: P::Out,
    m2: Seq<I::Item>,
)
    requires
        sep_chain(p, sep, s, vs, rest),
        sep.ok(rest, u, m1),
        p.ok(m1, v, m2),
    ensures
        sep_chain(p, sep, s, vs.push(v), m2),
    decreases vs.len(),
{
    if vs.len() == 0 {
        assert(vs.push(v)[0] == v);
        assert(vs.push(v).drop_first() =~= Seq::<P::Out>::empty());
        assert(sep_chain(p, sep, m2, vs.push(v).drop_first(), m2));
        assert(sep.ok(s, u, m1) && p.ok(m1, vs.push(v)[0], m2));
    } else {
        let (u0, n1, n2) = choose|u0: S::Out, n1: Seq<I::Item>, n2: Seq<I::Item>|
            #![trigger sep.ok(s, u0, n1), p.ok(n1, vs[0], n2)]
            sep.ok(s, u0, n1) && p.ok(n1, vs[0], n2) && sep_chain(
                p,
                sep,
                n2,
                vs.drop_first(),
                rest,
            );
        lemma_sep_chain_snoc(p, sep, n2, vs.drop_first(), rest, u, m1, v, m2);
        assert(vs.push(v).drop_first() =~= vs.drop_first().push(v));
        assert(vs.push(v)[0] == vs[0]);
        assert(sep.ok(s, u0, n1) && p.ok(n1, vs.push(v)[0], n2) && sep_chain(
            p,
            sep,
            n2,
            vs.push(v).drop_first(),
            m2,
        ));
    }
}

/// What remains after a separator chain is a suffix of what it started from.
pub proof fn lemma_sep_chain_suffix<I: Input, P: Parser<I>, S: Parser<I>>(
    p: P,
    sep: S,
    s: Seq<I::Item>,
    vs: Seq<P::Out>,
    rest: Seq<I::Item>,
)
    requires
        p.wf(),
        sep.wf(),
        sep_chain(p, sep, s, vs, rest),
    ensures
        rest.len() <= s.len(),
        rest == s.skip(s.len() - rest.len()),
    decreases vs.len(),
{
    if vs.len() == 0 {
        assert(rest == s.skip(0));
    } else {
        let (u, m1, m2) = choose|u: S::Out, m1: Seq<I::Item>, m2: Seq<I::Item>|
            #![trigger sep.ok(s, u, m1), p.ok(m1, vs[0], m2)]
            sep.ok(s, u, m1) && p.ok(m1, vs[0], m2) && sep_chain(p, sep, m2, vs.drop_first(), rest);
        sep.lemma_ok_suffix(s, u, m1);
        p.lemma_ok_suffix(m1, vs[0], m2);
        lemma_suffix_trans(s, m1, m2);
        lemma_sep_chain_suffix(p, sep, m2, vs.drop_first(), rest);
        lemma_suffix_trans(s, m2, rest);
    }
}

/// Helper for parsing separated items once the first element is in hand
/// (shared logic of `sep_by` and `sep_by1`).
///
/// Repeatedly attempts a separator and then an element. A failing separator
/// ends the list; a separator followed by a failing element ends the list
/// with the separator's consumption undone, so a dangling separator is never
/// consumed.
fn parse_sep_by_impl<I: Input, P: Parser<I>, S: Parser<I>>(
    parser: &P,
    separator: &S,
    first: P::Out,
    remaining: I,
) -> (r: (Vec<P::Out>, I))
    requires
        parser.wf(),
        separator.wf(),
        progressive(*parser) || progressive(*separator),
    ensures
        r.0@.len() >= 1,
        r.0@[0] == first,
        sep_chain(*parser, *separator, remaining.seq(), r.0@.drop_first(), r.1.seq()),
        sep_stop(*parser, *separator, r.1.seq()),
{
    let ghost s0 = remaining.seq();
    let mut results: Vec<P::Out> = Vec::new();
    results.push(first);
    let mut remaining = remaining;
    proof {
        assert(results@.drop_first() =~= Seq::<P::Out>::empty());
    }
    loop
        invariant
            parser.wf(),
            separator.wf(),
            progressive(*parser) || progressive(*separator),
            results@.len() >= 1,
            results@[0] == first,
            sep_chain(*parser, *separator, s0, results@.drop_first(), remaining.seq()),
        ensures
            results@.len() >= 1,
            results@[0] == first,
            sep_chain(*parser, *separator, s0, results@.drop_first(), remaining.seq()),
            sep_stop(*parser, *separator, remaining.seq()),
        decreases remaining.seq().len(),
    {
        let ghost rs = remaining.seq();
        let input_before_sep = remaining.dup();
        match separator.parse(remaining.dup()) {
            Ok((u, after_sep)) => {
                let ghost m1 = after_sep.seq();
                match parser.parse(after_sep) {
                    Ok((element, after_element)) => {
                        proof {
                            lemma_sep_chain_snoc(
                                *parser,
                                *separator,
                                s0,
                                results@.drop_first(),
                                rs,
                                u,
                                m1,
                                element,
                                after_element.seq(),
                            );
                            assert(results@.push(element).drop_first() =~= results@.drop_first()
                                .push(element));
                            separator.lemma_ok_suffix(rs, u, m1);
                            parser.lemma_ok_suffix(m1, element, after_element.seq());
                        }
                        results.push(element);
                        remaining = after_element;
                    },
                    Err(_) => {
                        // Separator without a following element: backtrack
                        // past the consumed separator.
                        remaining = input_before_sep;
                        break ;
                    },
                }
            },
            Err(_) => {
                // No more separators.
                break ;
            },
        }
    }
    (results, remaining)
}

/// Parses zero or more items separated by a delimiter.
pub fn sep_by<I: Input, P: Parser<I>, S: Parser<I>>(parser: P, separator: S) -> (r: SepBy<P, S>)
    ensures
        r.parser == parser,
        r.separator == separator,
{
    SepBy { parser, separator }
}

/// Parser for a possibly empty separated list. It never fails: if even the
/// first element attempt fails, the list is empty and nothing is consumed.
pub struct SepBy<P, S> {
    /// The element parser.
    pub parser: P,
    /// The separator parser, whose values are dropped.
    pub separator: S,
}

impl<I: Input, P: Parser<I>, S: Parser<I>> Parser<I> for SepBy<P, S> where P::Out: Clone {
    type Out = Vec<P::Out>;

    open spec fn wf(&self) -> bool {
        &&& self.parser.wf()
        &&& self.separator.wf()
        &&& progressive(self.parser) || progressive(self.separator)
    }

    open spec fn ok(&self, s: Seq<I::Item>, v: Vec<P::Out>, rest: Seq<I::Item>) -> bool {
        if v@.len() == 0 {
            rest == s && !self.parser.must_succeed(s)
        } else {
            exists|mid: Seq<I::Item>|
                #[trigger] self.parser.ok(s, v@[0], mid) && sep_chain(
                    self.parser,
                    self.separator,
                    mid,
                    v@.drop_first(),
                    rest,
                ) && sep_stop(self.parser, self.separator, rest)
        }
    }

    open spec fn fails(&self, s: Seq<I::Item>, e: ParseError<I>) -> bool {
        false
    }

    open spec fn must_succeed(&self, s: Seq<I::Item>) -> bool {
        true
    }

    open spec fn must_fail(&self, s: Seq<I::Item>) -> bool {
        false
    }

    fn parse(&self, input: I) -> (r: ParseResult<I, Vec<P::Out>>) {
        let ghost s = input.seq();
        match self.parser.parse(input.dup()) {
            Ok((first, remaining)) => {
                let ghost firstg = first;
                let ghost ms = remaining.seq();
                let (values, rest) = parse_sep_by_impl(
                    &self.parser,
                    &self.separator,
                    first,
                    remaining,
                );
                proof {
                    assert(self.parser.ok(s, values@[0], ms));
                }
                Ok((values, rest))
            },
            Err(_) => Ok((Vec::new(), input)),
        }
    }

    proof fn lemma_ok_not_must_fail(&self, s: Seq<I::Item>, v: Vec<P::Out>, rest: Seq<I::Item>) {
    }

    proof fn lemma_fails_not_must_succeed(&self, s: Seq<I::Item>, e: ParseError<I>) {
    }

    proof fn lemma_ok_suffix(&self, s: Seq<I::Item>, v: Vec<P::Out>, rest: Seq<I::Item>) {
        if v@.len() == 0 {
            assert(rest == s.skip(0));
        } else {
            let mid = choose|mid: Seq<I::Item>|
                #[trigger] self.parser.ok(s, v@[0], mid) && sep_chain(
                    self.parser,
                    self.separator,
                    mid,
                    v@.drop_first(),
                    rest,
                ) && sep_stop(self.parser, self.separator, rest);
            self.parser.lemma_ok_suffix(s, v@[0], mid);
            lemma_sep_chain_suffix(self.parser, self.separator, mid, v@.drop_first(), rest);
            lemma_suffix_trans(s, mid, rest);
        }
    }
}

/// Parses one or more items separated by a delimiter.
pub fn sep_by1<I: Input, P: Parser<I>, S: Parser<I>>(parser: P, separator: S) -> (r: SepBy1<P, S>)
    ensures
        r.parser == parser,
        r.separator == separator,
{
    SepBy1 { parser, separator }
}

/// Parser for a non-empty separated list: the first element's failure
/// propagates verbatim.
pub struct SepBy1<P, S> {
    /// The element parser.
    pub parser: P,
    /// The separator parser, whose values are dropped.
    pub separator: S,
}

impl<I: Input, P: Parser<I>, S: Parser<I>> Parser<I> for SepBy1<P, S> where P::Out: Clone {
    type Out = Vec<P::Out>;

    open spec fn wf(&self) -> bool {
        &&& self.parser.wf()
        &&& self.separator.wf()
        &&& progressive(self.parser) || progressive(self.separator)
    }

    open spec fn ok(&self, s: Seq<I::Item>, v: Vec<P::Out>, rest: Seq<I::Item>) -> bool {
        v@.len() >= 1 && exists|mid: Seq<I::Item>|
            #[trigger] self.parser.ok(s, v@[0], mid) && sep_chain(
                self.parser,
                self.separator,
                mid,
                v@.drop_first(),
                rest,
            ) && sep_stop(self.parser, self.separator, rest)
    }

    open spec fn fails(&self, s: Seq<I::Item>, e: ParseError<I>) -> bool {
        self.parser.fails(s, e)
    }

    open spec fn must_succeed(&self, s: Seq<I::Item>) -> bool {
        self.parser.must_succeed(s)
    }

    open spec fn must_fail(&self, s: Seq<I::Item>) -> bool {
        self.parser.must_fail(s)
    }

    fn parse(&self, input: I) -> (r: ParseResult<I, Vec<P::Out>>) {
        let ghost s = input.seq();
        match self.parser.parse(input) {
            Ok((first, remaining)) => {
                let ghost ms = remaining.seq();
                let (values, rest) = parse_sep_by_impl(
                    &self.parser,
                    &self.separator,
                    first,
                    remaining,
                );
                proof {
                    assert(self.parser.ok(s, values@[0], ms));
                }
                Ok((values, rest))
            },
            Err(e) => Err(e),
        }
    }

    proof fn lemma_ok_not_must_fail(&self, s: Seq<I::Item>, v: Vec<P::Out>, rest: Seq<I::Item>) {
        let mid = choose|mid: Seq<I::Item>|
            #[trigger] self.parser.ok(s, v@[0], mid) && sep_chain(
                self.parser,
                self.separator,
                mid,
                v@.drop_first(),
                rest,
            ) && sep_stop(self.parser, self.separator, rest);
        self.parser.lemma_ok_not_must_fail(s, v@[0], mid);
    }

    proof fn lemma_fails_not_must_succeed(&self, s: Seq<I::Item>, e: ParseError<I>) {
        self.parser.lemma_fails_not_must_succeed(s, e);
    }

    proof fn lemma_ok_suffix(&self, s: Seq<I::Item>, v: Vec<P::Out>, rest: Seq<I::Item>) {
        let mid = choose|mid: Seq<I::Item>|
            #[trigger] self.parser.ok(s, v@[0], mid) && sep_chain(
                self.parser,
                self.separator,
                mid,
                v@.drop_first(),
                rest,
            ) && sep_stop(self.parser, self.separator, rest);
        self.parser.lemma_ok_suffix(s, v@[0], mid);
        lemma_sep_chain_suffix(self.parser, self.separator, mid, v@.drop_first(), rest);
        lemma_suffix_trans(s, mid, rest);
    }
}

/// Parses end of input.
pub fn eof<I: Input>() -> (r: Eof<I>) {
    Eof { _phantom: PhantomData }
}

/// Parser that succeeds with the unit value exactly on exhausted input.
pub struct Eof<I> {
    pub _phantom: PhantomData<I>,
}

impl<I: Input> Parser<I> for Eof<I> {
    type Out = ();

    open spec fn wf(&self) -> bool {
        true
    }

    open spec fn ok(&self, s: Seq<I::Item>, v: (), rest: Seq<I::Item>) -> bool {
        s.len() == 0 && rest == s
    }

    open spec fn fails(&self, s: Seq<I::Item>, e: ParseError<I>) -> bool {
        s.len() > 0 && (e matches ParseError::Expected { expected, found, input } && expected@
            == "end of input"@ && (found matches Some(f) && f@ == "more input"@) && input.seq()
            == s)
    }

    open spec fn must_succeed(&self, s: Seq<I::Item>) -> bool {
        s.len() == 0
    }

    open spec fn must_fail(&self, s: Seq<I::Item>) -> bool {
        s.len() > 0
    }

    fn parse(&self, input: I) -> (r: ParseResult<I, ()>) {
        if input.is_empty() {
            Ok(((), input))
        } else {
            Err(
                ParseError::expected("end of input".to_owned(), Some("more input".to_owned()), input),
            )
        }
    }

    proof fn lemma_ok_not_must_fail(&self, s: Seq<I::Item>, v: (), rest: Seq<I::Item>) {
    }

    proof fn lemma_fails_not_must_succeed(&self, s: Seq<I::Item>, e: ParseError<I>) {
    }

    proof fn lemma_ok_suffix(&self, s: Seq<I::Item>, v: (), rest: Seq<I::Item>) {
        assert(rest == s.skip(0));
    }
}

} // verus!
