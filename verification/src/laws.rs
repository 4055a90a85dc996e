//! The algebraic laws of the combinators, stated and proved once.
//!
//! Each law here is a fact about the relational specifications that every
//! parser carries; together with the contract of [`crate::parser::Parser::parse`]
//! it pins down the observable behaviour of the composed parsers. The
//! suffix discipline itself - a successful parse leaves a suffix of its
//! input - is not here: it is an obligation of the trait,
//! [`crate::parser::Parser::lemma_ok_suffix`], proved by every combinator.

use vstd::prelude::*;

use crate::combinators::Choice;
use crate::combinators::Token;
use crate::error::ParseError;
use crate::input::Input;
use crate::parser::Fail;
use crate::parser::Many;
use crate::parser::Many1;
use crate::parser::Mapped;
use crate::parser::Optional;
use crate::parser::Or;
use crate::parser::Parser;
use crate::parser::Pure;
use crate::parser::lemma_many_chain_items;

verus! {

/// A succeeding `pure` hands back the original input unchanged.
pub proof fn lemma_pure_no_consumption<I: Input, T: Clone>(
    p: Pure<I, T>,
    s: Seq<I::Item>,
    v: T,
    rest: Seq<I::Item>,
)
    requires
        p.ok(s, v, rest),
    ensures
        rest == s,
{
}

/// A failing `fail` consumes nothing: its error carries exactly the input
/// it was given.
pub proof fn lemma_fail_no_consumption<I: Input, T>(p: Fail<I, T>, s: Seq<I::Item>, e: ParseError<I>)
    requires
        p.fails(s, e),
    ensures
        e matches ParseError::Message { message, input } && input.seq() == s,
{
}

/// An `optional` that resolves to `None` hands back the original input
/// unchanged: the absorbed failure consumed nothing.
pub proof fn lemma_optional_none_no_consumption<I: Input, P: Parser<I>>(
    o: Optional<P>,
    s: Seq<I::Item>,
    rest: Seq<I::Item>,
)
    requires
        o.ok(s, None, rest),
    ensures
        rest == s,
{
}

/// A `many` that resolves to the empty list hands back the original input
/// unchanged: the one absorbed failure consumed nothing.
pub proof fn lemma_many_empty_no_consumption<I: Input, P: Parser<I>>(
    m: Many<P>,
    s: Seq<I::Item>,
    vs: Vec<P::Out>,
    rest: Seq<I::Item>,
) where P::Out: Clone
    requires
        m.ok(s, vs, rest),
        vs@.len() == 0,
    ensures
        rest == s,
{
}

/// Or-independence: on an input where the left alternative is bound to
/// fail, `left.or(right)` behaves as `right` run directly on that input -
/// the left parser's partial consumption before its failure never leaks.
/// Its successes are exactly `right`'s, failure is guaranteed exactly when
/// `right`'s is, and the aggregate error pairs the two alternatives' errors
/// in try-order.
pub proof fn lemma_or_independent<I: Input, L: Parser<I>, R: Parser<I, Out = L::Out>>(
    o: Or<L, R>,
    s: Seq<I::Item>,
)
    requires
        o.wf(),
        o.left.must_fail(s),
    ensures
        forall|v: L::Out, rest: Seq<I::Item>| #[trigger]
            o.ok(s, v, rest) <==> o.right.ok(s, v, rest),
        o.must_fail(s) <==> o.right.must_fail(s),
        o.right.must_succeed(s) ==> o.must_succeed(s),
        forall|e: ParseError<I>| #[trigger]
            o.fails(s, e) <==> (e matches ParseError::Many(errs) && errs@.len() == 2
                && o.left.fails(s, errs@[0]) && o.right.fails(s, errs@[1])),
{
    assert forall|v: L::Out, rest: Seq<I::Item>| #[trigger]
        o.ok(s, v, rest) <==> o.right.ok(s, v, rest) by {
        if o.left.ok(s, v, rest) {
            o.left.lemma_ok_not_must_fail(s, v, rest);
        }
    }
}

/// Zero-or-more repetition never fails: no error is a possible outcome of
/// `many`, failure is never guaranteed, and success always is.
pub proof fn lemma_many_never_fails<I: Input, P: Parser<I>>(
    m: Many<P>,
    s: Seq<I::Item>,
    e: ParseError<I>,
) where P::Out: Clone
    ensures
        !m.fails(s, e),
        !m.must_fail(s),
        m.must_succeed(s),
{
}

/// Many totality on a specific element: `many(token(x))` yields exactly the
/// maximal prefix of items equal to `x`, and leaves the first non-matching
/// suffix.
pub proof fn lemma_many_token_maximal<I: Input>(
    m: Many<Token<I>>,
    s: Seq<I::Item>,
    vs: Vec<I::Item>,
    rest: Seq<I::Item>,
)
    requires
        m.wf(),
        m.ok(s, vs, rest),
    ensures
        vs@.len() <= s.len(),
        vs@ == s.take(vs@.len() as int),
        rest == s.skip(vs@.len() as int),
        forall|i: int| 0 <= i < vs@.len() ==> s[i] == m.parser.expected,
        rest.len() > 0 ==> rest[0] != m.parser.expected,
{
    lemma_many_chain_items(m.parser, s, vs@, rest);
    assert forall|i: int| 0 <= i < vs@.len() implies s[i] == m.parser.expected by {
        assert(m.parser.ok(s.skip(i), s[i], s.skip(i + 1)));
        assert(s.skip(i)[0] == s[i]);
    }
}

/// Many1 failure propagation: a one-or-more repetition fails with exactly
/// the errors its element parser fails with on the same input, and is bound
/// to fail exactly when its element parser is.
pub proof fn lemma_many1_failure_propagation<I: Input, P: Parser<I>>(
    m: Many1<P>,
    s: Seq<I::Item>,
    e: ParseError<I>,
) where P::Out: Clone
    ensures
        m.fails(s, e) <==> m.parser.fails(s, e),
        m.must_fail(s) <==> m.parser.must_fail(s),
{
}

/// Choice ordering: when every alternative fails, the aggregate error holds
/// one error per alternative, in exactly the order the alternatives were
/// tried.
pub proof fn lemma_choice_error_order<I: Input, P: Parser<I>>(
    c: Choice<P>,
    s: Seq<I::Item>,
    e: ParseError<I>,
)
    requires
        c.fails(s, e),
    ensures
        e matches ParseError::Many(errs) && errs@.len() == c.parsers@.len() && forall|i: int|
            0 <= i < errs@.len() ==> (#[trigger] c.parsers@[i]).fails(s, errs@[i]),
{
}

/// Round-trip composition: mapping twice is mapping once with the composed
/// relation. The observable behaviour of `p.map(f).map(g)` is exactly that
/// of mapping `p` with the relational composition of `f` and `g`: it
/// succeeds with `w` exactly when `p` succeeds with some `v` that `f` may
/// take to some `u` that `g` may take to `w`, and its failures and
/// guarantees are exactly `p`'s.
pub proof fn lemma_map_map_composes<
    I: Input,
    U1,
    U2,
    P: Parser<I>,
    F: Fn(P::Out) -> U1,
    G: Fn(U1) -> U2,
>(m: Mapped<Mapped<P, F>, G>, s: Seq<I::Item>)
    ensures
        forall|w: U2, rest: Seq<I::Item>| #[trigger]
            m.ok(s, w, rest) <==> (exists|v: P::Out, u: U1|
                #![trigger call_ensures(m.parser.f, (v,), u)]
                m.parser.parser.ok(s, v, rest) && call_ensures(m.parser.f, (v,), u)
                    && call_ensures(m.f, (u,), w)),
        forall|e: ParseError<I>| #[trigger] m.fails(s, e) <==> m.parser.parser.fails(s, e),
        m.must_succeed(s) <==> m.parser.parser.must_succeed(s),
        m.must_fail(s) <==> m.parser.parser.must_fail(s),
{
    assert forall|w: U2, rest: Seq<I::Item>| #[trigger]
        m.ok(s, w, rest) implies (exists|v: P::Out, u: U1|
        #![trigger call_ensures(m.parser.f, (v,), u)]
        m.parser.parser.ok(s, v, rest) && call_ensures(m.parser.f, (v,), u) && call_ensures(
            m.f,
            (u,),
            w,
        )) by {
        let u = choose|u: U1| #[trigger] m.parser.ok(s, u, rest) && call_ensures(m.f, (u,), w);
        let v = choose|v: P::Out|
            #[trigger] m.parser.parser.ok(s, v, rest) && call_ensures(m.parser.f, (v,), u);
        assert(m.parser.parser.ok(s, v, rest) && call_ensures(m.parser.f, (v,), u)
            && call_ensures(m.f, (u,), w));
    }
    assert forall|w: U2, rest: Seq<I::Item>|
        (exists|v: P::Out, u: U1|
            #![trigger call_ensures(m.parser.f, (v,), u)]
            m.parser.parser.ok(s, v, rest) && call_ensures(m.parser.f, (v,), u) && call_ensures(
                m.f,
                (u,),
                w,
            )) implies #[trigger] m.ok(s, w, rest) by {
        let (v, u) = choose|v: P::Out, u: U1|
            #![trigger call_ensures(m.parser.f, (v,), u)]
            m.parser.parser.ok(s, v, rest) && call_ensures(m.parser.f, (v,), u) && call_ensures(
                m.f,
                (u,),
                w,
            );
        assert(m.parser.ok(s, u, rest));
    }
}

} // verus!
