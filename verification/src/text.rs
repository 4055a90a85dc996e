//! Text and string parsing utilities over `&str` input.

use vstd::prelude::*;
use vstd::string::StrSliceExecFns;
use vstd::string::StringExecFns;

use crate::combinators::Satisfy;
use crate::combinators::Token;
use crate::combinators::expected_item_error;
use crate::combinators::satisfy;
use crate::combinators::token;
use crate::error::ParseError;
use crate::error::ParseResult;
use crate::input::Input;
use crate::parser::Parser;

verus! {

/// Whether `char::is_alphabetic` accepts `c`. The Unicode classification is
/// far too large to spell out, so it is only named here.
pub uninterp spec fn alphabetic(c: char) -> bool;

/// Relies on char::is_alphabetic: the result depends on the character alone.
#[verifier::external_body]
fn char_is_alphabetic(c: &char) -> (r: bool)
    ensures
        r == alphabetic(*c),
{
    c.is_alphabetic()
}

/// Whether `char::is_alphanumeric` accepts `c`. The Unicode classification
/// is far too large to spell out, so it is only named here.
pub uninterp spec fn alphanum(c: char) -> bool;

/// Relies on char::is_alphanumeric: the result depends on the character
/// alone.
#[verifier::external_body]
fn char_is_alphanumeric(c: &char) -> (r: bool)
    ensures
        r == alphanum(*c),
{
    c.is_alphanumeric()
}

/// Whether `char::is_whitespace` accepts `c`. The Unicode classification is
/// far too large to spell out, so it is only named here.
pub uninterp spec fn whitespace(c: char) -> bool;

/// Relies on char::is_whitespace: the result depends on the character alone.
#[verifier::external_body]
fn char_is_whitespace(c: &char) -> (r: bool)
    ensures
        r == whitespace(*c),
{
    c.is_whitespace()
}

/// Whether `c` is one of the ten ASCII decimal digits.
pub open spec fn decimal_digit(c: char) -> bool {
    48 <= (c as u32) && (c as u32) <= 57
}

/// Parse a specific character.
/// Composed using the token combinator.
pub fn char<'a>(c: char) -> (r: Token<&'a str>)
    ensures
        r.expected == c,
{
    token(c)
}

/// Parse any alphabetic character.
/// Composed using the satisfy combinator.
pub fn alpha<'a>() -> (r: impl Parser<&'a str, Out = char>)
    ensures
        r.wf(),
        forall|s: Seq<char>, v: char, rest: Seq<char>| #[trigger]
            r.ok(s, v, rest) ==> s.len() > 0 && alphabetic(s[0]) && v == s[0] && rest
                == s.drop_first(),
        forall|s: Seq<char>| s.len() > 0 && alphabetic(s[0]) ==> #[trigger] r.must_succeed(s),
        forall|s: Seq<char>| s.len() == 0 || !alphabetic(s[0]) ==> #[trigger] r.must_fail(s),
        forall|s: Seq<char>, e: ParseError<&'a str>| #[trigger]
            r.fails(s, e) ==> (s.len() == 0 && e is UnexpectedEof) || (s.len() > 0 && !alphabetic(
                s[0],
            ) && expected_item_error(e, s)),
{
    let pred = |c: &char| -> (b: bool)
        ensures
            b == alphabetic(*c),
        {
            char_is_alphabetic(c)
        };
    let p = satisfy(pred);
    proof {
        crate::combinators::lemma_satisfy_spec(p);
    }
    p
}

/// Parse any numeric digit.
/// Composed using the satisfy combinator.
pub fn digit<'a>() -> (r: impl Parser<&'a str, Out = char>)
    ensures
        r.wf(),
        forall|s: Seq<char>, v: char, rest: Seq<char>| #[trigger]
            r.ok(s, v, rest) ==> s.len() > 0 && decimal_digit(s[0]) && v == s[0] && rest
                == s.drop_first(),
        forall|s: Seq<char>| s.len() > 0 && decimal_digit(s[0]) ==> #[trigger] r.must_succeed(s),
        forall|s: Seq<char>| s.len() == 0 || !decimal_digit(s[0]) ==> #[trigger] r.must_fail(s),
        forall|s: Seq<char>, e: ParseError<&'a str>| #[trigger]
            r.fails(s, e) ==> (s.len() == 0 && e is UnexpectedEof) || (s.len() > 0
                && !decimal_digit(s[0]) && expected_item_error(e, s)),
{
    let pred = |c: &char| -> (b: bool)
        ensures
            b == decimal_digit(*c),
        {
            let u = *c as u32;
            48 <= u && u <= 57
        };
    let p = satisfy(pred);
    proof {
        crate::combinators::lemma_satisfy_spec(p);
    }
    p
}

/// Parse any alphanumeric character.
/// Composed using the satisfy combinator.
pub fn alphanumeric<'a>() -> (r: impl Parser<&'a str, Out = char>)
    ensures
        r.wf(),
        forall|s: Seq<char>, v: char, rest: Seq<char>| #[trigger]
            r.ok(s, v, rest) ==> s.len() > 0 && alphanum(s[0]) && v == s[0] && rest
                == s.drop_first(),
        forall|s: Seq<char>| s.len() > 0 && alphanum(s[0]) ==> #[trigger] r.must_succeed(
            s,
        ),
        forall|s: Seq<char>| s.len() == 0 || !alphanum(s[0]) ==> #[trigger] r.must_fail(
            s,
        ),
        forall|s: Seq<char>, e: ParseError<&'a str>| #[trigger]
            r.fails(s, e) ==> (s.len() == 0 && e is UnexpectedEof) || (s.len() > 0
                && !alphanum(s[0]) && expected_item_error(e, s)),
{
    let pred = |c: &char| -> (b: bool)
        ensures
            b == alphanum(*c),
        {
            char_is_alphanumeric(c)
        };
    let p = satisfy(pred);
    proof {
        crate::combinators::lemma_satisfy_spec(p);
    }
    p
}

/// Parse any whitespace character.
/// Composed using the satisfy combinator.
pub fn space<'a>() -> (r: impl Parser<&'a str, Out = char>)
    ensures
        r.wf(),
        forall|s: Seq<char>, v: char, rest: Seq<char>| #[trigger]
            r.ok(s, v, rest) ==> s.len() > 0 && whitespace(s[0]) && v == s[0] && rest
                == s.drop_first(),
        forall|s: Seq<char>| s.len() > 0 && whitespace(s[0]) ==> #[trigger] r.must_succeed(s),
        forall|s: Seq<char>| s.len() == 0 || !whitespace(s[0]) ==> #[trigger] r.must_fail(s),
        forall|s: Seq<char>, e: ParseError<&'a str>| #[trigger]
            r.fails(s, e) ==> (s.len() == 0 && e is UnexpectedEof) || (s.len() > 0 && !whitespace(
                s[0],
            ) && expected_item_error(e, s)),
{
    let pred = |c: &char| -> (b: bool)
        ensures
            b == whitespace(*c),
        {
            char_is_whitespace(c)
        };
    let p = satisfy(pred);
    proof {
        crate::combinators::lemma_satisfy_spec(p);
    }
    p
}

/// Parse a newline character.
/// Composed using the char combinator.
pub fn newline<'a>() -> (r: Token<&'a str>)
    ensures
        r.expected == '\n',
{
    char('\n')
}

/// Parse a tab character.
/// Composed using the char combinator.
pub fn tab<'a>() -> (r: Token<&'a str>)
    ensures
        r.expected == '\t',
{
    char('\t')
}

/// Relies on String::push: appends the one character at the end.
#[verifier::external_body]
fn push_char(s: &mut String, c: char)
    ensures
        final(s)@ == old(s)@.push(c),
{
    s.push(c);
}

/// Builds the string holding exactly the given characters.
fn chars_to_string(chars: &Vec<char>) -> (r: String)
    ensures
        r@ == chars@,
{
    let mut s = String::new();
    let mut i: usize = 0;
    while i < chars.len()
        invariant
            i <= chars@.len(),
            s@ == chars@.take(i as int),
        decreases chars@.len() - i,
    {
        push_char(&mut s, chars[i]);
        proof {
            assert(chars@.take(i + 1) =~= chars@.take(i as int).push(chars@[i as int]));
        }
        i += 1;
    }
    proof {
        assert(chars@.take(chars@.len() as int) =~= chars@);
    }
    s
}

/// Parse zero or more whitespace characters into a string: the maximal
/// whitespace prefix of the input.
pub fn spaces<'a>() -> (r: impl Parser<&'a str, Out = String>)
    ensures
        r.wf(),
        forall|s: Seq<char>| #[trigger] r.must_succeed(s),
        forall|s: Seq<char>| !(#[trigger] r.must_fail(s)),
        forall|s: Seq<char>, e: ParseError<&'a str>| !(#[trigger] r.fails(s, e)),
        forall|s: Seq<char>, v: String, rest: Seq<char>| #[trigger]
            r.ok(s, v, rest) ==> ({
                let k = v@.len() as int;
                &&& v@.len() <= s.len()
                &&& v@ == s.take(k)
                &&& rest == s.skip(k)
                &&& (forall|i: int| 0 <= i < k ==> whitespace(s[i]))
                &&& (v@.len() == s.len() || !whitespace(s[k]))
            }),
{
    let pred = |c: &char| -> (b: bool)
        ensures
            b == whitespace(*c),
        {
            char_is_whitespace(c)
        };
    let p = satisfy(pred);
    let m = p.many();
    let collect = |cs: Vec<char>| -> (out: String)
        ensures
            out@ == cs@,
        {
            chars_to_string(&cs)
        };
    let r = m.map(collect);
    proof {
        crate::combinators::lemma_satisfy_spec(p);
        crate::combinators::lemma_classified_run_spec(r);
        assert forall|s: Seq<char>, v: String, rest: Seq<char>| #[trigger]
            r.ok(s, v, rest) implies ({
            let k = v@.len() as int;
            &&& v@.len() <= s.len()
            &&& v@ == s.take(k)
            &&& rest == s.skip(k)
            &&& (forall|i: int| 0 <= i < k ==> whitespace(s[i]))
            &&& (v@.len() == s.len() || !whitespace(s[k]))
        }) by {
            let cs = choose|cs: Vec<char>|
                {
                    &&& #[trigger] call_ensures(r.f, (cs,), v)
                    &&& cs@.len() <= s.len()
                    &&& cs@ == s.take(cs@.len() as int)
                    &&& rest == s.skip(cs@.len() as int)
                    &&& forall|i: int|
                        0 <= i < cs@.len() ==> call_ensures(
                            r.parser.parser.predicate,
                            (&s[i],),
                            true,
                        )
                    &&& rest.len() > 0 ==> exists|b: bool|
                        call_ensures(r.parser.parser.predicate, (&rest[0],), b) && !b
                };
            assert(v@ == cs@);
            let k = v@.len() as int;
            assert forall|i: int| 0 <= i < k implies whitespace(s[i]) by {
                assert(call_ensures(r.parser.parser.predicate, (&s[i],), true));
            }
            if v@.len() < s.len() {
                let b = choose|b: bool|
                    call_ensures(r.parser.parser.predicate, (&rest[0],), b) && !b;
                assert(rest[0] == s[k]);
            }
        }
    }
    r
}

/// Parse one or more whitespace characters into a string: the maximal
/// whitespace prefix of the input, which must not be empty.
pub fn spaces1<'a>() -> (r: impl Parser<&'a str, Out = String>)
    ensures
        r.wf(),
        forall|s: Seq<char>| s.len() > 0 && whitespace(s[0]) ==> #[trigger] r.must_succeed(s),
        forall|s: Seq<char>| s.len() == 0 || !whitespace(s[0]) ==> #[trigger] r.must_fail(s),
        forall|s: Seq<char>, e: ParseError<&'a str>| #[trigger]
            r.fails(s, e) ==> (s.len() == 0 && e is UnexpectedEof) || (s.len() > 0 && !whitespace(
                s[0],
            ) && expected_item_error(e, s)),
        forall|s: Seq<char>, v: String, rest: Seq<char>| #[trigger]
            r.ok(s, v, rest) ==> ({
                let k = v@.len() as int;
                &&& 1 <= v@.len() <= s.len()
                &&& v@ == s.take(k)
                &&& rest == s.skip(k)
                &&& (forall|i: int| 0 <= i < k ==> whitespace(s[i]))
                &&& (v@.len() == s.len() || !whitespace(s[k]))
            }),
{
    let pred = |c: &char| -> (b: bool)
        ensures
            b == whitespace(*c),
        {
            char_is_whitespace(c)
        };
    let p = satisfy(pred);
    let m = p.many1();
    let collect = |cs: Vec<char>| -> (out: String)
        ensures
            out@ == cs@,
        {
            chars_to_string(&cs)
        };
    let r = m.map(collect);
    proof {
        crate::combinators::lemma_satisfy_spec(p);
        crate::combinators::lemma_classified_run1_spec(r);
        assert forall|s: Seq<char>, v: String, rest: Seq<char>| #[trigger]
            r.ok(s, v, rest) implies ({
            let k = v@.len() as int;
            &&& 1 <= v@.len() <= s.len()
            &&& v@ == s.take(k)
            &&& rest == s.skip(k)
            &&& (forall|i: int| 0 <= i < k ==> whitespace(s[i]))
            &&& (v@.len() == s.len() || !whitespace(s[k]))
        }) by {
            let cs = choose|cs: Vec<char>|
                {
                    &&& #[trigger] call_ensures(r.f, (cs,), v)
                    &&& 1 <= cs@.len() <= s.len()
                    &&& cs@ == s.take(cs@.len() as int)
                    &&& rest == s.skip(cs@.len() as int)
                    &&& forall|i: int|
                        0 <= i < cs@.len() ==> call_ensures(
                            r.parser.parser.predicate,
                            (&s[i],),
                            true,
                        )
                    &&& rest.len() > 0 ==> exists|b: bool|
                        call_ensures(r.parser.parser.predicate, (&rest[0],), b) && !b
                };
            assert(v@ == cs@);
            let k = v@.len() as int;
            assert forall|i: int| 0 <= i < k implies whitespace(s[i]) by {
                assert(call_ensures(r.parser.parser.predicate, (&s[i],), true));
            }
            if v@.len() < s.len() {
                let b = choose|b: bool|
                    call_ensures(r.parser.parser.predicate, (&rest[0],), b) && !b;
                assert(rest[0] == s[k]);
            }
        }
    }
    r
}

/// The length of the longest common prefix of two sequences of characters.
pub open spec fn common_prefix_len(a: Seq<char>, b: Seq<char>) -> int
    decreases a.len(),
{
    if a.len() == 0 || b.len() == 0 {
        0
    } else if a[0] == b[0] {
        1 + common_prefix_len(a.drop_first(), b.drop_first())
    } else {
        0
    }
}

/// The longest common prefix ends exactly where the sequences first differ
/// or one of them ends.
proof fn lemma_common_prefix_at(a: Seq<char>, b: Seq<char>, i: int)
    requires
        0 <= i <= a.len(),
        i <= b.len(),
        a.take(i) == b.take(i),
        i == a.len() || i == b.len() || a[i] != b[i],
    ensures
        common_prefix_len(a, b) == i,
    decreases i,
{
    if i == 0 {
    } else {
        assert(a.take(i)[0] == b.take(i)[0]);
        assert(a.take(i)[0] == a[0]);
        assert(b.take(i)[0] == b[0]);
        assert(a.drop_first().take(i - 1) =~= b.drop_first().take(i - 1)) by {
            assert forall|j: int| 0 <= j < i - 1 implies #[trigger] (a.drop_first().take(i - 1)[j])
                == b.drop_first().take(i - 1)[j] by {
                assert(a.drop_first().take(i - 1)[j] == a.drop_first()[j]);
                assert(b.drop_first().take(i - 1)[j] == b.drop_first()[j]);
                assert(a.drop_first()[j] == a[j + 1]);
                assert(b.drop_first()[j] == b[j + 1]);
                assert(a.take(i)[j + 1] == a[j + 1]);
                assert(b.take(i)[j + 1] == b[j + 1]);
                assert(a.take(i)[j + 1] == b.take(i)[j + 1]);
            }
        }
        if i < a.len() && i < b.len() {
            assert(a.drop_first()[i - 1] == a[i]);
        }
        lemma_common_prefix_at(a.drop_first(), b.drop_first(), i - 1);
    }
}

/// Parse a specific string.
pub fn string(s: &str) -> (r: String_)
    ensures
        r.expected@ == s@,
{
    String_ { expected: s.to_owned() }
}

/// Parser that consumes exactly its expected string, character by
/// character. On a mismatch or on exhausted input, nothing is consumed and
/// the error names the first offending character.
pub struct String_ {
    /// The string the input must start with.
    pub expected: String,
}

impl<'a> Parser<&'a str> for String_ {
    type Out = String;

    open spec fn wf(&self) -> bool {
        true
    }

    open spec fn ok(&self, s: Seq<char>, v: String, rest: Seq<char>) -> bool {
        self.expected@.is_prefix_of(s) && v@ == self.expected@ && rest == s.skip(
            self.expected@.len() as int,
        )
    }

    open spec fn fails(&self, s: Seq<char>, e: ParseError<&'a str>) -> bool {
        !self.expected@.is_prefix_of(s) && (e matches ParseError::Expected {
            expected: msg,
            found,
            input,
        } && msg@ == "string '"@ + self.expected@ + "'"@ && input@ == s && (found matches Some(f)
            && {
            let j = common_prefix_len(self.expected@, s);
            if j == s.len() {
                f@ == "end of input"@
            } else {
                f@ == "character '"@ + seq![s[j]] + "'"@
            }
        }))
    }

    open spec fn must_succeed(&self, s: Seq<char>) -> bool {
        self.expected@.is_prefix_of(s)
    }

    open spec fn must_fail(&self, s: Seq<char>) -> bool {
        !self.expected@.is_prefix_of(s)
    }

    fn parse(&self, input: &'a str) -> (r: ParseResult<&'a str, String>) {
        let ghost s = input@;
        let ghost exp = self.expected@;
        let n = self.expected.as_str().unicode_len();
        let mut i: usize = 0;
        let mut cur = input;
        while i < n
            invariant
                input@ == s,
                n == exp.len(),
                exp == self.expected@,
                i <= n,
                i <= s.len(),
                cur@ == s.skip(i as int),
                exp.take(i as int) == s.take(i as int),
            decreases n - i,
        {
            let expected_char = self.expected.as_str().get_char(i);
            match cur.uncons() {
                Some((c, rest2)) => {
                    if c == expected_char {
                        proof {
                            assert(exp.take(i + 1) =~= s.take(i + 1)) by {
                                assert(s[i as int] == c && exp[i as int] == c);
                                assert forall|j: int| 0 <= j < i + 1 implies #[trigger] (exp.take(
                                    i + 1,
                                )[j]) == s.take(i + 1)[j] by {
                                    if j < i {
                                        assert(exp.take(i as int)[j] == s.take(i as int)[j]);
                                    }
                                }
                            }
                        }
                        cur = rest2;
                        i += 1;
                    } else {
                        proof {
                            lemma_common_prefix_at(exp, s, i as int);
                            assert(!exp.is_prefix_of(s)) by {
                                if exp.is_prefix_of(s) {
                                    assert(exp[i as int] == s.take(exp.len() as int)[i as int]);
                                }
                            }
                        }
                        let mut msg = String::from_str("string '");
                        msg.append(self.expected.as_str());
                        msg.append("'");
                        let mut found = String::from_str("character '");
                        push_char(&mut found, c);
                        found.append("'");
                        proof {
                            assert(found@ =~= "character '"@ + seq![s[i as int]] + "'"@);
                        }
                        return Err(ParseError::expected(msg, Some(found), input));
                    }
                },
                None => {
                    proof {
                        assert(s.len() == i);
                        lemma_common_prefix_at(exp, s, i as int);
                        assert(!exp.is_prefix_of(s));
                    }
                    let mut msg = String::from_str("string '");
                    msg.append(self.expected.as_str());
                    msg.append("'");
                    let found = String::from_str("end of input");
                    return Err(ParseError::expected(msg, Some(found), input));
                },
            }
        }
        proof {
            assert(exp.take(n as int) =~= exp);
            assert(exp.is_prefix_of(s));
        }
        Ok((self.expected.clone(), cur))
    }

    proof fn lemma_ok_not_must_fail(&self, s: Seq<char>, v: String, rest: Seq<char>) {
    }

    proof fn lemma_fails_not_must_succeed(&self, s: Seq<char>, e: ParseError<&'a str>) {
    }

    proof fn lemma_ok_suffix(&self, s: Seq<char>, v: String, rest: Seq<char>) {
    }
}

/// The length of the maximal prefix of decimal digits.
pub open spec fn digit_run(s: Seq<char>) -> int
    decreases s.len(),
{
    if s.len() > 0 && decimal_digit(s[0]) {
        1 + digit_run(s.drop_first())
    } else {
        0
    }
}

/// The maximal digit prefix is never longer than the input.
proof fn lemma_digit_run_bounds(s: Seq<char>)
    ensures
        0 <= digit_run(s) <= s.len(),
    decreases s.len(),
{
    if s.len() > 0 && decimal_digit(s[0]) {
        lemma_digit_run_bounds(s.drop_first());
    }
}

/// The numeric value of a sequence of decimal digits, most significant
/// first.
pub open spec fn digits_val(s: Seq<char>) -> nat
    decreases s.len(),
{
    if s.len() == 0 {
        0
    } else {
        digits_val(s.drop_last()) * 10 + ((s.last() as u32) - 48) as nat
    }
}

/// The maximal digit prefix ends exactly at the first non-digit or at the
/// end of the input.
proof fn lemma_digit_run_at(s: Seq<char>, k: int)
    requires
        0 <= k <= s.len(),
        forall|j: int| 0 <= j < k ==> decimal_digit(s[j]),
        k == s.len() || !decimal_digit(s[k]),
    ensures
        digit_run(s) == k,
    decreases k,
{
    if k == 0 {
    } else {
        assert(decimal_digit(s[0]));
        assert forall|j: int| 0 <= j < k - 1 implies decimal_digit(s.drop_first()[j]) by {
            assert(s.drop_first()[j] == s[j + 1]);
        }
        if k < s.len() {
            assert(s.drop_first()[k - 1] == s[k]);
        }
        lemma_digit_run_at(s.drop_first(), k - 1);
    }
}

/// Parse an unsigned integer: the maximal run of decimal digits, whose value
/// must fit in 32 bits.
pub fn unsigned() -> (r: Unsigned) {
    Unsigned {  }
}

/// Parser for an unsigned 32-bit decimal number. At least one digit is
/// required; a digit run whose value exceeds the 32-bit range is a semantic
/// failure, not a grammar mismatch.
pub struct Unsigned {}

impl<'a> Parser<&'a str> for Unsigned {
    type Out = u32;

    open spec fn wf(&self) -> bool {
        true
    }

    open spec fn ok(&self, s: Seq<char>, v: u32, rest: Seq<char>) -> bool {
        let k = digit_run(s);
        k >= 1 && digits_val(s.take(k)) <= u32::MAX && v == digits_val(s.take(k)) && rest
            == s.skip(k)
    }

    open spec fn fails(&self, s: Seq<char>, e: ParseError<&'a str>) -> bool {
        ||| s.len() == 0 && e is UnexpectedEof
        ||| s.len() > 0 && !decimal_digit(s[0]) && expected_item_error(e, s)
        ||| digit_run(s) >= 1 && digits_val(s.take(digit_run(s))) > u32::MAX && (e matches
            ParseError::Message { message, input } && message@ == "invalid number"@ && input@ == s)
    }

    open spec fn must_succeed(&self, s: Seq<char>) -> bool {
        digit_run(s) >= 1 && digits_val(s.take(digit_run(s))) <= u32::MAX
    }

    open spec fn must_fail(&self, s: Seq<char>) -> bool {
        digit_run(s) == 0 || digits_val(s.take(digit_run(s))) > u32::MAX
    }

    fn parse(&self, input: &'a str) -> (r: ParseResult<&'a str, u32>) {
        let ghost s = input@;
        let mut cur = input;
        let ghost mut k: int = 0;
        let mut started = false;
        let mut val: u64 = 0;
        let mut big = false;
        loop
            invariant
                input@ == s,
                0 <= k <= s.len(),
                started == (k >= 1),
                cur@ == s.skip(k),
                forall|j: int| 0 <= j < k ==> decimal_digit(s[j]),
                !big ==> val == digits_val(s.take(k)) && val <= u32::MAX,
                big ==> digits_val(s.take(k)) > u32::MAX,
            ensures
                input@ == s,
                0 <= k <= s.len(),
                started == (k >= 1),
                cur@ == s.skip(k),
                forall|j: int| 0 <= j < k ==> decimal_digit(s[j]),
                !big ==> val == digits_val(s.take(k)) && val <= u32::MAX,
                big ==> digits_val(s.take(k)) > u32::MAX,
                k == s.len() || !decimal_digit(s[k]),
            decreases s.len() - k,
        {
            match cur.uncons() {
                Some((c, rest2)) => {
                    let u = c as u32;
                    if 48 <= u && u <= 57 {
                        proof {
                            assert(s[k] == c);
                            assert(s.take(k + 1).drop_last() =~= s.take(k));
                            assert(s.take(k + 1).last() == c);
                        }
                        let d = (u - 48) as u64;
                        if !big {
                            let nv = val * 10 + d;
                            if nv > 4294967295u64 {
                                big = true;
                            } else {
                                val = nv;
                            }
                        } else {
                            proof {
                                assert(digits_val(s.take(k + 1)) == digits_val(s.take(k)) * 10 + (
                                (c as u32) - 48));
                            }
                        }
                        started = true;
                        proof {
                            k = k + 1;
                        }
                        cur = rest2;
                    } else {
                        break ;
                    }
                },
                None => {
                    break ;
                },
            }
        }
        proof {
            lemma_digit_run_at(s, k);
        }
        if !started {
            if input.is_empty() {
                Err(ParseError::UnexpectedEof)
            } else {
                Err(
                    ParseError::expected(
                        "item satisfying predicate".to_owned(),
                        Some("different item".to_owned()),
                        input,
                    ),
                )
            }
        } else if big {
            Err(ParseError::message("invalid number".to_owned(), input))
        } else {
            Ok((val as u32, cur))
        }
    }

    proof fn lemma_ok_not_must_fail(&self, s: Seq<char>, v: u32, rest: Seq<char>) {
    }

    proof fn lemma_fails_not_must_succeed(&self, s: Seq<char>, e: ParseError<&'a str>) {
    }

    proof fn lemma_ok_suffix(&self, s: Seq<char>, v: u32, rest: Seq<char>) {
        lemma_digit_run_bounds(s);
        assert(rest =~= s.skip(s.len() - rest.len()));
    }
}

/// The part of the input a signed number's digits are read from: what
/// follows a leading minus sign, or the input itself.
pub open spec fn signed_body(s: Seq<char>) -> Seq<char> {
    if s.len() > 0 && s[0] == '-' {
        s.drop_first()
    } else {
        s
    }
}

/// The largest digit value a signed 32-bit number can carry: one more for a
/// negated number than for a plain one.
pub open spec fn signed_limit(s: Seq<char>) -> nat {
    if s.len() > 0 && s[0] == '-' {
        2147483648
    } else {
        2147483647
    }
}

/// Parse a signed integer: an optional minus sign, then an unsigned number.
pub fn integer() -> (r: Integer) {
    Integer {  }
}

/// Parser for a signed 32-bit decimal number.
pub struct Integer {}

impl<'a> Parser<&'a str> for Integer {
    type Out = i32;

    open spec fn wf(&self) -> bool {
        true
    }

    open spec fn ok(&self, s: Seq<char>, v: i32, rest: Seq<char>) -> bool {
        let t = signed_body(s);
        let k = digit_run(t);
        &&& k >= 1
        &&& digits_val(t.take(k)) <= signed_limit(s)
        &&& (if s.len() > 0 && s[0] == '-' {
            v as int == -(digits_val(t.take(k)) as int)
        } else {
            v == digits_val(t.take(k))
        })
        &&& rest == t.skip(k)
    }

    open spec fn fails(&self, s: Seq<char>, e: ParseError<&'a str>) -> bool {
        let t = signed_body(s);
        let k = digit_run(t);
        ||| t.len() == 0 && e is UnexpectedEof
        ||| t.len() > 0 && !decimal_digit(t[0]) && expected_item_error(e, t)
        ||| k >= 1 && digits_val(t.take(k)) > signed_limit(s) && (e matches ParseError::Message {
            message,
            input,
        } && message@ == "invalid number"@ && input@ == t)
    }

    open spec fn must_succeed(&self, s: Seq<char>) -> bool {
        digit_run(signed_body(s)) >= 1 && digits_val(
            signed_body(s).take(digit_run(signed_body(s))),
        ) <= signed_limit(s)
    }

    open spec fn must_fail(&self, s: Seq<char>) -> bool {
        digit_run(signed_body(s)) == 0 || digits_val(
            signed_body(s).take(digit_run(signed_body(s))),
        ) > signed_limit(s)
    }

    fn parse(&self, input: &'a str) -> (r: ParseResult<&'a str, i32>) {
        let ghost s = input@;
        let mut neg = false;
        let mut body = input;
        match input.uncons() {
            Some((c, rest2)) => {
                if c == '-' {
                    neg = true;
                    body = rest2;
                }
            },
            None => {},
        }
        proof {
            assert(body@ == signed_body(s));
        }
        match unsigned().parse(body) {
            Ok((n, rest)) => {
                if neg {
                    if n <= 2147483648u32 {
                        Ok(((-(n as i64)) as i32, rest))
                    } else {
                        Err(ParseError::message("invalid number".to_owned(), body))
                    }
                } else {
                    if n <= 2147483647u32 {
                        Ok((n as i32, rest))
                    } else {
                        Err(ParseError::message("invalid number".to_owned(), body))
                    }
                }
            },
            Err(e) => Err(e),
        }
    }

    proof fn lemma_ok_not_must_fail(&self, s: Seq<char>, v: i32, rest: Seq<char>) {
    }

    proof fn lemma_fails_not_must_succeed(&self, s: Seq<char>, e: ParseError<&'a str>) {
    }

    proof fn lemma_ok_suffix(&self, s: Seq<char>, v: i32, rest: Seq<char>) {
        let t = signed_body(s);
        let k = digit_run(t);
        lemma_digit_run_bounds(t);
        if s.len() > 0 && s[0] == '-' {
            assert(t.skip(k) =~= s.skip(k + 1));
            assert(rest =~= s.skip(s.len() - rest.len()));
        } else {
            assert(rest =~= s.skip(s.len() - rest.len()));
        }
    }
}

/// Parse any character except the given one.
/// Composed using the satisfy combinator.
pub fn not_char<'a>(c: char) -> (r: impl Parser<&'a str, Out = char>)
    ensures
        r.wf(),
        forall|s: Seq<char>, v: char, rest: Seq<char>| #[trigger]
            r.ok(s, v, rest) ==> s.len() > 0 && s[0] != c && v == s[0] && rest == s.drop_first(),
        forall|s: Seq<char>| s.len() > 0 && s[0] != c ==> #[trigger] r.must_succeed(s),
        forall|s: Seq<char>| s.len() == 0 || s[0] == c ==> #[trigger] r.must_fail(s),
        forall|s: Seq<char>, e: ParseError<&'a str>| #[trigger]
            r.fails(s, e) ==> (s.len() == 0 && e is UnexpectedEof) || (s.len() > 0 && s[0] == c
                && expected_item_error(e, s)),
{
    let pred = move |ch: &char| -> (b: bool)
        ensures
            b == (*ch != c),
        {
            *ch != c
        };
    let p = satisfy(pred);
    proof {
        crate::combinators::lemma_satisfy_spec(p);
    }
    p
}

/// Whether the string holds the given character.
fn str_contains_char(s: &str, c: char) -> (b: bool)
    ensures
        b == s@.contains(c),
{
    let n = s.unicode_len();
    let mut i: usize = 0;
    let mut found = false;
    while i < n
        invariant
            n == s@.len(),
            i <= n,
            found == s@.take(i as int).contains(c),
        decreases n - i,
    {
        if s.get_char(i) == c {
            found = true;
        }
        proof {
            assert(s@.take(i + 1) =~= s@.take(i as int).push(s@[i as int]));
            if s@.take(i as int).contains(c) {
                let w = choose|w: int| 0 <= w < i && s@.take(i as int)[w] == c;
                assert(s@.take(i + 1)[w] == c);
            }
            if s@[i as int] == c {
                assert(s@.take(i + 1)[i as int] == c);
            }
            if s@.take(i + 1).contains(c) && s@[i as int] != c {
                let w = choose|w: int| 0 <= w < i + 1 && #[trigger] (s@.take(i + 1)[w]) == c;
                assert(w < i);
                assert(s@.take(i as int)[w] == c);
            }
        }
        i += 1;
    }
    proof {
        assert(s@.take(n as int) =~= s@);
    }
    found
}

/// Parse any character from a given set.
/// Composed using the satisfy combinator.
pub fn one_of<'a>(chars: &str) -> (r: impl Parser<&'a str, Out = char>)
    ensures
        r.wf(),
        forall|s: Seq<char>, v: char, rest: Seq<char>| #[trigger]
            r.ok(s, v, rest) ==> s.len() > 0 && chars@.contains(s[0]) && v == s[0] && rest
                == s.drop_first(),
        forall|s: Seq<char>| s.len() > 0 && chars@.contains(s[0]) ==> #[trigger] r.must_succeed(s),
        forall|s: Seq<char>| s.len() == 0 || !chars@.contains(s[0]) ==> #[trigger] r.must_fail(s),
        forall|s: Seq<char>, e: ParseError<&'a str>| #[trigger]
            r.fails(s, e) ==> (s.len() == 0 && e is UnexpectedEof) || (s.len() > 0
                && !chars@.contains(s[0]) && expected_item_error(e, s)),
{
    let owned = chars.to_owned();
    let pred = move |ch: &char| -> (b: bool)
        ensures
            b == owned@.contains(*ch),
        {
            str_contains_char(owned.as_str(), *ch)
        };
    let p = satisfy(pred);
    proof {
        crate::combinators::lemma_satisfy_spec(p);
    }
    p
}

/// Parse any character not in the given set.
/// Composed using the satisfy combinator.
pub fn none_of<'a>(chars: &str) -> (r: impl Parser<&'a str, Out = char>)
    ensures
        r.wf(),
        forall|s: Seq<char>, v: char, rest: Seq<char>| #[trigger]
            r.ok(s, v, rest) ==> s.len() > 0 && !chars@.contains(s[0]) && v == s[0] && rest
                == s.drop_first(),
        forall|s: Seq<char>| s.len() > 0 && !chars@.contains(s[0]) ==> #[trigger] r.must_succeed(
            s,
        ),
        forall|s: Seq<char>| s.len() == 0 || chars@.contains(s[0]) ==> #[trigger] r.must_fail(s),
        forall|s: Seq<char>, e: ParseError<&'a str>| #[trigger]
            r.fails(s, e) ==> (s.len() == 0 && e is UnexpectedEof) || (s.len() > 0
                && chars@.contains(s[0]) && expected_item_error(e, s)),
{
    let owned = chars.to_owned();
    let pred = move |ch: &char| -> (b: bool)
        ensures
            b == !owned@.contains(*ch),
        {
            !str_contains_char(owned.as_str(), *ch)
        };
    let p = satisfy(pred);
    proof {
        crate::combinators::lemma_satisfy_spec(p);
    }
    p
}

} // verus!
