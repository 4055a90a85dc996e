//! Input stream capability for general input types.

use vstd::prelude::*;
use vstd::std_specs::cmp::PartialEqSpec;
use vstd::string::StrSliceExecFns;

verus! {

/// Trait for types that can be used as input to parsers.
///
/// An input is an immutable, cheaply duplicated cursor over a sequence of
/// items; its mathematical model is the sequence [`Input::seq`] of items that
/// remain. Parsers never mutate an input: each step hands back a new value
/// standing for everything after the consumed item.
pub trait Input: Sized {
    /// The type of individual items in the input stream.
    type Item: Clone + core::fmt::Debug;

    /// The sequence of items this input still holds.
    spec fn seq(&self) -> Seq<Self::Item>;

    /// Split off the next item, handing back the item and the remaining
    /// input, or nothing if the input is exhausted.
    fn uncons(&self) -> (r: Option<(Self::Item, Self)>)
        ensures
            match r {
                Some(p) => self.seq().len() > 0 && p.0 == self.seq()[0] && p.1.seq()
                    == self.seq().drop_first(),
                None => self.seq().len() == 0,
            },
    ;

    /// Duplicate the cursor. Backtracking re-attempts a parse against a
    /// duplicate, so this must be cheap.
    fn dup(&self) -> (r: Self)
        ensures
            r.seq() == self.seq(),
    ;

    /// Decide equality of two items.
    fn item_eq(a: &Self::Item, b: &Self::Item) -> (r: bool)
        ensures
            r == (a == b),
    ;

    /// Whether the input is exhausted.
    fn is_empty(&self) -> (r: bool)
        ensures
            r == (self.seq().len() == 0),
    {
        self.uncons().is_none()
    }

    /// The number of remaining items, where the input knows it.
    fn len(&self) -> (r: Option<usize>)
        ensures
            r matches Some(n) ==> n == self.seq().len(),
    {
        None
    }
}

/// Implementation for string slices - the most common case.
impl<'a> Input for &'a str {
    type Item = char;

    open spec fn seq(&self) -> Seq<char> {
        self@
    }

    fn uncons(&self) -> (r: Option<(char, &'a str)>) {
        let n = self.unicode_len();
        if n == 0 {
            None
        } else {
            let c = self.get_char(0);
            let rest = self.substring_char(1, n);
            proof {
                assert(rest@ =~= self@.drop_first());
            }
            Some((c, rest))
        }
    }

    fn dup(&self) -> (r: &'a str) {
        *self
    }

    fn item_eq(a: &char, b: &char) -> (r: bool) {
        *a == *b
    }

    fn len(&self) -> (r: Option<usize>) {
        Some(self.unicode_len())
    }
}

/// Implementation for byte slices.
impl<'a> Input for &'a [u8] {
    type Item = u8;

    open spec fn seq(&self) -> Seq<u8> {
        self@
    }

    fn uncons(&self) -> (r: Option<(u8, &'a [u8])>) {
        let n = (*self).len();
        if n == 0 {
            None
        } else {
            let x = *vstd::slice::slice_index_get(*self, 0);
            let rest = vstd::slice::slice_subrange(*self, 1, n);
            proof {
                assert(rest@ =~= self@.drop_first());
            }
            Some((x, rest))
        }
    }

    fn dup(&self) -> (r: &'a [u8]) {
        *self
    }

    fn item_eq(a: &u8, b: &u8) -> (r: bool) {
        *a == *b
    }

    fn len(&self) -> (r: Option<usize>) {
        Some((*self).len())
    }
}

/// An item type whose `==` operator decides mathematical equality. The
/// vector input below needs this of its items: nothing is otherwise known
/// of what a generic `PartialEq` implementation computes.
pub trait ExactEq: PartialEq + Sized {
    /// `==` on this type obeys its specification, and that specification is
    /// mathematical equality.
    proof fn eq_is_exact()
        ensures
            Self::obeys_eq_spec(),
            forall|a: Self, b: Self| a.eq_spec(&b) <==> a == b,
    ;
}

impl ExactEq for u8 {
    proof fn eq_is_exact() {
    }
}

impl ExactEq for u16 {
    proof fn eq_is_exact() {
    }
}

impl ExactEq for u32 {
    proof fn eq_is_exact() {
    }
}

impl ExactEq for u64 {
    proof fn eq_is_exact() {
    }
}

impl ExactEq for usize {
    proof fn eq_is_exact() {
    }
}

impl ExactEq for i8 {
    proof fn eq_is_exact() {
    }
}

impl ExactEq for i16 {
    proof fn eq_is_exact() {
    }
}

impl ExactEq for i32 {
    proof fn eq_is_exact() {
    }
}

impl ExactEq for i64 {
    proof fn eq_is_exact() {
    }
}

impl ExactEq for isize {
    proof fn eq_is_exact() {
    }
}

/// Implementation for vectors of plain values. The items must be `Copy` and
/// their `==` exact: splitting off the head copies the remaining items into
/// a fresh vector, and deciding item equality must agree with mathematical
/// equality.
impl<T: Copy + ExactEq + core::fmt::Debug> Input for Vec<T> {
    type Item = T;

    open spec fn seq(&self) -> Seq<T> {
        self@
    }

    fn uncons(&self) -> (r: Option<(T, Vec<T>)>) {
        if self.len() == 0 {
            None
        } else {
            let x = self[0];
            let mut rest: Vec<T> = Vec::new();
            let mut i: usize = 1;
            while i < self.len()
                invariant
                    1 <= i <= self@.len(),
                    rest@ == self@.subrange(1, i as int),
                decreases self@.len() - i,
            {
                rest.push(self[i]);
                proof {
                    assert(self@.subrange(1, i + 1) =~= self@.subrange(1, i as int).push(
                        self@[i as int],
                    ));
                }
                i += 1;
            }
            proof {
                assert(rest@ =~= self@.drop_first());
            }
            Some((x, rest))
        }
    }

    fn dup(&self) -> (r: Vec<T>) {
        let mut out: Vec<T> = Vec::new();
        let mut i: usize = 0;
        while i < self.len()
            invariant
                i <= self@.len(),
                out@ == self@.take(i as int),
            decreases self@.len() - i,
        {
            out.push(self[i]);
            proof {
                assert(self@.take(i + 1) =~= self@.take(i as int).push(self@[i as int]));
            }
            i += 1;
        }
        proof {
            assert(self@.take(self@.len() as int) =~= self@);
        }
        out
    }

    fn item_eq(a: &T, b: &T) -> (r: bool) {
        proof {
            T::eq_is_exact();
        }
        *a == *b
    }

    fn len(&self) -> (r: Option<usize>) {
        Some(self.len())
    }
}

} // verus!
