//! Whole numbers of any size.

use crate::decimal::{decimal_value, fraction, is_decimal, lemma_plain_digits, unsigned, whole, Decimal};
use crate::order::{Duplicate, Order};
use crate::text::{characters, digits_value, is_digit, is_digits, law_numeral, render_integer, signed_numeral};
use vstd::prelude::*;

verus! {

/// Whether a text is the numeral of a whole number: digits, with an optional minus
/// sign before them.
pub open spec fn is_integer(text: Seq<char>) -> bool {
    is_digits(unsigned(text))
}

/// The number the numeral of a whole number denotes.
pub open spec fn integer_value(text: Seq<char>) -> int {
    if text.len() > 0 && text[0] == '-' {
        -digits_value(unsigned(text))
    } else {
        digits_value(unsigned(text)) as int
    }
}

/// The numeral of a whole number is a plain decimal numeral of it.
proof fn lemma_integer_decimal(text: Seq<char>)
    requires
        is_integer(text),
    ensures
        is_decimal(text),
        decimal_value(text) == integer_value(text) as real,
{
    let digits = unsigned(text);
    lemma_plain_digits(digits);
    assert(is_digit(digits[0]));
    assert(unsigned(digits) == digits);
    assert(whole(text) == whole(digits));
    assert(fraction(text) == fraction(digits));
}

/// A whole number.
#[derive(Debug)]
pub struct Integer {
    numeral: String,
}

impl View for Integer {
    type V = int;

    closed spec fn view(&self) -> int {
        integer_value(self.numeral@)
    }
}

impl Integer {
    #[verifier::type_invariant]
    spec fn well_formed(self) -> bool {
        is_integer(self.numeral@)
    }

    /// Read the numeral of a whole number.
    pub fn parse(text: &str) -> (r: Option<Integer>)
        ensures
            r is Some <==> is_integer(text@),
            r matches Some(n) ==> n@ == integer_value(text@),
    {
        let chars = characters(text);
        let start: usize = if chars.len() > 0 && chars[0] == '-' {
            1
        } else {
            0
        };
        let ghost digits = unsigned(text@);
        proof {
            assert(digits =~= text@.skip(start as int));
        }
        let mut i: usize = start;
        while i < chars.len()
            invariant
                chars@ == text@,
                digits == unsigned(text@),
                digits == text@.skip(start as int),
                start <= i <= chars@.len(),
                forall|j: int| 0 <= j < i - start ==> is_digit(#[trigger] digits[j]),
            decreases chars@.len() - i,
        {
            proof {
                assert(digits[i - start] == chars@[i as int]);
            }
            if !('0' <= chars[i] && chars[i] <= '9') {
                return None;
            }
            i = i + 1;
        }
        if i == start {
            None
        } else {
            Some(Integer { numeral: String::from_str(text) })
        }
    }

    /// The whole number of a machine number.
    pub fn of(n: i128) -> (r: Integer)
        ensures
            r@ == n,
    {
        let numeral = render_integer(n);
        proof {
            let magnitude: nat = if n < 0 {
                -n as nat
            } else {
                n as nat
            };
            law_numeral(magnitude);
            reveal_strlit("-");
            let digits = crate::text::numeral(magnitude);
            assert(is_digit(digits[0]));
            if n < 0 {
                assert(signed_numeral(n as int).skip(1) =~= digits);
            }
            assert(unsigned(numeral@) == digits);
        }
        Integer { numeral }
    }

    /// The number as a decimal.
    pub fn decimal(&self) -> (r: Decimal)
        ensures
            r@ == self@ as real,
    {
        proof {
            use_type_invariant(self);
            lemma_integer_decimal(self.numeral@);
        }
        match Decimal::parse(self.numeral.as_str()) {
            Some(d) => d,
            None => Decimal::from_integer(0),
        }
    }

    /// Compare two whole numbers.
    pub fn order(&self, other: &Integer) -> (o: Order)
        ensures
            match o {
                Order::Before => self@ < other@,
                Order::Same => self@ == other@,
                Order::After => self@ > other@,
            },
    {
        self.decimal().order(&other.decimal())
    }
}

impl Duplicate for Integer {
    fn duplicate(&self) -> (r: Self) {
        proof {
            use_type_invariant(self);
        }
        Integer { numeral: self.numeral.clone() }
    }
}

} // verus!
