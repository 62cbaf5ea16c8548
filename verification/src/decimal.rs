//! Exact decimal quantities.
//!
//! A [`Decimal`] is a plain decimal numeral such as `-12.50`. Its value is a
//! real number, and the `bigdecimal` crate does its arithmetic.

use crate::order::{Duplicate, Order};
use crate::text::{characters, concat, digits_value, is_digit, is_digits, law_numeral, render_number};
use vstd::prelude::*;

verus! {

/// The digits of a numeral, without its sign.
pub open spec fn unsigned(text: Seq<char>) -> Seq<char> {
    if text.len() > 0 && text[0] == '-' {
        text.skip(1)
    } else {
        text
    }
}

/// The digits before the decimal point.
pub open spec fn whole(text: Seq<char>) -> Seq<char> {
    match unsigned(text).index_of_first('.') {
        Some(p) => unsigned(text).take(p),
        None => unsigned(text),
    }
}

/// The digits after the decimal point.
pub open spec fn fraction(text: Seq<char>) -> Seq<char> {
    match unsigned(text).index_of_first('.') {
        Some(p) => unsigned(text).skip(p + 1),
        None => Seq::empty(),
    }
}

/// Whether a text is a plain decimal numeral: an optional minus sign, digits, and
/// optionally a point with more digits.
pub open spec fn is_decimal(text: Seq<char>) -> bool {
    &&& is_digits(whole(text))
    &&& unsigned(text).contains('.') ==> is_digits(fraction(text))
}

/// Ten to the power `n`.
pub open spec fn power_of_ten(n: nat) -> real
    decreases n,
{
    if n == 0 {
        1real
    } else {
        10real * power_of_ten((n - 1) as nat)
    }
}

/// The number a plain decimal numeral denotes.
pub open spec fn decimal_value(text: Seq<char>) -> real {
    let magnitude = (digits_value(whole(text) + fraction(text)) as real) / power_of_ten(fraction(text).len());
    if text.len() > 0 && text[0] == '-' {
        -magnitude
    } else {
        magnitude
    }
}

/// `BigDecimal::from_str` on both operands, their sum by `BigDecimal`'s `Add`,
/// and `BigDecimal::to_plain_string` on it. Parsing a plain numeral and adding are
/// exact, and the plain notation of the sum is a plain numeral of its value.
#[verifier::external_body]
fn sum_of_numerals(a: &str, b: &str) -> (r: String)
    requires
        is_decimal(a@),
        is_decimal(b@),
    ensures
        is_decimal(r@),
        decimal_value(r@) == decimal_value(a@) + decimal_value(b@),
{
    let x = a.parse::<bigdecimal::BigDecimal>().unwrap_or_default();
    let y = b.parse::<bigdecimal::BigDecimal>().unwrap_or_default();
    (x + y).to_plain_string()
}

/// `BigDecimal::from_str` on both operands, their difference by `BigDecimal`'s
/// `Sub`, and `BigDecimal::to_plain_string` on it. Parsing a plain numeral and
/// subtracting are exact, and the plain notation of the difference is a plain
/// numeral of its value.
#[verifier::external_body]
fn difference_of_numerals(a: &str, b: &str) -> (r: String)
    requires
        is_decimal(a@),
        is_decimal(b@),
    ensures
        is_decimal(r@),
        decimal_value(r@) == decimal_value(a@) - decimal_value(b@),
{
    let x = a.parse::<bigdecimal::BigDecimal>().unwrap_or_default();
    let y = b.parse::<bigdecimal::BigDecimal>().unwrap_or_default();
    (x - y).to_plain_string()
}

/// `BigDecimal::from_str` on both operands and `BigDecimal`'s `Ord`, which orders
/// decimals by the numbers they denote, whatever their scales.
#[verifier::external_body]
fn order_of_numerals(a: &str, b: &str) -> (o: Order)
    requires
        is_decimal(a@),
        is_decimal(b@),
    ensures
        match o {
            Order::Before => decimal_value(a@) < decimal_value(b@),
            Order::Same => decimal_value(a@) == decimal_value(b@),
            Order::After => decimal_value(a@) > decimal_value(b@),
        },
{
    let x = a.parse::<bigdecimal::BigDecimal>().unwrap_or_default();
    let y = b.parse::<bigdecimal::BigDecimal>().unwrap_or_default();
    match x.cmp(&y) {
        std::cmp::Ordering::Less => Order::Before,
        std::cmp::Ordering::Equal => Order::Same,
        std::cmp::Ordering::Greater => Order::After,
    }
}

/// An exact decimal number.
#[derive(Debug)]
pub struct Decimal {
    numeral: String,
}

impl View for Decimal {
    type V = real;

    closed spec fn view(&self) -> real {
        decimal_value(self.numeral@)
    }
}

impl Decimal {
    #[verifier::type_invariant]
    spec fn well_formed(self) -> bool {
        is_decimal(self.numeral@)
    }

    /// The numeral the number is written as.
    pub closed spec fn spelling(self) -> Seq<char> {
        self.numeral@
    }

    /// Read a plain decimal numeral.
    pub fn parse(text: &str) -> (r: Option<Decimal>)
        ensures
            r is Some <==> is_decimal(text@),
            r matches Some(d) ==> d@ == decimal_value(text@) && d.spelling() == text@,
    {
        let chars = characters(text);
        let start: usize = if chars.len() > 0 && chars[0] == '-' {
            1
        } else {
            0
        };
        let ghost body = unsigned(text@);
        proof {
            assert(body =~= text@.skip(start as int));
            body.index_of_first_ensures('.');
        }
        let mut i: usize = start;
        while i < chars.len() && '0' <= chars[i] && chars[i] <= '9'
            invariant
                chars@ == text@,
                start <= i <= chars@.len(),
                forall|j: int| start <= j < i ==> is_digit(#[trigger] chars@[j]),
            decreases chars@.len() - i,
        {
            i = i + 1;
        }
        if i == chars.len() {
            proof {
                if body.contains('.') {
                    let q = choose|q: int| 0 <= q < body.len() && body[q] == '.';
                    assert(chars@[start + q] == body[q]);
                    assert(is_digit(chars@[start + q]));
                }
                assert(whole(text@) == body);
                if i > start {
                    assert forall|j: int| 0 <= j < body.len() implies is_digit(#[trigger] body[j]) by {
                        assert(body[j] == chars@[start + j]);
                    }
                }
            }
            if i == start {
                return None;
            }
            return Some(Decimal { numeral: String::from_str(text) });
        }
        if i == start || chars[i] != '.' {
            proof {
                if is_decimal(text@) {
                    match body.index_of_first('.') {
                        Some(p) => {
                            assert(body[p] == chars@[start + p]);
                            if start + p < i {
                                assert(is_digit(chars@[start + p]));
                            } else if start + p > i {
                                assert(whole(text@)[i - start] == chars@[i as int]);
                                assert(is_digit(chars@[i as int]));
                            } else {
                                assert(whole(text@).len() == i - start);
                            }
                        },
                        None => {
                            assert(whole(text@)[i - start] == chars@[i as int]);
                        },
                    }
                }
            }
            return None;
        }
        let point: usize = i;
        proof {
            assert(body[point - start] == '.');
            let p = body.index_of_first('.')->0;
            assert(p == point - start) by {
                assert(body[p] == chars@[start + p]);
                if start + p < point {
                    assert(is_digit(chars@[start + p]));
                }
            }
            assert(whole(text@) =~= body.take(p));
            assert forall|j: int| 0 <= j < whole(text@).len() implies is_digit(#[trigger] whole(text@)[j]) by {
                assert(whole(text@)[j] == chars@[start + j]);
            }
            assert(fraction(text@) =~= text@.skip(point + 1));
        }
        i = point + 1;
        while i < chars.len() && '0' <= chars[i] && chars[i] <= '9'
            invariant
                chars@ == text@,
                point < i <= chars@.len(),
                forall|j: int| point < j < i ==> is_digit(#[trigger] chars@[j]),
            decreases chars@.len() - i,
        {
            i = i + 1;
        }
        if i < chars.len() || i == point + 1 {
            proof {
                if i < chars.len() {
                    assert(fraction(text@)[i - point - 1] == chars@[i as int]);
                }
            }
            return None;
        }
        proof {
            assert forall|j: int| 0 <= j < fraction(text@).len() implies is_digit(#[trigger] fraction(text@)[j]) by {
                assert(fraction(text@)[j] == chars@[point + 1 + j]);
            }
        }
        Some(Decimal { numeral: String::from_str(text) })
    }

    /// A whole number as a decimal.
    pub fn from_integer(n: i128) -> (r: Decimal)
        ensures
            r@ == n as real,
    {
        let magnitude: u128 = if n >= 0 {
            n as u128
        } else if n == i128::MIN {
            170141183460469231731687303715884105728u128
        } else {
            (-n) as u128
        };
        let digits = render_number(magnitude);
        proof {
            law_numeral(magnitude as nat);
            lemma_plain_digits(digits@);
            reveal_strlit("-");
        }
        if n >= 0 {
            Decimal { numeral: digits }
        } else {
            let text = concat("-", digits.as_str());
            proof {
                assert(text@.skip(1) =~= digits@);
                assert(unsigned(text@) == digits@);
                assert(unsigned(digits@) == digits@) by {
                    assert(is_digit(digits@[0]));
                }
                assert(whole(text@) == whole(digits@));
                assert(fraction(text@) == fraction(digits@));
            }
            Decimal { numeral: text }
        }
    }

    /// The sum of two decimals.
    pub fn plus(&self, other: &Decimal) -> (r: Decimal)
        ensures
            r@ == self@ + other@,
    {
        proof {
            use_type_invariant(self);
            use_type_invariant(other);
        }
        let numeral = sum_of_numerals(self.numeral.as_str(), other.numeral.as_str());
        Decimal { numeral }
    }

    /// The difference of two decimals.
    pub fn minus(&self, other: &Decimal) -> (r: Decimal)
        ensures
            r@ == self@ - other@,
    {
        proof {
            use_type_invariant(self);
            use_type_invariant(other);
        }
        let numeral = difference_of_numerals(self.numeral.as_str(), other.numeral.as_str());
        Decimal { numeral }
    }

    /// Compare two decimals by the numbers they denote.
    pub fn order(&self, other: &Decimal) -> (o: Order)
        ensures
            match o {
                Order::Before => self@ < other@,
                Order::Same => self@ == other@,
                Order::After => self@ > other@,
            },
    {
        proof {
            use_type_invariant(self);
            use_type_invariant(other);
        }
        order_of_numerals(self.numeral.as_str(), other.numeral.as_str())
    }

    /// The plain numeral of the number.
    pub fn text(&self) -> (r: &str)
        ensures
            r@ == self.spelling(),
            is_decimal(r@),
            decimal_value(r@) == self@,
    {
        proof {
            use_type_invariant(self);
        }
        self.numeral.as_str()
    }
}

/// A row of digits is a plain numeral of the number it denotes.
pub(crate) proof fn lemma_plain_digits(digits: Seq<char>)
    requires
        is_digits(digits),
    ensures
        is_decimal(digits),
        decimal_value(digits) == digits_value(digits) as real,
{
    assert(is_digit(digits[0]));
    digits.index_of_first_ensures('.');
    assert(!digits.contains('.')) by {
        if digits.contains('.') {
            let q = choose|q: int| 0 <= q < digits.len() && digits[q] == '.';
            assert(is_digit(digits[q]));
        }
    }
    assert(whole(digits) + fraction(digits) =~= digits);
    assert(power_of_ten(0) == 1real);
}

impl Duplicate for Decimal {
    fn duplicate(&self) -> (r: Self) {
        proof {
            use_type_invariant(self);
        }
        Decimal { numeral: self.numeral.clone() }
    }
}

} // verus!
