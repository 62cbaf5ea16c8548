//! Text: characters, order, joining, splitting, and decimal numerals.

use crate::order::{
    lemma_lex_irreflexive, lemma_lex_skip, lemma_lex_total, lemma_lex_transitive, lex, Duplicate, Key, Order,
};
use vstd::prelude::*;

verus! {

/// Whether one character comes before another, by code point.
pub open spec fn char_before(a: char, b: char) -> bool {
    (a as int) < (b as int)
}

/// The order on characters.
pub open spec fn char_order() -> spec_fn(char, char) -> bool {
    |a: char, b: char| char_before(a, b)
}

/// Whether one text comes before another, character by character.
pub open spec fn text_before(a: Seq<char>, b: Seq<char>) -> bool {
    lex(char_order(), a, b)
}

/// The characters of a text.
pub fn characters(text: &str) -> (r: Vec<char>)
    ensures
        r@ == text@,
{
    let mut r: Vec<char> = Vec::new();
    for c in it: text.chars()
        invariant
            it.seq() == text@,
            r@ == it.seq().take(it.index() as int),
    {
        proof {
            assert(it.seq().take(it.index() as int + 1) =~= it.seq().take(it.index() as int).push(
                it.seq()[it.index() as int],
            ));
        }
        r.push(c);
    }
    proof {
        assert(text@.take(text@.len() as int) =~= text@);
    }
    r
}

/// Compare two texts.
pub fn order_text(a: &str, b: &str) -> (o: Order)
    ensures
        match o {
            Order::Before => text_before(a@, b@),
            Order::Same => a@ == b@,
            Order::After => text_before(b@, a@),
        },
{
    let x = characters(a);
    let y = characters(b);
    let ghost before = char_order();
    let mut i: usize = 0;
    while i < x.len() && i < y.len() && x[i] == y[i]
        invariant
            i <= x@.len(),
            i <= y@.len(),
            x@.take(i as int) =~= y@.take(i as int),
        decreases x@.len() - i,
    {
        proof {
            assert(x@.take(i + 1) =~= x@.take(i as int).push(x@[i as int]));
            assert(y@.take(i + 1) =~= y@.take(i as int).push(y@[i as int]));
        }
        i = i + 1;
    }
    proof {
        lemma_lex_skip(before, x@, y@, i as int);
        lemma_lex_skip(before, y@, x@, i as int);
        assert(i < x@.len() ==> x@.skip(i as int)[0] == x@[i as int]);
        assert(i < y@.len() ==> y@.skip(i as int)[0] == y@[i as int]);
    }
    if i >= x.len() {
        if i >= y.len() {
            proof {
                assert(x@ =~= x@.take(i as int));
                assert(y@ =~= y@.take(i as int));
            }
            Order::Same
        } else {
            Order::Before
        }
    } else if i >= y.len() {
        Order::After
    } else {
        let p: char = x[i];
        let q: char = y[i];
        if p < q {
            Order::Before
        } else {
            Order::After
        }
    }
}

impl Key for String {
    open spec fn before(a: Seq<char>, b: Seq<char>) -> bool {
        text_before(a, b)
    }

    proof fn irreflexive(a: Seq<char>) {
        lemma_lex_irreflexive(char_order(), a);
    }

    proof fn transitive(a: Seq<char>, b: Seq<char>, c: Seq<char>) {
        lemma_lex_transitive(char_order(), a, b, c);
    }

    proof fn total(a: Seq<char>, b: Seq<char>) {
        lemma_lex_total(char_order(), a, b);
    }

    fn order(&self, other: &Self) -> (o: Order) {
        order_text(self.as_str(), other.as_str())
    }
}

impl Duplicate for String {
    fn duplicate(&self) -> (r: Self) {
        self.clone()
    }
}


/// The pieces of a text between occurrences of a separator.
pub open spec fn split(text: Seq<char>, separator: char) -> Seq<Seq<char>>
    decreases text.len(),
{
    let p = text.index_of_first(separator);
    match p {
        Some(p) if 0 <= p < text.len() => seq![text.take(p)] + split(text.skip(p + 1), separator),
        _ => seq![text],
    }
}

/// The pieces put back together with the separator between them.
pub open spec fn join(pieces: Seq<Seq<char>>, separator: Seq<char>) -> Seq<char>
    decreases pieces.len(),
{
    if pieces.len() == 0 {
        Seq::empty()
    } else if pieces.len() == 1 {
        pieces[0]
    } else {
        pieces[0] + separator + join(pieces.drop_first(), separator)
    }
}

/// The views of a sequence of texts.
pub open spec fn texts(v: Seq<String>) -> Seq<Seq<char>> {
    Seq::new(v.len(), |i: int| v[i]@)
}

/// Joining what splitting a text gave restores the text.
pub proof fn law_split_join(text: Seq<char>, separator: char)
    ensures
        join(split(text, separator), seq![separator]) == text,
        split(text, separator).len() >= 1,
    decreases text.len(),
{
    text.index_of_first_ensures(separator);
    match text.index_of_first(separator) {
        Some(p) if 0 <= p < text.len() => {
            let rest = split(text.skip(p + 1), separator);
            law_split_join(text.skip(p + 1), separator);
            let all = seq![text.take(p)] + rest;
            assert(all.drop_first() =~= rest);
            assert(text =~= text.take(p) + seq![separator] + text.skip(p + 1));
        },
        _ => {},
    }
}

/// No piece holds the separator.
pub proof fn law_split_pieces(text: Seq<char>, separator: char)
    ensures
        forall|i: int| 0 <= i < split(text, separator).len() ==> !(#[trigger] split(text, separator)[i]).contains(separator),
    decreases text.len(),
{
    text.index_of_first_ensures(separator);
    match text.index_of_first(separator) {
        Some(p) if 0 <= p < text.len() => {
            let rest = split(text.skip(p + 1), separator);
            law_split_pieces(text.skip(p + 1), separator);
            let all = seq![text.take(p)] + rest;
            assert forall|i: int| 0 <= i < all.len() implies !(#[trigger] all[i]).contains(separator) by {
                if i == 0 {
                    if text.take(p).contains(separator) {
                        let q = choose|q: int| 0 <= q < text.take(p).len() && text.take(p)[q] == separator;
                        assert(text[q] == separator);
                    }
                } else {
                    assert(all[i] == rest[i - 1]);
                }
            }
        },
        _ => {},
    }
}

/// Split a text at every occurrence of a separator.
pub fn split_text(text: &str, separator: char) -> (r: Vec<String>)
    ensures
        texts(r@) == split(text@, separator),
        r@.len() >= 1,
{
    let chars = characters(text);
    let mut pieces: Vec<String> = Vec::new();
    let mut start: usize = 0;
    let mut i: usize = 0;
    proof {
        assert(text@.skip(0) =~= text@);
    }
    while i < chars.len()
        invariant
            chars@ == text@,
            start <= i <= chars@.len(),
            forall|j: int| start <= j < i ==> chars@[j] != separator,
            split(text@, separator) == texts(pieces@) + split(text@.skip(start as int), separator),
        decreases chars@.len() - i,
    {
        if chars[i] == separator {
            let piece = text.substring_char(start, i);
            let ghost tail = text@.skip(start as int);
            let ghost prior = texts(pieces@);
            proof {
                tail.index_of_first_ensures(separator);
                assert(tail[i - start] == separator);
                let p = tail.index_of_first(separator)->0;
                assert(p == i - start) by {
                    if p < i - start {
                        assert(chars@[start + p] == tail[p]);
                    }
                }
                assert(tail.take(p) =~= piece@);
                assert(tail.skip(p + 1) =~= text@.skip(i + 1));
            }
            pieces.push(String::from_str(piece));
            proof {
                assert(texts(pieces@) =~= prior.push(piece@));
                assert(prior + (seq![piece@] + split(text@.skip(i + 1), separator)) =~= prior.push(piece@) + split(
                    text@.skip(i + 1),
                    separator,
                ));
            }
            start = i + 1;
        }
        i = i + 1;
    }
    let last = text.substring_char(start, chars.len());
    proof {
        let tail = text@.skip(start as int);
        tail.index_of_first_ensures(separator);
        assert(tail =~= last@);
        assert(!tail.contains(separator)) by {
            if tail.contains(separator) {
                let q = choose|q: int| 0 <= q < tail.len() && tail[q] == separator;
                assert(chars@[start + q] == separator);
            }
        }
    }
    let ghost prior = texts(pieces@);
    pieces.push(String::from_str(last));
    proof {
        assert(texts(pieces@) =~= prior.push(last@));
        assert(prior + seq![last@] =~= prior.push(last@));
    }
    pieces
}

/// Join texts with a separator between them.
pub fn join_texts(pieces: &Vec<String>, separator: &str) -> (r: String)
    ensures
        r@ == join(texts(pieces@), separator@),
{
    let n: usize = pieces.len();
    if n == 0 {
        return String::new();
    }
    let mut i: usize = n - 1;
    let mut r: String = pieces[i].clone();
    proof {
        assert(texts(pieces@).skip(i as int) =~= seq![pieces@[i as int]@]);
    }
    while i > 0
        invariant
            n == pieces@.len(),
            i < n,
            r@ == join(texts(pieces@).skip(i as int), separator@),
        decreases i,
    {
        i = i - 1;
        proof {
            let s = texts(pieces@).skip(i as int);
            assert(s.drop_first() =~= texts(pieces@).skip(i + 1));
            assert(s[0] == pieces@[i as int]@);
        }
        let mut head: String = pieces[i].clone();
        head.append(separator);
        head.append(r.as_str());
        r = head;
    }
    proof {
        assert(texts(pieces@).skip(0) =~= texts(pieces@));
    }
    r
}

/// Copy a list of texts.
pub fn copy_texts(v: &Vec<String>) -> (r: Vec<String>)
    ensures
        texts(r@) == texts(v@),
        r@.len() == v@.len(),
{
    let mut r: Vec<String> = Vec::new();
    let mut i: usize = 0;
    while i < v.len()
        invariant
            i <= v@.len(),
            r@.len() == i,
            forall|j: int| 0 <= j < i ==> (#[trigger] r@[j])@ == v@[j]@,
        decreases v@.len() - i,
    {
        r.push(v[i].clone());
        i = i + 1;
    }
    proof {
        assert(texts(r@) =~= texts(v@));
    }
    r
}

/// Whether two lists of texts are the same.
pub fn same_texts(a: &Vec<String>, b: &Vec<String>) -> (r: bool)
    ensures
        r == (texts(a@) == texts(b@)),
{
    if a.len() != b.len() {
        proof {
            assert(texts(a@).len() != texts(b@).len());
        }
        return false;
    }
    let mut i: usize = 0;
    while i < a.len()
        invariant
            i <= a@.len(),
            a@.len() == b@.len(),
            forall|j: int| 0 <= j < i ==> (#[trigger] a@[j])@ == b@[j]@,
        decreases a@.len() - i,
    {
        if a[i] != b[i] {
            proof {
                assert(texts(a@)[i as int] != texts(b@)[i as int]);
            }
            return false;
        }
        i = i + 1;
    }
    proof {
        assert(texts(a@) =~= texts(b@));
    }
    true
}

/// Whether a list of texts holds a text.
pub fn holds_text(v: &Vec<String>, text: &str) -> (r: bool)
    ensures
        r == texts(v@).contains(text@),
{
    let mut i: usize = 0;
    while i < v.len()
        invariant
            i <= v@.len(),
            forall|j: int| 0 <= j < i ==> (#[trigger] v@[j])@ != text@,
        decreases v@.len() - i,
    {
        if same_text(v[i].as_str(), text) {
            proof {
                assert(texts(v@)[i as int] == text@);
            }
            return true;
        }
        i = i + 1;
    }
    proof {
        assert forall|j: int| 0 <= j < v@.len() implies texts(v@)[j] != text@ by {
            assert(v@[j]@ != text@);
        }
    }
    false
}

/// Whether two texts are the same.
pub fn same_text(a: &str, b: &str) -> (r: bool)
    ensures
        r == (a@ == b@),
{
    match order_text(a, b) {
        Order::Same => true,
        Order::Before => {
            proof {
                lemma_lex_irreflexive(char_order(), a@);
            }
            false
        },
        Order::After => {
            proof {
                lemma_lex_irreflexive(char_order(), a@);
            }
            false
        },
    }
}

/// Two texts put one after the other.
pub fn concat(a: &str, b: &str) -> (r: String)
    ensures
        r@ == a@ + b@,
{
    let mut r = String::from_str(a);
    r.append(b);
    r
}

/// Three texts put one after the other.
pub fn concat3(a: &str, b: &str, c: &str) -> (r: String)
    ensures
        r@ == a@ + b@ + c@,
{
    let mut r = String::from_str(a);
    r.append(b);
    r.append(c);
    r
}

/// Four texts put one after the other.
pub fn concat4(a: &str, b: &str, c: &str, d: &str) -> (r: String)
    ensures
        r@ == a@ + b@ + c@ + d@,
{
    let mut r = String::from_str(a);
    r.append(b);
    r.append(c);
    r.append(d);
    r
}

/// Five texts put one after the other.
pub fn concat5(a: &str, b: &str, c: &str, d: &str, e: &str) -> (r: String)
    ensures
        r@ == a@ + b@ + c@ + d@ + e@,
{
    let mut r = String::from_str(a);
    r.append(b);
    r.append(c);
    r.append(d);
    r.append(e);
    r
}

/// Whether a character is a decimal digit.
pub open spec fn is_digit(c: char) -> bool {
    '0' <= c <= '9'
}

/// Whether a text is one or more decimal digits.
pub open spec fn is_digits(s: Seq<char>) -> bool {
    s.len() > 0 && forall|i: int| 0 <= i < s.len() ==> is_digit(#[trigger] s[i])
}

/// The number a row of decimal digits denotes.
pub open spec fn digits_value(s: Seq<char>) -> nat
    decreases s.len(),
{
    if s.len() == 0 {
        0
    } else {
        10 * digits_value(s.drop_last()) + (s.last() as nat - '0' as nat) as nat
    }
}

/// The shortest decimal numeral of a number.
pub open spec fn numeral(n: nat) -> Seq<char>
    decreases n,
{
    if n < 10 {
        seq![(('0' as nat) + n) as char]
    } else {
        numeral(n / 10).push((('0' as nat) + n % 10) as char)
    }
}

/// A numeral is a row of digits that denotes the number it was made from.
pub proof fn law_numeral(n: nat)
    ensures
        is_digits(numeral(n)),
        digits_value(numeral(n)) == n,
    decreases n,
{
    if n < 10 {
        assert(numeral(n).drop_last() =~= Seq::<char>::empty());
        assert(digits_value(Seq::<char>::empty()) == 0);
    } else {
        law_numeral(n / 10);
        assert(numeral(n).drop_last() =~= numeral(n / 10));
    }
}

/// A longer row of digits denotes a number at least as large.
proof fn lemma_digits_prefix(s: Seq<char>, n: int)
    requires
        0 <= n <= s.len(),
    ensures
        digits_value(s.take(n)) <= digits_value(s),
    decreases s.len() - n,
{
    if n == s.len() {
        assert(s.take(n) =~= s);
    } else {
        lemma_digits_prefix(s, n + 1);
        assert(s.take(n + 1).drop_last() =~= s.take(n));
    }
}

fn digit_text(d: u128) -> (r: &'static str)
    requires
        d < 10,
    ensures
        r@ == seq![(('0' as nat) + d as nat) as char],
{
    proof {
        reveal_strlit("0");
        reveal_strlit("1");
        reveal_strlit("2");
        reveal_strlit("3");
        reveal_strlit("4");
        reveal_strlit("5");
        reveal_strlit("6");
        reveal_strlit("7");
        reveal_strlit("8");
        reveal_strlit("9");
    }
    let r: &'static str = if d == 0 {
        "0"
    } else if d == 1 {
        "1"
    } else if d == 2 {
        "2"
    } else if d == 3 {
        "3"
    } else if d == 4 {
        "4"
    } else if d == 5 {
        "5"
    } else if d == 6 {
        "6"
    } else if d == 7 {
        "7"
    } else if d == 8 {
        "8"
    } else {
        "9"
    };
    proof {
        assert(r@ =~= seq![(('0' as nat) + d as nat) as char]);
    }
    r
}

/// Write a number as its decimal numeral.
pub fn render_number(n: u128) -> (r: String)
    ensures
        r@ == numeral(n as nat),
    decreases n,
{
    if n < 10 {
        String::from_str(digit_text(n))
    } else {
        let mut r = render_number(n / 10);
        r.append(digit_text(n % 10));
        proof {
            assert(r@ =~= numeral(n as nat));
        }
        r
    }
}

/// The numeral of a whole number, with a minus sign where it is negative.
pub open spec fn signed_numeral(n: int) -> Seq<char> {
    if n < 0 {
        "-"@ + numeral((-n) as nat)
    } else {
        numeral(n as nat)
    }
}

/// The numeral of a whole number.
pub fn render_integer(n: i128) -> (r: String)
    ensures
        r@ == signed_numeral(n as int),
{
    if n >= 0 {
        render_number(n as u128)
    } else {
        let above: u128 = (-(n + 1)) as u128;
        let digits = render_number(above + 1);
        concat("-", digits.as_str())
    }
}

/// The position a text names: decimal digits with an optional leading `+`, within
/// the range of positions.
pub open spec fn position_of(text: Seq<char>) -> Option<u64> {
    let digits = if text.len() > 0 && text[0] == '+' {
        text.skip(1)
    } else {
        text
    };
    if is_digits(digits) && digits_value(digits) <= u64::MAX {
        Some(digits_value(digits) as u64)
    } else {
        None
    }
}

/// Read a position.
pub fn parse_position(text: &str) -> (r: Option<u64>)
    ensures
        r == position_of(text@),
{
    let chars = characters(text);
    let start: usize = if chars.len() > 0 && chars[0] == '+' {
        1
    } else {
        0
    };
    let ghost digits = if text@.len() > 0 && text@[0] == '+' {
        text@.skip(1)
    } else {
        text@
    };
    proof {
        assert(digits =~= text@.skip(start as int));
    }
    if start >= chars.len() {
        return None;
    }
    let mut value: u64 = 0;
    let mut i: usize = start;
    while i < chars.len()
        invariant
            chars@ == text@,
            start <= i <= chars@.len(),
            start < chars@.len(),
            digits == text@.skip(start as int),
            position_of(text@) == (if is_digits(digits) && digits_value(digits) <= u64::MAX {
                Some(digits_value(digits) as u64)
            } else {
                None
            }),
            forall|j: int| start <= j < i ==> is_digit(#[trigger] chars@[j]),
            value == digits_value(digits.take(i - start)),
        decreases chars@.len() - i,
    {
        let c: char = chars[i];
        if !('0' <= c && c <= '9') {
            proof {
                assert(digits[i - start] == c);
            }
            return None;
        }
        let d: u64 = ((c as u32) - ('0' as u32)) as u64;
        proof {
            assert(digits.take(i - start + 1).drop_last() =~= digits.take(i - start));
            assert(digits.take(i - start + 1).last() == c);
            lemma_digits_prefix(digits, i - start + 1);
        }
        if value > (u64::MAX - d) / 10 {
            return None;
        }
        value = value * 10 + d;
        i = i + 1;
    }
    proof {
        assert(digits.take(i - start) =~= digits);
        assert forall|j: int| 0 <= j < digits.len() implies is_digit(#[trigger] digits[j]) by {
            assert(digits[j] == chars@[start + j]);
        }
    }
    Some(value)
}

/// Reading a position back from its numeral gives the position.
pub proof fn law_position_numeral(n: u64)
    ensures
        position_of(numeral(n as nat)) == Some(n),
{
    law_numeral(n as nat);
    let s = numeral(n as nat);
    assert(is_digit(s[0]));
}

/// Whether a character is white space.
pub open spec fn is_blank(c: char) -> bool {
    ||| '\u{9}' <= c <= '\u{d}'
    ||| c == '\u{20}'
    ||| c == '\u{85}'
    ||| c == '\u{a0}'
    ||| c == '\u{1680}'
    ||| '\u{2000}' <= c <= '\u{200a}'
    ||| c == '\u{2028}'
    ||| c == '\u{2029}'
    ||| c == '\u{202f}'
    ||| c == '\u{205f}'
    ||| c == '\u{3000}'
}

pub(crate) fn blank(c: char) -> (r: bool)
    ensures
        r == is_blank(c),
{
    ('\u{9}' <= c && c <= '\u{d}') || c == '\u{20}' || c == '\u{85}' || c == '\u{a0}' || c == '\u{1680}' || (
    '\u{2000}' <= c && c <= '\u{200a}') || c == '\u{2028}' || c == '\u{2029}' || c == '\u{202f}' || c == '\u{205f}'
        || c == '\u{3000}'
}

/// A text without the white space it starts with.
pub open spec fn left_trimmed(text: Seq<char>) -> Seq<char>
    decreases text.len(),
{
    if text.len() > 0 && is_blank(text[0]) {
        left_trimmed(text.drop_first())
    } else {
        text
    }
}

/// A text without the white space it ends with.
pub open spec fn right_trimmed(text: Seq<char>) -> Seq<char>
    decreases text.len(),
{
    if text.len() > 0 && is_blank(text.last()) {
        right_trimmed(text.drop_last())
    } else {
        text
    }
}

/// A text without the minus signs it starts with.
pub open spec fn without_minus(text: Seq<char>) -> Seq<char>
    decreases text.len(),
{
    if text.len() > 0 && text[0] == '-' {
        without_minus(text.drop_first())
    } else {
        text
    }
}

/// Remove the white space a text starts with.
pub fn trim_start(text: &str) -> (r: String)
    ensures
        r@ == left_trimmed(text@),
{
    let chars = characters(text);
    let n: usize = chars.len();
    let mut i: usize = 0;
    proof {
        assert(chars@.skip(0) =~= chars@);
    }
    while i < n && blank(chars[i])
        invariant
            n == chars@.len(),
            i <= n,
            left_trimmed(chars@) == left_trimmed(chars@.skip(i as int)),
        decreases n - i,
    {
        proof {
            assert(chars@.skip(i as int).drop_first() =~= chars@.skip(i + 1));
        }
        i = i + 1;
    }
    proof {
        assert(chars@.subrange(i as int, n as int) =~= chars@.skip(i as int));
    }
    String::from_str(text.substring_char(i, n))
}

/// Remove the white space a text starts and ends with.
pub fn trim(text: &str) -> (r: String)
    ensures
        r@ == right_trimmed(left_trimmed(text@)),
{
    let head = trim_start(text);
    let chars = characters(head.as_str());
    let mut n: usize = chars.len();
    proof {
        assert(chars@.take(n as int) =~= chars@);
    }
    while n > 0 && blank(chars[n - 1])
        invariant
            n <= chars@.len(),
            right_trimmed(chars@) == right_trimmed(chars@.take(n as int)),
        decreases n,
    {
        proof {
            assert(chars@.take(n as int).drop_last() =~= chars@.take(n - 1));
            assert(chars@.take(n as int).last() == chars@[n - 1]);
        }
        n = n - 1;
    }
    proof {
        assert(chars@.subrange(0, n as int) =~= chars@.take(n as int));
    }
    String::from_str(head.as_str().substring_char(0, n))
}

/// Whether a text starts with a minus sign.
pub fn starts_with_minus(text: &str) -> (r: bool)
    ensures
        r == (text@.len() > 0 && text@[0] == '-'),
{
    let chars = characters(text);
    chars.len() > 0 && chars[0] == '-'
}

/// Remove the minus signs a text starts with.
pub fn trim_minus(text: &str) -> (r: String)
    ensures
        r@ == without_minus(text@),
{
    let chars = characters(text);
    let n: usize = chars.len();
    let mut i: usize = 0;
    proof {
        assert(chars@.skip(0) =~= chars@);
    }
    while i < n && chars[i] == '-'
        invariant
            n == chars@.len(),
            i <= n,
            without_minus(chars@) == without_minus(chars@.skip(i as int)),
        decreases n - i,
    {
        proof {
            assert(chars@.skip(i as int).drop_first() =~= chars@.skip(i + 1));
        }
        i = i + 1;
    }
    proof {
        assert(chars@.subrange(i as int, n as int) =~= chars@.skip(i as int));
    }
    String::from_str(text.substring_char(i, n))
}

/// What follows a prefix, where the text starts with it.
pub open spec fn after_prefix(text: Seq<char>, prefix: Seq<char>) -> Option<Seq<char>> {
    if prefix.len() <= text.len() && text.take(prefix.len() as int) == prefix {
        Some(text.skip(prefix.len() as int))
    } else {
        None
    }
}

/// What stands before a suffix, where the text ends with it.
pub open spec fn before_suffix(text: Seq<char>, suffix: Seq<char>) -> Option<Seq<char>> {
    if suffix.len() <= text.len() && text.skip(text.len() - suffix.len()) == suffix {
        Some(text.take(text.len() - suffix.len()))
    } else {
        None
    }
}

/// What stands before and after the first occurrence of a separator.
pub open spec fn cut(text: Seq<char>, separator: char) -> Option<(Seq<char>, Seq<char>)> {
    match text.index_of_first(separator) {
        Some(p) if 0 <= p < text.len() => Some((text.take(p), text.skip(p + 1))),
        _ => None,
    }
}

/// Text before a separator that it does not hold is cut off whole.
pub(crate) proof fn lemma_cut(head: Seq<char>, separator: char, tail: Seq<char>)
    requires
        !head.contains(separator),
    ensures
        cut(head + seq![separator] + tail, separator) == Some((head, tail)),
{
    let text = head + seq![separator] + tail;
    text.index_of_first_ensures(separator);
    assert(text[head.len() as int] == separator);
    assert(text.contains(separator));
    let p = text.index_of_first(separator)->0;
    if p < head.len() {
        assert(head[p] == text[p]);
        assert(head.contains(separator));
    }
    assert(p == head.len());
    assert(text.take(p) =~= head);
    assert(text.skip(p + 1) =~= tail);
}

/// Remove a prefix.
pub fn strip_prefix(text: &str, prefix: &str) -> (r: Option<String>)
    ensures
        match r {
            Some(rest) => after_prefix(text@, prefix@) == Some(rest@),
            None => after_prefix(text@, prefix@) is None,
        },
{
    let n: usize = characters(text).len();
    let k: usize = characters(prefix).len();
    if k > n {
        return None;
    }
    let head = text.substring_char(0, k);
    proof {
        assert(text@.subrange(0, k as int) =~= text@.take(k as int));
        assert(text@.subrange(k as int, n as int) =~= text@.skip(k as int));
    }
    if same_text(head, prefix) {
        Some(String::from_str(text.substring_char(k, n)))
    } else {
        None
    }
}

/// Remove a suffix.
pub fn strip_suffix(text: &str, suffix: &str) -> (r: Option<String>)
    ensures
        match r {
            Some(rest) => before_suffix(text@, suffix@) == Some(rest@),
            None => before_suffix(text@, suffix@) is None,
        },
{
    let n: usize = characters(text).len();
    let k: usize = characters(suffix).len();
    if k > n {
        return None;
    }
    let tail = text.substring_char(n - k, n);
    proof {
        assert(text@.subrange(n - k, n as int) =~= text@.skip(n - k));
        assert(text@.subrange(0, n - k) =~= text@.take(n - k));
    }
    if same_text(tail, suffix) {
        Some(String::from_str(text.substring_char(0, n - k)))
    } else {
        None
    }
}

/// Part a text at the first occurrence of a separator.
pub fn split_once(text: &str, separator: char) -> (r: Option<(String, String)>)
    ensures
        match r {
            Some((head, tail)) => cut(text@, separator) == Some((head@, tail@)),
            None => cut(text@, separator) is None,
        },
{
    let chars = characters(text);
    let n: usize = chars.len();
    let mut i: usize = 0;
    proof {
        text@.index_of_first_ensures(separator);
    }
    while i < n
        invariant
            n == chars@.len(),
            chars@ == text@,
            i <= n,
            forall|j: int| 0 <= j < i ==> chars@[j] != separator,
            match text@.index_of_first(separator) {
                Some(p) => 0 <= p < text@.len() && text@[p] == separator && (forall|j: int|
                    0 <= j < p ==> text@[j] != separator),
                None => !text@.contains(separator),
            },
        decreases n - i,
    {
        if chars[i] == separator {
            proof {
                assert(text@.contains(separator));
                let p = text@.index_of_first(separator)->0;
                assert(p == i);
                assert(text@.subrange(0, i as int) =~= text@.take(i as int));
                assert(text@.subrange(i + 1, n as int) =~= text@.skip(i + 1));
            }
            return Some((String::from_str(text.substring_char(0, i)), String::from_str(text.substring_char(i + 1, n))));
        }
        i = i + 1;
    }
    None
}

/// Whether a text is empty.
pub fn is_empty_text(text: &str) -> (r: bool)
    ensures
        r == (text@.len() == 0),
{
    characters(text).len() == 0
}

/// Splitting what joining pieces gave restores the pieces, where none of them holds
/// the separator.
pub proof fn law_join_split(pieces: Seq<Seq<char>>, separator: char)
    requires
        pieces.len() > 0,
        forall|i: int| 0 <= i < pieces.len() ==> !(#[trigger] pieces[i]).contains(separator),
    ensures
        split(join(pieces, seq![separator]), separator) == pieces,
    decreases pieces.len(),
{
    let text = join(pieces, seq![separator]);
    text.index_of_first_ensures(separator);
    if pieces.len() == 1 {
        assert(text == pieces[0]);
        assert(split(text, separator) =~= pieces);
    } else {
        let rest = pieces.drop_first();
        assert forall|i: int| 0 <= i < rest.len() implies !(#[trigger] rest[i]).contains(separator) by {
            assert(rest[i] == pieces[i + 1]);
        }
        law_join_split(rest, separator);
        let first = pieces[0];
        let tail = join(rest, seq![separator]);
        assert(text == first + seq![separator] + tail);
        assert(text[first.len() as int] == separator);
        assert(text.contains(separator));
        let p = text.index_of_first(separator)->0;
        if p < first.len() {
            assert(first[p] == text[p]);
            assert(first.contains(separator));
        }
        assert(p == first.len());
        assert(text.take(p) =~= first);
        assert(text.skip(p + 1) =~= tail);
        assert(seq![first] + rest =~= pieces);
    }
}

} // verus!
