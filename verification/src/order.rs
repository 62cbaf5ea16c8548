//! Total orders on keys and the lexicographic order they induce on sequences.

use vstd::prelude::*;

verus! {

/// The outcome of comparing two keys.
#[derive(Debug, Clone, Copy, PartialEq, Eq, Structural)]
pub enum Order {
    /// The left key comes first.
    Before,
    /// The keys are the same.
    Same,
    /// The right key comes first.
    After,
}

/// A key of an ordered map: its view carries a strict total order, and
/// `order` decides it.
pub trait Key: View + Sized {
    /// Whether `a` comes strictly before `b`.
    spec fn before(a: Self::V, b: Self::V) -> bool;

    proof fn irreflexive(a: Self::V)
        ensures
            !Self::before(a, a),
    ;

    proof fn transitive(a: Self::V, b: Self::V, c: Self::V)
        requires
            Self::before(a, b),
            Self::before(b, c),
        ensures
            Self::before(a, c),
    ;

    proof fn total(a: Self::V, b: Self::V)
        ensures
            Self::before(a, b) || a == b || Self::before(b, a),
    ;

    fn order(&self, other: &Self) -> (o: Order)
        ensures
            match o {
                Order::Before => Self::before(self@, other@),
                Order::Same => self@ == other@,
                Order::After => Self::before(other@, self@),
            },
    ;
}

/// A value that can be copied without changing what it denotes.
pub trait Duplicate: View + Sized {
    fn duplicate(&self) -> (r: Self)
        ensures
            r@ == self@,
    ;
}

/// The lexicographic order on sequences: a proper prefix comes first, and
/// otherwise the first position at which the two differ decides.
pub open spec fn lex<T>(before: spec_fn(T, T) -> bool, a: Seq<T>, b: Seq<T>) -> bool
    decreases a.len(),
{
    if b.len() == 0 {
        false
    } else if a.len() == 0 {
        true
    } else if a[0] == b[0] {
        lex(before, a.drop_first(), b.drop_first())
    } else {
        before(a[0], b[0])
    }
}

/// A sequence never comes before itself.
pub proof fn lemma_lex_irreflexive<T>(before: spec_fn(T, T) -> bool, a: Seq<T>)
    ensures
        !lex(before, a, a),
    decreases a.len(),
{
    if a.len() > 0 {
        lemma_lex_irreflexive(before, a.drop_first());
    }
}

/// The lexicographic order is transitive when the order on elements is a strict
/// order.
pub proof fn lemma_lex_transitive<T>(before: spec_fn(T, T) -> bool, a: Seq<T>, b: Seq<T>, c: Seq<T>)
    requires
        forall|x: T| !#[trigger] before(x, x),
        forall|x: T, y: T, z: T| #[trigger] before(x, y) && #[trigger] before(y, z) ==> before(x, z),
        lex(before, a, b),
        lex(before, b, c),
    ensures
        lex(before, a, c),
    decreases a.len(),
{
    if a.len() > 0 {
        if a[0] == b[0] && b[0] == c[0] {
            lemma_lex_transitive(before, a.drop_first(), b.drop_first(), c.drop_first());
        } else if a[0] != b[0] && b[0] != c[0] {
            assert(before(a[0], b[0]) && before(b[0], c[0]));
            assert(before(a[0], c[0]));
            assert(!before(a[0], a[0]));
        }
    }
}

/// Two distinct sequences are ordered one way or the other when distinct
/// elements are.
pub proof fn lemma_lex_total<T>(before: spec_fn(T, T) -> bool, a: Seq<T>, b: Seq<T>)
    requires
        forall|x: T, y: T| #[trigger] before(x, y) || x == y || before(y, x),
    ensures
        lex(before, a, b) || a == b || lex(before, b, a),
    decreases a.len(),
{
    if a.len() == 0 || b.len() == 0 {
        assert(a.len() == 0 && b.len() == 0 ==> a =~= b);
    } else if a[0] == b[0] {
        lemma_lex_total(before, a.drop_first(), b.drop_first());
        if a.drop_first() == b.drop_first() {
            assert(a =~= seq![a[0]] + a.drop_first());
            assert(b =~= seq![b[0]] + b.drop_first());
        }
    } else {
        assert(before(a[0], b[0]) || before(b[0], a[0]));
    }
}

/// Two sequences that agree on a common prefix of length `n` compare as their
/// tails do.
pub proof fn lemma_lex_skip<T>(before: spec_fn(T, T) -> bool, a: Seq<T>, b: Seq<T>, n: int)
    requires
        0 <= n <= a.len(),
        n <= b.len(),
        a.take(n) == b.take(n),
    ensures
        lex(before, a, b) == lex(before, a.skip(n), b.skip(n)),
    decreases n,
{
    if n == 0 {
        assert(a.skip(0) =~= a);
        assert(b.skip(0) =~= b);
    } else {
        assert(a[0] == a.take(n)[0] && b[0] == b.take(n)[0]);
        assert(a.drop_first().take(n - 1) =~= a.take(n).drop_first());
        assert(b.drop_first().take(n - 1) =~= b.take(n).drop_first());
        lemma_lex_skip(before, a.drop_first(), b.drop_first(), n - 1);
        assert(a.drop_first().skip(n - 1) =~= a.skip(n));
        assert(b.drop_first().skip(n - 1) =~= b.skip(n));
    }
}

} // verus!
