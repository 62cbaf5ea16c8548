//! Values: what a field, a key component, or a set member holds.

use crate::decimal::Decimal;
use crate::integer::Integer;
use crate::order::{Duplicate, Key, Order};
use crate::text::{order_text, text_before};
use crate::time::Timestamp;
use vstd::prelude::*;

verus! {

/// A value.
#[derive(Debug)]
pub enum Value {
    /// The absence of a value.
    Absent,
    Bool(bool),
    Int(Integer),
    Decimal(Decimal),
    Text(String),
    Timestamp(Timestamp),
    /// A declared label and its position in the declaration.
    Enum(u32, String),
    /// The descriptor of stored bytes.
    Blob(String),
    /// A module that is loaded from a descriptor but mounted nowhere yet.
    Pending(String),
    /// A module mounted at a path.
    Mounted(String),
    /// A reference to the row with this key.
    Ref(Box<Value>),
    /// Distinct members in ascending order.
    Members(Vec<Value>),
    /// The components of a key, in order.
    Composite(Vec<Value>),
    /// Named members.
    Struct(Vec<(String, Value)>),
}

/// What a [`Value`] denotes.
#[verifier::ext_equal]
pub enum ValueView {
    Absent,
    Bool(bool),
    Int(int),
    Decimal(real),
    Text(Seq<char>),
    Timestamp(Timestamp),
    Enum(int, Seq<char>),
    Blob(Seq<char>),
    Pending(Seq<char>),
    Mounted(Seq<char>),
    Ref(Box<ValueView>),
    Members(Seq<ValueView>),
    Composite(Seq<ValueView>),
    Struct(Seq<(Seq<char>, ValueView)>),
}

/// What a value denotes.
pub open spec fn denoted(v: Value) -> ValueView
    decreases v,
{
    match v {
        Value::Absent => ValueView::Absent,
        Value::Bool(b) => ValueView::Bool(b),
        Value::Int(i) => ValueView::Int(i@),
        Value::Decimal(d) => ValueView::Decimal(d@),
        Value::Text(t) => ValueView::Text(t@),
        Value::Timestamp(t) => ValueView::Timestamp(t),
        Value::Enum(n, t) => ValueView::Enum(n as int, t@),
        Value::Blob(t) => ValueView::Blob(t@),
        Value::Pending(t) => ValueView::Pending(t@),
        Value::Mounted(t) => ValueView::Mounted(t@),
        Value::Ref(key) => ValueView::Ref(Box::new(denoted(*key))),
        Value::Members(items) => ValueView::Members(
            Seq::new(
                items@.len(),
                |i: int|
                    if 0 <= i < items@.len() {
                        denoted(items@[i])
                    } else {
                        ValueView::Absent
                    },
            ),
        ),
        Value::Composite(items) => ValueView::Composite(
            Seq::new(
                items@.len(),
                |i: int|
                    if 0 <= i < items@.len() {
                        denoted(items@[i])
                    } else {
                        ValueView::Absent
                    },
            ),
        ),
        Value::Struct(items) => ValueView::Struct(
            Seq::new(
                items@.len(),
                |i: int|
                    if 0 <= i < items@.len() {
                        (items@[i].0@, denoted(items@[i].1))
                    } else {
                        (Seq::empty(), ValueView::Absent)
                    },
            ),
        ),
    }
}

impl View for Value {
    type V = ValueView;

    open spec fn view(&self) -> ValueView {
        denoted(*self)
    }
}


/// What a row of values denotes.
pub open spec fn views(items: Seq<Value>) -> Seq<ValueView> {
    Seq::new(items.len(), |i: int| items[i]@)
}

/// What a row of named members denotes.
pub open spec fn member_views(items: Seq<(String, Value)>) -> Seq<(Seq<char>, ValueView)> {
    Seq::new(items.len(), |i: int| (items[i].0@, items[i].1@))
}

/// A value made of others denotes what they denote.
pub broadcast proof fn lemma_denoted(v: Value)
    ensures
        #[trigger] denoted(v) == (match v {
            Value::Members(items) => ValueView::Members(views(items@)),
            Value::Composite(items) => ValueView::Composite(views(items@)),
            Value::Struct(items) => ValueView::Struct(member_views(items@)),
            _ => denoted(v),
        }),
{
    match v {
        Value::Members(items) => {
            assert(denoted(v)->Members_0 =~= views(items@));
        },
        Value::Composite(items) => {
            assert(denoted(v)->Composite_0 =~= views(items@));
        },
        Value::Struct(items) => {
            assert(denoted(v)->Struct_0 =~= member_views(items@));
        },
        _ => {},
    }
}

/// The kinds of value, in ascending order; the absence of a value comes last.
pub open spec fn rank(v: ValueView) -> int {
    match v {
        ValueView::Bool(_) => 0,
        ValueView::Int(_) => 1,
        ValueView::Decimal(_) => 2,
        ValueView::Text(_) => 3,
        ValueView::Timestamp(_) => 4,
        ValueView::Enum(_, _) => 5,
        ValueView::Blob(_) => 6,
        ValueView::Pending(_) => 7,
        ValueView::Mounted(_) => 8,
        ValueView::Ref(_) => 9,
        ValueView::Members(_) => 10,
        ValueView::Composite(_) => 11,
        ValueView::Struct(_) => 12,
        ValueView::Absent => 13,
    }
}

/// Timestamps by instant, then from the coarser precision to the finer.
pub open spec fn time_before(a: Timestamp, b: Timestamp) -> bool {
    a.instant() < b.instant() || a.instant() == b.instant() && a.precision.ticks() < b.precision.ticks()
}

/// The order on values: by kind, then by content.
pub open spec fn value_before(a: ValueView, b: ValueView) -> bool
    decreases a,
{
    if rank(a) != rank(b) {
        rank(a) < rank(b)
    } else {
        match (a, b) {
            (ValueView::Bool(x), ValueView::Bool(y)) => !x && y,
            (ValueView::Int(x), ValueView::Int(y)) => x < y,
            (ValueView::Decimal(x), ValueView::Decimal(y)) => x < y,
            (ValueView::Text(x), ValueView::Text(y)) => text_before(x, y),
            (ValueView::Timestamp(x), ValueView::Timestamp(y)) => time_before(x, y),
            (ValueView::Enum(n, x), ValueView::Enum(m, y)) => n < m || n == m && text_before(x, y),
            (ValueView::Blob(x), ValueView::Blob(y)) => text_before(x, y),
            (ValueView::Pending(x), ValueView::Pending(y)) => text_before(x, y),
            (ValueView::Mounted(x), ValueView::Mounted(y)) => text_before(x, y),
            (ValueView::Ref(x), ValueView::Ref(y)) => value_before(*x, *y),
            (ValueView::Members(x), ValueView::Members(y)) => values_before(x, y),
            (ValueView::Composite(x), ValueView::Composite(y)) => values_before(x, y),
            (ValueView::Struct(x), ValueView::Struct(y)) => members_before(x, y),
            _ => false,
        }
    }
}

/// The order on rows of values: the first differing value decides, and a proper
/// prefix comes first.
pub open spec fn values_before(a: Seq<ValueView>, b: Seq<ValueView>) -> bool
    decreases a,
{
    if b.len() == 0 {
        false
    } else if a.len() == 0 {
        true
    } else if a[0] == b[0] {
        values_before(a.drop_first(), b.drop_first())
    } else {
        value_before(a[0], b[0])
    }
}

/// The order on rows of named members: the first differing name or value decides.
pub open spec fn members_before(a: Seq<(Seq<char>, ValueView)>, b: Seq<(Seq<char>, ValueView)>) -> bool
    decreases a,
{
    if b.len() == 0 {
        false
    } else if a.len() == 0 {
        true
    } else if a[0] == b[0] {
        members_before(a.drop_first(), b.drop_first())
    } else if a[0].0 != b[0].0 {
        text_before(a[0].0, b[0].0)
    } else {
        value_before(a[0].1, b[0].1)
    }
}

proof fn lemma_time_total(a: Timestamp, b: Timestamp)
    ensures
        time_before(a, b) || a == b || time_before(b, a),
{
    if a.instant() == b.instant() && a.precision.ticks() == b.precision.ticks() {
        assert(a.precision == b.precision);
        let n = a.precision.nanos();
        let x = a.count as int;
        let y = b.count as int;
        assert(x == y) by (nonlinear_arith)
            requires
                x * n == y * n,
                n > 0,
        ;
    }
}

pub proof fn lemma_value_irreflexive(a: ValueView)
    ensures
        !value_before(a, a),
    decreases a,
{
    match a {
        ValueView::Text(t) => String::irreflexive(t),
        ValueView::Enum(_, t) => String::irreflexive(t),
        ValueView::Blob(t) => String::irreflexive(t),
        ValueView::Pending(t) => String::irreflexive(t),
        ValueView::Mounted(t) => String::irreflexive(t),
        ValueView::Ref(x) => lemma_value_irreflexive(*x),
        ValueView::Members(x) => lemma_values_irreflexive(x),
        ValueView::Composite(x) => lemma_values_irreflexive(x),
        ValueView::Struct(x) => lemma_members_irreflexive(x),
        _ => {},
    }
}

pub proof fn lemma_values_irreflexive(a: Seq<ValueView>)
    ensures
        !values_before(a, a),
    decreases a,
{
    if a.len() > 0 {
        lemma_values_irreflexive(a.drop_first());
    }
}

proof fn lemma_members_irreflexive(a: Seq<(Seq<char>, ValueView)>)
    ensures
        !members_before(a, a),
    decreases a,
{
    if a.len() > 0 {
        lemma_members_irreflexive(a.drop_first());
    }
}

pub proof fn lemma_value_transitive(a: ValueView, b: ValueView, c: ValueView)
    requires
        value_before(a, b),
        value_before(b, c),
    ensures
        value_before(a, c),
    decreases a,
{
    if rank(a) == rank(b) && rank(b) == rank(c) {
        match (a, b, c) {
            (ValueView::Text(x), ValueView::Text(y), ValueView::Text(z)) => String::transitive(x, y, z),
            (ValueView::Enum(n, x), ValueView::Enum(m, y), ValueView::Enum(o, z)) => {
                if n == m && m == o {
                    String::transitive(x, y, z)
                }
            },
            (ValueView::Blob(x), ValueView::Blob(y), ValueView::Blob(z)) => String::transitive(x, y, z),
            (ValueView::Pending(x), ValueView::Pending(y), ValueView::Pending(z)) => String::transitive(x, y, z),
            (ValueView::Mounted(x), ValueView::Mounted(y), ValueView::Mounted(z)) => String::transitive(x, y, z),
            (ValueView::Ref(x), ValueView::Ref(y), ValueView::Ref(z)) => lemma_value_transitive(*x, *y, *z),
            (ValueView::Members(x), ValueView::Members(y), ValueView::Members(z)) => lemma_values_transitive(x, y, z),
            (ValueView::Composite(x), ValueView::Composite(y), ValueView::Composite(z)) => lemma_values_transitive(
                x,
                y,
                z,
            ),
            (ValueView::Struct(x), ValueView::Struct(y), ValueView::Struct(z)) => lemma_members_transitive(x, y, z),
            _ => {},
        }
    }
}

pub proof fn lemma_values_transitive(a: Seq<ValueView>, b: Seq<ValueView>, c: Seq<ValueView>)
    requires
        values_before(a, b),
        values_before(b, c),
    ensures
        values_before(a, c),
    decreases a,
{
    if a.len() > 0 {
        if a[0] == b[0] && b[0] == c[0] {
            lemma_values_transitive(a.drop_first(), b.drop_first(), c.drop_first());
        } else if a[0] != b[0] && b[0] != c[0] {
            lemma_value_transitive(a[0], b[0], c[0]);
            lemma_value_irreflexive(a[0]);
        }
    }
}

proof fn lemma_members_transitive(
    a: Seq<(Seq<char>, ValueView)>,
    b: Seq<(Seq<char>, ValueView)>,
    c: Seq<(Seq<char>, ValueView)>,
)
    requires
        members_before(a, b),
        members_before(b, c),
    ensures
        members_before(a, c),
    decreases a,
{
    if a.len() > 0 {
        if a[0] == b[0] && b[0] == c[0] {
            lemma_members_transitive(a.drop_first(), b.drop_first(), c.drop_first());
        } else if a[0] != b[0] && b[0] != c[0] {
            if a[0].0 != b[0].0 && b[0].0 != c[0].0 {
                String::transitive(a[0].0, b[0].0, c[0].0);
                String::irreflexive(a[0].0);
            } else if a[0].0 == b[0].0 && b[0].0 == c[0].0 {
                lemma_value_transitive(a[0].1, b[0].1, c[0].1);
                lemma_value_irreflexive(a[0].1);
            }
        }
    }
}

pub proof fn lemma_value_total(a: ValueView, b: ValueView)
    ensures
        value_before(a, b) || a == b || value_before(b, a),
    decreases a,
{
    if rank(a) == rank(b) {
        match (a, b) {
            (ValueView::Text(x), ValueView::Text(y)) => String::total(x, y),
            (ValueView::Timestamp(x), ValueView::Timestamp(y)) => lemma_time_total(x, y),
            (ValueView::Enum(_, x), ValueView::Enum(_, y)) => String::total(x, y),
            (ValueView::Blob(x), ValueView::Blob(y)) => String::total(x, y),
            (ValueView::Pending(x), ValueView::Pending(y)) => String::total(x, y),
            (ValueView::Mounted(x), ValueView::Mounted(y)) => String::total(x, y),
            (ValueView::Ref(x), ValueView::Ref(y)) => lemma_value_total(*x, *y),
            (ValueView::Members(x), ValueView::Members(y)) => lemma_values_total(x, y),
            (ValueView::Composite(x), ValueView::Composite(y)) => lemma_values_total(x, y),
            (ValueView::Struct(x), ValueView::Struct(y)) => lemma_members_total(x, y),
            _ => {},
        }
    }
}

pub proof fn lemma_values_total(a: Seq<ValueView>, b: Seq<ValueView>)
    ensures
        values_before(a, b) || a == b || values_before(b, a),
    decreases a,
{
    if a.len() == 0 || b.len() == 0 {
        assert(a.len() == 0 && b.len() == 0 ==> a =~= b);
    } else {
        lemma_value_total(a[0], b[0]);
        lemma_values_total(a.drop_first(), b.drop_first());
        if a[0] == b[0] && a.drop_first() == b.drop_first() {
            assert(a =~= seq![a[0]] + a.drop_first());
            assert(b =~= seq![b[0]] + b.drop_first());
        }
    }
}

proof fn lemma_members_total(a: Seq<(Seq<char>, ValueView)>, b: Seq<(Seq<char>, ValueView)>)
    ensures
        members_before(a, b) || a == b || members_before(b, a),
    decreases a,
{
    if a.len() == 0 || b.len() == 0 {
        assert(a.len() == 0 && b.len() == 0 ==> a =~= b);
    } else {
        String::total(a[0].0, b[0].0);
        lemma_value_total(a[0].1, b[0].1);
        lemma_members_total(a.drop_first(), b.drop_first());
        if a[0] == b[0] && a.drop_first() == b.drop_first() {
            assert(a =~= seq![a[0]] + a.drop_first());
            assert(b =~= seq![b[0]] + b.drop_first());
        }
    }
}

/// Rows of values that agree on a common prefix compare as their tails do.
proof fn lemma_values_skip(a: Seq<ValueView>, b: Seq<ValueView>, n: int)
    requires
        0 <= n <= a.len(),
        n <= b.len(),
        a.take(n) == b.take(n),
    ensures
        values_before(a, b) == values_before(a.skip(n), b.skip(n)),
    decreases n,
{
    if n == 0 {
        assert(a.skip(0) =~= a);
        assert(b.skip(0) =~= b);
    } else {
        assert(a[0] == a.take(n)[0] && b[0] == b.take(n)[0]);
        assert(a.drop_first().take(n - 1) =~= a.take(n).drop_first());
        assert(b.drop_first().take(n - 1) =~= b.take(n).drop_first());
        lemma_values_skip(a.drop_first(), b.drop_first(), n - 1);
        assert(a.drop_first().skip(n - 1) =~= a.skip(n));
        assert(b.drop_first().skip(n - 1) =~= b.skip(n));
    }
}

proof fn lemma_members_skip(a: Seq<(Seq<char>, ValueView)>, b: Seq<(Seq<char>, ValueView)>, n: int)
    requires
        0 <= n <= a.len(),
        n <= b.len(),
        a.take(n) == b.take(n),
    ensures
        members_before(a, b) == members_before(a.skip(n), b.skip(n)),
    decreases n,
{
    if n == 0 {
        assert(a.skip(0) =~= a);
        assert(b.skip(0) =~= b);
    } else {
        assert(a[0] == a.take(n)[0] && b[0] == b.take(n)[0]);
        assert(a.drop_first().take(n - 1) =~= a.take(n).drop_first());
        assert(b.drop_first().take(n - 1) =~= b.take(n).drop_first());
        lemma_members_skip(a.drop_first(), b.drop_first(), n - 1);
        assert(a.drop_first().skip(n - 1) =~= a.skip(n));
        assert(b.drop_first().skip(n - 1) =~= b.skip(n));
    }
}

fn rank_of(v: &Value) -> (r: u8)
    ensures
        r == rank(v@),
{
    match v {
        Value::Bool(_) => 0,
        Value::Int(_) => 1,
        Value::Decimal(_) => 2,
        Value::Text(_) => 3,
        Value::Timestamp(_) => 4,
        Value::Enum(_, _) => 5,
        Value::Blob(_) => 6,
        Value::Pending(_) => 7,
        Value::Mounted(_) => 8,
        Value::Ref(_) => 9,
        Value::Members(_) => 10,
        Value::Composite(_) => 11,
        Value::Struct(_) => 12,
        Value::Absent => 13,
    }
}

fn order_times(a: Timestamp, b: Timestamp) -> (o: Order)
    ensures
        match o {
            Order::Before => time_before(a, b),
            Order::Same => a == b,
            Order::After => time_before(b, a),
        },
{
    proof {
        lemma_time_total(a, b);
    }
    if a.earlier_than(b) {
        Order::Before
    } else if b.earlier_than(a) {
        Order::After
    } else {
        let x: i128 = a.precision.ticks_per_second();
        let y: i128 = b.precision.ticks_per_second();
        if x < y {
            Order::Before
        } else if y < x {
            Order::After
        } else {
            Order::Same
        }
    }
}

/// Compare two values.
pub fn order_values(a: &Value, b: &Value) -> (o: Order)
    ensures
        match o {
            Order::Before => value_before(a@, b@),
            Order::Same => a@ == b@,
            Order::After => value_before(b@, a@),
        },
    decreases *a,
{
    let p: u8 = rank_of(a);
    let q: u8 = rank_of(b);
    if p < q {
        return Order::Before;
    }
    if q < p {
        return Order::After;
    }
    proof {
        lemma_denoted(*a);
        lemma_denoted(*b);
    }
    match (a, b) {
        (Value::Bool(x), Value::Bool(y)) => if *x == *y {
            Order::Same
        } else if *y {
            Order::Before
        } else {
            Order::After
        },
        (Value::Int(x), Value::Int(y)) => x.order(y),
        (Value::Decimal(x), Value::Decimal(y)) => x.order(y),
        (Value::Text(x), Value::Text(y)) => order_text(x.as_str(), y.as_str()),
        (Value::Timestamp(x), Value::Timestamp(y)) => order_times(*x, *y),
        (Value::Enum(n, x), Value::Enum(m, y)) => if *n < *m {
            Order::Before
        } else if *m < *n {
            Order::After
        } else {
            order_text(x.as_str(), y.as_str())
        },
        (Value::Blob(x), Value::Blob(y)) => order_text(x.as_str(), y.as_str()),
        (Value::Pending(x), Value::Pending(y)) => order_text(x.as_str(), y.as_str()),
        (Value::Mounted(x), Value::Mounted(y)) => order_text(x.as_str(), y.as_str()),
        (Value::Ref(x), Value::Ref(y)) => order_values(x, y),
        (Value::Members(x), Value::Members(y)) => order_rows(x, y),
        (Value::Composite(x), Value::Composite(y)) => order_rows(x, y),
        (Value::Struct(x), Value::Struct(y)) => order_members(x, y),
        _ => Order::Same,
    }
}

/// Compare two rows of values.
pub fn order_rows(a: &Vec<Value>, b: &Vec<Value>) -> (o: Order)
    ensures
        match o {
            Order::Before => values_before(views(a@), views(b@)),
            Order::Same => views(a@) == views(b@),
            Order::After => values_before(views(b@), views(a@)),
        },
    decreases a@,
{
    let ghost x = views(a@);
    let ghost y = views(b@);
    let mut i: usize = 0;
    while i < a.len() && i < b.len()
        invariant
            x == views(a@),
            y == views(b@),
            i <= a@.len(),
            i <= b@.len(),
            x.take(i as int) =~= y.take(i as int),
        decreases a@.len() - i,
    {
        let o = order_values(&a[i], &b[i]);
        match o {
            Order::Same => {
                proof {
                    assert(x.take(i + 1) =~= x.take(i as int).push(x[i as int]));
                    assert(y.take(i + 1) =~= y.take(i as int).push(y[i as int]));
                }
                i = i + 1;
            },
            _ => {
                proof {
                    lemma_values_skip(x, y, i as int);
                    lemma_values_skip(y, x, i as int);
                    assert(x.skip(i as int)[0] == a@[i as int]@);
                    assert(y.skip(i as int)[0] == b@[i as int]@);
                    lemma_value_irreflexive(a@[i as int]@);
                }
                return o;
            },
        }
    }
    proof {
        lemma_values_skip(x, y, i as int);
        lemma_values_skip(y, x, i as int);
    }
    if i < b.len() {
        Order::Before
    } else if i < a.len() {
        Order::After
    } else {
        proof {
            assert(x =~= x.take(i as int));
            assert(y =~= y.take(i as int));
        }
        Order::Same
    }
}

fn order_members(a: &Vec<(String, Value)>, b: &Vec<(String, Value)>) -> (o: Order)
    ensures
        match o {
            Order::Before => members_before(member_views(a@), member_views(b@)),
            Order::Same => member_views(a@) == member_views(b@),
            Order::After => members_before(member_views(b@), member_views(a@)),
        },
    decreases a@,
{
    let ghost x = member_views(a@);
    let ghost y = member_views(b@);
    let mut i: usize = 0;
    while i < a.len() && i < b.len()
        invariant
            x == member_views(a@),
            y == member_views(b@),
            i <= a@.len(),
            i <= b@.len(),
            x.take(i as int) =~= y.take(i as int),
        decreases a@.len() - i,
    {
        let names = order_text(a[i].0.as_str(), b[i].0.as_str());
        let o = match names {
            Order::Same => order_values(&a[i].1, &b[i].1),
            _ => names,
        };
        match o {
            Order::Same => {
                proof {
                    assert(x.take(i + 1) =~= x.take(i as int).push(x[i as int]));
                    assert(y.take(i + 1) =~= y.take(i as int).push(y[i as int]));
                }
                i = i + 1;
            },
            _ => {
                proof {
                    lemma_members_skip(x, y, i as int);
                    lemma_members_skip(y, x, i as int);
                    assert(x.skip(i as int)[0] == (a@[i as int].0@, a@[i as int].1@));
                    assert(y.skip(i as int)[0] == (b@[i as int].0@, b@[i as int].1@));
                    lemma_value_irreflexive(a@[i as int].1@);
                    String::irreflexive(a@[i as int].0@);
                }
                return o;
            },
        }
    }
    proof {
        lemma_members_skip(x, y, i as int);
        lemma_members_skip(y, x, i as int);
    }
    if i < b.len() {
        Order::Before
    } else if i < a.len() {
        Order::After
    } else {
        proof {
            assert(x =~= x.take(i as int));
            assert(y =~= y.take(i as int));
        }
        Order::Same
    }
}

/// Whether two values denote the same.
pub fn same_value(a: &Value, b: &Value) -> (r: bool)
    ensures
        r == (a@ == b@),
{
    proof {
        lemma_value_irreflexive(a@);
    }
    match order_values(a, b) {
        Order::Same => true,
        _ => false,
    }
}

/// Whether a value is absent.
pub fn is_absent(v: &Value) -> (r: bool)
    ensures
        r == (v@ == ValueView::Absent),
{
    match v {
        Value::Absent => true,
        _ => false,
    }
}

/// Copy a row of values.
pub fn copy_values(items: &Vec<Value>) -> (r: Vec<Value>)
    ensures
        views(r@) == views(items@),
        r@.len() == items@.len(),
    decreases items@,
{
    let mut r: Vec<Value> = Vec::new();
    let mut i: usize = 0;
    while i < items.len()
        invariant
            i <= items@.len(),
            r@.len() == i,
            forall|j: int| 0 <= j < i ==> (#[trigger] r@[j])@ == items@[j]@,
        decreases items@.len() - i,
    {
        r.push(copy_value(&items[i]));
        i = i + 1;
    }
    proof {
        assert(views(r@) =~= views(items@));
    }
    r
}

fn copy_members(items: &Vec<(String, Value)>) -> (r: Vec<(String, Value)>)
    ensures
        member_views(r@) == member_views(items@),
    decreases items@,
{
    let mut r: Vec<(String, Value)> = Vec::new();
    let mut i: usize = 0;
    while i < items.len()
        invariant
            i <= items@.len(),
            r@.len() == i,
            forall|j: int|
                0 <= j < i ==> (#[trigger] r@[j]).0@ == items@[j].0@ && r@[j].1@ == items@[j].1@,
        decreases items@.len() - i,
    {
        r.push((items[i].0.clone(), copy_value(&items[i].1)));
        i = i + 1;
    }
    proof {
        assert(member_views(r@) =~= member_views(items@));
    }
    r
}

/// Copy a value.
pub fn copy_value(v: &Value) -> (r: Value)
    ensures
        r@ == v@,
    decreases *v,
{
    let r = match v {
        Value::Absent => Value::Absent,
        Value::Bool(b) => Value::Bool(*b),
        Value::Int(i) => Value::Int(i.duplicate()),
        Value::Decimal(d) => Value::Decimal(d.duplicate()),
        Value::Text(t) => Value::Text(t.clone()),
        Value::Timestamp(t) => Value::Timestamp(*t),
        Value::Enum(n, t) => Value::Enum(*n, t.clone()),
        Value::Blob(t) => Value::Blob(t.clone()),
        Value::Pending(t) => Value::Pending(t.clone()),
        Value::Mounted(t) => Value::Mounted(t.clone()),
        Value::Ref(key) => Value::Ref(Box::new(copy_value(key))),
        Value::Members(items) => Value::Members(copy_values(items)),
        Value::Composite(items) => Value::Composite(copy_values(items)),
        Value::Struct(items) => Value::Struct(copy_members(items)),
    };
    proof {
        lemma_denoted(*v);
        lemma_denoted(r);
    }
    r
}

impl Key for Value {
    open spec fn before(a: ValueView, b: ValueView) -> bool {
        value_before(a, b)
    }

    proof fn irreflexive(a: ValueView) {
        lemma_value_irreflexive(a);
    }

    proof fn transitive(a: ValueView, b: ValueView, c: ValueView) {
        lemma_value_transitive(a, b, c);
    }

    proof fn total(a: ValueView, b: ValueView) {
        lemma_value_total(a, b);
    }

    fn order(&self, other: &Self) -> (o: Order) {
        order_values(self, other)
    }
}

impl Duplicate for Value {
    fn duplicate(&self) -> (r: Self) {
        copy_value(self)
    }
}

} // verus!
