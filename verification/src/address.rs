//! Row addresses: where a row lives, by the key of each collection it passes
//! through.

use crate::order::{
    lemma_lex_irreflexive, lemma_lex_skip, lemma_lex_total, lemma_lex_transitive, lex, Duplicate, Key, Order,
};
use crate::text::{order_text, text_before, texts};
use crate::value::{
    copy_values, lemma_values_irreflexive, lemma_values_total, lemma_values_transitive, order_rows, values_before,
    views, Value, ValueView,
};
use vstd::prelude::*;

verus! {

/// The key of a row: its components, in the order its collection declares them.
#[derive(Debug)]
pub struct KeyValue {
    components: Vec<Value>,
}

impl View for KeyValue {
    type V = Seq<ValueView>;

    closed spec fn view(&self) -> Seq<ValueView> {
        views(self.components@)
    }
}

impl KeyValue {
    #[verifier::type_invariant]
    spec fn well_formed(self) -> bool {
        self.components@.len() > 0
    }

    /// A key of one component.
    pub fn single(component: Value) -> (r: KeyValue)
        ensures
            r@ == seq![component@],
    {
        let mut components: Vec<Value> = Vec::new();
        components.push(component);
        let r = KeyValue { components };
        proof {
            assert(r@ =~= seq![component@]);
        }
        r
    }

    /// A key made of a first component and the rest.
    pub fn composite(first: Value, rest: Vec<Value>) -> (r: KeyValue)
        ensures
            r@ == seq![first@] + views(rest@),
    {
        let mut components: Vec<Value> = Vec::new();
        components.push(first);
        let mut tail = rest;
        components.append(&mut tail);
        let r = KeyValue { components };
        proof {
            assert(r@ =~= seq![first@] + views(rest@));
        }
        r
    }

    /// The key with these components; a key has at least one.
    pub fn of_components(components: Vec<Value>) -> (r: Option<KeyValue>)
        ensures
            r is Some <==> components@.len() > 0,
            r matches Some(key) ==> key@ == views(components@),
    {
        if components.len() == 0 {
            None
        } else {
            Some(KeyValue { components })
        }
    }

    /// The components, in order. A key has at least one.
    pub fn components(&self) -> (r: &Vec<Value>)
        ensures
            views(r@) == self@,
            r@.len() == self@.len(),
            self@.len() > 0,
    {
        proof {
            use_type_invariant(self);
        }
        &self.components
    }

    /// Whether two keys are the same.
    pub fn same(&self, other: &KeyValue) -> (r: bool)
        ensures
            r == (self@ == other@),
    {
        proof {
            lemma_values_irreflexive(self@);
        }
        match order_rows(&self.components, &other.components) {
            Order::Same => true,
            _ => false,
        }
    }
}

impl Duplicate for KeyValue {
    fn duplicate(&self) -> (r: Self) {
        proof {
            use_type_invariant(self);
        }
        KeyValue { components: copy_values(&self.components) }
    }
}

/// One step of an address: a collection and the key of a row in it.
#[derive(Debug)]
pub struct AddressStep {
    pub name: String,
    pub key: KeyValue,
}

/// What an [`AddressStep`] denotes.
#[verifier::ext_equal]
pub struct StepView {
    pub name: Seq<char>,
    pub key: Seq<ValueView>,
}

impl View for AddressStep {
    type V = StepView;

    open spec fn view(&self) -> StepView {
        StepView { name: self.name@, key: self.key@ }
    }
}

/// Steps by collection name, then by key.
pub open spec fn step_before(a: StepView, b: StepView) -> bool {
    if a.name != b.name {
        text_before(a.name, b.name)
    } else {
        values_before(a.key, b.key)
    }
}

/// The order on steps.
pub open spec fn step_order() -> spec_fn(StepView, StepView) -> bool {
    |a: StepView, b: StepView| step_before(a, b)
}

proof fn lemma_step_order()
    ensures
        forall|a: StepView| !#[trigger] step_order()(a, a),
        forall|a: StepView, b: StepView, c: StepView|
            #[trigger] step_order()(a, b) && #[trigger] step_order()(b, c) ==> step_order()(a, c),
        forall|a: StepView, b: StepView| #[trigger] step_order()(a, b) || a == b || step_order()(b, a),
{
    assert forall|a: StepView| !#[trigger] step_order()(a, a) by {
        lemma_values_irreflexive(a.key);
    }
    assert forall|a: StepView, b: StepView, c: StepView|
        #[trigger] step_order()(a, b) && #[trigger] step_order()(b, c) implies step_order()(a, c) by {
        if a.name != b.name && b.name != c.name {
            String::transitive(a.name, b.name, c.name);
            String::irreflexive(a.name);
        } else if a.name == b.name && b.name == c.name {
            lemma_values_transitive(a.key, b.key, c.key);
        }
    }
    assert forall|a: StepView, b: StepView| #[trigger] step_order()(a, b) || a == b || step_order()(b, a) by {
        String::total(a.name, b.name);
        lemma_values_total(a.key, b.key);
    }
}

fn order_steps(a: &AddressStep, b: &AddressStep) -> (o: Order)
    ensures
        match o {
            Order::Before => step_before(a@, b@),
            Order::Same => a@ == b@,
            Order::After => step_before(b@, a@),
        },
{
    proof {
        String::irreflexive(a.name@);
    }
    match order_text(a.name.as_str(), b.name.as_str()) {
        Order::Same => order_rows(a.key.components(), b.key.components()),
        o => o,
    }
}

impl Duplicate for AddressStep {
    fn duplicate(&self) -> (r: Self) {
        AddressStep { name: self.name.clone(), key: self.key.duplicate() }
    }
}

/// What a row of steps denotes.
pub open spec fn step_views(steps: Seq<AddressStep>) -> Seq<StepView> {
    Seq::new(steps.len(), |i: int| steps[i]@)
}

/// Copy a row of steps.
pub fn copy_steps(steps: &Vec<AddressStep>) -> (r: Vec<AddressStep>)
    ensures
        step_views(r@) == step_views(steps@),
        r@.len() == steps@.len(),
{
    let mut r: Vec<AddressStep> = Vec::new();
    let mut i: usize = 0;
    while i < steps.len()
        invariant
            i <= steps@.len(),
            r@.len() == i,
            forall|j: int| 0 <= j < i ==> (#[trigger] r@[j])@ == steps@[j]@,
        decreases steps@.len() - i,
    {
        r.push(steps[i].duplicate());
        i = i + 1;
    }
    proof {
        assert(step_views(r@) =~= step_views(steps@));
    }
    r
}

/// The address of a row: one step per collection from the root down.
#[derive(Debug)]
pub struct RowAddress {
    steps: Vec<AddressStep>,
}

impl View for RowAddress {
    type V = Seq<StepView>;

    closed spec fn view(&self) -> Seq<StepView> {
        step_views(self.steps@)
    }
}

/// The collection names an address passes through.
pub open spec fn names_of(address: Seq<StepView>) -> Seq<Seq<char>> {
    Seq::new(address.len(), |i: int| address[i].name)
}

impl RowAddress {
    #[verifier::type_invariant]
    spec fn well_formed(self) -> bool {
        self.steps@.len() > 0
    }

    /// The address of a row of a top-level collection.
    pub fn root(step: AddressStep) -> (r: RowAddress)
        ensures
            r@ == seq![step@],
    {
        let mut steps: Vec<AddressStep> = Vec::new();
        steps.push(step);
        let r = RowAddress { steps };
        proof {
            assert(r@ =~= seq![step@]);
        }
        r
    }

    /// The address of a row nested under these steps.
    pub fn nested(parent: &Vec<AddressStep>, step: AddressStep) -> (r: RowAddress)
        ensures
            r@ == step_views(parent@).push(step@),
    {
        let mut steps = copy_steps(parent);
        let ghost before = steps@;
        steps.push(step);
        let r = RowAddress { steps };
        proof {
            assert(step_views(before) == step_views(parent@));
            assert(r@ =~= step_views(before).push(step@));
        }
        r
    }

    /// The steps, from the root down. An address has at least one.
    pub fn steps(&self) -> (r: &Vec<AddressStep>)
        ensures
            step_views(r@) == self@,
            r@.len() == self@.len(),
            self@.len() > 0,
    {
        proof {
            use_type_invariant(self);
        }
        &self.steps
    }

    /// How many collections the address passes through.
    pub fn depth(&self) -> (r: usize)
        ensures
            r == self@.len(),
            r > 0,
    {
        proof {
            use_type_invariant(self);
        }
        self.steps.len()
    }

    /// The collection the row lives in.
    pub fn collection(&self) -> (r: CollectionPath)
        ensures
            r.parent_view() == self@.drop_last(),
            r.name@ == self@.last().name,
    {
        let steps = self.steps();
        let n: usize = steps.len();
        let mut parent: Vec<AddressStep> = Vec::new();
        let mut i: usize = 0;
        while i < n - 1
            invariant
                n == steps@.len(),
                n > 0,
                i <= n - 1,
                parent@.len() == i,
                forall|j: int| 0 <= j < i ==> (#[trigger] parent@[j])@ == steps@[j]@,
            decreases n - i,
        {
            parent.push(steps[i].duplicate());
            i = i + 1;
        }
        proof {
            assert(step_views(parent@) =~= self@.drop_last());
        }
        CollectionPath { parent, name: steps[n - 1].name.clone() }
    }

    /// The address of the row this one is nested in, when it is nested.
    pub fn parent(&self) -> (r: Option<RowAddress>)
        ensures
            r is Some <==> self@.len() > 1,
            r matches Some(p) ==> p@ == self@.drop_last(),
    {
        let n: usize = self.depth();
        let at = self.collection();
        proof {
            assert(at.parent_view().len() == at.parent@.len());
        }
        if at.parent.len() == 0 {
            None
        } else {
            Some(RowAddress { steps: at.parent })
        }
    }

    /// The collection names the address passes through.
    pub fn declaration(&self) -> (r: Vec<String>)
        ensures
            texts(r@) == names_of(self@),
            r@.len() == self@.len(),
    {
        let steps = self.steps();
        let mut r: Vec<String> = Vec::new();
        let mut i: usize = 0;
        while i < steps.len()
            invariant
                i <= steps@.len(),
                r@.len() == i,
                forall|j: int| 0 <= j < i ==> (#[trigger] r@[j])@ == steps@[j].name@,
            decreases steps@.len() - i,
        {
            r.push(steps[i].name.clone());
            i = i + 1;
        }
        proof {
            assert(texts(r@) =~= names_of(self@));
        }
        r
    }

    /// Whether two addresses are the same.
    pub fn same(&self, other: &RowAddress) -> (r: bool)
        ensures
            r == (self@ == other@),
    {
        proof {
            Self::irreflexive(self@);
        }
        match self.order(other) {
            Order::Same => true,
            _ => false,
        }
    }
}

/// Whether the steps of `prefix` are the leading steps of `address`.
pub open spec fn leads(prefix: Seq<StepView>, address: Seq<StepView>) -> bool {
    prefix.len() <= address.len() && address.take(prefix.len() as int) == prefix
}

/// Whether `address` lies in the subtree below `ancestor`.
pub open spec fn below(ancestor: Seq<StepView>, address: Seq<StepView>) -> bool {
    ancestor.len() < address.len() && leads(ancestor, address)
}

/// Whether the steps of `prefix` are the leading steps of `address`.
pub fn is_prefix(prefix: &RowAddress, address: &RowAddress) -> (r: bool)
    ensures
        r == leads(prefix@, address@),
{
    let p = prefix.steps();
    let a = address.steps();
    if p.len() > a.len() {
        return false;
    }
    let mut i: usize = 0;
    while i < p.len()
        invariant
            step_views(p@) == prefix@,
            step_views(a@) == address@,
            p@.len() <= a@.len(),
            i <= p@.len(),
            forall|j: int| 0 <= j < i ==> prefix@[j] == #[trigger] address@[j],
        decreases p@.len() - i,
    {
        proof {
            lemma_step_order();
            assert(!step_order()(p@[i as int]@, p@[i as int]@));
        }
        match order_steps(&p[i], &a[i]) {
            Order::Same => {},
            _ => {
                proof {
                    assert(address@.take(prefix@.len() as int)[i as int] == a@[i as int]@);
                    assert(prefix@[i as int] == p@[i as int]@);
                }
                return false;
            },
        }
        i = i + 1;
    }
    proof {
        assert(address@.take(prefix@.len() as int) =~= prefix@);
    }
    true
}

/// An address moved from under an ancestor of depth `depth` to under another.
pub open spec fn rerooted(ancestor: Seq<StepView>, descendant: Seq<StepView>, depth: nat) -> Seq<StepView> {
    ancestor + descendant.skip(if depth <= descendant.len() { depth as int } else { descendant.len() as int })
}

/// Move a descendant address under another ancestor: the new ancestor's steps, and
/// then the descendant's own steps below the old depth.
pub fn reroot(new_ancestor: &RowAddress, descendant: &RowAddress, old_depth: usize) -> (r: RowAddress)
    ensures
        r@ == rerooted(new_ancestor@, descendant@, old_depth as nat),
{
    let mut steps = copy_steps(new_ancestor.steps());
    let tail = descendant.steps();
    let ghost head = steps@;
    let start: usize = if old_depth <= tail.len() {
        old_depth
    } else {
        tail.len()
    };
    let mut i: usize = start;
    proof {
        assert(step_views(steps@) =~= new_ancestor@ + descendant@.subrange(start as int, i as int));
    }
    while i < tail.len()
        invariant
            step_views(tail@) == descendant@,
            tail@.len() == descendant@.len(),
            start <= i <= tail@.len(),
            step_views(steps@) =~= new_ancestor@ + descendant@.subrange(start as int, i as int),
        decreases tail@.len() - i,
    {
        let ghost prior = steps@;
        steps.push(tail[i].duplicate());
        proof {
            assert(step_views(steps@) =~= step_views(prior).push(descendant@[i as int]));
            assert(descendant@.subrange(start as int, i + 1) =~= descendant@.subrange(start as int, i as int).push(
                descendant@[i as int],
            ));
        }
        i = i + 1;
    }
    proof {
        assert(descendant@.subrange(start as int, i as int) =~= descendant@.skip(start as int));
        assert(step_views(steps@).len() > 0);
    }
    RowAddress { steps }
}

impl Key for RowAddress {
    open spec fn before(a: Seq<StepView>, b: Seq<StepView>) -> bool {
        lex(step_order(), a, b)
    }

    proof fn irreflexive(a: Seq<StepView>) {
        lemma_lex_irreflexive(step_order(), a);
    }

    proof fn transitive(a: Seq<StepView>, b: Seq<StepView>, c: Seq<StepView>) {
        lemma_step_order();
        lemma_lex_transitive(step_order(), a, b, c);
    }

    proof fn total(a: Seq<StepView>, b: Seq<StepView>) {
        lemma_step_order();
        lemma_lex_total(step_order(), a, b);
    }

    fn order(&self, other: &Self) -> (o: Order) {
        let ghost x = self@;
        let ghost y = other@;
        let a = &self.steps;
        let b = &other.steps;
        let mut i: usize = 0;
        while i < a.len() && i < b.len()
            invariant
                x == step_views(a@),
                y == step_views(b@),
                i <= a@.len(),
                i <= b@.len(),
                x.take(i as int) =~= y.take(i as int),
                a@ == self.steps@,
                b@ == other.steps@,
                x == self@,
                y == other@,
            decreases a@.len() - i,
        {
            let o = order_steps(&a[i], &b[i]);
            match o {
                Order::Same => {
                    proof {
                        assert(x.take(i + 1) =~= x.take(i as int).push(x[i as int]));
                        assert(y.take(i + 1) =~= y.take(i as int).push(y[i as int]));
                    }
                    i = i + 1;
                },
                _ => {
                    proof {
                        lemma_lex_skip(step_order(), x, y, i as int);
                        lemma_lex_skip(step_order(), y, x, i as int);
                        assert(x.skip(i as int)[0] == a@[i as int]@);
                        assert(y.skip(i as int)[0] == b@[i as int]@);
                        lemma_step_order();
                        assert(!step_order()(a@[i as int]@, a@[i as int]@));
                    }
                    return o;
                },
            }
        }
        proof {
            lemma_lex_skip(step_order(), x, y, i as int);
            lemma_lex_skip(step_order(), y, x, i as int);
        }
        if i < b.len() {
            Order::Before
        } else if i < a.len() {
            Order::After
        } else {
            proof {
                assert(x =~= x.take(i as int));
                assert(y =~= y.take(i as int));
            }
            Order::Same
        }
    }
}

impl Duplicate for RowAddress {
    fn duplicate(&self) -> (r: Self) {
        proof {
            use_type_invariant(self);
        }
        RowAddress { steps: copy_steps(&self.steps) }
    }
}

/// Where the rows of one collection live: the steps of the row it is nested in,
/// and its name.
#[derive(Debug)]
pub struct CollectionPath {
    pub parent: Vec<AddressStep>,
    pub name: String,
}

/// Whether an address is that of a row of the collection `name` under `parent`.
pub open spec fn in_collection(parent: Seq<StepView>, name: Seq<char>, address: Seq<StepView>) -> bool {
    &&& address.len() == parent.len() + 1
    &&& address.drop_last() == parent
    &&& address.last().name == name
}

impl CollectionPath {
    /// The steps of the row the collection is nested in.
    pub open spec fn parent_view(self) -> Seq<StepView> {
        step_views(self.parent@)
    }

    /// A top-level collection.
    pub fn top(name: String) -> (r: CollectionPath)
        ensures
            r.parent_view() == Seq::<StepView>::empty(),
            r.name@ == name@,
    {
        let r = CollectionPath { parent: Vec::new(), name };
        proof {
            assert(r.parent_view() =~= Seq::<StepView>::empty());
        }
        r
    }

    /// A collection nested in the row at `parent`.
    pub fn nested(parent: &RowAddress, name: String) -> (r: CollectionPath)
        ensures
            r.parent_view() == parent@,
            r.name@ == name@,
    {
        CollectionPath { parent: copy_steps(parent.steps()), name }
    }

    /// The address of the row with this key.
    pub fn row(&self, key: KeyValue) -> (r: RowAddress)
        ensures
            r@ == self.parent_view().push((StepView { name: self.name@, key: key@ })),
    {
        RowAddress::nested(&self.parent, AddressStep { name: self.name.clone(), key })
    }

    /// Whether a row lives in this collection.
    pub fn contains(&self, address: &RowAddress) -> (r: bool)
        ensures
            r == in_collection(self.parent_view(), self.name@, address@),
    {
        let steps = address.steps();
        let n: usize = self.parent.len();
        if n >= steps.len() || steps.len() - 1 != n {
            return false;
        }
        if steps[n].name != self.name {
            return false;
        }
        let mut i: usize = 0;
        while i < n
            invariant
                step_views(steps@) == address@,
                steps@.len() == address@.len(),
                n == self.parent@.len(),
                steps@.len() == n + 1,
                i <= n,
                forall|j: int| 0 <= j < i ==> self.parent_view()[j] == #[trigger] address@[j],
            decreases n - i,
        {
            proof {
                lemma_step_order();
                assert(!step_order()(self.parent@[i as int]@, self.parent@[i as int]@));
            }
            match order_steps(&self.parent[i], &steps[i]) {
                Order::Same => {},
                _ => {
                    proof {
                        assert(address@.drop_last()[i as int] == steps@[i as int]@);
                        assert(self.parent_view()[i as int] == self.parent@[i as int]@);
                    }
                    return false;
                },
            }
            i = i + 1;
        }
        proof {
            assert(address@.drop_last() =~= self.parent_view());
        }
        true
    }
}

impl Duplicate for CollectionPath {
    fn duplicate(&self) -> (r: Self) {
        CollectionPath { parent: copy_steps(&self.parent), name: self.name.clone() }
    }
}

impl View for CollectionPath {
    type V = (Seq<StepView>, Seq<char>);

    open spec fn view(&self) -> (Seq<StepView>, Seq<char>) {
        (self.parent_view(), self.name@)
    }
}

/// The address of a row in a top-level collection.
pub fn top_address(name: &str, key: KeyValue) -> (r: RowAddress)
    ensures
        r@ == seq![StepView { name: name@, key: key@ }],
{
    RowAddress::root(AddressStep { name: String::from_str(name), key })
}

/// Moving an address under another ancestor keeps its steps below the old depth
/// and leads it with the new ancestor.
pub proof fn law_reroot(ancestor: Seq<StepView>, moved: Seq<StepView>, descendant: Seq<StepView>)
    requires
        leads(ancestor, descendant),
    ensures
        leads(moved, rerooted(moved, descendant, ancestor.len())),
        rerooted(moved, descendant, ancestor.len()).skip(moved.len() as int) == descendant.skip(ancestor.len() as int),
        rerooted(ancestor, rerooted(moved, descendant, ancestor.len()), moved.len()) == descendant,
{
    let r = rerooted(moved, descendant, ancestor.len());
    assert(r.take(moved.len() as int) =~= moved);
    assert(r.skip(moved.len() as int) =~= descendant.skip(ancestor.len() as int));
    assert(descendant =~= ancestor + descendant.skip(ancestor.len() as int));
}

} // verus!
