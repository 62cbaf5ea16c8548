//! Meters as a package declares them: the sources of their pools, who may draw from
//! them and in which order, and what a spend consumes of them.

use crate::doc::{object, string, text_of, Doc};
use crate::order::Duplicate;
use crate::text::{
    concat3, copy_texts, left_trimmed, right_trimmed, same_text, starts_with_minus, texts, trim, trim_minus, trim_start,
    without_minus,
};
use crate::update::{EngineError, EngineErrorView};
use vstd::prelude::*;

verus! {

/// A source of pools as it is declared: its label, and the expression that gives its
/// rows.
#[derive(Debug)]
pub struct SourceDecl {
    pub label: String,
    pub text: String,
}

/// A key pools are ordered by: its expression, and its direction.
#[derive(Debug)]
pub struct OrderDecl {
    pub text: String,
    pub descending: bool,
}

/// A meter as it is declared.
#[derive(Debug)]
pub struct MeterDecl {
    pub sources: Vec<SourceDecl>,
    pub eligible: Option<String>,
    pub order: Vec<OrderDecl>,
}

/// What a [`MeterDecl`] denotes.
#[verifier::ext_equal]
pub struct MeterDeclView {
    pub sources: Seq<(Seq<char>, Seq<char>)>,
    pub eligible: Option<Seq<char>>,
    pub order: Seq<(Seq<char>, bool)>,
}

/// What declared sources denote.
pub open spec fn source_views(sources: Seq<SourceDecl>) -> Seq<(Seq<char>, Seq<char>)> {
    Seq::new(sources.len(), |i: int| (sources[i].label@, sources[i].text@))
}

/// What declared order keys denote.
pub open spec fn order_views(order: Seq<OrderDecl>) -> Seq<(Seq<char>, bool)> {
    Seq::new(order.len(), |i: int| (order[i].text@, order[i].descending))
}

/// What an optional text denotes.
pub open spec fn text_view(t: Option<String>) -> Option<Seq<char>> {
    match t {
        Some(t) => Some(t@),
        None => None,
    }
}

impl View for MeterDecl {
    type V = MeterDeclView;

    open spec fn view(&self) -> MeterDeclView {
        MeterDeclView {
            sources: source_views(self.sources@),
            eligible: text_view(self.eligible),
            order: order_views(self.order@),
        }
    }
}

/// The members of an object that are texts, in order.
pub open spec fn text_members(members: Seq<(String, Doc)>) -> Seq<(Seq<char>, Seq<char>)>
    decreases members.len(),
{
    if members.len() == 0 {
        Seq::empty()
    } else {
        match text_of(members.last().1) {
            Some(t) => text_members(members.drop_last()).push((members.last().0@, t)),
            None => text_members(members.drop_last()),
        }
    }
}

/// The text members of a document; none where it is no object.
pub open spec fn texts_within(doc: Doc) -> Seq<(Seq<char>, Seq<char>)> {
    match doc {
        Doc::Object(members) => text_members(members@),
        _ => Seq::empty(),
    }
}

/// An order key as it is written: a leading minus sign turns its direction.
pub open spec fn order_key(text: Seq<char>) -> (Seq<char>, bool) {
    let head = left_trimmed(text);
    (without_minus(head), head.len() > 0 && head[0] == '-')
}

/// The order keys a list writes.
pub open spec fn order_keys(items: Seq<Doc>) -> Seq<(Seq<char>, bool)>
    decreases items.len(),
{
    if items.len() == 0 {
        Seq::empty()
    } else {
        match text_of(items.last()) {
            Some(t) => order_keys(items.drop_last()).push(order_key(t)),
            None => order_keys(items.drop_last()),
        }
    }
}

/// The order keys a document writes; none where it is no list.
pub open spec fn order_within(doc: Doc) -> Seq<(Seq<char>, bool)> {
    match doc {
        Doc::List(items) => order_keys(items@),
        _ => Seq::empty(),
    }
}

/// A meter as its members declare it: every `$sources` adds its sources, and the last
/// `$order` and the last `$eligible` count.
pub open spec fn meter_declared(members: Seq<(String, Doc)>) -> MeterDeclView
    decreases members.len(),
{
    if members.len() == 0 {
        MeterDeclView { sources: Seq::empty(), eligible: None, order: Seq::empty() }
    } else {
        let before = meter_declared(members.drop_last());
        let name = members.last().0@;
        let value = members.last().1;
        if name == "$sources"@ {
            MeterDeclView { sources: before.sources + texts_within(value), ..before }
        } else if name == "$order"@ {
            MeterDeclView { order: order_within(value), ..before }
        } else if name == "$eligible"@ {
            MeterDeclView { eligible: text_of(value), ..before }
        } else {
            before
        }
    }
}

fn read_sources(doc: &Doc, out: &mut Vec<SourceDecl>)
    ensures
        source_views(final(out)@) == source_views(old(out)@) + texts_within(*doc),
{
    let ghost start = source_views(out@);
    if let Doc::Object(members) = doc {
        let mut i: usize = 0;
        proof {
            assert(members@.take(0) =~= Seq::<(String, Doc)>::empty());
            assert(start + text_members(members@.take(0)) =~= start);
        }
        while i < members.len()
            invariant
                i <= members@.len(),
                source_views(out@) == start + text_members(members@.take(i as int)),
            decreases members@.len() - i,
        {
            let ghost before = source_views(out@);
            let ghost earlier = text_members(members@.take(i as int));
            proof {
                assert(members@.take(i + 1).drop_last() =~= members@.take(i as int));
                assert(members@.take(i + 1).last() == members@[i as int]);
            }
            if let Some(t) = string(&members[i].1) {
                out.push(SourceDecl { label: members[i].0.clone(), text: t.clone() });
                proof {
                    let added = (members@[i as int].0@, t@);
                    assert(source_views(out@) =~= before.push(added));
                    assert(start + earlier.push(added) =~= (start + earlier).push(added));
                }
            }
            i = i + 1;
        }
        proof {
            assert(members@.take(i as int) =~= members@);
        }
    } else {
        proof {
            assert(start + Seq::<(Seq<char>, Seq<char>)>::empty() =~= start);
        }
    }
}

fn read_order(doc: &Doc) -> (r: Vec<OrderDecl>)
    ensures
        order_views(r@) == order_within(*doc),
{
    let mut r: Vec<OrderDecl> = Vec::new();
    proof {
        assert(order_views(r@) =~= Seq::<(Seq<char>, bool)>::empty());
    }
    if let Doc::List(items) = doc {
        let mut i: usize = 0;
        proof {
            assert(items@.take(0) =~= Seq::<Doc>::empty());
        }
        while i < items.len()
            invariant
                i <= items@.len(),
                order_views(r@) == order_keys(items@.take(i as int)),
            decreases items@.len() - i,
        {
            let ghost before = order_views(r@);
            proof {
                assert(items@.take(i + 1).drop_last() =~= items@.take(i as int));
                assert(items@.take(i + 1).last() == items@[i as int]);
            }
            if let Some(t) = string(&items[i]) {
                let head = trim_start(t.as_str());
                r.push(
                    OrderDecl {
                        text: trim_minus(head.as_str()),
                        descending: starts_with_minus(head.as_str()),
                    },
                );
                proof {
                    assert(order_views(r@) =~= before.push(order_key(t@)));
                }
            }
            i = i + 1;
        }
        proof {
            assert(items@.take(i as int) =~= items@);
        }
    }
    r
}

/// Read a meter as its members declare it.
pub fn read_meter(members: &Vec<(String, Doc)>) -> (r: MeterDecl)
    ensures
        r@ == meter_declared(members@),
{
    let mut sources: Vec<SourceDecl> = Vec::new();
    let mut eligible: Option<String> = None;
    let mut order: Vec<OrderDecl> = Vec::new();
    let mut i: usize = 0;
    proof {
        assert(members@.take(0) =~= Seq::<(String, Doc)>::empty());
        assert(source_views(sources@) =~= Seq::<(Seq<char>, Seq<char>)>::empty());
        assert(order_views(order@) =~= Seq::<(Seq<char>, bool)>::empty());
    }
    while i < members.len()
        invariant
            i <= members@.len(),
            meter_declared(members@.take(i as int)) == (MeterDeclView {
                sources: source_views(sources@),
                eligible: text_view(eligible),
                order: order_views(order@),
            }),
        decreases members@.len() - i,
    {
        proof {
            assert(members@.take(i + 1).drop_last() =~= members@.take(i as int));
            assert(members@.take(i + 1).last() == members@[i as int]);
            reveal_strlit("$sources");
            reveal_strlit("$order");
            reveal_strlit("$eligible");
        }
        let name = members[i].0.as_str();
        if same_text(name, "$sources") {
            read_sources(&members[i].1, &mut sources);
        } else if same_text(name, "$order") {
            order = read_order(&members[i].1);
        } else if same_text(name, "$eligible") {
            eligible = match string(&members[i].1) {
                Some(t) => Some(t.clone()),
                None => None,
            };
        }
        i = i + 1;
    }
    proof {
        assert(members@.take(i as int) =~= members@);
    }
    MeterDecl { sources, eligible, order }
}

/// What compiling the expressions of a meter came to: per source, whether its rows
/// show a capacity; its eligibility; and each order key.
pub struct MeterWork {
    pub sources: Vec<Result<bool, EngineError>>,
    pub eligible: Result<(), EngineError>,
    pub order: Vec<Result<(), EngineError>>,
}

/// A compiled source of pools.
#[derive(Debug)]
pub struct CompiledSource {
    pub label: String,
    pub text: String,
    pub has_quantity: bool,
}

/// A compiled meter of one collection.
#[derive(Debug)]
pub struct CompiledMeter {
    /// The names that lead to the collection.
    pub path: Vec<String>,
    pub name: String,
    pub sources: Vec<CompiledSource>,
    pub eligible: Option<String>,
    pub order: Vec<OrderDecl>,
    /// Whether some source shows a capacity; a meter without one parts and never
    /// limits.
    pub limiting: bool,
}

/// What a [`CompiledMeter`] denotes.
#[verifier::ext_equal]
pub struct MeterView {
    pub path: Seq<Seq<char>>,
    pub name: Seq<char>,
    pub sources: Seq<(Seq<char>, Seq<char>, bool)>,
    pub eligible: Option<Seq<char>>,
    pub order: Seq<(Seq<char>, bool)>,
    pub limiting: bool,
}

/// What compiled sources denote.
pub open spec fn compiled_views(sources: Seq<CompiledSource>) -> Seq<(Seq<char>, Seq<char>, bool)> {
    Seq::new(sources.len(), |i: int| (sources[i].label@, sources[i].text@, sources[i].has_quantity))
}

impl View for CompiledMeter {
    type V = MeterView;

    open spec fn view(&self) -> MeterView {
        MeterView {
            path: texts(self.path@),
            name: self.name@,
            sources: compiled_views(self.sources@),
            eligible: text_view(self.eligible),
            order: order_views(self.order@),
            limiting: self.limiting,
        }
    }
}

/// The first failure among outcomes.
pub open spec fn first_failure<T>(outcomes: Seq<Result<T, EngineError>>) -> Option<EngineErrorView>
    decreases outcomes.len(),
{
    if outcomes.len() == 0 {
        None
    } else {
        match outcomes[0] {
            Err(e) => Some(e@),
            Ok(_) => first_failure(outcomes.drop_first()),
        }
    }
}

/// Compiled sources, where each of them compiled.
pub open spec fn sources_compiled(
    declared: Seq<(Seq<char>, Seq<char>)>,
    work: Seq<Result<bool, EngineError>>,
) -> Seq<(Seq<char>, Seq<char>, bool)> {
    Seq::new(declared.len(), |i: int| (declared[i].0, declared[i].1, work[i]->Ok_0))
}

/// A meter, where it is declared by an object and its sources, its eligibility and its
/// order keys compiled; the first that did not, in this order, is the failure.
pub open spec fn meter_compiled(
    path: Seq<Seq<char>>,
    name: Seq<char>,
    body: Doc,
    work: MeterWork,
) -> Result<MeterView, EngineErrorView> {
    match body {
        Doc::Object(members) => {
            let declared = meter_declared(members@);
            match first_failure(work.sources@) {
                Some(e) => Err(e),
                None => if declared.eligible is Some && work.eligible is Err {
                    Err(work.eligible->Err_0@)
                } else {
                    match first_failure(work.order@) {
                        Some(e) => Err(e),
                        None => {
                            let sources = sources_compiled(declared.sources, work.sources@);
                            Ok(
                                MeterView {
                                    path,
                                    name,
                                    sources,
                                    eligible: declared.eligible,
                                    order: declared.order,
                                    limiting: exists|i: int| 0 <= i < sources.len() && (#[trigger] sources[i]).2,
                                },
                            )
                        },
                    }
                },
            }
        },
        _ => Err(EngineErrorView::Internal("meter `"@ + name + "` is not an object"@)),
    }
}

/// Whether there is an outcome for each expression of a meter.
pub open spec fn meter_ready(body: Doc, work: MeterWork) -> bool {
    match body {
        Doc::Object(members) => {
            let declared = meter_declared(members@);
            work.sources@.len() == declared.sources.len() && work.order@.len() == declared.order.len()
        },
        _ => true,
    }
}

/// What an outcome of the engine denotes.
pub open spec fn engine_outcome<T: View>(r: Result<T, EngineError>) -> Result<T::V, EngineErrorView> {
    match r {
        Ok(t) => Ok(t@),
        Err(e) => Err(e@),
    }
}

/// Require that every outcome succeeded; the first that did not is the failure.
pub fn require_all<T>(outcomes: &Vec<Result<T, EngineError>>) -> (r: Result<(), EngineError>)
    ensures
        match (r, first_failure(outcomes@)) {
            (Ok(_), None) => forall|i: int| 0 <= i < outcomes@.len() ==> #[trigger] outcomes@[i] is Ok,
            (Err(e), Some(x)) => e@ == x,
            _ => false,
        },
{
    let mut i: usize = 0;
    proof {
        assert(outcomes@.skip(0) =~= outcomes@);
    }
    while i < outcomes.len()
        invariant
            i <= outcomes@.len(),
            forall|j: int| 0 <= j < i ==> #[trigger] outcomes@[j] is Ok,
            first_failure(outcomes@) == first_failure(outcomes@.skip(i as int)),
        decreases outcomes@.len() - i,
    {
        proof {
            assert(outcomes@.skip(i as int)[0] == outcomes@[i as int]);
            assert(outcomes@.skip(i as int).drop_first() =~= outcomes@.skip(i + 1));
        }
        if let Err(e) = &outcomes[i] {
            return Err(e.duplicate());
        }
        i = i + 1;
    }
    Ok(())
}

/// Compile a meter. `work` holds what compiling its expressions came to.
pub fn compile_meter(path: &Vec<String>, name: &str, body: &Doc, work: &MeterWork) -> (r: Result<
    CompiledMeter,
    EngineError,
>)
    requires
        meter_ready(*body, *work),
    ensures
        engine_outcome(r) == meter_compiled(texts(path@), name@, *body, *work),
{
    let members = match object(body) {
        Some(members) => members,
        None => {
            return Err(EngineError::Internal(concat3("meter `", name, "` is not an object")));
        },
    };
    let declared = read_meter(members);
    require_all(&work.sources)?;
    if declared.eligible.is_some() {
        if let Err(e) = &work.eligible {
            return Err(e.duplicate());
        }
    }
    require_all(&work.order)?;
    let mut sources: Vec<CompiledSource> = Vec::new();
    let mut limiting = false;
    let ghost goal = sources_compiled(declared@.sources, work.sources@);
    let mut i: usize = 0;
    while i < declared.sources.len()
        invariant
            goal == sources_compiled(declared@.sources, work.sources@),
            work.sources@.len() == declared.sources@.len(),
            forall|j: int| 0 <= j < work.sources@.len() ==> #[trigger] work.sources@[j] is Ok,
            i <= declared.sources@.len(),
            sources@.len() == i,
            forall|j: int|
                0 <= j < i ==> ((#[trigger] sources@[j]).label@, sources@[j].text@, sources@[j].has_quantity) == goal[j],
            limiting == exists|j: int| 0 <= j < i && (#[trigger] goal[j]).2,
        decreases declared.sources@.len() - i,
    {
        let ghost earlier = limiting;
        let has_quantity = match work.sources[i] {
            Ok(has) => has,
            Err(_) => false,
        };
        proof {
            assert(work.sources@[i as int] is Ok);
        }
        sources.push(
            CompiledSource {
                label: declared.sources[i].label.clone(),
                text: declared.sources[i].text.clone(),
                has_quantity,
            },
        );
        limiting = limiting || has_quantity;
        proof {
            assert(goal[i as int].2 == has_quantity);
            if earlier {
                let j = choose|j: int| 0 <= j < i && (#[trigger] goal[j]).2;
                assert(goal[j].2);
            }
        }
        i = i + 1;
    }
    proof {
        assert(compiled_views(sources@) =~= goal);
    }
    Ok(
        CompiledMeter {
            path: copy_texts(path),
            name: String::from_str(name),
            sources,
            eligible: declared.eligible,
            order: declared.order,
            limiting,
        },
    )
}

/// The expressions of a meter's members that read the state, in order: of its sources,
/// of its eligibility, and of its order keys.
pub open spec fn read_positions(members: Seq<(String, Doc)>) -> Seq<Seq<char>>
    decreases members.len(),
{
    if members.len() == 0 {
        Seq::empty()
    } else {
        let before = read_positions(members.drop_last());
        let name = members.last().0@;
        let value = members.last().1;
        if name == "$sources"@ {
            before + second_texts(texts_within(value))
        } else if name == "$eligible"@ {
            match text_of(value) {
                Some(t) => before.push(t),
                None => before,
            }
        } else if name == "$order"@ {
            before + first_texts(order_within(value))
        } else {
            before
        }
    }
}

/// The second of each pair.
pub open spec fn second_texts(pairs: Seq<(Seq<char>, Seq<char>)>) -> Seq<Seq<char>> {
    Seq::new(pairs.len(), |i: int| pairs[i].1)
}

/// The first of each pair.
pub open spec fn first_texts(pairs: Seq<(Seq<char>, bool)>) -> Seq<Seq<char>> {
    Seq::new(pairs.len(), |i: int| pairs[i].0)
}

/// The expressions of the first `n` meters of a declaration.
pub open spec fn limit_positions(meters: Seq<(String, Doc)>, n: int) -> Seq<Seq<char>>
    decreases n,
{
    if n <= 0 {
        Seq::empty()
    } else {
        let before = limit_positions(meters, n - 1);
        match meters[n - 1].1 {
            Doc::Object(members) => before + read_positions(members@),
            _ => before,
        }
    }
}

fn positions_of(members: &Vec<(String, Doc)>, out: &mut Vec<String>)
    ensures
        texts(final(out)@) == texts(old(out)@) + read_positions(members@),
{
    let ghost start = texts(out@);
    let mut i: usize = 0;
    proof {
        assert(members@.take(0) =~= Seq::<(String, Doc)>::empty());
        assert(start + read_positions(members@.take(0)) =~= start);
    }
    while i < members.len()
        invariant
            i <= members@.len(),
            texts(out@) == start + read_positions(members@.take(i as int)),
        decreases members@.len() - i,
    {
        let ghost before = texts(out@);
        let ghost earlier = read_positions(members@.take(i as int));
        proof {
            assert(members@.take(i + 1).drop_last() =~= members@.take(i as int));
            assert(members@.take(i + 1).last() == members@[i as int]);
            reveal_strlit("$sources");
            reveal_strlit("$order");
            reveal_strlit("$eligible");
        }
        let name = members[i].0.as_str();
        if same_text(name, "$sources") {
            let mut sources: Vec<SourceDecl> = Vec::new();
            proof {
                assert(source_views(sources@) =~= Seq::<(Seq<char>, Seq<char>)>::empty());
            }
            read_sources(&members[i].1, &mut sources);
            let ghost added = second_texts(texts_within(members@[i as int].1));
            proof {
                assert(source_views(sources@) =~= texts_within(members@[i as int].1));
                assert(before + added.take(0) =~= before);
            }
            let mut k: usize = 0;
            while k < sources.len()
                invariant
                    source_views(sources@) == texts_within(members@[i as int].1),
                    added == second_texts(texts_within(members@[i as int].1)),
                    added.len() == sources@.len(),
                    k <= sources@.len(),
                    texts(out@) == before + added.take(k as int),
                decreases sources@.len() - k,
            {
                let ghost so_far = texts(out@);
                out.push(sources[k].text.clone());
                proof {
                    assert(added[k as int] == source_views(sources@)[k as int].1);
                    assert(texts(out@) =~= so_far.push(added[k as int]));
                    assert(before + added.take(k + 1) =~= (before + added.take(k as int)).push(added[k as int]));
                }
                k = k + 1;
            }
            proof {
                assert(added.take(k as int) =~= added);
                assert(start + (earlier + added) =~= (start + earlier) + added);
            }
        } else if same_text(name, "$eligible") {
            if let Some(t) = string(&members[i].1) {
                out.push(t.clone());
                proof {
                    assert(texts(out@) =~= before.push(t@));
                    assert(start + earlier.push(t@) =~= (start + earlier).push(t@));
                }
            }
        } else if same_text(name, "$order") {
            let order = read_order(&members[i].1);
            let ghost added = first_texts(order_within(members@[i as int].1));
            let mut k: usize = 0;
            proof {
                assert(before + added.take(0) =~= before);
            }
            while k < order.len()
                invariant
                    order_views(order@) == order_within(members@[i as int].1),
                    added == first_texts(order_within(members@[i as int].1)),
                    added.len() == order@.len(),
                    k <= order@.len(),
                    texts(out@) == before + added.take(k as int),
                decreases order@.len() - k,
            {
                let ghost so_far = texts(out@);
                out.push(order[k].text.clone());
                proof {
                    assert(added[k as int] == order_views(order@)[k as int].0);
                    assert(texts(out@) =~= so_far.push(added[k as int]));
                    assert(before + added.take(k + 1) =~= (before + added.take(k as int)).push(added[k as int]));
                }
                k = k + 1;
            }
            proof {
                assert(added.take(k as int) =~= added);
                assert(start + (earlier + added) =~= (start + earlier) + added);
            }
        }
        i = i + 1;
    }
    proof {
        assert(members@.take(i as int) =~= members@);
    }
}

/// The expressions of a declaration of meters that read the state, in order. None of
/// them may call into a registered namespace.
pub fn audit_limits_positions(limits: &Doc) -> (r: Vec<String>)
    ensures
        texts(r@) == (match *limits {
            Doc::Object(meters) => limit_positions(meters@, meters@.len() as int),
            _ => Seq::empty(),
        }),
{
    let mut r: Vec<String> = Vec::new();
    proof {
        assert(texts(r@) =~= Seq::<Seq<char>>::empty());
    }
    let meters = match object(limits) {
        Some(meters) => meters,
        None => {
            return r;
        },
    };
    let mut i: usize = 0;
    while i < meters.len()
        invariant
            i <= meters@.len(),
            texts(r@) == limit_positions(meters@, i as int),
        decreases meters@.len() - i,
    {
        if let Some(members) = object(&meters[i].1) {
            positions_of(members, &mut r);
        }
        i = i + 1;
    }
    r
}

/// What a spend consumes of a meter, as it is declared: the meter, the expressions of
/// the amount and of the time, and those of the metadata.
#[derive(Debug)]
pub struct ConsumeDecl {
    pub meter: String,
    pub amount: String,
    pub time: String,
    pub metadata: Vec<(String, String)>,
}

/// What a [`ConsumeDecl`] denotes.
#[verifier::ext_equal]
pub struct ConsumeView {
    pub meter: Seq<char>,
    pub amount: Seq<char>,
    pub time: Seq<char>,
    pub metadata: Seq<(Seq<char>, Seq<char>)>,
}

/// What named texts denote.
pub open spec fn pair_views(pairs: Seq<(String, String)>) -> Seq<(Seq<char>, Seq<char>)> {
    Seq::new(pairs.len(), |i: int| (pairs[i].0@, pairs[i].1@))
}

impl View for ConsumeDecl {
    type V = ConsumeView;

    open spec fn view(&self) -> ConsumeView {
        ConsumeView {
            meter: self.meter@,
            amount: self.amount@,
            time: self.time@,
            metadata: pair_views(self.metadata@),
        }
    }
}

/// What consumed meters denote.
pub open spec fn consume_views(consumes: Seq<ConsumeDecl>) -> Seq<ConsumeView> {
    Seq::new(consumes.len(), |i: int| consumes[i]@)
}

/// What the members of a consumed meter's declaration say: the last amount and the
/// last time count, and every other text is metadata.
pub open spec fn configured(meter: Seq<char>, config: Seq<(String, Doc)>) -> ConsumeView
    decreases config.len(),
{
    if config.len() == 0 {
        ConsumeView { meter, amount: ".amount"@, time: ".occurred_at"@, metadata: Seq::empty() }
    } else {
        let before = configured(meter, config.drop_last());
        let name = config.last().0@;
        match text_of(config.last().1) {
            None => before,
            Some(t) => if name == "$amount"@ {
                ConsumeView { amount: t, ..before }
            } else if name == "$time"@ {
                ConsumeView { time: t, ..before }
            } else {
                ConsumeView { metadata: before.metadata.push((name, t)), ..before }
            },
        }
    }
}

/// A consumed meter, as one member declares it: a text is the expression of the amount.
pub open spec fn consume_declared(meter: Seq<char>, value: Doc) -> ConsumeView {
    match value {
        Doc::Text(t) => ConsumeView { meter, amount: t@, time: ".occurred_at"@, metadata: Seq::empty() },
        Doc::Object(config) => configured(meter, config@),
        _ => ConsumeView { meter, amount: ".amount"@, time: ".occurred_at"@, metadata: Seq::empty() },
    }
}

/// The meters a spend consumes: a text names the one; an object has a member for each.
pub open spec fn consumes_declared(consumes: Doc) -> Seq<ConsumeView> {
    match consumes {
        Doc::Text(name) => seq![
            ConsumeView {
                meter: right_trimmed(left_trimmed(name@)),
                amount: ".amount"@,
                time: ".occurred_at"@,
                metadata: Seq::empty(),
            },
        ],
        Doc::Object(members) => Seq::new(
            members@.len(),
            |i: int| consume_declared(members@[i].0@, members@[i].1),
        ),
        _ => Seq::empty(),
    }
}

fn read_config(meter: &str, config: &Vec<(String, Doc)>) -> (r: ConsumeDecl)
    ensures
        r@ == configured(meter@, config@),
{
    let mut amount = String::from_str(".amount");
    let mut time = String::from_str(".occurred_at");
    let mut metadata: Vec<(String, String)> = Vec::new();
    let mut i: usize = 0;
    proof {
        assert(config@.take(0) =~= Seq::<(String, Doc)>::empty());
        assert(pair_views(metadata@) =~= Seq::<(Seq<char>, Seq<char>)>::empty());
    }
    while i < config.len()
        invariant
            i <= config@.len(),
            configured(meter@, config@.take(i as int)) == (ConsumeView {
                meter: meter@,
                amount: amount@,
                time: time@,
                metadata: pair_views(metadata@),
            }),
        decreases config@.len() - i,
    {
        let ghost before = pair_views(metadata@);
        proof {
            assert(config@.take(i + 1).drop_last() =~= config@.take(i as int));
            assert(config@.take(i + 1).last() == config@[i as int]);
        }
        let name = config[i].0.as_str();
        if let Some(t) = string(&config[i].1) {
            if same_text(name, "$amount") {
                amount = t.clone();
            } else if same_text(name, "$time") {
                time = t.clone();
            } else {
                metadata.push((config[i].0.clone(), t.clone()));
                proof {
                    assert(pair_views(metadata@) =~= before.push((config@[i as int].0@, t@)));
                }
            }
        }
        i = i + 1;
    }
    proof {
        assert(config@.take(i as int) =~= config@);
    }
    ConsumeDecl { meter: String::from_str(meter), amount, time, metadata }
}

fn plain_consume(meter: String, amount: &str) -> (r: ConsumeDecl)
    ensures
        r@ == (ConsumeView { meter: meter@, amount: amount@, time: ".occurred_at"@, metadata: Seq::empty() }),
{
    let metadata: Vec<(String, String)> = Vec::new();
    proof {
        assert(pair_views(metadata@) =~= Seq::<(Seq<char>, Seq<char>)>::empty());
    }
    ConsumeDecl { meter, amount: String::from_str(amount), time: String::from_str(".occurred_at"), metadata }
}

/// Read the meters a spend consumes.
pub fn read_consumes(consumes: &Doc) -> (r: Vec<ConsumeDecl>)
    ensures
        consume_views(r@) == consumes_declared(*consumes),
{
    let mut r: Vec<ConsumeDecl> = Vec::new();
    match consumes {
        Doc::Text(name) => {
            r.push(plain_consume(trim(name.as_str()), ".amount"));
        },
        Doc::Object(members) => {
            let mut i: usize = 0;
            while i < members.len()
                invariant
                    i <= members@.len(),
                    r@.len() == i,
                    forall|j: int|
                        0 <= j < i ==> (#[trigger] r@[j])@ == consume_declared(members@[j].0@, members@[j].1),
                decreases members@.len() - i,
            {
                let decl = match &members[i].1 {
                    Doc::Text(t) => plain_consume(members[i].0.clone(), t.as_str()),
                    Doc::Object(config) => read_config(members[i].0.as_str(), config),
                    _ => plain_consume(members[i].0.clone(), ".amount"),
                };
                r.push(decl);
                i = i + 1;
            }
        },
        _ => {},
    }
    proof {
        assert(consume_views(r@) =~= consumes_declared(*consumes));
    }
    r
}

/// The expressions of a declaration of consumed meters that read the state, in order:
/// none of a text, and of an object every text in it.
pub open spec fn consume_positions(members: Seq<(String, Doc)>, n: int) -> Seq<Seq<char>>
    decreases n,
{
    if n <= 0 {
        Seq::empty()
    } else {
        let before = consume_positions(members, n - 1);
        match members[n - 1].1 {
            Doc::Text(t) => before.push(t@),
            Doc::Object(config) => before + second_texts(text_members(config@)),
            _ => before,
        }
    }
}

/// The expressions of a declaration of consumed meters that read the state, in order.
/// None of them may call into a registered namespace.
pub fn audit_consumes_positions(consumes: &Doc) -> (r: Vec<String>)
    ensures
        texts(r@) == (match *consumes {
            Doc::Object(members) => consume_positions(members@, members@.len() as int),
            _ => Seq::empty(),
        }),
{
    let mut r: Vec<String> = Vec::new();
    proof {
        assert(texts(r@) =~= Seq::<Seq<char>>::empty());
    }
    let members = match object(consumes) {
        Some(members) => members,
        None => {
            return r;
        },
    };
    let mut i: usize = 0;
    while i < members.len()
        invariant
            i <= members@.len(),
            texts(r@) == consume_positions(members@, i as int),
        decreases members@.len() - i,
    {
        let ghost before = texts(r@);
        match &members[i].1 {
            Doc::Text(t) => {
                r.push(t.clone());
                proof {
                    assert(texts(r@) =~= before.push(t@));
                }
            },
            Doc::Object(config) => {
                let mut found: Vec<SourceDecl> = Vec::new();
                proof {
                    assert(source_views(found@) =~= Seq::<(Seq<char>, Seq<char>)>::empty());
                }
                read_sources(&members[i].1, &mut found);
                let ghost added = second_texts(text_members(config@));
                proof {
                    assert(source_views(found@) =~= text_members(config@));
                    assert(before + added.take(0) =~= before);
                }
                let mut k: usize = 0;
                while k < found.len()
                    invariant
                        source_views(found@) == text_members(config@),
                        added == second_texts(text_members(config@)),
                        added.len() == found@.len(),
                        k <= found@.len(),
                        texts(r@) == before + added.take(k as int),
                    decreases found@.len() - k,
                {
                    let ghost so_far = texts(r@);
                    r.push(found[k].text.clone());
                    proof {
                        assert(added[k as int] == source_views(found@)[k as int].1);
                        assert(texts(r@) =~= so_far.push(added[k as int]));
                        assert(before + added.take(k + 1) =~= (before + added.take(k as int)).push(added[k as int]));
                    }
                    k = k + 1;
                }
                proof {
                    assert(added.take(k as int) =~= added);
                }
            },
            _ => {},
        }
        i = i + 1;
    }
    r
}

/// What compiling the expressions of a consumed meter came to.
pub struct ConsumeWork {
    pub metadata: Vec<Result<(), EngineError>>,
    pub amount: Result<(), EngineError>,
    pub time: Result<(), EngineError>,
}

/// The failure of a consumed meter: of its metadata, of its amount, or of its time,
/// whichever comes first.
pub open spec fn consume_failure(work: ConsumeWork) -> Option<EngineErrorView> {
    match first_failure(work.metadata@) {
        Some(e) => Some(e),
        None => match (work.amount, work.time) {
            (Err(e), _) => Some(e@),
            (Ok(_), Err(e)) => Some(e@),
            _ => None,
        },
    }
}

/// The first failure among consumed meters.
pub open spec fn first_consume_failure(work: Seq<ConsumeWork>) -> Option<EngineErrorView>
    decreases work.len(),
{
    if work.len() == 0 {
        None
    } else {
        match consume_failure(work[0]) {
            Some(e) => Some(e),
            None => first_consume_failure(work.drop_first()),
        }
    }
}

/// A collection whose rows are spends.
#[derive(Debug)]
pub struct CompiledSpend {
    pub path: Vec<String>,
    pub consumes: Vec<ConsumeDecl>,
}

/// What a [`CompiledSpend`] denotes.
#[verifier::ext_equal]
pub struct SpendView {
    pub path: Seq<Seq<char>>,
    pub consumes: Seq<ConsumeView>,
}

impl View for CompiledSpend {
    type V = SpendView;

    open spec fn view(&self) -> SpendView {
        SpendView { path: texts(self.path@), consumes: consume_views(self.consumes@) }
    }
}

/// Compile a collection whose rows are spends. `work` holds what compiling the
/// expressions of each consumed meter came to.
pub fn compile_consumes(path: &Vec<String>, consumes: &Doc, work: &Vec<ConsumeWork>) -> (r: Result<
    CompiledSpend,
    EngineError,
>)
    requires
        work@.len() == consumes_declared(*consumes).len(),
    ensures
        match (r, first_consume_failure(work@)) {
            (Ok(spend), None) => spend@ == (SpendView {
                path: texts(path@),
                consumes: consumes_declared(*consumes),
            }),
            (Err(e), Some(x)) => e@ == x,
            _ => false,
        },
{
    let mut i: usize = 0;
    proof {
        assert(work@.skip(0) =~= work@);
    }
    while i < work.len()
        invariant
            i <= work@.len(),
            first_consume_failure(work@) == first_consume_failure(work@.skip(i as int)),
        decreases work@.len() - i,
    {
        proof {
            assert(work@.skip(i as int)[0] == work@[i as int]);
            assert(work@.skip(i as int).drop_first() =~= work@.skip(i + 1));
        }
        require_all(&work[i].metadata)?;
        if let Err(e) = &work[i].amount {
            return Err(e.duplicate());
        }
        if let Err(e) = &work[i].time {
            return Err(e.duplicate());
        }
        i = i + 1;
    }
    Ok(CompiledSpend { path: copy_texts(path), consumes: read_consumes(consumes) })
}

/// The meters the first `n` members of a `$limits` declare, of those that compile. One
/// that does not is left out.
pub open spec fn limits_compiled(
    path: Seq<Seq<char>>,
    members: Seq<(String, Doc)>,
    work: Seq<MeterWork>,
    n: int,
) -> Seq<MeterView>
    decreases n,
{
    if n <= 0 {
        Seq::empty()
    } else {
        let before = limits_compiled(path, members, work, n - 1);
        match meter_compiled(path, members[n - 1].0@, members[n - 1].1, work[n - 1]) {
            Ok(m) => before.push(m),
            Err(_) => before,
        }
    }
}

/// The meters a `$limits` declares; none where it is no object.
pub open spec fn limits_of(path: Seq<Seq<char>>, limits: Doc, work: Seq<MeterWork>) -> Seq<MeterView> {
    match limits {
        Doc::Object(members) => limits_compiled(path, members@, work, members@.len() as int),
        _ => Seq::empty(),
    }
}

/// Whether there is work for every meter a `$limits` declares.
pub open spec fn limits_ready(limits: Doc, work: Seq<MeterWork>) -> bool {
    limits matches Doc::Object(members) ==> {
        &&& work.len() == members@.len()
        &&& forall|i: int| 0 <= i < members@.len() ==> meter_ready((#[trigger] members@[i]).1, work[i])
    }
}

/// Compile the meters a `$limits` declares.
pub fn compile_limits(path: &Vec<String>, limits: &Doc, work: &Vec<MeterWork>) -> (r: Vec<CompiledMeter>)
    requires
        limits_ready(*limits, work@),
    ensures
        Seq::new(r@.len(), |i: int| r@[i]@) == limits_of(texts(path@), *limits, work@),
{
    let mut meters: Vec<CompiledMeter> = Vec::new();
    let ghost shown = Seq::<MeterView>::empty();
    if let Some(members) = object(limits) {
        let mut i: usize = 0;
        let ghost mut so_far = Seq::<MeterView>::empty();
        while i < members.len()
            invariant
                limits_ready(*limits, work@),
                *limits matches Doc::Object(m) && m == *members,
                i <= members@.len(),
                so_far == limits_compiled(texts(path@), members@, work@, i as int),
                so_far.len() == meters@.len(),
                forall|j: int| 0 <= j < meters@.len() ==> (#[trigger] meters@[j])@ == so_far[j],
            decreases members@.len() - i,
        {
            if let Ok(meter) = compile_meter(path, members[i].0.as_str(), &members[i].1, &work[i]) {
                proof {
                    so_far = so_far.push(meter@);
                }
                meters.push(meter);
            }
            i = i + 1;
        }
        proof {
            assert(Seq::new(meters@.len(), |i: int| meters@[i]@) =~= so_far);
        }
    } else {
        proof {
            assert(Seq::new(meters@.len(), |i: int| meters@[i]@) =~= shown);
        }
    }
    meters
}

} // verus!
