//! What reading the declarations of meters, spends and migrations keeps to.

use crate::doc::{doc_member, member_text, text_of, Doc};
use crate::meter::{
    configured, consumes_declared, first_failure, limits_compiled, meter_compiled, meter_declared, meter_ready,
    order_key, order_keys, order_within, text_members, texts_within, MeterView, MeterWork,
};
use crate::plan::{
    collection_plan, declares_key, downgraded, field_plan, has_inverse, is_directive, maps_something, model_plan,
    offers_inverse, PlanView,
};
use crate::row_types::{
    all_joined, bounded, has_member, is_named, joined, nested_joined, old_member, scalars_joined, spends_joined,
    view_named, SpendMember, SpendShape, TypeView,
};
use crate::text::{is_blank, left_trimmed, without_minus};
use crate::update::EngineError;
use vstd::prelude::*;

verus! {

/// The member of a name is the first that has it.
pub proof fn law_doc_member(members: Seq<(String, Doc)>, name: Seq<char>, i: int)
    ensures
        doc_member(members, name) is None <==> forall|k: int| 0 <= k < members.len() ==> (#[trigger] members[k]).0@ != name,
        0 <= i < members.len() && members[i].0@ == name && (forall|k: int|
            0 <= k < i ==> (#[trigger] members[k]).0@ != name) ==> doc_member(members, name) == Some(members[i].1),
    decreases members.len(),
{
    if members.len() > 0 {
        let rest = members.drop_first();
        law_doc_member(rest, name, i - 1);
        if doc_member(members, name) is None {
            assert forall|k: int| 0 <= k < members.len() implies (#[trigger] members[k]).0@ != name by {
                if k > 0 {
                    assert(rest[k - 1] == members[k]);
                }
            }
        } else if forall|k: int| 0 <= k < members.len() ==> (#[trigger] members[k]).0@ != name {
            assert forall|k: int| 0 <= k < rest.len() implies (#[trigger] rest[k]).0@ != name by {
                assert(rest[k] == members[k + 1]);
            }
        }
        if 0 < i < members.len() && members[i].0@ == name && (forall|k: int|
            0 <= k < i ==> (#[trigger] members[k]).0@ != name) {
            assert(rest[i - 1] == members[i]);
            assert forall|k: int| 0 <= k < i - 1 implies (#[trigger] rest[k]).0@ != name by {
                assert(rest[k] == members[k + 1]);
            }
        }
    }
}

/// The text members of an object are exactly its members that are texts.
pub proof fn law_text_members(members: Seq<(String, Doc)>, label: Seq<char>, text: Seq<char>)
    ensures
        text_members(members).contains((label, text)) <==> exists|k: int|
            0 <= k < members.len() && (#[trigger] members[k]).0@ == label && text_of(members[k].1) == Some(text),
    decreases members.len(),
{
    if members.len() > 0 {
        let rest = members.drop_last();
        law_text_members(rest, label, text);
        let before = text_members(rest);
        let after = text_members(members);
        let x = (label, text);
        assert(members[members.len() - 1] == members.last());
        if exists|k: int| 0 <= k < rest.len() && (#[trigger] rest[k]).0@ == label && text_of(rest[k].1) == Some(text) {
            let k = choose|k: int|
                0 <= k < rest.len() && (#[trigger] rest[k]).0@ == label && text_of(rest[k].1) == Some(text);
            assert(members[k] == rest[k]);
            let i = choose|i: int| 0 <= i < before.len() && before[i] == x;
            assert(after[i] == x);
        }
        if exists|k: int|
            0 <= k < members.len() && (#[trigger] members[k]).0@ == label && text_of(members[k].1) == Some(text) {
            let k = choose|k: int|
                0 <= k < members.len() && (#[trigger] members[k]).0@ == label && text_of(members[k].1) == Some(text);
            if k < rest.len() {
                assert(rest[k] == members[k]);
            } else {
                assert(after[before.len() as int] == x);
            }
        }
        if after.contains(x) {
            let i = choose|i: int| 0 <= i < after.len() && after[i] == x;
            if i < before.len() {
                assert(before[i] == x);
            }
        }
    }
}

/// An order key with a minus sign before it descends; without one it ascends. Blanks
/// before the key do not count, and the key is the rest.
pub proof fn law_order_key(text: Seq<char>)
    requires
        text.len() > 0,
        !is_blank(text[0]),
        text[0] != '-',
    ensures
        order_key(text) == (text, false),
        order_key(seq!['-'] + text) == (text, true),
        order_key(seq![' '] + text) == (text, false),
{
    reveal_with_fuel(left_trimmed, 3);
    reveal_with_fuel(without_minus, 3);
    assert((seq!['-'] + text).drop_first() =~= text);
    assert((seq![' '] + text).drop_first() =~= text);
    assert(!is_blank('-') && is_blank(' ')) by {
        reveal(is_blank);
    }
}

/// A list writes the order keys of its texts, each in its place: every text adds one key
/// behind those before it.
pub proof fn law_order_keys(items: Seq<Doc>, text: Seq<char>, item: Doc)
    ensures
        text_of(item) == Some(text) ==> order_keys(items.push(item)) == order_keys(items).push(order_key(text)),
        text_of(item) is None ==> order_keys(items.push(item)) == order_keys(items),
        order_keys(Seq::empty()).len() == 0,
{
    assert(items.push(item).drop_last() =~= items);
}

/// Every source of every `$sources` is one of the meter's, and no other is.
pub proof fn law_meter_sources(members: Seq<(String, Doc)>, source: (Seq<char>, Seq<char>))
    ensures
        meter_declared(members).sources.contains(source) <==> exists|k: int|
            0 <= k < members.len() && (#[trigger] members[k]).0@ == "$sources"@ && texts_within(members[k].1).contains(source),
    decreases members.len(),
{
    reveal_strlit("$sources");
    reveal_strlit("$order");
    reveal_strlit("$eligible");
    assert("$sources"@.len() == 8 && "$order"@.len() == 6 && "$eligible"@.len() == 9);
    if members.len() > 0 {
        let rest = members.drop_last();
        law_meter_sources(rest, source);
        let before = meter_declared(rest).sources;
        let after = meter_declared(members).sources;
        assert(members[members.len() - 1] == members.last());
        let last = texts_within(members.last().1);
        if exists|k: int|
            0 <= k < rest.len() && (#[trigger] rest[k]).0@ == "$sources"@ && texts_within(rest[k].1).contains(source) {
            let k = choose|k: int|
                0 <= k < rest.len() && (#[trigger] rest[k]).0@ == "$sources"@ && texts_within(rest[k].1).contains(source);
            assert(members[k] == rest[k]);
            let i = choose|i: int| 0 <= i < before.len() && before[i] == source;
            assert(after[i] == source);
        }
        if exists|k: int|
            0 <= k < members.len() && (#[trigger] members[k]).0@ == "$sources"@ && texts_within(members[k].1).contains(
                source,
            ) {
            let k = choose|k: int|
                0 <= k < members.len() && (#[trigger] members[k]).0@ == "$sources"@ && texts_within(
                    members[k].1,
                ).contains(source);
            if k < rest.len() {
                assert(rest[k] == members[k]);
            } else {
                let i = choose|i: int| 0 <= i < last.len() && last[i] == source;
                assert(after == before + last);
                assert(after[before.len() + i] == source);
            }
        }
        if after.contains(source) {
            let i = choose|i: int| 0 <= i < after.len() && after[i] == source;
            if i < before.len() {
                assert(before[i] == source);
            } else {
                assert(last[i - before.len()] == source);
            }
        }
    }
}

/// The last `$order` of a meter is its order, and the last `$eligible` its eligibility;
/// without one there is none.
pub proof fn law_meter_declared(members: Seq<(String, Doc)>, i: int)
    ensures
        0 <= i < members.len() && members[i].0@ == "$order"@ && (forall|k: int|
            i < k < members.len() ==> (#[trigger] members[k]).0@ != "$order"@) ==> meter_declared(members).order
            == order_within(members[i].1),
        0 <= i < members.len() && members[i].0@ == "$eligible"@ && (forall|k: int|
            i < k < members.len() ==> (#[trigger] members[k]).0@ != "$eligible"@) ==> meter_declared(members).eligible
            == text_of(members[i].1),
        (forall|k: int| 0 <= k < members.len() ==> (#[trigger] members[k]).0@ != "$order"@) ==> meter_declared(
            members,
        ).order.len() == 0,
        (forall|k: int| 0 <= k < members.len() ==> (#[trigger] members[k]).0@ != "$eligible"@) ==> meter_declared(
            members,
        ).eligible is None,
    decreases members.len(),
{
    reveal_strlit("$sources");
    reveal_strlit("$order");
    reveal_strlit("$eligible");
    assert("$sources"@.len() == 8 && "$order"@.len() == 6 && "$eligible"@.len() == 9);
    if members.len() > 0 {
        let rest = members.drop_last();
        law_meter_declared(rest, i);
        assert(members[members.len() - 1] == members.last());
        assert forall|k: int| 0 <= k < rest.len() implies #[trigger] rest[k] == members[k] by {}
        if 0 <= i < rest.len() {
            assert(rest[i] == members[i]);
        }
        if forall|k: int| 0 <= k < members.len() ==> (#[trigger] members[k]).0@ != "$order"@ {
            assert forall|k: int| 0 <= k < rest.len() implies (#[trigger] rest[k]).0@ != "$order"@ by {
                assert(rest[k] == members[k]);
            }
        }
        if forall|k: int| 0 <= k < members.len() ==> (#[trigger] members[k]).0@ != "$eligible"@ {
            assert forall|k: int| 0 <= k < rest.len() implies (#[trigger] rest[k]).0@ != "$eligible"@ by {
                assert(rest[k] == members[k]);
            }
        }
    }
}

/// The first failure among outcomes is that of the first that failed, and there is none
/// only where all succeeded.
pub proof fn law_failure<T>(outcomes: Seq<Result<T, EngineError>>, i: int)
    ensures
        first_failure(outcomes) is None <==> forall|k: int| 0 <= k < outcomes.len() ==> (#[trigger] outcomes[k]) is Ok,
        0 <= i < outcomes.len() && outcomes[i] is Err && (forall|k: int| 0 <= k < i ==> (#[trigger] outcomes[k]) is Ok)
            ==> first_failure(outcomes) == Some(outcomes[i]->Err_0@),
    decreases outcomes.len(),
{
    if outcomes.len() > 0 {
        let rest = outcomes.drop_first();
        law_failure(rest, i - 1);
        if first_failure(outcomes) is None {
            assert forall|k: int| 0 <= k < outcomes.len() implies (#[trigger] outcomes[k]) is Ok by {
                if k > 0 {
                    assert(rest[k - 1] == outcomes[k]);
                }
            }
        } else if forall|k: int| 0 <= k < outcomes.len() ==> (#[trigger] outcomes[k]) is Ok {
            assert(outcomes[0] is Ok);
            assert forall|k: int| 0 <= k < rest.len() implies (#[trigger] rest[k]) is Ok by {
                assert(rest[k] == outcomes[k + 1]);
            }
        }
        if 0 < i < outcomes.len() && outcomes[i] is Err && (forall|k: int|
            0 <= k < i ==> (#[trigger] outcomes[k]) is Ok) {
            assert(rest[i - 1] == outcomes[i]);
            assert(outcomes[0] is Ok);
            assert forall|k: int| 0 <= k < i - 1 implies (#[trigger] rest[k]) is Ok by {
                assert(rest[k] == outcomes[k + 1]);
            }
        }
    }
}

/// A meter compiles if and only if an object declares it and all its expressions do.
/// It has the sources, the eligibility and the order it declares, and limits if and only
/// if one of its sources shows a capacity.
pub proof fn law_meter_compiled(path: Seq<Seq<char>>, name: Seq<char>, body: Doc, work: MeterWork, i: int)
    requires
        meter_ready(body, work),
    ensures
        !(body is Object) ==> meter_compiled(path, name, body, work) is Err,
        body matches Doc::Object(members) ==> {
            let declared = meter_declared(members@);
            let out = meter_compiled(path, name, body, work);
            &&& out is Ok <==> (forall|k: int| 0 <= k < work.sources@.len() ==> (#[trigger] work.sources@[k]) is Ok) && (
            declared.eligible is Some ==> work.eligible is Ok) && (forall|k: int|
                0 <= k < work.order@.len() ==> (#[trigger] work.order@[k]) is Ok)
            &&& out is Ok ==> out->Ok_0.path == path && out->Ok_0.name == name && out->Ok_0.eligible == declared.eligible
                && out->Ok_0.order == declared.order && out->Ok_0.sources.len() == declared.sources.len()
            &&& out is Ok && 0 <= i < declared.sources.len() ==> out->Ok_0.sources[i] == (
                declared.sources[i].0,
                declared.sources[i].1,
                work.sources@[i]->Ok_0,
            )
            &&& out is Ok ==> (out->Ok_0.limiting <==> exists|k: int|
                0 <= k < work.sources@.len() && (#[trigger] work.sources@[k]) == Ok::<bool, EngineError>(true))
        },
{
    law_failure(work.sources@, 0);
    law_failure(work.order@, 0);
    if let Doc::Object(members) = body {
        let out = meter_compiled(path, name, body, work);
        if out is Ok {
            let sources = out->Ok_0.sources;
            if out->Ok_0.limiting {
                let k = choose|k: int| 0 <= k < sources.len() && (#[trigger] sources[k]).2;
                assert(work.sources@[k] == Ok::<bool, EngineError>(true));
            }
            if exists|k: int|
                0 <= k < work.sources@.len() && (#[trigger] work.sources@[k]) == Ok::<bool, EngineError>(true) {
                let k = choose|k: int|
                    0 <= k < work.sources@.len() && (#[trigger] work.sources@[k]) == Ok::<bool, EngineError>(true);
                assert(sources[k].2);
            }
        }
    }
}

/// Every meter of a `$limits` that compiles is among the compiled ones, and no other.
pub proof fn law_limits_compiled(
    path: Seq<Seq<char>>,
    members: Seq<(String, Doc)>,
    work: Seq<MeterWork>,
    n: int,
    meter: MeterView,
)
    requires
        0 <= n <= members.len() == work.len(),
    ensures
        limits_compiled(path, members, work, n).contains(meter) <==> exists|k: int|
            0 <= k < n && meter_compiled(path, (#[trigger] members[k]).0@, members[k].1, work[k]) == Ok::<
                MeterView,
                crate::update::EngineErrorView,
            >(meter),
    decreases n,
{
    if n > 0 {
        law_limits_compiled(path, members, work, n - 1, meter);
        let before = limits_compiled(path, members, work, n - 1);
        let after = limits_compiled(path, members, work, n);
        if before.contains(meter) {
            let i = choose|i: int| 0 <= i < before.len() && before[i] == meter;
            assert(after[i] == meter);
            let k = choose|k: int|
                0 <= k < n - 1 && meter_compiled(path, (#[trigger] members[k]).0@, members[k].1, work[k]) == Ok::<
                    MeterView,
                    crate::update::EngineErrorView,
                >(meter);
            assert(members[k] == members[k]);
        }
        if exists|k: int|
            0 <= k < n && meter_compiled(path, (#[trigger] members[k]).0@, members[k].1, work[k]) == Ok::<
                MeterView,
                crate::update::EngineErrorView,
            >(meter) {
            let k = choose|k: int|
                0 <= k < n && meter_compiled(path, (#[trigger] members[k]).0@, members[k].1, work[k]) == Ok::<
                    MeterView,
                    crate::update::EngineErrorView,
                >(meter);
            if k == n - 1 {
                assert(after[before.len() as int] == meter);
            }
        }
        if after.contains(meter) && !before.contains(meter) {
            let i = choose|i: int| 0 <= i < after.len() && after[i] == meter;
            if i < before.len() {
                assert(before[i] == meter);
            }
            assert(members[n - 1] == members[n - 1]);
        }
    }
}

/// A consumed meter has the last amount and the last time it is configured with, the
/// row's own `amount` and `occurred_at` where it is configured with none, and every other
/// text as metadata.
pub proof fn law_configured(meter: Seq<char>, config: Seq<(String, Doc)>, i: int, text: Seq<char>)
    ensures
        configured(meter, config).meter == meter,
        0 <= i < config.len() && config[i].0@ == "$amount"@ && text_of(config[i].1) == Some(text) && (forall|k: int|
            i < k < config.len() ==> (#[trigger] config[k]).0@ != "$amount"@) ==> configured(meter, config).amount == text,
        0 <= i < config.len() && config[i].0@ == "$time"@ && text_of(config[i].1) == Some(text) && (forall|k: int|
            i < k < config.len() ==> (#[trigger] config[k]).0@ != "$time"@) ==> configured(meter, config).time == text,
        (forall|k: int| 0 <= k < config.len() ==> (#[trigger] config[k]).0@ != "$amount"@) ==> configured(
            meter,
            config,
        ).amount == ".amount"@,
        (forall|k: int| 0 <= k < config.len() ==> (#[trigger] config[k]).0@ != "$time"@) ==> configured(meter, config).time
            == ".occurred_at"@,
        0 <= i < config.len() && config[i].0@ != "$amount"@ && config[i].0@ != "$time"@ && text_of(config[i].1) == Some(text)
            ==> configured(meter, config).metadata.contains((config[i].0@, text)),
    decreases config.len(),
{
    reveal_strlit("$amount");
    reveal_strlit("$time");
    assert("$amount"@.len() == 7 && "$time"@.len() == 5);
    if config.len() > 0 {
        let rest = config.drop_last();
        law_configured(meter, rest, i, text);
        assert(config[config.len() - 1] == config.last());
        if 0 <= i < rest.len() {
            assert(rest[i] == config[i]);
        }
        assert forall|k: int| 0 <= k < rest.len() implies #[trigger] rest[k] == config[k] by {}
        if forall|k: int| 0 <= k < config.len() ==> (#[trigger] config[k]).0@ != "$amount"@ {
            assert forall|k: int| 0 <= k < rest.len() implies (#[trigger] rest[k]).0@ != "$amount"@ by {
                assert(rest[k] == config[k]);
            }
        }
        if forall|k: int| 0 <= k < config.len() ==> (#[trigger] config[k]).0@ != "$time"@ {
            assert forall|k: int| 0 <= k < rest.len() implies (#[trigger] rest[k]).0@ != "$time"@ by {
                assert(rest[k] == config[k]);
            }
        }
        let before = configured(meter, rest).metadata;
        let after = configured(meter, config).metadata;
        if 0 <= i < config.len() && config[i].0@ != "$amount"@ && config[i].0@ != "$time"@ && text_of(config[i].1) == Some(
            text,
        ) {
            let x = (config[i].0@, text);
            if i < rest.len() {
                let j = choose|j: int| 0 <= j < before.len() && before[j] == x;
                assert(after[j] == x);
            } else {
                assert(after[before.len() as int] == x);
            }
        }
    }
}

/// A spend consumes one meter for each member of its declaration, in order and under
/// its name; a text gives its amount.
pub proof fn law_consumes_declared(consumes: Doc, members: Vec<(String, Doc)>, i: int, text: String)
    requires
        consumes == Doc::Object(members),
        0 <= i < members@.len(),
    ensures
        consumes_declared(consumes).len() == members@.len(),
        consumes_declared(consumes)[i].meter == members@[i].0@,
        members@[i].1 == Doc::Text(text) ==> consumes_declared(consumes)[i].amount == text@,
{
    if let Doc::Object(config) = members@[i].1 {
        law_configured(members@[i].0@, config@, 0, Seq::empty());
    }
}

/// Whether a collection, or one nested in it, spends by a scalar member of this name.
pub open spec fn spent(shape: SpendShape, name: Seq<char>) -> bool
    decreases shape, 1int, 0int,
{
    (shape.consumes && exists|k: int|
        0 <= k < shape.members@.len() && (#[trigger] shape.members@[k]).0@ == name && shape.members@[k].1 is Scalar)
        || spent_within(shape, shape.members@.len() as int, name)
}

/// Whether a collection among the first `n` members spends by a member of this name.
pub open spec fn spent_within(shape: SpendShape, n: int, name: Seq<char>) -> bool
    decreases shape, 0int, n,
{
    if n <= 0 || n > shape.members@.len() {
        false
    } else {
        spent_within(shape, n - 1, name) || match shape.members@[n - 1].1 {
            SpendMember::Collection(nested) => spent(nested, name),
            _ => false,
        }
    }
}

proof fn lemma_joined(members: Seq<(Seq<char>, TypeView)>, name: Seq<char>, ty: TypeView, other: Seq<char>)
    ensures
        has_member(joined(members, name, ty), other) <==> has_member(members, other) || other == name,
{
    let after = joined(members, name, ty);
    if has_member(members, other) {
        let i = choose|i: int| 0 <= i < members.len() && is_named(#[trigger] members[i], other);
        assert(is_named(after[i], other));
    }
    if other == name && !has_member(members, name) {
        assert(is_named(after[members.len() as int], other));
    }
    if has_member(after, other) {
        let i = choose|i: int| 0 <= i < after.len() && is_named(#[trigger] after[i], other);
        if i < members.len() {
            assert(is_named(members[i], other));
        }
    }
}

proof fn lemma_scalars(members: Seq<(String, SpendMember)>, n: int, before: Seq<(Seq<char>, TypeView)>, name: Seq<char>)
    requires
        0 <= n <= members.len(),
    ensures
        has_member(scalars_joined(members, n, before), name) <==> has_member(before, name) || exists|k: int|
            0 <= k < n && (#[trigger] members[k]).0@ == name && members[k].1 is Scalar,
    decreases n,
{
    if n > 0 {
        lemma_scalars(members, n - 1, before, name);
        let so_far = scalars_joined(members, n - 1, before);
        if let SpendMember::Scalar(t) = members[n - 1].1 {
            lemma_joined(so_far, members[n - 1].0@, TypeView::Other(t@), name);
        }
        if exists|k: int| 0 <= k < n && (#[trigger] members[k]).0@ == name && members[k].1 is Scalar {
            let k = choose|k: int| 0 <= k < n && (#[trigger] members[k]).0@ == name && members[k].1 is Scalar;
            if k < n - 1 {
                assert(members[k].0@ == name);
            }
        }
        if exists|k: int| 0 <= k < n - 1 && (#[trigger] members[k]).0@ == name && members[k].1 is Scalar {
            let k = choose|k: int| 0 <= k < n - 1 && (#[trigger] members[k]).0@ == name && members[k].1 is Scalar;
            assert(members[k].0@ == name);
        }
        if members[n - 1].1 is Scalar && members[n - 1].0@ == name {
            assert(members[n - 1].0@ == name);
        }
    }
}

/// The row a spend is read as has the scalar members of every collection that spends, at
/// any depth, and no others.
pub proof fn law_spend_members(shape: SpendShape, before: Seq<(Seq<char>, TypeView)>, name: Seq<char>)
    ensures
        has_member(spends_joined(shape, before), name) <==> has_member(before, name) || spent(shape, name),
    decreases shape, 1int, 0int,
{
    let members = shape.members@;
    let own = if shape.consumes {
        scalars_joined(members, members.len() as int, before)
    } else {
        before
    };
    lemma_scalars(members, members.len() as int, before, name);
    lemma_nested(shape, members.len() as int, own, name);
}

proof fn lemma_nested(shape: SpendShape, n: int, before: Seq<(Seq<char>, TypeView)>, name: Seq<char>)
    requires
        0 <= n <= shape.members@.len(),
    ensures
        has_member(nested_joined(shape, n, before), name) <==> has_member(before, name) || spent_within(shape, n, name),
    decreases shape, 0int, n,
{
    if n > 0 {
        lemma_nested(shape, n - 1, before, name);
        if let SpendMember::Collection(nested) = shape.members@[n - 1].1 {
            law_spend_members(nested, nested_joined(shape, n - 1, before), name);
        }
    }
}

/// A row type with more members has those it had and the added ones, and no others; an
/// added member that is new has its own type.
pub proof fn law_all_joined(members: Seq<(Seq<char>, TypeView)>, more: Seq<(Seq<char>, TypeView)>, name: Seq<char>)
    ensures
        has_member(all_joined(members, more), name) <==> has_member(members, name) || has_member(more, name),
    decreases more.len(),
{
    if more.len() > 0 {
        let rest = more.drop_last();
        law_all_joined(members, rest, name);
        lemma_joined(all_joined(members, rest), more.last().0, more.last().1, name);
        if has_member(rest, name) {
            let i = choose|i: int| 0 <= i < rest.len() && is_named(#[trigger] rest[i], name);
            assert(is_named(more[i], name));
        }
        if has_member(more, name) {
            let i = choose|i: int| 0 <= i < more.len() && is_named(#[trigger] more[i], name);
            if i < rest.len() {
                assert(is_named(rest[i], name));
            }
        }
        assert(more[more.len() - 1] == more.last());
        if more.last().0 == name {
            assert(is_named(more[more.len() - 1], name));
        }
    }
}

/// A member of the old root is typed as the last view of its name shows it, and as
/// declared without one; a root read at a moment has no endless view.
pub proof fn law_old_member(views: Seq<(Seq<char>, TypeView)>, name: Seq<char>, n: int, i: int, ty: TypeView)
    requires
        0 <= n <= views.len(),
    ensures
        view_named(views, name, n) is None <==> forall|k: int| 0 <= k < n ==> (#[trigger] views[k]).0 != name,
        0 <= i < n && views[i].0 == name && (forall|k: int| i < k < n ==> (#[trigger] views[k]).0 != name) ==> view_named(
            views,
            name,
            n,
        ) == Some(views[i].1),
        view_named(views, name, views.len() as int) is None ==> old_member(views, name, ty) == ty,
        !(bounded(ty) matches TypeView::View { unbounded, .. } && unbounded),
        ty is Decimal || ty is Instant || ty is Other ==> bounded(ty) == ty,
    decreases n,
{
    if n > 0 {
        law_old_member(views, name, n - 1, i, ty);
        if view_named(views, name, n) is None {
            assert forall|k: int| 0 <= k < n implies (#[trigger] views[k]).0 != name by {
                if k < n - 1 {
                }
            }
        }
    }
}

/// The mapping a collection declares for a field is the field's: its source, its
/// transform and its inverse, as the last declaration of the name gives them. A name that
/// declares no mapping has none, and a nested collection is no field.
pub proof fn law_collection_fields(shape: Seq<(String, Doc)>, i: int, name: Seq<char>)
    ensures
        collection_plan(shape).fields.contains_key(name) ==> exists|k: int|
            0 <= k < shape.len() && (#[trigger] shape[k]).0@ == name && !is_directive(name) && field_plan(shape[k].1)
                is Some,
        0 <= i < shape.len() && shape[i].0@ == name && !is_directive(name) && name != "$from"@ && field_plan(shape[i].1) is Some
            && !(shape[i].1 matches Doc::Object(nested) && declares_key(nested@)) && (forall|k: int|
            i < k < shape.len() ==> (#[trigger] shape[k]).0@ != name) ==> collection_plan(shape).fields.contains_key(name)
            && collection_plan(shape).fields[name] == field_plan(shape[i].1)->0,
    decreases shape.len(),
{
    if shape.len() > 0 {
        let rest = shape.drop_last();
        law_collection_fields(rest, i, name);
        assert(shape[shape.len() - 1] == shape.last());
        if 0 <= i < rest.len() {
            assert(rest[i] == shape[i]);
        }
        assert forall|k: int| 0 <= k < rest.len() implies #[trigger] rest[k] == shape[k] by {}
        if collection_plan(rest).fields.contains_key(name) {
            let k = choose|k: int|
                0 <= k < rest.len() && (#[trigger] rest[k]).0@ == name && !is_directive(name) && field_plan(rest[k].1)
                    is Some;
            assert(shape[k].0@ == name);
        }
    }
}

/// The collection a collection comes from is what its last `$from` says.
pub proof fn law_collection_source(shape: Seq<(String, Doc)>, i: int)
    ensures
        0 <= i < shape.len() && shape[i].0@ == "$from"@ && (forall|k: int|
            i < k < shape.len() ==> (#[trigger] shape[k]).0@ != "$from"@) ==> collection_plan(shape).from == text_of(
            shape[i].1,
        ),
        (forall|k: int| 0 <= k < shape.len() ==> (#[trigger] shape[k]).0@ != "$from"@) ==> collection_plan(shape).from
            is None,
    decreases shape.len(),
{
    if shape.len() > 0 {
        let rest = shape.drop_last();
        law_collection_source(rest, i);
        assert(shape[shape.len() - 1] == shape.last());
        if 0 <= i < rest.len() {
            assert(rest[i] == shape[i]);
        }
        assert forall|k: int| 0 <= k < rest.len() implies #[trigger] rest[k] == shape[k] by {}
        if forall|k: int| 0 <= k < shape.len() ==> (#[trigger] shape[k]).0@ != "$from"@ {
            assert forall|k: int| 0 <= k < rest.len() implies (#[trigger] rest[k]).0@ != "$from"@ by {
                assert(rest[k] == shape[k]);
            }
        }
    }
}

/// A nested collection that maps something is migrated as its own declaration says.
pub proof fn law_collection_children(shape: Seq<(String, Doc)>, i: int, nested: Vec<(String, Doc)>)
    requires
        0 <= i < shape.len(),
        shape[i].1 == Doc::Object(nested),
        declares_key(nested@),
        !is_directive(shape[i].0@),
        shape[i].0@ != "$from"@,
        forall|k: int| i < k < shape.len() ==> (#[trigger] shape[k]).0@ != shape[i].0@,
        maps_something(collection_plan(nested@)),
    ensures
        collection_plan(shape).children.contains_key(shape[i].0@),
        collection_plan(shape).children[shape[i].0@] == collection_plan(nested@),
    decreases shape.len(),
{
    let rest = shape.drop_last();
    assert(shape[shape.len() - 1] == shape.last());
    if i < rest.len() {
        assert(rest[i] == shape[i]);
        assert forall|k: int| i < k < rest.len() implies (#[trigger] rest[k]).0@ != rest[i].0@ by {
            assert(rest[k] == shape[k]);
        }
        law_collection_children(rest, i, nested);
        assert(shape[shape.len() - 1].0@ != shape[i].0@);
    }
}

/// A field's mapping is the source it names, and the transform and the inverse it names;
/// what names no source is no mapping.
pub proof fn law_field_plan(members: Vec<(String, Doc)>, from: Seq<char>)
    ensures
        member_text(members@, "$from"@) == Some(from) ==> (field_plan(Doc::Object(members)) matches Some(f) && f.from == from
            && f.transform == member_text(members@, "$as"@) && f.back == member_text(members@, "$back"@)),
        member_text(members@, "$from"@) is None ==> field_plan(Doc::Object(members)) is None,
{
}

/// A model's collection that maps something is migrated as it is declared, and a root
/// member with a source takes its value from it.
pub proof fn law_model_plan(members: Seq<(String, Doc)>, i: int, shape: Vec<(String, Doc)>)
    requires
        0 <= i < members.len(),
        members[i].1 == Doc::Object(shape),
        forall|k: int| i < k < members.len() ==> (#[trigger] members[k]).0@ != members[i].0@,
    ensures
        declares_key(shape@) && maps_something(collection_plan(shape@)) ==> model_plan(members).collections.contains_key(
            members[i].0@,
        ) && model_plan(members).collections[members[i].0@] == collection_plan(shape@),
        !declares_key(shape@) && field_plan(members[i].1) is Some ==> model_plan(members).singleton_fields.contains_key(
            members[i].0@,
        ) && model_plan(members).singleton_fields[members[i].0@] == field_plan(members[i].1)->0,
    decreases members.len(),
{
    let rest = members.drop_last();
    assert(members[members.len() - 1] == members.last());
    if i < rest.len() {
        assert(rest[i] == members[i]);
        assert forall|k: int| i < k < rest.len() implies (#[trigger] rest[k]).0@ != rest[i].0@ by {
            assert(rest[k] == members[k]);
        }
        law_model_plan(rest, i, shape);
        assert(members[members.len() - 1].0@ != members[i].0@);
    }
}

/// A downgrade covers every collection that the target maps, and every one of whose
/// mappings, at any depth, the active definition gives an inverse; and no other.
pub proof fn law_downgrade_covers(target: PlanView, active: PlanView, collection: Seq<char>, child: Seq<char>)
    ensures
        downgraded(target, active).collections.contains_key(collection) <==> target.collections.contains_key(collection) || (
        active.collections.contains_key(collection) && offers_inverse(active.collections[collection])),
        active.collections.contains_key(collection) && has_inverse(active.collections[collection].fields) ==> downgraded(
            target,
            active,
        ).collections.contains_key(collection),
        active.collections.contains_key(collection) && active.collections[collection].children.contains_key(child)
            && has_inverse(active.collections[collection].children[child].fields) ==> downgraded(
            target,
            active,
        ).collections.contains_key(collection) && downgraded(target, active).collections[collection].children.contains_key(
            child,
        ),
        downgraded(target, active).singleton_fields == target.singleton_fields,
        target.collections.contains_key(collection) && !active.collections.contains_key(collection) ==> downgraded(
            target,
            active,
        ).collections[collection] == target.collections[collection],
        target.collections.contains_key(collection) ==> downgraded(target, active).collections[collection].from
            == target.collections[collection].from,
{
    reveal_with_fuel(offers_inverse, 2);
}

} // verus!
