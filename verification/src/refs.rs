//! Keys and references as values: the identity a row shows, and the references
//! that carry it.

use crate::address::KeyValue;
use crate::rejection::{outcome, refused, Rejection, RejectionReason, RejectionView};
use crate::text::{concat3, same_text, texts};
use crate::value::{copy_value, copy_values, lemma_denoted, member_views, same_value, views, Value, ValueView};
use vstd::prelude::*;

verus! {

/// The identity a row with these key components shows: the lone component of a
/// single-field key, or the components in key order.
pub open spec fn identity(names: nat, components: Seq<ValueView>) -> ValueView {
    if names == 1 {
        if components.len() > 0 {
            components[0]
        } else {
            ValueView::Absent
        }
    } else {
        ValueView::Composite(components)
    }
}

/// The identity of a row from its key.
pub fn key_identity(key_fields: &Vec<String>, key: &KeyValue) -> (r: Value)
    ensures
        r@ == identity(key_fields@.len(), key@),
{
    let components = key.components();
    let r = if key_fields.len() == 1 {
        copy_value(&components[0])
    } else {
        Value::Composite(copy_values(components))
    };
    proof {
        lemma_denoted(r);
    }
    r
}

/// The key components an identity stands for.
pub open spec fn components_of(identity: ValueView) -> Seq<ValueView> {
    match identity {
        ValueView::Composite(components) if components.len() > 0 => components,
        _ => seq![identity],
    }
}

/// The key that addresses the row showing this identity.
pub fn key_value_of(key: &Value) -> (r: KeyValue)
    ensures
        r@ == components_of(key@),
{
    proof {
        lemma_denoted(*key);
    }
    match key {
        Value::Composite(components) => {
            match KeyValue::of_components(copy_values(components)) {
                Some(k) => k,
                None => KeyValue::single(copy_value(key)),
            }
        },
        _ => KeyValue::single(copy_value(key)),
    }
}

/// The key an identity stands for is the key the identity was made from. A lone
/// component that is itself a row of components is not told apart from them, so
/// a single-field key must not be one.
pub proof fn law_key_identity(names: nat, key: Seq<ValueView>)
    requires
        key.len() > 0,
        names == 1 ==> key.len() == 1 && !(key[0] is Composite),
    ensures
        components_of(identity(names, key)) == key,
{
    assert(names == 1 ==> key =~= seq![key[0]]);
}

/// The first member of a struct with this name.
pub open spec fn member_named(members: Seq<(Seq<char>, ValueView)>, name: Seq<char>) -> Option<ValueView>
    decreases members.len(),
{
    if members.len() == 0 {
        None
    } else if members[0].0 == name {
        Some(members[0].1)
    } else {
        member_named(members.drop_first(), name)
    }
}

/// Read a member of a struct by name.
pub fn find_member<'a>(members: &'a Vec<(String, Value)>, name: &str) -> (r: Option<&'a Value>)
    ensures
        match r {
            Some(v) => member_named(member_views(members@), name@) == Some(v@),
            None => member_named(member_views(members@), name@) is None,
        },
{
    let mut i: usize = 0;
    proof {
        assert(member_views(members@).skip(0) =~= member_views(members@));
    }
    while i < members.len()
        invariant
            i <= members@.len(),
            member_named(member_views(members@), name@) == member_named(
                member_views(members@).skip(i as int),
                name@,
            ),
        decreases members@.len() - i,
    {
        if same_text(members[i].0.as_str(), name) {
            return Some(&members[i].1);
        }
        proof {
            assert(member_views(members@).skip(i as int).drop_first() =~= member_views(members@).skip(i + 1));
        }
        i = i + 1;
    }
    None
}

/// Whether a struct holds a member for every name.
pub open spec fn holds_all(names: Seq<Seq<char>>, members: Seq<(Seq<char>, ValueView)>) -> bool {
    forall|i: int| 0 <= i < names.len() ==> member_named(members, #[trigger] names[i]) is Some
}

/// The members of a struct under these names, in order.
pub open spec fn picked(names: Seq<Seq<char>>, members: Seq<(Seq<char>, ValueView)>) -> Seq<ValueView> {
    Seq::new(names.len(), |i: int| member_named(members, names[i])->0)
}

/// The first name no member of the struct has.
pub open spec fn first_missing(names: Seq<Seq<char>>, members: Seq<(Seq<char>, ValueView)>) -> Seq<char>
    decreases names.len(),
{
    if names.len() == 0 {
        Seq::empty()
    } else if member_named(members, names[0]) is None {
        names[0]
    } else {
        first_missing(names.drop_first(), members)
    }
}

/// Pick the members under these names, in order, or the first name that is missing.
pub fn pick_members(names: &Vec<String>, members: &Vec<(String, Value)>) -> (r: Result<Vec<Value>, String>)
    ensures
        match r {
            Ok(values) => holds_all(texts(names@), member_views(members@)) && views(values@) == picked(
                texts(names@),
                member_views(members@),
            ),
            Err(name) => !holds_all(texts(names@), member_views(members@)) && name@ == first_missing(
                texts(names@),
                member_views(members@),
            ),
        },
{
    let ghost all = texts(names@);
    let ghost held = member_views(members@);
    let mut r: Vec<Value> = Vec::new();
    let mut i: usize = 0;
    proof {
        assert(all.skip(0) =~= all);
    }
    while i < names.len()
        invariant
            all == texts(names@),
            held == member_views(members@),
            i <= names@.len(),
            r@.len() == i,
            forall|j: int| 0 <= j < i ==> member_named(held, #[trigger] all[j]) == Some(r@[j]@),
            first_missing(all, held) == first_missing(all.skip(i as int), held),
        decreases names@.len() - i,
    {
        proof {
            assert(all.skip(i as int)[0] == all[i as int]);
            assert(all.skip(i as int).drop_first() =~= all.skip(i + 1));
        }
        match find_member(members, names[i].as_str()) {
            Some(v) => {
                r.push(copy_value(v));
            },
            None => {
                proof {
                    assert(member_named(held, all[i as int]) is None);
                }
                return Err(names[i].clone());
            },
        }
        i = i + 1;
    }
    proof {
        assert(views(r@) =~= picked(all, held)) by {
            assert forall|j: int| 0 <= j < r@.len() implies views(r@)[j] == picked(all, held)[j] by {
                assert(member_named(held, all[j]) == Some(r@[j]@));
            }
        }
    }
    Ok(r)
}

/// The identity an authored key operand stands for. A struct given for a key of
/// several fields must name exactly those fields.
pub open spec fn normalized(
    key_fields: Seq<Seq<char>>,
    value: ValueView,
) -> Result<ValueView, RejectionView> {
    if key_fields.len() == 1 {
        Ok(value)
    } else {
        match value {
            ValueView::Struct(members) => if !holds_all(key_fields, members) {
                Err(
                    refused(
                        RejectionReason::Malformed,
                        "composite delete operand is missing `$key` component `"@ + first_missing(key_fields, members)
                            + "`"@,
                    ),
                )
            } else if members.len() != key_fields.len() {
                Err(
                    refused(
                        RejectionReason::Malformed,
                        "composite delete operand carries a field that is not a `$key` component"@,
                    ),
                )
            } else {
                Ok(ValueView::Composite(picked(key_fields, members)))
            },
            _ => Ok(value),
        }
    }
}

/// Bring an authored key operand to the identity a row shows.
pub fn normalize_key_operand(key_fields: &Vec<String>, value: Value) -> (r: Result<Value, Rejection>)
    ensures
        outcome(r) == normalized(texts(key_fields@), value@),
{
    if key_fields.len() == 1 {
        return Ok(value);
    }
    proof {
        lemma_denoted(value);
    }
    match value {
        Value::Struct(members) => {
            match pick_members(key_fields, &members) {
                Err(name) => Err(
                    Rejection::new(
                        RejectionReason::Malformed,
                        concat3("composite delete operand is missing `$key` component `", name.as_str(), "`").as_str(),
                    ),
                ),
                Ok(components) => if members.len() != key_fields.len() {
                    Err(
                        Rejection::new(
                            RejectionReason::Malformed,
                            "composite delete operand carries a field that is not a `$key` component",
                        ),
                    )
                } else {
                    let r = Value::Composite(components);
                    proof {
                        lemma_denoted(r);
                    }
                    Ok(r)
                },
            }
        },
        other => Ok(other),
    }
}

/// The identity a reference carries: a struct that names every key field stands
/// for its components in key order.
pub open spec fn carried(names: Seq<Seq<char>>, key: ValueView) -> ValueView {
    match key {
        ValueView::Struct(members) if names.len() != 1 && holds_all(names, members) => ValueView::Composite(
            picked(names, members),
        ),
        _ => key,
    }
}

/// The identity a reference with this key carries.
pub fn ref_identity(names: &Vec<String>, key: &Value) -> (r: Value)
    ensures
        r@ == carried(texts(names@), key@),
{
    proof {
        lemma_denoted(*key);
    }
    if let Value::Struct(members) = key {
        if names.len() != 1 {
            if let Ok(components) = pick_members(names, members) {
                let r = Value::Composite(components);
                proof {
                    lemma_denoted(r);
                }
                return r;
            }
        }
    }
    copy_value(key)
}

/// What a value becomes when the row it may reference moves from the identity
/// `before` to the identity `after`: a reference keeps being a reference, and a
/// bare key stays a bare key. A value that does not reference the row is `None`.
pub open spec fn redirected(
    value: ValueView,
    names: Seq<Seq<char>>,
    before: ValueView,
    after: ValueView,
) -> Option<ValueView> {
    if value is Ref && carried(names, *value->Ref_0) == before {
        Some(ValueView::Ref(Box::new(after)))
    } else if value == before {
        Some(after)
    } else {
        None
    }
}

/// Redirect a value that references a moved row.
pub fn rewrite_ref_value(value: &Value, names: &Vec<String>, before: &Value, after: &Value) -> (r: Option<Value>)
    ensures
        match r {
            Some(v) => redirected(value@, texts(names@), before@, after@) == Some(v@),
            None => redirected(value@, texts(names@), before@, after@) is None,
        },
{
    if let Value::Ref(key) = value {
        if same_value(&ref_identity(names, key), before) {
            return Some(Value::Ref(Box::new(copy_value(after))));
        }
    }
    if same_value(value, before) {
        Some(copy_value(after))
    } else {
        None
    }
}

/// A redirected reference carries the new identity, whatever form it had.
pub proof fn law_redirected(value: ValueView, names: Seq<Seq<char>>, before: ValueView, after: ValueView)
    requires
        !(after is Struct),
    ensures
        redirected(value, names, before, after) matches Some(v) ==> (v is Ref ==> carried(names, *v->Ref_0) == after)
            || v == after,
        value is Ref && carried(names, *value->Ref_0) == before ==> redirected(value, names, before, after) is Some,
{
}

} // verus!
