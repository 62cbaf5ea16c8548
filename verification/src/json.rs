//! JSON documents as plain values.

use crate::table::ascending;
use crate::text::same_text;
use serde_json::Value as Document;
use vstd::prelude::*;

verus! {

/// A JSON value.
#[derive(Debug)]
pub enum Json {
    Null,
    Bool(bool),
    /// A whole number that is not negative.
    Number(u64),
    /// Any other number, as it is written.
    Numeral(String),
    Text(String),
    List(Vec<Json>),
    /// Named members.
    Object(Vec<(String, Json)>),
}

/// What a [`Json`] denotes.
#[verifier::ext_equal]
pub enum JsonView {
    Null,
    Bool(bool),
    Number(u64),
    Numeral(Seq<char>),
    Text(Seq<char>),
    List(Seq<JsonView>),
    Object(Seq<(Seq<char>, JsonView)>),
}

/// What a JSON value denotes.
pub open spec fn json_denoted(j: Json) -> JsonView
    decreases j,
{
    match j {
        Json::Null => JsonView::Null,
        Json::Bool(b) => JsonView::Bool(b),
        Json::Number(n) => JsonView::Number(n),
        Json::Numeral(t) => JsonView::Numeral(t@),
        Json::Text(t) => JsonView::Text(t@),
        Json::List(items) => JsonView::List(
            Seq::new(
                items@.len(),
                |i: int|
                    if 0 <= i < items@.len() {
                        json_denoted(items@[i])
                    } else {
                        JsonView::Null
                    },
            ),
        ),
        Json::Object(items) => JsonView::Object(
            Seq::new(
                items@.len(),
                |i: int|
                    if 0 <= i < items@.len() {
                        (items@[i].0@, json_denoted(items@[i].1))
                    } else {
                        (Seq::empty(), JsonView::Null)
                    },
            ),
        ),
    }
}

impl View for Json {
    type V = JsonView;

    open spec fn view(&self) -> JsonView {
        json_denoted(*self)
    }
}

/// What named members denote.
pub open spec fn object_view(items: Seq<(String, Json)>) -> Seq<(Seq<char>, JsonView)> {
    Seq::new(items.len(), |i: int| (items[i].0@, items[i].1@))
}

/// An object denotes what its members denote.
pub proof fn lemma_object(items: Vec<(String, Json)>)
    ensures
        Json::Object(items)@ == JsonView::Object(object_view(items@)),
{
    assert(Json::Object(items)@->Object_0 =~= object_view(items@));
}

/// The names of members.
pub open spec fn member_names(members: Seq<(Seq<char>, JsonView)>) -> Seq<Seq<char>> {
    Seq::new(members.len(), |i: int| members[i].0)
}

/// Whether a value is written so that it reads back as it is: no number but whole
/// ones, the names of every object strictly ascending, and nested at most `depth`
/// levels deep.
pub open spec fn settled(j: JsonView, depth: nat) -> bool
    decreases j,
{
    match j {
        JsonView::Numeral(_) => false,
        JsonView::List(items) => depth > 0 && forall|i: int|
            0 <= i < items.len() ==> settled(#[trigger] items[i], (depth - 1) as nat),
        JsonView::Object(members) => depth > 0 && ascending::<String>(member_names(members)) && forall|i: int|
            0 <= i < members.len() ==> settled((#[trigger] members[i]).1, (depth - 1) as nat),
        _ => true,
    }
}

/// How many levels deep a document may be nested to be read back.
pub const DEPTH: u8 = 100;

/// `serde_json::Value`, a JSON document as that crate holds it.
#[verifier::external_type_specification]
#[verifier::external_body]
pub struct ExDocument(Document);

/// What a `serde_json::Value` holds: its members in the order that crate keeps them.
pub uninterp spec fn held(document: Document) -> JsonView;

/// What `serde_json::from_slice` reads from these bytes; `None` where they are no
/// JSON document.
pub uninterp spec fn parsed_json(bytes: Seq<u8>) -> Option<JsonView>;

/// The bytes `serde_json::to_vec` writes for this document.
pub uninterp spec fn written_json(document: JsonView) -> Seq<u8>;

/// `serde_json::from_slice` into a `serde_json::Value`. What it reads is a function
/// of the bytes.
#[verifier::external_body]
fn read_document(bytes: &[u8]) -> (r: Option<Document>)
    ensures
        match r {
            Some(d) => parsed_json(bytes@) == Some(held(d)),
            None => parsed_json(bytes@) is None,
        },
{
    serde_json::from_slice::<Document>(bytes).ok()
}

/// `serde_json::to_vec` of a `serde_json::Value`. What it writes is a function of the
/// document, and a document without other than whole numbers that is not nested too
/// deep reads back as it is.
#[verifier::external_body]
fn write_document(document: &Document) -> (r: Vec<u8>)
    ensures
        r@ == written_json(held(*document)),
        settled(held(*document), DEPTH as nat) ==> parsed_json(r@) == Some(held(*document)),
{
    serde_json::to_vec(document).unwrap_or_default()
}

/// The variants of a `serde_json::Value`, each as the plain one. Its numbers that are
/// not `u64` are kept as they are written.
#[verifier::external_body]
fn from_serde(value: Document) -> (r: Json)
    ensures
        r@ == held(value),
{
    match value {
        Document::Null => Json::Null,
        Document::Bool(b) => Json::Bool(b),
        Document::Number(n) => n.as_u64().map_or_else(|| Json::Numeral(n.to_string()), Json::Number),
        Document::String(t) => Json::Text(t),
        Document::Array(items) => Json::List(items.into_iter().map(from_serde).collect()),
        Document::Object(map) => Json::Object(map.into_iter().map(|(k, v)| (k, from_serde(v))).collect()),
    }
}

/// The variants of a plain value, each as that of a `serde_json::Value`, whose objects
/// keep their members in ascending order and one of a name.
#[verifier::external_body]
fn to_serde(value: &Json) -> (r: Document)
    requires
        settled(value@, DEPTH as nat),
    ensures
        held(r) == value@,
{
    match value {
        Json::Null | Json::Numeral(_) => Document::Null,
        Json::Bool(b) => Document::Bool(*b),
        Json::Number(n) => Document::from(*n),
        Json::Text(t) => Document::String(t.clone()),
        Json::List(items) => Document::Array(items.iter().map(to_serde).collect()),
        Json::Object(items) => Document::Object(items.iter().map(|(k, v)| (k.clone(), to_serde(v))).collect()),
    }
}

/// Read a JSON document.
pub fn parse_json(bytes: &[u8]) -> (r: Option<Json>)
    ensures
        match r {
            Some(j) => parsed_json(bytes@) == Some(j@),
            None => parsed_json(bytes@) is None,
        },
{
    match read_document(bytes) {
        Some(d) => Some(from_serde(d)),
        None => None,
    }
}

/// Write a JSON document. It reads back as it is.
pub fn write_json(document: &Json) -> (r: Vec<u8>)
    requires
        settled(document@, DEPTH as nat),
    ensures
        r@ == written_json(document@),
        parsed_json(r@) == Some(document@),
{
    let d = to_serde(document);
    write_document(&d)
}

/// The member of this name; `serde_json` keeps one of a name.
pub open spec fn json_member(members: Seq<(Seq<char>, JsonView)>, name: Seq<char>) -> Option<JsonView>
    decreases members.len(),
{
    if members.len() == 0 {
        None
    } else if members[0].0 == name {
        Some(members[0].1)
    } else {
        json_member(members.drop_first(), name)
    }
}

/// The member of an object by name; other values have none.
pub open spec fn json_get(j: JsonView, name: Seq<char>) -> Option<JsonView> {
    match j {
        JsonView::Object(members) => json_member(members, name),
        _ => None,
    }
}

/// Find a member by name.
pub fn find_json<'a>(members: &'a Vec<(String, Json)>, name: &str) -> (r: Option<&'a Json>)
    ensures
        match r {
            Some(j) => json_member(object_view(members@), name@) == Some(j@),
            None => json_member(object_view(members@), name@) is None,
        },
{
    let ghost all = object_view(members@);
    let mut i: usize = 0;
    proof {
        assert(all.skip(0) =~= all);
    }
    while i < members.len()
        invariant
            all == object_view(members@),
            i <= members@.len(),
            json_member(all, name@) == json_member(all.skip(i as int), name@),
        decreases members@.len() - i,
    {
        if same_text(members[i].0.as_str(), name) {
            return Some(&members[i].1);
        }
        proof {
            assert(all.skip(i as int).drop_first() =~= all.skip(i + 1));
        }
        i = i + 1;
    }
    None
}

/// The member of an object by name.
pub fn get_json<'a>(j: &'a Json, name: &str) -> (r: Option<&'a Json>)
    ensures
        match r {
            Some(m) => json_get(j@, name@) == Some(m@),
            None => json_get(j@, name@) is None,
        },
{
    match j {
        Json::Object(members) => {
            proof {
                lemma_object(*members);
            }
            find_json(members, name)
        },
        _ => None,
    }
}

} // verus!
