//! The history index of an exported instance, and the cursor a restore takes from it.

use crate::json::{
    find_json, get_json, json_get, json_member, lemma_object, member_names, object_view, parse_json, parsed_json,
    settled, write_json, written_json, Json, JsonView, DEPTH,
};
use crate::history::ImportRelation;
use crate::lineage::{
    advanced, chain, descends, entries_of, entry_at, entry_views, link_views, point_of, relation_of, CursorView,
    EntryView, HistoryCursor, HistoryPoint, LineageEntry, Link, LinkView, PointView, GENESIS_POINT,
};
use crate::order::{Duplicate, Key};
use crate::table::{ascending, lemma_ascending_distinct, lemma_sorted_exists, sorted, Table};
use crate::text::{char_before, char_order, law_position_numeral, numeral, parse_position, position_of, render_number};
use vstd::prelude::*;

verus! {

/// The document that names a point.
pub open spec fn point_document(lineage: Seq<char>, point: Seq<char>) -> JsonView {
    JsonView::Object(seq![("lineage"@, JsonView::Text(lineage)), ("point"@, JsonView::Text(point))])
}

/// The document of where a lineage starts.
pub open spec fn origin_document(origin: Option<(Seq<char>, u64)>) -> JsonView {
    match origin {
        None => JsonView::Text("genesis"@),
        Some((parent, p)) => point_document(parent, numeral(p as nat)),
    }
}

/// The document of one lineage.
pub open spec fn entry_document(entry: EntryView) -> JsonView {
    JsonView::Object(
        seq![
            ("head"@, JsonView::Text(numeral(entry.head as nat))),
            ("origin"@, origin_document(entry.origin)),
            ("ranges"@, JsonView::Object(Seq::empty())),
        ],
    )
}

/// Lineages by name; of entries with one name, the last counts.
pub open spec fn by_lineage(entries: Seq<EntryView>) -> Map<Seq<char>, EntryView>
    decreases entries.len(),
{
    if entries.len() == 0 {
        Map::empty()
    } else {
        by_lineage(entries.drop_last()).insert(entries.last().lineage, entries.last())
    }
}

/// The documents of lineages by name, in ascending order.
pub open spec fn lineage_members(entries: Map<Seq<char>, EntryView>) -> Seq<(Seq<char>, JsonView)> {
    let names = sorted::<String>(entries.dom());
    Seq::new(names.len(), |i: int| (names[i], entry_document(entries[names[i]])))
}

/// The history index: the selected point, and the lineages the instance descends
/// through.
pub open spec fn index_document(selected: PointView, entries: Seq<EntryView>) -> JsonView {
    JsonView::Object(
        seq![
            ("format"@, JsonView::Number(1)),
            ("lineages"@, JsonView::Object(lineage_members(by_lineage(entries)))),
            ("selected"@, point_document(selected.lineage, selected.point)),
        ],
    )
}

fn named_point(lineage: &str, point: &str) -> (r: Json)
    ensures
        r@ == point_document(lineage@, point@),
{
    let mut members: Vec<(String, Json)> = Vec::new();
    members.push((String::from_str("lineage"), Json::Text(String::from_str(lineage))));
    members.push((String::from_str("point"), Json::Text(String::from_str(point))));
    proof {
        lemma_object(members);
        assert(object_view(members@) =~= point_document(lineage@, point@)->Object_0);
    }
    Json::Object(members)
}

fn lineage_document(entry: &LineageEntry) -> (r: Json)
    ensures
        r@ == entry_document(entry@),
{
    let head = render_number(entry.head as u128);
    let origin = match &entry.origin {
        None => Json::Text(String::from_str("genesis")),
        Some((parent, p)) => {
            let point = render_number(*p as u128);
            named_point(parent.as_str(), point.as_str())
        },
    };
    let nothing: Vec<(String, Json)> = Vec::new();
    proof {
        lemma_object(nothing);
        assert(object_view(nothing@) =~= Seq::empty());
    }
    let mut members: Vec<(String, Json)> = Vec::new();
    members.push((String::from_str("head"), Json::Text(head)));
    members.push((String::from_str("origin"), origin));
    members.push((String::from_str("ranges"), Json::Object(nothing)));
    proof {
        lemma_object(members);
        assert(object_view(members@) =~= entry_document(entry@)->Object_0);
    }
    Json::Object(members)
}

/// The history index of an instance.
pub fn history_index(selected: &HistoryPoint, lineages: &Vec<LineageEntry>) -> (r: Json)
    ensures
        r@ == index_document(selected@, entry_views(lineages@)),
{
    let ghost entries = entry_views(lineages@);
    let mut by_name: Table<String, &LineageEntry> = Table::new();
    let mut i: usize = 0;
    proof {
        assert(entries.take(0) =~= Seq::<EntryView>::empty());
    }
    while i < lineages.len()
        invariant
            entries == entry_views(lineages@),
            i <= lineages@.len(),
            by_name@ == by_lineage(entries.take(i as int)),
        decreases lineages@.len() - i,
    {
        proof {
            assert(entries.take(i + 1).drop_last() =~= entries.take(i as int));
            assert(entries.take(i + 1).last() == lineages@[i as int]@);
        }
        by_name.insert(lineages[i].lineage.clone(), &lineages[i]);
        i = i + 1;
    }
    proof {
        assert(entries.take(i as int) =~= entries);
    }
    let n: usize = by_name.len();
    let mut members: Vec<(String, Json)> = Vec::new();
    let mut j: usize = 0;
    while j < n
        invariant
            n == by_name.keys().len(),
            j <= n,
            members@.len() == j,
            forall|k: int|
                0 <= k < j ==> (#[trigger] members@[k]).0@ == by_name.keys()[k] && members@[k].1@
                    == entry_document(by_name@[by_name.keys()[k]]),
        decreases n - j,
    {
        members.push((by_name.key_at(j).duplicate(), lineage_document(by_name.value_at(j))));
        j = j + 1;
    }
    proof {
        lemma_object(members);
        assert(object_view(members@) =~= lineage_members(by_name@));
    }
    let chosen = named_point(selected.lineage.as_str(), selected.point.as_str());
    let mut index: Vec<(String, Json)> = Vec::new();
    index.push((String::from_str("format"), Json::Number(1)));
    index.push((String::from_str("lineages"), Json::Object(members)));
    index.push((String::from_str("selected"), chosen));
    proof {
        lemma_object(index);
        assert(object_view(index@) =~= index_document(selected@, entries)->Object_0);
    }
    Json::Object(index)
}

/// The bytes of the history index of an instance. They read back as the index.
pub fn history_index_bytes(selected: &HistoryPoint, lineages: &Vec<LineageEntry>) -> (r: Vec<u8>)
    ensures
        r@ == written_json(index_document(selected@, entry_views(lineages@))),
        parsed_json(r@) == Some(index_document(selected@, entry_views(lineages@))),
{
    let index = history_index(selected, lineages);
    proof {
        lemma_index_settled(selected@, entry_views(lineages@));
    }
    write_json(&index)
}

/// The origin a lineage's document records, where it names one.
pub open spec fn branch_origin_of(origin: JsonView) -> Option<(Seq<char>, u64)> {
    match (json_get(origin, "lineage"@), json_get(origin, "point"@)) {
        (Some(JsonView::Text(parent)), Some(JsonView::Text(point))) => match position_of(point) {
            Some(p) => Some((parent, p)),
            None => None,
        },
        _ => None,
    }
}

/// The origin of a lineage by the documents of an index.
pub open spec fn origin_in(members: Seq<(Seq<char>, JsonView)>, lineage: Seq<char>) -> Option<(Seq<char>, u64)> {
    match json_member(members, lineage) {
        Some(entry) => match json_get(entry, "origin"@) {
            Some(origin) => branch_origin_of(origin),
            None => None,
        },
        None => None,
    }
}

/// The line of descent of a lineage by the documents of an index, from the root
/// down, followed for a number of steps. Where they run out, the last lineage reached
/// is the root.
pub open spec fn descent(members: Seq<(Seq<char>, JsonView)>, lineage: Seq<char>, steps: nat) -> Seq<LinkView>
    decreases steps,
{
    if steps <= 1 {
        seq![LinkView { lineage, origin: None }]
    } else {
        match origin_in(members, lineage) {
            Some((parent, p)) => descent(members, parent, (steps - 1) as nat).push(
                LinkView { lineage, origin: Some(p) },
            ),
            None => seq![LinkView { lineage, origin: None }],
        }
    }
}

/// The documents of the lineages in an index; none where there is no index.
pub open spec fn recorded(index: Option<JsonView>) -> Seq<(Seq<char>, JsonView)> {
    match index {
        Some(document) => match json_get(document, "lineages"@) {
            Some(JsonView::Object(members)) => members,
            _ => Seq::empty(),
        },
        None => Seq::empty(),
    }
}

/// The line of descent an index gives a lineage. As many steps are followed as the
/// index records lineages, and one more.
pub open spec fn restored_chain(lineage: Seq<char>, index: Option<JsonView>) -> Seq<LinkView> {
    descent(recorded(index), lineage, recorded(index).len() + 1)
}

/// The cursor a restore takes from a selected point and an index.
pub open spec fn restored_cursor(selected: PointView, index: Option<JsonView>) -> CursorView {
    let links = restored_chain(selected.lineage, index);
    let point = match position_of(selected.point) {
        Some(p) => p,
        None => GENESIS_POINT,
    };
    CursorView {
        ancestors: links.drop_last(),
        active: links.last(),
        point,
        next: (point + 1) as u64,
        branch_pending: false,
    }
}

fn branch_origin(origin: &Json) -> (r: Option<(String, u64)>)
    ensures
        match r {
            Some((parent, p)) => branch_origin_of(origin@) == Some((parent@, p)),
            None => branch_origin_of(origin@) is None,
        },
{
    match (get_json(origin, "lineage"), get_json(origin, "point")) {
        (Some(Json::Text(parent)), Some(Json::Text(point))) => match parse_position(point.as_str()) {
            Some(p) => Some((parent.clone(), p)),
            None => None,
        },
        _ => None,
    }
}

fn find_origin(members: &Vec<(String, Json)>, lineage: &str) -> (r: Option<(String, u64)>)
    ensures
        match r {
            Some((parent, p)) => origin_in(object_view(members@), lineage@) == Some((parent@, p)),
            None => origin_in(object_view(members@), lineage@) is None,
        },
{
    match find_json(members, lineage) {
        Some(entry) => match get_json(entry, "origin") {
            Some(origin) => branch_origin(origin),
            None => None,
        },
        None => None,
    }
}

/// Follow the line of descent of a lineage.
fn follow_descent(members: &Vec<(String, Json)>, lineage: &str) -> (r: Vec<Link>)
    ensures
        link_views(r@) == descent(object_view(members@), lineage@, members@.len() + 1),
{
    let ghost all = object_view(members@);
    let n: usize = members.len();
    let mut found: Vec<Link> = Vec::new();
    let mut current = String::from_str(lineage);
    let mut left: usize = n;
    let mut more = true;
    proof {
        assert(link_views(found@).reverse() =~= Seq::<LinkView>::empty());
        let whole = descent(all, lineage@, n as nat + 1);
        assert(whole + Seq::<LinkView>::empty() =~= whole);
    }
    while more
        invariant
            all == object_view(members@),
            n == members@.len(),
            left <= n,
            more ==> descent(all, lineage@, n as nat + 1) == descent(all, current@, left as nat + 1) + link_views(
                found@,
            ).reverse(),
            !more ==> descent(all, lineage@, n as nat + 1) == link_views(found@).reverse(),
        decreases left + (if more {
            1int
        } else {
            0int
        }),
    {
        let ghost before = link_views(found@);
        let ghost rest = descent(all, current@, left as nat + 1);
        let origin = if left == 0 {
            None
        } else {
            find_origin(members, current.as_str())
        };
        match origin {
            Some((parent, p)) => {
                let ghost above = descent(all, parent@, left as nat);
                found.push(Link { lineage: current, origin: Some(p) });
                proof {
                    let last = found@.last()@;
                    assert(link_views(found@) =~= before.push(last));
                    assert(link_views(found@).reverse() =~= seq![last] + before.reverse());
                    assert(rest == above.push(last));
                    assert(above + link_views(found@).reverse() =~= rest + before.reverse());
                }
                current = parent;
                left = left - 1;
            },
            None => {
                found.push(Link { lineage: current.clone(), origin: None });
                proof {
                    let last = found@.last()@;
                    assert(link_views(found@) =~= before.push(last));
                    assert(link_views(found@).reverse() =~= seq![last] + before.reverse());
                    assert(rest =~= seq![last]);
                }
                more = false;
            },
        }
    }
    reversed(&found)
}

fn reversed(links: &Vec<Link>) -> (r: Vec<Link>)
    ensures
        link_views(r@) == link_views(links@).reverse(),
{
    let mut r: Vec<Link> = Vec::new();
    let mut i: usize = links.len();
    while i > 0
        invariant
            i <= links@.len(),
            r@.len() == links@.len() - i,
            forall|j: int| 0 <= j < r@.len() ==> (#[trigger] r@[j])@ == links@[links@.len() - 1 - j]@,
        decreases i,
    {
        i = i - 1;
        r.push(links[i].duplicate());
    }
    proof {
        assert(link_views(r@) =~= link_views(links@).reverse());
    }
    r
}

impl HistoryCursor {
    /// The cursor a restore takes from a selected point and an index that was read.
    pub fn restored_from(selected: &HistoryPoint, index: &Option<Json>) -> (r: HistoryCursor)
        requires
            position_of(selected@.point) != Some(u64::MAX),
        ensures
            r@ == restored_cursor(
                selected@,
                match *index {
                    Some(document) => Some(document@),
                    None => None,
                },
            ),
    {
        let point: u64 = match parse_position(selected.point.as_str()) {
            Some(p) => p,
            None => GENESIS_POINT,
        };
        let nothing: Vec<(String, Json)> = Vec::new();
        proof {
            assert(object_view(nothing@) =~= Seq::empty());
        }
        let members = match index {
            Some(document) => match get_json(document, "lineages") {
                Some(Json::Object(members)) => {
                    proof {
                        lemma_object(*members);
                    }
                    members
                },
                _ => &nothing,
            },
            None => &nothing,
        };
        let mut links = follow_descent(members, selected.lineage.as_str());
        let ghost all = link_views(links@);
        proof {
            lemma_rooted(object_view(members@), selected@.lineage, members@.len() + 1);
        }
        let active = match links.pop() {
            Some(link) => link,
            None => Link { lineage: selected.lineage.clone(), origin: None },
        };
        proof {
            assert(link_views(links@) =~= all.drop_last());
            assert(active@ == all.last());
        }
        HistoryCursor::on(links, active, point)
    }

    /// The cursor a restore takes from a selected point and the bytes of an index.
    /// Bytes that are no document, or that record no lineages, leave the selected
    /// lineage starting at genesis.
    pub fn restored(selected: &HistoryPoint, index: &[u8]) -> (r: HistoryCursor)
        requires
            position_of(selected@.point) != Some(u64::MAX),
        ensures
            r@ == restored_cursor(selected@, parsed_json(index@)),
    {
        let index = parse_json(index);
        HistoryCursor::restored_from(selected, &index)
    }
}

proof fn lemma_first_char(a: Seq<char>, b: Seq<char>)
    requires
        a.len() > 0,
        b.len() > 0,
        char_before(a[0], b[0]),
    ensures
        <String as Key>::before(a, b),
{
    assert(char_order()(a[0], b[0]));
}

proof fn lemma_point_settled(lineage: Seq<char>, point: Seq<char>, depth: nat)
    requires
        depth > 0,
    ensures
        settled(point_document(lineage, point), depth),
{
    reveal_strlit("lineage");
    reveal_strlit("point");
    lemma_first_char("lineage"@, "point"@);
    let members = point_document(lineage, point)->Object_0;
    assert(member_names(members) =~= seq!["lineage"@, "point"@]);
    assert(ascending::<String>(member_names(members)));
    assert(settled(members[0].1, (depth - 1) as nat));
    assert(settled(members[1].1, (depth - 1) as nat));
}

proof fn lemma_entry_settled(entry: EntryView, depth: nat)
    requires
        depth > 1,
    ensures
        settled(entry_document(entry), depth),
{
    reveal_strlit("head");
    reveal_strlit("origin");
    reveal_strlit("ranges");
    lemma_first_char("head"@, "origin"@);
    lemma_first_char("head"@, "ranges"@);
    lemma_first_char("origin"@, "ranges"@);
    let members = entry_document(entry)->Object_0;
    assert(member_names(members) =~= seq!["head"@, "origin"@, "ranges"@]);
    assert(ascending::<String>(member_names(members)));
    match entry.origin {
        Some((parent, p)) => {
            lemma_point_settled(parent, numeral(p as nat), (depth - 1) as nat);
        },
        None => {},
    }
    assert(settled(members[0].1, (depth - 1) as nat));
    assert(settled(members[1].1, (depth - 1) as nat));
    assert(settled(members[2].1, (depth - 1) as nat));
}

proof fn lemma_by_lineage(entries: Seq<EntryView>)
    ensures
        by_lineage(entries).dom().finite(),
        forall|name: Seq<char>| #[trigger]
            by_lineage(entries).contains_key(name) ==> exists|i: int|
                0 <= i < entries.len() && (#[trigger] entries[i]).lineage == name && by_lineage(entries)[name]
                    == entries[i],
        forall|i: int| 0 <= i < entries.len() ==> by_lineage(entries).contains_key((#[trigger] entries[i]).lineage),
    decreases entries.len(),
{
    if entries.len() > 0 {
        let shorter = entries.drop_last();
        lemma_by_lineage(shorter);
        assert forall|name: Seq<char>| #[trigger] by_lineage(entries).contains_key(name) implies exists|i: int|
            0 <= i < entries.len() && (#[trigger] entries[i]).lineage == name && by_lineage(entries)[name]
                == entries[i] by {
            if name == entries.last().lineage {
                assert(entries[entries.len() - 1].lineage == name);
            } else {
                assert(by_lineage(shorter).contains_key(name));
                let i = choose|i: int|
                    0 <= i < shorter.len() && (#[trigger] shorter[i]).lineage == name && by_lineage(shorter)[name]
                        == shorter[i];
                assert(entries[i] == shorter[i]);
            }
        }
        assert forall|i: int| 0 <= i < entries.len() implies by_lineage(entries).contains_key(
            (#[trigger] entries[i]).lineage,
        ) by {
            if i < shorter.len() {
                assert(entries[i] == shorter[i]);
            }
        }
    }
}

proof fn lemma_index_settled(selected: PointView, entries: Seq<EntryView>)
    ensures
        settled(index_document(selected, entries), DEPTH as nat),
{
    let by_name = by_lineage(entries);
    lemma_by_lineage(entries);
    lemma_sorted_exists::<String>(by_name.dom());
    let names = sorted::<String>(by_name.dom());
    let lineages = lineage_members(by_name);
    assert(member_names(lineages) =~= names);
    assert forall|i: int| 0 <= i < lineages.len() implies settled((#[trigger] lineages[i]).1, 98) by {
        lemma_entry_settled(by_name[names[i]], 98);
    }
    assert(settled(JsonView::Object(lineages), 99));
    lemma_point_settled(selected.lineage, selected.point, 99);
    reveal_strlit("format");
    reveal_strlit("lineages");
    reveal_strlit("selected");
    lemma_first_char("format"@, "lineages"@);
    lemma_first_char("format"@, "selected"@);
    lemma_first_char("lineages"@, "selected"@);
    let members = index_document(selected, entries)->Object_0;
    assert(member_names(members) =~= seq!["format"@, "lineages"@, "selected"@]);
    assert(ascending::<String>(member_names(members)));
    assert(settled(members[0].1, 99));
}

/// The member of a name that comes once is the one of that name.
proof fn lemma_member_at(members: Seq<(Seq<char>, JsonView)>, i: int)
    requires
        0 <= i < members.len(),
        forall|j: int| 0 <= j < i ==> (#[trigger] members[j]).0 != members[i].0,
    ensures
        json_member(members, members[i].0) == Some(members[i].1),
    decreases i,
{
    if i > 0 {
        assert(members[0].0 != members[i].0);
        let rest = members.drop_first();
        assert forall|j: int| 0 <= j < i - 1 implies (#[trigger] rest[j]).0 != rest[i - 1].0 by {
            assert(rest[j] == members[j + 1]);
        }
        lemma_member_at(rest, i - 1);
    }
}

proof fn lemma_point_origin(parent: Seq<char>, p: u64)
    ensures
        branch_origin_of(point_document(parent, numeral(p as nat))) == Some((parent, p)),
{
    reveal_strlit("lineage");
    reveal_strlit("point");
    let members = point_document(parent, numeral(p as nat))->Object_0;
    assert("lineage"@[0] != "point"@[0]);
    lemma_member_at(members, 0);
    lemma_member_at(members, 1);
    law_position_numeral(p);
}

/// An index records the origin of each lineage of a line of descent.
proof fn lemma_recorded_origin(c: CursorView, i: int)
    requires
        descends(c),
        0 <= i < chain(c).len(),
    ensures
        origin_in(lineage_members(by_lineage(entries_of(c))), chain(c)[i].lineage) == entry_at(c, i).origin,
{
    let entries = entries_of(c);
    let by_name = by_lineage(entries);
    lemma_by_lineage(entries);
    lemma_sorted_exists::<String>(by_name.dom());
    let names = sorted::<String>(by_name.dom());
    let members = lineage_members(by_name);
    let name = chain(c)[i].lineage;
    assert(entries[i].lineage == name);
    assert(by_name.contains_key(name));
    let k = choose|k: int|
        0 <= k < entries.len() && (#[trigger] entries[k]).lineage == name && by_name[name] == entries[k];
    assert(entries[k].lineage == chain(c)[k].lineage);
    assert(k == i);
    assert(names.to_set().contains(name));
    let q = choose|q: int| 0 <= q < names.len() && names[q] == name;
    assert forall|j: int| 0 <= j < q implies (#[trigger] members[j]).0 != members[q].0 by {
        if names[j] == names[q] {
            lemma_ascending_distinct::<String>(names, j, q);
        }
    }
    lemma_member_at(members, q);
    assert(json_member(members, name) == Some(entry_document(entries[i])));
    reveal_strlit("head");
    reveal_strlit("origin");
    let body = entry_document(entries[i])->Object_0;
    assert("head"@[0] != "origin"@[0]);
    lemma_member_at(body, 1);
    match entries[i].origin {
        Some((parent, p)) => {
            lemma_point_origin(parent, p);
        },
        None => {},
    }
}

proof fn lemma_descent(c: CursorView, i: int, steps: nat)
    requires
        descends(c),
        0 <= i < chain(c).len(),
        steps > i,
    ensures
        descent(lineage_members(by_lineage(entries_of(c))), chain(c)[i].lineage, steps) == chain(c).take(i + 1),
    decreases i,
{
    lemma_recorded_origin(c, i);
    if i > 0 {
        lemma_descent(c, i - 1, (steps - 1) as nat);
        assert(chain(c).take(i + 1) =~= chain(c).take(i).push(chain(c)[i]));
    } else {
        assert(chain(c).take(1) =~= seq![chain(c)[0]]);
    }
}

proof fn lemma_lineage_count(c: CursorView)
    requires
        descends(c),
    ensures
        lineage_members(by_lineage(entries_of(c))).len() >= chain(c).len(),
{
    let entries = entries_of(c);
    let by_name = by_lineage(entries);
    lemma_by_lineage(entries);
    lemma_sorted_exists::<String>(by_name.dom());
    let names = sorted::<String>(by_name.dom());
    let own = Seq::new(chain(c).len(), |i: int| chain(c)[i].lineage);
    assert(own.no_duplicates());
    own.unique_seq_to_set();
    assert(own.to_set().subset_of(names.to_set())) by {
        assert forall|name: Seq<char>| own.to_set().contains(name) implies names.to_set().contains(name) by {
            let i = choose|i: int| 0 <= i < own.len() && own[i] == name;
            assert(entries[i].lineage == name);
        }
    }
    vstd::set_lib::lemma_len_subset(own.to_set(), names.to_set());
    vstd::seq_lib::seq_to_set_is_finite(names);
    names.lemma_cardinality_of_set();
}

/// A restore from what an export wrote is at the exported point, on the exported line
/// of descent.
pub proof fn law_restore_export(c: CursorView)
    requires
        descends(c),
    ensures
        ({
            let r = restored_cursor(point_of(c), Some(index_document(point_of(c), entries_of(c))));
            &&& r.point == c.point
            &&& r.ancestors == c.ancestors
            &&& r.active == c.active
            &&& point_of(r) == point_of(c)
        }),
{
    let document = index_document(point_of(c), entries_of(c));
    let top = document->Object_0;
    reveal_strlit("format");
    reveal_strlit("lineages");
    assert("format"@[0] != "lineages"@[0]);
    lemma_member_at(top, 1);
    let members = lineage_members(by_lineage(entries_of(c)));
    assert(recorded(Some(document)) == members);
    lemma_lineage_count(c);
    lemma_descent(c, chain(c).len() - 1, members.len() + 1);
    assert(chain(c).take(chain(c).len() as int) =~= chain(c));
    assert(chain(c).drop_last() =~= c.ancestors);
    law_position_numeral(c.point);
}

/// The line of descent of a lineage ends with it, and its first lineage alone starts at
/// genesis.
proof fn lemma_rooted(members: Seq<(Seq<char>, JsonView)>, lineage: Seq<char>, steps: nat)
    ensures
        ({
            let links = descent(members, lineage, steps);
            &&& links.len() > 0
            &&& links.last().lineage == lineage
            &&& forall|i: int| 0 <= i < links.len() ==> ((#[trigger] links[i]).origin is None <==> i == 0)
        }),
    decreases steps,
{
    if steps > 1 {
        if let Some((parent, _)) = origin_in(members, lineage) {
            lemma_rooted(members, parent, (steps - 1) as nat);
        }
    }
}

/// Whatever an index records, a restore is at the selected point of the selected
/// lineage, on a line of descent whose first lineage alone starts at genesis. The next
/// commit continues that lineage: the restored instance sees it as a continuation, and
/// it sees the selected point as a rollback target.
pub proof fn law_restored(selected: PointView, index: Option<JsonView>)
    requires
        position_of(selected.point) matches Some(p) ==> p + 1 < u64::MAX,
    ensures
        ({
            let c = restored_cursor(selected, index);
            let d = advanced(c);
            &&& c.active.lineage == selected.lineage
            &&& position_of(selected.point) is Some ==> relation_of(c, selected) == ImportRelation::SamePoint
            &&& forall|i: int| 0 <= i < chain(c).len() ==> ((#[trigger] chain(c)[i]).origin is None <==> i == 0)
            &&& d.active == c.active
            &&& d.ancestors == c.ancestors
            &&& d.point == c.point + 1
            &&& relation_of(c, point_of(d)) == ImportRelation::FastForward
            &&& relation_of(d, point_of(c)) == ImportRelation::Rollback
        }),
{
    let c = restored_cursor(selected, index);
    let links = restored_chain(selected.lineage, index);
    lemma_rooted(recorded(index), selected.lineage, recorded(index).len() + 1);
    assert(chain(c) =~= links);
    law_position_numeral(c.point);
    law_position_numeral(advanced(c).point);
}

} // verus!
