//! The last passes over migrated rows: bringing values to their declared types, and
//! moving rows whose keys that changed.

use crate::address::{names_of, CollectionPath, RowAddress, StepView};
use crate::inbound::Move;
use crate::model::{Compiled, CompiledCollection, CompiledField, CompiledStruct};
use crate::order::Duplicate;
use crate::program::{key_in, key_of};
use crate::redirects::{move_views, moved_between, redirect, redirect_all, settled_refs, Redirect};
use crate::rejection::{refused, refused_at, Rejection, RejectionReason, RejectionView};
use crate::state::{address_views, Fields, FieldsView, Prospective, StateView};
use crate::table::{ascending, lemma_ascending_distinct, sorted, Table};
use crate::text::{concat3, concat4, texts};
use crate::value::{copy_value, is_absent, Value, ValueView};
use vstd::prelude::*;

verus! {

/// What a row's values came to when they were read as their declared types: one
/// outcome per field, and one per static struct that declares a type. A failure
/// says why.
pub struct DecodedRow {
    pub fields: Vec<Result<Value, String>>,
    pub structs: Vec<Option<Result<Value, String>>>,
}

/// What reading a value as its declared type came to.
pub open spec fn reading(r: Result<Value, String>) -> Result<ValueView, Seq<char>> {
    match r {
        Ok(v) => Ok(v@),
        Err(m) => Err(m@),
    }
}

/// Whether a row has a value under a name.
pub open spec fn has_value(row: FieldsView, name: Seq<char>) -> bool {
    row.contains_key(name) && !(row[name] is Absent)
}

/// A row after one of its fields has been brought to its declared type. A single
/// reference given as a bare key becomes a reference; a set of references stays; any
/// other value must be representable, and a required one must be there.
pub open spec fn field_coerced(
    field: CompiledField,
    read: Result<ValueView, Seq<char>>,
    row: FieldsView,
    at: Seq<StepView>,
) -> Result<FieldsView, RejectionView> {
    let name = field.name@;
    if field.reference is Some {
        if has_value(row, name) && !(row[name] is Ref) {
            match read {
                Ok(v) => Ok(row.insert(name, v)),
                Err(m) => Err(
                    refused_at(RejectionReason::TypeError, "migrated ref `"@ + name + "`: "@ + m, at),
                ),
            }
        } else {
            Ok(row)
        }
    } else if field.element_reference is Some {
        Ok(row)
    } else {
        let typed = if has_value(row, name) {
            match read {
                Ok(v) => Ok(row.insert(name, v)),
                Err(m) => Err(
                    refused_at(
                        RejectionReason::TypeError,
                        "migrated field `"@ + name + "` is not representable in its target type: "@ + m,
                        at,
                    ),
                ),
            }
        } else {
            Ok(row)
        };
        match typed {
            Err(e) => Err(e),
            Ok(r) => if field.required && !has_value(r, name) {
                Err(
                    refused_at(
                        RejectionReason::Check,
                        "migration left required field `"@ + name + "` unpopulated"@,
                        at,
                    ),
                )
            } else {
                Ok(r)
            },
        }
    }
}

/// A row after the first `n` of its fields have been brought to their types.
pub open spec fn fields_coerced(
    fields: Seq<CompiledField>,
    read: Seq<Result<Value, String>>,
    row: FieldsView,
    at: Seq<StepView>,
    n: int,
) -> Result<FieldsView, RejectionView>
    decreases n,
{
    if n <= 0 {
        Ok(row)
    } else {
        match fields_coerced(fields, read, row, at, n - 1) {
            Err(e) => Err(e),
            Ok(r) => field_coerced(fields[n - 1], reading(read[n - 1]), r, at),
        }
    }
}

/// A row after one of its static structs has been brought to its declared type.
pub open spec fn struct_coerced(
    meta: CompiledStruct,
    read: Option<Result<Value, String>>,
    row: FieldsView,
    at: Seq<StepView>,
) -> Result<FieldsView, RejectionView> {
    match read {
        Some(r) if has_value(row, meta.name@) => match reading(r) {
            Ok(v) => Ok(row.insert(meta.name@, v)),
            Err(m) => Err(
                refused_at(
                    RejectionReason::TypeError,
                    "migrated struct `"@ + meta.name@ + "` is not representable in its target type: "@ + m,
                    at,
                ),
            ),
        },
        _ => Ok(row),
    }
}

/// A row after the first `n` of its static structs have been brought to their types.
pub open spec fn structs_coerced(
    structs: Seq<CompiledStruct>,
    read: Seq<Option<Result<Value, String>>>,
    row: FieldsView,
    at: Seq<StepView>,
    n: int,
) -> Result<FieldsView, RejectionView>
    decreases n,
{
    if n <= 0 {
        Ok(row)
    } else {
        match structs_coerced(structs, read, row, at, n - 1) {
            Err(e) => Err(e),
            Ok(r) => struct_coerced(structs[n - 1], read[n - 1], r, at),
        }
    }
}

/// A row of a collection after all its values have been brought to their types.
pub open spec fn row_coerced(
    c: CompiledCollection,
    decoded: DecodedRow,
    row: FieldsView,
    at: Seq<StepView>,
) -> Result<FieldsView, RejectionView> {
    match fields_coerced(c.fields@, decoded.fields@, row, at, c.fields@.len() as int) {
        Err(e) => Err(e),
        Ok(r) => structs_coerced(c.structs@, decoded.structs@, r, at, c.structs@.len() as int),
    }
}

/// A state after the row at an address has been brought to its declared types. A
/// row that is not there, or that no collection declares, stays.
pub open spec fn coerced(
    compiled: Compiled,
    state: StateView,
    at: Seq<StepView>,
    decoded: DecodedRow,
) -> Result<StateView, RejectionView> {
    match compiled.at(names_of(at)) {
        None => Ok(state),
        Some(c) => if state.contains_key(at) {
            match row_coerced(c, decoded, state[at], at) {
                Err(e) => Err(e),
                Ok(row) => Ok(state.insert(at, row)),
            }
        } else {
            Ok(state)
        },
    }
}

/// Whether there is an outcome for each field and each static struct of a row.
pub open spec fn covers(compiled: Compiled, at: Seq<StepView>, decoded: DecodedRow) -> bool {
    match compiled.at(names_of(at)) {
        None => true,
        Some(c) => decoded.fields@.len() == c.fields@.len() && decoded.structs@.len() == c.structs@.len(),
    }
}

proof fn lemma_fields_refusal(
    fields: Seq<CompiledField>,
    read: Seq<Result<Value, String>>,
    row: FieldsView,
    at: Seq<StepView>,
    n: int,
    m: int,
)
    requires
        0 <= n <= m,
        fields_coerced(fields, read, row, at, n) is Err,
    ensures
        fields_coerced(fields, read, row, at, m) == fields_coerced(fields, read, row, at, n),
    decreases m - n,
{
    if n < m {
        lemma_fields_refusal(fields, read, row, at, n, m - 1);
    }
}

proof fn lemma_structs_refusal(
    structs: Seq<CompiledStruct>,
    read: Seq<Option<Result<Value, String>>>,
    row: FieldsView,
    at: Seq<StepView>,
    n: int,
    m: int,
)
    requires
        0 <= n <= m,
        structs_coerced(structs, read, row, at, n) is Err,
    ensures
        structs_coerced(structs, read, row, at, m) == structs_coerced(structs, read, row, at, n),
    decreases m - n,
{
    if n < m {
        lemma_structs_refusal(structs, read, row, at, n, m - 1);
    }
}

fn present(fields: &Fields, name: &String) -> (r: bool)
    ensures
        r == has_value(fields@, name@),
{
    match fields.get(name) {
        Some(v) => !is_absent(v),
        None => false,
    }
}

fn present_bare(fields: &Fields, name: &String) -> (r: bool)
    ensures
        r == (has_value(fields@, name@) && !(fields@[name@] is Ref)),
{
    match fields.get(name) {
        Some(Value::Ref(_)) => false,
        Some(v) => !is_absent(v),
        None => false,
    }
}

fn coerce_field(
    field: &CompiledField,
    read: &Result<Value, String>,
    fields: &mut Fields,
    at: &RowAddress,
) -> (r: Result<(), Rejection>)
    ensures
        match (r, field_coerced(*field, reading(*read), old(fields)@, at@)) {
            (Ok(_), Ok(row)) => final(fields)@ == row,
            (Err(e), Err(x)) => e@ == x,
            _ => false,
        },
{
    if field.reference.is_some() {
        if present_bare(fields, &field.name) {
            match read {
                Ok(v) => fields.insert(field.name.clone(), copy_value(v)),
                Err(m) => {
                    return Err(
                        Rejection::at(
                            RejectionReason::TypeError,
                            concat4("migrated ref `", field.name.as_str(), "`: ", m.as_str()).as_str(),
                            at,
                        ),
                    );
                },
            }
        }
        return Ok(());
    }
    if field.element_reference.is_some() {
        return Ok(());
    }
    if present(fields, &field.name) {
        match read {
            Ok(v) => fields.insert(field.name.clone(), copy_value(v)),
            Err(m) => {
                return Err(
                    Rejection::at(
                        RejectionReason::TypeError,
                        concat4(
                            "migrated field `",
                            field.name.as_str(),
                            "` is not representable in its target type: ",
                            m.as_str(),
                        ).as_str(),
                        at,
                    ),
                );
            },
        }
    }
    if field.required && !present(fields, &field.name) {
        return Err(
            Rejection::at(
                RejectionReason::Check,
                concat3("migration left required field `", field.name.as_str(), "` unpopulated").as_str(),
                at,
            ),
        );
    }
    Ok(())
}

fn coerce_struct(
    meta: &CompiledStruct,
    read: &Option<Result<Value, String>>,
    fields: &mut Fields,
    at: &RowAddress,
) -> (r: Result<(), Rejection>)
    ensures
        match (r, struct_coerced(*meta, *read, old(fields)@, at@)) {
            (Ok(_), Ok(row)) => final(fields)@ == row,
            (Err(e), Err(x)) => e@ == x,
            _ => false,
        },
{
    if let Some(read) = read {
        if present(fields, &meta.name) {
            match read {
                Ok(v) => fields.insert(meta.name.clone(), copy_value(v)),
                Err(m) => {
                    return Err(
                        Rejection::at(
                            RejectionReason::TypeError,
                            concat4(
                                "migrated struct `",
                                meta.name.as_str(),
                                "` is not representable in its target type: ",
                                m.as_str(),
                            ).as_str(),
                            at,
                        ),
                    );
                },
            }
        }
    }
    Ok(())
}

/// Bring the values of a migrated row to their declared types, and require those a
/// row must have. A refused row changes nothing.
pub fn coerce_and_require(
    compiled: &Compiled,
    prospective: &mut Prospective,
    at: &RowAddress,
    decoded: &DecodedRow,
) -> (r: Result<(), Rejection>)
    requires
        covers(*compiled, at@, *decoded),
    ensures
        match (r, coerced(*compiled, old(prospective)@, at@, *decoded)) {
            (Ok(_), Ok(state)) => final(prospective)@ == state,
            (Err(e), Err(x)) => e@ == x && final(prospective)@ == old(prospective)@,
            _ => false,
        },
        final(prospective).drawn() == old(prospective).drawn(),
{
    let declaration = at.declaration();
    let c = match compiled.collection_at(&declaration) {
        Some(c) => c,
        None => {
            return Ok(());
        },
    };
    let mut fields = match prospective.get(at) {
        Some(existing) => existing.duplicate(),
        None => {
            return Ok(());
        },
    };
    let ghost start = fields@;
    let mut i: usize = 0;
    while i < c.fields.len()
        invariant
            i <= c.fields@.len(),
            decoded.fields@.len() == c.fields@.len(),
            compiled.at(names_of(at@)) == Some(*c),
            prospective@ == old(prospective)@,
            prospective.drawn() == old(prospective).drawn(),
            prospective@.contains_key(at@),
            start == prospective@[at@],
            fields_coerced(c.fields@, decoded.fields@, start, at@, i as int) == Ok::<FieldsView, RejectionView>(fields@),
        decreases c.fields@.len() - i,
    {
        if let Err(e) = coerce_field(&c.fields[i], &decoded.fields[i], &mut fields, at) {
            proof {
                lemma_fields_refusal(c.fields@, decoded.fields@, start, at@, i + 1, c.fields@.len() as int);
            }
            return Err(e);
        }
        i = i + 1;
    }
    let ghost typed = fields@;
    let mut j: usize = 0;
    while j < c.structs.len()
        invariant
            j <= c.structs@.len(),
            decoded.structs@.len() == c.structs@.len(),
            compiled.at(names_of(at@)) == Some(*c),
            prospective@ == old(prospective)@,
            prospective.drawn() == old(prospective).drawn(),
            prospective@.contains_key(at@),
            start == prospective@[at@],
            fields_coerced(c.fields@, decoded.fields@, start, at@, c.fields@.len() as int) == Ok::<
                FieldsView,
                RejectionView,
            >(typed),
            structs_coerced(c.structs@, decoded.structs@, typed, at@, j as int) == Ok::<FieldsView, RejectionView>(
                fields@,
            ),
        decreases c.structs@.len() - j,
    {
        if let Err(e) = coerce_struct(&c.structs[j], &decoded.structs[j], &mut fields, at) {
            proof {
                lemma_structs_refusal(c.structs@, decoded.structs@, typed, at@, j + 1, c.structs@.len() as int);
            }
            return Err(e);
        }
        j = j + 1;
    }
    prospective.replace(at, fields);
    Ok(())
}

/// A coerced row holds a value in every required field that is no reference.
pub proof fn law_required_populated(
    c: CompiledCollection,
    decoded: DecodedRow,
    row: FieldsView,
    at: Seq<StepView>,
    i: int,
)
    requires
        0 <= i < c.fields@.len(),
        c.fields@[i].required,
        c.fields@[i].reference is None,
        c.fields@[i].element_reference is None,
        forall|j: int|
            0 <= j < c.fields@.len() && j != i ==> (#[trigger] c.fields@[j]).name@ != c.fields@[i].name@,
        fields_coerced(c.fields@, decoded.fields@, row, at, c.fields@.len() as int) is Ok,
    ensures
        has_value(
            fields_coerced(c.fields@, decoded.fields@, row, at, c.fields@.len() as int)->Ok_0,
            c.fields@[i].name@,
        ),
{
    lemma_required_upto(c, decoded, row, at, i, c.fields@.len() as int);
}

proof fn lemma_required_upto(
    c: CompiledCollection,
    decoded: DecodedRow,
    row: FieldsView,
    at: Seq<StepView>,
    i: int,
    n: int,
)
    requires
        0 <= i < n <= c.fields@.len(),
        c.fields@[i].required,
        c.fields@[i].reference is None,
        c.fields@[i].element_reference is None,
        forall|j: int|
            0 <= j < c.fields@.len() && j != i ==> (#[trigger] c.fields@[j]).name@ != c.fields@[i].name@,
        fields_coerced(c.fields@, decoded.fields@, row, at, n) is Ok,
    ensures
        has_value(fields_coerced(c.fields@, decoded.fields@, row, at, n)->Ok_0, c.fields@[i].name@),
    decreases n,
{
    if n - 1 > i {
        lemma_required_upto(c, decoded, row, at, i, n - 1);
        assert(c.fields@[n - 1].name@ != c.fields@[i].name@);
    }
}

/// Whether a row takes part in a move: a collection with a key declares it, and the
/// state holds it.
pub open spec fn keyed_row(compiled: Compiled, state: StateView, at: Seq<StepView>) -> bool {
    match compiled.at(names_of(at)) {
        Some(c) => c.key@.len() > 0 && state.contains_key(at),
        None => false,
    }
}

/// The key a row's fields give it.
pub open spec fn own_key(compiled: Compiled, state: StateView, at: Seq<StepView>) -> Option<Seq<ValueView>> {
    match compiled.at(names_of(at)) {
        Some(c) => key_in(texts(c.key@), state[at]),
        None => None,
    }
}

/// The address a row belongs at: under the address its parent belongs at, by the key
/// its own fields give it. A row that takes no part stays where it is.
pub open spec fn destination(
    compiled: Compiled,
    state: StateView,
    listed: Seq<Seq<StepView>>,
    at: Seq<StepView>,
) -> Seq<StepView>
    decreases at.len(),
{
    if at.len() == 0 || !listed.contains(at) || !keyed_row(compiled, state, at) {
        at
    } else {
        match own_key(compiled, state, at) {
            Some(key) => destination(compiled, state, listed, at.drop_last()).push(
                StepView { name: at.last().name, key },
            ),
            None => at,
        }
    }
}

/// Whether some listed row that takes part has no key.
pub open spec fn some_keyless(compiled: Compiled, state: StateView, listed: Seq<Seq<StepView>>) -> bool {
    exists|i: int|
        0 <= i < listed.len() && keyed_row(compiled, state, #[trigger] listed[i]) && own_key(
            compiled,
            state,
            listed[i],
        ) is None
}

/// The rows that move, and where to.
pub open spec fn relocations(compiled: Compiled, state: StateView, listed: Seq<Seq<StepView>>) -> Map<
    Seq<StepView>,
    Seq<StepView>,
> {
    Map::new(
        |a: Seq<StepView>| listed.contains(a) && destination(compiled, state, listed, a) != a,
        |a: Seq<StepView>| destination(compiled, state, listed, a),
    )
}

/// A state with moving rows put where they go, in order, or the first address that
/// is held already.
pub open spec fn put_back(
    state: StateView,
    from: StateView,
    moves: Map<Seq<StepView>, Seq<StepView>>,
    order: Seq<Seq<StepView>>,
) -> Result<StateView, Seq<StepView>>
    decreases order.len(),
{
    if order.len() == 0 {
        Ok(state)
    } else {
        match put_back(state, from, moves, order.drop_last()) {
            Err(held) => Err(held),
            Ok(s) => if s.contains_key(moves[order.last()]) {
                Err(moves[order.last()])
            } else {
                Ok(s.insert(moves[order.last()], from[order.last()]))
            },
        }
    }
}

/// The moves of rows, in order.
pub open spec fn moves_between(
    compiled: Compiled,
    moves: Map<Seq<StepView>, Seq<StepView>>,
    order: Seq<Seq<StepView>>,
) -> Seq<Move> {
    Seq::new(order.len(), |i: int| moved_between(compiled, order[i], moves[order[i]]))
}

/// The rows that move, in ascending order of where they were.
pub open spec fn move_order(moves: Map<Seq<StepView>, Seq<StepView>>) -> Seq<Seq<StepView>> {
    sorted::<RowAddress>(moves.dom())
}

/// A state after every listed row stands where its own key puts it: the moving rows
/// are taken out together, put back where they go, and every reference to one of them,
/// at any depth, is redirected once, by all moves together.
pub open spec fn rekeyed(
    compiled: Compiled,
    state: StateView,
    listed: Seq<Seq<StepView>>,
) -> Result<StateView, RejectionView> {
    if some_keyless(compiled, state, listed) {
        Err(refused(RejectionReason::Malformed, "migrated row is missing a key field"@))
    } else {
        let moves = relocations(compiled, state, listed);
        match put_back(state.remove_keys(moves.dom()), state, moves, move_order(moves)) {
            Err(held) => Err(
                refused_at(
                    RejectionReason::DuplicateKey,
                    "migration rekeyed a row onto a key already held by another row"@,
                    held,
                ),
            ),
            Ok(s) => Ok(settled_refs(compiled, s, moves_between(compiled, moves, move_order(moves)))),
        }
    }
}

/// The listed addresses, each where its row has gone.
pub open spec fn destinations(compiled: Compiled, state: StateView, listed: Seq<Seq<StepView>>) -> Seq<Seq<StepView>> {
    Seq::new(listed.len(), |i: int| destination(compiled, state, listed, listed[i]))
}

proof fn lemma_put_refusal(
    state: StateView,
    from: StateView,
    moves: Map<Seq<StepView>, Seq<StepView>>,
    order: Seq<Seq<StepView>>,
    n: int,
)
    requires
        0 <= n <= order.len(),
        put_back(state, from, moves, order.take(n)) is Err,
    ensures
        put_back(state, from, moves, order) == put_back(state, from, moves, order.take(n)),
    decreases order.len() - n,
{
    if n == order.len() {
        assert(order.take(n) =~= order);
    } else {
        assert(order.take(n + 1).drop_last() =~= order.take(n));
        lemma_put_refusal(state, from, moves, order, n + 1);
    }
}

/// The deepest listed address.
fn deepest(addresses: &Vec<RowAddress>) -> (r: usize)
    ensures
        forall|i: int| 0 <= i < addresses@.len() ==> (#[trigger] addresses@[i])@.len() <= r,
{
    let mut r: usize = 0;
    let mut i: usize = 0;
    while i < addresses.len()
        invariant
            i <= addresses@.len(),
            forall|j: int| 0 <= j < i ==> (#[trigger] addresses@[j])@.len() <= r,
        decreases addresses@.len() - i,
    {
        let d: usize = addresses[i].depth();
        if d > r {
            r = d;
        }
        i = i + 1;
    }
    r
}

/// Where the rows of one depth belong, once those above them are known.
fn relocate_level(
    compiled: &Compiled,
    prospective: &Prospective,
    addresses: &Vec<RowAddress>,
    depth: usize,
    moves: &mut Table<RowAddress, RowAddress>,
) -> (r: Result<(), Rejection>)
    requires
        depth >= 1,
        forall|a: Seq<StepView>| #[trigger]
            old(moves)@.contains_key(a) <==> a.len() < depth && relocations(
                *compiled,
                prospective@,
                address_views(addresses@),
            ).contains_key(a),
        forall|a: Seq<StepView>| #[trigger]
            old(moves)@.contains_key(a) ==> old(moves)@[a] == destination(
                *compiled,
                prospective@,
                address_views(addresses@),
                a,
            ),
    ensures
        match r {
            Ok(_) => {
                &&& forall|a: Seq<StepView>| #[trigger]
                    final(moves)@.contains_key(a) <==> a.len() <= depth && relocations(
                        *compiled,
                        prospective@,
                        address_views(addresses@),
                    ).contains_key(a)
                &&& forall|a: Seq<StepView>| #[trigger]
                    final(moves)@.contains_key(a) ==> final(moves)@[a] == destination(
                        *compiled,
                        prospective@,
                        address_views(addresses@),
                        a,
                    )
                &&& forall|i: int|
                    0 <= i < addresses@.len() && (#[trigger] addresses@[i])@.len() == depth && keyed_row(
                        *compiled,
                        prospective@,
                        addresses@[i]@,
                    ) ==> own_key(*compiled, prospective@, addresses@[i]@) is Some
            },
            Err(e) => some_keyless(*compiled, prospective@, address_views(addresses@)) && e@ == refused(
                RejectionReason::Malformed,
                "migrated row is missing a key field"@,
            ),
        },
{
    let ghost listed = address_views(addresses@);
    let ghost state = prospective@;
    let ghost goal = relocations(*compiled, state, listed);
    let mut i: usize = 0;
    while i < addresses.len()
        invariant
            depth >= 1,
            listed == address_views(addresses@),
            state == prospective@,
            goal == relocations(*compiled, state, listed),
            i <= addresses@.len(),
            forall|a: Seq<StepView>| #[trigger]
                moves@.contains_key(a) <==> goal.contains_key(a) && (a.len() < depth || a.len() == depth
                    && listed.take(i as int).contains(a)),
            forall|a: Seq<StepView>| #[trigger]
                moves@.contains_key(a) ==> moves@[a] == destination(*compiled, state, listed, a),
            forall|j: int|
                0 <= j < i && (#[trigger] addresses@[j])@.len() == depth && keyed_row(*compiled, state, addresses@[j]@)
                    ==> own_key(*compiled, state, addresses@[j]@) is Some,
        decreases addresses@.len() - i,
    {
        let address = &addresses[i];
        let ghost a = address@;
        let ghost before = moves@;
        proof {
            assert(listed[i as int] == a);
            assert(listed.contains(a));
        }
        if address.depth() == depth {
            let declaration = address.declaration();
            if let Some(c) = compiled.collection_at(&declaration) {
                if c.key.len() > 0 {
                    if let Some(fields) = prospective.get(address) {
                        let key = match key_of(&c.key, fields) {
                            Some(key) => key,
                            None => {
                                proof {
                                    assert(keyed_row(*compiled, state, listed[i as int]));
                                }
                                return Err(
                                    Rejection::new(
                                        RejectionReason::Malformed,
                                        "migrated row is missing a key field",
                                    ),
                                );
                            },
                        };
                        let mut path = address.collection();
                        if let Some(parent) = address.parent() {
                            if let Some(moved_parent) = moves.get(&parent) {
                                path = CollectionPath::nested(moved_parent, path.name);
                            } else {
                                proof {
                                    assert(destination(*compiled, state, listed, a.drop_last()) == a.drop_last());
                                }
                            }
                        } else {
                            proof {
                                assert(destination(*compiled, state, listed, a.drop_last()) == a.drop_last());
                            }
                        }
                        let target = path.row(key);
                        proof {
                            assert(path.parent_view() == destination(*compiled, state, listed, a.drop_last()));
                            assert(target@ == destination(*compiled, state, listed, a));
                        }
                        if !target.same(address) {
                            moves.insert(address.duplicate(), target);
                        }
                    }
                }
            }
        }
        proof {
            let t = listed.take(i as int);
            let u = listed.take(i + 1);
            assert(u =~= t.push(a));
            assert forall|o: Seq<StepView>| u.contains(o) <==> t.contains(o) || o == a by {
                if t.contains(o) {
                    let q = choose|q: int| 0 <= q < t.len() && t[q] == o;
                    assert(u[q] == o);
                }
                if u.contains(o) && o != a {
                    let q = choose|q: int| 0 <= q < u.len() && u[q] == o;
                    assert(t[q] == o);
                }
                assert(u[i as int] == a);
            }
            assert forall|o: Seq<StepView>| #[trigger] moves@.contains_key(o) <==> goal.contains_key(o) && (o.len()
                < depth || o.len() == depth && u.contains(o)) by {
                assert(before.contains_key(o) <==> goal.contains_key(o) && (o.len() < depth || o.len() == depth
                    && t.contains(o)));
            }
        }
        i = i + 1;
    }
    proof {
        assert(listed.take(i as int) =~= listed);
    }
    Ok(())
}

/// Take moving rows out of a state.
fn detach(prospective: &mut Prospective, moves: &Table<RowAddress, RowAddress>) -> (r: Vec<(RowAddress, RowAddress, Fields)>)
    requires
        forall|a: Seq<StepView>| #[trigger] moves@.contains_key(a) ==> old(prospective)@.contains_key(a),
    ensures
        final(prospective)@ == old(prospective)@.remove_keys(moves@.dom()),
        final(prospective).drawn() == old(prospective).drawn(),
        r@.len() == sorted::<RowAddress>(moves@.dom()).len(),
        forall|i: int|
            0 <= i < r@.len() ==> (#[trigger] r@[i]).0@ == sorted::<RowAddress>(moves@.dom())[i] && r@[i].1@
                == moves@[r@[i].0@] && moves@.contains_key(r@[i].0@) && r@[i].2@ == old(prospective)@[r@[i].0@],
{
    let ghost start = prospective@;
    let n: usize = moves.len();
    let ghost keys = moves.keys();
    let mut r: Vec<(RowAddress, RowAddress, Fields)> = Vec::new();
    let mut i: usize = 0;
    proof {
        assert(start.remove_keys(keys.take(0).to_set()) =~= start);
    }
    while i < n
        invariant
            n == keys.len(),
            keys == moves.keys(),
            ascending::<RowAddress>(keys),
            forall|a: Seq<StepView>| moves@.contains_key(a) <==> #[trigger] keys.contains(a),
            forall|a: Seq<StepView>| #[trigger] moves@.contains_key(a) ==> start.contains_key(a),
            i <= n,
            prospective.drawn() == old(prospective).drawn(),
            prospective@ == start.remove_keys(keys.take(i as int).to_set()),
            r@.len() == i,
            forall|j: int|
                0 <= j < i ==> (#[trigger] r@[j]).0@ == keys[j] && r@[j].1@ == moves@[keys[j]] && moves@.contains_key(
                    keys[j],
                ) && r@[j].2@ == start[keys[j]],
        decreases n - i,
    {
        let from = moves.key_at(i);
        let to = moves.value_at(i);
        proof {
            let t = keys.take(i as int);
            let k = keys[i as int];
            assert(!t.contains(k)) by {
                if t.contains(k) {
                    let q = choose|q: int| 0 <= q < t.len() && t[q] == k;
                    lemma_ascending_distinct::<RowAddress>(keys, q, i as int);
                }
            }
            assert(moves@.contains_key(k));
            assert(prospective@.contains_key(k));
        }
        if let Some(existing) = prospective.get(from) {
            let fields = existing.duplicate();
            prospective.remove(from);
            r.push((from.duplicate(), to.duplicate(), fields));
        }
        proof {
            let t = keys.take(i as int);
            let u = keys.take(i + 1);
            assert(u =~= t.push(keys[i as int]));
            assert forall|a: Seq<StepView>| u.to_set().contains(a) <==> t.to_set().insert(keys[i as int]).contains(a) by {
                if t.contains(a) {
                    let q = choose|q: int| 0 <= q < t.len() && t[q] == a;
                    assert(u[q] == a);
                }
                if u.contains(a) && a != keys[i as int] {
                    let q = choose|q: int| 0 <= q < u.len() && u[q] == a;
                    assert(t[q] == a);
                }
                assert(u[i as int] == keys[i as int]);
            }
            assert(prospective@ =~= start.remove_keys(u.to_set()));
        }
        i = i + 1;
    }
    proof {
        assert(keys.take(i as int) =~= keys);
    }
    r
}

/// Move every listed row whose own key puts it elsewhere, with its subtree, and let
/// references to a moved row follow. Answers with where each listed row is now. A
/// refusal changes nothing.
pub fn rekey_coerced(
    compiled: &Compiled,
    prospective: &mut Prospective,
    addresses: Vec<RowAddress>,
) -> (r: Result<Vec<RowAddress>, Rejection>)
    ensures
        final(prospective).drawn() == old(prospective).drawn(),
        match (r, rekeyed(*compiled, old(prospective)@, address_views(addresses@))) {
            (Ok(now), Ok(state)) => final(prospective)@ == state && address_views(now@) == destinations(
                *compiled,
                old(prospective)@,
                address_views(addresses@),
            ),
            (Err(e), Err(x)) => e@ == x && final(prospective)@ == old(prospective)@,
            _ => false,
        },
{
    let ghost listed = address_views(addresses@);
    let ghost state = prospective@;
    let ghost goal = relocations(*compiled, state, listed);
    let mut moves: Table<RowAddress, RowAddress> = Table::new();
    let bottom: usize = deepest(&addresses);
    let mut depth: usize = 0;
    proof {
        assert forall|a: Seq<StepView>| #[trigger] goal.contains_key(a) implies a.len() > 0 by {
            if a.len() == 0 {
                assert(destination(*compiled, state, listed, a) == a);
            }
        }
    }
    while depth < bottom
        invariant
            depth <= bottom,
            listed == address_views(addresses@),
            state == prospective@,
            state == old(prospective)@,
            prospective.drawn() == old(prospective).drawn(),
            goal == relocations(*compiled, state, listed),
            forall|a: Seq<StepView>| #[trigger] moves@.contains_key(a) <==> a.len() <= depth && goal.contains_key(a),
            forall|a: Seq<StepView>| #[trigger]
                moves@.contains_key(a) ==> moves@[a] == destination(*compiled, state, listed, a),
            forall|i: int|
                0 <= i < addresses@.len() && (#[trigger] addresses@[i])@.len() <= depth && keyed_row(
                    *compiled,
                    state,
                    addresses@[i]@,
                ) ==> addresses@[i]@.len() == 0 || own_key(*compiled, state, addresses@[i]@) is Some,
        decreases bottom - depth,
    {
        depth = depth + 1;
        if let Err(e) = relocate_level(compiled, prospective, &addresses, depth, &mut moves) {
            return Err(e);
        }
    }
    proof {
        assert forall|a: Seq<StepView>| #[trigger] moves@.contains_key(a) <==> goal.contains_key(a) by {
            if goal.contains_key(a) {
                let j = choose|j: int| 0 <= j < listed.len() && listed[j] == a;
                assert(addresses@[j]@.len() <= bottom);
            }
        }
        assert(moves@ =~= goal);
        assert(!some_keyless(*compiled, state, listed)) by {
            if some_keyless(*compiled, state, listed) {
                let i = choose|i: int|
                    0 <= i < listed.len() && keyed_row(*compiled, state, #[trigger] listed[i]) && own_key(
                        *compiled,
                        state,
                        listed[i],
                    ) is None;
                assert(addresses@[i]@.len() <= bottom);
                if addresses@[i]@.len() == 0 {
                    assert(names_of(listed[i]).len() == 0);
                }
            }
        }
        assert forall|a: Seq<StepView>| #[trigger] moves@.contains_key(a) implies state.contains_key(a) by {
            assert(destination(*compiled, state, listed, a) != a);
        }
    }
    let mut next = prospective.copy();
    let order = detach(&mut next, &moves);
    let ghost keys = sorted::<RowAddress>(goal.dom());
    let ghost base = next@;
    let mut i: usize = 0;
    proof {
        assert(keys.take(0) =~= Seq::<Seq<StepView>>::empty());
    }
    while i < order.len()
        invariant
            i <= order@.len(),
            order@.len() == keys.len(),
            goal == moves@,
            keys == sorted::<RowAddress>(goal.dom()),
            goal == relocations(*compiled, state, listed),
            listed == address_views(addresses@),
            state == old(prospective)@,
            !some_keyless(*compiled, state, listed),
            base == state.remove_keys(goal.dom()),
            next.drawn() == old(prospective).drawn(),
            prospective@ == state,
            prospective.drawn() == old(prospective).drawn(),
            forall|j: int|
                0 <= j < order@.len() ==> (#[trigger] order@[j]).0@ == keys[j] && order@[j].1@ == goal[keys[j]]
                    && order@[j].2@ == state[keys[j]],
            put_back(base, state, goal, keys.take(i as int)) == Ok::<StateView, Seq<StepView>>(next@),
        decreases order@.len() - i,
    {
        proof {
            assert(keys.take(i + 1).drop_last() =~= keys.take(i as int));
            assert(keys.take(i + 1).last() == keys[i as int]);
            assert(order@[i as int].0@ == keys[i as int]);
        }
        if next.contains(&order[i].1) {
            proof {
                lemma_put_refusal(base, state, goal, keys, i + 1);
            }
            return Err(
                Rejection::at(
                    RejectionReason::DuplicateKey,
                    "migration rekeyed a row onto a key already held by another row",
                    &order[i].1,
                ),
            );
        }
        next.insert(order[i].1.duplicate(), order[i].2.duplicate());
        i = i + 1;
    }
    proof {
        assert(keys.take(i as int) =~= keys);
    }
    let mut redirects: Vec<Redirect> = Vec::new();
    let mut k: usize = 0;
    while k < order.len()
        invariant
            k <= order@.len(),
            order@.len() == keys.len(),
            forall|j: int|
                0 <= j < order@.len() ==> (#[trigger] order@[j]).0@ == keys[j] && order@[j].1@ == goal[keys[j]],
            redirects@.len() == k,
            forall|j: int|
                0 <= j < k ==> (#[trigger] redirects@[j])@ == moved_between(*compiled, keys[j], goal[keys[j]]),
        decreases order@.len() - k,
    {
        redirects.push(redirect(compiled, &order[k].0, &order[k].1));
        k = k + 1;
    }
    proof {
        assert(move_views(redirects@) =~= moves_between(*compiled, goal, keys));
    }
    redirect_all(compiled, &mut next, &redirects);
    *prospective = next;
    let mut now: Vec<RowAddress> = Vec::new();
    let mut j: usize = 0;
    while j < addresses.len()
        invariant
            j <= addresses@.len(),
            listed == address_views(addresses@),
            goal == moves@,
            goal == relocations(*compiled, state, listed),
            now@.len() == j,
            forall|q: int| 0 <= q < j ==> (#[trigger] now@[q])@ == destination(*compiled, state, listed, listed[q]),
        decreases addresses@.len() - j,
    {
        proof {
            assert(listed[j as int] == addresses@[j as int]@);
            assert(listed.contains(listed[j as int]));
        }
        let target = match moves.get(&addresses[j]) {
            Some(to) => to.duplicate(),
            None => addresses[j].duplicate(),
        };
        now.push(target);
        j = j + 1;
    }
    proof {
        assert(address_views(now@) =~= destinations(*compiled, state, listed));
    }
    Ok(now)
}

} // verus!
