//! The row types the expressions of a package are checked against: a member of a name
//! keeps the type it was first given.

use crate::text::same_text;
use vstd::prelude::*;

verus! {

/// The type of a member of a row.
#[derive(Debug)]
pub enum MemberType {
    Decimal,
    /// A moment in seconds, or none.
    Instant,
    /// A view of rows; one that recurs without end is not to be read whole.
    View { row: String, unbounded: bool },
    /// Any other, as it is written.
    Other(String),
}

/// What a [`MemberType`] denotes.
#[verifier::ext_equal]
pub enum TypeView {
    Decimal,
    Instant,
    View { row: Seq<char>, unbounded: bool },
    Other(Seq<char>),
}

impl View for MemberType {
    type V = TypeView;

    open spec fn view(&self) -> TypeView {
        match self {
            MemberType::Decimal => TypeView::Decimal,
            MemberType::Instant => TypeView::Instant,
            MemberType::View { row, unbounded } => TypeView::View { row: row@, unbounded: *unbounded },
            MemberType::Other(t) => TypeView::Other(t@),
        }
    }
}

/// What the members of a row type denote.
pub open spec fn member_views(members: Seq<(String, MemberType)>) -> Seq<(Seq<char>, TypeView)> {
    Seq::new(members.len(), |i: int| (members[i].0@, members[i].1@))
}

fn copy_type(t: &MemberType) -> (r: MemberType)
    ensures
        r@ == t@,
{
    match t {
        MemberType::Decimal => MemberType::Decimal,
        MemberType::Instant => MemberType::Instant,
        MemberType::View { row, unbounded } => MemberType::View { row: row.clone(), unbounded: *unbounded },
        MemberType::Other(t) => MemberType::Other(t.clone()),
    }
}

/// Whether a member has a name.
pub open spec fn is_named(member: (Seq<char>, TypeView), name: Seq<char>) -> bool {
    member.0 == name
}

/// Whether a row type has a member of a name.
pub open spec fn has_member(members: Seq<(Seq<char>, TypeView)>, name: Seq<char>) -> bool {
    exists|i: int| 0 <= i < members.len() && is_named(#[trigger] members[i], name)
}

/// A row type with one more member, unless it has one of the name.
pub open spec fn joined(members: Seq<(Seq<char>, TypeView)>, name: Seq<char>, ty: TypeView) -> Seq<
    (Seq<char>, TypeView),
> {
    if has_member(members, name) {
        members
    } else {
        members.push((name, ty))
    }
}

/// A row type with more members, in order.
pub open spec fn all_joined(members: Seq<(Seq<char>, TypeView)>, more: Seq<(Seq<char>, TypeView)>) -> Seq<
    (Seq<char>, TypeView),
>
    decreases more.len(),
{
    if more.len() == 0 {
        members
    } else {
        joined(all_joined(members, more.drop_last()), more.last().0, more.last().1)
    }
}

/// Whether every member has a name of its own.
pub open spec fn named_apart(members: Seq<(Seq<char>, TypeView)>) -> bool {
    forall|i: int, j: int| 0 <= i < j < members.len() ==> (#[trigger] members[i]).0 != (#[trigger] members[j]).0
}

fn join_member(members: &mut Vec<(String, MemberType)>, name: &str, ty: MemberType)
    ensures
        member_views(final(members)@) == joined(member_views(old(members)@), name@, ty@),
{
    let ghost before = member_views(members@);
    let mut i: usize = 0;
    while i < members.len()
        invariant
            i <= members@.len(),
            *members == *old(members),
            before == member_views(members@),
            forall|j: int| 0 <= j < i ==> !is_named(#[trigger] before[j], name@),
        decreases members@.len() - i,
    {
        if same_text(members[i].0.as_str(), name) {
            proof {
                assert(is_named(before[i as int], name@));
            }
            return;
        }
        i = i + 1;
    }
    let ghost added = (name@, ty@);
    members.push((String::from_str(name), ty));
    proof {
        assert(member_views(members@) =~= before.push(added));
    }
}

fn join_members(members: &mut Vec<(String, MemberType)>, more: &Vec<(String, MemberType)>)
    ensures
        member_views(final(members)@) == all_joined(member_views(old(members)@), member_views(more@)),
{
    let ghost start = member_views(members@);
    let ghost all = member_views(more@);
    let mut i: usize = 0;
    proof {
        assert(all.take(0) =~= Seq::<(Seq<char>, TypeView)>::empty());
    }
    while i < more.len()
        invariant
            all == member_views(more@),
            i <= more@.len(),
            member_views(members@) == all_joined(start, all.take(i as int)),
        decreases more@.len() - i,
    {
        proof {
            assert(all.take(i + 1).drop_last() =~= all.take(i as int));
            assert(all.take(i + 1).last() == all[i as int]);
        }
        join_member(members, more[i].0.as_str(), copy_type(&more[i].1));
        i = i + 1;
    }
    proof {
        assert(all.take(i as int) =~= all);
    }
}

/// A member of a metered collection, as far as a spend binding goes.
#[derive(Debug)]
pub enum SpendMember {
    Scalar(String),
    Collection(SpendShape),
    Other,
}

/// A collection, and whether it spends.
#[derive(Debug)]
pub struct SpendShape {
    pub consumes: bool,
    pub members: Vec<(String, SpendMember)>,
}

/// A row type with the scalar members among the first `n` of a collection.
pub open spec fn scalars_joined(members: Seq<(String, SpendMember)>, n: int, before: Seq<(Seq<char>, TypeView)>) -> Seq<
    (Seq<char>, TypeView),
>
    decreases n,
{
    if n <= 0 || n > members.len() {
        before
    } else {
        let so_far = scalars_joined(members, n - 1, before);
        match members[n - 1].1 {
            SpendMember::Scalar(t) => joined(so_far, members[n - 1].0@, TypeView::Other(t@)),
            _ => so_far,
        }
    }
}

/// A row type with the scalar members of a collection that spends, and then with those
/// of every collection nested in it that does.
pub open spec fn spends_joined(shape: SpendShape, before: Seq<(Seq<char>, TypeView)>) -> Seq<(Seq<char>, TypeView)>
    decreases shape, 1int, 0int,
{
    let own = if shape.consumes {
        scalars_joined(shape.members@, shape.members@.len() as int, before)
    } else {
        before
    };
    nested_joined(shape, shape.members@.len() as int, own)
}

/// A row type with what the collections among the first `n` members of a collection
/// spend.
pub open spec fn nested_joined(shape: SpendShape, n: int, before: Seq<(Seq<char>, TypeView)>) -> Seq<
    (Seq<char>, TypeView),
>
    decreases shape, 0int, n,
{
    if n <= 0 || n > shape.members@.len() {
        before
    } else {
        let so_far = nested_joined(shape, n - 1, before);
        match shape.members@[n - 1].1 {
            SpendMember::Collection(nested) => spends_joined(nested, so_far),
            _ => so_far,
        }
    }
}

/// Add the scalar members of every spending collection, this one first.
pub fn collect_spend_fields(shape: &SpendShape, fields: &mut Vec<(String, MemberType)>)
    ensures
        member_views(final(fields)@) == spends_joined(*shape, member_views(old(fields)@)),
    decreases *shape,
{
    let ghost start = member_views(fields@);
    if shape.consumes {
        let mut i: usize = 0;
        while i < shape.members.len()
            invariant
                i <= shape.members@.len(),
                member_views(fields@) == scalars_joined(shape.members@, i as int, start),
            decreases shape.members@.len() - i,
        {
            if let SpendMember::Scalar(t) = &shape.members[i].1 {
                join_member(fields, shape.members[i].0.as_str(), MemberType::Other(t.clone()));
            }
            i = i + 1;
        }
    }
    let ghost own = member_views(fields@);
    let mut i: usize = 0;
    while i < shape.members.len()
        invariant
            i <= shape.members@.len(),
            member_views(fields@) == nested_joined(*shape, i as int, own),
        decreases shape.members@.len() - i,
    {
        if let SpendMember::Collection(nested) = &shape.members[i].1 {
            proof {
                assert(decreases_to!(*shape => shape.members@[i as int]));
            }
            collect_spend_fields(nested, fields);
        }
        i = i + 1;
    }
}

/// The type of the `spend` an eligibility condition speaks of: the members of every
/// spending collection at or below a declared path.
pub fn spend_binding_type(shape: Option<&SpendShape>) -> (r: Vec<(String, MemberType)>)
    ensures
        member_views(r@) == match shape {
            Some(s) => spends_joined(*s, Seq::empty()),
            None => Seq::empty(),
        },
{
    let mut fields: Vec<(String, MemberType)> = Vec::new();
    proof {
        assert(member_views(fields@) =~= Seq::empty());
    }
    if let Some(s) = shape {
        collect_spend_fields(s, &mut fields);
    }
    fields
}

/// The members of the sources among the first `n` that are rows or views.
pub open spec fn sources_joined(sources: Seq<Option<Vec<(String, MemberType)>>>, n: int) -> Seq<(Seq<char>, TypeView)>
    decreases n,
{
    if n <= 0 || n > sources.len() {
        Seq::empty()
    } else {
        match sources[n - 1] {
            Some(row) => all_joined(sources_joined(sources, n - 1), member_views(row@)),
            None => sources_joined(sources, n - 1),
        }
    }
}

/// The type of a pool: the members of every source of its meter, and its quantity and
/// interval.
pub open spec fn pool_members(sources: Seq<Option<Vec<(String, MemberType)>>>) -> Seq<(Seq<char>, TypeView)> {
    all_joined(
        sources_joined(sources, sources.len() as int),
        seq![
            ("$quantity"@, TypeView::Decimal),
            ("$from"@, TypeView::Instant),
            ("$until"@, TypeView::Instant),
        ],
    )
}

/// The type of a pool of a meter with these sources.
pub fn pool_row_type(sources: &Vec<Option<Vec<(String, MemberType)>>>) -> (r: Vec<(String, MemberType)>)
    ensures
        member_views(r@) == pool_members(sources@),
{
    let mut fields: Vec<(String, MemberType)> = Vec::new();
    let mut i: usize = 0;
    proof {
        assert(member_views(fields@) =~= Seq::empty());
    }
    while i < sources.len()
        invariant
            i <= sources@.len(),
            member_views(fields@) == sources_joined(sources@, i as int),
        decreases sources@.len() - i,
    {
        if let Some(row) = &sources[i] {
            join_members(&mut fields, row);
        }
        i = i + 1;
    }
    let ghost own = member_views(fields@);
    join_member(&mut fields, "$quantity", MemberType::Decimal);
    join_member(&mut fields, "$from", MemberType::Instant);
    join_member(&mut fields, "$until", MemberType::Instant);
    proof {
        let none = Seq::<(Seq<char>, TypeView)>::empty();
        let one = none.push(("$quantity"@, TypeView::Decimal));
        let two = one.push(("$from"@, TypeView::Instant));
        let all = two.push(("$until"@, TypeView::Instant));
        assert(one.drop_last() =~= none);
        assert(two.drop_last() =~= one);
        assert(all.drop_last() =~= two);
        assert(all_joined(own, none) == own);
        assert(all_joined(own, one) == joined(own, "$quantity"@, TypeView::Decimal));
        assert(all_joined(own, two) == joined(all_joined(own, one), "$from"@, TypeView::Instant));
        assert(all =~= seq![
            ("$quantity"@, TypeView::Decimal),
            ("$from"@, TypeView::Instant),
            ("$until"@, TypeView::Instant),
        ]);
    }
    fields
}

/// A member type that may be read at a moment.
pub open spec fn bounded(ty: TypeView) -> TypeView {
    match ty {
        TypeView::View { row, .. } => TypeView::View { row, unbounded: false },
        other => other,
    }
}

/// The root of a package as a meter source reads it: at the moment of a spend, so that
/// no view of it is without end.
pub fn bounded_root(root: &Vec<(String, MemberType)>) -> (r: Vec<(String, MemberType)>)
    ensures
        member_views(r@) == Seq::new(root@.len(), |i: int| (root@[i].0@, bounded(root@[i].1@))),
{
    let mut fields: Vec<(String, MemberType)> = Vec::new();
    let mut i: usize = 0;
    while i < root.len()
        invariant
            i <= root@.len(),
            fields@.len() == i,
            forall|j: int|
                0 <= j < i ==> (#[trigger] fields@[j]).0@ == root@[j].0@ && fields@[j].1@ == bounded(root@[j].1@),
        decreases root@.len() - i,
    {
        let ty = match &root[i].1 {
            MemberType::View { row, .. } => MemberType::View { row: row.clone(), unbounded: false },
            other => copy_type(other),
        };
        fields.push((root[i].0.clone(), ty));
        i = i + 1;
    }
    proof {
        assert(member_views(fields@) =~= Seq::new(root@.len(), |i: int| (root@[i].0@, bounded(root@[i].1@))));
    }
    fields
}

/// The last of the first `n` views of a name.
pub open spec fn view_named(views: Seq<(Seq<char>, TypeView)>, name: Seq<char>, n: int) -> Option<TypeView>
    decreases n,
{
    if n <= 0 || n > views.len() {
        None
    } else if views[n - 1].0 == name {
        Some(views[n - 1].1)
    } else {
        view_named(views, name, n - 1)
    }
}

/// What a member of the old root is typed as: a view as what it shows, any other as it
/// is declared.
pub open spec fn old_member(views: Seq<(Seq<char>, TypeView)>, name: Seq<char>, ty: TypeView) -> TypeView {
    match view_named(views, name, views.len() as int) {
        Some(shown) => shown,
        None => ty,
    }
}

fn find_view<'a>(views: &'a Vec<(String, MemberType)>, name: &str) -> (r: Option<&'a MemberType>)
    ensures
        match (r, view_named(member_views(views@), name@, views@.len() as int)) {
            (Some(t), Some(v)) => t@ == v,
            (None, None) => true,
            _ => false,
        },
{
    let ghost all = member_views(views@);
    let mut n: usize = views.len();
    while n > 0
        invariant
            all == member_views(views@),
            n <= views@.len(),
            view_named(all, name@, n as int) == view_named(all, name@, views@.len() as int),
        decreases n,
    {
        if same_text(views[n - 1].0.as_str(), name) {
            return Some(&views[n - 1].1);
        }
        n = n - 1;
    }
    None
}

/// The type of the root a migration reads as `$old`.
pub fn old_root_type(base: &Vec<(String, MemberType)>, views: &Vec<(String, MemberType)>) -> (r: Vec<
    (String, MemberType),
>)
    ensures
        member_views(r@) == Seq::new(
            base@.len(),
            |i: int| (base@[i].0@, old_member(member_views(views@), base@[i].0@, base@[i].1@)),
        ),
{
    let ghost shown = member_views(views@);
    let mut fields: Vec<(String, MemberType)> = Vec::new();
    let mut i: usize = 0;
    while i < base.len()
        invariant
            shown == member_views(views@),
            i <= base@.len(),
            fields@.len() == i,
            forall|j: int|
                0 <= j < i ==> (#[trigger] fields@[j]).0@ == base@[j].0@ && fields@[j].1@ == old_member(
                    shown,
                    base@[j].0@,
                    base@[j].1@,
                ),
        decreases base@.len() - i,
    {
        let ty = match find_view(views, base[i].0.as_str()) {
            Some(t) => copy_type(t),
            None => copy_type(&base[i].1),
        };
        fields.push((base[i].0.clone(), ty));
        i = i + 1;
    }
    proof {
        assert(member_views(fields@) =~= Seq::new(
            base@.len(),
            |i: int| (base@[i].0@, old_member(shown, base@[i].0@, base@[i].1@)),
        ));
    }
    fields
}

proof fn lemma_joined_apart(members: Seq<(Seq<char>, TypeView)>, name: Seq<char>, ty: TypeView)
    requires
        named_apart(members),
    ensures
        named_apart(joined(members, name, ty)),
        has_member(joined(members, name, ty), name),
{
    let after = joined(members, name, ty);
    if !has_member(members, name) {
        assert forall|i: int, j: int| 0 <= i < j < after.len() implies (#[trigger] after[i]).0 != (
        #[trigger] after[j]).0 by {
            if j == members.len() {
                assert(!is_named(members[i], name));
            }
        }
        assert(is_named(after[members.len() as int], name));
    }
}

proof fn lemma_all_apart(members: Seq<(Seq<char>, TypeView)>, more: Seq<(Seq<char>, TypeView)>)
    requires
        named_apart(members),
    ensures
        named_apart(all_joined(members, more)),
    decreases more.len(),
{
    if more.len() > 0 {
        lemma_all_apart(members, more.drop_last());
        lemma_joined_apart(all_joined(members, more.drop_last()), more.last().0, more.last().1);
    }
}

proof fn lemma_sources_apart(sources: Seq<Option<Vec<(String, MemberType)>>>, n: int)
    ensures
        named_apart(sources_joined(sources, n)),
    decreases n,
{
    if 0 < n <= sources.len() {
        lemma_sources_apart(sources, n - 1);
        if let Some(row) = sources[n - 1] {
            lemma_all_apart(sources_joined(sources, n - 1), member_views(row@));
        }
    }
}

/// A pool has one member of a name, and a quantity and an interval among them.
pub proof fn law_pool_members(sources: Seq<Option<Vec<(String, MemberType)>>>)
    ensures
        named_apart(pool_members(sources)),
        has_member(pool_members(sources), "$quantity"@),
        has_member(pool_members(sources), "$from"@),
        has_member(pool_members(sources), "$until"@),
{
    let own = sources_joined(sources, sources.len() as int);
    lemma_sources_apart(sources, sources.len() as int);
    let none = Seq::<(Seq<char>, TypeView)>::empty();
    let one = none.push(("$quantity"@, TypeView::Decimal));
    let two = one.push(("$from"@, TypeView::Instant));
    let all = two.push(("$until"@, TypeView::Instant));
    assert(one.drop_last() =~= none);
    assert(two.drop_last() =~= one);
    assert(all.drop_last() =~= two);
    assert(all =~= seq![
        ("$quantity"@, TypeView::Decimal),
        ("$from"@, TypeView::Instant),
        ("$until"@, TypeView::Instant),
    ]);
    let a = all_joined(own, one);
    let b = all_joined(own, two);
    let c = all_joined(own, all);
    assert(all_joined(own, none) == own);
    lemma_joined_apart(own, "$quantity"@, TypeView::Decimal);
    lemma_joined_apart(a, "$from"@, TypeView::Instant);
    lemma_joined_apart(b, "$until"@, TypeView::Instant);
    lemma_member_kept(a, "$from"@, TypeView::Instant, "$quantity"@);
    lemma_member_kept(b, "$until"@, TypeView::Instant, "$quantity"@);
    lemma_member_kept(b, "$until"@, TypeView::Instant, "$from"@);
}

proof fn lemma_member_kept(members: Seq<(Seq<char>, TypeView)>, name: Seq<char>, ty: TypeView, other: Seq<char>)
    requires
        has_member(members, other),
    ensures
        has_member(joined(members, name, ty), other),
{
    let i = choose|i: int| 0 <= i < members.len() && is_named(#[trigger] members[i], other);
    assert(joined(members, name, ty)[i] == members[i]);
}

/// A member that a row type has keeps its type, whatever is added.
pub proof fn law_first_type_stays(members: Seq<(Seq<char>, TypeView)>, more: Seq<(Seq<char>, TypeView)>)
    ensures
        members.len() <= all_joined(members, more).len(),
        all_joined(members, more).take(members.len() as int) == members,
    decreases more.len(),
{
    if more.len() > 0 {
        law_first_type_stays(members, more.drop_last());
        let before = all_joined(members, more.drop_last());
        assert(all_joined(members, more).take(members.len() as int) =~= before.take(members.len() as int));
    } else {
        assert(members.take(members.len() as int) =~= members);
    }
}

} // verus!
