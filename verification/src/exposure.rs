//! What a module exposes: whether an update narrows it, and how each interface
//! moved.

use crate::doc::{member, member_of, string, text_of, Doc};
use crate::syntax::{output_name, shorthand_output_name, Expr, Member};
use crate::table::{lemma_sorted_exists, sorted, Table};
use crate::text::{
    after_prefix, before_suffix, blank, characters, concat3, concat5, is_blank, left_trimmed, right_trimmed, split,
    split_text, strip_prefix, strip_suffix, texts, trim,
};
use vstd::prelude::*;

verus! {

/// A set of names.
pub struct Names {
    entries: Table<String, bool>,
}

impl View for Names {
    type V = Set<Seq<char>>;

    closed spec fn view(&self) -> Set<Seq<char>> {
        self.entries@.dom()
    }
}

impl Names {
    /// No names.
    pub fn new() -> (r: Names)
        ensures
            r@ == Set::<Seq<char>>::empty(),
    {
        let r = Names { entries: Table::new() };
        proof {
            assert(r@ =~= Set::<Seq<char>>::empty());
        }
        r
    }

    /// Add a name.
    pub fn insert(&mut self, name: String)
        ensures
            final(self)@ == old(self)@.insert(name@),
    {
        self.entries.insert(name, true);
        proof {
            assert(self@ =~= old(self)@.insert(name@));
        }
    }

    /// Whether a name is among them.
    pub fn contains(&self, name: &String) -> (r: bool)
        ensures
            r == self@.contains(name@),
    {
        self.entries.contains(name)
    }

    /// Every name, in ascending order.
    pub fn in_order(&self) -> (r: Vec<String>)
        ensures
            texts(r@) == sorted::<String>(self@),
            forall|n: Seq<char>| #[trigger] texts(r@).contains(n) <==> self@.contains(n),
    {
        let n: usize = self.entries.len();
        let mut r: Vec<String> = Vec::new();
        let mut i: usize = 0;
        while i < n
            invariant
                n == self.entries.keys().len(),
                i <= n,
                r@.len() == i,
                forall|j: int| 0 <= j < i ==> (#[trigger] r@[j])@ == self.entries.keys()[j],
            decreases n - i,
        {
            r.push(self.entries.key_at(i).clone());
            i = i + 1;
        }
        proof {
            assert(texts(r@) =~= self.entries.keys());
        }
        r
    }
}

/// One exposed interface: the fields its view shows, and the private text each of
/// its operations is bound to.
pub struct ExposedInterface {
    pub view_fields: Names,
    pub operations: Table<String, String>,
}

/// What an [`ExposedInterface`] denotes.
#[verifier::ext_equal]
pub struct InterfaceView {
    pub fields: Set<Seq<char>>,
    pub operations: Map<Seq<char>, Seq<char>>,
}

impl View for ExposedInterface {
    type V = InterfaceView;

    open spec fn view(&self) -> InterfaceView {
        InterfaceView { fields: self.view_fields@, operations: self.operations@ }
    }
}

/// Everything a module exposes, by interface.
pub type Surface = Table<String, ExposedInterface>;

/// What a [`Surface`] denotes.
pub type SurfaceView = Map<Seq<char>, InterfaceView>;

/// The name a member of a projection shows, if any.
pub open spec fn shown_name(m: Member) -> Option<String> {
    match m {
        Member::Named(name, _) => Some(name),
        Member::Shorthand(e) => output_name(e),
        _ => None,
    }
}

/// The names the members of a projection show.
pub open spec fn names_shown(members: Seq<Member>) -> Set<Seq<char>>
    decreases members.len(),
{
    if members.len() == 0 {
        Set::empty()
    } else {
        let before = names_shown(members.drop_last());
        match shown_name(members.last()) {
            Some(n) => before.insert(n@),
            None => before,
        }
    }
}

/// The fields a view shows: the members of its projection, where it is one.
pub open spec fn fields_shown(view: Option<Expr>) -> Set<Seq<char>> {
    match view {
        Some(Expr::Block { members, .. }) => names_shown(members@),
        _ => Set::empty(),
    }
}

/// Find the fields a view shows.
pub fn view_output_fields(view: &Option<Expr>) -> (r: Names)
    ensures
        r@ == fields_shown(*view),
{
    let mut r = Names::new();
    if let Some(Expr::Block { members, .. }) = view {
        let mut i: usize = 0;
        proof {
            assert(members@.take(0) =~= Seq::empty());
        }
        while i < members.len()
            invariant
                i <= members@.len(),
                r@ == names_shown(members@.take(i as int)),
            decreases members@.len() - i,
        {
            proof {
                assert(members@.take(i + 1).drop_last() =~= members@.take(i as int));
                assert(members@.take(i + 1).last() == members@[i as int]);
            }
            match &members[i] {
                Member::Named(name, _) => r.insert(name.clone()),
                Member::Shorthand(e) => {
                    if let Some(name) = shorthand_output_name(e) {
                        r.insert(name.clone());
                    }
                },
                _ => {},
            }
            i = i + 1;
        }
        proof {
            assert(members@.take(i as int) =~= members@);
        }
    }
    r
}

/// The text each of the first `n` operations is bound to; an operation bound to
/// anything else has no text.
pub open spec fn bound_operations(entries: Seq<(String, Doc)>, n: nat) -> Map<Seq<char>, Seq<char>>
    decreases n,
{
    if n == 0 {
        Map::empty()
    } else {
        let text = match text_of(entries[n - 1].1) {
            Some(t) => t,
            None => Seq::empty(),
        };
        bound_operations(entries, (n - 1) as nat).insert(entries[n - 1].0@, text)
    }
}

/// The interface a declaration exposes, with what its view reads as.
pub open spec fn interface_of(decl: Doc, view: Option<Expr>) -> InterfaceView {
    InterfaceView {
        fields: match member_of(decl, "$view"@) {
            Some(Doc::Text(_)) => fields_shown(view),
            _ => Set::empty(),
        },
        operations: match member_of(decl, "$mut"@) {
            Some(Doc::Object(entries)) => bound_operations(entries@, entries@.len()),
            _ => Map::empty(),
        },
    }
}

impl ExposedInterface {
    /// Read an interface from its declaration and what its view reads as.
    pub fn read(decl: &Doc, view: &Option<Expr>) -> (r: ExposedInterface)
        ensures
            r@ == interface_of(*decl, *view),
    {
        let view_fields = match member(decl, "$view") {
            Some(Doc::Text(_)) => view_output_fields(view),
            _ => Names::new(),
        };
        let mut operations: Table<String, String> = Table::new();
        if let Some(Doc::Object(entries)) = member(decl, "$mut") {
            let mut i: usize = 0;
            while i < entries.len()
                invariant
                    i <= entries@.len(),
                    operations@ == bound_operations(entries@, i as nat),
                decreases entries@.len() - i,
            {
                let text = match string(&entries[i].1) {
                    Some(t) => t.clone(),
                    None => {
                        proof {
                            reveal_strlit("");
                            assert(""@ =~= Seq::<char>::empty());
                        }
                        String::from_str("")
                    },
                };
                operations.insert(entries[i].0.clone(), text);
                i = i + 1;
            }
        }
        ExposedInterface { view_fields, operations }
    }
}

/// The declarations under `$expose`, in order.
pub open spec fn exposed_decls(document: Option<Doc>) -> Seq<(String, Doc)> {
    match document {
        Some(d) => match member_of(d, "$expose"@) {
            Some(Doc::Object(members)) => members@,
            _ => Seq::empty(),
        },
        None => Seq::empty(),
    }
}

/// What the first `n` declarations expose, each with what its view reads as.
pub open spec fn surface_of(decls: Seq<(String, Doc)>, shown: Seq<Option<Expr>>, n: nat) -> SurfaceView
    decreases n,
{
    if n == 0 {
        Map::empty()
    } else {
        surface_of(decls, shown, (n - 1) as nat).insert(
            decls[n - 1].0@,
            interface_of(decls[n - 1].1, shown[n - 1]),
        )
    }
}

/// A definition that parsed, with what the view of each exposed interface reads as.
pub struct Definition {
    pub document: Option<Doc>,
    pub shown: Vec<Option<Expr>>,
}

impl Definition {
    /// Whether there is a view for every exposed interface.
    pub open spec fn ready(self) -> bool {
        self.shown@.len() == exposed_decls(self.document).len()
    }

    /// Everything the definition exposes.
    pub open spec fn surface(self) -> SurfaceView {
        let decls = exposed_decls(self.document);
        surface_of(decls, self.shown@, decls.len())
    }

    /// The mutations the definition declares.
    pub open spec fn mutations(self) -> Set<Seq<char>> {
        match self.document {
            Some(d) => match member_of(d, "$model"@) {
                Some(model) => match member_of(model, "$mut"@) {
                    Some(Doc::Object(entries)) => entry_names(entries@, entries@.len()),
                    _ => Set::empty(),
                },
                None => Set::empty(),
            },
            None => Set::empty(),
        }
    }

    /// Read everything the definition exposes.
    pub fn read_surface(&self) -> (r: Surface)
        requires
            self.ready(),
        ensures
            r@ == self.surface(),
    {
        let mut r: Surface = Table::new();
        if let Some(d) = &self.document {
            if let Some(Doc::Object(members)) = member(d, "$expose") {
                let mut i: usize = 0;
                while i < members.len()
                    invariant
                        i <= members@.len(),
                        self.shown@.len() == members@.len(),
                        r@ == surface_of(members@, self.shown@, i as nat),
                    decreases members@.len() - i,
                {
                    let interface = ExposedInterface::read(&members[i].1, &self.shown[i]);
                    r.insert(members[i].0.clone(), interface);
                    i = i + 1;
                }
            }
        }
        r
    }

    /// Read the mutations the definition declares.
    pub fn model_mutations(&self) -> (r: Names)
        ensures
            r@ == self.mutations(),
    {
        let mut r = Names::new();
        if let Some(d) = &self.document {
            if let Some(model) = member(d, "$model") {
                if let Some(Doc::Object(entries)) = member(model, "$mut") {
                    let mut i: usize = 0;
                    while i < entries.len()
                        invariant
                            i <= entries@.len(),
                            r@ == entry_names(entries@, i as nat),
                        decreases entries@.len() - i,
                    {
                        r.insert(entries[i].0.clone());
                        i = i + 1;
                    }
                }
            }
        }
        r
    }
}

/// The names of the first `n` entries.
pub open spec fn entry_names(entries: Seq<(String, Doc)>, n: nat) -> Set<Seq<char>>
    decreases n,
{
    if n == 0 {
        Set::empty()
    } else {
        entry_names(entries, (n - 1) as nat).insert(entries[n - 1].0@)
    }
}

/// Whether `char::is_alphanumeric` holds of a character.
pub uninterp spec fn alphanumeric(c: char) -> bool;

/// `char::is_alphanumeric`: a function of the character.
#[verifier::external_body]
fn is_alphanumeric(c: char) -> (r: bool)
    ensures
        r == alphanumeric(c),
{
    c.is_alphanumeric()
}

/// Whether a text is a word: letters, digits and underscores.
pub open spec fn is_word(text: Seq<char>) -> bool {
    text.len() > 0 && forall|i: int| 0 <= i < text.len() ==> alphanumeric(#[trigger] text[i]) || text[i] == '_'
}

/// A text without the white space around it.
pub open spec fn trimmed(text: Seq<char>) -> Seq<char> {
    right_trimmed(left_trimmed(text))
}

/// Where the reading of a reference is.
#[derive(Debug, Clone, Copy, PartialEq, Eq, Structural)]
pub enum Spot {
    /// Behind a dot, before a name.
    Start,
    /// In a name.
    Name,
    /// Behind a name or behind brackets.
    Behind,
    /// In brackets, so many deep.
    Inside(u64),
    /// In a text that this character ends, in brackets.
    Quoted(u64, char),
    /// Behind the character that escapes the next one of such a text.
    Escaped(u64, char),
    /// No reference.
    Broken,
}

/// Whether a character opens brackets.
pub open spec fn opens(c: char) -> bool {
    c == '[' || c == '(' || c == '{'
}

/// Whether a character closes brackets.
pub open spec fn closes(c: char) -> bool {
    c == ']' || c == ')' || c == '}'
}

/// Whether a character begins and ends a text.
pub open spec fn quotes(c: char) -> bool {
    c == '"' || c == '\''
}

/// Whether a character is an operator, or parts expressions: a plain reference has none
/// outside of brackets.
pub open spec fn operates(c: char) -> bool {
    c == '=' || c == '+' || c == '-' || c == '*' || c == '/' || c == '%' || c == '<' || c == '>' || c == '!' || c
        == '&' || c == '|' || c == '?' || c == ':' || c == ',' || c == ';'
}

/// Where the reading of a reference is once it has read a character: names after dots,
/// with blanks around the dots, and with brackets behind the names. What stands in
/// brackets is passed over, a text in them as a whole.
pub open spec fn spot_after(spot: Spot, c: char) -> Spot {
    match spot {
        Spot::Broken => Spot::Broken,
        Spot::Escaped(depth, end) => Spot::Quoted(depth, end),
        Spot::Quoted(depth, end) => if c == end {
            Spot::Inside(depth)
        } else if c == '\\' {
            Spot::Escaped(depth, end)
        } else {
            spot
        },
        Spot::Inside(depth) => if quotes(c) {
            Spot::Quoted(depth, c)
        } else if opens(c) {
            if depth < u64::MAX {
                Spot::Inside((depth + 1) as u64)
            } else {
                Spot::Broken
            }
        } else if closes(c) {
            if depth > 1 {
                Spot::Inside((depth - 1) as u64)
            } else {
                Spot::Behind
            }
        } else {
            spot
        },
        _ => if c == '.' {
            Spot::Start
        } else if opens(c) {
            Spot::Inside(1)
        } else if is_blank(c) {
            if spot == Spot::Start {
                Spot::Start
            } else {
                Spot::Behind
            }
        } else if closes(c) || quotes(c) || operates(c) || spot == Spot::Behind {
            Spot::Broken
        } else {
            Spot::Name
        },
    }
}

/// Where the reading of a reference is after the first `n` characters.
pub open spec fn spot_at(text: Seq<char>, n: int) -> Spot
    decreases n,
{
    if n <= 0 {
        Spot::Behind
    } else {
        spot_after(spot_at(text, n - 1), text[n - 1])
    }
}

/// Whether a text is a plain reference from the current row: it begins with a dot and
/// ends in a name.
pub open spec fn plain_reference(text: Seq<char>) -> bool {
    text.len() > 0 && text[0] == '.' && spot_at(text, text.len() as int) == Spot::Name
}

/// The last name of the plain reference a binding makes, without the empty call it
/// may end in; none where the binding is no such reference.
pub open spec fn reference_tail(binding: Seq<char>) -> Option<Seq<char>> {
    let text = match after_prefix(trimmed(binding), "="@) {
        Some(rest) => trimmed(rest),
        None => trimmed(binding),
    };
    let called = match before_suffix(text, "()"@) {
        Some(head) => trimmed(head),
        None => text,
    };
    if plain_reference(called) {
        Some(trimmed(split(called, '.').last()))
    } else {
        None
    }
}

/// The private mutation a binding refers to.
pub open spec fn backing(binding: Seq<char>) -> Option<Seq<char>> {
    match reference_tail(binding) {
        Some(tail) if is_word(tail) => Some(tail),
        _ => None,
    }
}

/// Read one more character of a reference.
fn advance(spot: Spot, c: char) -> (r: Spot)
    ensures
        r == spot_after(spot, c),
{
    let opening = c == '[' || c == '(' || c == '{';
    let closing = c == ']' || c == ')' || c == '}';
    let quoting = c == '"' || c == '\'';
    match spot {
        Spot::Broken => Spot::Broken,
        Spot::Escaped(depth, end) => Spot::Quoted(depth, end),
        Spot::Quoted(depth, end) => if c == end {
            Spot::Inside(depth)
        } else if c == '\\' {
            Spot::Escaped(depth, end)
        } else {
            spot
        },
        Spot::Inside(depth) => if quoting {
            Spot::Quoted(depth, c)
        } else if opening {
            if depth < u64::MAX {
                Spot::Inside(depth + 1)
            } else {
                Spot::Broken
            }
        } else if closing {
            if depth > 1 {
                Spot::Inside(depth - 1)
            } else {
                Spot::Behind
            }
        } else {
            spot
        },
        _ => {
            let operating = c == '=' || c == '+' || c == '-' || c == '*' || c == '/' || c == '%' || c == '<' || c
                == '>' || c == '!' || c == '&' || c == '|' || c == '?' || c == ':' || c == ',' || c == ';';
            if c == '.' {
                Spot::Start
            } else if opening {
                Spot::Inside(1)
            } else if blank(c) {
                if spot == Spot::Start {
                    Spot::Start
                } else {
                    Spot::Behind
                }
            } else if closing || quoting || operating || spot == Spot::Behind {
                Spot::Broken
            } else {
                Spot::Name
            }
        },
    }
}

/// Tell whether a text is a plain reference.
fn is_plain_reference(text: &str) -> (r: bool)
    ensures
        r == plain_reference(text@),
{
    let chars = characters(text);
    if chars.len() == 0 || chars[0] != '.' {
        return false;
    }
    let mut spot = Spot::Behind;
    let mut i: usize = 0;
    while i < chars.len()
        invariant
            chars@ == text@,
            i <= chars@.len(),
            spot == spot_at(text@, i as int),
        decreases chars@.len() - i,
    {
        spot = advance(spot, chars[i]);
        i = i + 1;
    }
    spot == Spot::Name
}

/// Find the last name of the plain reference a binding makes.
pub fn binding_tail(binding: &str) -> (r: Option<String>)
    ensures
        match r {
            Some(tail) => reference_tail(binding@) == Some(tail@),
            None => reference_tail(binding@) is None,
        },
{
    let whole = trim(binding);
    let text = match strip_prefix(whole.as_str(), "=") {
        Some(rest) => trim(rest.as_str()),
        None => whole,
    };
    let called = match strip_suffix(text.as_str(), "()") {
        Some(head) => trim(head.as_str()),
        None => text,
    };
    if !is_plain_reference(called.as_str()) {
        return None;
    }
    let parts = split_text(called.as_str(), '.');
    proof {
        assert(split(called@, '.').last() == parts@[parts@.len() - 1]@);
    }
    Some(trim(parts[parts.len() - 1].as_str()))
}

/// Whether a text is a word.
fn word(text: &str) -> (r: bool)
    ensures
        r == is_word(text@),
{
    let chars = characters(text);
    let mut i: usize = 0;
    while i < chars.len()
        invariant
            chars@ == text@,
            i <= chars@.len(),
            forall|j: int| 0 <= j < i ==> alphanumeric(#[trigger] chars@[j]) || chars@[j] == '_',
        decreases chars@.len() - i,
    {
        if !is_alphanumeric(chars[i]) && chars[i] != '_' {
            return false;
        }
        i = i + 1;
    }
    chars.len() > 0
}

/// Find the private mutation a binding refers to.
pub fn backing_mutation(binding: &str) -> (r: Option<String>)
    ensures
        match r {
            Some(name) => backing(binding@) == Some(name@),
            None => backing(binding@) is None,
        },
{
    match binding_tail(binding) {
        Some(tail) => if word(tail.as_str()) {
            Some(tail)
        } else {
            None
        },
        None => None,
    }
}

/// How a narrowing is refused.
#[derive(Debug, Clone, Copy, PartialEq, Eq, Structural)]
pub enum NarrowingClass {
    /// The module gave up a promise of its own.
    Definitional,
    /// A binding was withdrawn whose implementation remains.
    BindingWithdrawn,
}

/// A narrowing of what a module exposes.
#[derive(Debug)]
pub struct Narrowing {
    pub reason: String,
    pub class: NarrowingClass,
}

impl View for Narrowing {
    type V = (Seq<char>, NarrowingClass);

    open spec fn view(&self) -> (Seq<char>, NarrowingClass) {
        (self.reason@, self.class)
    }
}

/// The first of these names that is not in a set.
pub open spec fn first_missing(names: Seq<Seq<char>>, present: Set<Seq<char>>) -> Option<Seq<char>>
    decreases names.len(),
{
    if names.len() == 0 {
        None
    } else if !present.contains(names[0]) {
        Some(names[0])
    } else {
        first_missing(names.drop_first(), present)
    }
}

/// How a candidate narrows one interface, if it does.
pub open spec fn interface_narrowed(
    name: Seq<char>,
    active: InterfaceView,
    candidate: Option<InterfaceView>,
    mutations: Set<Seq<char>>,
) -> Option<(Seq<char>, NarrowingClass)> {
    match candidate {
        None => Some(("exposed interface `"@ + name + "` is removed"@, NarrowingClass::Definitional)),
        Some(c) => match first_missing(sorted::<String>(active.fields), c.fields) {
            Some(field) => Some(
                (
                    "exposed interface `"@ + name + "` view drops field `"@ + field + "`"@,
                    NarrowingClass::Definitional,
                ),
            ),
            None => match first_missing(sorted::<String>(active.operations.dom()), c.operations.dom()) {
                Some(operation) => Some(
                    (
                        "exposed interface `"@ + name + "` no longer binds operation `"@ + operation + "`"@,
                        match backing(active.operations[operation]) {
                            Some(m) if mutations.contains(m) => NarrowingClass::BindingWithdrawn,
                            _ => NarrowingClass::Definitional,
                        },
                    ),
                ),
                None => None,
            },
        },
    }
}

/// What a surface exposes under a name.
pub open spec fn exposed_as(surface: SurfaceView, name: Seq<char>) -> Option<InterfaceView> {
    if surface.contains_key(name) {
        Some(surface[name])
    } else {
        None
    }
}

/// The first of these interfaces that a candidate narrows, and how.
pub open spec fn first_narrowed(
    names: Seq<Seq<char>>,
    active: SurfaceView,
    candidate: SurfaceView,
    mutations: Set<Seq<char>>,
) -> Option<(Seq<char>, NarrowingClass)>
    decreases names.len(),
{
    if names.len() == 0 {
        None
    } else {
        match interface_narrowed(names[0], active[names[0]], exposed_as(candidate, names[0]), mutations) {
            Some(n) => Some(n),
            None => first_narrowed(names.drop_first(), active, candidate, mutations),
        }
    }
}

/// The first narrowing a candidate makes, in the order of the interfaces.
pub open spec fn narrowed(active: SurfaceView, candidate: SurfaceView, mutations: Set<Seq<char>>) -> Option<
    (Seq<char>, NarrowingClass),
> {
    first_narrowed(sorted::<String>(active.dom()), active, candidate, mutations)
}

fn find_missing(names: &Vec<String>, present: &Names) -> (r: Option<usize>)
    ensures
        match r {
            Some(i) => i < names@.len() && first_missing(texts(names@), present@) == Some(names@[i as int]@),
            None => first_missing(texts(names@), present@) is None,
        },
{
    let ghost all = texts(names@);
    let mut i: usize = 0;
    proof {
        assert(all.skip(0) =~= all);
    }
    while i < names.len()
        invariant
            all == texts(names@),
            i <= names@.len(),
            first_missing(all, present@) == first_missing(all.skip(i as int), present@),
        decreases names@.len() - i,
    {
        if !present.contains(&names[i]) {
            return Some(i);
        }
        proof {
            assert(all.skip(i as int).drop_first() =~= all.skip(i + 1));
        }
        i = i + 1;
    }
    None
}

/// The names of a table's entries.
fn names_of(operations: &Table<String, String>) -> (r: Names)
    ensures
        r@ == operations@.dom(),
{
    let n: usize = operations.len();
    let mut r = Names::new();
    let mut i: usize = 0;
    while i < n
        invariant
            n == operations.keys().len(),
            i <= n,
            forall|name: Seq<char>| #[trigger] r@.contains(name) <==> operations.keys().take(i as int).contains(name),
        decreases n - i,
    {
        let ghost before = r@;
        r.insert(operations.key_at(i).clone());
        proof {
            let keys = operations.keys();
            let next = keys.take(i + 1);
            assert forall|name: Seq<char>| #[trigger] r@.contains(name) <==> next.contains(name) by {
                if keys.take(i as int).contains(name) {
                    let j = choose|j: int| 0 <= j < i && keys.take(i as int)[j] == name;
                    assert(next[j] == name);
                }
                assert(next[i as int] == keys[i as int]);
                if next.contains(name) && name != keys[i as int] {
                    let j = choose|j: int| 0 <= j < i + 1 && next[j] == name;
                    assert(keys.take(i as int)[j] == name);
                }
            }
        }
        i = i + 1;
    }
    proof {
        assert(operations.keys().take(n as int) =~= operations.keys());
        assert(r@ =~= operations@.dom());
    }
    r
}

fn interface_narrowing(
    name: &String,
    active: &ExposedInterface,
    candidate: Option<&ExposedInterface>,
    mutations: &Names,
) -> (r: Option<Narrowing>)
    ensures
        match (r, interface_narrowed(
            name@,
            active@,
            match candidate {
                Some(c) => Some(c@),
                None => None,
            },
            mutations@,
        )) {
            (Some(n), Some(x)) => n@ == x,
            (None, None) => true,
            _ => false,
        },
{
    let c = match candidate {
        Some(c) => c,
        None => {
            let reason = concat3("exposed interface `", name.as_str(), "` is removed");
            return Some(Narrowing { reason, class: NarrowingClass::Definitional });
        },
    };
    let fields = active.view_fields.in_order();
    if let Some(i) = find_missing(&fields, &c.view_fields) {
        let reason = concat5("exposed interface `", name.as_str(), "` view drops field `", fields[i].as_str(), "`");
        return Some(Narrowing { reason, class: NarrowingClass::Definitional });
    }
    let mine = names_of(&active.operations);
    let kept = names_of(&c.operations);
    let operations = mine.in_order();
    let ghost names = sorted::<String>(active.operations@.dom());
    match find_missing(&operations, &kept) {
        Some(i) => {
            let operation = &operations[i];
            let _count = active.operations.len();
            proof {
                assert(texts(operations@)[i as int] == operation@);
                assert(active.operations.keys()[i as int] == operation@);
                assert(active.operations.keys().contains(operation@));
            }
            let class = match active.operations.get(operation) {
                Some(binding) => match backing_mutation(binding.as_str()) {
                    Some(m) => if mutations.contains(&m) {
                        NarrowingClass::BindingWithdrawn
                    } else {
                        NarrowingClass::Definitional
                    },
                    None => NarrowingClass::Definitional,
                },
                None => NarrowingClass::Definitional,
            };
            let reason = concat5(
                "exposed interface `",
                name.as_str(),
                "` no longer binds operation `",
                operation.as_str(),
                "`",
            );
            Some(Narrowing { reason, class })
        },
        None => None,
    }
}

/// The first way a candidate definition narrows what the active one exposes.
pub fn exposed_narrowing(active: &Definition, candidate: &Definition) -> (r: Option<Narrowing>)
    requires
        active.ready(),
        candidate.ready(),
    ensures
        match (r, narrowed(active.surface(), candidate.surface(), candidate.mutations())) {
            (Some(n), Some(x)) => n@ == x,
            (None, None) => true,
            _ => false,
        },
{
    let mine = active.read_surface();
    let theirs = candidate.read_surface();
    let mutations = candidate.model_mutations();
    let n: usize = mine.len();
    let ghost names = mine.keys();
    let mut i: usize = 0;
    proof {
        assert(names.skip(0) =~= names);
    }
    while i < n
        invariant
            n == mine.keys().len(),
            names == mine.keys(),
            names == sorted::<String>(mine@.dom()),
            mine@ == active.surface(),
            theirs@ == candidate.surface(),
            mutations@ == candidate.mutations(),
            i <= n,
            first_narrowed(names, mine@, theirs@, mutations@) == first_narrowed(
                names.skip(i as int),
                mine@,
                theirs@,
                mutations@,
            ),
        decreases n - i,
    {
        let name = mine.key_at(i);
        let found = interface_narrowing(name, mine.value_at(i), theirs.get(name), &mutations);
        proof {
            assert(names.skip(i as int)[0] == name@);
        }
        if found.is_some() {
            return found;
        }
        proof {
            assert(names.skip(i as int).drop_first() =~= names.skip(i + 1));
        }
        i = i + 1;
    }
    None
}

/// How an interface moved.
#[derive(Debug, Clone, Copy, PartialEq, Eq, Structural)]
pub enum Moved {
    Unchanged,
    Changed,
    Removed,
}

/// How one interface moved: its contract is the fields its view shows and the names
/// of its operations.
pub open spec fn moved(active: InterfaceView, candidate: Option<InterfaceView>) -> Moved {
    match candidate {
        None => Moved::Removed,
        Some(c) => if active.fields == c.fields && active.operations.dom() == c.operations.dom() {
            Moved::Unchanged
        } else {
            Moved::Changed
        },
    }
}

/// The interfaces that moved in one way, in order.
pub open spec fn moved_so(active: SurfaceView, candidate: SurfaceView, way: Moved) -> Seq<Seq<char>> {
    sorted::<String>(active.dom()).filter(|n: Seq<char>| moved(active[n], exposed_as(candidate, n)) == way)
}

/// Every interface by how it moved.
#[derive(Debug)]
pub struct ExposedGrouping {
    pub unchanged: Vec<String>,
    pub changed: Vec<String>,
    pub removed: Vec<String>,
}

/// Whether two sets hold the same names.
fn same_names(a: &Names, b: &Names) -> (r: bool)
    ensures
        r == (a@ == b@),
{
    let mine = a.in_order();
    let theirs = b.in_order();
    if find_missing(&mine, b).is_some() {
        proof {
            lemma_missing(texts(mine@), b@);
            assert(a@ != b@);
        }
        return false;
    }
    if find_missing(&theirs, a).is_some() {
        proof {
            lemma_missing(texts(theirs@), a@);
        }
        return false;
    }
    proof {
        lemma_missing(texts(mine@), b@);
        lemma_missing(texts(theirs@), a@);
        assert forall|n: Seq<char>| a@.contains(n) <==> b@.contains(n) by {
            assert(texts(mine@).contains(n) <==> a@.contains(n));
            assert(texts(theirs@).contains(n) <==> b@.contains(n));
        }
        assert(a@ =~= b@);
    }
    true
}

/// Nothing is missing exactly when every name is present.
proof fn lemma_missing(names: Seq<Seq<char>>, present: Set<Seq<char>>)
    ensures
        match first_missing(names, present) {
            Some(n) => names.contains(n) && !present.contains(n),
            None => forall|n: Seq<char>| #[trigger] names.contains(n) ==> present.contains(n),
        },
    decreases names.len(),
{
    if names.len() > 0 {
        let rest = names.drop_first();
        lemma_missing(rest, present);
        assert(names[0] == names.first());
        match first_missing(names, present) {
            Some(n) => {
                if present.contains(names[0]) {
                    let i = choose|i: int| 0 <= i < rest.len() && rest[i] == n;
                    assert(names[i + 1] == n);
                }
            },
            None => {
                assert forall|n: Seq<char>| #[trigger] names.contains(n) implies present.contains(n) by {
                    let i = choose|i: int| 0 <= i < names.len() && names[i] == n;
                    if i > 0 {
                        assert(rest[i - 1] == n);
                        assert(rest.contains(n));
                    }
                }
            },
        }
    }
}

/// Group every exposed interface by how it moves to a candidate definition.
pub fn exposed_grouping(active: &Definition, candidate: &Definition) -> (r: ExposedGrouping)
    requires
        active.ready(),
        candidate.ready(),
    ensures
        texts(r.unchanged@) == moved_so(active.surface(), candidate.surface(), Moved::Unchanged),
        texts(r.changed@) == moved_so(active.surface(), candidate.surface(), Moved::Changed),
        texts(r.removed@) == moved_so(active.surface(), candidate.surface(), Moved::Removed),
{
    let mine = active.read_surface();
    let theirs = candidate.read_surface();
    let n: usize = mine.len();
    let ghost names = mine.keys();
    let ghost way = |w: Moved| |n: Seq<char>| moved(mine@[n], exposed_as(theirs@, n)) == w;
    let mut unchanged: Vec<String> = Vec::new();
    let mut changed: Vec<String> = Vec::new();
    let mut removed: Vec<String> = Vec::new();
    let mut i: usize = 0;
    proof {
        reveal(Seq::filter);
        assert(texts(unchanged@) =~= names.take(0).filter(way(Moved::Unchanged)));
        assert(texts(changed@) =~= names.take(0).filter(way(Moved::Changed)));
        assert(texts(removed@) =~= names.take(0).filter(way(Moved::Removed)));
    }
    while i < n
        invariant
            n == mine.keys().len(),
            names == mine.keys(),
            way == (|w: Moved| |n: Seq<char>| moved(mine@[n], exposed_as(theirs@, n)) == w),
            i <= n,
            texts(unchanged@) == names.take(i as int).filter(way(Moved::Unchanged)),
            texts(changed@) == names.take(i as int).filter(way(Moved::Changed)),
            texts(removed@) == names.take(i as int).filter(way(Moved::Removed)),
        decreases n - i,
    {
        let name = mine.key_at(i);
        let interface = mine.value_at(i);
        let ghost a = texts(unchanged@);
        let ghost b = texts(changed@);
        let ghost c = texts(removed@);
        proof {
            reveal(Seq::filter);
            assert(names.take(i + 1).drop_last() =~= names.take(i as int));
            assert(names.take(i + 1).last() == name@);
        }
        match theirs.get(name) {
            None => {
                removed.push(name.clone());
                proof {
                    assert(texts(removed@) =~= c.push(name@));
                }
            },
            Some(other) => {
                let here = names_of(&interface.operations);
                let there = names_of(&other.operations);
                if same_names(&interface.view_fields, &other.view_fields) && same_names(&here, &there) {
                    unchanged.push(name.clone());
                    proof {
                        assert(texts(unchanged@) =~= a.push(name@));
                    }
                } else {
                    changed.push(name.clone());
                    proof {
                        assert(texts(changed@) =~= b.push(name@));
                    }
                }
            },
        }
        i = i + 1;
    }
    proof {
        assert(names.take(i as int) =~= names);
    }
    ExposedGrouping { unchanged, changed, removed }
}

/// Every interface the active definition exposes is in exactly one group.
pub proof fn law_one_group(active: SurfaceView, candidate: SurfaceView, name: Seq<char>)
    requires
        active.dom().finite(),
        active.contains_key(name),
    ensures
        moved_so(active, candidate, moved(active[name], exposed_as(candidate, name))).contains(name),
        forall|w: Moved| #[trigger]
            moved_so(active, candidate, w).contains(name) ==> w == moved(active[name], exposed_as(candidate, name)),
{
    broadcast use vstd::seq_lib::group_filter_ensures;

    lemma_sorted_exists::<String>(active.dom());
    let names = sorted::<String>(active.dom());
    assert(names.to_set().contains(name));
    let i = choose|i: int| 0 <= i < names.len() && names[i] == name;
    let w = moved(active[name], exposed_as(candidate, name));
    let same = |n: Seq<char>| moved(active[n], exposed_as(candidate, n)) == w;
    names.lemma_filter_contains(same, i);
    assert forall|v: Moved| #[trigger] moved_so(active, candidate, v).contains(name) implies v == w by {
        let f = |n: Seq<char>| moved(active[n], exposed_as(candidate, n)) == v;
        let kept = names.filter(f);
        let j = choose|j: int| 0 <= j < kept.len() && kept[j] == name;
        assert(f(kept[j]));
    }
}

/// An update that narrows nothing removes no interface, drops no shown field and
/// withdraws no operation.
pub proof fn law_not_narrowed(active: SurfaceView, candidate: SurfaceView, mutations: Set<Seq<char>>, name: Seq<char>)
    requires
        active.dom().finite(),
        forall|n: Seq<char>| #[trigger]
            active.contains_key(n) ==> active[n].fields.finite() && active[n].operations.dom().finite(),
        narrowed(active, candidate, mutations) is None,
        active.contains_key(name),
    ensures
        candidate.contains_key(name),
        active[name].fields.subset_of(candidate[name].fields),
        active[name].operations.dom().subset_of(candidate[name].operations.dom()),
{
    lemma_sorted_exists::<String>(active.dom());
    let names = sorted::<String>(active.dom());
    assert(names.to_set().contains(name));
    lemma_none_narrowed(names, active, candidate, mutations, name);
    let fields = active[name].fields;
    let operations = active[name].operations.dom();
    lemma_sorted_exists::<String>(fields);
    lemma_sorted_exists::<String>(operations);
    lemma_missing(sorted::<String>(fields), candidate[name].fields);
    lemma_missing(sorted::<String>(operations), candidate[name].operations.dom());
    assert forall|f: Seq<char>| fields.contains(f) implies candidate[name].fields.contains(f) by {
        assert(sorted::<String>(fields).to_set().contains(f));
    }
    assert forall|f: Seq<char>| operations.contains(f) implies candidate[name].operations.dom().contains(f) by {
        assert(sorted::<String>(operations).to_set().contains(f));
    }
}

/// Where no interface is narrowed, a given one is not.
proof fn lemma_none_narrowed(
    names: Seq<Seq<char>>,
    active: SurfaceView,
    candidate: SurfaceView,
    mutations: Set<Seq<char>>,
    name: Seq<char>,
)
    requires
        first_narrowed(names, active, candidate, mutations) is None,
        names.contains(name),
    ensures
        interface_narrowed(name, active[name], exposed_as(candidate, name), mutations) is None,
    decreases names.len(),
{
    let i = choose|i: int| 0 <= i < names.len() && names[i] == name;
    if i > 0 {
        assert(names.drop_first()[i - 1] == name);
        lemma_none_narrowed(names.drop_first(), active, candidate, mutations, name);
    }
}

proof fn lemma_shown_finite(members: Seq<Member>)
    ensures
        names_shown(members).finite(),
    decreases members.len(),
{
    if members.len() > 0 {
        lemma_shown_finite(members.drop_last());
    }
}

proof fn lemma_bound_finite(entries: Seq<(String, Doc)>, n: nat)
    ensures
        bound_operations(entries, n).dom().finite(),
    decreases n,
{
    if n > 0 {
        lemma_bound_finite(entries, (n - 1) as nat);
    }
}

/// A definition exposes finitely many interfaces, each with finitely many fields and
/// operations.
pub proof fn lemma_surface_finite(decls: Seq<(String, Doc)>, shown: Seq<Option<Expr>>, n: nat)
    ensures
        surface_of(decls, shown, n).dom().finite(),
        forall|name: Seq<char>| #[trigger]
            surface_of(decls, shown, n).contains_key(name) ==> surface_of(decls, shown, n)[name].fields.finite()
                && surface_of(decls, shown, n)[name].operations.dom().finite(),
    decreases n,
{
    if n > 0 {
        lemma_surface_finite(decls, shown, (n - 1) as nat);
        let decl = decls[n - 1].1;
        if let Some(Expr::Block { members, .. }) = shown[n - 1] {
            lemma_shown_finite(members@);
        }
        if let Some(Doc::Object(entries)) = member_of(decl, "$mut"@) {
            lemma_bound_finite(entries@, entries@.len());
        }
    }
}

/// An update that narrows nothing removes no interface.
pub proof fn law_none_removed(active: Definition, candidate: Definition)
    requires
        narrowed(active.surface(), candidate.surface(), candidate.mutations()) is None,
    ensures
        moved_so(active.surface(), candidate.surface(), Moved::Removed).len() == 0,
{
    broadcast use vstd::seq_lib::group_filter_ensures;

    let a = active.surface();
    let c = candidate.surface();
    let decls = exposed_decls(active.document);
    lemma_surface_finite(decls, active.shown@, decls.len());
    lemma_sorted_exists::<String>(a.dom());
    let names = sorted::<String>(a.dom());
    let gone = moved_so(a, c, Moved::Removed);
    if gone.len() > 0 {
        let f = |n: Seq<char>| moved(a[n], exposed_as(c, n)) == Moved::Removed;
        let name = gone[0];
        assert(f(names.filter(f)[0]));
        assert(gone.contains(name));
        names.lemma_filter_contains_rev(f, name);
        assert(names.to_set().contains(name));
        law_not_narrowed(a, c, candidate.mutations(), name);
    }
}

} // verus!
