//! The shapes of program text that statements are told apart by.

use crate::rejection::{refused, Rejection, RejectionReason};
use crate::text::{holds_text, same_text, texts};
use vstd::prelude::*;

verus! {

/// An expression.
pub enum Expr {
    /// A bare name.
    Name(String),
    /// `.`, the row the program runs on.
    Current,
    /// `/`, the package root.
    Root,
    /// `@name`, a parameter.
    Param(String),
    /// `#name`, an imported handle.
    Import(String),
    /// A text literal.
    Text(String),
    /// `base.member`; a structural member is spelled with a `$`.
    Field { base: Box<Expr>, member: String, structural: bool },
    /// `callee(args)`.
    Call { callee: Box<Expr>, args: Vec<Arg> },
    /// `base[key, ..]`.
    Keys { base: Box<Expr>, keys: Vec<Expr> },
    /// `base[:x | condition]`.
    Bound { base: Box<Expr> },
    /// `{ .. }`.
    Object(Vec<Member>),
    /// `base { .. }`.
    Block { base: Box<Expr>, members: Vec<Member> },
    /// `lhs + rhs`.
    Plus { lhs: Box<Expr>, rhs: Box<Expr> },
    /// `lhs - rhs`.
    Minus { lhs: Box<Expr>, rhs: Box<Expr> },
    /// `-operand`.
    Negative(Box<Expr>),
    /// Any other expression.
    Other,
}

/// An argument of a call.
pub enum Arg {
    Positional(Expr),
    Named(String, Expr),
}

/// A member of an object or a block.
pub enum Member {
    /// `name: value`, or `name:` with nothing.
    Named(String, Option<Expr>),
    /// `name = value`.
    Assign(String, Expr),
    /// A bare expression.
    Shorthand(Expr),
    /// `name = none`.
    Clear(String),
    /// A `$` directive.
    Directive,
}

/// Whether an expression is this bare name.
pub open spec fn is_name(e: Expr, word: Seq<char>) -> bool {
    match e {
        Expr::Name(n) => n@ == word,
        _ => false,
    }
}

fn names_word(e: &Expr, word: &str) -> (r: bool)
    ensures
        r == is_name(*e, word@),
{
    match e {
        Expr::Name(n) => same_text(n.as_str(), word),
        _ => false,
    }
}

/// Whether a call is the `assert(..)` statement.
pub fn is_assert(callee: &Expr) -> (r: bool)
    ensures
        r == is_name(*callee, "assert"@),
{
    names_word(callee, "assert")
}

/// Whether a call is the `erase(..)` builtin.
pub fn is_erase(callee: &Expr) -> (r: bool)
    ensures
        r == is_name(*callee, "erase"@),
{
    names_word(callee, "erase")
}

/// The value of an argument, however it is given.
pub open spec fn value_of(arg: Arg) -> Expr {
    match arg {
        Arg::Positional(e) => e,
        Arg::Named(_, e) => e,
    }
}

/// The value of an argument, however it is given.
pub fn arg_expr(arg: &Arg) -> (r: &Expr)
    ensures
        *r == value_of(*arg),
{
    match arg {
        Arg::Positional(e) => e,
        Arg::Named(_, e) => e,
    }
}

/// The keyring a path `/ring` names.
pub open spec fn ring_named(e: Expr) -> Option<String> {
    match e {
        Expr::Field { base, member, structural } => if *base is Root && !structural {
            Some(member)
        } else {
            None
        },
        _ => None,
    }
}

/// The keyring a path `/ring` names.
pub fn keyring_ref(e: &Expr) -> (r: Option<&String>)
    ensures
        match r {
            Some(n) => ring_named(*e) == Some(*n),
            None => ring_named(*e) is None,
        },
{
    match e {
        Expr::Field { base, member, structural } => if matches!(**base, Expr::Root) && !*structural {
            Some(member)
        } else {
            None
        },
        _ => None,
    }
}

/// The name and value of a member that gives both.
pub open spec fn member_pair(m: Member) -> Option<(String, Expr)> {
    match m {
        Member::Named(name, Some(value)) => Some((name, value)),
        Member::Assign(name, value) => Some((name, value)),
        _ => None,
    }
}

/// The name and value of a member that gives both.
pub fn named_member(m: &Member) -> (r: Option<(&String, &Expr)>)
    ensures
        match r {
            Some((n, e)) => member_pair(*m) == Some((*n, *e)),
            None => member_pair(*m) is None,
        },
{
    match m {
        Member::Named(name, Some(value)) => Some((name, value)),
        Member::Assign(name, value) => Some((name, value)),
        _ => None,
    }
}

/// The field and value an object member supplies: a pair, or a parameter, a member
/// access, or a name that stands for itself.
pub open spec fn supplied_pair(m: Member) -> Option<(String, Expr)> {
    match m {
        Member::Shorthand(e) => match e {
            Expr::Param(name) => Some((name, e)),
            Expr::Field { member, .. } => Some((member, e)),
            Expr::Name(name) => Some((name, e)),
            _ => None,
        },
        _ => member_pair(m),
    }
}

/// The field and value an object member supplies.
pub fn object_member(m: &Member) -> (r: Option<(&String, &Expr)>)
    ensures
        match r {
            Some((n, e)) => supplied_pair(*m) == Some((*n, *e)),
            None => supplied_pair(*m) is None,
        },
{
    match m {
        Member::Shorthand(e) => match e {
            Expr::Param(name) => Some((name, e)),
            Expr::Field { member, .. } => Some((member, e)),
            Expr::Name(name) => Some((name, e)),
            _ => None,
        },
        _ => named_member(m),
    }
}

/// What a patch member writes: a value, or the absence of one.
pub open spec fn patched_pair(m: Member) -> Option<(String, Option<Expr>)> {
    match m {
        Member::Clear(name) => Some((name, None)),
        _ => match supplied_pair(m) {
            Some((name, e)) => Some((name, Some(e))),
            None => None,
        },
    }
}

/// What a patch member writes: a value, or the absence of one.
pub fn patch_member(m: &Member) -> (r: Option<(&String, Option<&Expr>)>)
    ensures
        match r {
            Some((n, Some(e))) => patched_pair(*m) == Some((*n, Some(*e))),
            Some((n, None)) => patched_pair(*m) == Some((*n, None::<Expr>)),
            None => patched_pair(*m) is None,
        },
{
    match m {
        Member::Clear(name) => Some((name, None)),
        _ => match object_member(m) {
            Some((name, e)) => Some((name, Some(e))),
            None => None,
        },
    }
}

/// The namespace, function, and arguments of a call `namespace.function(args)` to a
/// bound namespace.
pub open spec fn namespace_call(e: Expr, namespaces: Seq<Seq<char>>) -> Option<(String, String, Vec<Arg>)> {
    match e {
        Expr::Call { callee, args } => match *callee {
            Expr::Field { base, member, structural } => match *base {
                Expr::Name(n) => if !structural && namespaces.contains(n@) {
                    Some((n, member, args))
                } else {
                    None
                },
                _ => None,
            },
            _ => None,
        },
        _ => None,
    }
}

/// The namespace, function, and arguments of a call to a bound namespace.
pub fn host_call<'e>(e: &'e Expr, namespaces: &Vec<String>) -> (r: Option<(&'e String, &'e String, &'e Vec<Arg>)>)
    ensures
        match r {
            Some((n, f, a)) => namespace_call(*e, texts(namespaces@)) == Some((*n, *f, *a)),
            None => namespace_call(*e, texts(namespaces@)) is None,
        },
{
    match e {
        Expr::Call { callee, args } => match &**callee {
            Expr::Field { base, member, structural } => match &**base {
                Expr::Name(n) => if !*structural && holds_text(namespaces, n.as_str()) {
                    Some((n, member, args))
                } else {
                    None
                },
                _ => None,
            },
            _ => None,
        },
        _ => None,
    }
}

/// The mutation an internal call names: `.name(..)` on the receiver, or `name(..)`.
pub open spec fn called_mutation(callee: Expr) -> Option<String> {
    match callee {
        Expr::Field { base, member, structural } => if *base is Current && !structural {
            Some(member)
        } else {
            None
        },
        Expr::Name(n) => Some(n),
        _ => None,
    }
}

/// The mutation an internal call names.
pub fn internal_call_target(callee: &Expr) -> (r: Option<&String>)
    ensures
        match r {
            Some(n) => called_mutation(*callee) == Some(*n),
            None => called_mutation(*callee) is None,
        },
{
    match callee {
        Expr::Field { base, member, structural } => if matches!(**base, Expr::Current) && !*structural {
            Some(member)
        } else {
            None
        },
        Expr::Name(n) => Some(n),
        _ => None,
    }
}

/// What a bare statement does.
#[derive(Debug, Clone, Copy, PartialEq, Eq, Structural)]
pub enum BareStatement {
    Assert,
    Erase,
    Call,
    Insert,
    Delete,
    DeleteSelection,
    Patch,
    /// Nothing that changes the state.
    Nothing,
}

/// What a bare statement does.
pub open spec fn bare_form(e: Expr) -> BareStatement {
    match e {
        Expr::Call { callee, .. } => if is_name(*callee, "assert"@) {
            BareStatement::Assert
        } else if is_name(*callee, "erase"@) {
            BareStatement::Erase
        } else {
            BareStatement::Call
        },
        Expr::Plus { .. } => BareStatement::Insert,
        Expr::Minus { .. } => BareStatement::Delete,
        Expr::Negative(_) => BareStatement::DeleteSelection,
        Expr::Block { .. } => BareStatement::Patch,
        _ => BareStatement::Nothing,
    }
}

/// Tell what a bare statement does.
pub fn exec_bare(e: &Expr) -> (r: BareStatement)
    ensures
        r == bare_form(*e),
{
    match e {
        Expr::Call { callee, .. } => if is_assert(callee) {
            BareStatement::Assert
        } else if is_erase(callee) {
            BareStatement::Erase
        } else {
            BareStatement::Call
        },
        Expr::Plus { .. } => BareStatement::Insert,
        Expr::Minus { .. } => BareStatement::Delete,
        Expr::Negative(_) => BareStatement::DeleteSelection,
        Expr::Block { .. } => BareStatement::Patch,
        _ => BareStatement::Nothing,
    }
}

/// What a local is bound to.
#[derive(Debug, Clone, Copy, PartialEq, Eq, Structural)]
pub enum BindingForm {
    /// The result of a call to a bound namespace.
    HostCall,
    /// The row an insertion constructs.
    InsertedRow,
    /// The rows a deletion by keys removes.
    DeletedKeys,
    /// The rows a deletion by selection removes.
    DeletedSelection,
    /// The value of the expression.
    Value,
}

/// What the local of `name = value` is bound to, given whether the operand an
/// insertion or a deletion names is a collection.
pub open spec fn binding_form(value: Expr, namespaces: Seq<Seq<char>>, operand_is_collection: bool) -> BindingForm {
    if namespace_call(value, namespaces) is Some {
        BindingForm::HostCall
    } else {
        match value {
            Expr::Plus { .. } if operand_is_collection => BindingForm::InsertedRow,
            Expr::Minus { .. } if operand_is_collection => BindingForm::DeletedKeys,
            Expr::Negative(operand) if operand_is_collection && (*operand is Keys || *operand is Bound) => {
                BindingForm::DeletedSelection
            },
            _ => BindingForm::Value,
        }
    }
}

/// Tell what the local of `name = value` is bound to.
pub fn bind_local(value: &Expr, namespaces: &Vec<String>, operand_is_collection: bool) -> (r: BindingForm)
    ensures
        r == binding_form(*value, texts(namespaces@), operand_is_collection),
{
    if host_call(value, namespaces).is_some() {
        return BindingForm::HostCall;
    }
    if !operand_is_collection {
        return BindingForm::Value;
    }
    match value {
        Expr::Plus { .. } => BindingForm::InsertedRow,
        Expr::Minus { .. } => BindingForm::DeletedKeys,
        Expr::Negative(operand) => match &**operand {
            Expr::Keys { .. } => BindingForm::DeletedSelection,
            Expr::Bound { .. } => BindingForm::DeletedSelection,
            _ => BindingForm::Value,
        },
        _ => BindingForm::Value,
    }
}

/// The members of the row that an insertion constructs; only an object gives a row.
pub fn insert_members(object: &Expr) -> (r: Result<&Vec<Member>, Rejection>)
    ensures
        match (r, *object) {
            (Ok(members), Expr::Object(given)) => *members == given,
            (Ok(_), _) => false,
            (Err(_), Expr::Object(_)) => false,
            (Err(e), _) => e@ == refused(RejectionReason::Malformed, "insert takes a `{ field: value }` row"@),
        },
{
    match object {
        Expr::Object(members) => Ok(members),
        _ => Err(Rejection::new(RejectionReason::Malformed, "insert takes a `{ field: value }` row")),
    }
}

/// The message of a failed `assert`: its second argument, where that is a text.
pub open spec fn assertion_message(args: Seq<Arg>) -> Seq<char> {
    if args.len() > 1 {
        match args[1] {
            Arg::Positional(Expr::Text(t)) => t@,
            _ => "assertion failed"@,
        }
    } else {
        "assertion failed"@
    }
}

/// The message of a failed `assert`.
pub fn assert_message(args: &Vec<Arg>) -> (r: String)
    ensures
        r@ == assertion_message(args@),
{
    if args.len() > 1 {
        if let Arg::Positional(Expr::Text(t)) = &args[1] {
            return t.clone();
        }
    }
    String::from_str("assertion failed")
}

/// The name a projected shorthand contributes.
pub open spec fn output_name(e: Expr) -> Option<String> {
    match e {
        Expr::Field { member, .. } => Some(member),
        Expr::Name(n) => Some(n),
        _ => None,
    }
}

/// The name a projected shorthand contributes.
pub fn shorthand_output_name(e: &Expr) -> (r: Option<&String>)
    ensures
        match r {
            Some(n) => output_name(*e) == Some(*n),
            None => output_name(*e) is None,
        },
{
    match e {
        Expr::Field { member, .. } => Some(member),
        Expr::Name(n) => Some(n),
        _ => None,
    }
}

} // verus!
