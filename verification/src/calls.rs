//! Calls a mutation program makes: other mutations of the package, assertions, and
//! signatures.

use crate::address::{RowAddress, StepView};
use crate::cell::{lemma_cell, Cell, CellView};
use crate::order::Duplicate;
use crate::program::{mark_all, marked_all, Interp, ProgramView, RowTarget, TargetView};
use crate::rejection::{outcome, refused, verdict, Rejection, RejectionReason, RejectionView};
use crate::state::{address_views, Fields, FieldsView};
use crate::syntax::{arg_expr, assert_message, assertion_message, keyring_ref, ring_named, value_of, Arg, Expr};
use crate::table::Table;
use crate::target::{found, option_view};
use crate::text::{concat3, same_text, same_texts, texts};
use crate::value::{copy_value, views, Value, ValueView};
use vstd::prelude::*;

verus! {

/// How deep mutations may call one another.
pub const MAX_CALL_DEPTH: usize = 64;

/// A parameter of a mutation.
pub struct Parameter {
    pub name: String,
    /// Whether it may be left out.
    pub optional: bool,
}

/// A declared mutation.
pub struct CompiledMutation {
    pub name: String,
    /// The declared path of the collection it runs on.
    pub path: Vec<String>,
    pub receiver_is_root: bool,
    pub params: Vec<Parameter>,
}

/// The depth a called mutation runs at.
pub open spec fn called_depth(depth: usize) -> Result<usize, RejectionView> {
    if depth >= MAX_CALL_DEPTH {
        Err(refused(RejectionReason::Malformed, "internal mutation calls are nested too deeply"@))
    } else {
        Ok((depth + 1) as usize)
    }
}

/// The depth a called mutation runs at.
pub fn call_depth(depth: usize) -> (r: Result<usize, Rejection>)
    ensures
        match (r, called_depth(depth)) {
            (Ok(d), Ok(x)) => d == x,
            (Err(e), Err(x)) => e@ == x,
            _ => false,
        },
{
    if depth >= MAX_CALL_DEPTH {
        Err(Rejection::new(RejectionReason::Malformed, "internal mutation calls are nested too deeply"))
    } else {
        Ok(depth + 1)
    }
}

/// The row a called mutation runs on: none for a root mutation, and the caller's
/// own row for a mutation of the same collection.
pub open spec fn called_receiver(
    receiver: Option<TargetView>,
    mutation: CompiledMutation,
) -> Result<Option<TargetView>, RejectionView> {
    if mutation.receiver_is_root || mutation.path@.len() == 0 {
        Ok(None)
    } else {
        match receiver {
            Some(t) if t.path == texts(mutation.path@) => Ok(Some(t)),
            _ => Err(
                refused(
                    RejectionReason::Malformed,
                    "internal call to row mutation `"@ + mutation.name@ + "` cannot resolve its receiver here"@,
                ),
            ),
        }
    }
}

/// An argument of an internal call, with its values evaluated.
pub enum SuppliedArg {
    /// `{ name: value, .. }`.
    Object(Vec<(String, Result<Value, Rejection>)>),
    /// `name: value`.
    Named(String, Result<Value, Rejection>),
    /// Anything else.
    Other,
}

/// The arguments an object supplies on top of others, or the first value that was
/// refused.
pub open spec fn object_supplied(
    base: FieldsView,
    members: Seq<(String, Result<Value, Rejection>)>,
) -> Result<FieldsView, RejectionView>
    decreases members.len(),
{
    if members.len() == 0 {
        Ok(base)
    } else {
        match object_supplied(base, members.drop_last()) {
            Err(e) => Err(e),
            Ok(so_far) => match outcome(members.last().1) {
                Err(e) => Err(e),
                Ok(v) => Ok(so_far.insert(members.last().0@, v)),
            },
        }
    }
}

/// The arguments one argument supplies on top of others.
pub open spec fn arg_supplied(base: FieldsView, arg: SuppliedArg) -> Result<FieldsView, RejectionView> {
    match arg {
        SuppliedArg::Object(members) => object_supplied(base, members@),
        SuppliedArg::Named(name, value) => match outcome(value) {
            Err(e) => Err(e),
            Ok(v) => Ok(base.insert(name@, v)),
        },
        SuppliedArg::Other => Err(
            refused(
                RejectionReason::Malformed,
                "an internal call takes an argument object mapping parameter names to values"@,
            ),
        ),
    }
}

/// The arguments a call supplies; a later one of a name wins.
pub open spec fn all_supplied(args: Seq<SuppliedArg>) -> Result<FieldsView, RejectionView>
    decreases args.len(),
{
    if args.len() == 0 {
        Ok(Map::empty())
    } else {
        match all_supplied(args.drop_last()) {
            Err(e) => Err(e),
            Ok(so_far) => arg_supplied(so_far, args.last()),
        }
    }
}

/// The parameters a call binds: each takes the argument of its name, an optional
/// one is absent without it, and a required one must have it. An argument is taken
/// once.
pub open spec fn params_bound(params: Seq<Parameter>, supplied: FieldsView) -> Result<
    (FieldsView, FieldsView),
    RejectionView,
>
    decreases params.len(),
{
    if params.len() == 0 {
        Ok((Map::empty(), supplied))
    } else {
        match params_bound(params.drop_last(), supplied) {
            Err(e) => Err(e),
            Ok((bound, rest)) => {
                let p = params.last();
                if rest.contains_key(p.name@) {
                    Ok((bound.insert(p.name@, rest[p.name@]), rest.remove(p.name@)))
                } else if p.optional {
                    Ok((bound.insert(p.name@, ValueView::Absent), rest))
                } else {
                    Err(
                        refused(
                            RejectionReason::Malformed,
                            "internal call is missing argument `@"@ + p.name@ + "`"@,
                        ),
                    )
                }
            },
        }
    }
}

/// The parameters an internal call binds.
pub open spec fn args_bound(params: Seq<Parameter>, args: Seq<SuppliedArg>) -> Result<FieldsView, RejectionView> {
    match all_supplied(args) {
        Err(e) => Err(e),
        Ok(supplied) => match params_bound(params, supplied) {
            Err(e) => Err(e),
            Ok((bound, _)) => Ok(bound),
        },
    }
}

proof fn lemma_object_refusal(base: FieldsView, members: Seq<(String, Result<Value, Rejection>)>, n: int)
    requires
        0 <= n <= members.len(),
        object_supplied(base, members.take(n)) is Err,
    ensures
        object_supplied(base, members) == object_supplied(base, members.take(n)),
    decreases members.len() - n,
{
    if n == members.len() {
        assert(members.take(n) =~= members);
    } else {
        assert(members.take(n + 1).drop_last() =~= members.take(n));
        lemma_object_refusal(base, members, n + 1);
    }
}

proof fn lemma_supplied_refusal(args: Seq<SuppliedArg>, n: int)
    requires
        0 <= n <= args.len(),
        all_supplied(args.take(n)) is Err,
    ensures
        all_supplied(args) == all_supplied(args.take(n)),
    decreases args.len() - n,
{
    if n == args.len() {
        assert(args.take(n) =~= args);
    } else {
        assert(args.take(n + 1).drop_last() =~= args.take(n));
        lemma_supplied_refusal(args, n + 1);
    }
}

proof fn lemma_params_refusal(params: Seq<Parameter>, supplied: FieldsView, n: int)
    requires
        0 <= n <= params.len(),
        params_bound(params.take(n), supplied) is Err,
    ensures
        params_bound(params, supplied) == params_bound(params.take(n), supplied),
    decreases params.len() - n,
{
    if n == params.len() {
        assert(params.take(n) =~= params);
    } else {
        assert(params.take(n + 1).drop_last() =~= params.take(n));
        lemma_params_refusal(params, supplied, n + 1);
    }
}

fn supply_object(supplied: &mut Fields, members: &Vec<(String, Result<Value, Rejection>)>) -> (r: Result<(), Rejection>)
    ensures
        match (r, object_supplied(old(supplied)@, members@)) {
            (Ok(_), Ok(m)) => final(supplied)@ == m,
            (Err(e), Err(x)) => e@ == x,
            _ => false,
        },
{
    let ghost start = supplied@;
    let mut i: usize = 0;
    proof {
        assert(members@.take(0) =~= Seq::<(String, Result<Value, Rejection>)>::empty());
    }
    while i < members.len()
        invariant
            start == old(supplied)@,
            i <= members@.len(),
            object_supplied(start, members@.take(i as int)) == Ok::<FieldsView, RejectionView>(supplied@),
        decreases members@.len() - i,
    {
        proof {
            assert(members@.take(i + 1).drop_last() =~= members@.take(i as int));
            assert(members@.take(i + 1).last() == members@[i as int]);
        }
        match &members[i].1 {
            Ok(v) => supplied.insert(members[i].0.clone(), copy_value(v)),
            Err(e) => {
                proof {
                    lemma_object_refusal(start, members@, i + 1);
                }
                return Err(e.duplicate());
            },
        }
        i = i + 1;
    }
    proof {
        assert(members@.take(i as int) =~= members@);
    }
    Ok(())
}

fn supply_arg(supplied: &mut Fields, arg: &SuppliedArg) -> (r: Result<(), Rejection>)
    ensures
        match (r, arg_supplied(old(supplied)@, *arg)) {
            (Ok(_), Ok(m)) => final(supplied)@ == m,
            (Err(e), Err(x)) => e@ == x,
            _ => false,
        },
{
    match arg {
        SuppliedArg::Object(members) => supply_object(supplied, members),
        SuppliedArg::Named(name, value) => match value {
            Ok(v) => {
                supplied.insert(name.clone(), copy_value(v));
                Ok(())
            },
            Err(e) => Err(e.duplicate()),
        },
        SuppliedArg::Other => Err(
            Rejection::new(
                RejectionReason::Malformed,
                "an internal call takes an argument object mapping parameter names to values",
            ),
        ),
    }
}

/// Bind the parameters of an internal call from its evaluated arguments.
pub fn internal_args(mutation: &CompiledMutation, args: &Vec<SuppliedArg>) -> (r: Result<Fields, Rejection>)
    ensures
        outcome(r) == args_bound(mutation.params@, args@),
{
    let mut supplied: Fields = Table::new();
    let mut i: usize = 0;
    proof {
        assert(args@.take(0) =~= Seq::<SuppliedArg>::empty());
    }
    while i < args.len()
        invariant
            i <= args@.len(),
            all_supplied(args@.take(i as int)) == Ok::<FieldsView, RejectionView>(supplied@),
        decreases args@.len() - i,
    {
        proof {
            assert(args@.take(i + 1).drop_last() =~= args@.take(i as int));
            assert(args@.take(i + 1).last() == args@[i as int]);
        }
        if let Err(e) = supply_arg(&mut supplied, &args[i]) {
            proof {
                lemma_supplied_refusal(args@, i + 1);
            }
            return Err(e);
        }
        i = i + 1;
    }
    proof {
        assert(args@.take(i as int) =~= args@);
        assert(mutation.params@.take(0) =~= Seq::<Parameter>::empty());
    }
    let ghost all = supplied@;
    let mut params: Fields = Table::new();
    let mut j: usize = 0;
    while j < mutation.params.len()
        invariant
            j <= mutation.params@.len(),
            all_supplied(args@) == Ok::<FieldsView, RejectionView>(all),
            params_bound(mutation.params@.take(j as int), all) == Ok::<(FieldsView, FieldsView), RejectionView>(
                (params@, supplied@),
            ),
        decreases mutation.params@.len() - j,
    {
        proof {
            assert(mutation.params@.take(j + 1).drop_last() =~= mutation.params@.take(j as int));
            assert(mutation.params@.take(j + 1).last() == mutation.params@[j as int]);
        }
        let name = &mutation.params[j].name;
        let given = match supplied.get(name) {
            Some(v) => Some(copy_value(v)),
            None => None,
        };
        match given {
            Some(v) => {
                supplied.remove(name);
                params.insert(name.clone(), v);
            },
            None => {
                if mutation.params[j].optional {
                    params.insert(name.clone(), Value::Absent);
                } else {
                    proof {
                        lemma_params_refusal(mutation.params@, all, j + 1);
                    }
                    return Err(
                        Rejection::new(
                            RejectionReason::Malformed,
                            concat3("internal call is missing argument `@", name.as_str(), "`").as_str(),
                        ),
                    );
                }
            },
        }
        j = j + 1;
    }
    proof {
        assert(mutation.params@.take(j as int) =~= mutation.params@);
    }
    Ok(params)
}

/// What an `assert(condition, message)` comes to.
pub open spec fn asserted(args: Seq<Arg>, condition: CellView) -> Result<(), RejectionView> {
    if args.len() == 0 || !(args[0] is Positional) {
        Err(refused(RejectionReason::Malformed, "`assert` requires a condition"@))
    } else if condition == CellView::Scalar(ValueView::Bool(true)) {
        Ok(())
    } else {
        Err(refused(RejectionReason::Assertion, assertion_message(args)))
    }
}

/// Check an assertion whose condition came to `condition`. Anything but a true
/// condition fails it.
pub fn exec_assert(args: &Vec<Arg>, condition: &Cell) -> (r: Result<(), Rejection>)
    ensures
        verdict(r) == asserted(args@, condition@),
{
    if args.len() == 0 {
        return Err(Rejection::new(RejectionReason::Malformed, "`assert` requires a condition"));
    }
    if let Arg::Named(_, _) = &args[0] {
        return Err(Rejection::new(RejectionReason::Malformed, "`assert` requires a condition"));
    }
    proof {
        lemma_cell(*condition);
    }
    if let Cell::Scalar(Value::Bool(true)) = condition {
        return Ok(());
    }
    Err(Rejection::new(RejectionReason::Assertion, assert_message(args).as_str()))
}

/// The keyring a signature call names and the claims it signs. Only `sign` runs in
/// a mutation program.
pub open spec fn sign_call(function: Seq<char>, args: Seq<Arg>) -> Result<(String, Expr), RejectionView> {
    if function == "sign"@ {
        if args.len() != 2 {
            Err(refused(RejectionReason::Malformed, "`cose.sign` takes a keyring path and a claims object"@))
        } else {
            match ring_named(value_of(args[0])) {
                Some(ring) => Ok((ring, value_of(args[1]))),
                None => Err(
                    refused(RejectionReason::Malformed, "`cose.sign` first argument must be a keyring path `/ring`"@),
                ),
            }
        }
    } else if function == "verify"@ {
        Err(
            refused(
                RejectionReason::Malformed,
                "`cose.verify` runs during authentication (`$verify`), not in a mutation program"@,
            ),
        )
    } else {
        Err(refused(RejectionReason::Malformed, "unknown cose function `"@ + function + "`"@))
    }
}

/// The keyring a signature call names and the claims it signs.
pub fn eval_cose_call<'e>(function: &str, args: &'e Vec<Arg>) -> (r: Result<(&'e String, &'e Expr), Rejection>)
    ensures
        match (r, sign_call(function@, args@)) {
            (Ok((ring, claims)), Ok((n, e))) => *ring == n && *claims == e,
            (Err(e), Err(x)) => e@ == x,
            _ => false,
        },
{
    if same_text(function, "sign") {
        if args.len() != 2 {
            return Err(
                Rejection::new(RejectionReason::Malformed, "`cose.sign` takes a keyring path and a claims object"),
            );
        }
        match keyring_ref(arg_expr(&args[0])) {
            Some(ring) => Ok((ring, arg_expr(&args[1]))),
            None => Err(
                Rejection::new(
                    RejectionReason::Malformed,
                    "`cose.sign` first argument must be a keyring path `/ring`",
                ),
            ),
        }
    } else if same_text(function, "verify") {
        Err(
            Rejection::new(
                RejectionReason::Malformed,
                "`cose.verify` runs during authentication (`$verify`), not in a mutation program",
            ),
        )
    } else {
        Err(
            Rejection::new(
                RejectionReason::Malformed,
                concat3("unknown cose function `", function, "`").as_str(),
            ),
        )
    }
}

/// A called mutation as it starts: it works on the caller's state, on its own receiver,
/// and has touched and erased nothing yet.
pub open spec fn call_entered(p: ProgramView, receiver: Option<TargetView>) -> ProgramView {
    ProgramView { state: p.state, receiver, touched: Seq::empty(), extracts: Seq::empty(), drawn: p.drawn }
}

impl<'a> Interp<'a> {
    /// The row a called mutation runs on.
    pub fn internal_receiver(&self, mutation: &CompiledMutation) -> (r: Result<Option<RowTarget>, Rejection>)
        ensures
            found(r) == called_receiver(self@.receiver, *mutation),
    {
        if mutation.receiver_is_root || mutation.path.len() == 0 {
            return Ok(None);
        }
        if let Some(t) = &self.receiver {
            if same_texts(&t.path, &mutation.path) {
                return Ok(Some(t.duplicate()));
            }
        }
        Err(
            Rejection::new(
                RejectionReason::Malformed,
                concat3(
                    "internal call to row mutation `",
                    mutation.name.as_str(),
                    "` cannot resolve its receiver here",
                ).as_str(),
            ),
        )
    }

    /// Start a called mutation: it works on the caller's state, and has touched and
    /// erased nothing yet.
    pub fn enter_call(self, receiver: Option<RowTarget>) -> (r: (
        Interp<'a>,
        Option<RowTarget>,
        Vec<RowAddress>,
        Vec<Value>,
    ))
        ensures
            r.0.compiled == self.compiled,
            r.0@ == call_entered(self@, option_view(receiver)),
            option_view(r.1) == self@.receiver,
            address_views(r.2@) == self@.touched,
            views(r.3@) == self@.extracts,
    {
        let called = Interp {
            compiled: self.compiled,
            prospective: self.prospective,
            receiver,
            touched: Vec::new(),
            extracts: Vec::new(),
        };
        proof {
            assert(address_views(called.touched@) =~= Seq::<Seq<StepView>>::empty());
            assert(views(called.extracts@) =~= Seq::<ValueView>::empty());
        }
        (called, self.receiver, self.touched, self.extracts)
    }

    /// Return from a called mutation: its writes, the rows it touched and the extracts
    /// of what it erased are the caller's.
    pub fn leave_call(self, receiver: Option<RowTarget>, touched: Vec<RowAddress>, extracts: Vec<Value>) -> (r: Interp<'a>)
        ensures
            r.compiled == self.compiled,
            r@ == (ProgramView {
                state: self@.state,
                receiver: option_view(receiver),
                touched: marked_all(address_views(touched@), self@.touched),
                extracts: views(extracts@) + self@.extracts,
                drawn: self@.drawn,
            }),
    {
        let mut all = touched;
        mark_all(&mut all, self.touched);
        let ghost before = extracts@;
        let mut captured = extracts;
        let mut more = self.extracts;
        captured.append(&mut more);
        proof {
            assert(views(captured@) =~= views(before) + views(self.extracts@));
        }
        Interp { compiled: self.compiled, prospective: self.prospective, receiver, touched: all, extracts: captured }
    }
}

} // verus!
