//! The operators a program calls on module values, and how their arguments are handed
//! to the lifecycle.

use crate::cell::{lemma_cell, Cell, CellView};
use crate::lifecycle::{args_view, ArgsView, Argument, ArgumentView, LifecycleOp};
use crate::order::Duplicate;
use crate::recorder::{perform, performed, recorded, LifecycleWork, MountedInstance, Recorded, RecordedView};
use crate::rejection::{outcome, refused, Rejection, RejectionReason, RejectionView};
use crate::syntax::Expr;
use crate::text::{concat3, concat5, same_text, texts};
use crate::value::{copy_value, Value, ValueView};
use vstd::prelude::*;

verus! {

/// An operator on module values.
#[derive(Debug, Clone, Copy, PartialEq, Eq, Structural)]
pub enum ModuleOperator {
    Pack,
    UpdateModule,
    Rollback,
    Reinstall,
}

/// The name of an operator.
pub open spec fn operator_name(operator: ModuleOperator) -> Seq<char> {
    match operator {
        ModuleOperator::Pack => "pack"@,
        ModuleOperator::UpdateModule => "update_module"@,
        ModuleOperator::Rollback => "rollback_module"@,
        ModuleOperator::Reinstall => "reinstall_module"@,
    }
}

/// The operator of this name.
pub open spec fn operator_named(name: Seq<char>) -> Option<ModuleOperator> {
    if name == "pack"@ {
        Some(ModuleOperator::Pack)
    } else if name == "update_module"@ {
        Some(ModuleOperator::UpdateModule)
    } else if name == "rollback_module"@ {
        Some(ModuleOperator::Rollback)
    } else if name == "reinstall_module"@ {
        Some(ModuleOperator::Reinstall)
    } else {
        None
    }
}

impl ModuleOperator {
    /// The name of the operator.
    pub fn name(self) -> (r: &'static str)
        ensures
            r@ == operator_name(self),
    {
        match self {
            ModuleOperator::Pack => "pack",
            ModuleOperator::UpdateModule => "update_module",
            ModuleOperator::Rollback => "rollback_module",
            ModuleOperator::Reinstall => "reinstall_module",
        }
    }
}

/// The operator a call addresses, where its callee is the bare name of one.
pub open spec fn operator_called(callee: Expr) -> Option<ModuleOperator> {
    match callee {
        Expr::Name(name) => operator_named(name@),
        _ => None,
    }
}

/// Find the operator a call addresses.
pub fn module_operator(callee: &Expr) -> (r: Option<ModuleOperator>)
    ensures
        r == operator_called(*callee),
{
    match callee {
        Expr::Name(name) => {
            if same_text(name.as_str(), "pack") {
                Some(ModuleOperator::Pack)
            } else if same_text(name.as_str(), "update_module") {
                Some(ModuleOperator::UpdateModule)
            } else if same_text(name.as_str(), "rollback_module") {
                Some(ModuleOperator::Rollback)
            } else if same_text(name.as_str(), "reinstall_module") {
                Some(ModuleOperator::Reinstall)
            } else {
                None
            }
        },
        _ => None,
    }
}

/// An argument of an operator, with what it came to.
pub enum OperatorArg {
    /// A positional expression.
    Positional(Result<Argument, Rejection>),
    /// `{ .. }`: what it came to as a whole, and each member `name: value` with what its
    /// value came to; nothing for a member of another form.
    Object(Result<Argument, Rejection>, Vec<Option<(String, Result<Argument, Rejection>)>>),
    /// `name: value`.
    Named(String, Result<Argument, Rejection>),
}

/// What an argument came to as an operand; nothing for a named one.
pub open spec fn operand_came(a: OperatorArg) -> Option<Result<ArgumentView, RejectionView>> {
    match a {
        OperatorArg::Positional(r) => Some(outcome(r)),
        OperatorArg::Object(r, _) => Some(outcome(r)),
        OperatorArg::Named(_, _) => None,
    }
}

/// The operands an operator takes by position.
pub open spec fn operand_names(operator: ModuleOperator) -> Seq<Seq<char>> {
    match operator {
        ModuleOperator::Pack => seq!["module"@],
        ModuleOperator::UpdateModule => seq!["module"@, "onto"@],
        ModuleOperator::Rollback => seq!["module"@, "point"@],
        ModuleOperator::Reinstall => Seq::empty(),
    }
}

/// The first `k` operands, by name.
pub open spec fn operands_read(operator: ModuleOperator, args: Seq<OperatorArg>, k: nat) -> Result<ArgsView, RejectionView>
    decreases k,
{
    if k == 0 {
        Ok(Seq::empty())
    } else {
        let name = operand_names(operator)[k - 1];
        match operands_read(operator, args, (k - 1) as nat) {
            Err(e) => Err(e),
            Ok(done) => if k > args.len() {
                Err(
                    refused(
                        RejectionReason::Malformed,
                        "`"@ + operator_name(operator) + "` is missing its `"@ + name + "` operand"@,
                    ),
                )
            } else {
                match operand_came(args[k - 1]) {
                    None => Err(
                        refused(
                            RejectionReason::Malformed,
                            "`"@ + operator_name(operator) + "`'s `"@ + name + "` operand is positional"@,
                        ),
                    ),
                    Some(Err(e)) => Err(e),
                    Some(Ok(v)) => Ok(done.push((name, v))),
                }
            },
        }
    }
}

/// The refusal of a trailing argument that is no axis object.
pub open spec fn axis_refused(operator: ModuleOperator) -> RejectionView {
    refused(
        RejectionReason::Malformed,
        "`"@ + operator_name(operator) + "`'s trailing argument is an axis object `{ … }`"@,
    )
}

/// The first `k` members of an axis object, by name.
pub open spec fn members_read(
    operator: ModuleOperator,
    members: Seq<Option<(String, Result<Argument, Rejection>)>>,
    k: nat,
) -> Result<ArgsView, RejectionView>
    decreases k,
{
    if k == 0 {
        Ok(Seq::empty())
    } else {
        match members_read(operator, members, (k - 1) as nat) {
            Err(e) => Err(e),
            Ok(done) => match members[k - 1] {
                None => Err(axis_refused(operator)),
                Some((name, r)) => match outcome(r) {
                    Err(e) => Err(e),
                    Ok(v) => Ok(done.push((name@, v))),
                },
            },
        }
    }
}

/// What a trailing argument contributes: a named value, or the members of an object.
pub open spec fn axis_read(operator: ModuleOperator, a: OperatorArg) -> Result<ArgsView, RejectionView> {
    match a {
        OperatorArg::Named(name, r) => match outcome(r) {
            Err(e) => Err(e),
            Ok(v) => Ok(seq![(name@, v)]),
        },
        OperatorArg::Object(_, members) => members_read(operator, members@, members@.len()),
        OperatorArg::Positional(_) => Err(axis_refused(operator)),
    }
}

/// Every argument up to the `k`th: the operands, then what each trailing one
/// contributes.
pub open spec fn arguments_read(operator: ModuleOperator, args: Seq<OperatorArg>, k: nat) -> Result<ArgsView, RejectionView>
    decreases k,
{
    let leading = operand_names(operator).len();
    if k <= leading {
        operands_read(operator, args, leading)
    } else {
        match arguments_read(operator, args, (k - 1) as nat) {
            Err(e) => Err(e),
            Ok(done) => match axis_read(operator, args[k - 1]) {
                Err(e) => Err(e),
                Ok(more) => Ok(done + more),
            },
        }
    }
}

/// The lifecycle operation an operator performs.
pub open spec fn operation(operator: ModuleOperator) -> LifecycleOp {
    match operator {
        ModuleOperator::Pack => LifecycleOp::Pack,
        ModuleOperator::UpdateModule => LifecycleOp::UpdateModule,
        ModuleOperator::Rollback => LifecycleOp::Rollback,
        ModuleOperator::Reinstall => LifecycleOp::InstallModule,
    }
}

/// What an operator hands to the lifecycle: it must be lent to the caller, the caller's
/// row must live, and the operator must stand where it names a destination.
pub open spec fn marshalled(
    operator: ModuleOperator,
    lent: bool,
    current: Result<(), RejectionView>,
    args: Seq<OperatorArg>,
) -> Result<ArgsView, RejectionView> {
    let name = operator_name(operator);
    if !lent {
        Err(
            refused(
                RejectionReason::Malformed,
                "`"@ + name
                    + "` carries a module instance through its lifecycle and is host-privileged: only the host/root-scope transition may perform it, and this caller is not lent that authority"@,
            ),
        )
    } else {
        match current {
            Err(e) => Err(e),
            Ok(_) => if operator == ModuleOperator::Reinstall {
                Err(
                    refused(
                        RejectionReason::Malformed,
                        "`"@ + name
                            + "` is the source of a move into a module collection — write `.<collection>[<name>] <- "@
                            + name
                            + "(m)`. On its own it names no destination, so there is no boundary to re-admit against."@,
                    ),
                )
            } else {
                arguments_read(operator, args, args.len())
            },
        }
    }
}

fn copy_argument(a: &Argument) -> (r: Argument)
    ensures
        r@ == a@,
{
    match a {
        Argument::Value(v) => Argument::Value(copy_value(v)),
        Argument::Period(from, until) => Argument::Period(*from, *until),
    }
}

fn came(r: &Result<Argument, Rejection>) -> (v: Result<Argument, Rejection>)
    ensures
        outcome(v) == outcome(*r),
{
    match r {
        Ok(a) => Ok(copy_argument(a)),
        Err(e) => Err(e.duplicate()),
    }
}

/// The loud refusal of a trailing argument that is no axis object.
fn axis_shape(operator: ModuleOperator) -> (r: Rejection)
    ensures
        r@ == axis_refused(operator),
{
    let message = concat3("`", operator.name(), "`'s trailing argument is an axis object `{ … }`");
    Rejection::new(RejectionReason::Malformed, message.as_str())
}

fn leading_operands(operator: ModuleOperator) -> (r: Vec<String>)
    ensures
        texts(r@) == operand_names(operator),
{
    let mut r: Vec<String> = Vec::new();
    match operator {
        ModuleOperator::Pack => {
            r.push(String::from_str("module"));
        },
        ModuleOperator::UpdateModule => {
            r.push(String::from_str("module"));
            r.push(String::from_str("onto"));
        },
        ModuleOperator::Rollback => {
            r.push(String::from_str("module"));
            r.push(String::from_str("point"));
        },
        ModuleOperator::Reinstall => {},
    }
    proof {
        assert(texts(r@) =~= operand_names(operator));
    }
    r
}

proof fn lemma_operand_refusal(operator: ModuleOperator, args: Seq<OperatorArg>, k: nat, m: nat)
    requires
        k <= m,
        operands_read(operator, args, k) is Err,
    ensures
        operands_read(operator, args, m) == operands_read(operator, args, k),
    decreases m,
{
    if k < m {
        lemma_operand_refusal(operator, args, k, (m - 1) as nat);
    }
}

proof fn lemma_member_refusal(
    operator: ModuleOperator,
    members: Seq<Option<(String, Result<Argument, Rejection>)>>,
    k: nat,
    m: nat,
)
    requires
        k <= m,
        members_read(operator, members, k) is Err,
    ensures
        members_read(operator, members, m) == members_read(operator, members, k),
    decreases m,
{
    if k < m {
        lemma_member_refusal(operator, members, k, (m - 1) as nat);
    }
}

proof fn lemma_argument_refusal(operator: ModuleOperator, args: Seq<OperatorArg>, k: nat, m: nat)
    requires
        k <= m,
        arguments_read(operator, args, k) is Err,
    ensures
        arguments_read(operator, args, m) == arguments_read(operator, args, k),
    decreases m,
{
    if k < m {
        lemma_argument_refusal(operator, args, k, (m - 1) as nat);
    }
}

fn read_operands(operator: ModuleOperator, args: &Vec<OperatorArg>) -> (r: Result<Vec<(String, Argument)>, Rejection>)
    ensures
        match (r, operands_read(operator, args@, operand_names(operator).len())) {
            (Ok(v), Ok(x)) => args_view(v@) == x,
            (Err(e), Err(x)) => e@ == x,
            _ => false,
        },
{
    let names = leading_operands(operator);
    let n: usize = names.len();
    let mut values: Vec<(String, Argument)> = Vec::new();
    let mut k: usize = 0;
    proof {
        assert(args_view(values@) =~= Seq::empty());
    }
    while k < n
        invariant
            n == names@.len(),
            texts(names@) == operand_names(operator),
            k <= n,
            operands_read(operator, args@, k as nat) == Ok::<ArgsView, RejectionView>(args_view(values@)),
        decreases n - k,
    {
        let ghost done = args_view(values@);
        proof {
            assert(operand_names(operator)[k as int] == names@[k as int]@);
        }
        if k >= args.len() {
            let message = concat5("`", operator.name(), "` is missing its `", names[k].as_str(), "` operand");
            proof {
                lemma_operand_refusal(operator, args@, (k + 1) as nat, n as nat);
            }
            return Err(Rejection::new(RejectionReason::Malformed, message.as_str()));
        }
        let value = match &args[k] {
            OperatorArg::Positional(r) => came(r),
            OperatorArg::Object(r, _) => came(r),
            OperatorArg::Named(_, _) => {
                let message = concat5("`", operator.name(), "`'s `", names[k].as_str(), "` operand is positional");
                proof {
                    lemma_operand_refusal(operator, args@, (k + 1) as nat, n as nat);
                }
                return Err(Rejection::new(RejectionReason::Malformed, message.as_str()));
            },
        };
        match value {
            Err(e) => {
                proof {
                    lemma_operand_refusal(operator, args@, (k + 1) as nat, n as nat);
                }
                return Err(e);
            },
            Ok(v) => {
                values.push((names[k].clone(), v));
                proof {
                    assert(args_view(values@) =~= done.push((names@[k as int]@, v@)));
                }
            },
        }
        k = k + 1;
    }
    Ok(values)
}

fn read_axis(operator: ModuleOperator, a: &OperatorArg) -> (r: Result<Vec<(String, Argument)>, Rejection>)
    ensures
        match (r, axis_read(operator, *a)) {
            (Ok(v), Ok(x)) => args_view(v@) == x,
            (Err(e), Err(x)) => e@ == x,
            _ => false,
        },
{
    let mut values: Vec<(String, Argument)> = Vec::new();
    match a {
        OperatorArg::Named(name, r) => match came(r) {
            Err(e) => Err(e),
            Ok(v) => {
                values.push((name.clone(), v));
                proof {
                    assert(args_view(values@) =~= seq![(name@, v@)]);
                }
                Ok(values)
            },
        },
        OperatorArg::Object(_, members) => {
            let n: usize = members.len();
            let mut k: usize = 0;
            proof {
                assert(args_view(values@) =~= Seq::empty());
            }
            while k < n
                invariant
                    n == members@.len(),
                    k <= n,
                    members_read(operator, members@, k as nat) == Ok::<ArgsView, RejectionView>(args_view(values@)),
                    axis_read(operator, *a) == members_read(operator, members@, n as nat),
                decreases n - k,
            {
                let ghost done = args_view(values@);
                match &members[k] {
                    None => {
                        proof {
                            lemma_member_refusal(operator, members@, (k + 1) as nat, n as nat);
                        }
                        return Err(axis_shape(operator));
                    },
                    Some((name, r)) => match came(r) {
                        Err(e) => {
                            proof {
                                lemma_member_refusal(operator, members@, (k + 1) as nat, n as nat);
                            }
                            return Err(e);
                        },
                        Ok(v) => {
                            values.push((name.clone(), v));
                            proof {
                                assert(args_view(values@) =~= done.push((name@, v@)));
                            }
                        },
                    },
                }
                k = k + 1;
            }
            Ok(values)
        },
        OperatorArg::Positional(_) => Err(axis_shape(operator)),
    }
}

/// Read what an operator hands to the lifecycle.
pub fn marshal(
    operator: ModuleOperator,
    lent: bool,
    current: Result<(), Rejection>,
    args: &Vec<OperatorArg>,
) -> (r: Result<Vec<(String, Argument)>, Rejection>)
    ensures
        match (r, marshalled(
            operator,
            lent,
            match current {
                Ok(_) => Ok(()),
                Err(e) => Err(e@),
            },
            args@,
        )) {
            (Ok(v), Ok(x)) => args_view(v@) == x,
            (Err(e), Err(x)) => e@ == x,
            _ => false,
        },
{
    if !lent {
        let message = concat3(
            "`",
            operator.name(),
            "` carries a module instance through its lifecycle and is host-privileged: only the host/root-scope transition may perform it, and this caller is not lent that authority",
        );
        return Err(Rejection::new(RejectionReason::Malformed, message.as_str()));
    }
    if let Err(e) = current {
        return Err(e);
    }
    if operator == ModuleOperator::Reinstall {
        let message = concat5(
            "`",
            operator.name(),
            "` is the source of a move into a module collection — write `.<collection>[<name>] <- ",
            operator.name(),
            "(m)`. On its own it names no destination, so there is no boundary to re-admit against.",
        );
        return Err(Rejection::new(RejectionReason::Malformed, message.as_str()));
    }
    let n: usize = args.len();
    let leading = leading_operands(operator);
    let start: usize = leading.len();
    proof {
        assert(texts(leading@).len() == start);
    }
    let mut values = match read_operands(operator, args) {
        Ok(v) => v,
        Err(e) => {
            proof {
                if n > start {
                    lemma_argument_refusal(operator, args@, start as nat, n as nat);
                }
            }
            return Err(e);
        },
    };
    let mut k: usize = start;
    proof {
        if n < start {
            lemma_too_few(operator, args@);
        }
    }
    while k < n
        invariant
            n == args@.len(),
            start == operand_names(operator).len(),
            start <= k,
            k <= n || k == start,
            arguments_read(operator, args@, k as nat) == Ok::<ArgsView, RejectionView>(args_view(values@)),
            lent,
            current is Ok,
            operator != ModuleOperator::Reinstall,
        decreases n - k,
    {
        match read_axis(operator, &args[k]) {
            Err(e) => {
                proof {
                    lemma_argument_refusal(operator, args@, (k + 1) as nat, n as nat);
                }
                return Err(e);
            },
            Ok(more) => {
                let ghost done = args_view(values@);
                let ghost extra = args_view(more@);
                let mut rest = more;
                values.append(&mut rest);
                proof {
                    assert(args_view(values@) =~= done + extra);
                }
            },
        }
        k = k + 1;
    }
    Ok(values)
}

/// Too few arguments are refused.
proof fn lemma_too_few(operator: ModuleOperator, args: Seq<OperatorArg>)
    requires
        args.len() < operand_names(operator).len(),
    ensures
        operands_read(operator, args, operand_names(operator).len()) is Err,
{
}

/// What an operator comes to: its arguments, handed to the lifecycle.
pub open spec fn operated(
    operator: ModuleOperator,
    lent: bool,
    current: Result<(), RejectionView>,
    args: Seq<OperatorArg>,
    instances: Seq<MountedInstance>,
    work: LifecycleWork,
) -> Result<RecordedView, RejectionView> {
    match marshalled(operator, lent, current, args) {
        Err(e) => Err(e),
        Ok(values) => performed(operation(operator), values, instances, work),
    }
}

/// Run an operator on module values.
pub fn run_module_operator(
    operator: ModuleOperator,
    lent: bool,
    current: Result<(), Rejection>,
    args: &Vec<OperatorArg>,
    instances: &Vec<MountedInstance>,
    work: LifecycleWork,
) -> (r: Result<Recorded, Rejection>)
    ensures
        recorded(r) == operated(
            operator,
            lent,
            match current {
                Ok(_) => Ok(()),
                Err(e) => Err(e@),
            },
            args@,
            instances@,
            work,
        ),
{
    let values = marshal(operator, lent, current, args)?;
    let op = match operator {
        ModuleOperator::Pack => LifecycleOp::Pack,
        ModuleOperator::UpdateModule => LifecycleOp::UpdateModule,
        ModuleOperator::Rollback => LifecycleOp::Rollback,
        ModuleOperator::Reinstall => LifecycleOp::InstallModule,
    };
    perform(op, &values, instances, work)
}

/// What an operand comes to: the answer of the operator it calls, where it calls one,
/// and the value it evaluates to otherwise.
pub open spec fn operand_evaluated(
    nested: Option<Result<CellView, RejectionView>>,
    plain: Result<ValueView, RejectionView>,
) -> Result<ValueView, RejectionView> {
    match nested {
        None => plain,
        Some(Err(e)) => Err(e),
        Some(Ok(CellView::Scalar(v))) => Ok(v),
        Some(Ok(_)) => Err(refused(RejectionReason::TypeError, "a module operator yields a scalar value"@)),
    }
}

/// Find what an operand comes to.
pub fn operand_value(nested: Option<Result<Cell, Rejection>>, plain: Result<Value, Rejection>) -> (r: Result<Value, Rejection>)
    ensures
        outcome(r) == operand_evaluated(
            match nested {
                Some(n) => Some(outcome(n)),
                None => None,
            },
            outcome(plain),
        ),
{
    match nested {
        None => plain,
        Some(Err(e)) => Err(e),
        Some(Ok(cell)) => {
            proof {
                lemma_cell(cell);
            }
            match cell {
                Cell::Scalar(v) => Ok(v),
                _ => Err(Rejection::new(RejectionReason::TypeError, "a module operator yields a scalar value")),
            }
        },
    }
}

/// Without the privilege lent, every operator is refused, whatever it is given.
pub proof fn law_privileged(
    operator: ModuleOperator,
    current: Result<(), RejectionView>,
    args: Seq<OperatorArg>,
    instances: Seq<MountedInstance>,
    work: LifecycleWork,
)
    ensures
        operated(operator, false, current, args, instances, work) matches Err(e) && e.reason
            == RejectionReason::Malformed,
{
}

/// An operator is found by its own name.
pub proof fn law_operator_name(operator: ModuleOperator)
    ensures
        operator_named(operator_name(operator)) == Some(operator),
{
    reveal_strlit("pack");
    reveal_strlit("update_module");
    reveal_strlit("rollback_module");
    reveal_strlit("reinstall_module");
    assert("pack"@.len() == 4);
    assert("update_module"@.len() == 13);
    assert("rollback_module"@.len() == 15);
    assert("reinstall_module"@.len() == 16);
}

} // verus!
