//! Building the migrated state of an instance: what is carried over, what a program
//! makes of it, how it settles, and what is reported of it.

use crate::address::{RowAddress, StepView};
use crate::captured::StateSection;
use crate::coerce::{coerce_and_require, coerced, covers, destinations, rekey_coerced, rekeyed, DecodedRow};
use crate::copy::{all_ready, carried_state, carry_state, Carried, CarryWork, CopyView, Shape};
use crate::history::{conflict_views, ConflictView, MergeConflict};
use crate::interp::staged_views;
use crate::model::Compiled;
use crate::order::{Duplicate, Key};
use crate::plan::{MigrationPlan, PlanView};
use crate::program::holds_address;
use crate::rejection::{outcome, verdict, Rejection, RejectionView};
use crate::run::{program_run, run_program, steps_ready, Step};
use crate::spending::{capacity_checks, enforce, enforced, evals_ready, CompiledMeters, SpendEval};
use crate::state::{address_views, in_order, Fields, FieldsView, Prospective, StateView};
use crate::time::Timestamp;
use crate::table::{lemma_sorted, lemma_sorted_exists, Table};
use crate::text::same_text;
use vstd::prelude::*;

verus! {

/// What running a migration program left: the state, and the rows it wrote.
pub struct ProgramRun {
    pub prospective: Prospective,
    pub touched: Vec<RowAddress>,
}

/// A migration program: how each of its statements parses, and the steps it comes to.
pub struct ProgramWork {
    pub parsed: Vec<Result<(), String>>,
    pub steps: Vec<Step>,
}

/// The meters of the target, and what evaluation came to for them: the verdict on each
/// row a capacity is checked at, and the work for each row of the migration.
pub struct MeteringWork {
    pub meters: CompiledMeters,
    pub checks: Vec<Result<(), Rejection>>,
    pub evals: Vec<SpendEval>,
    pub now: Timestamp,
}

/// What merging the bundle of the target left: the state, the rows it inserted, and
/// where the release and the instance both moved.
pub struct Bundling {
    pub prospective: Prospective,
    pub seeded: Vec<RowAddress>,
    pub divergent: Vec<MergeConflict>,
}

/// What the steps of a migration that evaluate expressions came to: the programs of the
/// target, each under the version it starts from; every value read as its declared type; the
/// rows of the seed, and the bundle, where the target has them; the admission of the
/// result; and its meters.
pub struct MigrationWork {
    pub carry: CarryWork,
    pub programs: Vec<(String, ProgramWork)>,
    pub decoded: Vec<DecodedRow>,
    pub seed: Option<Result<Vec<(RowAddress, Fields)>, Rejection>>,
    pub bundle: Option<Result<Bundling, Rejection>>,
    pub admission: Result<(), Rejection>,
    pub metering: MeteringWork,
}

/// The migrated state: the rows to commit, those a declared migration gave, those the
/// seed or the bundle inserted, and where the release and the instance both moved.
pub struct MigratedState {
    pub rows: Table<RowAddress, Fields>,
    pub migrated: Vec<RowAddress>,
    pub seeded: Vec<RowAddress>,
    pub divergent: Vec<MergeConflict>,
}

/// What a [`MigratedState`] denotes.
#[verifier::ext_equal]
pub struct MigratedView {
    pub rows: StateView,
    pub migrated: Seq<Seq<StepView>>,
    pub seeded: Seq<Seq<StepView>>,
    pub divergent: Seq<ConflictView>,
}

impl View for MigratedState {
    type V = MigratedView;

    open spec fn view(&self) -> MigratedView {
        MigratedView {
            rows: self.rows@,
            migrated: address_views(self.migrated@),
            seeded: address_views(self.seeded@),
            divergent: conflict_views(self.divergent@),
        }
    }
}

/// The program that starts from a version.
pub open spec fn program_for(programs: Seq<(String, ProgramWork)>, version: Seq<char>) -> Option<ProgramWork>
    decreases programs.len(),
{
    if programs.len() == 0 {
        None
    } else if programs[0].0@ == version {
        Some(programs[0].1)
    } else {
        program_for(programs.drop_first(), version)
    }
}

fn choose_program(programs: Vec<(String, ProgramWork)>, version: &str) -> (r: Option<ProgramWork>)
    ensures
        r == program_for(programs@, version@),
{
    let ghost all = programs@;
    let mut rest = programs;
    let mut i: usize = 0;
    proof {
        assert(all.skip(0) =~= all);
    }
    while i < rest.len()
        invariant
            all == programs@,
            all == rest@,
            i <= all.len(),
            program_for(all, version@) == program_for(all.skip(i as int), version@),
        decreases all.len() - i,
    {
        proof {
            assert(all.skip(i as int)[0] == all[i as int]);
            assert(all.skip(i as int).drop_first() =~= all.skip(i + 1));
        }
        if same_text(rest[i].0.as_str(), version) {
            let (_, program) = rest.remove(i);
            return Some(program);
        }
        i = i + 1;
    }
    None
}

/// The state once the program, where there is one, has run on what was carried over.
pub open spec fn programmed(target: Compiled, carried: CopyView, program: Option<ProgramWork>) -> Result<
    CopyView,
    RejectionView,
> {
    match program {
        None => Ok(carried),
        Some(w) => match program_run(target, w.parsed@, carried.state, carried.drawn, w.steps) {
            Err(e) => Err(e),
            Ok(run) => Ok(
                CopyView { state: run.state, migrated: carried.migrated + run.touched, drawn: run.drawn },
            ),
        },
    }
}

/// A state after the first `n` of its rows have been brought to their declared types.
pub open spec fn rows_coerced(
    compiled: Compiled,
    state: StateView,
    rows: Seq<Seq<StepView>>,
    decoded: Seq<DecodedRow>,
    n: int,
) -> Result<StateView, RejectionView>
    decreases n,
{
    if n <= 0 {
        Ok(state)
    } else {
        match rows_coerced(compiled, state, rows, decoded, n - 1) {
            Err(e) => Err(e),
            Ok(s) => coerced(compiled, s, rows[n - 1], decoded[n - 1]),
        }
    }
}

/// A state whose rows all hold their declared types and stand where their keys put
/// them, and where each row stands.
pub open spec fn settled_rows(compiled: Compiled, state: StateView, decoded: Seq<DecodedRow>) -> Result<
    (StateView, Seq<Seq<StepView>>),
    RejectionView,
> {
    let rows = in_order(state.dom());
    match rows_coerced(compiled, state, rows, decoded, rows.len() as int) {
        Err(e) => Err(e),
        Ok(s) => match rekeyed(compiled, s, rows) {
            Err(e) => Err(e),
            Ok(moved) => Ok((moved, destinations(compiled, s, rows))),
        },
    }
}

/// Whether there is a reading of every value of every row.
pub open spec fn all_decoded(compiled: Compiled, state: StateView, decoded: Seq<DecodedRow>) -> bool {
    let rows = in_order(state.dom());
    &&& decoded.len() == rows.len()
    &&& forall|i: int| 0 <= i < rows.len() ==> covers(compiled, #[trigger] rows[i], decoded[i])
}

/// A migration in progress: the state, the rows that are part of it, and those the
/// seed or the bundle inserted, and where the release and the instance both moved.
#[verifier::ext_equal]
pub struct ProgressView {
    pub state: StateView,
    pub rows: Seq<Seq<StepView>>,
    pub seeded: Seq<Seq<StepView>>,
    pub divergent: Seq<ConflictView>,
}

/// A state after seed rows were applied, and the rows that were inserted: a seed row is
/// inserted where its address is free, and a row that is there keeps its fields.
pub open spec fn seeded(state: StateView, rows: Seq<(Seq<StepView>, FieldsView)>) -> (StateView, Seq<Seq<StepView>>)
    decreases rows.len(),
{
    if rows.len() == 0 {
        (state, Seq::empty())
    } else {
        let (so_far, inserted) = seeded(state, rows.drop_last());
        let (at, fields) = rows.last();
        if so_far.contains_key(at) {
            (so_far, inserted)
        } else {
            (so_far.insert(at, fields), inserted.push(at))
        }
    }
}

/// A migration once the seed, where there is one, has been applied.
pub open spec fn with_seed(
    state: StateView,
    rows: Seq<Seq<StepView>>,
    seed: Option<Result<Vec<(RowAddress, Fields)>, Rejection>>,
) -> Result<ProgressView, RejectionView> {
    match seed {
        None => Ok(ProgressView { state, rows, seeded: Seq::empty(), divergent: Seq::empty() }),
        Some(Err(e)) => Err(e@),
        Some(Ok(s)) => {
            let (after, inserted) = seeded(state, staged_views(s@));
            Ok(ProgressView { state: after, rows: rows + inserted, seeded: inserted, divergent: Seq::empty() })
        },
    }
}

/// A migration once the bundle, where there is one, has been merged. The rows that
/// are part of it are then all that the state holds.
pub open spec fn with_bundle(progress: ProgressView, bundle: Option<Result<Bundling, Rejection>>) -> Result<
    ProgressView,
    RejectionView,
> {
    match bundle {
        None => Ok(progress),
        Some(Err(e)) => Err(e@),
        Some(Ok(b)) => Ok(
            ProgressView {
                state: b.prospective@,
                rows: in_order(b.prospective@.dom()),
                seeded: progress.seeded + address_views(b.seeded@),
                divergent: conflict_views(b.divergent@),
            },
        ),
    }
}

/// The rows of a state at these addresses.
pub open spec fn rows_at(state: StateView, addresses: Seq<Seq<StepView>>) -> StateView {
    Map::new(|a: Seq<StepView>| state.contains_key(a) && addresses.contains(a), |a: Seq<StepView>| state[a])
}

/// The candidates that are among the rows, in order, each once.
pub open spec fn reported(candidates: Seq<Seq<StepView>>, rows: StateView) -> Seq<Seq<StepView>> {
    in_order(rows.dom().filter(|a: Seq<StepView>| candidates.contains(a)))
}

/// The migrated state: the rows that are part of the migration, and the reports of
/// those that are still among them.
pub open spec fn finished(migrated: Seq<Seq<StepView>>, progress: ProgressView) -> MigratedView {
    let rows = rows_at(progress.state, progress.rows);
    MigratedView {
        rows,
        migrated: reported(migrated, rows),
        seeded: reported(progress.seeded, rows),
        divergent: progress.divergent,
    }
}

/// The state that settles: what was carried over, after the program.
pub open spec fn staged(
    source: Shape,
    state: StateSection,
    target: Shape,
    plan: PlanView,
    work: MigrationWork,
    reserved: Seq<StepView>,
    version: Seq<char>,
) -> Result<CopyView, RejectionView> {
    match carried_state(source, state, target, plan, work.carry, reserved) {
        Err(e) => Err(e),
        Ok(carried) => programmed(target.compiled, carried, program_for(work.programs@, version)),
    }
}

/// The staged state once it has settled, the seed has been applied and the bundle has
/// been merged.
pub open spec fn progressed(target: Shape, s: CopyView, work: MigrationWork) -> Result<ProgressView, RejectionView> {
    match settled_rows(target.compiled, s.state, work.decoded@) {
        Err(e) => Err(e),
        Ok((settled, rows)) => match with_seed(settled, rows, work.seed) {
            Err(e) => Err(e),
            Ok(applied) => with_bundle(applied, work.bundle),
        },
    }
}

/// What becomes of the staged state: it settles, the seed is applied, the bundle is
/// merged, the result is admitted, and every spend among its rows is funded anew; the
/// first refusal is the migration's.
pub open spec fn concluded(target: Shape, s: CopyView, work: MigrationWork) -> Result<MigratedView, RejectionView> {
    match progressed(target, s, work) {
        Err(e) => Err(e),
        Ok(progress) => match verdict(work.admission) {
            Err(e) => Err(e),
            Ok(_) => match enforced(
                work.metering.meters,
                progress.state,
                work.metering.checks@,
                progress.rows,
                work.metering.evals@,
                work.metering.now,
            ) {
                Err(e) => Err(e),
                Ok(state) => Ok(finished(s.migrated, ProgressView { state, ..progress })),
            },
        },
    }
}

/// Whether there is evaluation work for the meters over the rows of a migration.
pub open spec fn metering_ready(progress: ProgressView, work: MeteringWork) -> bool {
    &&& work.checks@.len() == capacity_checks(
        work.meters.meters@,
        progress.state,
        work.meters.meters@.len() as int,
    ).len()
    &&& evals_ready(work.meters, progress.rows, work.evals@)
}

/// Whether there is evaluation work for what becomes of the staged state.
pub open spec fn conclusion_ready(target: Shape, s: CopyView, work: MigrationWork) -> bool {
    &&& all_decoded(target.compiled, s.state, work.decoded@)
    &&& progressed(target, s, work) matches Ok(progress) ==> metering_ready(progress, work.metering)
}

/// Whether every step of the program, where there is one, comes with what it writes.
pub open spec fn program_ready(program: Option<ProgramWork>) -> bool {
    program matches Some(w) ==> steps_ready(w.steps)
}

/// The migrated state of an instance whose active package has this version.
pub open spec fn migrated_state(
    source: Shape,
    state: StateSection,
    target: Shape,
    plan: PlanView,
    work: MigrationWork,
    reserved: Seq<StepView>,
    version: Seq<char>,
) -> Result<MigratedView, RejectionView> {
    match staged(source, state, target, plan, work, reserved, version) {
        Err(e) => Err(e),
        Ok(s) => concluded(target, s, work),
    }
}

/// What rows that are refused on the way to their declared types leave: those before
/// the refused one hold theirs.
pub open spec fn rows_left_coerced(
    compiled: Compiled,
    state: StateView,
    rows: Seq<Seq<StepView>>,
    decoded: Seq<DecodedRow>,
    n: int,
) -> StateView
    decreases n,
{
    if n <= 0 {
        state
    } else {
        match rows_coerced(compiled, state, rows, decoded, n - 1) {
            Err(_) => rows_left_coerced(compiled, state, rows, decoded, n - 1),
            Ok(s) => s,
        }
    }
}

/// What rows that do not settle leave: nothing moves unless every row holds its
/// declared types and has a place of its own.
pub open spec fn unsettled(compiled: Compiled, state: StateView, decoded: Seq<DecodedRow>) -> StateView {
    let rows = in_order(state.dom());
    match rows_coerced(compiled, state, rows, decoded, rows.len() as int) {
        Err(_) => rows_left_coerced(compiled, state, rows, decoded, rows.len() as int),
        Ok(s) => s,
    }
}

proof fn lemma_coerced_refusal(
    compiled: Compiled,
    state: StateView,
    rows: Seq<Seq<StepView>>,
    decoded: Seq<DecodedRow>,
    n: int,
    m: int,
)
    requires
        0 <= n <= m,
        rows_coerced(compiled, state, rows, decoded, n) is Err,
    ensures
        rows_coerced(compiled, state, rows, decoded, m) == rows_coerced(compiled, state, rows, decoded, n),
        rows_left_coerced(compiled, state, rows, decoded, m) == rows_left_coerced(compiled, state, rows, decoded, n),
    decreases m - n,
{
    if n < m {
        lemma_coerced_refusal(compiled, state, rows, decoded, n, m - 1);
    }
}

/// Bring every row to its declared types, and move the rows whose keys that changed.
/// Answers with where each row stands now.
pub fn settle_rows(compiled: &Compiled, prospective: &mut Prospective, decoded: &Vec<DecodedRow>) -> (r: Result<
    Vec<RowAddress>,
    Rejection,
>)
    requires
        all_decoded(*compiled, old(prospective)@, decoded@),
    ensures
        match (r, settled_rows(*compiled, old(prospective)@, decoded@)) {
            (Ok(rows), Ok((state, at))) => final(prospective)@ == state && address_views(rows@) == at,
            (Err(e), Err(x)) => e@ == x && final(prospective)@ == unsettled(
                *compiled,
                old(prospective)@,
                decoded@,
            ),
            _ => false,
        },
        final(prospective).drawn() == old(prospective).drawn(),
{
    let ghost start = prospective@;
    let addresses = prospective.addresses();
    let ghost rows = address_views(addresses@);
    let mut i: usize = 0;
    while i < addresses.len()
        invariant
            start == old(prospective)@,
            prospective.drawn() == old(prospective).drawn(),
            rows == address_views(addresses@),
            rows == in_order(start.dom()),
            all_decoded(*compiled, start, decoded@),
            i <= addresses@.len(),
            rows_coerced(*compiled, start, rows, decoded@, i as int) == Ok::<StateView, RejectionView>(prospective@),
        decreases addresses@.len() - i,
    {
        proof {
            assert(rows[i as int] == addresses@[i as int]@);
        }
        match coerce_and_require(compiled, prospective, &addresses[i], &decoded[i]) {
            Ok(_) => {},
            Err(e) => {
                proof {
                    lemma_coerced_refusal(*compiled, start, rows, decoded@, i + 1, rows.len() as int);
                }
                return Err(e);
            },
        }
        i = i + 1;
    }
    rekey_coerced(compiled, prospective, addresses)
}

fn append_addresses(a: &mut Vec<RowAddress>, b: &Vec<RowAddress>)
    ensures
        address_views(final(a)@) == address_views(old(a)@) + address_views(b@),
{
    let ghost start = address_views(a@);
    let ghost more = address_views(b@);
    let mut i: usize = 0;
    proof {
        assert(start + more.take(0) =~= start);
    }
    while i < b.len()
        invariant
            start == address_views(old(a)@),
            more == address_views(b@),
            i <= b@.len(),
            address_views(a@) == start + more.take(i as int),
        decreases b@.len() - i,
    {
        let ghost before = address_views(a@);
        a.push(b[i].duplicate());
        proof {
            assert(address_views(a@) =~= before.push(b@[i as int]@));
            assert(more.take(i + 1) =~= more.take(i as int).push(more[i as int]));
            assert(address_views(a@) =~= start + more.take(i + 1));
        }
        i = i + 1;
    }
    proof {
        assert(more.take(i as int) =~= more);
    }
}

fn select_rows(prospective: &Prospective, addresses: &Vec<RowAddress>) -> (r: Table<RowAddress, Fields>)
    ensures
        r@ == rows_at(prospective@, address_views(addresses@)),
{
    let ghost all = address_views(addresses@);
    let mut rows: Table<RowAddress, Fields> = Table::new();
    let mut i: usize = 0;
    proof {
        assert(rows@ =~= rows_at(prospective@, all.take(0)));
    }
    while i < addresses.len()
        invariant
            all == address_views(addresses@),
            i <= addresses@.len(),
            rows@ == rows_at(prospective@, all.take(i as int)),
        decreases addresses@.len() - i,
    {
        let ghost before = rows@;
        if let Some(fields) = prospective.get(&addresses[i]) {
            rows.insert(addresses[i].duplicate(), fields.duplicate());
        }
        proof {
            let now = all.take(i + 1);
            let earlier = all.take(i as int);
            assert(now =~= earlier.push(all[i as int]));
            assert forall|a: Seq<StepView>| now.contains(a) <==> earlier.contains(a) || a == all[i as int] by {
                if earlier.contains(a) {
                    let k = choose|k: int| 0 <= k < earlier.len() && earlier[k] == a;
                    assert(now[k] == a);
                }
                assert(now[i as int] == all[i as int]);
                if now.contains(a) {
                    let k = choose|k: int| 0 <= k < now.len() && now[k] == a;
                    if k < i {
                        assert(earlier[k] == a);
                    }
                }
            }
            assert(rows@ =~= rows_at(prospective@, now));
        }
        i = i + 1;
    }
    proof {
        assert(all.take(i as int) =~= all);
    }
    rows
}

/// The candidates that are among the rows, in order, each once.
pub fn report_paths(candidates: &Vec<RowAddress>, rows: &Table<RowAddress, Fields>) -> (r: Vec<RowAddress>)
    ensures
        address_views(r@) == reported(address_views(candidates@), rows@),
{
    let ghost wanted = address_views(candidates@);
    let n: usize = rows.len();
    let ghost keys = rows.keys();
    let mut r: Vec<RowAddress> = Vec::new();
    let ghost mut from: Seq<int> = Seq::empty();
    let mut i: usize = 0;
    while i < n
        invariant
            wanted == address_views(candidates@),
            n == rows.keys().len(),
            keys == rows.keys(),
            i <= n,
            from.len() == r@.len(),
            forall|j: int|
                0 <= j < r@.len() ==> 0 <= #[trigger] from[j] < i && r@[j]@ == keys[from[j]] && wanted.contains(r@[j]@),
            forall|j: int, k: int| 0 <= j < k < r@.len() ==> #[trigger] from[j] < #[trigger] from[k],
            forall|k: int| 0 <= k < i && wanted.contains(#[trigger] keys[k]) ==> address_views(r@).contains(keys[k]),
        decreases n - i,
    {
        let ghost prior = address_views(r@);
        if holds_address(candidates, rows.key_at(i)) {
            r.push(rows.key_at(i).duplicate());
            proof {
                from = from.push(i as int);
                assert(address_views(r@) =~= prior.push(keys[i as int]));
                assert(address_views(r@)[prior.len() as int] == keys[i as int]);
                assert forall|k: int| 0 <= k < i + 1 && wanted.contains(#[trigger] keys[k]) implies address_views(
                    r@,
                ).contains(keys[k]) by {
                    if k < i {
                        let q = choose|q: int| 0 <= q < prior.len() && prior[q] == keys[k];
                        assert(address_views(r@)[q] == keys[k]);
                    }
                }
            }
        }
        i = i + 1;
    }
    proof {
        let found = address_views(r@);
        let picked = rows@.dom().filter(|a: Seq<StepView>| wanted.contains(a));
        assert forall|j: int, k: int| 0 <= j < k < found.len() implies RowAddress::before(
            #[trigger] found[j],
            #[trigger] found[k],
        ) by {
            assert(from[j] < from[k]);
            assert(RowAddress::before(keys[from[j]], keys[from[k]]));
        }
        assert forall|a: Seq<StepView>| found.to_set().contains(a) == picked.contains(a) by {
            if found.contains(a) {
                let j = choose|j: int| 0 <= j < found.len() && found[j] == a;
                assert(keys[from[j]] == a);
                assert(keys.contains(a));
            }
            if picked.contains(a) {
                assert(keys.contains(a));
                let k = choose|k: int| 0 <= k < keys.len() && keys[k] == a;
            }
        }
        assert(found.to_set() =~= picked);
        lemma_sorted::<RowAddress>(found, picked);
    }
    r
}

/// Insert the seed rows whose addresses are free. Answers with those addresses.
fn apply_seed(prospective: &mut Prospective, rows: Vec<(RowAddress, Fields)>) -> (r: Vec<RowAddress>)
    ensures
        (final(prospective)@, address_views(r@)) == seeded(old(prospective)@, staged_views(rows@)),
{
    let ghost start = prospective@;
    let ghost all = staged_views(rows@);
    let mut inserted: Vec<RowAddress> = Vec::new();
    let mut i: usize = 0;
    proof {
        assert(address_views(inserted@) =~= Seq::<Seq<StepView>>::empty());
        assert(all.take(0) =~= Seq::<(Seq<StepView>, FieldsView)>::empty());
    }
    while i < rows.len()
        invariant
            all == staged_views(rows@),
            i <= rows@.len(),
            (prospective@, address_views(inserted@)) == seeded(start, all.take(i as int)),
        decreases rows@.len() - i,
    {
        let ghost before = address_views(inserted@);
        proof {
            assert(all.take(i + 1).drop_last() =~= all.take(i as int));
            assert(all.take(i + 1).last() == (rows@[i as int].0@, rows@[i as int].1@));
        }
        if !prospective.contains(&rows[i].0) {
            prospective.insert(rows[i].0.duplicate(), rows[i].1.duplicate());
            inserted.push(rows[i].0.duplicate());
            proof {
                assert(address_views(inserted@) =~= before.push(rows@[i as int].0@));
            }
        }
        i = i + 1;
    }
    proof {
        assert(all.take(i as int) =~= all);
    }
    inserted
}

/// Conclude a migration: the staged state settles, the seed is applied, the bundle is
/// merged, the result is admitted and funded, and the rows are reported.
fn conclude(target: &Shape, carried: Carried, work: MigrationWork) -> (r: Result<MigratedState, Rejection>)
    requires
        conclusion_ready(*target, carried@, work),
    ensures
        outcome(r) == concluded(*target, carried@, work),
{
    let ghost staged = carried@;
    let ghost given = work;
    let mut prospective = carried.prospective;
    let migrated = carried.migrated;
    let mut rows = settle_rows(&target.compiled, &mut prospective, &work.decoded)?;
    let mut seeded: Vec<RowAddress> = Vec::new();
    proof {
        assert(address_views(seeded@) =~= Seq::<Seq<StepView>>::empty());
    }
    match work.seed {
        None => {},
        Some(Err(e)) => {
            return Err(e);
        },
        Some(Ok(s)) => {
            seeded = apply_seed(&mut prospective, s);
            append_addresses(&mut rows, &seeded);
        },
    }
    let mut divergent: Vec<MergeConflict> = Vec::new();
    proof {
        assert(conflict_views(divergent@) =~= Seq::<ConflictView>::empty());
    }
    match work.bundle {
        None => {},
        Some(Err(e)) => {
            return Err(e);
        },
        Some(Ok(b)) => {
            append_addresses(&mut seeded, &b.seeded);
            divergent = b.divergent;
            prospective = b.prospective;
            rows = prospective.addresses();
        },
    }
    work.admission?;
    proof {
        assert(progressed(*target, staged, given) == Ok::<ProgressView, RejectionView>(
            ProgressView {
                state: prospective@,
                rows: address_views(rows@),
                seeded: address_views(seeded@),
                divergent: conflict_views(divergent@),
            },
        ));
    }
    enforce(
        &work.metering.meters,
        &mut prospective,
        &work.metering.checks,
        &rows,
        &work.metering.evals,
        work.metering.now,
    )?;
    let kept = select_rows(&prospective, &rows);
    let migrated = report_paths(&migrated, &kept);
    let seeded = report_paths(&seeded, &kept);
    Ok(MigratedState { rows: kept, migrated, seeded, divergent })
}

/// Build the migrated state of an instance: the state is carried over, the program of
/// the active `version` runs on it, every row is brought to its declared types and to
/// its place, the seed and the bundle of the target are applied, the result is
/// admitted, and every spend among its rows is funded anew.
pub fn build_migrated(
    source: &Shape,
    state: &StateSection,
    target: &Shape,
    plan: &MigrationPlan,
    work: MigrationWork,
    reserved: &RowAddress,
    version: &str,
) -> (r: Result<MigratedState, Rejection>)
    requires
        all_ready(*target, *state, plan@, work.carry),
        program_ready(program_for(work.programs@, version@)),
        staged(*source, *state, *target, plan@, work, reserved@, version@) matches Ok(s) ==> conclusion_ready(
            *target,
            s,
            work,
        ),
    ensures
        outcome(r) == migrated_state(*source, *state, *target, plan@, work, reserved@, version@),
{
    let ghost given = work;
    let Carried { prospective, mut migrated } = carry_state(source, state, target, plan, &work.carry, reserved)?;
    let MigrationWork { carry, programs, decoded, seed, bundle, admission, metering } = work;
    let prospective = match choose_program(programs, version) {
        None => prospective,
        Some(w) => {
            let run = run_program(&target.compiled, &w.parsed, prospective, w.steps)?;
            append_addresses(&mut migrated, &run.touched);
            run.prospective
        },
    };
    let carried = Carried { prospective, migrated };
    let rest = MigrationWork { carry, programs: Vec::new(), decoded, seed, bundle, admission, metering };
    proof {
        assert(progressed(*target, carried@, rest) == progressed(*target, carried@, given));
        assert(concluded(*target, carried@, rest) == concluded(*target, carried@, given));
    }
    conclude(target, carried, rest)
}

/// What is reported of a migration is among its rows, and is one of the candidates.
pub proof fn law_reported(candidates: Seq<Seq<StepView>>, rows: StateView, at: Seq<StepView>)
    requires
        rows.dom().finite(),
    ensures
        reported(candidates, rows).contains(at) <==> rows.contains_key(at) && candidates.contains(at),
{
    let picked = rows.dom().filter(|a: Seq<StepView>| candidates.contains(a));
    lemma_sorted_exists::<RowAddress>(picked);
    assert(reported(candidates, rows).to_set().contains(at) == picked.contains(at));
}

/// A seed changes no row that was there, and afterwards a row stands at the address of
/// every seed row. What it inserted was not there before.
pub proof fn law_seed_keeps(state: StateView, rows: Seq<(Seq<StepView>, FieldsView)>)
    ensures
        forall|a: Seq<StepView>| #[trigger]
            state.contains_key(a) ==> seeded(state, rows).0.contains_key(a) && seeded(state, rows).0[a] == state[a],
        forall|i: int| 0 <= i < rows.len() ==> seeded(state, rows).0.contains_key((#[trigger] rows[i]).0),
        forall|i: int|
            0 <= i < seeded(state, rows).1.len() ==> !state.contains_key(#[trigger] seeded(state, rows).1[i]),
    decreases rows.len(),
{
    if rows.len() > 0 {
        let rest = rows.drop_last();
        law_seed_keeps(state, rest);
        assert forall|i: int| 0 <= i < rows.len() implies seeded(state, rows).0.contains_key(
            (#[trigger] rows[i]).0,
        ) by {
            if i < rest.len() {
                assert(rest[i] == rows[i]);
            }
        }
        assert forall|i: int| 0 <= i < seeded(state, rows).1.len() implies !state.contains_key(
            #[trigger] seeded(state, rows).1[i],
        ) by {
            if i < seeded(state, rest).1.len() {
                assert(seeded(state, rows).1[i] == seeded(state, rest).1[i]);
            }
        }
    }
}

} // verus!
