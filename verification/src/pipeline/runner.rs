use vstd::prelude::*;

use crate::config::{CoreConfig, Protocol, PORTS_PER_WORKER};
use crate::error::{BlockcheckError, TaskResult};
use crate::pipeline::worker_task::WorkerTask;
use crate::text::{copy_strings, owned};
use vstd::arithmetic::div_mod::{
    lemma_div_is_ordered, lemma_fundamental_div_mod, lemma_fundamental_div_mod_converse,
    lemma_mod_add_multiples_vanish,
};
use crate::worker::slot::{slots_apart, slots_isolated, slots_laid_out, WorkerSlot};

verus! {

/// The outcome of one strategy of a run.
#[derive(Debug)]
pub struct StrategyResult {
    pub strategy_args: Vec<String>,
    pub result: TaskResult,
}

/// The counts of a run.
#[derive(Debug, Clone, Copy)]
pub struct RunStats {
    /// Strategies that the run was given.
    pub total: usize,
    /// Strategies whose test came back with an outcome.
    pub completed: usize,
    pub successes: usize,
    pub failures: usize,
    /// Outcomes that were infrastructure errors, and tests that were lost altogether.
    pub errors: usize,
    /// How long the run took.
    pub elapsed_nanos: u64,
}

/// No two of the tasks share a queue or a source port.
pub open spec fn tasks_isolated(tasks: Seq<WorkerTask>) -> bool {
    forall|i: int, j: int|
        0 <= i < tasks.len() && 0 <= j < tasks.len() && i != j ==> slots_apart(
            tasks[i].slot,
            tasks[j].slot,
        )
}

/// `tasks` are the tasks of `strategies[start..end]`: the `j`-th strategy of the batch is
/// tested by the worker of the `j`-th slot, against `domain` with `protocol` on `ips`.
pub open spec fn batch_of(
    tasks: Seq<WorkerTask>,
    slots: Seq<WorkerSlot>,
    domain: Seq<char>,
    protocol: Protocol,
    strategies: Seq<Vec<String>>,
    ips: Seq<Seq<char>>,
    start: int,
    end: int,
) -> bool {
    &&& tasks.len() == end - start
    &&& forall|j: int|
        0 <= j < tasks.len() ==> {
            &&& (#[trigger] tasks[j]).slot == slots[j]
            &&& tasks[j].domain@ == domain
            &&& tasks[j].strategy_args.deep_view() == strategies[start + j].deep_view()
            &&& tasks[j].protocol == protocol
            &&& tasks[j].ips.deep_view() == ips
        }
}

/// The tasks of the batch `strategies[start..end]` of a run. Since slots are isolated, the
/// tasks of a batch can all run at once.
pub fn batch_tasks(
    slots: &Vec<WorkerSlot>,
    domain: &str,
    protocol: Protocol,
    strategies: &Vec<Vec<String>>,
    start: usize,
    end: usize,
    ips: &Vec<String>,
) -> (r: Vec<WorkerTask>)
    requires
        start <= end <= strategies.len(),
        end - start <= slots.len(),
    ensures
        batch_of(r@, slots@, domain@, protocol, strategies@, ips.deep_view(), start as int, end as int),
        slots_isolated(slots@) ==> tasks_isolated(r@),
{
    let mut r: Vec<WorkerTask> = Vec::new();
    let mut k = start;
    while k < end
        invariant
            start <= k <= end <= strategies.len(),
            end - start <= slots.len(),
            batch_of(r@, slots@, domain@, protocol, strategies@, ips.deep_view(), start as int, k as int),
        decreases end - k,
    {
        let task = WorkerTask {
            slot: slots[k - start],
            domain: owned(domain),
            strategy_args: copy_strings(&strategies[k]),
            protocol,
            ips: copy_strings(ips),
        };
        r.push(task);
        k = k + 1;
    }
    proof {
        if slots_isolated(slots@) {
            assert forall|i: int, j: int| 0 <= i < r@.len() && 0 <= j < r@.len() && i != j implies slots_apart(
                r@[i].slot,
                r@[j].slot,
            ) by {
                assert(r@[i].slot == slots@[i]);
                assert(r@[j].slot == slots@[j]);
            }
        }
    }
    r
}

/// What a run comes to when the firewall table could not be prepared: every strategy
/// fails with that error.
pub fn preparation_failed(strategies: &Vec<Vec<String>>, error: &BlockcheckError, elapsed_nanos: u64) -> (r: (
    Vec<StrategyResult>,
    RunStats,
))
    ensures
        r.0.len() == strategies.len(),
        forall|i: int|
            0 <= i < r.0.len() ==> (#[trigger] r.0[i]).strategy_args.deep_view() == strategies[i].deep_view()
                && r.0[i].result == (TaskResult::Error { error: *error }),
        r.1 == (RunStats {
            total: strategies.len(),
            completed: strategies.len(),
            successes: 0,
            failures: 0,
            errors: strategies.len(),
            elapsed_nanos,
        }),
        r.1.successes + r.1.failures + r.1.errors == r.1.total,
{
    let mut results: Vec<StrategyResult> = Vec::new();
    let mut i: usize = 0;
    while i < strategies.len()
        invariant
            i <= strategies.len(),
            results.len() == i,
            forall|k: int|
                0 <= k < i ==> (#[trigger] results[k]).strategy_args.deep_view()
                    == strategies[k].deep_view() && results[k].result == (TaskResult::Error {
                    error: *error,
                }),
        decreases strategies.len() - i,
    {
        results.push(
            StrategyResult {
                strategy_args: copy_strings(&strategies[i]),
                result: TaskResult::Error { error: error.duplicate() },
            },
        );
        i = i + 1;
    }
    let n = strategies.len();
    (
        results,
        RunStats {
            total: n,
            completed: n,
            successes: 0,
            failures: 0,
            errors: n,
            elapsed_nanos,
        },
    )
}

/// How many of the results are successes.
pub open spec fn count_successes(rs: Seq<StrategyResult>) -> nat
    decreases rs.len(),
{
    if rs.len() == 0 {
        0
    } else {
        count_successes(rs.drop_last()) + if rs.last().result is Success {
            1nat
        } else {
            0
        }
    }
}

/// How many of the results are failures.
pub open spec fn count_failures(rs: Seq<StrategyResult>) -> nat
    decreases rs.len(),
{
    if rs.len() == 0 {
        0
    } else {
        count_failures(rs.drop_last()) + if rs.last().result is Failed {
            1nat
        } else {
            0
        }
    }
}

/// How many of the results are infrastructure errors.
pub open spec fn count_errors(rs: Seq<StrategyResult>) -> nat
    decreases rs.len(),
{
    if rs.len() == 0 {
        0
    } else {
        count_errors(rs.drop_last()) + if rs.last().result is Error {
            1nat
        } else {
            0
        }
    }
}

/// Results that are all errors count as errors only.
proof fn lemma_counts_all_errors(rs: Seq<StrategyResult>)
    requires
        forall|i: int| 0 <= i < rs.len() ==> (#[trigger] rs[i]).result is Error,
    ensures
        count_successes(rs) == 0,
        count_failures(rs) == 0,
        count_errors(rs) == rs.len(),
    decreases rs.len(),
{
    if rs.len() > 0 {
        let d = rs.drop_last();
        assert forall|i: int| 0 <= i < d.len() implies (#[trigger] d[i]).result is Error by {
            assert(d[i] == rs[i]);
        }
        lemma_counts_all_errors(d);
        assert(rs[rs.len() - 1].result is Error);
    }
}

/// The tally of a run while its tasks report back.
#[derive(Debug)]
pub struct RunProgress {
    pub total: usize,
    pub results: Vec<StrategyResult>,
    pub successes: usize,
    pub failures: usize,
    pub errors: usize,
    /// Tasks that were lost without an outcome.
    pub lost: usize,
}

impl RunProgress {
    /// Every report is counted once, and no more reports came in than there are tasks.
    pub open spec fn wf(self) -> bool {
        &&& self.successes == count_successes(self.results@)
        &&& self.failures == count_failures(self.results@)
        &&& self.errors == count_errors(self.results@) + self.lost
        &&& self.successes + self.failures + self.errors == self.results.len() + self.lost
        &&& self.results.len() + self.lost <= self.total
    }

    /// The tasks that have reported back.
    pub open spec fn reported(self) -> int {
        self.results.len() + self.lost
    }

    /// A tally for `total` tasks, none of which has reported yet.
    pub fn new(total: usize) -> (p: RunProgress)
        ensures
            p.wf(),
            p.total == total,
            p.results@.len() == 0,
            p.successes == 0 && p.failures == 0 && p.errors == 0 && p.lost == 0,
    {
        RunProgress { total, results: Vec::new(), successes: 0, failures: 0, errors: 0, lost: 0 }
    }

    /// A task reported its outcome.
    pub fn record(&mut self, strategy_args: Vec<String>, result: TaskResult)
        requires
            old(self).wf(),
            old(self).reported() < old(self).total,
        ensures
            final(self).wf(),
            final(self).total == old(self).total,
            final(self).lost == old(self).lost,
            final(self).results@ == old(self).results@.push(StrategyResult { strategy_args, result }),
            final(self).successes == old(self).successes + if result is Success { 1int } else { 0 },
            final(self).failures == old(self).failures + if result is Failed { 1int } else { 0 },
            final(self).errors == old(self).errors + if result is Error { 1int } else { 0 },
    {
        match &result {
            TaskResult::Success { .. } => self.successes = self.successes + 1,
            TaskResult::Failed { .. } => self.failures = self.failures + 1,
            TaskResult::Error { .. } => self.errors = self.errors + 1,
        }
        let ghost before = self.results@;
        self.results.push(StrategyResult { strategy_args, result });
        assert(self.results@.drop_last() =~= before);
    }

    /// A task was lost without an outcome; it counts as an error.
    pub fn record_lost(&mut self)
        requires
            old(self).wf(),
            old(self).reported() < old(self).total,
        ensures
            final(self).wf(),
            final(self).total == old(self).total,
            final(self).results@ == old(self).results@,
            final(self).lost == old(self).lost + 1,
            final(self).successes == old(self).successes,
            final(self).failures == old(self).failures,
            final(self).errors == old(self).errors + 1,
    {
        self.lost = self.lost + 1;
        self.errors = self.errors + 1;
    }

    /// The outcomes and counts of a run whose tasks have all reported back: every strategy
    /// is counted exactly once, as a success, a failure or an error.
    pub fn finish(self, elapsed_nanos: u64) -> (r: (Vec<StrategyResult>, RunStats))
        requires
            self.wf(),
            self.reported() == self.total,
        ensures
            r.0@ == self.results@,
            r.1 == (RunStats {
                total: self.total,
                completed: self.results.len(),
                successes: self.successes,
                failures: self.failures,
                errors: self.errors,
                elapsed_nanos,
            }),
            r.1.successes + r.1.failures + r.1.errors == r.1.total,
            r.1.completed <= r.1.total,
    {
        let completed = self.results.len();
        let stats = RunStats {
            total: self.total,
            completed,
            successes: self.successes,
            failures: self.failures,
            errors: self.errors,
            elapsed_nanos,
        };
        (self.results, stats)
    }
}


/// What a run is asked to test.
#[derive(Debug)]
pub struct RunRequest {
    pub domain: String,
    pub protocol: Protocol,
    pub strategies: Vec<Vec<String>>,
    pub ips: Vec<String>,
}

/// Where a run is.
#[derive(Debug, Clone, Copy, PartialEq, Eq, Structural)]
pub enum RunPhase {
    /// The firewall table and chain are being created.
    Preparing,
    /// A batch of tasks runs.
    Running,
    /// Every task has reported back; the table is being deleted.
    Dropping,
    /// The outcome has been handed out.
    Done,
}

/// What the outside world reports back to a run.
#[derive(Debug)]
pub enum RunEvent {
    TablePrepared,
    TableFailed { error: BlockcheckError, elapsed_nanos: u64 },
    /// The task at `index` in the running batch came back with its outcome.
    TaskReported { index: usize, result: TaskResult },
    /// The task at `index` in the running batch was lost without an outcome.
    TaskLost { index: usize },
    TableDropped { elapsed_nanos: u64 },
}

/// What a run asks the outside world to do next.
#[derive(Debug)]
pub enum RunAction {
    /// Create the table and its chain.
    PrepareTable,
    /// Start these tasks side by side and report each, by its place in the batch, as it ends.
    RunBatch { tasks: Vec<WorkerTask> },
    /// Report the next task of the running batch that ends.
    AwaitReport,
    /// Delete the table.
    DropTable,
    /// The run is over, with these outcomes and counts.
    Finish { results: Vec<StrategyResult>, stats: RunStats },
}

/// A run of strategies in batches, one task per worker slot at a time.
#[derive(Debug)]
pub struct RunMachine {
    pub phase: RunPhase,
    pub slots: Vec<WorkerSlot>,
    /// The place of the running batch's first strategy among the request's strategies.
    pub batch_start: usize,
    /// Strategies handed out so far, from the first on.
    pub scheduled: usize,
    /// For each task of the running batch, whether it has yet to report back.
    pub pending: Vec<bool>,
    /// For each result, the place of its strategy among the request's strategies.
    pub origins: Vec<usize>,
    /// The places of the strategies whose tasks were lost.
    pub lost: Vec<usize>,
    pub progress: RunProgress,
}

/// The batch that place `x` belongs to, with `w` strategies per batch.
pub open spec fn batch_no(x: usize, w: nat) -> int {
    (x as int) / (w as int)
}

/// How many tasks are still pending.
pub open spec fn count_true(s: Seq<bool>) -> nat
    decreases s.len(),
{
    if s.len() == 0 {
        0
    } else {
        count_true(s.drop_last()) + if s.last() {
            1nat
        } else {
            0
        }
    }
}

proof fn lemma_count_true_update(s: Seq<bool>, j: int)
    requires
        0 <= j < s.len(),
        s[j],
    ensures
        count_true(s.update(j, false)) + 1 == count_true(s),
    decreases s.len(),
{
    let t = s.update(j, false);
    if j < s.len() - 1 {
        lemma_count_true_update(s.drop_last(), j);
        assert(t.drop_last() =~= s.drop_last().update(j, false));
    } else {
        assert(t.drop_last() =~= s.drop_last());
    }
}

proof fn lemma_count_true_all(n: nat)
    ensures
        count_true(Seq::new(n, |i: int| true)) == n,
    decreases n,
{
    if n > 0 {
        lemma_count_true_all((n - 1) as nat);
        assert(Seq::new(n, |i: int| true).drop_last() =~= Seq::new((n - 1) as nat, |i: int| true));
    }
}

proof fn lemma_count_true_zero(s: Seq<bool>)
    requires
        count_true(s) == 0,
    ensures
        forall|j: int| 0 <= j < s.len() ==> !s[j],
    decreases s.len(),
{
    if s.len() > 0 {
        lemma_count_true_zero(s.drop_last());
        assert forall|j: int| 0 <= j < s.len() implies !s[j] by {
            if j < s.len() - 1 {
                assert(s[j] == s.drop_last()[j]);
            }
        }
    }
}

/// A place in the batch that starts at a multiple of `w` belongs to that batch, at its
/// offset.
proof fn lemma_same_batch(start: int, w: int, x: int)
    requires
        w > 0,
        start >= 0,
        start % w == 0,
        start <= x < start + w,
    ensures
        x / w == start / w,
        x % w == x - start,
{
    lemma_fundamental_div_mod(start, w);
    let q = start / w;
    assert(start == q * w) by (nonlinear_arith)
        requires
            start == w * q + start % w,
            start % w == 0,
    ;
    lemma_fundamental_div_mod_converse(x, w, q, x - start);
}

impl RunMachine {
    /// The places of the strategies that have reported back, in the order they did.
    pub open spec fn handled(self) -> Seq<usize> {
        self.origins@ + self.lost@
    }

    /// The strategy at place `x` has reported back: it belongs to an earlier batch, or to
    /// the running one and is no longer pending.
    pub open spec fn is_handled(self, x: int) -> bool {
        ||| 0 <= x < self.batch_start
        ||| self.batch_start <= x < self.scheduled && !self.pending@[x - self.batch_start]
    }

    /// What holds of a run that is not over: the tally agrees with the pending flags; every
    /// result is paired with its strategy; each strategy has reported at most once, and
    /// exactly those of earlier batches and the non-pending ones of the running batch have;
    /// the results come batch by batch; batches start at multiples of the slot count.
    pub open spec fn wf_core(self, request: RunRequest) -> bool {
        let n = request.strategies.len();
        let w = self.slots@.len();
        &&& self.progress.wf()
        &&& self.progress.total == n
        &&& self.batch_start <= self.scheduled <= n
        &&& self.pending@.len() == self.scheduled - self.batch_start
        &&& self.pending@.len() <= w
        &&& w > 0 ==> (self.batch_start as int) % (w as int) == 0
        &&& self.progress.reported() == self.batch_start + self.pending@.len() - count_true(self.pending@)
        &&& self.origins@.len() == self.progress.results@.len()
        &&& self.lost@.len() == self.progress.lost
        &&& forall|k: int|
            0 <= k < self.origins@.len() ==> (#[trigger] self.origins@[k]) < n
                && self.progress.results@[k].strategy_args.deep_view()
                == request.strategies@[self.origins@[k] as int].deep_view()
        &&& self.handled().no_duplicates()
        &&& forall|x: usize| #[trigger] self.handled().contains(x) <==> self.is_handled(x as int)
        &&& w > 0 ==> forall|k: int, l: int|
            0 <= k < l < self.origins@.len() ==> batch_no(#[trigger] self.origins@[k], w) <= batch_no(
                #[trigger] self.origins@[l],
                w,
            )
        &&& w > 0 ==> forall|k: int|
            0 <= k < self.origins@.len() ==> batch_no(#[trigger] self.origins@[k], w) <= batch_no(
                self.batch_start,
                w,
            )
    }

    /// The run is well-formed for `request`.
    pub open spec fn wf(self, request: RunRequest) -> bool {
        let n = request.strategies.len();
        &&& slots_isolated(self.slots@)
        &&& !(self.phase is Done) ==> {
            &&& self.wf_core(request)
            &&& self.scheduled < n && !(self.phase is Preparing) ==> self.pending@.len()
                == self.slots@.len()
            &&& self.phase is Preparing ==> self.scheduled == 0
            &&& self.phase is Running ==> count_true(self.pending@) > 0
            &&& self.phase is Dropping ==> count_true(self.pending@) == 0 && self.scheduled == n
        }
    }

    /// The events that the run waits for: each task of the running batch reports back once.
    pub open spec fn accepts(self, event: RunEvent) -> bool {
        match self.phase {
            RunPhase::Preparing => event is TablePrepared || event is TableFailed,
            RunPhase::Running => match event {
                RunEvent::TaskReported { index, .. } => index < self.pending@.len()
                    && self.pending@[index as int],
                RunEvent::TaskLost { index } => index < self.pending@.len() && self.pending@[index as int],
                _ => false,
            },
            RunPhase::Dropping => event is TableDropped,
            RunPhase::Done => false,
        }
    }
}

/// After every task handed out has reported back (`m.scheduled` of them): the next batch,
/// as many of the remaining strategies as there are slots, or, when none remain, deleting
/// the table. Strategy `i` of a batch runs on slot `i mod w`.
pub open spec fn continues(request: RunRequest, m: RunMachine, m2: RunMachine, action: RunAction) -> bool {
    let n = request.strategies.len() as int;
    let w = m.slots@.len() as int;
    let scheduled = m.scheduled as int;
    &&& m2.slots == m.slots
    &&& m2.progress == m.progress
    &&& m2.origins == m.origins
    &&& m2.lost == m.lost
    &&& if scheduled == n {
        &&& m2.phase is Dropping
        &&& m2.scheduled == n
        &&& m2.batch_start == m.batch_start
        &&& m2.pending == m.pending
        &&& action is DropTable
    } else {
        let end = if n - scheduled <= w {
            n
        } else {
            scheduled + w
        };
        &&& m2.phase is Running
        &&& m2.batch_start == scheduled
        &&& m2.scheduled == end
        &&& m2.pending@ == Seq::new((end - scheduled) as nat, |i: int| true)
        &&& action matches RunAction::RunBatch { tasks } && batch_of(
            tasks@,
            m.slots@,
            request.domain@,
            request.protocol,
            request.strategies@,
            request.ips.deep_view(),
            scheduled,
            end,
        ) && tasks_isolated(tasks@) && (forall|j: int|
            0 <= j < tasks@.len() ==> (#[trigger] tasks@[j]).slot == m.slots@[(scheduled + j) % w])
    }
}

/// The task at `index` of the running batch came back with `result`: the run `m1` records
/// it, paired with its strategy, and no longer waits for it.
pub open spec fn report_recorded(
    request: RunRequest,
    m: RunMachine,
    index: int,
    result: TaskResult,
    m1: RunMachine,
) -> bool {
    &&& m1.phase is Running
    &&& m1.slots == m.slots
    &&& m1.batch_start == m.batch_start
    &&& m1.scheduled == m.scheduled
    &&& m1.pending@ == m.pending@.update(index, false)
    &&& m1.progress.total == m.progress.total
    &&& m1.progress.lost == m.progress.lost
    &&& m1.lost == m.lost
    &&& m1.origins@ == m.origins@.push((m.batch_start + index) as usize)
    &&& m1.progress.results@.len() == m.progress.results@.len() + 1
    &&& m1.progress.results@.drop_last() == m.progress.results@
    &&& m1.progress.results@.last().result == result
    &&& m1.progress.results@.last().strategy_args.deep_view() == request.strategies@[m.batch_start
        + index].deep_view()
    &&& m1.progress.successes == m.progress.successes + if result is Success {
        1int
    } else {
        0
    }
    &&& m1.progress.failures == m.progress.failures + if result is Failed {
        1int
    } else {
        0
    }
    &&& m1.progress.errors == m.progress.errors + if result is Error {
        1int
    } else {
        0
    }
}

/// The task at `index` of the running batch was lost: the run `m1` counts it as an error
/// and no longer waits for it.
pub open spec fn report_lost(request: RunRequest, m: RunMachine, index: int, m1: RunMachine) -> bool {
    &&& m1.phase is Running
    &&& m1.slots == m.slots
    &&& m1.batch_start == m.batch_start
    &&& m1.scheduled == m.scheduled
    &&& m1.pending@ == m.pending@.update(index, false)
    &&& m1.progress.total == m.progress.total
    &&& m1.progress.lost == m.progress.lost + 1
    &&& m1.lost@ == m.lost@.push((m.batch_start + index) as usize)
    &&& m1.origins == m.origins
    &&& m1.progress.results@ == m.progress.results@
    &&& m1.progress.successes == m.progress.successes
    &&& m1.progress.failures == m.progress.failures
    &&& m1.progress.errors == m.progress.errors + 1
}

/// After a report: wait for the rest of the batch, or go on.
pub open spec fn after_report(request: RunRequest, m1: RunMachine, m2: RunMachine, action: RunAction) -> bool {
    if m1.progress.reported() < m1.scheduled {
        &&& m2 == m1
        &&& action is AwaitReport
    } else {
        continues(request, m1, m2, action)
    }
}

/// One step of a run: from `m`, on `event`, to `m2`, asking for `action`.
pub open spec fn run_step(
    request: RunRequest,
    m: RunMachine,
    event: RunEvent,
    m2: RunMachine,
    action: RunAction,
) -> bool {
    let n = request.strategies.len() as int;
    match m.phase {
        RunPhase::Preparing => match event {
            RunEvent::TablePrepared => m.slots@.len() > 0 && continues(request, m, m2, action),
            RunEvent::TableFailed { error, elapsed_nanos } => {
                &&& m2.phase is Done
                &&& m2.slots == m.slots
                &&& action matches RunAction::Finish { results, stats } && results.len() == n
                    && (forall|i: int|
                    0 <= i < n ==> (#[trigger] results[i]).strategy_args.deep_view()
                        == request.strategies[i].deep_view() && results[i].result == (TaskResult::Error {
                        error,
                    })) && stats == (RunStats {
                    total: n as usize,
                    completed: n as usize,
                    successes: 0,
                    failures: 0,
                    errors: n as usize,
                    elapsed_nanos,
                })
            },
            _ => false,
        },
        RunPhase::Running => match event {
            RunEvent::TaskReported { index, result } => index < m.pending@.len() && m.pending@[index as int]
                && exists|m1: RunMachine|
                report_recorded(request, m, index as int, result, m1) && #[trigger] after_report(
                    request,
                    m1,
                    m2,
                    action,
                ),
            RunEvent::TaskLost { index } => index < m.pending@.len() && m.pending@[index as int]
                && exists|m1: RunMachine|
                report_lost(request, m, index as int, m1) && #[trigger] after_report(
                    request,
                    m1,
                    m2,
                    action,
                ),
            _ => false,
        },
        RunPhase::Dropping => match event {
            RunEvent::TableDropped { elapsed_nanos } => {
                &&& m2.phase is Done
                &&& m2.slots == m.slots
                &&& action matches RunAction::Finish { results, stats } && results@
                    == m.progress.results@ && stats == (RunStats {
                    total: m.progress.total,
                    completed: m.progress.results.len(),
                    successes: m.progress.successes,
                    failures: m.progress.failures,
                    errors: m.progress.errors,
                    elapsed_nanos,
                })
            },
            _ => false,
        },
        RunPhase::Done => false,
    }
}

/// A report keeps the run in order: the strategy reported is the one at its place, it had
/// not reported before, and it belongs to the running batch.
proof fn lemma_report_wf(
    request: RunRequest,
    m: RunMachine,
    index: int,
    m1: RunMachine,
    result: TaskResult,
    lost_it: bool,
)
    requires
        m.wf(request),
        m.phase is Running,
        0 <= index < m.pending@.len(),
        m.pending@[index],
        if lost_it {
            report_lost(request, m, index, m1)
        } else {
            report_recorded(request, m, index, result, m1)
        },
    ensures
        m1.wf_core(request),
        m1.phase is Running,
        slots_isolated(m1.slots@),
        m1.scheduled < request.strategies.len() ==> m1.pending@.len() == m1.slots@.len(),
        count_true(m1.pending@) + 1 == count_true(m.pending@),
        (m1.progress.reported() == m1.scheduled) == (count_true(m1.pending@) == 0),
        count_true(m1.pending@) > 0 ==> m1.wf(request),
        m1.scheduled < request.strategies.len() ==> (m1.scheduled as int) % (m1.slots@.len() as int)
            == 0,
{
    let n = request.strategies.len();
    let w = m.slots@.len() as int;
    let bs = m.batch_start as int;
    let p = (m.batch_start + index) as usize;
    lemma_count_true_update(m.pending@, index);
    lemma_same_batch(bs, w, p as int);
    if m.scheduled < n {
        lemma_mod_add_multiples_vanish(bs, w);
        assert(m.scheduled == w + bs);
    }
    assert(!m.is_handled(p as int));
    assert(!m.handled().contains(p));
    let h = m.handled();
    let h1 = m1.handled();
    assert forall|x: usize| m1.is_handled(x as int) <==> (m.is_handled(x as int) || x == p) by {
        if bs <= x < m.scheduled {
            assert(m1.pending@[x - bs] == (if x - bs == index {
                false
            } else {
                m.pending@[x - bs]
            }));
        }
    }
    if lost_it {
        assert(h1 =~= m.origins@ + m.lost@.push(p));
        assert(h1 =~= h.push(p));
        assert(m1.progress.results@ == m.progress.results@);
    } else {
        let rs = m1.progress.results@;
        assert(rs.drop_last() == m.progress.results@);
        assert forall|k: int| 0 <= k < m1.origins@.len() implies (#[trigger] m1.origins@[k]) < n
            && m1.progress.results@[k].strategy_args.deep_view()
            == request.strategies@[m1.origins@[k] as int].deep_view() by {
            if k < m.origins@.len() {
                assert(m1.origins@[k] == m.origins@[k]);
                assert(rs[k] == rs.drop_last()[k]);
            }
        }
        assert forall|k: int, l: int|
            0 <= k < l < m1.origins@.len() implies batch_no(#[trigger] m1.origins@[k], w as nat)
            <= batch_no(#[trigger] m1.origins@[l], w as nat) by {
            assert(m1.origins@[k] == m.origins@[k]);
            if l < m.origins@.len() {
                assert(m1.origins@[l] == m.origins@[l]);
            }
        }
        assert forall|k: int| 0 <= k < m1.origins@.len() implies batch_no(
            #[trigger] m1.origins@[k],
            w as nat,
        ) <= batch_no(m1.batch_start, w as nat) by {
            if k < m.origins@.len() {
                assert(m1.origins@[k] == m.origins@[k]);
            }
        }
    }
    assert forall|x: usize| #[trigger] h1.contains(x) <==> (h.contains(x) || x == p) by {
        if h1.contains(x) {
            let i = choose|i: int| 0 <= i < h1.len() && h1[i] == x;
            if lost_it {
                if i < h.len() {
                    assert(h[i] == x);
                }
            } else {
                if i < m.origins@.len() {
                    assert(h[i] == x);
                } else if i > m.origins@.len() {
                    assert(h[i - 1] == x);
                }
            }
        }
        if h.contains(x) {
            let i = choose|i: int| 0 <= i < h.len() && h[i] == x;
            if lost_it || i < m.origins@.len() {
                assert(h1[i] == x);
            } else {
                assert(h1[i + 1] == x);
            }
        }
        if x == p {
            if lost_it {
                assert(h1[h.len() as int] == x);
            } else {
                assert(h1[m.origins@.len() as int] == x);
            }
        }
    }
    assert(h1.no_duplicates()) by {
        assert forall|i: int, j: int| 0 <= i < h1.len() && 0 <= j < h1.len() && i != j implies h1[i]
            != h1[j] by {
            let pos = if lost_it {
                h.len() as int
            } else {
                m.origins@.len() as int
            };
            let oi = if i < pos {
                i
            } else {
                i - 1
            };
            let oj = if j < pos {
                j
            } else {
                j - 1
            };
            if i != pos {
                assert(h1[i] == h[oi]);
            }
            if j != pos {
                assert(h1[j] == h[oj]);
            }
            if i == pos {
                assert(h1[i] == p);
                assert(h.contains(h1[j]));
            } else if j == pos {
                assert(h1[j] == p);
                assert(h.contains(h1[i]));
            }
        }
    }
}

/// Going on after every task has reported back keeps the run in order: a new batch starts
/// at a multiple of the slot count, right after the strategies already handed out.
proof fn lemma_continues_wf(request: RunRequest, m: RunMachine, m2: RunMachine, action: RunAction)
    requires
        m.wf_core(request),
        slots_isolated(m.slots@),
        m.slots@.len() > 0,
        m.phase is Preparing ==> m.scheduled == 0,
        m.scheduled < request.strategies.len() && !(m.phase is Preparing) ==> m.pending@.len()
            == m.slots@.len(),
        count_true(m.pending@) == 0,
        continues(request, m, m2, action),
    ensures
        m2.wf(request),
{
    let n = request.strategies.len() as int;
    let w = m.slots@.len() as int;
    let s0 = m.scheduled as int;
    lemma_count_true_zero(m.pending@);
    if s0 < n {
        assert(s0 % w == 0) by {
            if m.phase is Preparing {
                assert(s0 == 0);
            } else {
                lemma_mod_add_multiples_vanish(m.batch_start as int, w);
                assert(s0 == w + m.batch_start);
            }
        }
        let end = if n - s0 <= w {
            n
        } else {
            s0 + w
        };
        lemma_count_true_all((end - s0) as nat);
        assert forall|x: usize| m2.is_handled(x as int) <==> m.is_handled(x as int) by {
            if m.batch_start <= x < m.scheduled {
                assert(!m.pending@[x - m.batch_start]);
            }
        }
        assert forall|k: int| 0 <= k < m2.origins@.len() implies batch_no(
            #[trigger] m2.origins@[k],
            w as nat,
        ) <= batch_no(m2.batch_start, w as nat) by {
            assert(m.handled()[k] == m.origins@[k]);
            assert(m.handled().contains(m.origins@[k]));
            lemma_div_is_ordered(m.origins@[k] as int, s0, w);
        }
    }
}

/// A step keeps a run well-formed.
pub proof fn lemma_run_step_wf(request: RunRequest, m: RunMachine, event: RunEvent, m2: RunMachine, action: RunAction)
    requires
        m.wf(request),
        run_step(request, m, event, m2, action),
    ensures
        m2.wf(request),
{
    match m.phase {
        RunPhase::Preparing => {
            if event is TablePrepared {
                lemma_continues_wf(request, m, m2, action);
            }
        },
        RunPhase::Running => match event {
            RunEvent::TaskReported { index, result } => {
                let m1 = choose|m1: RunMachine|
                    report_recorded(request, m, index as int, result, m1) && #[trigger] after_report(
                        request,
                        m1,
                        m2,
                        action,
                    );
                lemma_report_wf(request, m, index as int, m1, result, false);
                if m1.progress.reported() >= m1.scheduled {
                    lemma_continues_wf(request, m1, m2, action);
                }
            },
            RunEvent::TaskLost { index } => {
                let m1 = choose|m1: RunMachine|
                    report_lost(request, m, index as int, m1) && #[trigger] after_report(
                        request,
                        m1,
                        m2,
                        action,
                    );
                lemma_report_wf(request, m, index as int, m1, TaskResult::Error { error: BlockcheckError::NftHandleParse { output: arbitrary() } }, true);
                if m1.progress.reported() >= m1.scheduled {
                    lemma_continues_wf(request, m1, m2, action);
                }
            },
            _ => {},
        },
        _ => {},
    }
}

impl RunMachine {
    /// A run of `request` with the worker slots of `config`; it begins by preparing the
    /// table.
    pub fn start(config: &CoreConfig, request: &RunRequest) -> (r: (RunMachine, RunAction))
        requires
            config.base_qnum + config.worker_count <= 0x10000,
            config.base_local_port + PORTS_PER_WORKER * config.worker_count <= 0x10000,
        ensures
            r.0.wf(*request),
            r.0.phase is Preparing,
            r.0.scheduled == 0,
            r.0.progress.results@.len() == 0,
            r.0.progress.successes == 0 && r.0.progress.failures == 0 && r.0.progress.errors == 0
                && r.0.progress.lost == 0,
            r.0.origins@.len() == 0 && r.0.lost@.len() == 0,
            slots_laid_out(
                r.0.slots@,
                config.worker_count as int,
                config.base_qnum as int,
                config.base_local_port as int,
            ),
            r.1 is PrepareTable,
    {
        let slots = WorkerSlot::create_slots(config.worker_count, config.base_qnum, config.base_local_port);
        let progress = RunProgress::new(request.strategies.len());
        let m = RunMachine {
            phase: RunPhase::Preparing,
            slots,
            batch_start: 0,
            scheduled: 0,
            pending: Vec::new(),
            origins: Vec::new(),
            lost: Vec::new(),
            progress,
        };
        proof {
            assert(m.handled() =~= Seq::<usize>::empty());
            if m.slots@.len() > 0 {
                assert(0int % (m.slots@.len() as int) == 0);
            }
        }
        (m, RunAction::PrepareTable)
    }

    /// Hands out the next batch, or asks for the table to be deleted when no strategy is left.
    fn go_on(self, request: &RunRequest) -> (r: (RunMachine, RunAction))
        requires
            self.slots@.len() > 0,
            slots_isolated(self.slots@),
            self.scheduled <= request.strategies.len(),
            self.scheduled < request.strategies.len() ==> (self.scheduled as int) % (self.slots@.len() as int) == 0,
        ensures
            continues(*request, self, r.0, r.1),
    {
        let ghost m = self;
        let n = request.strategies.len();
        if self.scheduled == n {
            (RunMachine { phase: RunPhase::Dropping, ..self }, RunAction::DropTable)
        } else {
            let w = self.slots.len();
            let start = self.scheduled;
            let end = if n - start <= w {
                n
            } else {
                start + w
            };
            let tasks = batch_tasks(
                &self.slots,
                request.domain.as_str(),
                request.protocol,
                &request.strategies,
                start,
                end,
                &request.ips,
            );
            proof {
                assert forall|j: int| 0 <= j < tasks@.len() implies (#[trigger] tasks@[j]).slot
                    == m.slots@[(start + j) % (w as int)] by {
                    lemma_same_batch(start as int, w as int, start + j);
                }
            }
            let mut pending: Vec<bool> = Vec::new();
            let mut k = start;
            while k < end
                invariant
                    start <= k <= end,
                    pending@ == Seq::new((k - start) as nat, |i: int| true),
                decreases end - k,
            {
                pending.push(true);
                assert(pending@ =~= Seq::new((k + 1 - start) as nat, |i: int| true));
                k = k + 1;
            }
            (
                RunMachine { phase: RunPhase::Running, batch_start: start, scheduled: end, pending, ..self },
                RunAction::RunBatch { tasks },
            )
        }
    }

    /// The next step of the run, given what the outside world reported. Handing out a batch
    /// needs at least one worker slot.
    pub fn step(self, request: &RunRequest, event: RunEvent) -> (r: (RunMachine, RunAction))
        requires
            self.wf(*request),
            self.accepts(event),
            event is TablePrepared ==> self.slots@.len() > 0,
        ensures
            run_step(*request, self, event, r.0, r.1),
            r.0.wf(*request),
    {
        let ghost m = self;
        match self.phase {
            RunPhase::Preparing => match event {
                RunEvent::TablePrepared => {
                    let r = self.go_on(request);
                    proof {
                        lemma_continues_wf(*request, m, r.0, r.1);
                    }
                    r
                },
                RunEvent::TableFailed { error, elapsed_nanos } => {
                    let (results, stats) = preparation_failed(&request.strategies, &error, elapsed_nanos);
                    let done = RunMachine {
                        phase: RunPhase::Done,
                        slots: self.slots,
                        batch_start: 0,
                        scheduled: 0,
                        pending: Vec::new(),
                        origins: Vec::new(),
                        lost: Vec::new(),
                        progress: RunProgress::new(0),
                    };
                    (done, RunAction::Finish { results, stats })
                },
                _ => {
                    assert(false);
                    (self, RunAction::AwaitReport)
                },
            },
            RunPhase::Running => {
                let RunMachine { phase, slots, batch_start, scheduled, mut pending, mut origins, mut lost, mut progress } = self;
                let ghost w = slots@.len() as int;
                let index = match &event {
                    RunEvent::TaskReported { index, .. } => *index,
                    RunEvent::TaskLost { index } => *index,
                    _ => {
                        assert(false);
                        0
                    },
                };
                let place = batch_start + index;
                proof {
                    lemma_count_true_update(pending@, index as int);
                    lemma_same_batch(batch_start as int, w, place as int);
                }
                let ghost mut res: TaskResult = TaskResult::Error { error: BlockcheckError::NftHandleParse { output: arbitrary() } };
                let ghost lost_it = event is TaskLost;
                match event {
                    RunEvent::TaskReported { index: _, result } => {
                        proof {
                            res = result;
                        }
                        let strategy_args = copy_strings(&request.strategies[place]);
                        let ghost before = progress.results@;
                        progress.record(strategy_args, result);
                        assert(progress.results@.drop_last() =~= before);
                        origins.push(place);
                    },
                    RunEvent::TaskLost { .. } => {
                        progress.record_lost();
                        lost.push(place);
                    },
                    _ => {
                        assert(false);
                    },
                }
                pending.set(index, false);
                let all_back = progress.results.len() + progress.lost == scheduled;
                let m1 = RunMachine {
                    phase: RunPhase::Running,
                    slots,
                    batch_start,
                    scheduled,
                    pending,
                    origins,
                    lost,
                    progress,
                };
                proof {
                    if lost_it {
                        assert(report_lost(*request, m, index as int, m1));
                    } else {
                        assert(report_recorded(*request, m, index as int, res, m1));
                    }
                    lemma_report_wf(*request, m, index as int, m1, res, lost_it);
                }
                if all_back {
                    let r = m1.go_on(request);
                    proof {
                        lemma_continues_wf(*request, m1, r.0, r.1);
                        assert(after_report(*request, m1, r.0, r.1));
                    }
                    r
                } else {
                    proof {
                        assert(after_report(*request, m1, m1, RunAction::AwaitReport));
                    }
                    (m1, RunAction::AwaitReport)
                }
            },
            RunPhase::Dropping => match event {
                RunEvent::TableDropped { elapsed_nanos } => {
                    let total = self.progress.total;
                    let (results, stats) = self.progress.finish(elapsed_nanos);
                    let done = RunMachine {
                        phase: RunPhase::Done,
                        slots: self.slots,
                        batch_start: 0,
                        scheduled: 0,
                        pending: Vec::new(),
                        origins: Vec::new(),
                        lost: Vec::new(),
                        progress: RunProgress::new(total),
                    };
                    (done, RunAction::Finish { results, stats })
                },
                _ => {
                    assert(false);
                    (self, RunAction::AwaitReport)
                },
            },
            RunPhase::Done => {
                assert(false);
                (self, RunAction::AwaitReport)
            },
        }
    }
}

/// What each step of a run keeps to: it deletes the table only once the table was prepared
/// and every strategy was handed out and has reported back; it hands out its outcome only
/// after deleting the table, or when preparing the table failed, and its counts are then
/// those of the outcomes it hands out (plus the lost tasks among the errors), adding up to
/// the strategies it was given; each batch is a non-empty stretch of the next strategies in
/// order, no larger than the number of slots, handed out only when the previous batch has
/// reported back, the strategy at place `i` on slot `i mod w`, the tasks on pairwise isolated
/// slots; a report records the strategy at the reported place, once; and the run never goes
/// back to preparing.
pub proof fn lemma_run_step_laws(request: RunRequest, m: RunMachine, event: RunEvent, m2: RunMachine, action: RunAction)
    requires
        m.wf(request),
        run_step(request, m, event, m2, action),
    ensures
        action is DropTable ==> (m.phase is Preparing ==> event is TablePrepared) && m2.phase is Dropping
            && m2.scheduled == request.strategies.len() && m2.progress.reported()
            == request.strategies.len(),
        action matches RunAction::Finish { results, stats } ==> m2.phase is Done && ((m.phase is Dropping
            && event is TableDropped) || (m.phase is Preparing && event is TableFailed))
            && stats.successes + stats.failures + stats.errors == stats.total && stats.total
            == request.strategies.len() && results.len() == stats.completed && stats.successes
            == count_successes(results@) && stats.failures == count_failures(results@)
            && stats.errors == count_errors(results@) + (stats.total - stats.completed),
        action matches RunAction::RunBatch { tasks } ==> 0 < tasks.len() <= m.slots.len() && tasks_isolated(
            tasks@,
        ) && m2.batch_start == (if m.phase is Preparing {
            0
        } else {
            m.scheduled as int
        }) && m2.progress.reported() == m2.batch_start && batch_of(
            tasks@,
            m.slots@,
            request.domain@,
            request.protocol,
            request.strategies@,
            request.ips.deep_view(),
            m2.batch_start as int,
            m2.scheduled as int,
        ) && (forall|j: int|
            0 <= j < tasks@.len() ==> (#[trigger] tasks@[j]).slot == m.slots@[(m2.batch_start + j)
                % (m.slots@.len() as int)]),
        !(m2.phase is Done) ==> m.scheduled <= m2.scheduled,
        !(m2.phase is Done) && m2.scheduled != m.scheduled ==> action is RunBatch,
        !(m2.phase is Preparing),
        m2.phase is Dropping && !(m.phase is Dropping) ==> action is DropTable,
        m2.phase is Running && m.phase is Preparing ==> event is TablePrepared,
        m2.phase is Done ==> action is Finish,
        m2.phase is Done && m.phase is Running ==> false,
{
    lemma_run_step_wf(request, m, event, m2, action);
    match m.phase {
        RunPhase::Preparing => {
            if let RunEvent::TableFailed { error, elapsed_nanos } = event {
                if let RunAction::Finish { results, stats } = action {
                    lemma_counts_all_errors(results@);
                }
            }
        },
        RunPhase::Running => match event {
            RunEvent::TaskReported { index, result } => {
                let m1 = choose|m1: RunMachine|
                    report_recorded(request, m, index as int, result, m1) && #[trigger] after_report(
                        request,
                        m1,
                        m2,
                        action,
                    );
                lemma_report_wf(request, m, index as int, m1, result, false);
            },
            RunEvent::TaskLost { index } => {
                let m1 = choose|m1: RunMachine|
                    report_lost(request, m, index as int, m1) && #[trigger] after_report(
                        request,
                        m1,
                        m2,
                        action,
                    );
                lemma_report_wf(
                    request,
                    m,
                    index as int,
                    m1,
                    TaskResult::Error { error: BlockcheckError::NftHandleParse { output: arbitrary() } },
                    true,
                );
            },
            _ => {},
        },
        _ => {},
    }
}

/// A run of `request`: it starts in `ms[0]`, preparing, asking for `actions[0]`, and step `i`
/// takes it from `ms[i]`, on `events[i]`, to `ms[i + 1]`, asking for `actions[i + 1]`.
pub open spec fn is_run_of(
    request: RunRequest,
    ms: Seq<RunMachine>,
    events: Seq<RunEvent>,
    actions: Seq<RunAction>,
) -> bool {
    &&& ms.len() == events.len() + 1
    &&& actions.len() == ms.len()
    &&& ms[0].wf(request)
    &&& ms[0].phase is Preparing
    &&& actions[0] is PrepareTable
    &&& forall|i: int|
        0 <= i < events.len() ==> run_step(request, #[trigger] ms[i], events[i], ms[i + 1], actions[i + 1])
}

proof fn lemma_run_wf(request: RunRequest, ms: Seq<RunMachine>, events: Seq<RunEvent>, actions: Seq<RunAction>, k: int)
    requires
        is_run_of(request, ms, events, actions),
        0 <= k < ms.len(),
    ensures
        ms[k].wf(request),
    decreases k,
{
    if k > 0 {
        lemma_run_wf(request, ms, events, actions, k - 1);
        lemma_run_step_wf(request, ms[k - 1], events[k - 1], ms[k], actions[k]);
    }
}

proof fn lemma_running_leads_to_drop(
    request: RunRequest,
    ms: Seq<RunMachine>,
    events: Seq<RunEvent>,
    actions: Seq<RunAction>,
    k: int,
)
    requires
        is_run_of(request, ms, events, actions),
        ms.last().phase is Done,
        0 <= k < ms.len(),
        ms[k].phase is Running,
    ensures
        exists|j: int| k < j < actions.len() && #[trigger] actions[j] is DropTable,
    decreases ms.len() - k,
{
    if k < ms.len() - 1 {
        lemma_run_wf(request, ms, events, actions, k);
        lemma_run_step_laws(request, ms[k], events[k], ms[k + 1], actions[k + 1]);
        if ms[k + 1].phase is Running {
            lemma_running_leads_to_drop(request, ms, events, actions, k + 1);
        } else {
            assert(actions[k + 1] is DropTable);
        }
    }
}

proof fn lemma_running_after_prepared(
    request: RunRequest,
    ms: Seq<RunMachine>,
    events: Seq<RunEvent>,
    actions: Seq<RunAction>,
    k: int,
)
    requires
        is_run_of(request, ms, events, actions),
        0 <= k < ms.len(),
        ms[k].phase is Running || ms[k].phase is Dropping,
    ensures
        exists|i: int| 0 <= i < k && #[trigger] events[i] is TablePrepared,
    decreases k,
{
    if k > 0 {
        lemma_run_wf(request, ms, events, actions, k - 1);
        lemma_run_step_laws(request, ms[k - 1], events[k - 1], ms[k], actions[k]);
        if ms[k - 1].phase is Preparing {
            assert(events[k - 1] is TablePrepared);
        } else {
            lemma_running_after_prepared(request, ms, events, actions, k - 1);
        }
    }
}

/// A finished run deletes the firewall table exactly when it prepared it: the table that a
/// run creates never outlives the run, and a run that could not create it does not try to
/// delete it.
pub proof fn lemma_finished_run_drops_table(
    request: RunRequest,
    ms: Seq<RunMachine>,
    events: Seq<RunEvent>,
    actions: Seq<RunAction>,
)
    requires
        is_run_of(request, ms, events, actions),
        actions.last() is Finish,
    ensures
        (exists|i: int| 0 <= i < events.len() && #[trigger] events[i] is TablePrepared) <==> (exists|j: int|
            0 <= j < actions.len() && #[trigger] actions[j] is DropTable),
        (exists|i: int| 0 <= i < events.len() && #[trigger] events[i] is TablePrepared) ==> ms[ms.len()
            - 2].phase is Dropping,
{
    let n = ms.len();
    assert(n >= 2) by {
        if n == 1 {
            assert(actions[0] is PrepareTable);
        }
    }
    lemma_run_wf(request, ms, events, actions, n - 2);
    lemma_run_step_laws(request, ms[n - 2], events[n - 2], ms[n - 1], actions[n - 1]);
    if exists|i: int| 0 <= i < events.len() && #[trigger] events[i] is TablePrepared {
        let i = choose|i: int| 0 <= i < events.len() && #[trigger] events[i] is TablePrepared;
        lemma_run_wf(request, ms, events, actions, i);
        lemma_run_step_laws(request, ms[i], events[i], ms[i + 1], actions[i + 1]);
        assert(ms[i].phase is Preparing) by {
            if !(ms[i].phase is Preparing) {
                assert(run_step(request, ms[i], events[i], ms[i + 1], actions[i + 1]));
            }
        }
        if ms[i + 1].phase is Running {
            lemma_running_leads_to_drop(request, ms, events, actions, i + 1);
        } else {
            assert(actions[i + 1] is DropTable);
        }
        assert(ms[n - 2].phase is Dropping) by {
            if ms[n - 2].phase is Preparing {
                if i < n - 2 {
                    lemma_run_wf(request, ms, events, actions, n - 3);
                    lemma_run_step_laws(request, ms[n - 3], events[n - 3], ms[n - 2], actions[n - 2]);
                }
            }
        }
    }
    if exists|j: int| 0 <= j < actions.len() && #[trigger] actions[j] is DropTable {
        let j = choose|j: int| 0 <= j < actions.len() && #[trigger] actions[j] is DropTable;
        assert(j > 0);
        lemma_run_wf(request, ms, events, actions, j - 1);
        lemma_run_step_laws(request, ms[j - 1], events[j - 1], ms[j], actions[j]);
        if ms[j - 1].phase is Preparing {
            assert(events[j - 1] is TablePrepared);
        } else {
            lemma_running_after_prepared(request, ms, events, actions, j - 1);
        }
    }
}

/// A finished run that prepared its table accounts for every strategy of the request once:
/// each strategy either has exactly one result, paired with it, or its task was lost; the
/// results come batch by batch (with `w` slots, the strategy at place `i` is in batch
/// `i / w`, and a result of an earlier batch never follows one of a later batch); and the
/// counts are those of the results, the lost tasks counted among the errors.
pub proof fn lemma_finished_run_accounts_for_every_strategy(
    request: RunRequest,
    ms: Seq<RunMachine>,
    events: Seq<RunEvent>,
    actions: Seq<RunAction>,
    i: int,
)
    requires
        is_run_of(request, ms, events, actions),
        actions.last() is Finish,
        0 <= i < events.len(),
        events[i] is TablePrepared,
    ensures
        ({
            let m = ms[ms.len() - 2];
            let n = request.strategies.len();
            let w = m.slots@.len();
            &&& w > 0
            &&& actions.last() matches RunAction::Finish { results, stats } && {
                &&& results@ == m.progress.results@
                &&& results@.len() == m.origins@.len()
                &&& forall|k: int|
                    0 <= k < results@.len() ==> (#[trigger] m.origins@[k]) < n
                        && results@[k].strategy_args.deep_view()
                        == request.strategies@[m.origins@[k] as int].deep_view()
                &&& stats.total == n
                &&& stats.successes == count_successes(results@)
                &&& stats.failures == count_failures(results@)
                &&& stats.errors == count_errors(results@) + m.lost@.len()
            }
            &&& (m.origins@ + m.lost@).no_duplicates()
            &&& forall|x: usize| #[trigger] (m.origins@ + m.lost@).contains(x) <==> x < n
            &&& forall|k: int, l: int|
                0 <= k < l < m.origins@.len() ==> batch_no(#[trigger] m.origins@[k], w) <= batch_no(
                    #[trigger] m.origins@[l],
                    w,
                )
        }),
{
    lemma_finished_run_drops_table(request, ms, events, actions);
    let n = ms.len();
    let m = ms[n - 2];
    lemma_run_wf(request, ms, events, actions, n - 2);
    lemma_run_step_laws(request, m, events[n - 2], ms[n - 1], actions[n - 1]);
    lemma_count_true_zero(m.pending@);
    assert(m.slots@.len() > 0) by {
        lemma_run_wf(request, ms, events, actions, i);
        assert(run_step(request, ms[i], events[i], ms[i + 1], actions[i + 1]));
        assert(ms[i].phase is Preparing) by {
            if !(ms[i].phase is Preparing) {
                assert(run_step(request, ms[i], events[i], ms[i + 1], actions[i + 1]));
            }
        }
        lemma_slots_kept(request, ms, events, actions, i, n - 2);
    }
    assert forall|x: usize| m.is_handled(x as int) <==> x < request.strategies.len() by {
        if m.batch_start <= x < m.scheduled {
            assert(!m.pending@[x - m.batch_start]);
        }
    }
}

/// Step `j` of a run hands out the strategy at place `x`: it asks for a batch whose tasks
/// begin at place `ms[j].batch_start` and reach past `x`.
pub open spec fn hands_out(ms: Seq<RunMachine>, actions: Seq<RunAction>, j: int, x: int) -> bool {
    actions[j] matches RunAction::RunBatch { tasks } && ms[j].batch_start <= x < ms[j].batch_start
        + tasks@.len()
}

/// Some step up to `ms[k]` hands out the strategy at place `x`.
spec fn handed_out_by(ms: Seq<RunMachine>, actions: Seq<RunAction>, k: int, x: int) -> bool {
    exists|j: int| 1 <= j <= k && #[trigger] hands_out(ms, actions, j, x)
}

/// Step `j` of a run hands out the strategies from where the run stood on: a batch takes the
/// next ones, any other step none.
spec fn schedules_next(ms: Seq<RunMachine>, actions: Seq<RunAction>, j: int) -> bool {
    &&& actions[j] matches RunAction::RunBatch { tasks } ==> ms[j].batch_start == ms[j - 1].scheduled
        && ms[j].batch_start + tasks@.len() == ms[j].scheduled
    &&& !(actions[j] is RunBatch) ==> ms[j].scheduled == ms[j - 1].scheduled
}

/// Up to `ms[k]`, the strategies before `ms[k].scheduled`, and only they, have been handed
/// out, each by exactly one step.
proof fn lemma_handed_out_so_far(ms: Seq<RunMachine>, actions: Seq<RunAction>, k: int)
    requires
        0 <= k < ms.len(),
        k < actions.len(),
        ms[0].scheduled == 0,
        forall|j: int| 1 <= j <= k ==> #[trigger] schedules_next(ms, actions, j),
    ensures
        forall|x: int| 0 <= x < ms[k].scheduled ==> #[trigger] handed_out_by(ms, actions, k, x),
        forall|x: int, j: int| 1 <= j <= k && #[trigger] hands_out(ms, actions, j, x) ==> x < ms[k].scheduled,
        forall|x: int, j1: int, j2: int|
            1 <= j1 <= k && 1 <= j2 <= k && #[trigger] hands_out(ms, actions, j1, x) && #[trigger] hands_out(
                ms,
                actions,
                j2,
                x,
            ) ==> j1 == j2,
    decreases k,
{
    if k > 0 {
        lemma_handed_out_so_far(ms, actions, k - 1);
        assert(schedules_next(ms, actions, k));
        let prev = ms[k - 1].scheduled;
        assert forall|x: int| 0 <= x < ms[k].scheduled implies #[trigger] handed_out_by(ms, actions, k, x) by {
            if x >= prev {
                assert(hands_out(ms, actions, k, x));
            } else {
                assert(handed_out_by(ms, actions, k - 1, x));
                let j = choose|j: int| 1 <= j <= k - 1 && #[trigger] hands_out(ms, actions, j, x);
                assert(hands_out(ms, actions, j, x));
            }
        }
        if !(actions[k] is RunBatch) {
            assert(forall|x: int| !hands_out(ms, actions, k, x));
        }
    }
}

/// How a step moves the run's count of strategies handed out: a batch takes the next ones.
proof fn lemma_step_schedule(request: RunRequest, m: RunMachine, event: RunEvent, m2: RunMachine, action: RunAction)
    requires
        m.wf(request),
        run_step(request, m, event, m2, action),
        !(m2.phase is Done),
    ensures
        action matches RunAction::RunBatch { tasks } ==> m2.batch_start == m.scheduled && m2.batch_start
            + tasks@.len() == m2.scheduled,
        !(action is RunBatch) ==> m2.scheduled == m.scheduled,
{
    lemma_run_step_laws(request, m, event, m2, action);
}

/// A finished run that prepared its table hands out every strategy of the request exactly
/// once: the strategy at place `x` is in the batch of exactly one step `j`, as the batch's
/// task `x - ms[j].batch_start`, tested with its own arguments against the request's domain,
/// protocol and addresses on slot `x mod w` of the run's `w` slots; that batch holds no more
/// tasks than there are slots, on pairwise isolated slots, and was asked for only once every
/// task handed out before it had reported back.
pub proof fn lemma_finished_run_hands_out_every_strategy_once(
    request: RunRequest,
    ms: Seq<RunMachine>,
    events: Seq<RunEvent>,
    actions: Seq<RunAction>,
    i: int,
    x: int,
)
    requires
        is_run_of(request, ms, events, actions),
        actions.last() is Finish,
        0 <= i < events.len(),
        events[i] is TablePrepared,
        0 <= x < request.strategies.len(),
    ensures
        exists|j: int| 1 <= j < actions.len() && #[trigger] hands_out(ms, actions, j, x),
        forall|j1: int, j2: int|
            1 <= j1 < actions.len() && 1 <= j2 < actions.len() && #[trigger] hands_out(ms, actions, j1, x)
                && #[trigger] hands_out(ms, actions, j2, x) ==> j1 == j2,
        forall|j: int|
            1 <= j < actions.len() && #[trigger] hands_out(ms, actions, j, x) ==> (
            actions[j] matches RunAction::RunBatch { tasks } && {
                let w = ms[0].slots@.len();
                let t = tasks@[x - ms[j].batch_start];
                &&& w > 0
                &&& tasks@.len() <= w
                &&& tasks_isolated(tasks@)
                &&& t.slot == ms[0].slots@[x % (w as int)]
                &&& t.strategy_args.deep_view() == request.strategies@[x].deep_view()
                &&& t.domain@ == request.domain@
                &&& t.protocol == request.protocol
                &&& t.ips.deep_view() == request.ips.deep_view()
                &&& ms[j].progress.reported() == ms[j].batch_start
            }),
{
    let n = ms.len();
    lemma_finished_run_drops_table(request, ms, events, actions);
    lemma_run_wf(request, ms, events, actions, n - 2);
    assert forall|j: int| 1 <= j <= n - 2 implies #[trigger] schedules_next(ms, actions, j) by {
        let m = ms[j - 1];
        lemma_run_wf(request, ms, events, actions, j - 1);
        assert(run_step(request, m, events[j - 1], ms[j], actions[j]));
        assert(!(ms[j].phase is Done)) by {
            if j < n - 2 {
                assert(run_step(request, ms[j], events[j], ms[j + 1], actions[j + 1]));
            }
        }
        lemma_step_schedule(request, m, events[j - 1], ms[j], actions[j]);
    }
    assert(ms[0].scheduled == 0);
    lemma_handed_out_so_far(ms, actions, n - 2);
    assert(handed_out_by(ms, actions, n - 2, x));
    assert(!hands_out(ms, actions, n - 1, x));
    assert forall|j: int| 1 <= j < actions.len() && #[trigger] hands_out(ms, actions, j, x) implies (
    actions[j] matches RunAction::RunBatch { tasks } && {
        let w = ms[0].slots@.len();
        let t = tasks@[x - ms[j].batch_start];
        &&& w > 0
        &&& tasks@.len() <= w
        &&& tasks_isolated(tasks@)
        &&& t.slot == ms[0].slots@[x % (w as int)]
        &&& t.strategy_args.deep_view() == request.strategies@[x].deep_view()
        &&& t.domain@ == request.domain@
        &&& t.protocol == request.protocol
        &&& t.ips.deep_view() == request.ips.deep_view()
        &&& ms[j].progress.reported() == ms[j].batch_start
    }) by {
        let m = ms[j - 1];
        lemma_run_wf(request, ms, events, actions, j - 1);
        lemma_run_step_laws(request, m, events[j - 1], ms[j], actions[j]);
        lemma_slots_kept(request, ms, events, actions, 0, j - 1);
        if let RunAction::RunBatch { tasks } = actions[j] {
            let b = ms[j].batch_start as int;
            assert(tasks@[x - b].slot == m.slots@[(b + (x - b)) % (m.slots@.len() as int)]);
            assert(b + (x - b) == x);
        }
    }
}

/// A run keeps its slots until it is done.
proof fn lemma_slots_kept(
    request: RunRequest,
    ms: Seq<RunMachine>,
    events: Seq<RunEvent>,
    actions: Seq<RunAction>,
    i: int,
    k: int,
)
    requires
        is_run_of(request, ms, events, actions),
        0 <= i <= k < ms.len(),
    ensures
        ms[k].slots == ms[i].slots,
    decreases k - i,
{
    if i < k {
        lemma_slots_kept(request, ms, events, actions, i, k - 1);
        let a = ms[k - 1];
        let e = events[k - 1];
        assert(run_step(request, a, e, ms[k], actions[k]));
        if a.phase is Running {
            match e {
                RunEvent::TaskReported { index, result } => {
                    let m1 = choose|m1: RunMachine|
                        report_recorded(request, a, index as int, result, m1) && #[trigger] after_report(
                            request,
                            m1,
                            ms[k],
                            actions[k],
                        );
                },
                RunEvent::TaskLost { index } => {
                    let m1 = choose|m1: RunMachine|
                        report_lost(request, a, index as int, m1) && #[trigger] after_report(
                            request,
                            m1,
                            ms[k],
                            actions[k],
                        );
                },
                _ => {},
            }
        }
    }
}

} // verus!
