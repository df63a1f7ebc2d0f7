use vstd::prelude::*;

use crate::config::{CoreConfig, Protocol, NFQWS2_INIT_DELAY_MS};
use crate::error::{BlockcheckError, CurlVerdictAvailable, TaskResult};
use crate::firewall::nftables::{
    add_worker_rule_args, remove_rule_args, remove_rule_line, worker_rule_line, RuleHandle,
};
use crate::network::curl::CurlVerdict;
use crate::text::copy_strings;
use crate::worker::nfqws2::{nfqws2_command, nfqws2_command_line};
use crate::worker::slot::WorkerSlot;

verus! {

/// One strategy to test, with the slot of the worker that tests it.
#[derive(Debug)]
pub struct WorkerTask {
    pub slot: WorkerSlot,
    pub domain: String,
    pub strategy_args: Vec<String>,
    pub protocol: Protocol,
    pub ips: Vec<String>,
}

/// Where a worker is in the cycle of testing one strategy.
#[derive(Debug)]
pub enum TaskPhase {
    /// The firewall rule has been asked for.
    AddingRule,
    /// The rule is in place; nfqws2 has been asked to start.
    StartingNfqws2 { handle: RuleHandle },
    /// nfqws2 runs and is given time to attach to its queue.
    Waiting { handle: RuleHandle },
    /// The test request runs.
    Testing { handle: RuleHandle },
    /// The outcome is known; nfqws2 is being stopped.
    StoppingNfqws2 { handle: RuleHandle, result: TaskResult },
    /// The rule is being deleted.
    RemovingRule { result: TaskResult },
    /// The outcome has been handed out.
    Done,
}

/// What the outside world reports back to a worker.
#[derive(Debug)]
pub enum TaskEvent {
    RuleAdded { handle: RuleHandle },
    RuleFailed { error: BlockcheckError },
    Nfqws2Started,
    Nfqws2Failed { error: BlockcheckError },
    Waited,
    CurlFinished { verdict: CurlVerdict },
    Nfqws2Stopped,
    /// The rule deletion was attempted (its own success does not matter).
    RuleRemoved,
}

/// What a worker asks the outside world to do next.
#[derive(Debug)]
pub enum TaskAction {
    /// Run `nft` with these arguments; it prints the new rule's handle.
    AddRule { args: Vec<String> },
    /// Start nfqws2 in the background with this command line.
    StartNfqws2 { command: Vec<String> },
    /// Sleep for this many milliseconds.
    Wait { millis: u64 },
    /// Make the test request from the worker's source ports.
    RunCurl { protocol: Protocol, domain: String, local_port: String, max_time: String },
    /// Stop the nfqws2 process.
    StopNfqws2,
    /// Run `nft` with these arguments, which delete the rule `handle`.
    RemoveRule { handle: RuleHandle, args: Vec<String> },
    /// The test is over, with this outcome.
    Finish { result: TaskResult },
}

/// The events that a phase waits for.
pub open spec fn accepts(phase: TaskPhase, event: TaskEvent) -> bool {
    match phase {
        TaskPhase::AddingRule => event is RuleAdded || event is RuleFailed,
        TaskPhase::StartingNfqws2 { .. } => event is Nfqws2Started || event is Nfqws2Failed,
        TaskPhase::Waiting { .. } => event is Waited,
        TaskPhase::Testing { .. } => event is CurlFinished,
        TaskPhase::StoppingNfqws2 { .. } => event is Nfqws2Stopped,
        TaskPhase::RemovingRule { .. } => event is RuleRemoved,
        TaskPhase::Done => false,
    }
}

/// How a worker starts: it asks for its firewall rule, which sends the packets from its
/// source ports to the protocol's port on the target addresses to its queue.
pub open spec fn initial(config: CoreConfig, task: WorkerTask, phase: TaskPhase, action: TaskAction) -> bool {
    &&& phase is AddingRule
    &&& action matches TaskAction::AddRule { args } && args.deep_view() == worker_rule_line(
        config.nft_table@,
        task.slot.spec_port_range(),
        task.protocol.spec_port(),
        task.slot.qnum,
        task.ips.deep_view(),
    )
}

/// One step of a worker: from `phase`, on `event`, to `next`, asking for `action`.
pub open spec fn transition(
    config: CoreConfig,
    task: WorkerTask,
    phase: TaskPhase,
    event: TaskEvent,
    next: TaskPhase,
    action: TaskAction,
) -> bool {
    match phase {
        TaskPhase::AddingRule => match event {
            TaskEvent::RuleAdded { handle } => {
                &&& next == (TaskPhase::StartingNfqws2 { handle })
                &&& action matches TaskAction::StartNfqws2 { command } && command.deep_view()
                    == nfqws2_command_line(
                    config.nfqws2_path@,
                    config.zapret_base@,
                    task.slot.qnum,
                    task.strategy_args.deep_view(),
                )
            },
            TaskEvent::RuleFailed { error } => {
                &&& next is Done
                &&& action == (TaskAction::Finish { result: TaskResult::Error { error } })
            },
            _ => false,
        },
        TaskPhase::StartingNfqws2 { handle } => match event {
            TaskEvent::Nfqws2Started => {
                &&& next == (TaskPhase::Waiting { handle })
                &&& action == (TaskAction::Wait { millis: NFQWS2_INIT_DELAY_MS })
            },
            TaskEvent::Nfqws2Failed { error } => {
                &&& next == (TaskPhase::RemovingRule { result: TaskResult::Error { error } })
                &&& action matches TaskAction::RemoveRule { handle: h, args } && h == handle
                    && args.deep_view() == remove_rule_line(config.nft_table@, handle)
            },
            _ => false,
        },
        TaskPhase::Waiting { handle } => match event {
            TaskEvent::Waited => {
                &&& next == (TaskPhase::Testing { handle })
                &&& action matches TaskAction::RunCurl { protocol, domain, local_port, max_time }
                    && protocol == task.protocol && domain@ == task.domain@ && local_port@
                    == task.slot.spec_port_range() && max_time@ == config.curl_max_time@
            },
            _ => false,
        },
        TaskPhase::Testing { handle } => match event {
            TaskEvent::CurlFinished { verdict } => {
                &&& action is StopNfqws2
                &&& match verdict {
                    CurlVerdict::Available => next matches TaskPhase::StoppingNfqws2 {
                        handle: h,
                        result: TaskResult::Success { verdict: _, strategy_args },
                    } && h == handle && strategy_args.deep_view() == task.strategy_args.deep_view(),
                    _ => next == (TaskPhase::StoppingNfqws2 {
                        handle,
                        result: TaskResult::Failed { verdict },
                    }),
                }
            },
            _ => false,
        },
        TaskPhase::StoppingNfqws2 { handle, result } => match event {
            TaskEvent::Nfqws2Stopped => {
                &&& next == (TaskPhase::RemovingRule { result })
                &&& action matches TaskAction::RemoveRule { handle: h, args } && h == handle
                    && args.deep_view() == remove_rule_line(config.nft_table@, handle)
            },
            _ => false,
        },
        TaskPhase::RemovingRule { result } => match event {
            TaskEvent::RuleRemoved => {
                &&& next is Done
                &&& action == (TaskAction::Finish { result })
            },
            _ => false,
        },
        TaskPhase::Done => false,
    }
}

/// The firewall rule that a worker has in place and has not yet asked to delete.
pub open spec fn pending_rule(phase: TaskPhase) -> Option<RuleHandle> {
    match phase {
        TaskPhase::StartingNfqws2 { handle } => Some(handle),
        TaskPhase::Waiting { handle } => Some(handle),
        TaskPhase::Testing { handle } => Some(handle),
        TaskPhase::StoppingNfqws2 { handle, .. } => Some(handle),
        _ => None,
    }
}

/// nfqws2 runs and the worker has not yet asked to stop it.
pub open spec fn nfqws2_running(phase: TaskPhase) -> bool {
    phase is Waiting || phase is Testing
}

/// An upper bound of the steps left until the worker is done.
pub open spec fn steps_left(phase: TaskPhase) -> nat {
    match phase {
        TaskPhase::AddingRule => 6,
        TaskPhase::StartingNfqws2 { .. } => 5,
        TaskPhase::Waiting { .. } => 4,
        TaskPhase::Testing { .. } => 3,
        TaskPhase::StoppingNfqws2 { .. } => 2,
        TaskPhase::RemovingRule { .. } => 1,
        TaskPhase::Done => 0,
    }
}

/// A worker cleans up after itself: it holds a firewall rule only from the moment nft
/// reports it added, and lets go of it only by asking for its deletion; it holds a running
/// nfqws2 only from the moment nfqws2 started, and lets go of it only by stopping it; it
/// hands out its outcome only when it holds neither; and each step brings it closer to the
/// end, which takes no further event.
pub proof fn lemma_worker_cleans_up(
    config: CoreConfig,
    task: WorkerTask,
    phase: TaskPhase,
    event: TaskEvent,
    next: TaskPhase,
    action: TaskAction,
)
    requires
        transition(config, task, phase, event, next, action),
    ensures
        action is Finish ==> pending_rule(phase) is None && !nfqws2_running(phase) && next is Done,
        next is Done ==> action is Finish,
        pending_rule(next) is Some && pending_rule(next) != pending_rule(phase) ==> event
            == (TaskEvent::RuleAdded { handle: pending_rule(next)->0 }),
        pending_rule(phase) is Some && pending_rule(next) != pending_rule(phase) ==> (action matches TaskAction::RemoveRule {
            handle,
            ..
        } && handle == pending_rule(phase)->0),
        nfqws2_running(next) && !nfqws2_running(phase) ==> event is Nfqws2Started,
        nfqws2_running(phase) && !nfqws2_running(next) ==> action is StopNfqws2,
        steps_left(next) < steps_left(phase),
        !accepts(TaskPhase::Done, event),
{
}

/// A run of a worker: it starts in `phases[0]` asking for `actions[0]`, and step `i` takes
/// it from `phases[i]`, on `events[i]`, to `phases[i + 1]`, asking for `actions[i + 1]`.
pub open spec fn is_run(
    config: CoreConfig,
    task: WorkerTask,
    phases: Seq<TaskPhase>,
    events: Seq<TaskEvent>,
    actions: Seq<TaskAction>,
) -> bool {
    &&& phases.len() == events.len() + 1
    &&& actions.len() == phases.len()
    &&& initial(config, task, phases[0], actions[0])
    &&& forall|i: int|
        0 <= i < events.len() ==> transition(
            config,
            task,
            #[trigger] phases[i],
            events[i],
            phases[i + 1],
            actions[i + 1],
        )
}

proof fn lemma_rule_released(
    config: CoreConfig,
    task: WorkerTask,
    phases: Seq<TaskPhase>,
    events: Seq<TaskEvent>,
    actions: Seq<TaskAction>,
    k: int,
    h: RuleHandle,
)
    requires
        is_run(config, task, phases, events, actions),
        pending_rule(phases.last()) is None,
        0 <= k < phases.len(),
        pending_rule(phases[k]) == Some(h),
    ensures
        exists|j: int|
            k < j < actions.len() && (#[trigger] actions[j] matches TaskAction::RemoveRule { handle, .. }
                && handle == h),
    decreases phases.len() - k,
{
    if k < phases.len() - 1 {
        lemma_worker_cleans_up(config, task, phases[k], events[k], phases[k + 1], actions[k + 1]);
        if pending_rule(phases[k + 1]) == Some(h) {
            lemma_rule_released(config, task, phases, events, actions, k + 1, h);
        } else {
            assert(actions[k + 1] matches TaskAction::RemoveRule { handle, .. } && handle == h);
        }
    }
}

proof fn lemma_nfqws2_stopped(
    config: CoreConfig,
    task: WorkerTask,
    phases: Seq<TaskPhase>,
    events: Seq<TaskEvent>,
    actions: Seq<TaskAction>,
    k: int,
)
    requires
        is_run(config, task, phases, events, actions),
        !nfqws2_running(phases.last()),
        0 <= k < phases.len(),
        nfqws2_running(phases[k]),
    ensures
        exists|j: int| k < j < actions.len() && #[trigger] actions[j] is StopNfqws2,
    decreases phases.len() - k,
{
    if k < phases.len() - 1 {
        lemma_worker_cleans_up(config, task, phases[k], events[k], phases[k + 1], actions[k + 1]);
        if nfqws2_running(phases[k + 1]) {
            lemma_nfqws2_stopped(config, task, phases, events, actions, k + 1);
        } else {
            assert(actions[k + 1] is StopNfqws2);
        }
    }
}

/// By the time a worker hands out its outcome, it has asked to delete every firewall rule
/// that nft reported added for it, and to stop every nfqws2 that it started: a finished
/// test leaves neither a rule nor a process behind.
pub proof fn lemma_finished_run_cleaned_up(
    config: CoreConfig,
    task: WorkerTask,
    phases: Seq<TaskPhase>,
    events: Seq<TaskEvent>,
    actions: Seq<TaskAction>,
)
    requires
        is_run(config, task, phases, events, actions),
        actions.last() is Finish,
    ensures
        forall|i: int|
            0 <= i < events.len() && #[trigger] events[i] is RuleAdded ==> exists|j: int|
                i < j < actions.len() && (#[trigger] actions[j] matches TaskAction::RemoveRule {
                    handle,
                    ..
                } && handle == events[i]->RuleAdded_handle),
        forall|i: int|
            0 <= i < events.len() && #[trigger] events[i] is Nfqws2Started ==> exists|j: int|
                i < j < actions.len() && #[trigger] actions[j] is StopNfqws2,
{
    let n = phases.len();
    assert(n >= 2) by {
        if n == 1 {
            assert(actions[0] is AddRule);
        }
    }
    lemma_worker_cleans_up(config, task, phases[n - 2], events[n - 2], phases[n - 1], actions[n - 1]);
    assert(phases.last() is Done);
    assert forall|i: int| 0 <= i < events.len() && #[trigger] events[i] is RuleAdded implies exists|j: int|
        i < j < actions.len() && (#[trigger] actions[j] matches TaskAction::RemoveRule {
            handle,
            ..
        } && handle == events[i]->RuleAdded_handle) by {
        let h = events[i]->RuleAdded_handle;
        assert(transition(config, task, phases[i], events[i], phases[i + 1], actions[i + 1]));
        assert(pending_rule(phases[i + 1]) == Some(h));
        lemma_rule_released(config, task, phases, events, actions, i + 1, h);
    }
    assert forall|i: int| 0 <= i < events.len() && #[trigger] events[i] is Nfqws2Started implies exists|j: int|
        i < j < actions.len() && #[trigger] actions[j] is StopNfqws2 by {
        assert(transition(config, task, phases[i], events[i], phases[i + 1], actions[i + 1]));
        assert(nfqws2_running(phases[i + 1]));
        lemma_nfqws2_stopped(config, task, phases, events, actions, i + 1);
    }
}

/// The first step of a worker.
pub fn first_step(config: &CoreConfig, task: &WorkerTask) -> (r: (TaskPhase, TaskAction))
    ensures
        initial(*config, *task, r.0, r.1),
{
    let sport_range = task.slot.sport_range();
    let args = add_worker_rule_args(
        config.nft_table.as_str(),
        sport_range.as_str(),
        task.protocol.port(),
        task.slot.qnum,
        &task.ips,
    );
    (TaskPhase::AddingRule, TaskAction::AddRule { args })
}

/// The next step of a worker, given what the outside world reported.
pub fn next_step(config: &CoreConfig, task: &WorkerTask, phase: TaskPhase, event: TaskEvent) -> (r: (
    TaskPhase,
    TaskAction,
))
    requires
        accepts(phase, event),
    ensures
        transition(*config, *task, phase, event, r.0, r.1),
{
    match phase {
        TaskPhase::AddingRule => match event {
            TaskEvent::RuleAdded { handle } => {
                let command = nfqws2_command(config, task.slot.qnum, &task.strategy_args);
                (TaskPhase::StartingNfqws2 { handle }, TaskAction::StartNfqws2 { command })
            },
            TaskEvent::RuleFailed { error } => {
                (TaskPhase::Done, TaskAction::Finish { result: TaskResult::Error { error } })
            },
            _ => {
                assert(false);
                (TaskPhase::Done, TaskAction::StopNfqws2)
            },
        },
        TaskPhase::StartingNfqws2 { handle } => match event {
            TaskEvent::Nfqws2Started => {
                (TaskPhase::Waiting { handle }, TaskAction::Wait { millis: NFQWS2_INIT_DELAY_MS })
            },
            TaskEvent::Nfqws2Failed { error } => {
                let args = remove_rule_args(config.nft_table.as_str(), handle);
                (
                    TaskPhase::RemovingRule { result: TaskResult::Error { error } },
                    TaskAction::RemoveRule { handle, args },
                )
            },
            _ => {
                assert(false);
                (TaskPhase::Done, TaskAction::StopNfqws2)
            },
        },
        TaskPhase::Waiting { handle } => {
            let local_port = task.slot.local_port_arg();
            (
                TaskPhase::Testing { handle },
                TaskAction::RunCurl {
                    protocol: task.protocol,
                    domain: task.domain.clone(),
                    local_port,
                    max_time: config.curl_max_time.clone(),
                },
            )
        },
        TaskPhase::Testing { handle } => match event {
            TaskEvent::CurlFinished { verdict } => {
                let result = match verdict {
                    CurlVerdict::Available => TaskResult::Success {
                        verdict: CurlVerdictAvailable,
                        strategy_args: copy_strings(&task.strategy_args),
                    },
                    other => TaskResult::Failed { verdict: other },
                };
                (TaskPhase::StoppingNfqws2 { handle, result }, TaskAction::StopNfqws2)
            },
            _ => {
                assert(false);
                (TaskPhase::Done, TaskAction::StopNfqws2)
            },
        },
        TaskPhase::StoppingNfqws2 { handle, result } => {
            let args = remove_rule_args(config.nft_table.as_str(), handle);
            (TaskPhase::RemovingRule { result }, TaskAction::RemoveRule { handle, args })
        },
        TaskPhase::RemovingRule { result } => (TaskPhase::Done, TaskAction::Finish { result }),
        TaskPhase::Done => {
            assert(false);
            (TaskPhase::Done, TaskAction::StopNfqws2)
        },
    }
}

} // verus!
