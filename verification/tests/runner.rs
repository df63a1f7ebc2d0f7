use blockcheckw::config::Protocol;
use blockcheckw::error::{BlockcheckError, CurlVerdictAvailable, TaskResult};
use blockcheckw::network::curl::CurlVerdict;
use blockcheckw::config::CoreConfig;
use blockcheckw::pipeline::runner::{
    batch_tasks, preparation_failed, RunAction, RunEvent, RunMachine, RunPhase, RunProgress,
    RunRequest,
};
use blockcheckw::worker::slot::WorkerSlot;

fn strategies(n: usize) -> Vec<Vec<String>> {
    (1..=n).map(|i| vec![format!("--s={i}")]).collect()
}

#[test]
fn batches_pair_strategies_with_slots() {
    let slots = WorkerSlot::create_slots(4, 200, 30000);
    let strats = strategies(6);
    let ips = vec!["1.2.3.4".to_string()];
    let mut all = Vec::new();
    for (start, end) in [(0, 4), (4, 6)] {
        let tasks = batch_tasks(&slots, "example.org", Protocol::HttpsTls13, &strats, start, end, &ips);
        assert_eq!(tasks.len(), end - start);
        for (j, t) in tasks.iter().enumerate() {
            assert_eq!(t.slot, slots[j]);
            assert_eq!(t.domain, "example.org");
            assert_eq!(t.protocol, Protocol::HttpsTls13);
            assert_eq!(t.ips, ips);
        }
        all.extend(tasks);
    }
    let args: Vec<Vec<String>> = all.into_iter().map(|t| t.strategy_args).collect();
    assert_eq!(args, strats);
}

#[test]
fn failed_preparation_fails_every_strategy() {
    let strats = strategies(3);
    let err = BlockcheckError::Nftables { command: "nft add table inet zapret".to_string(), stderr: "denied".to_string() };
    let (results, stats) = preparation_failed(&strats, &err, 5);
    assert_eq!(results.len(), 3);
    for (r, s) in results.iter().zip(strats.iter()) {
        assert_eq!(&r.strategy_args, s);
        assert!(matches!(&r.result, TaskResult::Error { error: BlockcheckError::Nftables { stderr, .. } } if stderr == "denied"));
    }
    assert_eq!((stats.total, stats.completed, stats.successes, stats.failures, stats.errors), (3, 3, 0, 0, 3));
    assert_eq!(stats.elapsed_nanos, 5);
}

#[test]
fn progress_counts_every_report_once() {
    let mut p = RunProgress::new(4);
    p.record(vec!["a".to_string()], TaskResult::Success { verdict: CurlVerdictAvailable, strategy_args: vec!["a".to_string()] });
    p.record(vec!["b".to_string()], TaskResult::Failed { verdict: CurlVerdict::Unavailable { detail: "timeout".to_string() } });
    p.record(vec!["c".to_string()], TaskResult::Error { error: BlockcheckError::Nfqws2Start { reason: "x".to_string() } });
    p.record_lost();
    let (results, stats) = p.finish(1_000);
    assert_eq!(results.len(), 3);
    assert_eq!(results[1].strategy_args, vec!["b"]);
    assert_eq!((stats.total, stats.completed, stats.successes, stats.failures, stats.errors), (4, 3, 1, 1, 2));
    assert_eq!(stats.successes + stats.failures + stats.errors, stats.total);
}

fn request(n: usize) -> RunRequest {
    RunRequest {
        domain: "rutracker.org".to_string(),
        protocol: Protocol::Http,
        strategies: strategies(n),
        ips: vec!["172.67.182.217".to_string()],
    }
}

fn config(workers: usize) -> CoreConfig {
    CoreConfig::default_for_arch("x86_64").with_worker_count(workers)
}

#[test]
fn run_in_batches_then_drop_table() {
    let cfg = config(2);
    let req = request(3);
    let (m, action) = RunMachine::start(&cfg, &req);
    assert!(matches!(action, RunAction::PrepareTable));
    let (m, action) = m.step(&req, RunEvent::TablePrepared);
    let tasks = match action {
        RunAction::RunBatch { tasks } => tasks,
        other => panic!("unexpected {:?}", other),
    };
    assert_eq!(tasks.len(), 2);
    assert_eq!(tasks[0].strategy_args, vec!["--s=1"]);
    assert_eq!(tasks[1].slot.qnum, 201);
    let ok = TaskResult::Success { verdict: CurlVerdictAvailable, strategy_args: vec!["--s=2".to_string()] };
    let (m, action) = m.step(&req, RunEvent::TaskReported { index: 1, result: ok });
    assert!(matches!(action, RunAction::AwaitReport));
    let (m, action) = m.step(&req, RunEvent::TaskLost { index: 0 });
    let tasks = match action {
        RunAction::RunBatch { tasks } => tasks,
        other => panic!("unexpected {:?}", other),
    };
    assert_eq!(tasks.len(), 1);
    assert_eq!(tasks[0].strategy_args, vec!["--s=3"]);
    assert_eq!(tasks[0].slot.qnum, 200);
    let failed = TaskResult::Failed { verdict: CurlVerdict::Unavailable { detail: "reset".to_string() } };
    let (m, action) = m.step(&req, RunEvent::TaskReported { index: 0, result: failed });
    assert!(matches!(action, RunAction::DropTable));
    assert_eq!(m.phase, RunPhase::Dropping);
    let (m, action) = m.step(&req, RunEvent::TableDropped { elapsed_nanos: 2_000_000_000 });
    assert_eq!(m.phase, RunPhase::Done);
    match action {
        RunAction::Finish { results, stats } => {
            assert_eq!(results.len(), 2);
            assert_eq!(results[0].strategy_args, vec!["--s=2"]);
            assert_eq!(results[1].strategy_args, vec!["--s=3"]);
            assert_eq!((stats.total, stats.completed, stats.successes, stats.failures, stats.errors), (3, 2, 1, 1, 1));
            assert_eq!(stats.elapsed_nanos, 2_000_000_000);
        }
        other => panic!("unexpected {:?}", other),
    }
}

#[test]
fn run_without_strategies_drops_table_at_once() {
    let cfg = config(8);
    let req = request(0);
    let (m, _) = RunMachine::start(&cfg, &req);
    let (m, action) = m.step(&req, RunEvent::TablePrepared);
    assert!(matches!(action, RunAction::DropTable));
    let (_, action) = m.step(&req, RunEvent::TableDropped { elapsed_nanos: 1 });
    match action {
        RunAction::Finish { results, stats } => {
            assert!(results.is_empty());
            assert_eq!((stats.total, stats.completed, stats.errors), (0, 0, 0));
        }
        other => panic!("unexpected {:?}", other),
    }
}

#[test]
fn run_whose_table_fails_does_not_drop_it() {
    let cfg = config(8);
    let req = request(2);
    let (m, _) = RunMachine::start(&cfg, &req);
    let error = BlockcheckError::Nftables { command: "nft add table inet zapret".to_string(), stderr: "no".to_string() };
    let (m, action) = m.step(&req, RunEvent::TableFailed { error, elapsed_nanos: 9 });
    assert_eq!(m.phase, RunPhase::Done);
    match action {
        RunAction::Finish { results, stats } => {
            assert_eq!(results.len(), 2);
            assert_eq!(results[1].strategy_args, vec!["--s=2"]);
            assert_eq!((stats.total, stats.completed, stats.successes, stats.failures, stats.errors), (2, 2, 0, 0, 2));
        }
        other => panic!("unexpected {:?}", other),
    }
}

#[test]
fn run_without_workers_still_reports_a_failed_table() {
    let cfg = config(0);
    let req = request(3);
    let (m, action) = RunMachine::start(&cfg, &req);
    assert!(matches!(action, RunAction::PrepareTable));
    let error = BlockcheckError::Nftables { command: "nft add table inet zapret".to_string(), stderr: "no".to_string() };
    let (_, action) = m.step(&req, RunEvent::TableFailed { error, elapsed_nanos: 1 });
    match action {
        RunAction::Finish { results, stats } => {
            assert_eq!(results.len(), 3);
            assert_eq!(results[2].strategy_args, vec!["--s=3"]);
            assert_eq!((stats.total, stats.completed, stats.errors), (3, 3, 3));
        }
        other => panic!("unexpected {:?}", other),
    }
}

#[test]
fn results_follow_the_tasks_they_belong_to() {
    let cfg = config(3);
    let req = request(3);
    let (m, _) = RunMachine::start(&cfg, &req);
    let (m, _) = m.step(&req, RunEvent::TablePrepared);
    let failed = |d: &str| TaskResult::Failed { verdict: CurlVerdict::Unavailable { detail: d.to_string() } };
    let (m, _) = m.step(&req, RunEvent::TaskReported { index: 2, result: failed("c") });
    let (m, _) = m.step(&req, RunEvent::TaskReported { index: 0, result: failed("a") });
    let (m, action) = m.step(&req, RunEvent::TaskReported { index: 1, result: failed("b") });
    assert!(matches!(action, RunAction::DropTable));
    let (_, action) = m.step(&req, RunEvent::TableDropped { elapsed_nanos: 5 });
    match action {
        RunAction::Finish { results, .. } => {
            let args: Vec<Vec<String>> = results.iter().map(|r| r.strategy_args.clone()).collect();
            assert_eq!(args, vec![vec!["--s=3"], vec!["--s=1"], vec!["--s=2"]]);
        }
        other => panic!("unexpected {:?}", other),
    }
}
