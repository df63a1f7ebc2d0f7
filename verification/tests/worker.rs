use blockcheckw::config::{CoreConfig, Protocol};
use blockcheckw::error::{BlockcheckError, TaskResult};
use blockcheckw::firewall::nftables::RuleHandle;
use blockcheckw::network::curl::CurlVerdict;
use blockcheckw::pipeline::worker_task::{first_step, next_step, TaskAction, TaskEvent, TaskPhase, WorkerTask};
use blockcheckw::worker::nfqws2::nfqws2_command;
use blockcheckw::worker::slot::WorkerSlot;

#[test]
fn slots_are_laid_out_one_after_another() {
    let slots = WorkerSlot::create_slots(3, 200, 30000);
    assert_eq!(slots.len(), 3);
    assert_eq!(slots[0], WorkerSlot { qnum: 200, sport_first: 30000, sport_last: 30009 });
    assert_eq!(slots[2], WorkerSlot { qnum: 202, sport_first: 30020, sport_last: 30029 });
    assert_eq!(slots[1].sport_range(), "30010-30019");
    assert_eq!(slots[1].local_port_arg(), "30010-30019");
    assert!(WorkerSlot::create_slots(0, 200, 30000).is_empty());
}

#[test]
fn slots_never_overlap() {
    let slots = WorkerSlot::create_slots(128, 200, 30000);
    for i in 0..slots.len() {
        for j in 0..slots.len() {
            if i != j {
                assert_ne!(slots[i].qnum, slots[j].qnum);
                assert!(slots[i].sport_last < slots[j].sport_first || slots[j].sport_last < slots[i].sport_first);
            }
        }
    }
}

#[test]
fn slots_reach_the_last_port() {
    let slots = WorkerSlot::create_slots(1, 65535, 65526);
    assert_eq!(slots[0], WorkerSlot { qnum: 65535, sport_first: 65526, sport_last: 65535 });
}

fn config() -> CoreConfig {
    CoreConfig::default_for_arch("x86_64")
}

#[test]
fn nfqws2_command_line() {
    let args = vec!["--dpi-desync=fake".to_string(), "--dpi-desync-ttl=3".to_string()];
    let cmd = nfqws2_command(&config(), 201, &args);
    assert_eq!(
        cmd,
        vec![
            "/opt/zapret2/binaries/linux-x86_64/nfqws2",
            "--qnum=201",
            "--fwmark=0x10000000",
            "--lua-init=@/opt/zapret2/lua/zapret-lib.lua",
            "--lua-init=@/opt/zapret2/lua/zapret-antidpi.lua",
            "--dpi-desync=fake",
            "--dpi-desync-ttl=3",
        ]
    );
}

fn task() -> WorkerTask {
    WorkerTask {
        slot: WorkerSlot { qnum: 200, sport_first: 30000, sport_last: 30009 },
        domain: "rutracker.org".to_string(),
        strategy_args: vec!["--dpi-desync=fake".to_string()],
        protocol: Protocol::Http,
        ips: vec!["172.67.182.217".to_string()],
    }
}

#[test]
fn worker_cycle_on_success() {
    let c = config();
    let t = task();
    let (phase, action) = first_step(&c, &t);
    match action {
        TaskAction::AddRule { args } => {
            assert_eq!(args[12], "30000-30009");
            assert_eq!(args[15], "80");
            assert_eq!(args[23], "{ 172.67.182.217 }");
            assert_eq!(args[33], "200");
        }
        other => panic!("unexpected {:?}", other),
    }
    let (phase, action) = next_step(&c, &t, phase, TaskEvent::RuleAdded { handle: RuleHandle(42) });
    assert!(matches!(action, TaskAction::StartNfqws2 { .. }));
    let (phase, action) = next_step(&c, &t, phase, TaskEvent::Nfqws2Started);
    assert!(matches!(action, TaskAction::Wait { millis: 50 }));
    let (phase, action) = next_step(&c, &t, phase, TaskEvent::Waited);
    match &action {
        TaskAction::RunCurl { protocol, domain, local_port, max_time } => {
            assert_eq!(*protocol, Protocol::Http);
            assert_eq!(domain, "rutracker.org");
            assert_eq!(local_port, "30000-30009");
            assert_eq!(max_time, "1");
        }
        other => panic!("unexpected {:?}", other),
    }
    let (phase, action) = next_step(&c, &t, phase, TaskEvent::CurlFinished { verdict: CurlVerdict::Available });
    assert!(matches!(action, TaskAction::StopNfqws2));
    let (phase, action) = next_step(&c, &t, phase, TaskEvent::Nfqws2Stopped);
    match &action {
        TaskAction::RemoveRule { handle, args } => {
            assert_eq!(handle.0, 42);
            assert_eq!(args, &vec!["delete", "rule", "inet", "zapret", "postnat", "handle", "42"]);
        }
        other => panic!("unexpected {:?}", other),
    }
    let (phase, action) = next_step(&c, &t, phase, TaskEvent::RuleRemoved);
    assert!(matches!(phase, TaskPhase::Done));
    match action {
        TaskAction::Finish { result: TaskResult::Success { strategy_args, .. } } => {
            assert_eq!(strategy_args, vec!["--dpi-desync=fake"]);
        }
        other => panic!("unexpected {:?}", other),
    }
}

#[test]
fn worker_cycle_when_nfqws2_fails_removes_the_rule() {
    let c = config();
    let t = task();
    let (phase, _) = first_step(&c, &t);
    let (phase, _) = next_step(&c, &t, phase, TaskEvent::RuleAdded { handle: RuleHandle(7) });
    let err = BlockcheckError::Nfqws2Start { reason: "no such file".to_string() };
    let (phase, action) = next_step(&c, &t, phase, TaskEvent::Nfqws2Failed { error: err });
    assert!(matches!(action, TaskAction::RemoveRule { handle: RuleHandle(7), .. }));
    let (phase, action) = next_step(&c, &t, phase, TaskEvent::RuleRemoved);
    assert!(matches!(phase, TaskPhase::Done));
    assert!(matches!(
        action,
        TaskAction::Finish { result: TaskResult::Error { error: BlockcheckError::Nfqws2Start { .. } } }
    ));
}

#[test]
fn worker_cycle_when_rule_fails_finishes_at_once() {
    let c = config();
    let t = task();
    let (phase, _) = first_step(&c, &t);
    let err = BlockcheckError::Nftables { command: "nft".to_string(), stderr: "x".to_string() };
    let (phase, action) = next_step(&c, &t, phase, TaskEvent::RuleFailed { error: err });
    assert!(matches!(phase, TaskPhase::Done));
    assert!(matches!(action, TaskAction::Finish { result: TaskResult::Error { .. } }));
}

#[test]
fn worker_cycle_on_blocked_site_stops_and_cleans_up() {
    let c = config();
    let t = task();
    let (phase, _) = first_step(&c, &t);
    let (phase, _) = next_step(&c, &t, phase, TaskEvent::RuleAdded { handle: RuleHandle(3) });
    let (phase, _) = next_step(&c, &t, phase, TaskEvent::Nfqws2Started);
    let (phase, _) = next_step(&c, &t, phase, TaskEvent::Waited);
    let verdict = CurlVerdict::Unavailable { detail: "reset".to_string() };
    let (phase, action) = next_step(&c, &t, phase, TaskEvent::CurlFinished { verdict });
    assert!(matches!(action, TaskAction::StopNfqws2));
    let (phase, action) = next_step(&c, &t, phase, TaskEvent::Nfqws2Stopped);
    assert!(matches!(action, TaskAction::RemoveRule { handle: RuleHandle(3), .. }));
    let (_, action) = next_step(&c, &t, phase, TaskEvent::RuleRemoved);
    match action {
        TaskAction::Finish { result: TaskResult::Failed { verdict: CurlVerdict::Unavailable { detail } } } => {
            assert_eq!(detail, "reset")
        }
        other => panic!("unexpected {:?}", other),
    }
}
