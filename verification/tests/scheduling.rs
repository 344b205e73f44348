use talps_manager::manager::{ManagerStatus, TaskManager, WorkerAction};
use talps_manager::task::{Status, Task};

fn stub(name: &str) -> Task {
    Task::new(name.to_string(), name.to_string(), true, 0)
}

/// One sequential worker: take and complete ready tasks until the
/// scheduler has nothing more to hand out, returning the completion
/// order.
fn drain(m: &mut TaskManager) -> Vec<u64> {
    let mut order = Vec::new();
    loop {
        match m.next_action() {
            WorkerAction::Execute(t) => {
                assert_eq!(t.status, Status::Running);
                let done = m.complete_task(t.id).expect("completion refused");
                assert_eq!(done.status, Status::Done);
                assert_eq!(done.id, t.id);
                order.push(t.id);
            }
            _ => break,
        }
    }
    order
}

#[test]
fn fan_out_hundred_tasks() {
    let mut m = TaskManager::new();
    for i in 0..100 {
        let id = m.submit(stub(&format!("t{}", i)), Vec::new()).unwrap();
        assert_eq!(id, i);
    }
    assert_eq!(m.show_tasks().len(), 100);
    m.run().expect("Running Err");
    let order = drain(&mut m);
    assert_eq!(order.len(), 100);
    assert_eq!(m.task_count(), 0);
    assert_eq!(m.show_tasks().len(), 0);
    assert_eq!(m.len(), 0);
}

#[test]
fn chain_of_thirty_tasks() {
    let mut m = TaskManager::new();
    for i in 0..30u64 {
        let deps = if i == 0 { Vec::new() } else { vec![i - 1] };
        let id = m.submit(stub(&format!("c{}", i)), deps).unwrap();
        assert_eq!(id, i);
    }
    // only the head of the chain is ready
    assert_eq!(m.len(), 1);
    m.run().expect("Running Err");
    let order = drain(&mut m);
    assert_eq!(order.len(), 30);
    for i in 0..30u64 {
        assert_eq!(order[i as usize], i);
    }
    assert_eq!(m.task_count(), 0);
}

#[test]
fn ready_queue_is_fifo() {
    let mut m = TaskManager::new();
    for i in 0..5 {
        m.submit(stub(&format!("f{}", i)), Vec::new()).unwrap();
    }
    m.run().unwrap();
    let order = drain(&mut m);
    assert_eq!(order, vec![0, 1, 2, 3, 4]);
}

#[test]
fn dependent_waits_for_both() {
    let mut m = TaskManager::new();
    let a = m.submit(stub("a"), Vec::new()).unwrap();
    let b = m.submit(stub("b"), Vec::new()).unwrap();
    let c = m.submit(stub("c"), vec![a, b]).unwrap();
    m.run().unwrap();

    // take and finish task a: c must not be handed out before b is done
    match m.next_action() {
        WorkerAction::Execute(t) => {
            assert_eq!(t.id, a);
            m.complete_task(a).unwrap();
        }
        _ => panic!("expected a task"),
    }
    match m.next_action() {
        WorkerAction::Execute(t) => {
            assert_eq!(t.id, b);
            m.complete_task(b).unwrap();
        }
        _ => panic!("expected a task"),
    }
    match m.next_action() {
        WorkerAction::Execute(t) => assert_eq!(t.id, c),
        _ => panic!("expected the dependent task"),
    }
    m.complete_task(c).unwrap();
    assert_eq!(m.task_count(), 0);
}

#[test]
fn absent_and_completed_deps_are_satisfied() {
    let mut m = TaskManager::new();
    // a dependency id that never existed
    let a = m.submit(stub("a"), vec![999]).unwrap();
    assert_eq!(m.len(), 1);
    m.run().unwrap();
    assert_eq!(drain(&mut m), vec![a]);

    // a dependency that already completed
    let b = m.submit(stub("b"), vec![a]).unwrap();
    assert_eq!(m.len(), 1);
    assert_eq!(drain(&mut m), vec![b]);
}

#[test]
fn duplicate_deps_count_once() {
    let mut m = TaskManager::new();
    let a = m.submit(stub("a"), Vec::new()).unwrap();
    let b = m.submit(stub("b"), vec![a, a, a]).unwrap();
    m.run().unwrap();
    // completing the single real dependency must release b
    assert_eq!(drain(&mut m), vec![a, b]);
    assert_eq!(m.task_count(), 0);
}

#[test]
fn show_tasks_count_tracks_submissions_and_completions() {
    let mut m = TaskManager::new();
    assert_eq!(m.show_tasks().len(), 0);
    let a = m.submit(stub("a"), Vec::new()).unwrap();
    assert_eq!(m.show_tasks().len(), 1);
    let _b = m.submit(stub("b"), Vec::new()).unwrap();
    assert_eq!(m.show_tasks().len(), 2);
    let _c = m.submit(stub("c"), vec![a]).unwrap();
    assert_eq!(m.show_tasks().len(), 3);
    m.run().unwrap();
    match m.next_action() {
        WorkerAction::Execute(t) => {
            m.complete_task(t.id).unwrap();
        }
        _ => panic!("expected a task"),
    }
    assert_eq!(m.show_tasks().len(), 2);
}

#[test]
fn show_tasks_lines() {
    let mut m = TaskManager::new();
    m.submit(Task::new("alpha".to_string(), "echo hi".to_string(), true, 0), Vec::new())
        .unwrap();
    let lines = m.show_tasks();
    assert_eq!(lines, vec!["0: alpha [Pending] echo hi".to_string()]);
}

#[test]
fn stopped_scheduler_hands_out_nothing() {
    let mut m = TaskManager::new();
    m.submit(stub("a"), Vec::new()).unwrap();
    assert!(matches!(m.next_action(), WorkerAction::Wait));
    m.run().unwrap();
    m.stop().unwrap();
    // stop halts future dequeues even with ready work
    assert!(matches!(m.next_action(), WorkerAction::Wait));
    assert_eq!(m.len(), 1);
}

#[test]
fn worker_exits_on_shutdown() {
    let mut m = TaskManager::new();
    m.submit(stub("a"), Vec::new()).unwrap();
    m.shutdown().unwrap();
    assert!(matches!(m.next_action(), WorkerAction::Exit));
    // nothing was consumed
    assert_eq!(m.len(), 1);
}

#[test]
fn waiting_when_queue_empty() {
    let mut m = TaskManager::new();
    m.run().unwrap();
    assert!(matches!(m.next_action(), WorkerAction::Wait));
}

#[test]
fn complete_refuses_unknown_or_untaken_ids() {
    let mut m = TaskManager::new();
    let a = m.submit(stub("a"), Vec::new()).unwrap();
    // never handed out: still pending
    assert!(m.complete_task(a).is_none());
    // never existed
    assert!(m.complete_task(77).is_none());
    assert_eq!(m.task_count(), 1);
}

#[test]
fn failed_task_still_releases_dependents() {
    // execution failure is reported the same way as success: the worker
    // completes the task and the dependents are released, not stalled
    let mut m = TaskManager::new();
    let a = m.submit(stub("failing"), Vec::new()).unwrap();
    let b = m.submit(stub("after"), vec![a]).unwrap();
    m.run().unwrap();
    match m.next_action() {
        WorkerAction::Execute(t) => {
            assert_eq!(t.id, a);
            // the command failed; the worker still reports completion
            m.complete_task(a).unwrap();
        }
        _ => panic!("expected a task"),
    }
    match m.next_action() {
        WorkerAction::Execute(t) => assert_eq!(t.id, b),
        _ => panic!("dependent must be released"),
    }
}

#[test]
fn submit_task_assigns_ids_and_mode() {
    let mut m = TaskManager::new();
    let id = m
        .submit_task("real".to_string(), "echo out".to_string(), Vec::new())
        .unwrap();
    assert_eq!(id, 0);
    m.run().unwrap();
    match m.next_action() {
        WorkerAction::Execute(t) => {
            assert_eq!(t.name, "real");
            assert_eq!(t.cmd, "echo out");
            assert!(!t.stub);
        }
        _ => panic!("expected the task"),
    }
}
