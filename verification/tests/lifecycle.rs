use talps_manager::manager::{ManagerStatus, TaskManager};
use talps_manager::task::Task;

#[test]
fn stop_status_test() {
    let mut manager = TaskManager::new();
    assert_eq!(manager.status(), ManagerStatus::Stopped);

    manager.run().expect("Run Err");
    assert_eq!(manager.status(), ManagerStatus::Running);

    manager.stop().expect("Run Err");
    assert_eq!(manager.status(), ManagerStatus::Stopped);

    manager.run().expect("Run Err");
    assert_eq!(manager.status(), ManagerStatus::Running);

    manager.stop().expect("Run Err");
    assert_eq!(manager.status(), ManagerStatus::Stopped);
}

#[test]
fn stop_test() {
    let mut manager = TaskManager::new();
    assert_eq!(manager.status(), ManagerStatus::Stopped);
    let n = 100;
    for i in 0..n {
        let task = Task::new("wwt".to_string(), "wwt".to_string(), true, 0);
        let id = manager.submit(task, Vec::new()).unwrap();
        assert_eq!(id, i);
    }
    assert_eq!(manager.len(), 100);
    manager.stop().expect("Stop Err");
    assert_eq!(manager.status(), ManagerStatus::Stopped);
}

#[test]
fn run_stop_idempotent() {
    let mut m = TaskManager::new();
    assert!(m.run().is_ok());
    assert!(m.run().is_ok());
    assert_eq!(m.status(), ManagerStatus::Running);
    assert!(m.stop().is_ok());
    assert!(m.stop().is_ok());
    assert_eq!(m.status(), ManagerStatus::Stopped);
}

#[test]
fn shutdown_is_terminal() {
    let mut m = TaskManager::new();
    assert!(m.run().is_ok());
    assert!(m.shutdown().is_ok());
    assert_eq!(m.status(), ManagerStatus::Shutdown);

    assert!(m.shutdown().is_err());
    assert!(m.run().is_err());
    assert!(m.stop().is_err());
    assert_eq!(m.status(), ManagerStatus::Shutdown);

    let t = Task::new("late".to_string(), "true".to_string(), true, 0);
    assert!(m.submit(t, Vec::new()).is_err());
    assert_eq!(m.task_count(), 0);
}

#[test]
fn shutdown_from_stopped() {
    let mut m = TaskManager::new();
    assert!(m.shutdown().is_ok());
    assert_eq!(m.status(), ManagerStatus::Shutdown);
}
