use talps_manager::decimal::u64_to_dec;
use talps_manager::select::{Item, Popup, SelectList};
use talps_manager::spmc_queue::SPMCQueue;
use talps_manager::task::{Status, Task};

#[test]
fn queue_is_fifo() {
    let mut q: SPMCQueue<u64> = SPMCQueue::new();
    assert_eq!(q.len(), 0);
    assert!(q.pop().is_none());
    q.push(1);
    q.push(2);
    q.push(3);
    assert_eq!(q.len(), 3);
    assert_eq!(q.pop(), Some(1));
    assert_eq!(q.pop(), Some(2));
    q.push(4);
    assert_eq!(q.pop(), Some(3));
    assert_eq!(q.pop(), Some(4));
    assert!(q.pop().is_none());
}

#[test]
fn select_up_wraps() {
    let mut s = SelectList::new(vec![Item::AddTask, Item::RemoveTask, Item::TaskInfo, Item::Run]);
    assert_eq!(s.idx, 0);
    s.select_up();
    assert_eq!(s.idx, 3);
    s.select_up();
    assert_eq!(s.idx, 2);
}

#[test]
fn select_down_wraps() {
    let mut s = SelectList::new(vec![Item::AddTask, Item::RemoveTask, Item::TaskInfo]);
    s.select_down();
    assert_eq!(s.idx, 1);
    s.select_down();
    assert_eq!(s.idx, 2);
    s.select_down();
    assert_eq!(s.idx, 0);
}

#[test]
fn item_labels() {
    assert_eq!(Item::AddTask.label(), "AddTask");
    assert_eq!(Item::RemoveTask.label(), "RemoveTask");
    assert_eq!(Item::TaskInfo.label(), "TaskInfo");
    assert_eq!(Item::Run.label(), "Run");
}

#[test]
fn popup_holds_title_and_content() {
    let p = Popup::new("Error".to_string(), "Task name cannot be empty".to_string());
    assert_eq!(p.title, "Error");
    assert_eq!(p.content, "Task name cannot be empty");
}

#[test]
fn decimal_rendering() {
    assert_eq!(u64_to_dec(0), "0");
    assert_eq!(u64_to_dec(7), "7");
    assert_eq!(u64_to_dec(10), "10");
    assert_eq!(u64_to_dec(409), "409");
    assert_eq!(u64_to_dec(1234567890), "1234567890");
    assert_eq!(u64_to_dec(u64::MAX), "18446744073709551615");
}

#[test]
fn new_task_record() {
    let t = Task::new("n".to_string(), "c".to_string(), true, 42);
    assert_eq!(t.id, 0);
    assert_eq!(t.name, "n");
    assert_eq!(t.cmd, "c");
    assert_eq!(t.status, Status::Pending);
    assert!(t.deps.is_empty());
    assert_eq!(t.in_degree, 0);
    assert!(t.next.is_empty());
    assert!(t.stub);
    assert_eq!(t.timestamp, 42);
}

#[test]
fn task_clone_keeps_fields() {
    let mut t = Task::new("n".to_string(), "c".to_string(), false, 7);
    t.deps = vec![1, 2];
    t.next = vec![3];
    let c = t.clone();
    assert_eq!(c.name, t.name);
    assert_eq!(c.cmd, t.cmd);
    assert_eq!(c.deps, t.deps);
    assert_eq!(c.next, t.next);
    assert_eq!(c.status, t.status);
    assert_eq!(c.timestamp, t.timestamp);
    assert_eq!(c.stub, t.stub);
}

#[test]
fn status_labels() {
    assert_eq!(Status::Pending.label(), "Pending");
    assert_eq!(Status::Running.label(), "Running");
    assert_eq!(Status::Done.label(), "Done");
}

#[test]
fn summary_line() {
    let mut t = Task::new("demo".to_string(), "ls -l".to_string(), false, 0);
    t.id = 12;
    assert_eq!(t.summary(), "12: demo [Pending] ls -l");
}
