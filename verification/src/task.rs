use vstd::prelude::*;
use vstd::string::StringExecFns;
use crate::decimal::dec_seq;

verus! {

/// Execution state of a single task.  A task is created `Pending`,
/// becomes `Running` when a worker takes it from the ready queue, and is
/// `Done` once its command has finished; `Done` tasks leave the registry.
#[derive(Clone, Copy, PartialEq, Eq, Structural, Debug)]
pub enum Status {
    Running,
    Pending,
    Done,
}

/// One task record: immutable identity (id, name, command) plus the
/// execution bookkeeping that the registry owns.
///
/// `deps` is the list of dependency ids exactly as supplied at
/// submission.  `in_degree` counts the dependencies that are still
/// present in the registry (not yet completed); the task may enter the
/// ready queue only when it reaches zero.  `next` lists the ids of the
/// younger tasks that depend on this one, so that its completion can
/// release them.  `stub` selects the execution mode:
/// a stub task only records a descriptive dump at its configured path,
/// a real task spawns its command as a process.
pub struct Task {
    pub id: u64,
    pub name: String,
    pub cmd: String,
    pub status: Status,
    pub deps: Vec<u64>,
    pub in_degree: usize,
    pub next: Vec<u64>,
    pub stub: bool,
    pub timestamp: i64,
}

impl Task {
    /// A fresh record as a client describes it: no id yet (the registry
    /// assigns one at submission), no edges, status `Pending`.
    pub fn new(name: String, cmd: String, stub: bool, timestamp: i64) -> (t: Task)
        ensures
            t.id == 0,
            t.name == name,
            t.cmd == cmd,
            t.status == Status::Pending,
            t.deps@ == Seq::<u64>::empty(),
            t.in_degree == 0,
            t.next@ == Seq::<u64>::empty(),
            t.stub == stub,
            t.timestamp == timestamp,
    {
        Task {
            id: 0,
            name,
            cmd,
            status: Status::Pending,
            deps: Vec::new(),
            in_degree: 0,
            next: Vec::new(),
            stub,
            timestamp,
        }
    }
}

/// The word shown for each status.
pub open spec fn status_label(s: Status) -> Seq<char> {
    match s {
        Status::Pending => "Pending"@,
        Status::Running => "Running"@,
        Status::Done => "Done"@,
    }
}

impl Status {
    /// The word shown for this status.
    pub fn label(&self) -> (s: &'static str)
        ensures
            s@ == status_label(*self),
    {
        match self {
            Status::Pending => "Pending",
            Status::Running => "Running",
            Status::Done => "Done",
        }
    }
}

/// What one display line shows of a record: its id, name, status and
/// command.
pub open spec fn summary_spec(t: Task) -> Seq<char> {
    dec_seq(t.id as nat) + ": "@ + t.name@ + " ["@ + status_label(t.status) + "] "@ + t.cmd@
}

impl Task {
    /// One display line for this record.
    pub fn summary(&self) -> (s: String)
        ensures
            s@ == summary_spec(*self),
    {
        let mut s = crate::decimal::u64_to_dec(self.id);
        s.append(": ");
        s.append(self.name.as_str());
        s.append(" [");
        s.append(self.status.label());
        s.append("] ");
        s.append(self.cmd.as_str());
        proof {
            assert(s@ =~= summary_spec(*self));
        }
        s
    }
}

/// Two records that agree on every field except the `next` list: what a
/// registry record keeps when a later submission declares a dependency
/// on it.
pub open spec fn same_except_next(a: Task, b: Task) -> bool {
    &&& a.id == b.id
    &&& a.name == b.name
    &&& a.cmd == b.cmd
    &&& a.status == b.status
    &&& a.deps@ == b.deps@
    &&& a.in_degree == b.in_degree
    &&& a.stub == b.stub
    &&& a.timestamp == b.timestamp
}

/// Two records that agree on every field except the in-degree: what a
/// registry record keeps when one of its dependencies completes.
pub open spec fn same_except_in_degree(a: Task, b: Task) -> bool {
    &&& a.id == b.id
    &&& a.name == b.name
    &&& a.cmd == b.cmd
    &&& a.status == b.status
    &&& a.deps@ == b.deps@
    &&& a.next@ == b.next@
    &&& a.stub == b.stub
    &&& a.timestamp == b.timestamp
}

/// Two records that agree on every field except the status: what a task
/// keeps when a worker takes it, and what its returned copy keeps when
/// it completes.
pub open spec fn same_except_status(a: Task, b: Task) -> bool {
    &&& a.id == b.id
    &&& a.name == b.name
    &&& a.cmd == b.cmd
    &&& a.deps@ == b.deps@
    &&& a.in_degree == b.in_degree
    &&& a.next@ == b.next@
    &&& a.stub == b.stub
    &&& a.timestamp == b.timestamp
}

/// Two records that agree on every field, comparing the id lists by
/// their contents.  A clone of a task satisfies this against the record
/// it was made from, and it is all any caller needs of a clone.
pub open spec fn same_record(a: Task, b: Task) -> bool {
    &&& a.id == b.id
    &&& a.name == b.name
    &&& a.cmd == b.cmd
    &&& a.status == b.status
    &&& a.deps@ == b.deps@
    &&& a.in_degree == b.in_degree
    &&& a.next@ == b.next@
    &&& a.stub == b.stub
    &&& a.timestamp == b.timestamp
}

impl Clone for Task {
    fn clone(&self) -> (t: Task)
        ensures
            same_record(*self, t),
    {
        let deps = self.deps.clone();
        let next = self.next.clone();
        proof {
            assert(deps@ =~= self.deps@);
            assert(next@ =~= self.next@);
        }
        Task {
            id: self.id,
            name: self.name.clone(),
            cmd: self.cmd.clone(),
            status: self.status,
            deps,
            in_degree: self.in_degree,
            next,
            stub: self.stub,
            timestamp: self.timestamp,
        }
    }
}

} // verus!
