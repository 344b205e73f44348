use vstd::prelude::*;
use crate::graph::{
    drops_to_zero, edge_count, has_id, ids_increasing, idx_of, lemma_all_blocked_means_empty,
    lemma_edge_count_at_least_one, lemma_edge_count_congruent, lemma_edge_count_pos_witness,
    lemma_edge_count_push, lemma_edge_count_remove, lemma_edge_count_update_push,
    lemma_filter_distinct, lemma_filter_extend, lemma_filter_props, lemma_id_unique, lemma_idx_of,
    lemma_live_dep_count_extend, live_dep_count, released, task_of, wf_tasks,
};
use crate::spmc_queue::SPMCQueue;
use crate::task::{
    same_except_in_degree, same_except_next, same_except_status, same_record, summary_spec, Status,
    Task,
};

verus! {

/// Lifecycle of the scheduler.  `Stopped` is the initial state:
/// submissions are accepted and queued but nothing executes.  `Running`
/// lets the workers drain the queue.  `Shutdown` is terminal: no further
/// submissions, no way back.
#[derive(Clone, Copy, PartialEq, Eq, Structural, Debug)]
pub enum ManagerStatus {
    Running,
    Stopped,
    Shutdown,
}

/// The operation is invalid for the current lifecycle state; nothing was
/// changed.  The only such state is `Shutdown`, which is terminal.
#[derive(Clone, Copy, PartialEq, Eq, Structural, Debug)]
pub struct StateError;

/// Where `run` takes the lifecycle from each state.
pub open spec fn run_next(s: ManagerStatus) -> ManagerStatus {
    match s {
        ManagerStatus::Stopped => ManagerStatus::Running,
        ManagerStatus::Running => ManagerStatus::Running,
        ManagerStatus::Shutdown => ManagerStatus::Shutdown,
    }
}

/// Where `stop` takes the lifecycle from each state.
pub open spec fn stop_next(s: ManagerStatus) -> ManagerStatus {
    match s {
        ManagerStatus::Stopped => ManagerStatus::Stopped,
        ManagerStatus::Running => ManagerStatus::Stopped,
        ManagerStatus::Shutdown => ManagerStatus::Shutdown,
    }
}

/// Where `shutdown` takes the lifecycle from each state.
pub open spec fn shutdown_next(s: ManagerStatus) -> ManagerStatus {
    ManagerStatus::Shutdown
}

/// Whether a lifecycle transition is accepted in this state: only the
/// terminal `Shutdown` state refuses them.
pub open spec fn transition_allowed(s: ManagerStatus) -> bool {
    s != ManagerStatus::Shutdown
}

/// What a worker should do next: wait for a wake, execute the task
/// handed to it, or exit because the scheduler has shut down.
pub enum WorkerAction {
    Wait,
    Exit,
    Execute(Task),
}

/// The scheduler: the authoritative task registry, the ready queue, the
/// lifecycle state and the id counter, under one owner.
pub struct TaskManager {
    status: ManagerStatus,
    next_id: u64,
    registry: Vec<Task>,
    ready_q: SPMCQueue<u64>,
}

impl TaskManager {
    /// The lifecycle state.
    pub closed spec fn lifecycle(&self) -> ManagerStatus {
        self.status
    }

    /// The registry contents, in submission order.
    pub closed spec fn tasks(&self) -> Seq<Task> {
        self.registry@
    }

    /// The ready queue contents, oldest first.
    pub closed spec fn ready(&self) -> Seq<u64> {
        self.ready_q@
    }

    /// The next id to be assigned; every id handed out so far is below it.
    pub closed spec fn issued(&self) -> u64 {
        self.next_id
    }

    /// The scheduler's invariant: a consistent registry (see
    /// `wf_tasks`), ids below the counter, and a duplicate-free ready
    /// queue that holds exactly the ids of the registry records with
    /// in-degree zero that no worker has taken yet.
    pub closed spec fn wf(&self) -> bool {
        &&& wf_tasks(self.registry@)
        &&& (forall|j: int|
            0 <= j < self.registry@.len() ==> (#[trigger] self.registry@[j]).id < self.next_id)
        &&& (forall|a: int, b: int|
            0 <= a < b < self.ready_q@.len() ==> self.ready_q@[a] != self.ready_q@[b])
        &&& (forall|a: int|
            0 <= a < self.ready_q@.len() ==> has_id(self.registry@, #[trigger] self.ready_q@[a]))
        &&& (forall|a: int|
            0 <= a < self.ready_q@.len() ==> task_of(
                self.registry@,
                #[trigger] self.ready_q@[a],
            ).in_degree == 0 && task_of(self.registry@, self.ready_q@[a]).status
                == Status::Pending)
        &&& (forall|j: int|
            0 <= j < self.registry@.len() && (#[trigger] self.registry@[j]).in_degree == 0
                && self.registry@[j].status == Status::Pending ==> self.ready_q@.contains(
                self.registry@[j].id,
            ))
    }

    /// A fresh scheduler: stopped, empty registry, empty queue, ids
    /// starting at zero.
    pub fn new() -> (m: TaskManager)
        ensures
            m.wf(),
            m.lifecycle() == ManagerStatus::Stopped,
            m.tasks() == Seq::<Task>::empty(),
            m.ready() == Seq::<u64>::empty(),
            m.issued() == 0,
    {
        TaskManager {
            status: ManagerStatus::Stopped,
            next_id: 0,
            registry: Vec::new(),
            ready_q: SPMCQueue::new(),
        }
    }

    /// The current lifecycle state.
    pub fn status(&self) -> (s: ManagerStatus)
        ensures
            s == self.lifecycle(),
    {
        self.status
    }

    /// How many tasks are ready and not yet taken by a worker.
    pub fn len(&self) -> (n: usize)
        ensures
            n == self.ready().len(),
    {
        self.ready_q.len()
    }

    /// How many tasks the registry holds (submitted, not yet completed).
    pub fn task_count(&self) -> (n: usize)
        ensures
            n == self.tasks().len(),
    {
        self.registry.len()
    }

    /// The id the next submission will receive.
    pub fn next_task_id(&self) -> (id: u64)
        ensures
            id == self.issued(),
    {
        self.next_id
    }

    /// Start executing: `Stopped` becomes `Running`; already `Running`
    /// is a no-op that succeeds; after `Shutdown` nothing changes and a
    /// `StateError` is returned.
    pub fn run(&mut self) -> (r: Result<(), StateError>)
        requires
            old(self).wf(),
        ensures
            final(self).wf(),
            final(self).lifecycle() == run_next(old(self).lifecycle()),
            r is Ok <==> transition_allowed(old(self).lifecycle()),
            final(self).tasks() == old(self).tasks(),
            final(self).ready() == old(self).ready(),
            final(self).issued() == old(self).issued(),
    {
        match self.status {
            ManagerStatus::Running => Ok(()),
            ManagerStatus::Stopped => {
                self.status = ManagerStatus::Running;
                Ok(())
            },
            ManagerStatus::Shutdown => Err(StateError),
        }
    }

    /// Pause executing: `Running` becomes `Stopped`; already `Stopped`
    /// is a no-op that succeeds; after `Shutdown` nothing changes and a
    /// `StateError` is returned.  Stopping never touches the queue or
    /// the registry: a task a worker already took runs to completion.
    pub fn stop(&mut self) -> (r: Result<(), StateError>)
        requires
            old(self).wf(),
        ensures
            final(self).wf(),
            final(self).lifecycle() == stop_next(old(self).lifecycle()),
            r is Ok <==> transition_allowed(old(self).lifecycle()),
            final(self).tasks() == old(self).tasks(),
            final(self).ready() == old(self).ready(),
            final(self).issued() == old(self).issued(),
    {
        match self.status {
            ManagerStatus::Running => {
                self.status = ManagerStatus::Stopped;
                Ok(())
            },
            ManagerStatus::Stopped => Ok(()),
            ManagerStatus::Shutdown => Err(StateError),
        }
    }

    /// Enter the terminal state.  From `Running` or `Stopped` this
    /// succeeds; a second shutdown is reported as a `StateError`.  The
    /// caller is responsible for waking and joining its workers; each of
    /// them observes `Shutdown` and exits.
    pub fn shutdown(&mut self) -> (r: Result<(), StateError>)
        requires
            old(self).wf(),
        ensures
            final(self).wf(),
            final(self).lifecycle() == shutdown_next(old(self).lifecycle()),
            r is Ok <==> transition_allowed(old(self).lifecycle()),
            final(self).tasks() == old(self).tasks(),
            final(self).ready() == old(self).ready(),
            final(self).issued() == old(self).issued(),
    {
        match self.status {
            ManagerStatus::Shutdown => Err(StateError),
            _ => {
                self.status = ManagerStatus::Shutdown;
                Ok(())
            },
        }
    }

    /// The registry position holding an id, scanning in order.
    fn find_index(v: &Vec<Task>, id: u64) -> (r: Option<usize>)
        ensures
            match r {
                Some(j) => j < v@.len() && v@[j as int].id == id,
                None => !has_id(v@, id),
            },
    {
        let mut i: usize = 0;
        while i < v.len()
            invariant
                i <= v@.len(),
                forall|k: int| 0 <= k < i ==> (#[trigger] v@[k]).id != id,
            decreases v@.len() - i,
        {
            if v[i].id == id {
                return Some(i);
            }
            i = i + 1;
        }
        proof {
            if has_id(v@, id) {
                let w = choose|k: int| 0 <= k < v@.len() && v@[k].id == id;
                assert(v@[w].id != id);
            }
        }
        None
    }

    /// Whether an id list mentions an id.
    fn contains_u64(v: &Vec<u64>, x: u64) -> (r: bool)
        ensures
            r == v@.contains(x),
    {
        let mut i: usize = 0;
        while i < v.len()
            invariant
                i <= v@.len(),
                forall|k: int| 0 <= k < i ==> v@[k] != x,
            decreases v@.len() - i,
        {
            if v[i] == x {
                return true;
            }
            i = i + 1;
        }
        proof {
            if v@.contains(x) {
                let w = choose|k: int| 0 <= k < v@.len() && v@[k] == x;
                assert(v@[w] != x);
            }
        }
        false
    }

    /// Enter one task into the registry under a fresh id.
    ///
    /// Each distinct id in `dep_ids` still present in the registry
    /// becomes a live dependency edge: it raises the new task's
    /// in-degree by one, and the new id is appended to that record's
    /// `next` list so that its completion can release the new task.  Ids
    /// absent from the registry (already completed, or never submitted)
    /// are treated as already satisfied and skipped, as are repeated
    /// mentions of one id.  A task whose in-degree ends at zero enters
    /// the ready queue at once; otherwise it stays invisible to the
    /// queue until its last live dependency completes.  After `shutdown`
    /// the submission is refused and nothing changes.
    pub fn submit(&mut self, task: Task, dep_ids: Vec<u64>) -> (r: Result<u64, StateError>)
        requires
            old(self).wf(),
            old(self).issued() < u64::MAX,
        ensures
            final(self).wf(),
            final(self).lifecycle() == old(self).lifecycle(),
            r is Ok <==> old(self).lifecycle() != ManagerStatus::Shutdown,
            r is Err ==> final(self).tasks() == old(self).tasks() && final(self).ready() == old(
                self,
            ).ready() && final(self).issued() == old(self).issued(),
            r is Ok ==> r == Ok::<u64, StateError>(old(self).issued()) && final(self).issued()
                == old(self).issued() + 1,
            r is Ok ==> final(self).tasks().len() == old(self).tasks().len() + 1,
            r is Ok ==> (forall|k: int|
                0 <= k < old(self).tasks().len() ==> same_except_next(
                    old(self).tasks()[k],
                    #[trigger] final(self).tasks()[k],
                ) && final(self).tasks()[k].next@ == (if dep_ids@.contains(old(self).tasks()[k].id) {
                    old(self).tasks()[k].next@.push(old(self).issued())
                } else {
                    old(self).tasks()[k].next@
                })),
            r is Ok ==> ({
                let t = final(self).tasks().last();
                t.id == old(self).issued() && t.name == task.name && t.cmd == task.cmd && t.status
                    == Status::Pending && t.deps@ == dep_ids@ && t.in_degree == live_dep_count(
                    old(self).tasks(),
                    dep_ids@,
                ) && t.next@ == Seq::<u64>::empty() && t.stub == task.stub && t.timestamp
                    == task.timestamp
            }),
            r is Ok ==> final(self).ready() == (if live_dep_count(old(self).tasks(), dep_ids@)
                == 0 {
                old(self).ready().push(old(self).issued())
            } else {
                old(self).ready()
            }),
    {
        if matches!(self.status, ManagerStatus::Shutdown) {
            return Err(StateError);
        }
        let id = self.next_id;
        let ghost t0 = self.registry@;
        let ghost q0 = self.ready_q@;
        proof {
            assert forall|k: int| 0 <= k < t0.len() implies !(#[trigger] t0[k]).next@.contains(
                id,
            ) by {
                if t0[k].next@.contains(id) {
                    let a = choose|a: int| 0 <= a < t0[k].next@.len() && t0[k].next@[a] == id;
                    assert(has_id(t0, t0[k].next@[a]));
                    let w = choose|i: int| 0 <= i < t0.len() && t0[i].id == id;
                    assert(t0[w].id < self.next_id);
                }
            }
            assert(edge_count(t0, id) == 0) by {
                if edge_count(t0, id) > 0 {
                    lemma_edge_count_pos_witness(t0, id);
                }
            }
        }
        let mut in_deg: usize = 0;
        let mut i: usize = 0;
        while i < dep_ids.len()
            invariant
                wf_tasks(t0),
                forall|k: int| 0 <= k < t0.len() ==> !(#[trigger] t0[k]).next@.contains(id),
                i <= dep_ids@.len(),
                self.status == old(self).status,
                self.next_id == old(self).next_id,
                self.ready_q@ == q0,
                id == old(self).next_id,
                self.registry@.len() == t0.len(),
                forall|k: int|
                    0 <= k < t0.len() ==> same_except_next(t0[k], #[trigger] self.registry@[k]),
                forall|k: int|
                    0 <= k < t0.len() ==> (#[trigger] self.registry@[k]).next@ == (if dep_ids@
                        .subrange(0, i as int).contains(t0[k].id) {
                        t0[k].next@.push(id)
                    } else {
                        t0[k].next@
                    }),
                in_deg == live_dep_count(t0, dep_ids@.subrange(0, i as int)),
                in_deg <= i,
                edge_count(self.registry@, id) == in_deg,
                forall|y: u64| y != id ==> edge_count(self.registry@, y) == edge_count(t0, y),
            decreases dep_ids@.len() - i,
        {
            let d = dep_ids[i];
            proof {
                lemma_live_dep_count_extend(t0, dep_ids@, i as int);
                assert(dep_ids@.subrange(0, i + 1) =~= dep_ids@.subrange(0, i as int).push(d));
            }
            match Self::find_index(&self.registry, d) {
                Some(j) => {
                    proof {
                        assert(t0[j as int].id == d);
                        assert(has_id(t0, d)) by {
                            assert(t0[j as int].id == d);
                        }
                    }
                    let already = Self::contains_u64(&self.registry[j].next, id);
                    if !already {
                        let ghost before = self.registry@;
                        let mut dep_task = self.registry.remove(j);
                        dep_task.next.push(id);
                        self.registry.insert(j, dep_task);
                        proof {
                            let t_new = self.registry@[j as int];
                            assert(self.registry@ =~= before.update(j as int, t_new));
                            assert(t_new.next@ == before[j as int].next@.push(id));
                            assert forall|y: u64|
                                edge_count(self.registry@, y) == edge_count(before, y) + (if y
                                    == id {
                                    1nat
                                } else {
                                    0nat
                                }) by {
                                lemma_edge_count_update_push(
                                    before,
                                    j as int,
                                    t_new,
                                    id,
                                    y,
                                );
                            }
                            // this dependency id was not seen among the
                            // previous entries, so the count grows by one
                            assert(!dep_ids@.subrange(0, i as int).contains(d)) by {
                                if dep_ids@.subrange(0, i as int).contains(t0[j as int].id) {
                                    assert(before[j as int].next@ == t0[j as int].next@.push(id));
                                    assert(before[j as int].next@[t0[j as int].next@.len() as int]
                                        == id);
                                }
                            }
                            // only position j carries this dependency id
                            assert forall|k: int|
                                0 <= k < t0.len() && k != j && dep_ids@.subrange(
                                    0,
                                    i + 1,
                                ).contains(t0[k].id) implies dep_ids@.subrange(0, i as int)
                                .contains(t0[k].id) by {
                                if t0[k].id == d {
                                    lemma_id_unique(t0, k, j as int);
                                }
                            }
                        }
                        in_deg = in_deg + 1;
                    } else {
                        proof {
                            // a repeat of an id handled in an earlier round
                            assert(dep_ids@.subrange(0, i as int).contains(d)) by {
                                if !dep_ids@.subrange(0, i as int).contains(t0[j as int].id) {
                                    assert(self.registry@[j as int].next@ == t0[j as int].next@);
                                    assert(!t0[j as int].next@.contains(id));
                                }
                            }
                            assert forall|k: int|
                                0 <= k < t0.len() && dep_ids@.subrange(0, i + 1).contains(
                                    t0[k].id,
                                ) implies dep_ids@.subrange(0, i as int).contains(t0[k].id) by {
                                if t0[k].id == d {
                                    lemma_id_unique(t0, k, j as int);
                                }
                            }
                        }
                    }
                },
                None => {
                    proof {
                        assert(!has_id(t0, d)) by {
                            if has_id(t0, d) {
                                let w = choose|k: int| 0 <= k < t0.len() && t0[k].id == d;
                                assert(self.registry@[w].id == d);
                            }
                        }
                        assert forall|k: int|
                            0 <= k < t0.len() && dep_ids@.subrange(0, i + 1).contains(
                                t0[k].id,
                            ) implies dep_ids@.subrange(0, i as int).contains(t0[k].id) by {
                            if t0[k].id == d {
                                assert(has_id(t0, d));
                            }
                        }
                    }
                },
            }
            i = i + 1;
        }
        proof {
            assert(dep_ids@.subrange(0, i as int) =~= dep_ids@);
        }
        let ghost s_mid = self.registry@;
        let new_task = Task {
            id,
            name: task.name,
            cmd: task.cmd,
            status: Status::Pending,
            deps: dep_ids,
            in_degree: in_deg,
            next: Vec::new(),
            stub: task.stub,
            timestamp: task.timestamp,
        };
        self.registry.push(new_task);
        self.next_id = id + 1;
        if in_deg == 0 {
            self.ready_q.push(id);
        }
        proof {
            let s2 = self.registry@;
            assert(s2 == s_mid.push(s2.last()));
            assert(s2.last().next@ =~= Seq::<u64>::empty());
            assert forall|y: u64| edge_count(s2, y) == edge_count(s_mid, y) by {
                lemma_edge_count_push(s_mid, s2.last(), y);
            }
            lemma_submit_wf(*self, t0, q0, id, dep_ids@, in_deg as nat);
        }
        Ok(id)
    }

    /// Submit a task described by its name and command string, to be run
    /// as a real process, depending on the given ids; the record is
    /// stamped with the current time.  The fresh id is returned, or a
    /// `StateError` after `shutdown`.
    pub fn submit_task(&mut self, name: String, cmd: String, dep_ids: Vec<u64>) -> (r: Result<
        u64,
        StateError,
    >)
        requires
            old(self).wf(),
            old(self).issued() < u64::MAX,
        ensures
            final(self).wf(),
            final(self).lifecycle() == old(self).lifecycle(),
            r is Ok <==> old(self).lifecycle() != ManagerStatus::Shutdown,
            r is Err ==> final(self).tasks() == old(self).tasks() && final(self).ready() == old(
                self,
            ).ready() && final(self).issued() == old(self).issued(),
            r is Ok ==> r == Ok::<u64, StateError>(old(self).issued()) && final(self).issued()
                == old(self).issued() + 1,
            r is Ok ==> final(self).tasks().len() == old(self).tasks().len() + 1,
            r is Ok ==> (forall|k: int|
                0 <= k < old(self).tasks().len() ==> same_except_next(
                    old(self).tasks()[k],
                    #[trigger] final(self).tasks()[k],
                ) && final(self).tasks()[k].next@ == (if dep_ids@.contains(old(self).tasks()[k].id) {
                    old(self).tasks()[k].next@.push(old(self).issued())
                } else {
                    old(self).tasks()[k].next@
                })),
            r is Ok ==> ({
                let t = final(self).tasks().last();
                t.id == old(self).issued() && t.name == name && t.cmd == cmd && t.status
                    == Status::Pending && t.deps@ == dep_ids@ && t.in_degree == live_dep_count(
                    old(self).tasks(),
                    dep_ids@,
                ) && t.next@ == Seq::<u64>::empty() && !t.stub
            }),
            r is Ok ==> final(self).ready() == (if live_dep_count(old(self).tasks(), dep_ids@)
                == 0 {
                old(self).ready().push(old(self).issued())
            } else {
                old(self).ready()
            }),
    {
        let stamp = crate::time::now_millis();
        let task = Task::new(name, cmd, false, stamp);
        self.submit(task, dep_ids)
    }

    /// One worker's decision point, per the coordination protocol.
    /// Under `Shutdown` the worker must exit at once, consuming nothing.
    /// Under `Stopped`, or under `Running` with an empty ready queue, it
    /// must wait until woken.  Otherwise the oldest ready task leaves
    /// the queue, its registry record is marked `Running`, and a copy is
    /// handed out for execution; the worker reports the outcome through
    /// `complete_task`.
    pub fn next_action(&mut self) -> (a: WorkerAction)
        requires
            old(self).wf(),
        ensures
            final(self).wf(),
            final(self).lifecycle() == old(self).lifecycle(),
            final(self).issued() == old(self).issued(),
            a is Exit <==> old(self).lifecycle() == ManagerStatus::Shutdown,
            a is Wait <==> (old(self).lifecycle() == ManagerStatus::Stopped || (old(
                self,
            ).lifecycle() == ManagerStatus::Running && old(self).ready().len() == 0)),
            a is Exit || a is Wait ==> final(self).tasks() == old(self).tasks()
                && final(self).ready() == old(self).ready(),
            a is Execute ==> old(self).lifecycle() == ManagerStatus::Running && old(
                self,
            ).ready().len() > 0 && final(self).ready() == old(self).ready().drop_first(),
            a is Execute ==> ({
                let j = idx_of(old(self).tasks(), old(self).ready()[0]);
                &&& final(self).tasks().len() == old(self).tasks().len()
                &&& (forall|k: int|
                    0 <= k < old(self).tasks().len() && k != j ==> final(self).tasks()[k] == old(
                        self,
                    ).tasks()[k])
                &&& same_except_status(old(self).tasks()[j], final(self).tasks()[j])
                &&& final(self).tasks()[j].status == Status::Running
                &&& same_record(final(self).tasks()[j], a->Execute_0)
            }),
    {
        match self.status {
            ManagerStatus::Shutdown => WorkerAction::Exit,
            ManagerStatus::Stopped => WorkerAction::Wait,
            ManagerStatus::Running => {
                let popped = self.ready_q.pop();
                match popped {
                    None => WorkerAction::Wait,
                    Some(id) => {
                        let ghost t0 = self.registry@;
                        let ghost q0 = old(self).ready();
                        proof {
                            assert(has_id(t0, id)) by {
                                assert(q0[0] == id);
                            }
                            lemma_idx_of(t0, id);
                        }
                        let j = match Self::find_index(&self.registry, id) {
                            Some(j) => j,
                            None => {
                                proof {
                                    assert(false);
                                }
                                return WorkerAction::Wait;
                            },
                        };
                        let mut t = self.registry.remove(j);
                        t.status = Status::Running;
                        let copy = t.clone();
                        self.registry.insert(j, t);
                        proof {
                            lemma_take_ready_wf(*self, t0, q0, id, j as int);
                        }
                        WorkerAction::Execute(copy)
                    },
                }
            },
        }
    }

    /// Report a task that a worker finished executing, well or badly: a
    /// failure is confined to the task, so its dependents are still
    /// released rather than stalled.  The record leaves the registry and
    /// is returned with status `Done`; every id in its `next` list has
    /// its in-degree lowered by one, and the ones that reach zero enter
    /// the ready queue in `next`-list order.  An id that no running
    /// registry record carries is refused: nothing changes and nothing
    /// is returned.
    pub fn complete_task(&mut self, id: u64) -> (r: Option<Task>)
        requires
            old(self).wf(),
        ensures
            final(self).wf(),
            final(self).lifecycle() == old(self).lifecycle(),
            final(self).issued() == old(self).issued(),
            r is Some <==> has_id(old(self).tasks(), id) && task_of(old(self).tasks(), id).status
                == Status::Running,
            r is None ==> final(self).tasks() == old(self).tasks() && final(self).ready() == old(
                self,
            ).ready(),
            r is Some ==> ({
                let j = idx_of(old(self).tasks(), id);
                let removed = old(self).tasks()[j];
                &&& same_except_status(removed, r->Some_0)
                &&& r->Some_0.status == Status::Done
                &&& final(self).tasks().len() + 1 == old(self).tasks().len()
                &&& (forall|k: int|
                    0 <= k < final(self).tasks().len() ==> ({
                        let o = old(self).tasks()[if k < j {
                            k
                        } else {
                            k + 1
                        }];
                        same_except_in_degree(o, #[trigger] final(self).tasks()[k])
                            && o.in_degree == final(self).tasks()[k].in_degree + (
                        if removed.next@.contains(o.id) {
                            1int
                        } else {
                            0int
                        })
                    }))
                &&& final(self).ready() == old(self).ready() + released(old(self).tasks(), removed)
            }),
    {
        let ghost t0 = self.registry@;
        let ghost q0 = self.ready_q@;
        let j = match Self::find_index(&self.registry, id) {
            Some(j) => j,
            None => {
                return None;
            },
        };
        proof {
            lemma_idx_of(t0, id);
        }
        if !matches!(self.registry[j].status, Status::Running) {
            return None;
        }
        let mut removed = self.registry.remove(j);
        removed.status = Status::Done;
        let ghost removed0 = t0[j as int];
        let ghost s1 = self.registry@;
        let ghost pred = drops_to_zero(t0);
        proof {
            assert(s1 =~= t0.remove(j as int));
            assert(removed0.in_degree == 0);
            assert(edge_count(t0, id) == 0);
            // no record, removed or kept, holds an edge into the removed id
            assert forall|k: int| 0 <= k < t0.len() implies !(#[trigger] t0[k]).next@.contains(
                id,
            ) by {
                if t0[k].next@.contains(id) {
                    lemma_edge_count_at_least_one(t0, k, id);
                }
            }
            assert forall|k: int|
                0 <= k < s1.len() implies #[trigger] s1[k] == t0[if k < j as int {
                k
            } else {
                k + 1
            }] by {}
        }
        let mut i: usize = 0;
        while i < removed.next.len()
            invariant
                self.status == old(self).status,
                self.next_id == old(self).next_id,
                wf_tasks(t0),
                forall|k: int| 0 <= k < t0.len() ==> (#[trigger] t0[k]).id < self.next_id,
                forall|a: int, b: int| 0 <= a < b < q0.len() ==> q0[a] != q0[b],
                forall|a: int| 0 <= a < q0.len() ==> has_id(t0, #[trigger] q0[a]),
                forall|a: int|
                    0 <= a < q0.len() ==> task_of(t0, #[trigger] q0[a]).in_degree == 0 && task_of(
                        t0,
                        q0[a],
                    ).status == Status::Pending,
                forall|k: int|
                    0 <= k < t0.len() && (#[trigger] t0[k]).in_degree == 0 && t0[k].status
                        == Status::Pending ==> q0.contains(t0[k].id),
                0 <= j < t0.len(),
                t0[j as int] == removed0,
                removed0.status == Status::Running,
                removed0.in_degree == 0,
                removed0.id == id,
                removed.next@ == removed0.next@,
                pred == drops_to_zero(t0),
                s1 == t0.remove(j as int),
                i <= removed0.next@.len(),
                self.registry@.len() == s1.len(),
                forall|k: int|
                    0 <= k < s1.len() ==> same_except_in_degree(
                        s1[k],
                        #[trigger] self.registry@[k],
                    ),
                forall|k: int|
                    0 <= k < s1.len() ==> (#[trigger] s1[k]).in_degree
                        == self.registry@[k].in_degree + (if removed0.next@.subrange(
                        0,
                        i as int,
                    ).contains(s1[k].id) {
                        1int
                    } else {
                        0int
                    }),
                self.ready_q@ == q0 + removed0.next@.subrange(0, i as int).filter(pred),
            decreases removed0.next@.len() - i,
        {
            let x = removed.next[i];
            proof {
                assert(t0[j as int].next@[i as int] == x);
                assert(has_id(t0, x));
                assert(x > removed0.id);
                lemma_idx_of(t0, x);
                lemma_filter_extend(removed0.next@, pred, i as int);
                assert(removed0.next@.subrange(0, i + 1) =~= removed0.next@.subrange(
                    0,
                    i as int,
                ).push(x));
                // the dependent's position in the shortened registry
                let w = idx_of(t0, x);
                assert(w != j) by {
                    if w == j {
                        assert(t0[w].id == x && t0[j as int].id == id);
                    }
                }
                let w1: int = if w < j as int {
                    w
                } else {
                    w - 1
                };
                assert(s1[w1] == t0[w]);
                assert(has_id(s1, x)) by {
                    assert(s1[w1].id == x);
                }
                assert(has_id(self.registry@, x)) by {
                    assert(self.registry@[w1].id == x);
                }
            }
            let k = match Self::find_index(&self.registry, x) {
                Some(k) => k,
                None => {
                    proof {
                        assert(false);
                    }
                    return None;
                },
            };
            proof {
                // ids are unique in the shortened registry too
                assert(ids_increasing(s1)) by {
                    assert forall|a: int, b: int|
                        0 <= a < b < s1.len() implies s1[a].id < s1[b].id by {}
                }
                assert(s1[k as int].id == x);
                let w = idx_of(t0, x);
                let w1: int = if w < j as int {
                    w
                } else {
                    w - 1
                };
                lemma_id_unique(s1, k as int, w1);
                // the id at position k has not been handled yet, so its
                // cached in-degree still counts the removed record's edge
                assert(!removed0.next@.subrange(0, i as int).contains(x)) by {
                    if removed0.next@.subrange(0, i as int).contains(x) {
                        let a = choose|a: int|
                            0 <= a < i && removed0.next@.subrange(0, i as int)[a] == x;
                        assert(removed0.next@[a] == removed0.next@[i as int]);
                    }
                }
                assert(s1[k as int].in_degree == self.registry@[k as int].in_degree);
                assert(s1[k as int].in_degree == edge_count(t0, x)) by {
                    assert(t0[w].in_degree == edge_count(t0, t0[w].id));
                }
                lemma_edge_count_at_least_one(t0, j as int, x);
            }
            let ghost before = self.registry@;
            let mut dep_t = self.registry.remove(k);
            let now_ready = dep_t.in_degree == 1;
            dep_t.in_degree = dep_t.in_degree - 1;
            self.registry.insert(k, dep_t);
            if now_ready {
                self.ready_q.push(x);
            }
            proof {
                assert(self.registry@ =~= before.update(k as int, self.registry@[k as int]));
                // the released test agrees with the predicate over the
                // registry as it stood before the removal
                assert(task_of(t0, x) == t0[idx_of(t0, x)]);
                assert(pred(x) == now_ready);
                // older entries of the prefix keep their counts: they
                // name other ids
                assert forall|m: int|
                    0 <= m < s1.len() && m != k as int implies s1[m].id != x by {
                    if s1[m].id == x {
                        lemma_id_unique(s1, m, k as int);
                    }
                }
                assert forall|m: int|
                    0 <= m < s1.len() implies (#[trigger] s1[m]).in_degree
                        == self.registry@[m].in_degree + (if removed0.next@.subrange(
                        0,
                        i + 1,
                    ).contains(s1[m].id) {
                        1int
                    } else {
                        0int
                    }) by {
                    if m == k as int {
                        assert(removed0.next@.subrange(0, i + 1).contains(x)) by {
                            assert(removed0.next@.subrange(0, i + 1)[i as int] == x);
                        }
                    } else {
                        assert(removed0.next@.subrange(0, i + 1).contains(s1[m].id)
                            == removed0.next@.subrange(0, i as int).contains(s1[m].id)) by {
                            if removed0.next@.subrange(0, i + 1).contains(s1[m].id) {
                                let a = choose|a: int|
                                    0 <= a < i + 1 && #[trigger] removed0.next@.subrange(
                                        0,
                                        i + 1,
                                    )[a] == s1[m].id;
                                if a < i {
                                    assert(removed0.next@.subrange(0, i as int)[a] == s1[m].id);
                                }
                            }
                        }
                    }
                }
            }
            i = i + 1;
        }
        proof {
            assert(removed0.next@.subrange(0, removed0.next@.len() as int) =~= removed0.next@);
            lemma_complete_wf(*self, t0, q0, j as int);
        }
        Some(removed)
    }

    /// A best-effort snapshot of the registry as display lines, in
    /// submission order: one line per task still submitted and not yet
    /// completed, so the count grows by one per submission and shrinks
    /// by one per completion.
    pub fn show_tasks(&self) -> (r: Vec<String>)
        ensures
            r@.len() == self.tasks().len(),
            forall|k: int|
                0 <= k < r@.len() ==> (#[trigger] r@[k])@ == summary_spec(self.tasks()[k]),
    {
        let mut out: Vec<String> = Vec::new();
        let mut i: usize = 0;
        while i < self.registry.len()
            invariant
                i <= self.registry@.len(),
                out@.len() == i,
                forall|k: int|
                    0 <= k < i ==> (#[trigger] out@[k])@ == summary_spec(self.registry@[k]),
            decreases self.registry@.len() - i,
        {
            out.push(self.registry[i].summary());
            i = i + 1;
        }
        out
    }
}

/// Liveness of an acyclic submission set: when no task is ready and no
/// task is mid-execution, nothing is left in the registry.  Dependency
/// edges recorded at submission always point from an earlier id to a
/// later one, so the registry never holds a cycle; and `complete_task`
/// shrinks the registry by exactly one.  A worker loop that, while the
/// scheduler runs, takes every `Execute` action it is handed and reports
/// each back therefore ends with every submitted task completed: it can
/// only come to rest in the state described here.
pub proof fn lemma_no_stalled_tasks(m: TaskManager)
    requires
        m.wf(),
        m.ready().len() == 0,
        forall|k: int|
            0 <= k < m.tasks().len() ==> (#[trigger] m.tasks()[k]).status != Status::Running,
    ensures
        m.tasks().len() == 0,
{
    assert forall|k: int| 0 <= k < m.tasks().len() implies (#[trigger] m.tasks()[k]).in_degree
        > 0 by {
        if m.tasks()[k].in_degree == 0 {
            assert(m.tasks()[k].status == Status::Pending);
            assert(m.ready().contains(m.tasks()[k].id));
        }
    }
    lemma_all_blocked_means_empty(m.tasks());
}

/// Ordering: a task starts only after every dependency recorded at its
/// submission has completed.  Being handed out requires sitting in the
/// ready queue or being marked running, either of which forces in-degree
/// zero, and in-degree zero means no record still in the registry lists
/// the task as a dependent: each recorded dependency has left the
/// registry, which happens only on completion.
pub proof fn lemma_started_only_after_deps(m: TaskManager, id: u64)
    requires
        m.wf(),
        has_id(m.tasks(), id),
        m.ready().contains(id) || task_of(m.tasks(), id).status == Status::Running,
    ensures
        task_of(m.tasks(), id).in_degree == 0,
        forall|k: int| 0 <= k < m.tasks().len() ==> !(#[trigger] m.tasks()[k]).next@.contains(id),
{
    lemma_idx_of(m.tasks(), id);
    let j = idx_of(m.tasks(), id);
    if m.ready().contains(id) {
        let a = choose|a: int| 0 <= a < m.ready().len() && m.ready()[a] == id;
        assert(task_of(m.tasks(), m.ready()[a]).in_degree == 0);
    }
    assert(m.tasks()[j].in_degree == edge_count(m.tasks(), id));
    assert forall|k: int| 0 <= k < m.tasks().len() implies !(#[trigger] m.tasks()[k]).next@
        .contains(id) by {
        if m.tasks()[k].next@.contains(id) {
            lemma_edge_count_at_least_one(m.tasks(), k, id);
        }
    }
}

/// The lifecycle laws: repeating `run` or `stop` from the state it
/// produced changes nothing more, `shutdown` always lands in the
/// terminal state, and the terminal state accepts no transition and is
/// never left.
pub proof fn lemma_lifecycle_idempotent_and_terminal(s: ManagerStatus)
    ensures
        run_next(run_next(s)) == run_next(s),
        stop_next(stop_next(s)) == stop_next(s),
        shutdown_next(s) == ManagerStatus::Shutdown,
        !transition_allowed(ManagerStatus::Shutdown),
        run_next(ManagerStatus::Shutdown) == ManagerStatus::Shutdown,
        stop_next(ManagerStatus::Shutdown) == ManagerStatus::Shutdown,
        shutdown_next(ManagerStatus::Shutdown) == ManagerStatus::Shutdown,
{
}

/// The scheduler invariant holds again once a running record has left
/// the registry, the in-degrees of its dependents have been lowered, and
/// those that reached zero have joined the ready queue.
proof fn lemma_complete_wf(m: TaskManager, t0: Seq<Task>, q0: Seq<u64>, j: int)
    requires
        wf_tasks(t0),
        forall|k: int| 0 <= k < t0.len() ==> (#[trigger] t0[k]).id < m.issued(),
        forall|a: int, b: int| 0 <= a < b < q0.len() ==> q0[a] != q0[b],
        forall|a: int| 0 <= a < q0.len() ==> has_id(t0, #[trigger] q0[a]),
        forall|a: int|
            0 <= a < q0.len() ==> task_of(t0, #[trigger] q0[a]).in_degree == 0 && task_of(
                t0,
                q0[a],
            ).status == Status::Pending,
        forall|k: int|
            0 <= k < t0.len() && (#[trigger] t0[k]).in_degree == 0 && t0[k].status
                == Status::Pending ==> q0.contains(t0[k].id),
        0 <= j < t0.len(),
        t0[j].status == Status::Running,
        t0[j].in_degree == 0,
        m.tasks().len() == t0.remove(j).len(),
        forall|k: int|
            0 <= k < t0.remove(j).len() ==> same_except_in_degree(
                t0.remove(j)[k],
                #[trigger] m.tasks()[k],
            ),
        forall|k: int|
            0 <= k < t0.remove(j).len() ==> (#[trigger] t0.remove(j)[k]).in_degree
                == m.tasks()[k].in_degree + (if t0[j].next@.contains(t0.remove(j)[k].id) {
                1int
            } else {
                0int
            }),
        m.ready() == q0 + t0[j].next@.filter(drops_to_zero(t0)),
    ensures
        m.wf(),
{
    let s1 = t0.remove(j);
    let s2 = m.tasks();
    let q2 = m.ready();
    let rel = t0[j].next@.filter(drops_to_zero(t0));
    let id = t0[j].id;

    lemma_filter_props(t0[j].next@, drops_to_zero(t0));

    assert forall|k: int| 0 <= k < s1.len() implies #[trigger] s1[k] == t0[if k < j {
        k
    } else {
        k + 1
    }] by {}

    // nothing points at the removed record: it was running, hence fully
    // released
    assert(edge_count(t0, id) == 0);
    assert forall|k: int| 0 <= k < t0.len() implies !(#[trigger] t0[k]).next@.contains(id) by {
        if t0[k].next@.contains(id) {
            lemma_edge_count_at_least_one(t0, k, id);
        }
    }

    // ids still strictly increase and stay below the counter
    assert(ids_increasing(s2)) by {
        assert forall|a: int, b: int| 0 <= a < b < s2.len() implies s2[a].id < s2[b].id by {
            assert(s2[a].id == s1[a].id);
            assert(s2[b].id == s1[b].id);
        }
    }
    assert forall|k: int| 0 <= k < s2.len() implies (#[trigger] s2[k]).id < m.issued() by {
        assert(s2[k].id == s1[k].id);
    }

    // presence carries over for every id but the removed one
    assert forall|y: u64| has_id(t0, y) && y != id implies has_id(s2, y) by {
        let w = choose|k: int| 0 <= k < t0.len() && t0[k].id == y;
        assert(w != j);
        let w1: int = if w < j {
            w
        } else {
            w - 1
        };
        assert(s2[w1].id == y);
    }

    // live-edge counts after the removal
    assert forall|y: u64| edge_count(s2, y) == edge_count(t0, y) - (if t0[j].next@.contains(y) {
        1int
    } else {
        0int
    }) by {
        lemma_edge_count_remove(t0, j, y);
        assert forall|k: int| 0 <= k < s2.len() implies (#[trigger] s2[k]).next@
            == s1[k].next@ by {}
        lemma_edge_count_congruent(s2, s1, y);
    }

    // each record's cached in-degree matches the new counts
    assert forall|k: int| 0 <= k < s2.len() implies (#[trigger] s2[k]).in_degree == edge_count(
        s2,
        s2[k].id,
    ) by {
        assert(s1[k].in_degree == edge_count(t0, s1[k].id));
        assert(s2[k].id == s1[k].id);
    }

    // statuses carry over; a running record had in-degree zero in `t0`
    // and its id is in no `next` list, so it still has in-degree zero
    assert forall|k: int| 0 <= k < s2.len() implies ((#[trigger] s2[k]).status == Status::Pending
        || s2[k].status == Status::Running) && (s2[k].status == Status::Running ==> s2[k].in_degree
        == 0) by {
        let o = s1[k];
        assert(same_except_in_degree(o, s2[k]));
        if s2[k].status == Status::Running {
            assert(o.in_degree == 0);
            assert(!t0[j].next@.contains(o.id)) by {
                if t0[j].next@.contains(o.id) {
                    lemma_edge_count_at_least_one(t0, j, o.id);
                    assert(edge_count(t0, o.id) == 0);
                }
            }
        }
    }

    // next lists are untouched: duplicate-freeness and forward edges
    // carry over; the targets are still present because nothing pointed
    // at the removed record
    assert forall|k: int, a: int, b: int|
        0 <= k < s2.len() && 0 <= a < b < s2[k].next@.len() implies #[trigger] s2[k].next@[a]
        != #[trigger] s2[k].next@[b] by {
        assert(s2[k].next@ == s1[k].next@);
    }
    assert forall|k: int, a: int|
        0 <= k < s2.len() && 0 <= a < s2[k].next@.len() implies (#[trigger] s2[k].next@[a])
        > s2[k].id && has_id(s2, s2[k].next@[a]) by {
        assert(s2[k].next@ == s1[k].next@);
        let x = s1[k].next@[a];
        assert(x > s1[k].id && has_id(t0, x));
        assert(x != id) by {
            let kk: int = if k < j {
                k
            } else {
                k + 1
            };
            assert(t0[kk].next@[a] == x);
        }
    }
    assert(wf_tasks(s2));

    // ids queued before stay valid: they are pending with in-degree
    // zero, so they are neither the removed id nor a lowered dependent
    assert forall|a: int| 0 <= a < q0.len() implies q0[a] != id && !t0[j].next@.contains(
        #[trigger] q0[a],
    ) by {
        lemma_idx_of(t0, q0[a]);
        if q0[a] == id {
            assert(task_of(t0, q0[a]) == t0[j]) by {
                lemma_id_unique(t0, idx_of(t0, q0[a]), j);
            }
        }
        if t0[j].next@.contains(q0[a]) {
            lemma_edge_count_at_least_one(t0, j, q0[a]);
            assert(task_of(t0, q0[a]).in_degree == edge_count(t0, q0[a]));
        }
    }

    // released ids are pending dependents whose in-degree reached zero
    assert forall|b: int| 0 <= b < rel.len() implies has_id(t0, #[trigger] rel[b]) && task_of(
        t0,
        rel[b],
    ).in_degree == 1 && t0[j].next@.contains(rel[b]) by {}

    // the whole queue: distinct ids of ready pending records
    assert forall|a: int, b: int| 0 <= a < b < q2.len() implies q2[a] != q2[b] by {
        if b < q0.len() {
            assert(q2[a] == q0[a] && q2[b] == q0[b]);
        } else if a < q0.len() {
            assert(q2[a] == q0[a] && q2[b] == rel[b - q0.len()]);
            assert(task_of(t0, q0[a]).in_degree == 0);
        } else {
            assert(q2[a] == rel[a - q0.len()] && q2[b] == rel[b - q0.len()]);
            let xa = rel[a - q0.len()];
            let xb = rel[b - q0.len()];
            if xa == xb {
                let wa = choose|w: int| 0 <= w < t0[j].next@.len() && t0[j].next@[w] == xa;
                lemma_filter_distinct(t0[j].next@, drops_to_zero(t0), a - q0.len(), b - q0.len());
            }
        }
    }
    assert forall|a: int| 0 <= a < q2.len() implies has_id(s2, #[trigger] q2[a]) && task_of(
        s2,
        q2[a],
    ).in_degree == 0 && task_of(s2, q2[a]).status == Status::Pending by {
        let y = q2[a];
        if a < q0.len() {
            assert(y == q0[a]);
            lemma_idx_of(t0, y);
            let w = idx_of(t0, y);
            assert(w != j);
            let w1: int = if w < j {
                w
            } else {
                w - 1
            };
            assert(s2[w1].id == y);
            lemma_idx_of(s2, y);
            lemma_id_unique(s2, idx_of(s2, y), w1);
            assert(task_of(s2, y) == s2[w1]);
            assert(s1[w1] == t0[w]);
            assert(s2[w1].in_degree == 0) by {
                assert(!t0[j].next@.contains(y));
            }
        } else {
            assert(y == rel[a - q0.len()]);
            assert(has_id(t0, y) && task_of(t0, y).in_degree == 1 && t0[j].next@.contains(y));
            lemma_idx_of(t0, y);
            let w = idx_of(t0, y);
            assert(w != j) by {
                if w == j {
                    assert(t0[j].in_degree == 1);
                }
            }
            let w1: int = if w < j {
                w
            } else {
                w - 1
            };
            assert(s2[w1].id == y);
            lemma_idx_of(s2, y);
            lemma_id_unique(s2, idx_of(s2, y), w1);
            assert(task_of(s2, y) == s2[w1]);
            assert(s1[w1] == t0[w]);
            assert(s2[w1].in_degree == 0);
            assert(s2[w1].status == Status::Pending) by {
                if t0[w].status == Status::Running {
                    assert(t0[w].in_degree == 0);
                }
            }
        }
    }
    assert forall|k: int|
        0 <= k < s2.len() && (#[trigger] s2[k]).in_degree == 0 && s2[k].status == Status::Pending
        implies q2.contains(s2[k].id) by {
        let o = s1[k];
        let y = o.id;
        if t0[j].next@.contains(y) {
            // this dependent was just released
            assert(o.in_degree == 1);
            let kk: int = if k < j {
                k
            } else {
                k + 1
            };
            assert(t0[kk] == o);
            assert(task_of(t0, y) == t0[kk]) by {
                lemma_idx_of(t0, y);
                lemma_id_unique(t0, idx_of(t0, y), kk);
            }
            assert(drops_to_zero(t0)(y)) by {
                assert(has_id(t0, y)) by {
                    assert(t0[kk].id == y);
                }
            }
            assert(rel.contains(y));
            let b = choose|b: int| 0 <= b < rel.len() && rel[b] == y;
            assert(q2[q0.len() + b] == y);
        } else {
            // it was ready already
            assert(o.in_degree == 0 && o.status == Status::Pending);
            let kk: int = if k < j {
                k
            } else {
                k + 1
            };
            assert(t0[kk] == o);
            assert(q0.contains(y));
            let a = choose|a: int| 0 <= a < q0.len() && q0[a] == y;
            assert(q2[a] == y);
        }
    }
}

impl Default for TaskManager {
    /// The same fresh scheduler that `new` yields.
    fn default() -> (m: TaskManager)
        ensures
            m.wf(),
            m.lifecycle() == ManagerStatus::Stopped,
            m.tasks() == Seq::<Task>::empty(),
            m.ready() == Seq::<u64>::empty(),
            m.issued() == 0,
    {
        TaskManager::new()
    }
}

/// The scheduler invariant holds again once the oldest ready id has left
/// the queue and its record has been marked `Running`.
proof fn lemma_take_ready_wf(m: TaskManager, t0: Seq<Task>, q0: Seq<u64>, id: u64, j: int)
    requires
        wf_tasks(t0),
        forall|k: int| 0 <= k < t0.len() ==> (#[trigger] t0[k]).id < m.issued(),
        forall|a: int, b: int| 0 <= a < b < q0.len() ==> q0[a] != q0[b],
        forall|a: int| 0 <= a < q0.len() ==> has_id(t0, #[trigger] q0[a]),
        forall|a: int|
            0 <= a < q0.len() ==> task_of(t0, #[trigger] q0[a]).in_degree == 0 && task_of(
                t0,
                q0[a],
            ).status == Status::Pending,
        forall|k: int|
            0 <= k < t0.len() && (#[trigger] t0[k]).in_degree == 0 && t0[k].status
                == Status::Pending ==> q0.contains(t0[k].id),
        q0.len() > 0,
        q0[0] == id,
        0 <= j < t0.len(),
        t0[j].id == id,
        m.tasks().len() == t0.len(),
        forall|k: int| 0 <= k < t0.len() && k != j ==> #[trigger] m.tasks()[k] == t0[k],
        same_except_status(t0[j], m.tasks()[j]),
        m.tasks()[j].status == Status::Running,
        m.ready() == q0.drop_first(),
    ensures
        m.wf(),
{
    let s2 = m.tasks();
    let q2 = m.ready();

    assert(task_of(t0, id) == t0[j]) by {
        lemma_idx_of(t0, id);
    }
    assert(t0[j].in_degree == 0);

    assert(ids_increasing(s2)) by {
        assert forall|a: int, b: int| 0 <= a < b < s2.len() implies s2[a].id < s2[b].id by {
            assert(s2[a].id == t0[a].id);
            assert(s2[b].id == t0[b].id);
        }
    }
    assert forall|y: u64| has_id(t0, y) implies has_id(s2, y) by {
        let w = choose|k: int| 0 <= k < t0.len() && t0[k].id == y;
        assert(s2[w].id == y);
    }
    assert forall|y: u64| edge_count(s2, y) == edge_count(t0, y) by {
        assert forall|k: int| 0 <= k < s2.len() implies (#[trigger] s2[k]).next@ == t0[k].next@ by {
        }
        lemma_edge_count_congruent(s2, t0, y);
    }
    assert forall|k: int| 0 <= k < s2.len() implies (#[trigger] s2[k]).in_degree == edge_count(
        s2,
        s2[k].id,
    ) by {
        assert(s2[k].in_degree == t0[k].in_degree);
        assert(s2[k].id == t0[k].id);
    }
    assert(wf_tasks(s2));

    // the popped id occurred only at the queue's head
    assert forall|a: int| 0 <= a < q2.len() implies q2[a] != id by {
        assert(q2[a] == q0[a + 1]);
    }
    assert forall|a: int| 0 <= a < q2.len() implies has_id(s2, #[trigger] q2[a]) && task_of(
        s2,
        q2[a],
    ).in_degree == 0 && task_of(s2, q2[a]).status == Status::Pending by {
        let y = q0[a + 1];
        assert(q2[a] == y);
        assert(has_id(t0, y));
        lemma_idx_of(t0, y);
        let w = idx_of(t0, y);
        assert(s2[w].id == y);
        lemma_idx_of(s2, y);
        assert(idx_of(s2, y) == w);
        assert(w != j) by {
            if w == j {
                assert(y == id);
            }
        }
        assert(task_of(s2, y) == s2[w]);
        assert(task_of(t0, y) == t0[w]);
    }
    assert forall|k: int|
        0 <= k < s2.len() && (#[trigger] s2[k]).in_degree == 0 && s2[k].status == Status::Pending
        implies q2.contains(s2[k].id) by {
        assert(k != j);
        assert(t0[k].in_degree == 0 && t0[k].status == Status::Pending);
        assert(q0.contains(t0[k].id));
        let a = choose|a: int| 0 <= a < q0.len() && q0[a] == t0[k].id;
        assert(a != 0) by {
            if a == 0 {
                lemma_id_unique(t0, k, j);
            }
        }
        assert(q2[a - 1] == t0[k].id);
    }
}

/// The scheduler invariant holds again once a submission has recorded
/// its edges, entered the registry under the fresh id, and joined the
/// ready queue exactly when its in-degree ended at zero.
proof fn lemma_submit_wf(
    m: TaskManager,
    t0: Seq<Task>,
    q0: Seq<u64>,
    id: u64,
    deps: Seq<u64>,
    in_deg: nat,
)
    requires
        wf_tasks(t0),
        forall|j: int| 0 <= j < t0.len() ==> (#[trigger] t0[j]).id < id,
        forall|j: int| 0 <= j < t0.len() ==> !(#[trigger] t0[j]).next@.contains(id),
        forall|a: int, b: int| 0 <= a < b < q0.len() ==> q0[a] != q0[b],
        forall|a: int| 0 <= a < q0.len() ==> has_id(t0, #[trigger] q0[a]),
        forall|a: int|
            0 <= a < q0.len() ==> task_of(t0, #[trigger] q0[a]).in_degree == 0 && task_of(
                t0,
                q0[a],
            ).status == Status::Pending,
        forall|j: int|
            0 <= j < t0.len() && (#[trigger] t0[j]).in_degree == 0 && t0[j].status
                == Status::Pending ==> q0.contains(t0[j].id),
        m.tasks().len() == t0.len() + 1,
        forall|k: int|
            0 <= k < t0.len() ==> same_except_next(t0[k], #[trigger] m.tasks()[k]),
        forall|k: int|
            0 <= k < t0.len() ==> (#[trigger] m.tasks()[k]).next@ == (if deps.contains(t0[k].id) {
                t0[k].next@.push(id)
            } else {
                t0[k].next@
            }),
        m.tasks().last().id == id,
        m.tasks().last().in_degree == in_deg,
        m.tasks().last().status == Status::Pending,
        m.tasks().last().next@ == Seq::<u64>::empty(),
        forall|y: u64| y != id ==> edge_count(m.tasks(), y) == edge_count(t0, y),
        edge_count(m.tasks(), id) == in_deg,
        m.issued() == id + 1,
        m.ready() == (if in_deg == 0 {
            q0.push(id)
        } else {
            q0
        }),
    ensures
        m.wf(),
{
    let s2 = m.tasks();
    let q2 = m.ready();
    let n = t0.len() as int;

    // every id of the old registry is smaller than the new one
    assert forall|y: u64| has_id(t0, y) implies y < id by {
        let w = choose|k: int| 0 <= k < t0.len() && t0[k].id == y;
        assert(t0[w].id < id);
    }

    // ids still strictly increase
    assert forall|i: int, j: int| 0 <= i < j < s2.len() implies s2[i].id < s2[j].id by {
        if j < n {
            assert(t0[i].id < t0[j].id);
        } else {
            assert(s2[i].id == t0[i].id);
            assert(s2[j] == s2.last());
        }
    }
    assert(ids_increasing(s2));

    // presence of an id carries over from the old registry
    assert forall|y: u64| has_id(t0, y) implies has_id(s2, y) by {
        let w = choose|k: int| 0 <= k < t0.len() && t0[k].id == y;
        assert(s2[w].id == y);
    }
    assert(has_id(s2, id)) by {
        assert(s2[n].id == id);
    }

    // cached in-degrees still count the live edges
    assert forall|j: int| 0 <= j < s2.len() implies (#[trigger] s2[j]).in_degree == edge_count(
        s2,
        s2[j].id,
    ) by {
        if j < n {
            assert(s2[j].id == t0[j].id);
            assert(t0[j].id < id);
            assert(edge_count(s2, t0[j].id) == edge_count(t0, t0[j].id));
            assert(t0[j].in_degree == edge_count(t0, t0[j].id));
        } else {
            assert(s2[j] == s2.last());
        }
    }

    // statuses, and released running records, carry over
    assert forall|j: int| 0 <= j < s2.len() implies (#[trigger] s2[j]).status == Status::Pending
        || s2[j].status == Status::Running by {
        if j < n {
            assert(t0[j].status == Status::Pending || t0[j].status == Status::Running);
        }
    }
    assert forall|j: int|
        0 <= j < s2.len() && (#[trigger] s2[j]).status == Status::Running implies s2[j].in_degree
        == 0 by {
        if j < n {
            assert(t0[j].status == Status::Running);
        }
    }

    // next lists stay duplicate-free
    assert forall|j: int, a: int, b: int|
        0 <= j < s2.len() && 0 <= a < b < s2[j].next@.len() implies #[trigger] s2[j].next@[a]
        != #[trigger] s2[j].next@[b] by {
        if j < n {
            if deps.contains(t0[j].id) {
                assert(s2[j].next@ == t0[j].next@.push(id));
                if b < t0[j].next@.len() {
                    assert(t0[j].next@[a] != t0[j].next@[b]);
                } else {
                    assert(s2[j].next@[b] == id);
                    assert(t0[j].next@[a] != id) by {
                        if t0[j].next@[a] == id {
                            assert(t0[j].next@.contains(id));
                        }
                    }
                }
            } else {
                assert(s2[j].next@ == t0[j].next@);
                assert(t0[j].next@[a] != t0[j].next@[b]);
            }
        }
    }

    // edges still point forward, to records still present
    assert forall|j: int, a: int|
        0 <= j < s2.len() && 0 <= a < s2[j].next@.len() implies (#[trigger] s2[j].next@[a])
        > s2[j].id && has_id(s2, s2[j].next@[a]) by {
        if j < n {
            assert(s2[j].id == t0[j].id);
            if deps.contains(t0[j].id) {
                assert(s2[j].next@ == t0[j].next@.push(id));
                if a < t0[j].next@.len() {
                    assert(s2[j].next@[a] == t0[j].next@[a]);
                    assert(t0[j].next@[a] > t0[j].id && has_id(t0, t0[j].next@[a]));
                } else {
                    assert(s2[j].next@[a] == id);
                    assert(t0[j].id < id);
                }
            } else {
                assert(s2[j].next@[a] == t0[j].next@[a]);
                assert(t0[j].next@[a] > t0[j].id && has_id(t0, t0[j].next@[a]));
            }
        }
    }
    assert(wf_tasks(s2));

    // every id stays below the bumped counter
    assert forall|j: int| 0 <= j < s2.len() implies (#[trigger] s2[j]).id < m.issued() by {
        if j < n {
            assert(s2[j].id == t0[j].id);
        } else {
            assert(s2[j].id == id);
        }
    }

    // queue elements stay distinct: the fresh id is new to it
    assert forall|a: int, b: int| 0 <= a < b < q2.len() implies q2[a] != q2[b] by {
        if b < q0.len() {
            assert(q0[a] != q0[b]);
        } else {
            assert(q2[b] == id);
            assert(has_id(t0, q0[a]));
        }
    }

    // queue elements name ready pending records
    assert forall|a: int| 0 <= a < q2.len() implies has_id(s2, #[trigger] q2[a]) && task_of(
        s2,
        q2[a],
    ).in_degree == 0 && task_of(s2, q2[a]).status == Status::Pending by {
        if a < q0.len() {
            let y = q0[a];
            assert(has_id(t0, y));
            lemma_idx_of(t0, y);
            let w = idx_of(t0, y);
            assert(s2[w].id == y);
            lemma_idx_of(s2, y);
            assert(idx_of(s2, y) == w);
            assert(task_of(s2, y) == s2[w]);
            assert(same_except_next(t0[w], s2[w]));
            assert(task_of(t0, y) == t0[w]);
        } else {
            assert(q2[a] == id);
            lemma_idx_of(s2, id);
            assert(idx_of(s2, id) == n) by {
                assert(s2[n].id == id);
            }
            assert(task_of(s2, id) == s2[n]);
        }
    }

    // every ready pending record is in the queue
    assert forall|j: int|
        0 <= j < s2.len() && (#[trigger] s2[j]).in_degree == 0 && s2[j].status == Status::Pending
        implies q2.contains(s2[j].id) by {
        if j < n {
            assert(t0[j].in_degree == 0 && t0[j].status == Status::Pending);
            assert(q0.contains(t0[j].id));
            let a = choose|a: int| 0 <= a < q0.len() && q0[a] == t0[j].id;
            assert(q2[a] == t0[j].id);
        } else {
            assert(s2[j].in_degree == in_deg);
            assert(q2[q0.len() as int] == id);
        }
    }
}

} // verus!
