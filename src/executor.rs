//! The executor: an arena of tasks, the ready queue of their indices, and
//! the loop that resumes them until the queue is drained.

use crate::queue::{ReadyQueue, SubmitError};
use crate::task::{lines_of, Computation, Context, Poll};
use vstd::prelude::*;
use vstd::set_lib::{lemma_int_range, set_int_range};

verus! {

/// Capacity of the ready queue of [`Executor::new`].
pub const DEFAULT_CAPACITY: usize = 1024;

/// Pauses left to a slot of the arena; an empty slot has none.
pub open spec fn slot_work<T: Computation>(s: Option<T>) -> nat {
    match s {
        Some(t) => t.budget(),
        None => 0,
    }
}

/// Pauses left to all tasks of an arena together.
pub open spec fn work<T: Computation>(s: Seq<Option<T>>) -> nat
    decreases s.len(),
{
    if s.len() == 0 {
        0
    } else {
        work(s.drop_last()) + slot_work(s.last())
    }
}

proof fn lemma_work_update<T: Computation>(s: Seq<Option<T>>, i: int, v: Option<T>)
    requires
        0 <= i < s.len(),
    ensures
        work(s.update(i, v)) + slot_work(s[i]) == work(s) + slot_work(v),
    decreases s.len(),
{
    let u = s.update(i, v);
    if i == s.len() - 1 {
        assert(u.drop_last() =~= s.drop_last());
    } else {
        lemma_work_update(s.drop_last(), i, v);
        assert(u.drop_last() =~= s.drop_last().update(i, v));
    }
}

proof fn lemma_contains_after_front(q: Seq<usize>, x: usize)
    requires
        q.contains(x),
        q[0] != x,
    ensures
        q.drop_first().contains(x),
{
    let k = choose|k: int| 0 <= k < q.len() && q[k] == x;
    assert(q.drop_first()[k - 1] == x);
}

proof fn lemma_contains_prefix(s: Seq<usize>, prefix: Seq<usize>, x: usize)
    requires
        prefix.len() <= s.len(),
        s.subrange(0, prefix.len() as int) == prefix,
        prefix.contains(x),
    ensures
        s.contains(x),
{
    let k = choose|k: int| 0 <= k < prefix.len() && prefix[k] == x;
    assert(s.subrange(0, prefix.len() as int)[k] == x);
}

/// First turns follow arrival order: a run takes entries in the order
/// `pending + requeued` (its queue at the start, then each wake as it came).
/// So when task `pending[i]` arrived before the first arrival of task
/// `pending[j]`, the run takes `pending[i]` at turn `i`, and takes
/// `pending[j]` for the first time at turn `j`, later.
pub proof fn lemma_first_turns_follow_arrival(
    pending: Seq<usize>,
    requeued: Seq<usize>,
    dequeued: Seq<usize>,
    i: int,
    j: int,
)
    requires
        dequeued == pending + requeued,
        0 <= i < j < pending.len(),
        forall|k: int| 0 <= k < j ==> pending[k] != pending[j],
    ensures
        dequeued[i] == pending[i],
        dequeued[j] == pending[j],
        forall|k: int| 0 <= k < j ==> dequeued[k] != pending[j],
{
}

/// `n` entries of task `id`.
pub open spec fn copies(id: usize, n: nat) -> Seq<usize> {
    Seq::new(n, |_i: int| id)
}

/// What a run does, as a value: the arena it leaves, and the entries it
/// took, the entries wakes added, the tasks that finished and the lines
/// emitted, each in order.
pub struct Replay<T> {
    pub tasks: Seq<Option<T>>,
    pub dequeued: Seq<usize>,
    pub resumed: Seq<usize>,
    pub requeued: Seq<usize>,
    pub completed: Seq<usize>,
    pub output: Seq<Seq<char>>,
}

/// A run from arena `tasks` and queue `queue`, with `cap` places in all.
///
/// The entry at the front is taken. If its task has finished, it is
/// skipped. Otherwise the task takes one step with the free places
/// reserved for its wakes: when it finishes it is discarded; when it
/// pauses, its new state goes back into its slot and one entry of it is
/// added at the back for each wake. Then the rest of the queue is run.
pub open spec fn replay<T: Computation>(tasks: Seq<Option<T>>, queue: Seq<usize>, cap: nat) -> Replay<
    T,
>
    decreases work(tasks), queue.len(),
    via replay_decreases::<T>
{
    if queue.len() == 0 {
        Replay {
            tasks,
            dequeued: Seq::<usize>::empty(),
            resumed: Seq::<usize>::empty(),
            requeued: Seq::<usize>::empty(),
            completed: Seq::<usize>::empty(),
            output: Seq::<Seq<char>>::empty(),
        }
    } else {
        let id = queue[0];
        let rest = queue.drop_first();
        if id < tasks.len() && tasks[id as int] is Some {
            let s = tasks[id as int]->0.step((cap - rest.len()) as nat);
            if s.poll == Poll::Ready {
                let r = replay(tasks.update(id as int, None), rest, cap);
                Replay {
                    tasks: r.tasks,
                    dequeued: seq![id] + r.dequeued,
                    resumed: seq![id] + r.resumed,
                    requeued: r.requeued,
                    completed: seq![id] + r.completed,
                    output: s.lines + r.output,
                }
            } else {
                let r = replay(
                    tasks.update(id as int, Some(s.state)),
                    rest + copies(id, s.wakes),
                    cap,
                );
                Replay {
                    tasks: r.tasks,
                    dequeued: seq![id] + r.dequeued,
                    resumed: seq![id] + r.resumed,
                    requeued: copies(id, s.wakes) + r.requeued,
                    completed: r.completed,
                    output: s.lines + r.output,
                }
            }
        } else {
            let r = replay(tasks, rest, cap);
            Replay {
                tasks: r.tasks,
                dequeued: seq![id] + r.dequeued,
                resumed: r.resumed,
                requeued: r.requeued,
                completed: r.completed,
                output: r.output,
            }
        }
    }
}

#[via_fn]
proof fn replay_decreases<T: Computation>(tasks: Seq<Option<T>>, queue: Seq<usize>, cap: nat) {
    if queue.len() > 0 {
        let id = queue[0];
        let rest = queue.drop_first();
        if id < tasks.len() && tasks[id as int] is Some {
            let t = tasks[id as int]->0;
            let room = (cap - rest.len()) as nat;
            t.lemma_step(room);
            lemma_work_update(tasks, id as int, None);
            lemma_work_update(tasks, id as int, Some(t.step(room).state));
        }
    }
}

/// A run finishes every one of `n` tasks, no fewer: when the tasks it
/// finished are distinct indices below `n` and every index below `n` is
/// among them, as `run` ensures for an open executor whose `n` tasks are
/// all live and keep themselves awake, exactly `n` tasks finished.
pub proof fn lemma_completed_count(n: nat, completed: Seq<usize>)
    requires
        n <= usize::MAX,
        forall|k1: int, k2: int|
            0 <= k1 < k2 < completed.len() ==> completed[k1] != completed[k2],
        forall|k: int| 0 <= k < completed.len() ==> completed[k] < n,
        forall|id: usize| id < n ==> completed.contains(id),
    ensures
        completed.len() == n,
{
    let s = completed.map_values(|x: usize| x as int);
    assert forall|i: int, j: int| 0 <= i < s.len() && 0 <= j < s.len() && i != j implies s[i]
        != s[j] by {
        if i < j {
            assert(completed[i] != completed[j]);
        } else {
            assert(completed[j] != completed[i]);
        }
    }
    assert(s.no_duplicates());
    s.unique_seq_to_set();
    assert forall|i: int| s.to_set().contains(i) <==> set_int_range(0, n as int).contains(i) by {
        if set_int_range(0, n as int).contains(i) {
            let id = i as usize;
            assert(completed.contains(id));
            let k = choose|k: int| 0 <= k < completed.len() && completed[k] == id;
            assert(s[k] == i);
        }
        if s.to_set().contains(i) {
            let k = choose|k: int| 0 <= k < s.len() && s[k] == i;
            assert(completed[k] < n);
        }
    }
    assert(s.to_set() =~= set_int_range(0, n as int));
    lemma_int_range(0, n as int);
}

/// Number of live tasks of an arena.
pub open spec fn live<T>(s: Seq<Option<T>>) -> nat
    decreases s.len(),
{
    if s.len() == 0 {
        0
    } else {
        live(s.drop_last()) + if s.last() is Some { 1nat } else { 0nat }
    }
}

proof fn lemma_live_update<T>(s: Seq<Option<T>>, i: int, v: Option<T>)
    requires
        0 <= i < s.len(),
    ensures
        live(s.update(i, v)) + (if s[i] is Some { 1nat } else { 0nat }) == live(s) + (if v is Some {
            1nat
        } else {
            0nat
        }),
    decreases s.len(),
{
    let u = s.update(i, v);
    if i == s.len() - 1 {
        assert(u.drop_last() =~= s.drop_last());
    } else {
        lemma_live_update(s.drop_last(), i, v);
        assert(u.drop_last() =~= s.drop_last().update(i, v));
    }
}

/// Runs are bounded: a run resumes its tasks at most as many times as they
/// have pauses left, plus once more each to finish.
pub proof fn lemma_resumptions_bounded<T: Computation>(
    tasks: Seq<Option<T>>,
    queue: Seq<usize>,
    cap: nat,
)
    ensures
        replay(tasks, queue, cap).resumed.len() <= work(tasks) + live(tasks),
    decreases work(tasks), queue.len(),
{
    if queue.len() > 0 {
        let id = queue[0];
        let rest = queue.drop_first();
        if id < tasks.len() && tasks[id as int] is Some {
            let t = tasks[id as int]->0;
            let room = (cap - rest.len()) as nat;
            let st = t.step(room);
            t.lemma_step(room);
            if st.poll == Poll::Ready {
                lemma_work_update(tasks, id as int, None);
                lemma_live_update(tasks, id as int, None);
                lemma_resumptions_bounded(tasks.update(id as int, None), rest, cap);
            } else {
                lemma_work_update(tasks, id as int, Some(st.state));
                lemma_live_update(tasks, id as int, Some(st.state));
                lemma_resumptions_bounded(
                    tasks.update(id as int, Some(st.state)),
                    rest + copies(id, st.wakes),
                    cap,
                );
            }
        } else {
            lemma_resumptions_bounded(tasks, rest, cap);
        }
    }
}

/// What one run of the executor did.
pub struct RunReport {
    /// Every index taken from the ready queue, in the order taken.
    pub dequeued: Vec<usize>,
    /// The task resumed at each turn whose task had not finished, in order.
    pub resumed: Vec<usize>,
    /// Every index submitted again by a wake during the run, in order.
    pub requeued: Vec<usize>,
    /// The tasks that finished, in the order they finished.
    pub completed: Vec<usize>,
    /// The lines the tasks emitted, in the order emitted.
    pub output: Vec<String>,
}

/// A single-threaded executor of computations of type `T`.
///
/// Tasks are owned by an arena and named by their index in it; a slot is
/// emptied for good when its task finishes. The ready queue holds indices.
pub struct Executor<T> {
    tasks: Vec<Option<T>>,
    queue: ReadyQueue,
}

impl<T: Computation> Executor<T> {
    /// The arena: slot `i` holds task `i` until it finishes.
    pub closed spec fn slots(&self) -> Seq<Option<T>> {
        self.tasks@
    }

    /// The ready queue's entries, front first.
    pub closed spec fn pending(&self) -> Seq<usize> {
        self.queue@
    }

    /// The ready queue's capacity.
    pub closed spec fn cap(&self) -> nat {
        self.queue.cap()
    }

    /// Whether the executor has shut down.
    pub closed spec fn is_shut(&self) -> bool {
        self.queue.is_shut()
    }

    /// The queue is well formed and names only slots of the arena, and
    /// while the executor runs, every live task that keeps itself awake has
    /// an entry in the queue.
    pub closed spec fn wf(&self) -> bool {
        &&& self.queue.wf()
        &&& forall|k: int| 0 <= k < self.queue@.len() ==> self.queue@[k] < self.tasks@.len()
        &&& !self.queue.is_shut() ==> forall|id: usize|
            id < self.tasks@.len() && self.tasks@[id as int] is Some && (
            #[trigger] self.tasks@[id as int])->0.keeps_awake() ==> self.queue@.contains(id)
    }

    /// An executor with no tasks whose queue holds `DEFAULT_CAPACITY` entries.
    pub fn new() -> (e: Executor<T>)
        ensures
            e.wf(),
            e.slots() == Seq::<Option<T>>::empty(),
            e.pending() == Seq::<usize>::empty(),
            e.cap() == DEFAULT_CAPACITY,
            !e.is_shut(),
    {
        Self::with_capacity(DEFAULT_CAPACITY)
    }

    /// An executor with no tasks whose queue holds `capacity` entries.
    pub fn with_capacity(capacity: usize) -> (e: Executor<T>)
        requires
            capacity > 0,
        ensures
            e.wf(),
            e.slots() == Seq::<Option<T>>::empty(),
            e.pending() == Seq::<usize>::empty(),
            e.cap() == capacity,
            !e.is_shut(),
    {
        Executor { tasks: Vec::new(), queue: ReadyQueue::new(capacity) }
    }

    /// Number of slots of the arena, finished tasks included.
    pub fn task_count(&self) -> (n: usize)
        ensures
            n == self.slots().len(),
    {
        self.tasks.len()
    }

    /// Number of entries waiting in the ready queue.
    pub fn pending_count(&self) -> (n: usize)
        ensures
            n == self.pending().len(),
    {
        self.queue.len()
    }

    /// Whether task `id` exists and has not finished.
    pub fn is_live(&self, id: usize) -> (b: bool)
        ensures
            b == (id < self.slots().len() && self.slots()[id as int] is Some),
    {
        id < self.tasks.len() && self.tasks[id].is_some()
    }

    /// Whether the executor has shut down.
    pub fn is_closed(&self) -> (b: bool)
        ensures
            b == self.is_shut(),
    {
        self.queue.is_closed()
    }

    /// Puts `computation` in a fresh slot and submits its index to the
    /// ready queue once. After shutdown this is refused with `Closed`, on a
    /// full queue with `Full`; a refused spawn changes nothing.
    pub fn spawn(&mut self, computation: T) -> (r: Result<usize, SubmitError>)
        requires
            old(self).wf(),
        ensures
            final(self).wf(),
            final(self).cap() == old(self).cap(),
            final(self).is_shut() == old(self).is_shut(),
            old(self).is_shut() ==> r == Err::<usize, SubmitError>(SubmitError::Closed),
            !old(self).is_shut() && old(self).pending().len() == old(self).cap() ==> r == Err::<
                usize,
                SubmitError,
            >(SubmitError::Full),
            r is Ok <==> (!old(self).is_shut() && old(self).pending().len() < old(self).cap()),
            r is Ok ==> {
                &&& r == Ok::<usize, SubmitError>(old(self).slots().len() as usize)
                &&& final(self).slots() == old(self).slots().push(Some(computation))
                &&& final(self).pending() == old(self).pending().push(
                    old(self).slots().len() as usize,
                )
            },
            r is Err ==> final(self).slots() == old(self).slots() && final(self).pending() == old(
                self,
            ).pending(),
    {
        let id = self.tasks.len();
        match self.queue.submit(id) {
            Ok(()) => {
                self.tasks.push(Some(computation));
                proof {
                    assert(self.queue@.last() == id);
                    assert forall|id2: usize|
                        id2 < self.tasks@.len() && self.tasks@[id2 as int] is Some && (
                        #[trigger] self.tasks@[id2 as int])->0.keeps_awake() implies self.queue@.contains(
                        id2,
                    ) by {
                        if id2 < id {
                            assert(old(self).queue@.contains(id2));
                            let k = choose|k: int|
                                0 <= k < old(self).queue@.len() && old(self).queue@[k]
                                    == id2;
                            assert(self.queue@[k] == id2);
                        } else {
                            assert(self.queue@[self.queue@.len() - 1] == id2);
                        }
                    }
                }
                Ok(id)
            },
            Err(e) => Err(e),
        }
    }

    /// Shuts the consuming side for good: queued entries are discarded, so
    /// the tasks left in the arena never run again, and every later spawn
    /// is refused with `Closed`.
    pub fn shutdown(&mut self)
        requires
            old(self).wf(),
        ensures
            final(self).wf(),
            final(self).cap() == old(self).cap(),
            final(self).is_shut(),
            final(self).pending() == Seq::<usize>::empty(),
            final(self).slots() == old(self).slots(),
    {
        self.queue.close();
    }

    /// Takes indices from the ready queue and resumes their tasks until the
    /// queue is empty, then returns what it did.
    ///
    /// An index whose task has already finished is taken and skipped. A
    /// task that finishes is discarded and its slot emptied. A task that
    /// pauses is submitted again once for each wake it made while running;
    /// it gets as many places as the queue has free. The run does not stop
    /// at the first finished task: it ends only when the queue is drained,
    /// and every task that keeps itself awake has then finished, once.
    pub fn run(&mut self) -> (rep: RunReport)
        requires
            old(self).wf(),
        ensures
            final(self).wf(),
            final(self).cap() == old(self).cap(),
            final(self).is_shut() == old(self).is_shut(),
            final(self).pending().len() == 0,
            final(self).slots().len() == old(self).slots().len(),
            ({
                let r = replay(old(self).slots(), old(self).pending(), old(self).cap());
                &&& final(self).slots() == r.tasks
                &&& rep.dequeued@ == r.dequeued
                &&& rep.resumed@ == r.resumed
                &&& rep.requeued@ == r.requeued
                &&& rep.completed@ == r.completed
                &&& lines_of(rep.output@) == r.output
            }),
            rep.dequeued@ == old(self).pending() + rep.requeued@,
            forall|k: int|
                0 <= k < rep.completed@.len() ==> {
                    let id = #[trigger] rep.completed@[k];
                    &&& id < old(self).slots().len()
                    &&& old(self).slots()[id as int] is Some
                    &&& final(self).slots()[id as int] is None
                },
            forall|k1: int, k2: int|
                0 <= k1 < k2 < rep.completed@.len() ==> rep.completed@[k1] != rep.completed@[k2],
            forall|id: usize|
                id < old(self).slots().len() ==> ((#[trigger] final(self).slots()[id as int]) is None
                    <==> (old(self).slots()[id as int] is None || rep.completed@.contains(id))),
            forall|id: usize|
                id < old(self).slots().len() && !old(self).is_shut() && (
                #[trigger] old(self).slots()[id as int]) is Some && old(self).slots()[id as int]->0.keeps_awake()
                    ==> rep.completed@.contains(id),
    {
        let ghost s0 = self.tasks@;
        let ghost q0 = self.queue@;
        let ghost c0 = self.queue.cap();
        let mut dequeued: Vec<usize> = Vec::new();
        let mut resumed: Vec<usize> = Vec::new();
        let mut requeued: Vec<usize> = Vec::new();
        let mut completed: Vec<usize> = Vec::new();
        let mut output: Vec<String> = Vec::new();
        while self.queue.len() > 0
            invariant
                self.wf(),
                self.queue.cap() == old(self).queue.cap(),
                self.queue.cap() == c0,
                self.queue.is_shut() == old(self).queue.is_shut(),
                self.tasks@.len() == s0.len(),
                dequeued@ + self.queue@ == q0 + requeued@,
                ({
                    let r = replay(self.tasks@, self.queue@, c0);
                    replay(s0, q0, c0) == Replay {
                        tasks: r.tasks,
                        dequeued: dequeued@ + r.dequeued,
                        resumed: resumed@ + r.resumed,
                        requeued: requeued@ + r.requeued,
                        completed: completed@ + r.completed,
                        output: lines_of(output@) + r.output,
                    }
                }),
                forall|k: int|
                    0 <= k < completed@.len() ==> {
                        let id = #[trigger] completed@[k];
                        &&& id < s0.len()
                        &&& s0[id as int] is Some
                        &&& self.tasks@[id as int] is None
                    },
                forall|k1: int, k2: int|
                    0 <= k1 < k2 < completed@.len() ==> completed@[k1] != completed@[k2],
                forall|id: usize|
                    id < s0.len() ==> ((#[trigger] self.tasks@[id as int]) is None <==> (s0[id as int] is None
                        || completed@.contains(id))),
                forall|id: usize|
                    id < s0.len() && (#[trigger] s0[id as int]) is Some && s0[id as int]->0.keeps_awake()
                        && self.tasks@[id as int] is Some ==> self.tasks@[id as int]->0.keeps_awake(),
            decreases work(self.tasks@), self.queue@.len(),
        {
            let ghost tasks_before = self.tasks@;
            let ghost queue_before = self.queue@;
            let ghost completed_before = completed@;
            let ghost d_before = dequeued@;
            let ghost res_before = resumed@;
            let ghost mut added_res: Seq<usize> = Seq::empty();
            let ghost rq_before = requeued@;
            let ghost out_before = lines_of(output@);
            let ghost mut added_rq: Seq<usize> = Seq::empty();
            let ghost mut added_c: Seq<usize> = Seq::empty();
            let ghost mut added_out: Seq<Seq<char>> = Seq::empty();
            let id = self.queue.next().unwrap();
            let ghost rest = self.queue@;
            dequeued.push(id);
            let room = self.queue.capacity() - self.queue.len();
            let mut cx = Context::new(id, room);
            let mut slot: Option<T> = None;
            self.tasks.set_and_swap(id, &mut slot);
            match slot {
                Some(mut t) => {
                    let ghost t0 = t;
                    resumed.push(id);
                    proof {
                        added_res = seq![id];
                    }
                    let outcome = t.resume(&mut cx);
                    let mut lines = cx.take_lines();
                    output.append(&mut lines);
                    proof {
                        t0.lemma_step(room as nat);
                        lemma_work_update(tasks_before, id as int, Option::<T>::None);
                        added_out = t0.step(room as nat).lines;
                        assert(lines_of(output@) =~= out_before + added_out);
                    }
                    match outcome {
                        Poll::Ready => {
                            completed.push(id);
                            proof {
                                added_c = seq![id];
                                assert(completed@ == completed_before.push(id));
                                assert forall|k: int| 0 <= k < self.queue@.len() implies self.queue@[k] < self.tasks@.len() by {
                                    assert(self.queue@[k] == queue_before[k + 1]);
                                }
                                assert(!completed_before.contains(id));
                                assert forall|id2: usize|
                                    id2 < s0.len() implies ((#[trigger] self.tasks@[id2 as int]) is None
                                    <==> (s0[id2 as int] is None || completed@.contains(id2))) by {
                                    if id2 != id {
                                        assert(self.tasks@[id2 as int] == tasks_before[id2 as int]);
                                        if completed@.contains(id2) {
                                            let k = choose|k: int| 0 <= k < completed@.len() && completed@[k] == id2;
                                            assert(completed@[completed@.len() - 1] == id);
                                            assert(k != completed@.len() - 1);
                                            assert(completed_before[k] == id2);
                                        }
                                        if completed_before.contains(id2) {
                                            let k = choose|k: int| 0 <= k < completed_before.len() && completed_before[k] == id2;
                                            assert(completed@[k] == id2);
                                        }
                                    } else {
                                        assert(completed@[completed@.len() - 1] == id);
                                    }
                                }
                                assert forall|id2: usize|
                                    id2 < self.tasks@.len() && self.tasks@[id2 as int] is Some && (
                                    #[trigger] self.tasks@[id2 as int])->0.keeps_awake() implies self.queue@.contains(
                                    id2,
                                ) by {
                                    assert(self.tasks@[id as int] is None);
                                    assert(id2 != id);
                                    assert(tasks_before[id2 as int] == self.tasks@[id2 as int]);
                                    lemma_contains_after_front(queue_before, id2);
                                }
                            }
                        },
                        Poll::Pending => {
                            let n = cx.wakes();
                            let mut j: usize = 0;
                            while j < n
                                invariant
                                    0 <= j <= n,
                                    n <= room,
                                    room == self.queue.cap() - rest.len(),
                                    self.queue.wf(),
                                    !self.queue.is_shut(),
                                    self.queue.cap() == old(self).queue.cap(),
                                    self.queue.is_shut() == old(self).queue.is_shut(),
                                    self.queue@ == rest + copies(id, j as nat),
                                    requeued@ == rq_before + copies(id, j as nat),
                                    forall|k: int| 0 <= k < self.queue@.len() ==> self.queue@[k] < s0.len(),
                                    dequeued@ + self.queue@ == q0 + requeued@,
                                    id < s0.len(),
                                    self.tasks@ == tasks_before.update(id as int, None),
                                decreases n - j,
                            {
                                let ghost q1 = self.queue@;
                                let ghost r1 = requeued@;
                                let _ = self.queue.submit(id);
                                requeued.push(id);
                                j = j + 1;
                                proof {
                                    assert(copies(id, j as nat) =~= copies(id, (j - 1) as nat).push(id));
                                    assert(self.queue@ =~= rest + copies(id, j as nat));
                                    assert(requeued@ =~= rq_before + copies(id, j as nat));
                                    assert(dequeued@ + self.queue@ =~= (dequeued@ + q1).push(id));
                                    assert(q0 + requeued@ =~= (q0 + r1).push(id));
                                }
                            }
                            self.tasks.set(id, Some(t));
                            proof {
                                added_rq = copies(id, n as nat);
                                lemma_work_update(tasks_before, id as int, Some(t));
                                assert(self.tasks@ =~= tasks_before.update(id as int, Some(t)));
                                assert forall|id2: usize|
                                    id2 < self.tasks@.len() && self.tasks@[id2 as int] is Some && (
                                    #[trigger] self.tasks@[id2 as int])->0.keeps_awake() implies self.queue@.contains(
                                    id2,
                                ) by {
                                    if id2 == id {
                                        assert(self.queue@[self.queue@.len() - 1] == id);
                                    } else {
                                        assert(tasks_before[id2 as int] == self.tasks@[id2 as int]);
                                        lemma_contains_after_front(queue_before, id2);
                                        assert(self.queue@.subrange(0, rest.len() as int) =~= rest);
                                        lemma_contains_prefix(self.queue@, rest, id2);
                                    }
                                }
                            }
                        },
                    }
                },
                None => {
                    proof {
                        assert(self.tasks@ =~= tasks_before);
                        assert forall|k: int| 0 <= k < self.queue@.len() implies self.queue@[k] < self.tasks@.len() by {
                            assert(self.queue@[k] == queue_before[k + 1]);
                        }
                        assert forall|id2: usize|
                            id2 < self.tasks@.len() && self.tasks@[id2 as int] is Some && (
                            #[trigger] self.tasks@[id2 as int])->0.keeps_awake() implies self.queue@.contains(
                            id2,
                        ) by {
                            assert(tasks_before[id as int] is None);
                            assert(id2 != id);
                            lemma_contains_after_front(queue_before, id2);
                        }
                    }
                },
            }
            proof {
                let rb = replay(tasks_before, queue_before, c0);
                let ra = replay(self.tasks@, self.queue@, c0);
                assert(queue_before[0] == id);
                assert(queue_before.drop_first() == rest);
                assert(room as nat == (c0 - rest.len()) as nat);
                assert(queue_before.len() > 0);
                assert(id < tasks_before.len());
                assert(rb.tasks == ra.tasks);
                assert(rb.dequeued =~= seq![id] + ra.dequeued);
                assert(rb.resumed =~= added_res + ra.resumed);
                assert(rb.requeued =~= added_rq + ra.requeued);
                assert(rb.completed =~= added_c + ra.completed);
                assert(rb.output =~= added_out + ra.output);
                assert(dequeued@ + ra.dequeued =~= d_before + rb.dequeued);
                assert(requeued@ + ra.requeued =~= rq_before + rb.requeued);
                assert(resumed@ + ra.resumed =~= res_before + rb.resumed);
                assert(completed@ + ra.completed =~= completed_before + rb.completed);
                assert(lines_of(output@) + ra.output =~= out_before + rb.output);
            }
        }
        proof {
            let r = replay(self.tasks@, self.queue@, c0);
            assert(dequeued@ + r.dequeued =~= dequeued@);
            assert(requeued@ + r.requeued =~= requeued@);
            assert(resumed@ + r.resumed =~= resumed@);
            assert(completed@ + r.completed =~= completed@);
            assert(lines_of(output@) + r.output =~= lines_of(output@));
        }
        RunReport { dequeued, resumed, requeued, completed, output }
    }
}

} // verus!
