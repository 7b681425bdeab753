//! What a task is to the executor: a resumable computation, and the context
//! through which it wakes itself and reports output.

use crate::queue::SubmitError;
use vstd::prelude::*;

verus! {

/// The outcome of one resumption.
#[derive(Debug, Clone, Copy, PartialEq, Eq, Structural)]
pub enum Poll {
    /// The computation has finished; it is never resumed again.
    Ready,
    /// The computation has paused; it runs again only once woken.
    Pending,
}

/// Handed to a computation for one resumption: the wake capability bound to
/// the task being resumed, and the sink for the lines it emits.
///
/// Each accepted call of [`Context::wake`] puts one more entry of the task
/// at the back of the ready queue once the resumption returns, with no
/// merging of repeated wakes. The context holds a reservation of `room` free places in the
/// queue; a wake beyond that is refused with `SubmitError::Full`.
pub struct Context {
    task: usize,
    room: usize,
    wakes: usize,
    lines: Vec<String>,
}

impl Context {
    /// Index of the task this context is bound to.
    pub closed spec fn id(&self) -> usize {
        self.task
    }

    /// Free places of the ready queue reserved for wakes.
    pub closed spec fn room_spec(&self) -> nat {
        self.room as nat
    }

    /// Wakes accepted so far in this resumption.
    pub closed spec fn wake_count(&self) -> nat {
        self.wakes as nat
    }

    /// Lines emitted so far in this resumption.
    pub closed spec fn emitted(&self) -> Seq<Seq<char>> {
        lines_of(self.lines@)
    }

    /// Accepted wakes never exceed the reservation.
    pub open spec fn wf(&self) -> bool {
        self.wake_count() <= self.room_spec()
    }

    /// A context for resuming `task`, with `room` places reserved.
    pub fn new(task: usize, room: usize) -> (cx: Context)
        ensures
            cx.wf(),
            cx.id() == task,
            cx.room_spec() == room,
            cx.wake_count() == 0,
            cx.emitted() == Seq::<Seq<char>>::empty(),
    {
        let cx = Context { task, room, wakes: 0, lines: Vec::new() };
        proof {
            assert(cx.lines@.map_values(|l: String| l@) =~= Seq::<Seq<char>>::empty());
        }
        cx
    }

    /// Index of the task this context is bound to.
    pub fn task(&self) -> (t: usize)
        ensures
            t == self.id(),
    {
        self.task
    }

    /// Wakes accepted so far in this resumption.
    pub fn wakes(&self) -> (n: usize)
        ensures
            n == self.wake_count(),
    {
        self.wakes
    }

    /// Free places of the ready queue reserved for wakes.
    pub fn room(&self) -> (n: usize)
        ensures
            n == self.room_spec(),
    {
        self.room
    }

    /// Submits the bound task once more to the ready queue. Refused with
    /// `Full`, and nothing changed, when the reservation is used up.
    pub fn wake(&mut self) -> (r: Result<(), SubmitError>)
        requires
            old(self).wf(),
        ensures
            final(self).wf(),
            final(self).id() == old(self).id(),
            final(self).room_spec() == old(self).room_spec(),
            final(self).emitted() == old(self).emitted(),
            old(self).wake_count() < old(self).room_spec() ==> r is Ok && final(self).wake_count()
                == old(self).wake_count() + 1,
            old(self).wake_count() >= old(self).room_spec() ==> r == Err::<(), SubmitError>(
                SubmitError::Full,
            ) && final(self).wake_count() == old(self).wake_count(),
    {
        if self.wakes < self.room {
            self.wakes = self.wakes + 1;
            Ok(())
        } else {
            Err(SubmitError::Full)
        }
    }

    /// Emits one line of output.
    pub fn emit(&mut self, line: &str)
        requires
            old(self).wf(),
        ensures
            final(self).wf(),
            final(self).id() == old(self).id(),
            final(self).room_spec() == old(self).room_spec(),
            final(self).wake_count() == old(self).wake_count(),
            final(self).emitted() == old(self).emitted().push(line@),
    {
        let ghost before = self.lines@;
        self.lines.push(line.to_owned());
        proof {
            assert(self.lines@.map_values(|l: String| l@) =~= before.map_values(|l: String| l@).push(
                line@,
            ));
        }
    }

    /// Hands over the emitted lines, leaving none behind.
    pub fn take_lines(&mut self) -> (out: Vec<String>)
        ensures
            final(self).id() == old(self).id(),
            final(self).room_spec() == old(self).room_spec(),
            final(self).wake_count() == old(self).wake_count(),
            lines_of(out@) == old(self).emitted(),
            final(self).emitted() == Seq::<Seq<char>>::empty(),
    {
        let mut out: Vec<String> = Vec::new();
        core::mem::swap(&mut out, &mut self.lines);
        proof {
            assert(self.lines@.map_values(|l: String| l@) =~= Seq::<Seq<char>>::empty());
        }
        out
    }
}

/// The text of each of `v`'s strings.
pub open spec fn lines_of(v: Seq<String>) -> Seq<Seq<char>> {
    v.map_values(|l: String| l@)
}

/// What one resumption does: the state it leaves behind, its outcome, the
/// lines it emits and the number of wakes it makes.
pub struct Step<T> {
    pub state: T,
    pub poll: Poll,
    pub lines: Seq<Seq<char>>,
    pub wakes: nat,
}

/// A resumable computation.
///
/// `step(room)` says what a resumption does when `room` places of the ready
/// queue are reserved for its wakes. `budget` bounds how many more times it
/// can pause: every step that ends in `Pending` lowers it. A computation
/// that `keeps_awake` wakes itself at least once in every step that ends in
/// `Pending`, given room.
pub trait Computation: Sized {
    spec fn step(&self, room: nat) -> Step<Self>;

    spec fn budget(&self) -> nat;

    spec fn keeps_awake(&self) -> bool;

    /// The laws every step obeys.
    proof fn lemma_step(&self, room: nat)
        ensures
            self.step(room).poll == Poll::Pending ==> self.step(room).state.budget() < self.budget(),
            self.step(room).wakes <= room,
            self.keeps_awake() && self.step(room).poll == Poll::Pending ==> self.step(
                room,
            ).state.keeps_awake(),
            room > 0 && self.step(room).state.keeps_awake() && self.step(room).poll
                == Poll::Pending ==> self.step(room).wakes > 0,
    ;

    /// Runs one step.
    fn resume(&mut self, cx: &mut Context) -> (r: Poll)
        requires
            old(cx).wf(),
            old(cx).wake_count() == 0,
            old(cx).room_spec() > 0,
            old(cx).emitted() == Seq::<Seq<char>>::empty(),
        ensures
            final(cx).wf(),
            final(cx).id() == old(cx).id(),
            final(cx).room_spec() == old(cx).room_spec(),
            *final(self) == old(self).step(old(cx).room_spec()).state,
            r == old(self).step(old(cx).room_spec()).poll,
            final(cx).emitted() == old(self).step(old(cx).room_spec()).lines,
            final(cx).wake_count() == old(self).step(old(cx).room_spec()).wakes,
    ;
}

} // verus!
