//! A three-state demo computation: it greets, says farewell, then finishes,
//! waking itself after each of the first two steps.

use crate::task::{Computation, Context, Poll, Step};
use vstd::prelude::*;

verus! {

/// Where a [`Hello`] stands.
#[derive(Debug, Clone, Copy, PartialEq, Eq, Structural)]
pub enum StateHello {
    Hello,
    World,
    End,
}

/// The demo computation.
pub struct Hello {
    pub state: StateHello,
}

/// How many more times a demo in `s` will pause.
pub open spec fn pauses_left(s: StateHello) -> nat {
    match s {
        StateHello::Hello => 2,
        StateHello::World => 1,
        StateHello::End => 0,
    }
}

impl Hello {
    /// A fresh demo, about to greet.
    pub fn new() -> (h: Hello)
        ensures
            h.state == StateHello::Hello,
    {
        Hello { state: StateHello::Hello }
    }

    /// One step: in `Hello` emit "hello", in `World` emit "world"; each
    /// moves to the next state, wakes the task and pauses. In `End` it
    /// finishes and does nothing else.
    pub fn poll(&mut self, cx: &mut Context) -> (r: Poll)
        requires
            old(cx).wf(),
            old(self).state != StateHello::End ==> old(cx).wake_count() < old(cx).room_spec(),
        ensures
            final(cx).wf(),
            final(cx).id() == old(cx).id(),
            final(cx).room_spec() == old(cx).room_spec(),
            old(self).state == StateHello::Hello ==> {
                &&& r == Poll::Pending
                &&& final(self).state == StateHello::World
                &&& final(cx).emitted() == old(cx).emitted().push("hello"@)
                &&& final(cx).wake_count() == old(cx).wake_count() + 1
            },
            old(self).state == StateHello::World ==> {
                &&& r == Poll::Pending
                &&& final(self).state == StateHello::End
                &&& final(cx).emitted() == old(cx).emitted().push("world"@)
                &&& final(cx).wake_count() == old(cx).wake_count() + 1
            },
            old(self).state == StateHello::End ==> {
                &&& r == Poll::Ready
                &&& final(self).state == StateHello::End
                &&& final(cx).emitted() == old(cx).emitted()
                &&& final(cx).wake_count() == old(cx).wake_count()
            },
    {
        match self.state {
            StateHello::Hello => {
                cx.emit("hello");
                self.state = StateHello::World;
                let _ = cx.wake();
                Poll::Pending
            },
            StateHello::World => {
                cx.emit("world");
                self.state = StateHello::End;
                let _ = cx.wake();
                Poll::Pending
            },
            StateHello::End => Poll::Ready,
        }
    }
}

impl Computation for Hello {
    /// Greet or say farewell, move on, wake once and pause; at the end,
    /// finish.
    open spec fn step(&self, room: nat) -> Step<Hello> {
        let wakes: nat = if room > 0 { 1 } else { 0 };
        match self.state {
            StateHello::Hello => Step {
                state: Hello { state: StateHello::World },
                poll: Poll::Pending,
                lines: seq!["hello"@],
                wakes,
            },
            StateHello::World => Step {
                state: Hello { state: StateHello::End },
                poll: Poll::Pending,
                lines: seq!["world"@],
                wakes,
            },
            StateHello::End => Step {
                state: Hello { state: StateHello::End },
                poll: Poll::Ready,
                lines: Seq::<Seq<char>>::empty(),
                wakes: 0,
            },
        }
    }

    open spec fn budget(&self) -> nat {
        pauses_left(self.state)
    }

    open spec fn keeps_awake(&self) -> bool {
        true
    }

    proof fn lemma_step(&self, room: nat) {
    }

    fn resume(&mut self, cx: &mut Context) -> (r: Poll) {
        let r = self.poll(cx);
        proof {
            assert(old(cx).emitted().push("hello"@) =~= seq!["hello"@]);
            assert(old(cx).emitted().push("world"@) =~= seq!["world"@]);
        }
        r
    }
}

} // verus!
