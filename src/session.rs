//! The order in which a terminal session is taken down: input first, then
//! the output relay, a pause, stray input, and the terminal mode last.
use vstd::prelude::*;

verus! {

/// How far a session has been taken down.
#[derive(Clone, Copy, Debug, PartialEq, Eq, Structural)]
pub enum Phase {
    Open,
    InputClosed,
    RelayJoined,
    Settled,
    InputDrained,
    Restored,
}

/// The next thing to do to take a session down.
#[derive(Clone, Copy, Debug, PartialEq, Eq, Structural)]
pub enum TeardownStep {
    /// Close the write side, so the child sees the end of its input.
    CloseInput,
    /// Wait until the relay of the child's output has ended.
    JoinRelay,
    /// Pause briefly for replies that the terminal still sends.
    Settle,
    /// Read and discard pending input without blocking.
    DrainInput,
    /// Put the terminal back into the mode it had before the session.
    RestoreMode,
    /// Nothing is left to do.
    Done,
}

/// The step that follows `p`, and the phase after it. Pending input is
/// drained only from a terminal (`tty`), and the mode restored only where
/// opening changed it (`raw`).
pub open spec fn teardown_next(p: Phase, raw: bool, tty: bool) -> (Phase, TeardownStep) {
    match p {
        Phase::Open => (Phase::InputClosed, TeardownStep::CloseInput),
        Phase::InputClosed => (Phase::RelayJoined, TeardownStep::JoinRelay),
        Phase::RelayJoined => (Phase::Settled, TeardownStep::Settle),
        Phase::Settled => if tty {
            (Phase::InputDrained, TeardownStep::DrainInput)
        } else if raw {
            (Phase::Restored, TeardownStep::RestoreMode)
        } else {
            (Phase::Restored, TeardownStep::Done)
        },
        Phase::InputDrained => if raw {
            (Phase::Restored, TeardownStep::RestoreMode)
        } else {
            (Phase::Restored, TeardownStep::Done)
        },
        Phase::Restored => (Phase::Restored, TeardownStep::Done),
    }
}

pub open spec fn phase_rank(p: Phase) -> nat {
    match p {
        Phase::Open => 5,
        Phase::InputClosed => 4,
        Phase::RelayJoined => 3,
        Phase::Settled => 2,
        Phase::InputDrained => 1,
        Phase::Restored => 0,
    }
}

/// The steps that teardown takes from phase `p` until it is done.
pub open spec fn teardown_from(p: Phase, raw: bool, tty: bool) -> Seq<TeardownStep>
    decreases phase_rank(p),
{
    let (q, step) = teardown_next(p, raw, tty);
    if step == TeardownStep::Done || phase_rank(q) >= phase_rank(p) {
        Seq::empty()
    } else {
        seq![step] + teardown_from(q, raw, tty)
    }
}

/// A session's phase, and whether opening it switched the terminal to raw mode.
pub struct SessionState {
    pub phase: Phase,
    pub raw_mode: bool,
}

impl SessionState {
    pub fn opened(raw_mode: bool) -> (r: Self)
        ensures
            r.phase == Phase::Open,
            r.raw_mode == raw_mode,
    {
        SessionState { phase: Phase::Open, raw_mode }
    }

    /// Whether bytes may still be written to the session.
    pub fn accepts_input(&self) -> (r: bool)
        ensures
            r == (self.phase == Phase::Open),
    {
        match self.phase {
            Phase::Open => true,
            _ => false,
        }
    }

    /// The next teardown step, given whether standard input is a terminal.
    /// Pending input is drained only from a terminal, and the mode restored
    /// only where opening changed it.
    pub fn teardown_step(&mut self, stdin_is_terminal: bool) -> (r: TeardownStep)
        ensures
            final(self).raw_mode == old(self).raw_mode,
            (final(self).phase, r) == teardown_next(
                old(self).phase,
                old(self).raw_mode,
                stdin_is_terminal,
            ),
    {
        let (next, step) = match self.phase {
            Phase::Open => (Phase::InputClosed, TeardownStep::CloseInput),
            Phase::InputClosed => (Phase::RelayJoined, TeardownStep::JoinRelay),
            Phase::RelayJoined => (Phase::Settled, TeardownStep::Settle),
            Phase::Settled => if stdin_is_terminal {
                (Phase::InputDrained, TeardownStep::DrainInput)
            } else if self.raw_mode {
                (Phase::Restored, TeardownStep::RestoreMode)
            } else {
                (Phase::Restored, TeardownStep::Done)
            },
            Phase::InputDrained => if self.raw_mode {
                (Phase::Restored, TeardownStep::RestoreMode)
            } else {
                (Phase::Restored, TeardownStep::Done)
            },
            Phase::Restored => (Phase::Restored, TeardownStep::Done),
        };
        self.phase = next;
        step
    }
}

/// Teardown of an open session closes its input first, then waits for the
/// relay, pauses, drains pending input only from a terminal, and restores the
/// terminal mode last, and only where opening changed it. No step after the
/// first lets the session take input again.
pub proof fn lemma_teardown_order(raw: bool, tty: bool)
    ensures
        teardown_from(Phase::Open, raw, tty) == seq![
            TeardownStep::CloseInput,
            TeardownStep::JoinRelay,
            TeardownStep::Settle,
        ] + (if tty {
            seq![TeardownStep::DrainInput]
        } else {
            Seq::empty()
        }) + (if raw {
            seq![TeardownStep::RestoreMode]
        } else {
            Seq::empty()
        }),
        forall|p: Phase| p != Phase::Open ==> #[trigger] teardown_next(p, raw, tty).0 != Phase::Open,
{
    let tail = teardown_from(Phase::Restored, raw, tty);
    assert(tail =~= Seq::<TeardownStep>::empty());
    let last = teardown_from(Phase::InputDrained, raw, tty);
    assert(last =~= if raw {
        seq![TeardownStep::RestoreMode]
    } else {
        Seq::<TeardownStep>::empty()
    });
    let settled = teardown_from(Phase::Settled, raw, tty);
    assert(settled =~= (if tty {
        seq![TeardownStep::DrainInput]
    } else {
        Seq::empty()
    }) + (if raw {
        seq![TeardownStep::RestoreMode]
    } else {
        Seq::empty()
    }));
    assert(teardown_from(Phase::RelayJoined, raw, tty) =~= seq![TeardownStep::Settle] + settled);
    assert(teardown_from(Phase::InputClosed, raw, tty) =~= seq![
        TeardownStep::JoinRelay,
        TeardownStep::Settle,
    ] + settled);
}

} // verus!
