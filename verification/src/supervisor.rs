//! Process supervisor: the lifecycle of the one child process. Spawn
//! is idempotent-reject: a spawn while a child runs is refused, never a
//! restart. A child's exit is terminal for its handle; only a new spawn
//! leaves the exited state.

use vstd::prelude::*;

verus! {

/// The lifecycle states of the supervised child.
#[derive(Clone, Copy, Debug, PartialEq, Eq, Structural)]
pub enum SupervisorState {
    NotStarted,
    Running,
    Exited(i32),
    SpawnFailed,
}

/// Owns the child-process lifecycle state.
pub struct Supervisor {
    st: SupervisorState,
}

impl Supervisor {
    pub closed spec fn state(&self) -> SupervisorState {
        self.st
    }

    pub fn new() -> (r: Self)
        ensures
            r.state() == SupervisorState::NotStarted,
    {
        Supervisor { st: SupervisorState::NotStarted }
    }

    pub fn current(&self) -> (r: SupervisorState)
        ensures
            r == self.state(),
    {
        self.st
    }

    /// Whether a spawn may proceed: exactly when no child is running.
    /// A refused spawn changes nothing; the caller reports the
    /// already-running failure.
    pub fn may_spawn(&self) -> (r: bool)
        ensures
            r == !(self.state() is Running),
    {
        match self.st {
            SupervisorState::Running => false,
            _ => true,
        }
    }

    /// Records the outcome of a permitted launch attempt.
    pub fn on_spawn_result(&mut self, ok: bool)
        requires
            !(old(self).state() is Running),
        ensures
            final(self).state() == if ok {
                SupervisorState::Running
            } else {
                SupervisorState::SpawnFailed
            },
    {
        if ok {
            self.st = SupervisorState::Running;
        } else {
            self.st = SupervisorState::SpawnFailed;
        }
    }

    /// Records the child's exit: terminal for this handle, no
    /// automatic restart.
    pub fn on_child_exit(&mut self, code: i32)
        requires
            old(self).state() is Running,
        ensures
            final(self).state() == SupervisorState::Exited(code),
    {
        self.st = SupervisorState::Exited(code);
    }
}

} // verus!
