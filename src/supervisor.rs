//! The cell that owns the running worker, and the decisions made on it: which
//! worker is current, and what a command turns into on the worker's input.

use vstd::prelude::*;
use vstd::string::StringExecFns;

use crate::envelope::{lemma_command_single_line, Command};

verus! {

/// Owns at most one worker handle `H` at a time. A worker that has exited
/// stays in place until it is replaced or shut down: nothing respawns it.
pub struct Supervisor<H> {
    pub worker: Option<H>,
}

impl<H> Supervisor<H> {
    /// What is written to the worker's input for `message`: the message and
    /// one newline where a worker is held, and nothing where none is.
    pub open spec fn line_for(&self, message: Seq<char>) -> Option<Seq<char>> {
        if self.worker is Some {
            Some(message.push('\n'))
        } else {
            None
        }
    }

    /// A supervisor that holds no worker yet.
    pub fn new() -> (r: Supervisor<H>)
        ensures
            r.worker is None,
    {
        Supervisor { worker: None }
    }

    /// Whether a worker is held.
    pub fn is_running(&self) -> (r: bool)
        ensures
            r == self.worker is Some,
    {
        self.worker.is_some()
    }

    /// Keeps a newly spawned worker, handing back the one that it replaces so
    /// that the caller can terminate it. From then on every command goes to
    /// the new worker.
    pub fn install(&mut self, worker: H) -> (prior: Option<H>)
        ensures
            final(self).worker == Some(worker),
            prior == old(self).worker,
            forall|m: Seq<char>| #[trigger] final(self).line_for(m) == Some(m.push('\n')),
    {
        let mut slot = Some(worker);
        std::mem::swap(&mut slot, &mut self.worker);
        slot
    }

    /// Lets go of the worker, handing it back for termination. Calling it
    /// again, or with no worker held, hands back nothing and changes nothing.
    pub fn shutdown(&mut self) -> (stopped: Option<H>)
        ensures
            final(self).worker is None,
            stopped == old(self).worker,
    {
        let mut slot: Option<H> = None;
        std::mem::swap(&mut slot, &mut self.worker);
        slot
    }

    /// The line to write to the worker's input for `message`, or `None` where
    /// no worker is held: then the command is dropped, which is no failure.
    pub fn outbound(&self, message: &str) -> (r: Option<String>)
        ensures
            r is Some <==> self.line_for(message@) is Some,
            r is Some ==> Some(r->Some_0@) == self.line_for(message@),
    {
        if self.worker.is_some() {
            let line = String::from_str(message).concat("\n");
            proof {
                reveal_strlit("\n");
                assert(line@ =~= message@.push('\n'));
            }
            Some(line)
        } else {
            None
        }
    }
    /// The line to write to the worker's input for `command`, or `None` where
    /// no worker is held.
    pub fn command_line(&self, command: &Command) -> (r: Option<String>)
        ensures
            r is Some <==> self.worker is Some,
            r is Some ==> Some(r->Some_0@) == self.line_for(command.line()),
    {
        let text = command.encode();
        self.outbound(text.as_str())
    }
}

/// A command reaches a running worker's input as exactly one line: the text
/// written for it ends with a newline and holds no other.
pub proof fn lemma_command_written_as_one_line<H>(s: Supervisor<H>, c: Command)
    requires
        s.worker is Some,
    ensures
        s.line_for(c.line()) is Some,
        s.line_for(c.line())->Some_0.last() == '\n',
        !s.line_for(c.line())->Some_0.drop_last().contains('\n'),
{
    lemma_command_single_line(c);
    assert(c.line().push('\n').drop_last() =~= c.line());
}

} // verus!
