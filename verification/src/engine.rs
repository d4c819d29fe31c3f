//! The engine's front: it hands out node identities, queues the commands
//! that build a document, and keeps the event loop from running twice.
//!
//! The engine does no work on the document itself. Whoever hosts it takes
//! the queued commands and carries them out, and runs the event loop
//! between `run` and `finish_run`.

use vstd::prelude::*;
use crate::Id;

verus! {

/// A change to the document, waiting to be carried out.
pub enum Command {
    AddStylesheet(String),
    CreateNode(Id, Option<String>),
    SetParent(Id, Id),
    SetAttribute(Id, String, String),
}

/// Why the event loop did not run, or how it failed.
#[derive(Debug)]
pub enum RunError {
    AlreadyRunning,
    UnknownError(String),
}

/// The front of a layout engine.
pub struct Engine {
    root_id: Id,
    next_id: u64,
    running: bool,
    pending: Vec<Command>,
}

impl Engine {
    /// The identity of the root node.
    pub closed spec fn root(&self) -> Id {
        self.root_id
    }

    /// The number that the next new node gets.
    pub closed spec fn next(&self) -> u64 {
        self.next_id
    }

    /// Whether the event loop is running.
    pub closed spec fn is_running(&self) -> bool {
        self.running
    }

    /// The commands queued and not yet taken, oldest first.
    pub closed spec fn queued(&self) -> Seq<Command> {
        self.pending@
    }

    /// An engine whose root is `Id` 0, whose first new node will be `Id` 1,
    /// with no command queued and no event loop running.
    pub fn new() -> (engine: Engine)
        ensures
            engine.root() == Id(0),
            engine.next() == 1,
            !engine.is_running(),
            engine.queued().len() == 0,
    {
        Engine { root_id: Id::from_u64(0), next_id: 1, running: false, pending: Vec::new() }
    }

    /// Claims the event loop. Fails with `AlreadyRunning` if it is claimed
    /// already; otherwise the caller runs the loop and reports its end to
    /// `finish_run`.
    pub fn run(&mut self) -> (claimed: Result<(), RunError>)
        ensures
            claimed is Ok <==> !old(self).is_running(),
            claimed is Err ==> claimed->Err_0 is AlreadyRunning,
            final(self).is_running(),
            final(self).root() == old(self).root(),
            final(self).next() == old(self).next(),
            final(self).queued() == old(self).queued(),
    {
        if self.running {
            return Err(RunError::AlreadyRunning);
        }
        self.running = true;
        Ok(())
    }

    /// Releases the event loop and turns the way it ended into the result
    /// of the run: a failure becomes `UnknownError` with its message.
    pub fn finish_run(&mut self, outcome: Result<(), String>) -> (result: Result<(), RunError>)
        ensures
            !final(self).is_running(),
            final(self).root() == old(self).root(),
            final(self).next() == old(self).next(),
            final(self).queued() == old(self).queued(),
            outcome is Ok <==> result is Ok,
            outcome is Err ==> result->Err_0 == RunError::UnknownError(outcome->Err_0),
    {
        self.running = false;
        match outcome {
            Ok(()) => Ok(()),
            Err(message) => Err(RunError::UnknownError(message)),
        }
    }

    /// Queues a style sheet to be added to the document.
    pub fn add_stylesheet(&mut self, css_content: &str)
        ensures
            final(self).queued().len() == old(self).queued().len() + 1,
            final(self).queued().drop_last() == old(self).queued(),
            final(self).queued().last() matches Command::AddStylesheet(css) && css@
                == css_content@,
            final(self).root() == old(self).root(),
            final(self).next() == old(self).next(),
            final(self).is_running() == old(self).is_running(),
    {
        self.pending.push(Command::AddStylesheet(css_content.to_owned()));
        assert(self.pending@.drop_last() =~= old(self).pending@);
    }

    /// Hands out the next node identity and queues the creation of a node
    /// with it. Identities count up from 1 and start over at 0 after the
    /// largest.
    pub fn create_node(&mut self, text: Option<String>) -> (id: Id)
        ensures
            id == Id(old(self).next()),
            final(self).next() == (if old(self).next() == u64::MAX {
                0
            } else {
                old(self).next() + 1
            }),
            final(self).queued().len() == old(self).queued().len() + 1,
            final(self).queued().drop_last() == old(self).queued(),
            final(self).queued().last() == Command::CreateNode(id, text),
            final(self).root() == old(self).root(),
            final(self).is_running() == old(self).is_running(),
    {
        let id = Id::from_u64(self.next_id);
        self.next_id = if self.next_id == u64::MAX {
            0
        } else {
            self.next_id + 1
        };
        self.pending.push(Command::CreateNode(id, text));
        assert(self.pending@.drop_last() =~= old(self).pending@);
        id
    }

    /// Queues making one node the last child of another.
    pub fn set_parent(&mut self, parent_id: Id, child_id: Id)
        ensures
            final(self).queued().len() == old(self).queued().len() + 1,
            final(self).queued().drop_last() == old(self).queued(),
            final(self).queued().last() == Command::SetParent(parent_id, child_id),
            final(self).root() == old(self).root(),
            final(self).next() == old(self).next(),
            final(self).is_running() == old(self).is_running(),
    {
        self.pending.push(Command::SetParent(parent_id, child_id));
        assert(self.pending@.drop_last() =~= old(self).pending@);
    }

    /// Queues setting an attribute of a node.
    pub fn set_attribute(&mut self, node_id: Id, key: String, value: String)
        ensures
            final(self).queued().len() == old(self).queued().len() + 1,
            final(self).queued().drop_last() == old(self).queued(),
            final(self).queued().last() == Command::SetAttribute(node_id, key, value),
            final(self).root() == old(self).root(),
            final(self).next() == old(self).next(),
            final(self).is_running() == old(self).is_running(),
    {
        self.pending.push(Command::SetAttribute(node_id, key, value));
        assert(self.pending@.drop_last() =~= old(self).pending@);
    }

    /// The identity of the root node.
    pub fn root_id(&self) -> (id: Id)
        ensures
            id == self.root(),
    {
        self.root_id
    }

    /// Takes the queued commands, oldest first, and leaves the queue empty.
    pub fn take_commands(&mut self) -> (commands: Vec<Command>)
        ensures
            commands@ == old(self).queued(),
            final(self).queued().len() == 0,
            final(self).root() == old(self).root(),
            final(self).next() == old(self).next(),
            final(self).is_running() == old(self).is_running(),
    {
        let mut taken: Vec<Command> = Vec::new();
        std::mem::swap(&mut taken, &mut self.pending);
        taken
    }
}

} // verus!
