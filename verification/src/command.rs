//! The mutations that the log records.

use vstd::prelude::*;

verus! {

/// One durable mutation of the store.
#[derive(Debug, PartialEq, Eq)]
pub enum Command {
    /// Bind `key` to `value`, replacing any earlier binding.
    Put { key: String, value: String },
    /// Drop the binding of `key`, if there is one.
    Remove { key: String },
}

/// A command as a mathematical value: its strings as sequences of characters.
pub enum CommandView {
    Put { key: Seq<char>, value: Seq<char> },
    Remove { key: Seq<char> },
}

impl View for Command {
    type V = CommandView;

    open spec fn view(&self) -> CommandView {
        match self {
            Command::Put { key, value } => CommandView::Put { key: key@, value: value@ },
            Command::Remove { key } => CommandView::Remove { key: key@ },
        }
    }
}

} // verus!
