//! The records of the log.

use vstd::prelude::*;

verus! {

/// One record of the log: the unit that is appended, read and compacted.
#[derive(Debug, Clone, PartialEq, Eq)]
pub enum Command {
    /// Binds the key `k` to the value `v`.
    Put { k: String, v: String },
    /// Marks the key `k` as removed.
    Remove { k: String },
}

/// What a record says, with its strings as sequences of characters.
pub enum CommandView {
    Put { k: Seq<char>, v: Seq<char> },
    Remove { k: Seq<char> },
}

impl CommandView {
    /// The key that the record mentions.
    pub open spec fn key(self) -> Seq<char> {
        match self {
            CommandView::Put { k, .. } => k,
            CommandView::Remove { k } => k,
        }
    }

    /// The value that the record binds, if it binds one.
    pub open spec fn value(self) -> Option<Seq<char>> {
        match self {
            CommandView::Put { v, .. } => Some(v),
            CommandView::Remove { .. } => None,
        }
    }
}

impl View for Command {
    type V = CommandView;

    open spec fn view(&self) -> CommandView {
        match self {
            Command::Put { k, v } => CommandView::Put { k: k@, v: v@ },
            Command::Remove { k } => CommandView::Remove { k: k@ },
        }
    }
}

impl Command {
    /// The key that the record mentions.
    pub fn key(&self) -> (key: String)
        ensures
            key@ == self@.key(),
    {
        match self {
            Command::Put { k, .. } => k.clone(),
            Command::Remove { k } => k.clone(),
        }
    }

    /// The value that the record binds: `None` for a removal.
    pub fn value(&self) -> (value: Option<String>)
        ensures
            value.is_some() == self@.value().is_some(),
            value matches Some(v) ==> self@.value() == Some(v@),
    {
        match self {
            Command::Put { v, .. } => Some(v.clone()),
            Command::Remove { .. } => None,
        }
    }
}

} // verus!
