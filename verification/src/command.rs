//! The unit of mutation: a write or a removal of one key.

use vstd::prelude::*;

verus! {

/// One mutation of the store. A removal is a tombstone: it carries no
/// value.
#[derive(Debug, PartialEq, Eq)]
pub enum CommandData {
    Put { key: Vec<u8>, value: Vec<u8> },
    Remove { key: Vec<u8> },
}

/// A command as a mathematical value.
pub enum CommandView {
    Put { key: Seq<u8>, value: Seq<u8> },
    Remove { key: Seq<u8> },
}

impl CommandView {
    /// The key that the command is about.
    pub open spec fn key(self) -> Seq<u8> {
        match self {
            CommandView::Put { key, .. } => key,
            CommandView::Remove { key } => key,
        }
    }

    /// What a reader finds for the key: the value written, or the empty
    /// value for a removal.
    pub open spec fn value(self) -> Seq<u8> {
        match self {
            CommandView::Put { value, .. } => value,
            CommandView::Remove { .. } => Seq::empty(),
        }
    }
}

impl View for CommandData {
    type V = CommandView;

    open spec fn view(&self) -> CommandView {
        match *self {
            CommandData::Put { key, value } => CommandView::Put { key: key@, value: value@ },
            CommandData::Remove { key } => CommandView::Remove { key: key@ },
        }
    }
}

impl DeepView for CommandData {
    type V = CommandView;

    open spec fn deep_view(&self) -> CommandView {
        self@
    }
}

impl Clone for CommandData {
    fn clone(&self) -> (r: Self)
        ensures
            r@ == self@,
    {
        match self {
            CommandData::Put { key, value } => CommandData::Put {
                key: key.clone(),
                value: value.clone(),
            },
            CommandData::Remove { key } => CommandData::Remove { key: key.clone() },
        }
    }
}

impl CommandData {
    /// The command that writes `value` under `key`.
    pub fn set(key: Vec<u8>, value: Vec<u8>) -> (r: CommandData)
        ensures
            r@ == (CommandView::Put { key: key@, value: value@ }),
    {
        CommandData::Put { key, value }
    }

    /// The command that removes `key`.
    pub fn remove(key: Vec<u8>) -> (r: CommandData)
        ensures
            r@ == (CommandView::Remove { key: key@ }),
    {
        CommandData::Remove { key }
    }

    /// The key that the command is about.
    pub fn get_key(&self) -> (r: &Vec<u8>)
        ensures
            r@ == self@.key(),
    {
        match self {
            CommandData::Put { key, .. } => key,
            CommandData::Remove { key } => key,
        }
    }

    /// A copy of the key.
    pub fn get_key_clone(&self) -> (r: Vec<u8>)
        ensures
            r@ == self@.key(),
    {
        self.get_key().clone()
    }

    /// The value that the command writes; a removal writes none.
    pub fn get_value(&self) -> (r: Option<&Vec<u8>>)
        ensures
            match r {
                Some(value) => self@ matches CommandView::Put { value: written, .. } && value@
                    == written,
                None => self@ is Remove,
            },
    {
        match self {
            CommandData::Put { value, .. } => Some(value),
            CommandData::Remove { .. } => None,
        }
    }

    /// A copy of the value that the command writes.
    pub fn get_value_clone(&self) -> (r: Option<Vec<u8>>)
        ensures
            match r {
                Some(value) => self@ matches CommandView::Put { value: written, .. } && value@
                    == written,
                None => self@ is Remove,
            },
    {
        match self.get_value() {
            Some(value) => Some(value.clone()),
            None => None,
        }
    }

    /// What a reader finds for the key: a copy of the value written, or the
    /// empty value for a removal.
    pub fn found_value(&self) -> (r: Vec<u8>)
        ensures
            r@ == self@.value(),
    {
        match self {
            CommandData::Put { value, .. } => value.clone(),
            CommandData::Remove { .. } => Vec::new(),
        }
    }
}

} // verus!
