//! The delivery cell between a collector and its consumer.
//!
//! Of the two acceptable delivery policies — an unbounded ordered backlog,
//! or a single slot holding only the latest value — this library takes the
//! single-slot one, deliberately: a send overwrites whatever an earlier tick
//! left unread, so a slow consumer may miss intermediate snapshots but never
//! builds a backlog. Each snapshot wholly replaces the previous one.
use vstd::prelude::*;

verus! {

/// A single-slot, latest-value mailbox with overwrite-on-send semantics.
pub struct Mailbox<T> {
    slot: Option<T>,
}

impl<T> Mailbox<T> {
    /// What the mailbox holds: the latest unread value, if any.
    pub closed spec fn contents(self) -> Option<T> {
        self.slot
    }

    /// A fresh mailbox holds nothing.
    pub fn empty() -> (r: Mailbox<T>)
        ensures
            r.contents() is None,
    {
        Mailbox { slot: None }
    }

    /// Publishes a value, overwriting any unread one.
    pub fn send(&mut self, v: T)
        ensures
            final(self).contents() == Some(v),
    {
        self.slot = Some(v);
    }

    /// Takes the latest value, leaving the mailbox empty; nothing when no
    /// send happened since the last take.
    pub fn take(&mut self) -> (r: Option<T>)
        ensures
            r == old(self).contents(),
            final(self).contents() is None,
    {
        self.slot.take()
    }

    /// Whether an unread value is waiting.
    pub fn is_ready(&self) -> (r: bool)
        ensures
            r == (self.contents() is Some),
    {
        self.slot.is_some()
    }
}

} // verus!
