//! Capabilities and the signals delivered to process entries.
//!
//! A capability is an owning reference into the process store: a handle
//! paired with permission bits. Signals are kills, unlinks, and messages;
//! an unlink and every capability carried by a message each own one
//! reference count on their handle, so a signal can be freed at any point
//! without leaking references.

use vstd::prelude::*;

use crate::types::Flags;

verus! {

/// An owning reference to a process entry: a handle plus permission bits.
///
/// Cloning a capability increments the reference count of its target and
/// freeing it decrements it; both go through the store that owns the handle.
#[derive(Debug, PartialEq, Eq, Structural, Clone, Copy)]
pub struct Capability {
    /// The handle this capability refers to.
    pub handle: usize,
    /// The permission bits of this capability.
    pub flags: Flags,
}

impl Capability {
    /// Wraps a handle and permission bits; the caller must already own one
    /// reference count on the handle, which this capability takes over.
    pub fn new(handle: usize, flags: Flags) -> (r: Capability)
        ensures
            r.handle == handle,
            r.flags == flags,
    {
        Capability { handle, flags }
    }

    /// The handle this capability refers to.
    pub fn get_handle(&self) -> (r: usize)
        ensures
            r == self.handle,
    {
        self.handle
    }

    /// The permission bits of this capability.
    pub fn get_flags(&self) -> (r: Flags)
        ensures
            r == self.flags,
    {
        self.flags
    }

}

/// The mathematical value of a message: its payload and carried capabilities.
pub ghost struct MessageM {
    pub data: Seq<u8>,
    pub caps: Seq<Capability>,
}

/// The mathematical value of a signal.
pub ghost enum SignalM {
    Kill,
    Unlink { subject: usize },
    Message(MessageM),
}

/// A message signal: a data payload plus transferred capabilities.
///
/// Each carried capability owns one reference count on its target; whoever
/// consumes the message must free or keep each one.
#[derive(Debug, PartialEq, Eq)]
pub struct Message {
    /// The data payload of this message.
    pub data: Vec<u8>,
    /// The capabilities transferred with this message.
    pub caps: Vec<Capability>,
}

impl View for Message {
    type V = MessageM;

    open spec fn view(&self) -> MessageM {
        MessageM { data: self.data@, caps: self.caps@ }
    }
}

/// A signal sent to a process entry. All handles are scoped within one
/// process store.
#[derive(Debug, PartialEq, Eq)]
pub enum Signal {
    /// Request to kill this process.
    Kill,
    /// Delivered when a linked process has died.
    Unlink { subject: usize },
    /// A message with a payload and transferred capabilities.
    Message(Message),
}

impl View for Signal {
    type V = SignalM;

    open spec fn view(&self) -> SignalM {
        match self {
            Signal::Kill => SignalM::Kill,
            Signal::Unlink { subject } => SignalM::Unlink { subject: *subject },
            Signal::Message(m) => SignalM::Message(m@),
        }
    }
}

impl DeepView for Signal {
    type V = SignalM;

    open spec fn deep_view(&self) -> SignalM {
        self@
    }
}

/// The handles on which a signal owns one reference count each, in order.
pub open spec fn sig_handles(sig: SignalM) -> Seq<usize> {
    match sig {
        SignalM::Kill => Seq::empty(),
        SignalM::Unlink { subject } => seq![subject],
        SignalM::Message(m) => m.caps.map_values(|c: Capability| c.handle),
    }
}

} // verus!
