//! Messages between a window and the rest of the program. The window side
//! itself — event loop, surface, renderer — is display plumbing outside
//! this library; these are the plain values that cross the boundary.

use vstd::prelude::*;

verus! {

/// A message sent from a window to the rest of the program.
#[derive(Clone, Copy, Debug, PartialEq, Eq, Structural)]
pub enum WindowTxMessage {
    /// The window has been requested to quit.
    Quit,
}

} // verus!
