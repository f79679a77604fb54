//! Window events the interface reacts to.

use vstd::prelude::*;

verus! {

/// An event reported by the windowing system.
#[derive(Clone, Copy, Debug, PartialEq, Eq, Structural)]
pub enum Event {
    LeftMouseDown,
    WindowClosed,
    WindowResized,
}

}
