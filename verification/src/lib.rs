//! A collaborative plain-text synchronization engine.
//!
//! Multiple sessions (independent cursor/selection views) observe and mutate a
//! shared text document that is concurrently edited by a remote peer. The
//! engine is built on an operational-transform algebra over edit scripts
//! (deltas) with compose, transform and invert, a bounded outstanding-delta
//! queue towards the peer, and undo/redo stacks that stay valid under
//! interleaved remote edits.

pub mod size;
pub mod position;
pub mod text;
pub mod delta;
pub mod laws;
pub mod algebra;
pub mod position_set;
pub mod range_set;
pub mod cursor_set;
pub mod generational;
pub mod protocol;
pub mod editor;
pub mod radio_group;
pub mod timer;
pub mod live_reload;
