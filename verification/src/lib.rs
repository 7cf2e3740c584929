//! A verified trace-timeline engine for block-device I/O traces.
//!
//! A trace holds block I/O operations ("bios") and the system calls that
//! issued them, each timestamped in nanoseconds.  The engine indexes the
//! events by time, navigates a shared time axis (pan and zoom), packs the
//! visible events into screen rectangles, and correlates a system call with
//! the bios nested inside it to derive I/O statistics.

pub mod trace;
pub mod viewport;
pub mod intervals;
pub mod index;
pub mod rangeset;
pub mod store;
pub mod stats;
pub mod layout;
pub mod coordinator;
pub mod symbols;
