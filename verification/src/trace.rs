//! The data model: bios, syscalls, and derived syscall statistics.

use vstd::prelude::*;

verus! {

/// One block I/O operation: a read, write or flush against a device,
/// with its offset and size in sectors and its timing in nanoseconds.
///
/// `end` is `None` when the operation never observed a completion; such a
/// bio is treated as a zero-duration marker at its own `start` wherever a
/// duration or a width is needed.
#[derive(Debug, Clone, Copy, PartialEq, Eq)]
pub struct Bio {
    pub offset: u64,
    pub size: u64,
    pub is_metadata: bool,
    pub is_flush: bool,
    pub is_write: bool,
    pub start: i64,
    pub end: Option<i64>,
    pub stack_trace: usize,
}

impl Bio {
    /// The completion time, or the start time for a bio that never
    /// completed: the "end-or-start" of every duration computation.
    pub open spec fn eos(self) -> int {
        match self.end {
            Some(e) => e as int,
            None => self.start as int,
        }
    }

    /// The effective duration: zero for a bio without a completion.
    pub open spec fn duration(self) -> int {
        self.eos() - self.start
    }
}

/// Which system call issued the I/O.
#[derive(Debug, Clone, Copy, PartialEq, Eq)]
pub enum SyscallKind {
    Fsync,
    Write(Write),
}

/// The arguments of a write system call.
#[derive(Debug, Clone, Copy, PartialEq, Eq)]
pub struct Write {
    pub offset: u64,
    pub bytes: u64,
}

/// One system call, with its lazily computed, memoized statistics.
#[derive(Debug, Clone, Copy, PartialEq, Eq)]
pub struct Syscall {
    pub kind: SyscallKind,
    pub start: i64,
    pub end: Option<i64>,
    pub tid: u64,
    pub stats: Option<SyscallStats>,
}

impl Syscall {
    /// The completion time, or the start time when absent.
    pub open spec fn eos(self) -> int {
        match self.end {
            Some(e) => e as int,
            None => self.start as int,
        }
    }

    /// The effective duration: zero for a syscall without a completion.
    pub open spec fn duration(self) -> int {
        self.eos() - self.start
    }
}

/// An exact rational number, kept as a numerator and a denominator.
///
/// Times and screen coordinates are integers throughout the engine, so the
/// only non-integer quantity it derives, the fraction of a syscall's
/// wall-clock span covered by I/O, is reported exactly instead of rounded.
/// A denominator of zero records a fraction over a zero-length span, which
/// has no defined value.
#[derive(Debug, Clone, Copy, PartialEq, Eq)]
pub struct Frac {
    pub num: i128,
    pub den: i128,
}

/// Statistics derived once per syscall from the bios fully nested in its
/// time span: total sectors written, number of flushes, and the fraction
/// of the syscall's span during which at least one nested bio was in
/// flight.
#[derive(Debug, Clone, Copy, PartialEq, Eq)]
pub struct SyscallStats {
    pub write_sectors: u64,
    pub flushes: u64,
    pub frac_io_time: Frac,
}

} // verus!
