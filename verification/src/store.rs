//! The event store: one trace's bios and syscalls, its two time-sorted
//! indices, and the cache of the events currently on screen.

use vstd::prelude::*;

verus! {

use crate::trace::{Bio, Syscall};
use crate::viewport::ScreenRect;
use crate::index::{EventIndex, index_sorted, index_has, index_insert, index_range};

/// A bio's completion time is never before its start; a bio without a
/// completion has a zero-length span.
pub open spec fn bio_wf(b: Bio) -> bool {
    b.start <= b.eos()
}

/// Likewise for a syscall.
pub open spec fn syscall_wf(s: Syscall) -> bool {
    s.start <= s.eos()
}

/// Two syscalls that differ at most in their memoized stats.
pub open spec fn syscall_core_eq(a: Syscall, b: Syscall) -> bool {
    a.kind == b.kind && a.start == b.start && a.end == b.end && a.tid == b.tid
}

/// The total size of the first `k` bios.
pub open spec fn sum_sizes_upto(bios: Seq<Bio>, k: int) -> int
    decreases k,
{
    if k <= 0 {
        0
    } else {
        sum_sizes_upto(bios, k - 1) + bios[k - 1].size
    }
}

/// The total size of all bios of a list.
pub open spec fn sum_sizes(bios: Seq<Bio>) -> int {
    sum_sizes_upto(bios, bios.len() as int)
}

/// Prefix sums of sizes grow with the prefix.
pub proof fn lemma_sum_sizes_upto_mono(bios: Seq<Bio>, j: int, k: int)
    requires
        0 <= j <= k <= bios.len(),
    ensures
        0 <= sum_sizes_upto(bios, j) <= sum_sizes_upto(bios, k),
    decreases k,
{
    if j < k {
        lemma_sum_sizes_upto_mono(bios, j, k - 1);
    } else if k > 0 {
        lemma_sum_sizes_upto_mono(bios, 0, k - 1);
    }
}

/// The inputs a trace accepts: at least one syscall (the first seeds the
/// time origin), completions not before starts, stack-trace references
/// inside the symbol table, and a total bio size a machine word can sum.
pub open spec fn events_wf(bios: Seq<Bio>, syscalls: Seq<Syscall>, n_stacks: int) -> bool {
    &&& syscalls.len() >= 1
    &&& forall|i: int| 0 <= i < bios.len() ==> bio_wf(#[trigger] bios[i])
    &&& forall|i: int| 0 <= i < bios.len() ==> (#[trigger] bios[i]).stack_trace < n_stacks
    &&& forall|i: int| 0 <= i < syscalls.len() ==> syscall_wf(#[trigger] syscalls[i])
    &&& sum_sizes(bios) <= u64::MAX
    &&& bios.len() + syscalls.len() <= usize::MAX
}

/// Whether a handle points into the given lists.
pub open spec fn valid_handle(h: EventIndex, nb: int, ns: int) -> bool {
    match h {
        EventIndex::Bio(i) => (i as int) < nb,
        EventIndex::Syscall(i) => (i as int) < ns,
    }
}

/// The key an event carries in the start-keyed (`use_end == false`) or
/// end-keyed (`use_end == true`) index.
pub open spec fn event_key(
    h: EventIndex,
    bios: Seq<Bio>,
    syscalls: Seq<Syscall>,
    use_end: bool,
) -> int {
    match h {
        EventIndex::Bio(i) => if use_end {
            bios[i as int].eos()
        } else {
            bios[i as int].start as int
        },
        EventIndex::Syscall(i) => if use_end {
            syscalls[i as int].eos()
        } else {
            syscalls[i as int].start as int
        },
    }
}

/// A total index: one sorted entry per event, keyed by that event's
/// start (or end-or-start) time, and nothing else.
pub open spec fn index_complete(
    s: Seq<(i64, EventIndex)>,
    bios: Seq<Bio>,
    syscalls: Seq<Syscall>,
    use_end: bool,
) -> bool {
    &&& s.len() == bios.len() + syscalls.len()
    &&& index_sorted(s)
    &&& forall|x: (i64, EventIndex)| #[trigger]
        s.contains(x) ==> valid_handle(x.1, bios.len() as int, syscalls.len() as int) && (
        x.0 as int) == event_key(x.1, bios, syscalls, use_end)
    &&& forall|h: EventIndex|
        valid_handle(h, bios.len() as int, syscalls.len() as int) ==> #[trigger] index_has(s, h)
}

/// An on-screen bio entry refers to a bio of the list and carries an
/// unchanged copy of it.
pub open spec fn bio_entry_ok(entry: (usize, OnScreenBio), bios: Seq<Bio>) -> bool {
    (entry.0 as int) < bios.len() && entry.1.bio == bios[entry.0 as int]
}

/// An on-screen syscall entry refers to a syscall of the list and copies
/// it, apart from the memoized stats.
pub open spec fn sys_entry_ok(entry: (usize, OnScreenSyscall), syscalls: Seq<Syscall>) -> bool {
    (entry.0 as int) < syscalls.len() && syscall_core_eq(entry.1.syscall, syscalls[entry.0 as int])
}

/// A bio currently on screen: a copy of the bio and its rectangle as of
/// the last layout pass.
#[derive(Debug, Clone, Copy, PartialEq, Eq)]
pub struct OnScreenBio {
    pub bio: Bio,
    pub rect: ScreenRect,
}

/// A syscall currently on screen.
#[derive(Debug, Clone, Copy, PartialEq, Eq)]
pub struct OnScreenSyscall {
    pub syscall: Syscall,
    pub rect: ScreenRect,
}

/// The total size of the bios of an on-screen list.
pub open spec fn sum_entry_sizes(entries: Seq<(usize, OnScreenBio)>) -> int
    decreases entries.len(),
{
    if entries.len() == 0 {
        0
    } else {
        sum_entry_sizes(entries.drop_last()) + entries.last().1.bio.size
    }
}

/// Inserting an entry anywhere adds exactly its size to the total.
pub proof fn lemma_sum_entry_insert(s: Seq<(usize, OnScreenBio)>, pos: int, e: (usize, OnScreenBio))
    requires
        0 <= pos <= s.len(),
    ensures
        sum_entry_sizes(s.insert(pos, e)) == sum_entry_sizes(s) + e.1.bio.size,
    decreases s.len(),
{
    s.insert_ensures(pos, e);
    if pos == s.len() {
        assert(s.insert(pos, e) =~= s.push(e));
        assert(s.push(e).drop_last() =~= s);
    } else {
        let s2 = s.drop_last();
        lemma_sum_entry_insert(s2, pos, e);
        s2.insert_ensures(pos, e);
        assert(s.insert(pos, e).drop_last() =~= s2.insert(pos, e));
        assert(s.insert(pos, e).last() == s.last());
    }
}

/// An on-screen list whose handles ascend strictly and agree with the bio
/// list holds at most the total size of the bio list.
pub proof fn lemma_sum_entries_bounded(entries: Seq<(usize, OnScreenBio)>, bios: Seq<Bio>)
    requires
        forall|k: int| 0 <= k < entries.len() ==> bio_entry_ok(#[trigger] entries[k], bios),
        forall|k1: int, k2: int|
            0 <= k1 < k2 < entries.len() ==> (#[trigger] entries[k1]).0 < (#[trigger] entries[k2]).0,
    ensures
        0 <= sum_entry_sizes(entries) <= sum_sizes(bios),
    decreases entries.len(),
{
    if entries.len() == 0 {
        lemma_sum_sizes_upto_mono(bios, 0, bios.len() as int);
    } else {
        let e = entries.last();
        let h = e.0 as int;
        let rest = entries.drop_last();
        lemma_sum_entries_bounded_upto(entries, bios);
        lemma_sum_sizes_upto_mono(bios, h + 1, bios.len() as int);
    }
}

/// Helper: the sum is bounded by the prefix of the bio list up to the
/// last handle.
proof fn lemma_sum_entries_bounded_upto(entries: Seq<(usize, OnScreenBio)>, bios: Seq<Bio>)
    requires
        entries.len() > 0,
        forall|k: int| 0 <= k < entries.len() ==> bio_entry_ok(#[trigger] entries[k], bios),
        forall|k1: int, k2: int|
            0 <= k1 < k2 < entries.len() ==> (#[trigger] entries[k1]).0 < (#[trigger] entries[k2]).0,
    ensures
        0 <= sum_entry_sizes(entries) <= sum_sizes_upto(bios, entries.last().0 as int + 1),
    decreases entries.len(),
{
    let e = entries.last();
    let h = e.0 as int;
    let rest = entries.drop_last();
    assert(bio_entry_ok(entries[entries.len() - 1], bios));
    assert(e.1.bio == bios[h]);
    assert(sum_sizes_upto(bios, h + 1) == sum_sizes_upto(bios, h) + bios[h].size);
    assert(sum_entry_sizes(entries) == sum_entry_sizes(rest) + e.1.bio.size);
    if rest.len() == 0 {
        lemma_sum_sizes_upto_mono(bios, 0, h);
    } else {
        assert forall|k: int| 0 <= k < rest.len() implies bio_entry_ok(
            #[trigger] rest[k],
            bios,
        ) by {
            assert(rest[k] == entries[k]);
            assert(bio_entry_ok(entries[k], bios));
        }
        assert forall|k1: int, k2: int| 0 <= k1 < k2 < rest.len() implies (#[trigger] rest[k1]).0
            < (#[trigger] rest[k2]).0 by {
            assert(rest[k1] == entries[k1]);
            assert(rest[k2] == entries[k2]);
        }
        lemma_sum_entries_bounded_upto(rest, bios);
        let h2 = rest.last().0 as int;
        assert(rest[rest.len() - 1] == entries[entries.len() - 2]);
        assert(entries[entries.len() - 2].0 < entries[entries.len() - 1].0);
        lemma_sum_sizes_upto_mono(bios, h2 + 1, h);
    }
}

/// A bio intersects the window when its start or its end-or-start falls
/// inside `[ws, we]`, as the two-index range query sees it.
pub open spec fn bio_in_window(b: Bio, ws: int, we: int) -> bool {
    ws <= b.start <= we || ws <= b.eos() <= we
}

/// Likewise for a syscall.
pub open spec fn sys_in_window(sy: Syscall, ws: int, we: int) -> bool {
    ws <= sy.start <= we || ws <= sy.eos() <= we
}

/// Some on-screen bio entry carries handle `i`.
pub open spec fn has_bio_entry(entries: Seq<(usize, OnScreenBio)>, i: int) -> bool {
    exists|k: int| 0 <= k < entries.len() && ((#[trigger] entries[k]).0 as int) == i
}

/// Some on-screen syscall entry carries handle `i`.
pub open spec fn has_sys_entry(entries: Seq<(usize, OnScreenSyscall)>, i: int) -> bool {
    exists|k: int| 0 <= k < entries.len() && ((#[trigger] entries[k]).0 as int) == i
}

/// Whether a list of handles contains the given one.
fn handle_in(v: &Vec<EventIndex>, h: EventIndex) -> (r: bool)
    ensures
        r == v@.contains(h),
{
    let mut k: usize = 0;
    while k < v.len()
        invariant
            k <= v@.len(),
            forall|j: int| 0 <= j < k ==> (#[trigger] v@[j]) != h,
        decreases v@.len() - k,
    {
        if v[k] == h {
            return true;
        }
        k = k + 1;
    }
    false
}

/// One loaded trace: its immutable event lists, the two total time
/// indices over them, the per-trace time origin, the current selection,
/// and the cache of on-screen events with their rectangles.
pub struct Trace {
    pub name: String,
    pub bio_list: Vec<Bio>,
    pub syscall_list: Vec<Syscall>,
    pub head_index: Vec<(i64, EventIndex)>,
    pub tail_index: Vec<(i64, EventIndex)>,
    pub on_screen_bio: Vec<(usize, OnScreenBio)>,
    pub on_screen_syscall: Vec<(usize, OnScreenSyscall)>,
    pub selected_bio: Option<usize>,
    pub selected_syscall: Option<usize>,
    pub stack_traces: Vec<Vec<(String, String)>>,
    pub time_origin: i64,
}

impl Trace {
    pub open spec fn nb(self) -> int {
        self.bio_list@.len() as int
    }

    pub open spec fn ns(self) -> int {
        self.syscall_list@.len() as int
    }

    /// The on-screen caches refer back into the event lists, and the
    /// cached bios never exceed the total size bound of the bio list.
    pub open spec fn on_screen_wf(self) -> bool {
        &&& forall|k: int|
            0 <= k < self.on_screen_bio@.len() ==> bio_entry_ok(
                #[trigger] self.on_screen_bio@[k],
                self.bio_list@,
            )
        &&& sum_entry_sizes(self.on_screen_bio@) <= u64::MAX
        &&& forall|k: int|
            0 <= k < self.on_screen_syscall@.len() ==> sys_entry_ok(
                #[trigger] self.on_screen_syscall@[k],
                self.syscall_list@,
            )
    }

    /// Well-formedness: valid events, total sorted indices over exactly
    /// those events, valid selections and on-screen caches.  Constructors
    /// establish it and every method preserves it.
    pub open spec fn wf(self) -> bool {
        &&& events_wf(self.bio_list@, self.syscall_list@, self.stack_traces@.len() as int)
        &&& index_complete(self.head_index@, self.bio_list@, self.syscall_list@, false)
        &&& index_complete(self.tail_index@, self.bio_list@, self.syscall_list@, true)
        &&& self.on_screen_wf()
        &&& match self.selected_bio {
            Some(i) => (i as int) < self.nb(),
            None => true,
        }
        &&& match self.selected_syscall {
            Some(i) => (i as int) < self.ns(),
            None => true,
        }
    }

    /// Display time of an absolute timestamp: time since this trace's
    /// origin.
    pub fn rel_time(&self, time: i64) -> (r: i64)
        requires
            i64::MIN <= time - self.time_origin <= i64::MAX,
        ensures
            r == time - self.time_origin,
    {
        time - self.time_origin
    }

    /// Absolute timestamp of a display time.
    pub fn abs_time(&self, time: i64) -> (r: i64)
        requires
            i64::MIN <= time + self.time_origin <= i64::MAX,
        ensures
            r == time + self.time_origin,
    {
        time + self.time_origin
    }

    /// Re-zeroes the displayed time at the given syscall's start, without
    /// moving any event.
    pub fn align_to(&mut self, idx: usize)
        requires
            old(self).wf(),
            (idx as int) < old(self).ns(),
        ensures
            final(self).wf(),
            final(self).time_origin == old(self).syscall_list@[idx as int].start,
            *final(self) == (Trace {
                time_origin: final(self).time_origin,
                ..*old(self)
            }),
    {
        self.time_origin = self.syscall_list[idx].start;
    }

    /// The resolved stack of a bio: the symbol-table entry its
    /// `stack_trace` field points at.
    pub fn stack_trace_of(&self, bio_idx: usize) -> (r: &Vec<(String, String)>)
        requires
            self.wf(),
            (bio_idx as int) < self.nb(),
        ensures
            r@ == self.stack_traces@[self.bio_list@[bio_idx as int].stack_trace as int]@,
    {
        &self.stack_traces[self.bio_list[bio_idx].stack_trace]
    }

    /// Builds a trace from fully loaded event lists and a symbol table.
    ///
    /// Returns `None`, loading nothing, exactly when the inputs break an
    /// input invariant (`events_wf`): trace construction fails fast
    /// rather than build a partially valid store.  Otherwise the two
    /// indices are built over exactly the given events and the first
    /// syscall's start seeds the time origin.
    pub fn new(
        name: String,
        bio_list: Vec<Bio>,
        stack_traces: Vec<Vec<(String, String)>>,
        syscall_list: Vec<Syscall>,
    ) -> (r: Option<Trace>)
        ensures
            match r {
                Some(t) => {
                    &&& t.wf()
                    &&& events_wf(bio_list@, syscall_list@, stack_traces@.len() as int)
                    &&& t.name@ == name@
                    &&& t.bio_list@ == bio_list@
                    &&& t.syscall_list@ == syscall_list@
                    &&& t.stack_traces@ == stack_traces@
                    &&& t.time_origin == syscall_list@[0].start
                    &&& t.on_screen_bio@.len() == 0
                    &&& t.on_screen_syscall@.len() == 0
                    &&& (t.selected_bio is None)
                    &&& (t.selected_syscall is None)
                },
                None => !events_wf(bio_list@, syscall_list@, stack_traces@.len() as int),
            },
    {
        if syscall_list.len() == 0 {
            return None;
        }
        if bio_list.len() > usize::MAX - syscall_list.len() {
            return None;
        }
        // Validate the bios: completion order, symbol references, and the
        // total-size bound.
        let mut size_acc: u64 = 0;
        let mut i: usize = 0;
        while i < bio_list.len()
            invariant
                i <= bio_list@.len(),
                forall|j: int| 0 <= j < i ==> bio_wf(#[trigger] bio_list@[j]),
                forall|j: int|
                    0 <= j < i ==> (#[trigger] bio_list@[j]).stack_trace < stack_traces@.len(),
                size_acc == sum_sizes_upto(bio_list@, i as int),
            decreases bio_list@.len() - i,
        {
            let b = bio_list[i];
            match b.end {
                Some(e) => if e < b.start {
                    return None;
                },
                None => {},
            }
            if b.stack_trace >= stack_traces.len() {
                return None;
            }
            if b.size > u64::MAX - size_acc {
                proof {
                    lemma_sum_sizes_upto_mono(bio_list@, i + 1, bio_list@.len() as int);
                }
                return None;
            }
            size_acc = size_acc + b.size;
            i = i + 1;
        }
        // Validate the syscalls.
        let mut i: usize = 0;
        while i < syscall_list.len()
            invariant
                i <= syscall_list@.len(),
                forall|j: int| 0 <= j < i ==> syscall_wf(#[trigger] syscall_list@[j]),
            decreases syscall_list@.len() - i,
        {
            let s = syscall_list[i];
            match s.end {
                Some(e) => if e < s.start {
                    return None;
                },
                None => {},
            }
            i = i + 1;
        }
        let ghost bios = bio_list@;
        let ghost syscalls = syscall_list@;
        // Build the two indices, one entry per event.
        let mut head_index: Vec<(i64, EventIndex)> = Vec::new();
        let mut tail_index: Vec<(i64, EventIndex)> = Vec::new();
        let mut i: usize = 0;
        while i < bio_list.len()
            invariant
                i <= bios.len(),
                bio_list@ == bios,
                syscall_list@ == syscalls,
                head_index@.len() == i,
                tail_index@.len() == i,
                index_sorted(head_index@),
                index_sorted(tail_index@),
                forall|x: (i64, EventIndex)| #[trigger]
                    head_index@.contains(x) ==> (x.1 is Bio && (x.1.arrow_Bio_0() as int) < i && (
                    x.0 as int) == event_key(x.1, bios, syscalls, false)),
                forall|x: (i64, EventIndex)| #[trigger]
                    tail_index@.contains(x) ==> (x.1 is Bio && (x.1.arrow_Bio_0() as int) < i && (
                    x.0 as int) == event_key(x.1, bios, syscalls, true)),
                forall|j: usize|
                    j < i ==> #[trigger] index_has(head_index@, EventIndex::Bio(j)),
                forall|j: usize|
                    j < i ==> #[trigger] index_has(tail_index@, EventIndex::Bio(j)),
            decreases bios.len() - i,
        {
            let b = bio_list[i];
            let eos = match b.end {
                Some(e) => e,
                None => b.start,
            };
            let ghost head0 = head_index@;
            let ghost tail0 = tail_index@;
            index_insert(&mut head_index, b.start, EventIndex::Bio(i));
            index_insert(&mut tail_index, eos, EventIndex::Bio(i));
            proof {
                crate::index::lemma_index_has_after_insert(
                    head0,
                    head_index@,
                    b.start,
                    EventIndex::Bio(i),
                );
                crate::index::lemma_index_has_after_insert(
                    tail0,
                    tail_index@,
                    eos,
                    EventIndex::Bio(i),
                );
                assert forall|j: usize| j < i + 1 implies #[trigger] index_has(
                    head_index@,
                    EventIndex::Bio(j),
                ) by {
                    if j < i {
                        assert(index_has(head0, EventIndex::Bio(j)));
                    }
                }
                assert forall|j: usize| j < i + 1 implies #[trigger] index_has(
                    tail_index@,
                    EventIndex::Bio(j),
                ) by {
                    if j < i {
                        assert(index_has(tail0, EventIndex::Bio(j)));
                    }
                }
            }
            i = i + 1;
        }
        let ghost nb = bios.len() as int;
        let mut i: usize = 0;
        while i < syscall_list.len()
            invariant
                i <= syscalls.len(),
                bio_list@ == bios,
                syscall_list@ == syscalls,
                head_index@.len() == nb + i,
                tail_index@.len() == nb + i,
                nb == bios.len() as int,
                bios.len() + syscalls.len() <= usize::MAX,
                index_sorted(head_index@),
                index_sorted(tail_index@),
                forall|x: (i64, EventIndex)| #[trigger]
                    head_index@.contains(x) ==> valid_handle(x.1, nb, i as int) && (x.0 as int)
                        == event_key(x.1, bios, syscalls, false),
                forall|x: (i64, EventIndex)| #[trigger]
                    tail_index@.contains(x) ==> valid_handle(x.1, nb, i as int) && (x.0 as int)
                        == event_key(x.1, bios, syscalls, true),
                forall|j: usize|
                    (j as int) < nb ==> #[trigger] index_has(head_index@, EventIndex::Bio(j)),
                forall|j: usize|
                    (j as int) < nb ==> #[trigger] index_has(tail_index@, EventIndex::Bio(j)),
                forall|j: usize|
                    j < i ==> #[trigger] index_has(head_index@, EventIndex::Syscall(j)),
                forall|j: usize|
                    j < i ==> #[trigger] index_has(tail_index@, EventIndex::Syscall(j)),
            decreases syscalls.len() - i,
        {
            let s = syscall_list[i];
            let eos = match s.end {
                Some(e) => e,
                None => s.start,
            };
            let ghost head0 = head_index@;
            let ghost tail0 = tail_index@;
            index_insert(&mut head_index, s.start, EventIndex::Syscall(i));
            index_insert(&mut tail_index, eos, EventIndex::Syscall(i));
            proof {
                crate::index::lemma_index_has_after_insert(
                    head0,
                    head_index@,
                    s.start,
                    EventIndex::Syscall(i),
                );
                crate::index::lemma_index_has_after_insert(
                    tail0,
                    tail_index@,
                    eos,
                    EventIndex::Syscall(i),
                );
                assert forall|j: usize| (j as int) < nb implies #[trigger] index_has(
                    head_index@,
                    EventIndex::Bio(j),
                ) by {
                    assert(index_has(head0, EventIndex::Bio(j)));
                }
                assert forall|j: usize| (j as int) < nb implies #[trigger] index_has(
                    tail_index@,
                    EventIndex::Bio(j),
                ) by {
                    assert(index_has(tail0, EventIndex::Bio(j)));
                }
                assert forall|j: usize| j < i + 1 implies #[trigger] index_has(
                    head_index@,
                    EventIndex::Syscall(j),
                ) by {
                    if j < i {
                        assert(index_has(head0, EventIndex::Syscall(j)));
                    }
                }
                assert forall|j: usize| j < i + 1 implies #[trigger] index_has(
                    tail_index@,
                    EventIndex::Syscall(j),
                ) by {
                    if j < i {
                        assert(index_has(tail0, EventIndex::Syscall(j)));
                    }
                }
            }
            i = i + 1;
        }
        let time_origin = syscall_list[0].start;
        proof {
            assert forall|h: EventIndex|
                valid_handle(h, bios.len() as int, syscalls.len() as int) implies #[trigger]
                index_has(head_index@, h) by {
                match h {
                    EventIndex::Bio(j) => {
                        assert(index_has(head_index@, EventIndex::Bio(j)));
                    },
                    EventIndex::Syscall(j) => {
                        assert(index_has(head_index@, EventIndex::Syscall(j)));
                    },
                }
            }
            assert forall|h: EventIndex|
                valid_handle(h, bios.len() as int, syscalls.len() as int) implies #[trigger]
                index_has(tail_index@, h) by {
                match h {
                    EventIndex::Bio(j) => {
                        assert(index_has(tail_index@, EventIndex::Bio(j)));
                    },
                    EventIndex::Syscall(j) => {
                        assert(index_has(tail_index@, EventIndex::Syscall(j)));
                    },
                }
            }
        }
        Some(
            Trace {
                name,
                bio_list,
                syscall_list,
                head_index,
                tail_index,
                on_screen_bio: Vec::new(),
                on_screen_syscall: Vec::new(),
                selected_bio: None,
                selected_syscall: None,
                stack_traces,
                time_origin,
            },
        )
    }
}

impl Trace {
    /// The absolute time of the window's left edge for a display time.
    pub open spec fn win_lo(self, rel_time: int) -> int {
        rel_time + self.time_origin
    }

    /// The absolute time of the window's right edge.
    pub open spec fn win_hi(self, rel_time: int, duration: int) -> int {
        rel_time + self.time_origin + duration
    }

    /// An event is reported for `[a, b]` when its start time or its
    /// end-or-start time falls inside the interval.
    pub open spec fn in_range(self, h: EventIndex, a: int, b: int) -> bool {
        valid_handle(h, self.nb(), self.ns()) && (a <= event_key(
            h,
            self.bio_list@,
            self.syscall_list@,
            false,
        ) <= b || a <= event_key(h, self.bio_list@, self.syscall_list@, true) <= b)
    }

    /// The handles of every event whose start or end-or-start time lies
    /// in `[a, b]`: the union of a query on the start-keyed index and one
    /// on the end-keyed index.
    ///
    /// An event that starts before `a` and ends after `b` appears in
    /// neither index range and is missed: the union is not a full
    /// interval-overlap query, a known limitation of the two-index
    /// scheme.
    pub fn range_query(&self, a: i128, b: i128) -> (r: Vec<EventIndex>)
        requires
            self.wf(),
        ensures
            forall|h: EventIndex| #[trigger] r@.contains(h) <==> self.in_range(h, a as int, b as int),
    {
        let heads = index_range(&self.head_index, a, b);
        let tails = index_range(&self.tail_index, a, b);
        let mut r = heads;
        let ghost heads_s = r@;
        let mut k: usize = 0;
        while k < tails.len()
            invariant
                k <= tails@.len(),
                forall|h: EventIndex|
                    #[trigger] r@.contains(h) <==> (heads_s.contains(h) || exists|k2: int|
                        0 <= k2 < k && tails@[k2] == h),
            decreases tails@.len() - k,
        {
            let ghost r0 = r@;
            let h = tails[k];
            if !handle_in(&r, h) {
                r.push(h);
            }
            proof {
                assert forall|h2: EventIndex| #[trigger]
                    r@.contains(h2) <==> (heads_s.contains(h2) || exists|k2: int|
                        0 <= k2 < k + 1 && tails@[k2] == h2) by {
                    if r@.contains(h2) {
                        let j = choose|j: int| 0 <= j < r@.len() && r@[j] == h2;
                        if j < r0.len() {
                            assert(r0.contains(h2));
                        } else {
                            assert(h2 == h);
                            assert(tails@[k as int] == h2);
                        }
                    }
                    if heads_s.contains(h2) || exists|k2: int| 0 <= k2 < k + 1 && tails@[k2] == h2 {
                        if r0.contains(h2) {
                            let j = choose|j: int| 0 <= j < r0.len() && r0[j] == h2;
                            assert(r@[j] == h2);
                        } else {
                            assert(!heads_s.contains(h2));
                            let k2 = choose|k2: int| 0 <= k2 < k + 1 && tails@[k2] == h2;
                            assert(k2 == k);
                            assert(h2 == h);
                            if r0.contains(h) {
                                assert(false);
                            }
                            assert(r@[r@.len() - 1] == h2);
                        }
                    }
                }
            }
            k = k + 1;
        }
        proof {
            let bios = self.bio_list@;
            let syscalls = self.syscall_list@;
            assert forall|h: EventIndex| #[trigger]
                r@.contains(h) <==> self.in_range(h, a as int, b as int) by {
                if r@.contains(h) {
                    if heads_s.contains(h) {
                        let j = choose|j: int|
                            0 <= j < self.head_index@.len() && (#[trigger] self.head_index@[j]).1
                                == h && a <= self.head_index@[j].0 <= b;
                        assert(self.head_index@.contains(self.head_index@[j]));
                    } else {
                        assert(tails@.contains(h));
                        let j = choose|j: int|
                            0 <= j < self.tail_index@.len() && (#[trigger] self.tail_index@[j]).1
                                == h && a <= self.tail_index@[j].0 <= b;
                        assert(self.tail_index@.contains(self.tail_index@[j]));
                    }
                }
                if self.in_range(h, a as int, b as int) {
                    if a as int <= event_key(h, bios, syscalls, false) <= b as int {
                        assert(index_has(self.head_index@, h));
                        let j = choose|j: int|
                            0 <= j < self.head_index@.len() && (#[trigger] self.head_index@[j]).1
                                == h;
                        assert(self.head_index@.contains(self.head_index@[j]));
                        assert(heads_s.contains(h));
                    } else {
                        assert(index_has(self.tail_index@, h));
                        let j = choose|j: int|
                            0 <= j < self.tail_index@.len() && (#[trigger] self.tail_index@[j]).1
                                == h;
                        assert(self.tail_index@.contains(self.tail_index@[j]));
                        assert(tails@.contains(h));
                        let k2 = choose|k2: int| 0 <= k2 < tails@.len() && tails@[k2] == h;
                    }
                }
            }
        }
        r
    }
}

impl Trace {
    /// Recomputes from scratch which events are on screen: exactly those
    /// whose start or end-or-start time falls inside the window that
    /// starts at display time `rel_time` and lasts `duration`
    /// nanoseconds.  Every cached rectangle is reset; the handles come
    /// out in ascending order.
    pub fn refresh_on_screen(&mut self, rel_time: i64, duration: i64)
        requires
            old(self).wf(),
            0 <= duration,
        ensures
            final(self).wf(),
            *final(self) == (Trace {
                on_screen_bio: final(self).on_screen_bio,
                on_screen_syscall: final(self).on_screen_syscall,
                ..*old(self)
            }),
            forall|k: int|
                0 <= k < final(self).on_screen_bio@.len() ==> {
                    let entry = #[trigger] final(self).on_screen_bio@[k];
                    &&& (entry.0 as int) < old(self).nb()
                    &&& entry.1.bio == old(self).bio_list@[entry.0 as int]
                    &&& entry.1.rect == ScreenRect::spec_nothing()
                },
            forall|i: int|
                0 <= i < old(self).nb() ==> (has_bio_entry(final(self).on_screen_bio@, i)
                    <==> bio_in_window(
                    #[trigger] old(self).bio_list@[i],
                    old(self).win_lo(rel_time as int),
                    old(self).win_hi(rel_time as int, duration as int),
                )),
            forall|k1: int, k2: int|
                0 <= k1 < k2 < final(self).on_screen_bio@.len() ==> (#[trigger] final(self).on_screen_bio@[k1]).0 < (#[trigger] final(self).on_screen_bio@[k2]).0,
            forall|k: int|
                0 <= k < final(self).on_screen_syscall@.len() ==> {
                    let entry = #[trigger] final(self).on_screen_syscall@[k];
                    &&& (entry.0 as int) < old(self).ns()
                    &&& entry.1.syscall == old(self).syscall_list@[entry.0 as int]
                    &&& entry.1.rect == ScreenRect::spec_nothing()
                },
            forall|i: int|
                0 <= i < old(self).ns() ==> (has_sys_entry(final(self).on_screen_syscall@, i)
                    <==> sys_in_window(
                    #[trigger] old(self).syscall_list@[i],
                    old(self).win_lo(rel_time as int),
                    old(self).win_hi(rel_time as int, duration as int),
                )),
            forall|k1: int, k2: int|
                0 <= k1 < k2 < final(self).on_screen_syscall@.len() ==> (#[trigger] final(self).on_screen_syscall@[k1]).0 < (#[trigger] final(self).on_screen_syscall@[k2]).0,
    {
        let ghost bios = self.bio_list@;
        let ghost syscalls = self.syscall_list@;
        let ws: i128 = (rel_time as i128) + (self.time_origin as i128);
        let we: i128 = ws + (duration as i128);
        let handles = self.range_query(ws, we);
        let nb = self.bio_list.len();
        let ns = self.syscall_list.len();
        let mut bmark: Vec<bool> = vec![false; nb];
        let mut smark: Vec<bool> = vec![false; ns];
        let mut k: usize = 0;
        while k < handles.len()
            invariant
                *self == *old(self),
                bmark@.len() == nb,
                smark@.len() == ns,
                nb == bios.len(),
                ns == syscalls.len(),
                k <= handles@.len(),
                forall|i: int|
                    0 <= i < nb ==> (#[trigger] bmark@[i] <==> exists|k2: int|
                        0 <= k2 < k && handles@[k2] == EventIndex::Bio(i as usize)),
                forall|i: int|
                    0 <= i < ns ==> (#[trigger] smark@[i] <==> exists|k2: int|
                        0 <= k2 < k && handles@[k2] == EventIndex::Syscall(i as usize)),
            decreases handles@.len() - k,
        {
            let ghost b0 = bmark@;
            let ghost s0 = smark@;
            match handles[k] {
                EventIndex::Bio(i) => {
                    if i < nb {
                        bmark[i] = true;
                    }
                },
                EventIndex::Syscall(i) => {
                    if i < ns {
                        smark[i] = true;
                    }
                },
            }
            proof {
                assert forall|i: int| 0 <= i < nb implies (#[trigger] bmark@[i] <==> exists|k2: int|
                    0 <= k2 < k + 1 && handles@[k2] == EventIndex::Bio(i as usize)) by {
                    if bmark@[i] {
                        if b0[i] {
                            let k2 = choose|k2: int|
                                0 <= k2 < k && handles@[k2] == EventIndex::Bio(i as usize);
                            assert(0 <= k2 < k + 1 && handles@[k2] == EventIndex::Bio(i as usize));
                        } else {
                            assert(handles@[k as int] == EventIndex::Bio(i as usize));
                        }
                    }
                    if exists|k2: int|
                        0 <= k2 < k + 1 && handles@[k2] == EventIndex::Bio(i as usize) {
                        let k2 = choose|k2: int|
                            0 <= k2 < k + 1 && handles@[k2] == EventIndex::Bio(i as usize);
                        if k2 < k {
                            assert(b0[i]);
                        }
                        assert(bmark@[i]);
                    }
                }
                assert forall|i: int| 0 <= i < ns implies (#[trigger] smark@[i] <==> exists|k2: int|
                    0 <= k2 < k + 1 && handles@[k2] == EventIndex::Syscall(i as usize)) by {
                    if smark@[i] {
                        if s0[i] {
                            let k2 = choose|k2: int|
                                0 <= k2 < k && handles@[k2] == EventIndex::Syscall(i as usize);
                            assert(0 <= k2 < k + 1 && handles@[k2] == EventIndex::Syscall(
                                i as usize,
                            ));
                        } else {
                            assert(handles@[k as int] == EventIndex::Syscall(i as usize));
                        }
                    }
                    if exists|k2: int|
                        0 <= k2 < k + 1 && handles@[k2] == EventIndex::Syscall(i as usize) {
                        let k2 = choose|k2: int|
                            0 <= k2 < k + 1 && handles@[k2] == EventIndex::Syscall(i as usize);
                        if k2 < k {
                            assert(s0[i]);
                        }
                        assert(smark@[i]);
                    }
                }
            }
            k = k + 1;
        }
        proof {
            assert forall|i: int| 0 <= i < nb implies (#[trigger] bmark@[i] <==> bio_in_window(
                bios[i],
                ws as int,
                we as int,
            )) by {
                let h = EventIndex::Bio(i as usize);
                if bmark@[i] {
                    let k2 = choose|k2: int| 0 <= k2 < handles@.len() && handles@[k2] == h;
                    assert(handles@.contains(h));
                    assert(self.in_range(h, ws as int, we as int));
                }
                if bio_in_window(bios[i], ws as int, we as int) {
                    assert(self.in_range(h, ws as int, we as int));
                    assert(handles@.contains(h));
                    let k2 = choose|k2: int| 0 <= k2 < handles@.len() && handles@[k2] == h;
                    assert(bmark@[i]);
                }
            }
            assert forall|i: int| 0 <= i < ns implies (#[trigger] smark@[i] <==> sys_in_window(
                syscalls[i],
                ws as int,
                we as int,
            )) by {
                let h = EventIndex::Syscall(i as usize);
                if smark@[i] {
                    let k2 = choose|k2: int| 0 <= k2 < handles@.len() && handles@[k2] == h;
                    assert(handles@.contains(h));
                    assert(self.in_range(h, ws as int, we as int));
                }
                if sys_in_window(syscalls[i], ws as int, we as int) {
                    assert(self.in_range(h, ws as int, we as int));
                    assert(handles@.contains(h));
                    let k2 = choose|k2: int| 0 <= k2 < handles@.len() && handles@[k2] == h;
                    assert(smark@[i]);
                }
            }
        }
        // Rebuild the caches in ascending handle order.
        let mut osb: Vec<(usize, OnScreenBio)> = Vec::new();
        let mut i: usize = 0;
        while i < nb
            invariant
                *self == *old(self),
                bios == old(self).bio_list@,
                nb == bios.len(),
                bmark@.len() == nb,
                i <= nb,
                forall|j: int| 0 <= j < nb ==> (#[trigger] bmark@[j] <==> bio_in_window(
                    bios[j],
                    ws as int,
                    we as int,
                )),
                forall|k: int|
                    0 <= k < osb@.len() ==> {
                        let entry = #[trigger] osb@[k];
                        &&& (entry.0 as int) < i
                        &&& entry.1.bio == bios[entry.0 as int]
                        &&& entry.1.rect == ScreenRect::spec_nothing()
                    },
                forall|j: int| 0 <= j < i ==> (has_bio_entry(osb@, j) <==> #[trigger] bmark@[j]),
                forall|k1: int, k2: int|
                    0 <= k1 < k2 < osb@.len() ==> (#[trigger] osb@[k1]).0 < (#[trigger] osb@[k2]).0,
            decreases nb - i,
        {
            let ghost o0 = osb@;
            if bmark[i] {
                osb.push((i, OnScreenBio { bio: self.bio_list[i], rect: ScreenRect::nothing() }));
            }
            proof {
                assert forall|j: int| 0 <= j < i + 1 implies (has_bio_entry(osb@, j)
                    <==> #[trigger] bmark@[j]) by {
                    if has_bio_entry(osb@, j) {
                        let k = choose|k: int|
                            0 <= k < osb@.len() && ((#[trigger] osb@[k]).0 as int) == j;
                        if k < o0.len() {
                            assert(has_bio_entry(o0, j));
                        }
                    }
                    if bmark@[j] {
                        if j < i {
                            assert(has_bio_entry(o0, j));
                            let k = choose|k: int|
                                0 <= k < o0.len() && ((#[trigger] o0[k]).0 as int) == j;
                            assert((osb@[k].0 as int) == j);
                            assert(has_bio_entry(osb@, j));
                        } else {
                            assert((osb@[osb@.len() - 1].0 as int) == j);
                            assert(has_bio_entry(osb@, j));
                        }
                    }
                }
            }
            i = i + 1;
        }
        let mut oss: Vec<(usize, OnScreenSyscall)> = Vec::new();
        let mut i: usize = 0;
        while i < ns
            invariant
                *self == *old(self),
                syscalls == old(self).syscall_list@,
                ns == syscalls.len(),
                smark@.len() == ns,
                i <= ns,
                forall|j: int| 0 <= j < ns ==> (#[trigger] smark@[j] <==> sys_in_window(
                    syscalls[j],
                    ws as int,
                    we as int,
                )),
                forall|k: int|
                    0 <= k < oss@.len() ==> {
                        let entry = #[trigger] oss@[k];
                        &&& (entry.0 as int) < i
                        &&& entry.1.syscall == syscalls[entry.0 as int]
                        &&& entry.1.rect == ScreenRect::spec_nothing()
                    },
                forall|j: int| 0 <= j < i ==> (has_sys_entry(oss@, j) <==> #[trigger] smark@[j]),
                forall|k1: int, k2: int|
                    0 <= k1 < k2 < oss@.len() ==> (#[trigger] oss@[k1]).0 < (#[trigger] oss@[k2]).0,
            decreases ns - i,
        {
            let ghost o0 = oss@;
            if smark[i] {
                oss.push(
                    (i, OnScreenSyscall { syscall: self.syscall_list[i], rect: ScreenRect::nothing() }),
                );
            }
            proof {
                assert forall|j: int| 0 <= j < i + 1 implies (has_sys_entry(oss@, j)
                    <==> #[trigger] smark@[j]) by {
                    if has_sys_entry(oss@, j) {
                        let k = choose|k: int|
                            0 <= k < oss@.len() && ((#[trigger] oss@[k]).0 as int) == j;
                        if k < o0.len() {
                            assert(has_sys_entry(o0, j));
                        }
                    }
                    if smark@[j] {
                        if j < i {
                            assert(has_sys_entry(o0, j));
                            let k = choose|k: int|
                                0 <= k < o0.len() && ((#[trigger] o0[k]).0 as int) == j;
                            assert((oss@[k].0 as int) == j);
                            assert(has_sys_entry(oss@, j));
                        } else {
                            assert((oss@[oss@.len() - 1].0 as int) == j);
                            assert(has_sys_entry(oss@, j));
                        }
                    }
                }
            }
            i = i + 1;
        }
        self.on_screen_bio = osb;
        self.on_screen_syscall = oss;
        proof {
            lemma_sum_entries_bounded(self.on_screen_bio@, self.bio_list@);
            assert forall|i: int| 0 <= i < nb implies (has_bio_entry(self.on_screen_bio@, i)
                <==> bio_in_window(#[trigger] bios[i], ws as int, we as int)) by {
                assert(has_bio_entry(osb@, i) <==> bmark@[i]);
            }
            assert forall|i: int| 0 <= i < ns implies (has_sys_entry(self.on_screen_syscall@, i)
                <==> sys_in_window(#[trigger] syscalls[i], ws as int, we as int)) by {
                assert(has_sys_entry(oss@, i) <==> smark@[i]);
            }
        }
    }
}

/// The last on-screen bio whose rectangle contains the point, if any:
/// when rectangles overlap, the latest entry of the cache wins.
pub open spec fn last_bio_hit(entries: Seq<(usize, OnScreenBio)>, x: int, y: int) -> Option<usize>
    decreases entries.len(),
{
    if entries.len() == 0 {
        None
    } else if entries.last().1.rect.spec_contains(x, y) {
        Some(entries.last().0)
    } else {
        last_bio_hit(entries.drop_last(), x, y)
    }
}

/// The last on-screen syscall whose rectangle contains the point.
pub open spec fn last_sys_hit(
    entries: Seq<(usize, OnScreenSyscall)>,
    x: int,
    y: int,
) -> Option<usize>
    decreases entries.len(),
{
    if entries.len() == 0 {
        None
    } else if entries.last().1.rect.spec_contains(x, y) {
        Some(entries.last().0)
    } else {
        last_sys_hit(entries.drop_last(), x, y)
    }
}

impl Trace {
    /// Hit-tests the point (in canvas-local coordinates) against every
    /// on-screen rectangle: a hit selects the event; without one the
    /// selection stays.  Among overlapping rectangles the last entry of
    /// the on-screen cache wins.
    pub fn select_at(&mut self, x: i128, y: i128)
        requires
            old(self).wf(),
        ensures
            final(self).wf(),
            *final(self) == (Trace {
                selected_bio: final(self).selected_bio,
                selected_syscall: final(self).selected_syscall,
                ..*old(self)
            }),
            final(self).selected_syscall == (match last_sys_hit(
                old(self).on_screen_syscall@,
                x as int,
                y as int,
            ) {
                Some(h) => Some(h),
                None => old(self).selected_syscall,
            }),
            final(self).selected_bio == (match last_bio_hit(
                old(self).on_screen_bio@,
                x as int,
                y as int,
            ) {
                Some(h) => Some(h),
                None => old(self).selected_bio,
            }),
    {
        let ghost oss = self.on_screen_syscall@;
        let ghost osb = self.on_screen_bio@;
        let mut k: usize = 0;
        while k < self.on_screen_syscall.len()
            invariant
                *self == (Trace { selected_syscall: self.selected_syscall, ..*old(self) }),
                old(self).wf(),
                oss == old(self).on_screen_syscall@,
                k <= oss.len(),
                self.selected_syscall == (match last_sys_hit(
                    oss.take(k as int),
                    x as int,
                    y as int,
                ) {
                    Some(h) => Some(h),
                    None => old(self).selected_syscall,
                }),
            decreases oss.len() - k,
        {
            let e = self.on_screen_syscall[k];
            if e.1.rect.contains(x, y) {
                self.selected_syscall = Some(e.0);
            }
            proof {
                assert(oss.take(k + 1).drop_last() =~= oss.take(k as int));
                assert(oss.take(k + 1).last() == oss[k as int]);
            }
            k = k + 1;
        }
        proof {
            assert(oss.take(oss.len() as int) =~= oss);
        }
        let mut k: usize = 0;
        while k < self.on_screen_bio.len()
            invariant
                *self == (Trace {
                    selected_bio: self.selected_bio,
                    selected_syscall: self.selected_syscall,
                    ..*old(self)
                }),
                old(self).wf(),
                osb == old(self).on_screen_bio@,
                self.selected_syscall == (match last_sys_hit(oss, x as int, y as int) {
                    Some(h) => Some(h),
                    None => old(self).selected_syscall,
                }),
                oss == old(self).on_screen_syscall@,
                k <= osb.len(),
                self.selected_bio == (match last_bio_hit(osb.take(k as int), x as int, y as int) {
                    Some(h) => Some(h),
                    None => old(self).selected_bio,
                }),
            decreases osb.len() - k,
        {
            let e = self.on_screen_bio[k];
            if e.1.rect.contains(x, y) {
                self.selected_bio = Some(e.0);
            }
            proof {
                assert(osb.take(k + 1).drop_last() =~= osb.take(k as int));
                assert(osb.take(k + 1).last() == osb[k as int]);
            }
            k = k + 1;
        }
        proof {
            assert(oss.take(oss.len() as int) =~= oss);
            assert(osb.take(osb.len() as int) =~= osb);
            assert forall|j: int| 0 <= j < osb.len() implies bio_entry_ok(
                #[trigger] osb[j],
                old(self).bio_list@,
            ) by {}
            lemma_last_bio_hit_valid(osb, x as int, y as int, old(self).bio_list@);
            lemma_last_sys_hit_valid(oss, x as int, y as int, old(self).syscall_list@);
        }
    }
}

/// A winning bio hit always carries a valid handle.
proof fn lemma_last_bio_hit_valid(
    entries: Seq<(usize, OnScreenBio)>,
    x: int,
    y: int,
    bios: Seq<Bio>,
)
    requires
        forall|k: int| 0 <= k < entries.len() ==> bio_entry_ok(#[trigger] entries[k], bios),
    ensures
        match last_bio_hit(entries, x, y) {
            Some(h) => (h as int) < bios.len(),
            None => true,
        },
    decreases entries.len(),
{
    if entries.len() > 0 {
        if !entries.last().1.rect.spec_contains(x, y) {
            assert forall|k: int| 0 <= k < entries.drop_last().len() implies bio_entry_ok(
                #[trigger] entries.drop_last()[k],
                bios,
            ) by {
                assert(entries.drop_last()[k] == entries[k]);
            }
            lemma_last_bio_hit_valid(entries.drop_last(), x, y, bios);
        }
    }
}

/// A winning syscall hit always carries a valid handle.
proof fn lemma_last_sys_hit_valid(
    entries: Seq<(usize, OnScreenSyscall)>,
    x: int,
    y: int,
    syscalls: Seq<Syscall>,
)
    requires
        forall|k: int| 0 <= k < entries.len() ==> sys_entry_ok(#[trigger] entries[k], syscalls),
    ensures
        match last_sys_hit(entries, x, y) {
            Some(h) => (h as int) < syscalls.len(),
            None => true,
        },
    decreases entries.len(),
{
    if entries.len() > 0 {
        if !entries.last().1.rect.spec_contains(x, y) {
            assert forall|k: int| 0 <= k < entries.drop_last().len() implies sys_entry_ok(
                #[trigger] entries.drop_last()[k],
                syscalls,
            ) by {
                assert(entries.drop_last()[k] == entries[k]);
            }
            lemma_last_sys_hit_valid(entries.drop_last(), x, y, syscalls);
        }
    }
}

/// Both time indices of a well-formed trace are total: each holds one
/// entry slot per event (`bio count + syscall count` entries), and every
/// handle present in one index is present in the other.
pub proof fn lemma_indices_total(t: Trace)
    requires
        t.wf(),
    ensures
        t.head_index@.len() == t.nb() + t.ns(),
        t.tail_index@.len() == t.nb() + t.ns(),
        forall|h: EventIndex| index_has(t.head_index@, h) <==> index_has(t.tail_index@, h),
{
    assert forall|h: EventIndex| index_has(t.head_index@, h) <==> index_has(
        t.tail_index@,
        h,
    ) by {
        if index_has(t.head_index@, h) {
            let j = choose|j: int|
                0 <= j < t.head_index@.len() && (#[trigger] t.head_index@[j]).1 == h;
            assert(t.head_index@.contains(t.head_index@[j]));
            assert(valid_handle(h, t.nb(), t.ns()));
            assert(index_has(t.tail_index@, h));
        }
        if index_has(t.tail_index@, h) {
            let j = choose|j: int|
                0 <= j < t.tail_index@.len() && (#[trigger] t.tail_index@[j]).1 == h;
            assert(t.tail_index@.contains(t.tail_index@[j]));
            assert(valid_handle(h, t.nb(), t.ns()));
            assert(index_has(t.head_index@, h));
        }
    }
}

/// The two-index range query never omits a qualifying event: any valid
/// handle whose start time or end-or-start time falls inside `[a, b]`
/// satisfies the membership condition that `range_query` reports
/// exactly.  (It can, however, miss an event spanning the whole
/// interval, whose start lies before `a` and whose end lies after `b`.)
pub proof fn lemma_range_query_no_omission(t: Trace, h: EventIndex, a: int, b: int)
    requires
        t.wf(),
        valid_handle(h, t.nb(), t.ns()),
        a <= event_key(h, t.bio_list@, t.syscall_list@, false) <= b || a <= event_key(
            h,
            t.bio_list@,
            t.syscall_list@,
            true,
        ) <= b,
    ensures
        t.in_range(h, a, b),
{
}

} // verus!
