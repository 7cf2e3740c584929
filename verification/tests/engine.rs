use trace_explorer::index::EventIndex;
use trace_explorer::store::{OnScreenBio, Trace};
use trace_explorer::trace::{Bio, Syscall, SyscallKind, SyscallStats, Frac};
use trace_explorer::viewport::ScreenRect;

fn bio(offset: u64, size: u64, start: i64, end: Option<i64>) -> Bio {
    Bio {
        offset,
        size,
        is_metadata: false,
        is_flush: false,
        is_write: true,
        start,
        end,
        stack_trace: 0,
    }
}

fn fsync(start: i64, end: Option<i64>) -> Syscall {
    Syscall { kind: SyscallKind::Fsync, start, end, tid: 1, stats: None }
}

fn mk_trace(bios: Vec<Bio>, syscalls: Vec<Syscall>) -> Trace {
    Trace::new("t".to_string(), bios, vec![vec![]], syscalls).unwrap()
}

#[test]
fn frac_io_time_merges_overlap() {
    // Two overlapping bios inside a syscall of length 20: the union of
    // [0,10) and [5,15) covers 15 instants, not 20.
    let bios = vec![bio(0, 1, 0, Some(10)), bio(5, 1, 5, Some(15))];
    let mut t = mk_trace(bios, vec![fsync(0, Some(20))]);
    t.analyze_selected_syscall(0);
    let stats = t.syscall_list[0].stats.unwrap();
    assert_eq!(stats.frac_io_time, Frac { num: 15, den: 20 });
    assert_eq!(stats.write_sectors, 2);
    assert_eq!(stats.flushes, 0);
}

#[test]
fn frac_io_time_counts_adjacent_once() {
    let bios = vec![bio(0, 4, 0, Some(5)), bio(8, 4, 5, Some(10))];
    let mut t = mk_trace(bios, vec![fsync(0, Some(20))]);
    t.analyze_selected_syscall(0);
    let stats = t.syscall_list[0].stats.unwrap();
    assert_eq!(stats.frac_io_time, Frac { num: 10, den: 20 });
    assert_eq!(stats.write_sectors, 8);
}

#[test]
fn stats_ignore_partially_overlapping_bios() {
    // A bio that starts before the syscall is not fully nested and does
    // not count, even though it ends inside.
    let bios = vec![bio(0, 1, -5, Some(5)), bio(1, 2, 2, Some(4))];
    let mut t = mk_trace(bios, vec![fsync(0, Some(10))]);
    t.analyze_selected_syscall(0);
    let stats = t.syscall_list[0].stats.unwrap();
    assert_eq!(stats.write_sectors, 2);
    assert_eq!(stats.frac_io_time, Frac { num: 2, den: 10 });
}

#[test]
fn stats_count_flushes() {
    let mut b = bio(0, 0, 1, Some(2));
    b.is_flush = true;
    b.is_write = false;
    let mut t = mk_trace(vec![b], vec![fsync(0, Some(4))]);
    t.analyze_selected_syscall(0);
    let stats = t.syscall_list[0].stats.unwrap();
    assert_eq!(stats.flushes, 1);
    assert_eq!(stats.write_sectors, 0);
    assert_eq!(stats.frac_io_time, Frac { num: 1, den: 4 });
}

#[test]
fn stats_are_memoized() {
    let bios = vec![bio(0, 1, 0, Some(10))];
    let mut t = mk_trace(bios, vec![fsync(0, Some(20))]);
    t.analyze_selected_syscall(0);
    let first = t.syscall_list[0].stats.unwrap();
    t.analyze_selected_syscall(0);
    let second = t.syscall_list[0].stats.unwrap();
    assert_eq!(first, second);
}

#[test]
fn preset_stats_are_kept() {
    // A syscall whose stats are already memoized is not recomputed.
    let marker = SyscallStats { write_sectors: 77, flushes: 9, frac_io_time: Frac { num: 1, den: 2 } };
    let mut sys = fsync(0, Some(20));
    sys.stats = Some(marker);
    let mut t = mk_trace(vec![bio(0, 1, 0, Some(10))], vec![sys]);
    t.analyze_selected_syscall(0);
    assert_eq!(t.syscall_list[0].stats.unwrap(), marker);
}

#[test]
fn zero_duration_syscall_has_zero_denominator() {
    let mut t = mk_trace(vec![bio(0, 1, 5, Some(5))], vec![fsync(5, None)]);
    t.analyze_selected_syscall(0);
    let stats = t.syscall_list[0].stats.unwrap();
    assert_eq!(stats.frac_io_time, Frac { num: 0, den: 0 });
    assert_eq!(stats.write_sectors, 1);
}

#[test]
fn indices_hold_every_event() {
    let bios = vec![bio(0, 1, 3, Some(9)), bio(4, 1, 3, Some(7))];
    let syscalls = vec![fsync(1, Some(2)), fsync(3, None)];
    let t = mk_trace(bios, syscalls);
    assert_eq!(t.head_index.len(), 4);
    assert_eq!(t.tail_index.len(), 4);
    for h in [
        EventIndex::Bio(0),
        EventIndex::Bio(1),
        EventIndex::Syscall(0),
        EventIndex::Syscall(1),
    ] {
        assert!(t.head_index.iter().any(|e| e.1 == h));
        assert!(t.tail_index.iter().any(|e| e.1 == h));
    }
    // duplicate start keys must not collapse entries
    assert_eq!(
        t.head_index.iter().filter(|e| e.0 == 3).count(),
        3
    );
}

#[test]
fn range_query_finds_starts_and_ends() {
    let bios = vec![
        bio(0, 1, 0, Some(10)),     // ends before the window
        bio(1, 1, 50, Some(95)),    // ends inside the window
        bio(2, 1, 100, Some(110)),  // fully inside
        bio(3, 1, 115, Some(300)),  // starts inside, ends after
        bio(4, 1, 1000, None),      // outside
    ];
    let t = mk_trace(bios, vec![fsync(0, Some(1))]);
    let r = t.range_query(90, 120);
    assert!(!r.contains(&EventIndex::Bio(0)));
    assert!(r.contains(&EventIndex::Bio(1)));
    assert!(r.contains(&EventIndex::Bio(2)));
    assert!(r.contains(&EventIndex::Bio(3)));
    assert!(!r.contains(&EventIndex::Bio(4)));
    assert!(!r.contains(&EventIndex::Syscall(0)));
}

#[test]
fn refresh_collects_window_events_in_handle_order() {
    let bios = vec![bio(9, 1, 30, Some(40)), bio(3, 1, 10, Some(20)), bio(7, 1, 500, None)];
    let mut t = mk_trace(bios, vec![fsync(0, Some(1))]);
    // origin is syscall start 0, so display times equal absolute times
    t.refresh_on_screen(0, 100);
    let handles: Vec<usize> = t.on_screen_bio.iter().map(|e| e.0).collect();
    assert_eq!(handles, vec![0, 1]);
    assert_eq!(t.on_screen_syscall.len(), 1);
}

#[test]
fn layout_packs_waterfall_rows() {
    // Offsets 10, 5, 5: sorted ascending the two fives share a row and
    // the ten opens a new one below.
    let bios = vec![
        bio(10, 1, 0, Some(4)),
        bio(5, 1, 1, Some(3)),
        bio(5, 2, 2, Some(7)),
    ];
    let mut t = mk_trace(bios, vec![fsync(0, Some(1))]);
    t.refresh_on_screen(0, 100);
    let mut last_y: i128 = 0;
    t.layout(&mut last_y, 0, 1, 1);
    let entries = &t.on_screen_bio;
    let offsets: Vec<u64> = entries.iter().map(|e| e.1.bio.offset).collect();
    assert_eq!(offsets, vec![5, 5, 10]);
    let band = 200; // the syscall band gap
    let r0 = entries[0].1.rect;
    let r1 = entries[1].1.rect;
    let r2 = entries[2].1.rect;
    assert_eq!(r0.min_y, band);
    assert_eq!(r1.min_y, band); // same offset continues the row
    assert_eq!(r2.min_y, r1.max_y + 1); // higher offset opens a new row
    // heights: ten units per sector
    assert_eq!(r0.max_y - r0.min_y, 10);
    assert_eq!(r1.max_y - r1.min_y, 20);
    assert_eq!(r2.max_y - r2.min_y, 10);
    // x and width at zoom 1/1: one pixel per nanosecond
    assert_eq!(r0.min_x, 1);
    assert_eq!(r0.max_x - r0.min_x, 2);
    assert_eq!(r2.min_x, 0);
    assert_eq!(r2.max_x - r2.min_x, 4);
    assert_eq!(r1.min_x, 2);
    assert_eq!(r1.max_x - r1.min_x, 5);
    assert_eq!(last_y, r2.max_y + 1);
    // the syscall band spans the lane top
    let sr = t.on_screen_syscall[0].1.rect;
    assert_eq!(sr.min_y, 0);
    assert_eq!(sr.max_y, 50);
}

#[test]
fn layout_gives_small_bios_minimum_height() {
    let bios = vec![bio(1, 0, 0, Some(2))];
    let mut t = mk_trace(bios, vec![fsync(0, Some(1))]);
    t.refresh_on_screen(0, 100);
    let mut last_y: i128 = 0;
    t.layout(&mut last_y, 0, 1, 1);
    let r = t.on_screen_bio[0].1.rect;
    assert_eq!(r.max_y - r.min_y, 7);
}

#[test]
fn open_bio_has_zero_width() {
    // end = None: zero effective duration and a zero-width rectangle,
    // whatever the size.
    let bios = vec![bio(0, 1000, 10, None)];
    let mut t = mk_trace(bios, vec![fsync(0, Some(1))]);
    t.refresh_on_screen(0, 100);
    let mut last_y: i128 = 0;
    t.layout(&mut last_y, 0, 1, 1);
    let r = t.on_screen_bio[0].1.rect;
    assert_eq!(r.max_x, r.min_x);
    assert_eq!(r.max_y - r.min_y, 10000);
}

#[test]
fn select_last_match_wins() {
    let b0 = bio(0, 1, 0, Some(10));
    let b1 = bio(1, 1, 0, Some(10));
    let mut t = mk_trace(vec![b0, b1], vec![fsync(0, Some(1))]);
    let rect_a = ScreenRect { min_x: 0, min_y: 0, max_x: 10, max_y: 10 };
    let rect_b = ScreenRect { min_x: 5, min_y: 5, max_x: 20, max_y: 20 };
    t.on_screen_bio = vec![
        (0, OnScreenBio { bio: b0, rect: rect_a }),
        (1, OnScreenBio { bio: b1, rect: rect_b }),
    ];
    t.select_at(7, 7); // inside both: the later entry wins
    assert_eq!(t.selected_bio, Some(1));
    t.select_at(1, 1); // only inside the first
    assert_eq!(t.selected_bio, Some(0));
    t.select_at(1000, 1000); // inside neither: selection kept
    assert_eq!(t.selected_bio, Some(0));
}

#[test]
fn align_to_rebases_display_time() {
    let mut t = mk_trace(vec![bio(0, 1, 0, Some(1))], vec![fsync(100, Some(120)), fsync(900, None)]);
    assert_eq!(t.time_origin, 100);
    t.align_to(1);
    assert_eq!(t.time_origin, 900);
    assert_eq!(t.rel_time(950), 50);
    assert_eq!(t.abs_time(50), 950);
}

#[test]
fn new_rejects_invalid_inputs() {
    // no syscalls: nothing can seed the time origin
    assert!(Trace::new("t".to_string(), vec![], vec![vec![]], vec![]).is_none());
    // a completion before the start
    assert!(
        Trace::new("t".to_string(), vec![bio(0, 1, 10, Some(5))], vec![vec![]], vec![fsync(0, None)])
            .is_none()
    );
    // a stack reference outside the symbol table
    let mut b = bio(0, 1, 0, Some(1));
    b.stack_trace = 3;
    assert!(Trace::new("t".to_string(), vec![b], vec![vec![]], vec![fsync(0, None)]).is_none());
    // a syscall completion before its start
    assert!(
        Trace::new("t".to_string(), vec![], vec![vec![]], vec![fsync(10, Some(9))]).is_none()
    );
}

#[test]
fn stack_trace_lookup() {
    let stacks = vec![
        vec![("f".to_string(), "a.c:1:2".to_string())],
        vec![("g".to_string(), "b.c:3:4".to_string())],
    ];
    let mut b = bio(0, 1, 0, Some(1));
    b.stack_trace = 1;
    let t = Trace::new("t".to_string(), vec![b], stacks, vec![fsync(0, None)]).unwrap();
    let frames = t.stack_trace_of(0);
    assert_eq!(frames.len(), 1);
    assert_eq!(frames[0].0, "g");
}

#[test]
fn range_query_misses_spanning_events() {
    // The documented limitation of the two-index union: an event that
    // starts before the window and ends after it appears in neither
    // index range.
    let bios = vec![bio(0, 1, 0, Some(1000))];
    let t = mk_trace(bios, vec![fsync(0, Some(1))]);
    let r = t.range_query(100, 200);
    assert!(!r.contains(&EventIndex::Bio(0)));
}

#[test]
fn negative_timestamps_lay_out_left_of_origin() {
    let bios = vec![bio(0, 1, -30, Some(-10))];
    let mut t = mk_trace(bios, vec![fsync(0, Some(1))]);
    t.refresh_on_screen(-50, 100);
    let mut last_y: i128 = 0;
    t.layout(&mut last_y, 0, 1, 1);
    let r = t.on_screen_bio[0].1.rect;
    assert_eq!(r.min_x, -30);
    assert_eq!(r.max_x, -10);
}

#[test]
fn each_trace_keeps_its_own_origin() {
    // Two traces whose syscalls start at different absolute times show
    // the same display window at different absolute spans.
    let early = Trace::new(
        "early".to_string(),
        vec![bio(0, 1, 5, Some(8))],
        vec![vec![]],
        vec![Syscall { kind: SyscallKind::Fsync, start: 0, end: Some(1), tid: 1, stats: None }],
    )
    .unwrap();
    let late = Trace::new(
        "late".to_string(),
        vec![bio(0, 1, 1000005, Some(1000008))],
        vec![vec![]],
        vec![Syscall {
            kind: SyscallKind::Fsync,
            start: 1000000,
            end: Some(1000001),
            tid: 1,
            stats: None,
        }],
    )
    .unwrap();
    let mut early = early;
    let mut late = late;
    early.refresh_on_screen(0, 10);
    late.refresh_on_screen(0, 10);
    // both bios sit five nanoseconds after their trace's origin
    assert_eq!(early.on_screen_bio.len(), 1);
    assert_eq!(late.on_screen_bio.len(), 1);
}
