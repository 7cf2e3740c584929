use trace_explorer::coordinator::TemplateApp;
use trace_explorer::store::Trace;
use trace_explorer::trace::{Bio, Syscall, SyscallKind};
use trace_explorer::viewport::ScreenRect;

fn bio(offset: u64, size: u64, start: i64, end: Option<i64>) -> Bio {
    Bio {
        offset,
        size,
        is_metadata: false,
        is_flush: false,
        is_write: true,
        start,
        end,
        stack_trace: 0,
    }
}

fn fsync(start: i64, end: Option<i64>) -> Syscall {
    Syscall { kind: SyscallKind::Fsync, start, end, tid: 1, stats: None }
}

fn mk_app() -> TemplateApp {
    let t = Trace::new(
        "t".to_string(),
        vec![bio(0, 1, 0, Some(10)), bio(4, 1, 20, Some(30))],
        vec![vec![]],
        vec![fsync(0, Some(40))],
    )
    .unwrap();
    TemplateApp::new(vec![t]).unwrap()
}

#[test]
fn scroll_converts_pixels_to_time() {
    // 50 pixels at zoom 0.1 pixel per nanosecond move the window by
    // exactly 500 nanoseconds.
    let mut app = mk_app();
    app.zoom_num = 1;
    app.zoom_den = 10;
    app.scroll(50);
    assert_eq!(app.curr_time, 500);
    app.scroll(-50);
    assert_eq!(app.curr_time, 0);
}

#[test]
fn try_scroll_refuses_overflow() {
    let mut app = mk_app();
    app.zoom_num = 1;
    app.zoom_den = 10;
    app.curr_time = i64::MAX - 100;
    assert!(!app.try_scroll(50));
    assert_eq!(app.curr_time, i64::MAX - 100);
    assert!(app.try_scroll(-50));
    assert_eq!(app.curr_time, i64::MAX - 600);
}

#[test]
fn scroll_to_jumps() {
    let mut app = mk_app();
    app.scroll_to(123456);
    assert_eq!(app.curr_time, 123456);
}

#[test]
fn change_zoom_multiplies_and_reduces() {
    let mut app = mk_app();
    assert_eq!((app.zoom_num, app.zoom_den), (1, 100000));
    // times 10000: the product 10000 / 100000 reduces to 1 / 10
    app.change_zoom(10000, 1);
    assert_eq!((app.zoom_num, app.zoom_den), (1, 10));
    // times 9/10 then 10/9 returns to the same zoom
    app.change_zoom(9, 10);
    assert_eq!((app.zoom_num, app.zoom_den), (9, 100));
    app.change_zoom(10, 9);
    assert_eq!((app.zoom_num, app.zoom_den), (1, 10));
}

#[test]
fn try_change_zoom_refuses_unrepresentable_factor() {
    let mut app = mk_app();
    app.zoom_num = 4000000000;
    app.zoom_den = 3;
    assert!(!app.try_change_zoom(4000000001, 1));
    assert_eq!((app.zoom_num, app.zoom_den), (4000000000, 3));
    assert!(app.try_change_zoom(3, 2));
    assert_eq!((app.zoom_num, app.zoom_den), (2000000000, 1));
}

#[test]
fn zoom_at_keeps_anchor_time_fixed() {
    let mut app = mk_app();
    app.zoom_num = 1;
    app.zoom_den = 10;
    app.curr_time = 1000;
    app.set_rect(ScreenRect { min_x: 0, min_y: 0, max_x: 1000, max_y: 500 });
    // time under pixel 100 before: 1000 + 100 * 10 = 2000
    app.zoom_at(2, 1, Some(100));
    assert_eq!((app.zoom_num, app.zoom_den), (1, 5));
    assert_eq!(app.curr_time, 1500);
    // time under pixel 100 after: 1500 + 100 * 5 = 2000, unchanged
    assert_eq!(app.curr_time + 100 * (app.zoom_den as i64) / (app.zoom_num as i64), 2000);
}

#[test]
fn zoom_at_without_anchor_only_zooms() {
    let mut app = mk_app();
    app.curr_time = 777;
    app.zoom_at(2, 1, None);
    assert_eq!(app.curr_time, 777);
    assert_eq!((app.zoom_num, app.zoom_den), (1, 50000));
}

#[test]
fn set_rect_relayouts_only_on_change() {
    let mut app = mk_app();
    let r = ScreenRect { min_x: 0, min_y: 0, max_x: 200, max_y: 100 };
    assert!(app.set_rect(r));
    assert_eq!(app.rect, r);
    let extent = app.y_zoom_num;
    assert!(extent > 0);
    assert!(app.set_rect(r)); // unchanged: no recompute
    assert_eq!(app.y_zoom_num, extent);
    // a malformed rectangle is refused
    assert!(!app.set_rect(ScreenRect { min_x: 10, min_y: 0, max_x: 0, max_y: 5 }));
    assert_eq!(app.rect, r);
}

#[test]
fn layout_compresses_to_canvas_height() {
    let mut app = mk_app();
    app.zoom_num = 1;
    app.zoom_den = 1;
    // canvas 100 high; the single lane's virtual extent is far larger
    app.set_rect(ScreenRect { min_x: 0, min_y: 0, max_x: 1000, max_y: 100 });
    let t = &app.traces[0];
    assert_eq!(t.on_screen_bio.len(), 2);
    let extent = app.y_zoom_num;
    let h = app.y_zoom_den;
    assert_eq!(h, 100);
    // the first bio row starts at the compressed band position
    let r = t.on_screen_bio[0].1.rect;
    assert_eq!(r.min_y, 200 * h / extent);
    // the syscall band is compressed too
    let sr = t.on_screen_syscall[0].1.rect;
    assert_eq!(sr.min_y, 0);
    assert_eq!(sr.max_y, 50 * h / extent);
}

#[test]
fn select_through_app() {
    let mut app = mk_app();
    app.zoom_num = 1;
    app.zoom_den = 1;
    app.set_rect(ScreenRect { min_x: 0, min_y: 0, max_x: 1000, max_y: 2000 });
    // the syscall band covers x 0..40 at the canvas top
    app.select(5, 1);
    assert_eq!(app.traces[0].selected_syscall, Some(0));
    assert_eq!(app.traces[0].selected_bio, None);
}

#[test]
fn lanes_stack_per_trace() {
    let mk = |name: &str| {
        Trace::new(
            name.to_string(),
            vec![bio(0, 1, 0, Some(10))],
            vec![vec![]],
            vec![fsync(0, Some(40))],
        )
        .unwrap()
    };
    let mut app = TemplateApp::new(vec![mk("a"), mk("b")]).unwrap();
    app.zoom_num = 1;
    app.zoom_den = 1;
    app.set_rect(ScreenRect { min_x: 0, min_y: 0, max_x: 1000, max_y: 100 });
    let s0 = app.traces[0].on_screen_syscall[0].1.rect;
    let s1 = app.traces[1].on_screen_syscall[0].1.rect;
    // the second trace's band starts below the first trace's lane
    assert!(s1.min_y > s0.min_y);
}
