use lumen::apps::{ball_ink, AppKind};
use lumen::dock::Dock;
use lumen::gfx::rect::Rect;
use lumen::serial::SerialPort;
use lumen::shell::{after_press, cursor_rect_at, inside, press_outcome, settle, DateLine, PressOutcome, ShellMode};
use lumen::wm::{close_dot, lowest, raise, topmost, window_size};

#[test]
fn apps_ask_for_their_content_size() {
    assert_eq!(AppKind::Ball.content_size(), (460, 300));
    assert_eq!(AppKind::Clock.content_size(), (300, 130));
}

#[test]
fn dock_sits_centred_above_the_bottom_edge() {
    let d = Dock::new(1280, 720, 537);
    assert_eq!(d.rect(), Rect::new(371, 614, 908, 698));
    assert_eq!(d.icon_rect(0), Rect::new(383, 630, 435, 682));
    assert_eq!(d.icon_rect(1), Rect::new(475, 630, 527, 682));
    assert_eq!(d.icon_rect(5), Rect::new(843, 630, 895, 682));
}

#[test]
fn dock_slots_launch_the_first_two_apps() {
    assert_eq!(Dock::app_in_slot(0), Some(AppKind::Ball));
    assert_eq!(Dock::app_in_slot(1), Some(AppKind::Clock));
    assert_eq!(Dock::app_in_slot(2), None);
    assert_eq!(Dock::app_in_slot(99), None);
}

#[test]
fn dock_hit_testing_has_vertical_slack() {
    let d = Dock::new(1280, 720, 537);
    assert_eq!(d.slot_at(400, 650), Some(0));
    assert_eq!(d.slot_at(400, 624), Some(0));
    assert_eq!(d.slot_at(400, 623), None);
    assert_eq!(d.slot_at(400, 691), Some(0));
    assert_eq!(d.slot_at(400, 692), None);
    assert_eq!(d.slot_at(440, 650), None);
    assert_eq!(d.slot_at(476, 650), Some(1));
}

#[test]
fn ball_ink_pads_the_trail_and_adds_the_floor_shadow() {
    let r = ball_ink(&[(100, 100), (120, 90)], 110, 95, 300);
    assert_eq!(r, Rect::new(58, 48, 162, 300));
}

#[test]
fn ball_ink_of_a_still_ball_is_its_shadow() {
    let r = ball_ink(&[(50, 50), (50, 50)], 50, 50, 300);
    assert_eq!(r, Rect::new(15, 276, 85, 300));
}

#[test]
fn lock_screen_unlocks_on_click_or_space() {
    let click = press_outcome(ShellMode::Locked, true, false, None, false);
    assert_eq!(click, PressOutcome { ripple: true, unlock: true, open: None, click_for_windows: false });
    let space = press_outcome(ShellMode::Locked, false, true, Some(AppKind::Ball), true);
    assert_eq!(space, PressOutcome { ripple: false, unlock: true, open: None, click_for_windows: false });
    let idle = press_outcome(ShellMode::Locked, false, false, None, false);
    assert!(!idle.unlock && !idle.ripple);
}

#[test]
fn desktop_presses_go_to_dock_chrome_or_windows() {
    let dock = press_outcome(ShellMode::Desktop, true, false, Some(AppKind::Clock), true);
    assert_eq!(dock, PressOutcome { ripple: true, unlock: false, open: Some(AppKind::Clock), click_for_windows: false });
    let chrome = press_outcome(ShellMode::Desktop, true, false, None, true);
    assert_eq!(chrome, PressOutcome { ripple: true, unlock: false, open: None, click_for_windows: false });
    let window = press_outcome(ShellMode::Desktop, true, false, None, false);
    assert_eq!(window, PressOutcome { ripple: true, unlock: false, open: None, click_for_windows: true });
    let moving = press_outcome(ShellMode::Desktop, false, true, Some(AppKind::Ball), false);
    assert_eq!(moving, PressOutcome { ripple: false, unlock: false, open: None, click_for_windows: false });
}

#[test]
fn unlocking_launches_nothing() {
    let o = press_outcome(ShellMode::Unlocking, true, false, Some(AppKind::Ball), true);
    assert_eq!(o, PressOutcome { ripple: true, unlock: false, open: None, click_for_windows: true });
}

#[test]
fn shell_modes_move_forward() {
    assert_eq!(after_press(ShellMode::Locked, true), ShellMode::Unlocking);
    assert_eq!(after_press(ShellMode::Locked, false), ShellMode::Locked);
    assert_eq!(after_press(ShellMode::Desktop, true), ShellMode::Desktop);
    assert_eq!(settle(ShellMode::Unlocking, true), ShellMode::Desktop);
    assert_eq!(settle(ShellMode::Unlocking, false), ShellMode::Unlocking);
    assert_eq!(settle(ShellMode::Locked, true), ShellMode::Locked);
}

#[test]
fn cursor_rect_is_centred() {
    assert_eq!(cursor_rect_at(100, 50), Rect::new(76, 26, 124, 74));
}

#[test]
fn inside_is_half_open() {
    assert!(inside(5, 5, 0, 0, 10, 10));
    assert!(inside(0, 9, 0, 0, 10, 10));
    assert!(!inside(10, 5, 0, 0, 10, 10));
    assert!(!inside(5, -1, 0, 0, 10, 10));
}

#[test]
fn date_line_keeps_what_fits() {
    let mut d = DateLine::new();
    assert!(d.as_bytes().is_empty());
    d.set(b"Montag, 1. Januar");
    assert_eq!(d.as_bytes(), b"Montag, 1. Januar");
    let long = vec![b'x'; 60];
    d.set(&long);
    assert_eq!(d.as_bytes().len(), 48);
}

#[test]
fn windows_wrap_content_in_chrome() {
    assert_eq!(window_size(AppKind::Ball), (476, 346));
    assert_eq!(window_size(AppKind::Clock), (316, 176));
    assert_eq!(close_dot(10, 20), (30, 39));
}

#[test]
fn raising_moves_a_window_to_the_top() {
    let mut v = vec![1, 2, 3, 4];
    raise(&mut v, 1);
    assert_eq!(v, vec![1, 3, 4, 2]);
    raise(&mut v, 3);
    assert_eq!(v, vec![1, 3, 4, 2]);
}

#[test]
fn hit_search_from_either_end() {
    assert_eq!(lowest(&[false, true, true]), Some(1));
    assert_eq!(topmost(&[false, true, true]), Some(2));
    assert_eq!(lowest(&[false, false]), None);
    assert_eq!(topmost(&[]), None);
}

#[test]
fn serial_line_feeds_get_carriage_returns() {
    let port = SerialPort;
    assert_eq!(port.wire_bytes(b"a\nb"), b"a\r\nb".to_vec());
    assert_eq!(port.wire_bytes(b""), Vec::<u8>::new());
    assert_eq!(port.wire_bytes(b"\n\n"), b"\r\n\r\n".to_vec());
}

#[test]
fn serial_bytes_one_at_a_time() {
    let port = SerialPort;
    let (b, n) = port.encode_byte(b'\n');
    assert_eq!(&b[..n], b"\r\n");
    let (b, n) = port.encode_byte(b'x');
    assert_eq!(&b[..n], b"x");
}
