use lumen::input::keyboard::{
    is_control, key_from_code, Key, KeyBatch, KeyEvent, KeyQueue, KeyboardState, Mods, MAX_FRAME_KEYS, QUEUE,
};
use lumen::input::mouse::{Delta, MouseState};
use lumen::input::{carry_over, route, snapshot_of, Source};
use pc_keyboard::KeyCode;

fn ev(key: Key) -> KeyEvent {
    KeyEvent { key, text: None, pressed: true, mods: Mods::none() }
}

#[test]
fn status_register_routes_bytes() {
    assert_eq!(route(0x00), Source::Nothing);
    assert_eq!(route(0x20), Source::Nothing);
    assert_eq!(route(0x01), Source::Keyboard);
    assert_eq!(route(0x21), Source::Mouse);
    assert_eq!(route(0xFF), Source::Mouse);
}

#[test]
fn mouse_packet_accumulates_movement() {
    let mut m = MouseState::new();
    // A byte without bit 3 where a packet should start is noise.
    m.feed(0x00);
    assert_eq!(m.phase, 0);
    for b in [0x09u8, 5, 3] {
        m.feed(b);
    }
    assert_eq!(m.phase, 0);
    let d = m.take_delta();
    assert_eq!(d.dx, 5);
    assert_eq!(d.dy, -3);
    assert_eq!(d.buttons, 1);
    assert_eq!(d.just_pressed, 1);
    let again = m.take_delta();
    assert_eq!((again.dx, again.dy, again.just_pressed, again.buttons), (0, 0, 0, 1));
}

#[test]
fn mouse_sign_bits_extend_movement() {
    let mut m = MouseState::new();
    for b in [0x38u8, 0xFB, 0xFE] {
        m.feed(b);
    }
    let d = m.take_delta();
    assert_eq!(d.dx, -5);
    assert_eq!(d.dy, 2);
    assert_eq!(d.buttons, 0);
}

#[test]
fn mouse_just_pressed_remembers_new_buttons_only() {
    let mut m = MouseState::new();
    for b in [0x09u8, 0, 0, 0x0B, 0, 0, 0x0A, 0, 0] {
        m.feed(b);
    }
    let d = m.take_delta();
    // Left went down, then right; left released again by the end.
    assert_eq!(d.just_pressed, 0b011);
    assert_eq!(d.buttons, 0b010);
}

#[test]
fn snapshot_collects_a_frame() {
    let d = Delta { dx: 3, dy: -4, buttons: 1, just_pressed: 1 };
    let mut keys = KeyBatch::empty();
    keys.push(ev(Key::Space));
    let s = snapshot_of(d, keys);
    assert_eq!((s.mouse_dx, s.mouse_dy, s.buttons, s.buttons_just_pressed), (3, -4, 1, 1));
    assert!(s.keys.pressed(Key::Space));
    let c = carry_over(&s);
    assert_eq!((c.mouse_dx, c.mouse_dy, c.buttons, c.buttons_just_pressed), (0, 0, 1, 0));
    assert_eq!(c.keys.len(), 0);
}

#[test]
fn key_batch_keeps_order_and_caps() {
    let mut b = KeyBatch::empty();
    assert_eq!(b.len(), 0);
    for i in 0..20 {
        b.push(ev(Key::Char((b'a' + i as u8) as char)));
    }
    assert_eq!(b.len(), MAX_FRAME_KEYS);
    assert_eq!(b.iter()[0].key, Key::Char('a'));
    assert_eq!(b.iter()[MAX_FRAME_KEYS - 1].key, Key::Char('l'));
    assert!(b.pressed(Key::Char('c')));
    assert!(!b.pressed(Key::Char('z')));
    let mut up = KeyBatch::empty();
    up.push(KeyEvent { key: Key::Enter, text: None, pressed: false, mods: Mods::none() });
    assert!(!up.pressed(Key::Enter));
}

#[test]
fn key_queue_hands_out_frames_and_counts_drops() {
    let mut q = KeyQueue::new();
    for i in 0..40u32 {
        q.push(ev(Key::Char(char::from_u32(0x41 + i).unwrap())));
    }
    let (first, dropped) = q.take_events();
    assert_eq!(dropped, (40 - QUEUE) as u32);
    assert_eq!(first.len(), MAX_FRAME_KEYS);
    assert_eq!(first.iter()[0].key, Key::Char('A'));
    let (second, d2) = q.take_events();
    assert_eq!(d2, 0);
    assert_eq!(second.iter()[0].key, Key::Char(char::from_u32(0x41 + MAX_FRAME_KEYS as u32).unwrap()));
    let (third, _) = q.take_events();
    assert_eq!(third.len(), QUEUE - 2 * MAX_FRAME_KEYS);
    let (fourth, _) = q.take_events();
    assert_eq!(fourth.len(), 0);
    // The ring wraps around.
    q.push(ev(Key::Tab));
    let (fifth, _) = q.take_events();
    assert_eq!(fifth.iter()[0].key, Key::Tab);
}

#[test]
fn key_codes_map_to_keys() {
    assert_eq!(key_from_code(KeyCode::A), Key::Char('a'));
    assert_eq!(key_from_code(KeyCode::Z), Key::Char('z'));
    assert_eq!(key_from_code(KeyCode::R), Key::Char('r'));
    assert_eq!(key_from_code(KeyCode::Key1), Key::Char('1'));
    assert_eq!(key_from_code(KeyCode::Numpad0), Key::Char('0'));
    assert_eq!(key_from_code(KeyCode::Numpad7), Key::Char('7'));
    assert_eq!(key_from_code(KeyCode::Spacebar), Key::Space);
    assert_eq!(key_from_code(KeyCode::Return), Key::Enter);
    assert_eq!(key_from_code(KeyCode::NumpadEnter), Key::Enter);
    assert_eq!(key_from_code(KeyCode::Escape), Key::Escape);
    assert_eq!(key_from_code(KeyCode::Backspace), Key::Backspace);
    assert_eq!(key_from_code(KeyCode::Tab), Key::Tab);
    assert_eq!(key_from_code(KeyCode::ArrowLeft), Key::Left);
    assert_eq!(key_from_code(KeyCode::ArrowRight), Key::Right);
    assert_eq!(key_from_code(KeyCode::ArrowUp), Key::Up);
    assert_eq!(key_from_code(KeyCode::ArrowDown), Key::Down);
    assert_eq!(key_from_code(KeyCode::F1), Key::Other);
    assert_eq!(key_from_code(KeyCode::LShift), Key::Other);
}

#[test]
fn every_letter_and_digit_maps_to_itself() {
    let letters = [
        KeyCode::A, KeyCode::B, KeyCode::C, KeyCode::D, KeyCode::E, KeyCode::F, KeyCode::G, KeyCode::H, KeyCode::I,
        KeyCode::J, KeyCode::K, KeyCode::L, KeyCode::M, KeyCode::N, KeyCode::O, KeyCode::P, KeyCode::Q, KeyCode::R,
        KeyCode::S, KeyCode::T, KeyCode::U, KeyCode::V, KeyCode::W, KeyCode::X, KeyCode::Y, KeyCode::Z,
    ];
    for (i, code) in letters.iter().enumerate() {
        assert_eq!(key_from_code(*code), Key::Char((b'a' + i as u8) as char));
    }
    let digits = [
        (KeyCode::Key0, KeyCode::Numpad0), (KeyCode::Key1, KeyCode::Numpad1), (KeyCode::Key2, KeyCode::Numpad2),
        (KeyCode::Key3, KeyCode::Numpad3), (KeyCode::Key4, KeyCode::Numpad4), (KeyCode::Key5, KeyCode::Numpad5),
        (KeyCode::Key6, KeyCode::Numpad6), (KeyCode::Key7, KeyCode::Numpad7), (KeyCode::Key8, KeyCode::Numpad8),
        (KeyCode::Key9, KeyCode::Numpad9),
    ];
    for (i, (row, pad)) in digits.iter().enumerate() {
        let want = Key::Char((b'0' + i as u8) as char);
        assert_eq!(key_from_code(*row), want);
        assert_eq!(key_from_code(*pad), want);
    }
}

#[test]
fn control_characters_are_recognised() {
    assert!(is_control('\n'));
    assert!(is_control('\u{7f}'));
    assert!(is_control('\u{9f}'));
    assert!(!is_control('a'));
    assert!(!is_control('\u{a0}'));
}

#[test]
fn scancodes_become_key_events() {
    let mut k = KeyboardState::new();
    // Set 1: 0x1E is A going down, 0x9E the same key coming up.
    k.process_byte(0x1E);
    k.process_byte(0x9E);
    let (batch, dropped) = k.take_events();
    assert_eq!(dropped, 0);
    assert_eq!(batch.len(), 2);
    let down = batch.iter()[0];
    assert_eq!(down.key, Key::Char('a'));
    assert!(down.pressed);
    assert_eq!(down.text, Some('a'));
    assert!(!batch.iter()[1].pressed);
}

#[test]
fn shift_is_tracked_and_shapes_text() {
    let mut k = KeyboardState::new();
    k.process_byte(0x2A); // left shift down
    k.process_byte(0x1E); // A down
    let (batch, _) = k.take_events();
    assert_eq!(batch.len(), 2);
    assert!(batch.iter()[0].mods.shift);
    let a = batch.iter()[1];
    assert!(a.mods.shift);
    assert_eq!(a.text, Some('A'));
    assert_eq!(a.key, Key::Char('a'));
}

#[test]
fn record_drops_control_text() {
    let mut k = KeyboardState::new();
    k.record(30, true, Some('\u{8}'));
    let (batch, _) = k.take_events();
    assert_eq!(batch.iter()[0].key, Key::Backspace);
    assert_eq!(batch.iter()[0].text, None);
}

#[test]
fn mouse_travel_fills_an_i32() {
    let mut m = MouseState::new();
    m.accum_dx = i32::MAX - 10;
    m.feed(0x08);
    m.feed(11);
    assert_eq!(m.phase, 2);
    assert!(!m.can_feed(0));
    m.bytes[1] = 10;
    assert!(m.can_feed(0));
    m.feed(0);
    assert_eq!(m.take_delta().dx, i32::MAX);
}

#[test]
fn extended_and_unknown_scancodes() {
    let mut k = KeyboardState::new();
    // 0xE0 0x48 is the up arrow; 0xE0 alone completes nothing.
    k.process_byte(0xE0);
    let (none, _) = k.take_events();
    assert_eq!(none.len(), 0);
    k.process_byte(0x48);
    k.process_byte(0x1C); // Enter down
    let (batch, _) = k.take_events();
    assert_eq!(batch.len(), 2);
    assert_eq!(batch.iter()[0].key, Key::Up);
    assert_eq!(batch.iter()[0].text, None);
    assert_eq!(batch.iter()[1].key, Key::Enter);
}

#[test]
fn queue_counts_waiting_events() {
    let mut q = KeyQueue::new();
    assert_eq!(q.len(), 0);
    for _ in 0..QUEUE + 2 {
        q.push(ev(Key::Space));
    }
    assert_eq!(q.len(), QUEUE);
    assert_eq!(q.dropped(), 2);
}
