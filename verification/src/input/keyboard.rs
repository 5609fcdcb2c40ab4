use vstd::prelude::*;
use pc_keyboard::{KeyCode, Keyboard, ScancodeSet1};
use pc_keyboard::KeyEvent as PcKeyEvent;
use pc_keyboard::layouts::Us104Key;

verus! {

/// How many key events one frame hands on; the rest wait for the next.
pub const MAX_FRAME_KEYS: usize = 12;

/// How many key events wait between frames before new ones are dropped.
pub const QUEUE: usize = 32;

/// The modifier keys held when a key event happened.
#[derive(Copy, Clone, PartialEq, Eq, Debug, Structural)]
pub struct Mods {
    pub shift: bool,
    pub ctrl: bool,
    pub alt: bool,
}

impl Mods {
    pub fn none() -> (m: Mods)
        ensures m == (Mods { shift: false, ctrl: false, alt: false }),
    {
        Mods { shift: false, ctrl: false, alt: false }
    }
}

/// The keys the shell and apps tell apart.
#[derive(Copy, Clone, PartialEq, Eq, Debug, Structural)]
pub enum Key {
    Char(char),
    Space,
    Enter,
    Backspace,
    Escape,
    Tab,
    Left,
    Right,
    Up,
    Down,
    Other,
}

/// A key going down or up, with the text it types, if any.
#[derive(Copy, Clone, PartialEq, Eq, Debug, Structural)]
pub struct KeyEvent {
    pub key: Key,
    pub text: Option<char>,
    pub pressed: bool,
    pub mods: Mods,
}

impl KeyEvent {
    /// The event that fills unused slots: an unknown key, released, nothing held.
    pub fn none() -> (e: KeyEvent)
        ensures e == (KeyEvent { key: Key::Other, text: None, pressed: false, mods: Mods { shift: false, ctrl: false, alt: false } }),
    {
        KeyEvent { key: Key::Other, text: None, pressed: false, mods: Mods::none() }
    }
}

/// The key events of one frame, at most `MAX_FRAME_KEYS`, in order.
#[derive(Copy, Clone)]
pub struct KeyBatch {
    events: [KeyEvent; MAX_FRAME_KEYS],
    len: usize,
}

impl KeyBatch {
    /// The events, oldest first.
    pub closed spec fn view(&self) -> Seq<KeyEvent> {
        self.events@.take(self.len as int)
    }

    pub closed spec fn len_spec(&self) -> int {
        self.len as int
    }

    pub closed spec fn wf(&self) -> bool {
        self.len <= MAX_FRAME_KEYS
    }

    /// A batch holds at most `MAX_FRAME_KEYS` events, as many as its length.
    pub proof fn lemma_bounded(&self)
        requires self.wf(),
        ensures
            self@.len() <= MAX_FRAME_KEYS,
            self@.len() == self.len_spec(),
    {
    }

    pub fn empty() -> (b: KeyBatch)
        ensures
            b.wf(),
            b@ == Seq::<KeyEvent>::empty(),
            b.len_spec() == 0,
    {
        let e = KeyEvent::none();
        let b = KeyBatch { events: [e, e, e, e, e, e, e, e, e, e, e, e], len: 0 };
        proof { assert(b@ =~= Seq::<KeyEvent>::empty()); }
        b
    }

    /// The events, oldest first.
    pub fn iter(&self) -> (s: &[KeyEvent])
        requires self.wf(),
        ensures s@ == self@,
    {
        &self.events[0..self.len]
    }

    pub fn len(&self) -> (n: usize)
        requires self.wf(),
        ensures n == self@.len(),
    {
        self.len
    }

    /// Whether `key` went down during the frame.
    pub fn pressed(&self, key: Key) -> (b: bool)
        requires self.wf(),
        ensures b == exists|i: int| 0 <= i < self@.len() && #[trigger] self@[i].pressed && self@[i].key == key,
    {
        let mut i: usize = 0;
        while i < self.len
            invariant
                self.wf(),
                i <= self.len,
                forall|j: int| 0 <= j < i ==> !(#[trigger] self@[j].pressed && self@[j].key == key),
            decreases self.len - i,
        {
            let e = self.events[i];
            if e.pressed && e.key == key {
                assert(self@[i as int].pressed && self@[i as int].key == key);
                return true;
            }
            i += 1;
        }
        false
    }

    /// Appends an event; a full batch drops it.
    pub fn push(&mut self, event: KeyEvent)
        requires old(self).wf(),
        ensures
            final(self).wf(),
            final(self)@.len() <= MAX_FRAME_KEYS,
            old(self)@.len() < MAX_FRAME_KEYS ==> final(self)@ == old(self)@.push(event),
            old(self)@.len() == MAX_FRAME_KEYS ==> final(self)@ == old(self)@,
    {
        if self.len < MAX_FRAME_KEYS {
            let ghost pre = self@;
            self.events[self.len] = event;
            self.len += 1;
            proof { assert(self@ =~= pre.push(event)); }
        }
    }
}

/// Key events waiting between frames, oldest first, in a ring buffer.
pub struct KeyQueue {
    queue: [KeyEvent; QUEUE],
    head: usize,
    len: usize,
    dropped: u32,
}

impl KeyQueue {
    /// The waiting events, oldest first.
    pub closed spec fn view(&self) -> Seq<KeyEvent> {
        Seq::new(self.len as nat, |i: int| self.queue@[(self.head + i) % (QUEUE as int)])
    }

    /// How many events were lost to a full queue since the count was last
    /// taken.
    pub closed spec fn dropped_spec(&self) -> int {
        self.dropped as int
    }

    pub closed spec fn wf(&self) -> bool {
        self.head < QUEUE && self.len <= QUEUE
    }

    /// How many events were dropped since the last take.
    pub fn dropped(&self) -> (n: u32)
        ensures n == self.dropped_spec(),
    {
        self.dropped
    }

    /// How many events wait.
    pub fn len(&self) -> (n: usize)
        requires self.wf(),
        ensures n == self@.len(),
    {
        self.len
    }

    pub fn new() -> (q: KeyQueue)
        ensures
            q.wf(),
            q@ == Seq::<KeyEvent>::empty(),
            q.dropped_spec() == 0,
    {
        let e = KeyEvent::none();
        let q = KeyQueue {
            queue: [e, e, e, e, e, e, e, e, e, e, e, e, e, e, e, e, e, e, e, e, e, e, e, e, e, e, e, e, e, e, e, e],
            head: 0,
            len: 0,
            dropped: 0,
        };
        proof { assert(q@ =~= Seq::<KeyEvent>::empty()); }
        q
    }

    /// Queues an event; a full queue drops it and counts the loss.
    pub fn push(&mut self, event: KeyEvent)
        requires
            old(self).wf(),
            old(self)@.len() == QUEUE ==> old(self).dropped_spec() < u32::MAX,
        ensures
            final(self).wf(),
            old(self)@.len() < QUEUE ==> final(self)@ == old(self)@.push(event)
                && final(self).dropped_spec() == old(self).dropped_spec(),
            old(self)@.len() == QUEUE ==> final(self)@ == old(self)@
                && final(self).dropped_spec() == old(self).dropped_spec() + 1,
    {
        if self.len == QUEUE {
            self.dropped += 1;
            proof { assert(self@ =~= old(self)@); }
            return;
        }
        let ghost pre = self@;
        let slot = (self.head + self.len) % QUEUE;
        self.queue[slot] = event;
        self.len += 1;
        proof {
            let h = self.head as int;
            let n = pre.len() as int;
            assert(slot == (h + n) % 32);
            assert forall|i: int| 0 <= i < n implies #[trigger] self@[i] == pre[i] by {
                assert((h + i) % 32 != (h + n) % 32) by (nonlinear_arith)
                    requires 0 <= i < n, n < 32, 0 <= h < 32;
            }
            assert(self@ =~= pre.push(event));
        }
    }

    /// Takes up to `MAX_FRAME_KEYS` of the oldest events as one frame's
    /// batch, along with the count of events lost since the last take,
    /// which it resets.
    pub fn take_events(&mut self) -> (r: (KeyBatch, u32))
        requires old(self).wf(),
        ensures
            final(self).wf(),
            ({
                let n = if old(self)@.len() < MAX_FRAME_KEYS { old(self)@.len() as int } else { MAX_FRAME_KEYS as int };
                &&& r.0.wf()
                &&& r.0@ == old(self)@.take(n)
                &&& final(self)@ == old(self)@.skip(n)
            }),
            r.1 == old(self).dropped_spec(),
            final(self).dropped_spec() == 0,
    {
        let ghost orig = self@;
        let mut batch = KeyBatch::empty();
        while self.len > 0 && batch.len < MAX_FRAME_KEYS
            invariant
                self.wf(),
                batch.wf(),
                batch@.len() + self@.len() == orig.len(),
                batch@ == orig.take(batch@.len() as int),
                self@ == orig.skip(batch@.len() as int),
                self.dropped == old(self).dropped,
            decreases self.len,
        {
            let event = self.queue[self.head];
            let ghost pre = self@;
            let ghost h0 = self.head as int;
            self.head = (self.head + 1) % QUEUE;
            self.len -= 1;
            proof {
                assert(pre[0] == event) by {
                    assert((h0 + 0) % 32 == h0) by (nonlinear_arith) requires 0 <= h0 < 32;
                }
                let h1 = self.head as int;
                assert forall|i: int| 0 <= i < self@.len() implies self@[i] == pre[i + 1] by {
                    assert((h0 + (i + 1)) % 32 == (h1 + i) % 32) by (nonlinear_arith)
                        requires h1 == (h0 + 1) % 32, 0 <= h0 < 32, 0 <= i;
                }
            }
            batch.push(event);
            proof {
                assert(self@ =~= pre.skip(1));
                assert(batch@ =~= orig.take(batch@.len() as int));
                assert(self@ =~= orig.skip(batch@.len() as int));
            }
        }
        let dropped = self.dropped;
        self.dropped = 0;
        (batch, dropped)
    }
}

#[verifier::external_type_specification]
#[verifier::external_body]
pub struct ExKeyCode(KeyCode);

/// `pc_keyboard`'s `Keyboard` with the US layout and scancode set 1. Verus
/// does not see inside it; the type is held here rather than declared
/// because its parameters are bound by `pc_keyboard`'s own traits, which a
/// declaration cannot name.
#[verifier::external_body]
struct DecoderCore {
    kbd: Keyboard<Us104Key, ScancodeSet1>,
}

/// The scancode decoder this kernel uses, with what it has been fed so far:
/// the scancode bytes, and the key events (key code position and state)
/// handed to it for mapping. Both histories are written only by the calls
/// into `pc_keyboard` below, so they are exactly what the decoder has seen.
pub struct Decoder {
    core: DecoderCore,
    bytes: Ghost<Seq<u8>>,
    events: Ghost<Seq<(u8, u8)>>,
}

impl Decoder {
    /// The scancode bytes fed to the decoder since it was made.
    pub closed spec fn bytes(&self) -> Seq<u8> {
        self.bytes@
    }

    /// The key events the decoder has mapped since it was made: key code
    /// position, and state (0 down, 1 up, 2 single shot).
    pub closed spec fn events(&self) -> Seq<(u8, u8)> {
        self.events@
    }
}

/// What `pc_keyboard`'s `Keyboard::add_byte` (scancode set 1) returns for
/// `byte` after a fresh decoder has been fed `fed`: the key code position
/// and state (0 down, 1 up, 2 single shot) of a completed key event, or
/// `None` for an incomplete sequence or an error. The scancode state machine
/// reads nothing but the bytes it is fed.
pub uninterp spec fn scancode_event(fed: Seq<u8>, byte: u8) -> Option<(u8, u8)>;

/// What `pc_keyboard`'s `Keyboard::process_keyevent` (US layout, control
/// characters left alone) returns for the key event `(code, state)` after a
/// fresh decoder has mapped `seen`, when it is a character; `None` for a raw
/// key or no key. The modifiers it tracks come from those events alone.
pub uninterp spec fn key_text(seen: Seq<(u8, u8)>, code: u8, state: u8) -> Option<char>;

/// A fresh decoder from `pc_keyboard`'s `Keyboard::new`, with control
/// characters left alone (`HandleControl::Ignore`); it has been fed nothing.
#[verifier::external_body]
fn new_decoder() -> (d: Decoder)
    ensures
        d.bytes() == Seq::<u8>::empty(),
        d.events() == Seq::<(u8, u8)>::empty(),
{
    let kbd = Keyboard::new(ScancodeSet1::new(), Us104Key, pc_keyboard::HandleControl::Ignore);
    Decoder { core: DecoderCore { kbd }, bytes: Ghost(Seq::empty()), events: Ghost(Seq::empty()) }
}

/// Feeds one scancode byte to `pc_keyboard`'s `Keyboard::add_byte`, which
/// returns a key event once a whole key code has arrived; errors and
/// incomplete sequences both come back as `None`. The event comes back as
/// its key code and its state as a number (0 down, 1 up, 2 single shot);
/// the result is `scancode_event` of the bytes fed before, and the byte is
/// added to them.
#[verifier::external_body]
fn decoder_add_byte(kbd: &mut Decoder, byte: u8) -> (r: Option<(KeyCode, u8)>)
    ensures
        final(kbd).bytes() == old(kbd).bytes().push(byte),
        final(kbd).events() == old(kbd).events(),
        match r {
            Some((c, s)) => s < 3 && scancode_event(old(kbd).bytes(), byte) == Some((key_code_position(c), s)),
            None => scancode_event(old(kbd).bytes(), byte) is None,
        },
{
    let r = match kbd.core.kbd.add_byte(byte) {
        Ok(Some(ev)) => Some((ev.code, match ev.state {
            pc_keyboard::KeyState::Down => 0u8,
            pc_keyboard::KeyState::Up => 1u8,
            pc_keyboard::KeyState::SingleShot => 2u8,
        })),
        Ok(None) => None,
        Err(_) => None,
    };
    kbd.bytes = Ghost(kbd.bytes@.push(byte));
    r
}

/// Hands the key event `code` in `state` (0 down, 1 up, 2 single shot) to
/// `pc_keyboard`'s `Keyboard::process_keyevent`, which tracks its own
/// modifiers and maps the key through the layout; returns the character
/// when it decodes to one. The result is `key_text` of the events mapped
/// before, and the event is added to them.
#[verifier::external_body]
fn decoder_process(kbd: &mut Decoder, code: KeyCode, state: u8) -> (r: Option<char>)
    requires state < 3,
    ensures
        r == key_text(old(kbd).events(), key_code_position(code), state),
        final(kbd).events() == old(kbd).events().push((key_code_position(code), state)),
        final(kbd).bytes() == old(kbd).bytes(),
{
    let st = match state {
        0 => pc_keyboard::KeyState::Down,
        1 => pc_keyboard::KeyState::Up,
        _ => pc_keyboard::KeyState::SingleShot,
    };
    let r = match kbd.core.kbd.process_keyevent(PcKeyEvent::new(code, st)) {
        Some(pc_keyboard::DecodedKey::Unicode(c)) => Some(c),
        Some(pc_keyboard::DecodedKey::RawKey(_)) => None,
        None => None,
    };
    kbd.events = Ghost(kbd.events@.push((key_code_position(code), state)));
    r
}

/// The position of a `KeyCode` in `pc_keyboard`'s declaration: the enum is
/// `repr(u8)` and declares no values, so `as u8` gives that position.
pub uninterp spec fn key_code_position(code: KeyCode) -> u8;

/// The discriminant of a `KeyCode`: its position in the declaration.
#[verifier::external_body]
fn code_number(code: KeyCode) -> (r: u8)
    ensures r == key_code_position(code),
{
    code as u8
}

/// The key a `pc_keyboard` key code (given by its position in the enum)
/// stands for: letters and digits, main row and keypad alike, the few
/// named keys the shell uses, and `Other` for the rest.
pub open spec fn key_of(n: u8) -> Key {
    if n == 0 { Key::Escape }
    else if n == 18 { Key::Char('1') }
    else if n == 19 { Key::Char('2') }
    else if n == 20 { Key::Char('3') }
    else if n == 21 { Key::Char('4') }
    else if n == 22 { Key::Char('5') }
    else if n == 23 { Key::Char('6') }
    else if n == 24 { Key::Char('7') }
    else if n == 25 { Key::Char('8') }
    else if n == 26 { Key::Char('9') }
    else if n == 27 { Key::Char('0') }
    else if n == 30 { Key::Backspace }
    else if n == 38 { Key::Tab }
    else if n == 39 { Key::Char('q') }
    else if n == 40 { Key::Char('w') }
    else if n == 41 { Key::Char('e') }
    else if n == 42 { Key::Char('r') }
    else if n == 43 { Key::Char('t') }
    else if n == 44 { Key::Char('y') }
    else if n == 45 { Key::Char('u') }
    else if n == 46 { Key::Char('i') }
    else if n == 47 { Key::Char('o') }
    else if n == 48 { Key::Char('p') }
    else if n == 56 { Key::Char('7') }
    else if n == 57 { Key::Char('8') }
    else if n == 58 { Key::Char('9') }
    else if n == 61 { Key::Char('a') }
    else if n == 62 { Key::Char('s') }
    else if n == 63 { Key::Char('d') }
    else if n == 64 { Key::Char('f') }
    else if n == 65 { Key::Char('g') }
    else if n == 66 { Key::Char('h') }
    else if n == 67 { Key::Char('j') }
    else if n == 68 { Key::Char('k') }
    else if n == 69 { Key::Char('l') }
    else if n == 72 { Key::Enter }
    else if n == 73 { Key::Char('4') }
    else if n == 74 { Key::Char('5') }
    else if n == 75 { Key::Char('6') }
    else if n == 77 { Key::Char('z') }
    else if n == 78 { Key::Char('x') }
    else if n == 79 { Key::Char('c') }
    else if n == 80 { Key::Char('v') }
    else if n == 81 { Key::Char('b') }
    else if n == 82 { Key::Char('n') }
    else if n == 83 { Key::Char('m') }
    else if n == 88 { Key::Up }
    else if n == 89 { Key::Char('1') }
    else if n == 90 { Key::Char('2') }
    else if n == 91 { Key::Char('3') }
    else if n == 92 { Key::Enter }
    else if n == 96 { Key::Space }
    else if n == 101 { Key::Left }
    else if n == 102 { Key::Down }
    else if n == 103 { Key::Right }
    else if n == 104 { Key::Char('0') }
    else { Key::Other }
}

/// The key code positions of the modifier keys: both shifts, both controls,
/// left alt and right alt-gr.
pub open spec fn is_shift(n: u8) -> bool { n == 76 || n == 87 }

pub open spec fn is_ctrl(n: u8) -> bool { n == 93 || n == 100 }

pub open spec fn is_alt(n: u8) -> bool { n == 95 || n == 97 }

pub fn key_from_number(n: u8) -> (k: Key)
    ensures k == key_of(n),
{
    if n == 0 { Key::Escape }
    else if n == 18 { Key::Char('1') }
    else if n == 19 { Key::Char('2') }
    else if n == 20 { Key::Char('3') }
    else if n == 21 { Key::Char('4') }
    else if n == 22 { Key::Char('5') }
    else if n == 23 { Key::Char('6') }
    else if n == 24 { Key::Char('7') }
    else if n == 25 { Key::Char('8') }
    else if n == 26 { Key::Char('9') }
    else if n == 27 { Key::Char('0') }
    else if n == 30 { Key::Backspace }
    else if n == 38 { Key::Tab }
    else if n == 39 { Key::Char('q') }
    else if n == 40 { Key::Char('w') }
    else if n == 41 { Key::Char('e') }
    else if n == 42 { Key::Char('r') }
    else if n == 43 { Key::Char('t') }
    else if n == 44 { Key::Char('y') }
    else if n == 45 { Key::Char('u') }
    else if n == 46 { Key::Char('i') }
    else if n == 47 { Key::Char('o') }
    else if n == 48 { Key::Char('p') }
    else if n == 56 { Key::Char('7') }
    else if n == 57 { Key::Char('8') }
    else if n == 58 { Key::Char('9') }
    else if n == 61 { Key::Char('a') }
    else if n == 62 { Key::Char('s') }
    else if n == 63 { Key::Char('d') }
    else if n == 64 { Key::Char('f') }
    else if n == 65 { Key::Char('g') }
    else if n == 66 { Key::Char('h') }
    else if n == 67 { Key::Char('j') }
    else if n == 68 { Key::Char('k') }
    else if n == 69 { Key::Char('l') }
    else if n == 72 { Key::Enter }
    else if n == 73 { Key::Char('4') }
    else if n == 74 { Key::Char('5') }
    else if n == 75 { Key::Char('6') }
    else if n == 77 { Key::Char('z') }
    else if n == 78 { Key::Char('x') }
    else if n == 79 { Key::Char('c') }
    else if n == 80 { Key::Char('v') }
    else if n == 81 { Key::Char('b') }
    else if n == 82 { Key::Char('n') }
    else if n == 83 { Key::Char('m') }
    else if n == 88 { Key::Up }
    else if n == 89 { Key::Char('1') }
    else if n == 90 { Key::Char('2') }
    else if n == 91 { Key::Char('3') }
    else if n == 92 { Key::Enter }
    else if n == 96 { Key::Space }
    else if n == 101 { Key::Left }
    else if n == 102 { Key::Down }
    else if n == 103 { Key::Right }
    else if n == 104 { Key::Char('0') }
    else { Key::Other }
}

/// The key a `pc_keyboard` key code stands for: the table entry `key_of`
/// for the code's position in `pc_keyboard`'s declaration.
pub fn key_from_code(code: KeyCode) -> (k: Key)
    ensures k == key_of(key_code_position(code)),
{
    key_from_number(code_number(code))
}

/// A control character (Unicode general category Cc): U+0000 to U+001F and
/// U+007F to U+009F.
pub open spec fn is_control_spec(c: char) -> bool {
    (c as u32) <= 0x1F || (0x7F <= (c as u32) && (c as u32) <= 0x9F)
}

pub fn is_control(c: char) -> (b: bool)
    ensures b == is_control_spec(c),
{
    let v = c as u32;
    v <= 0x1F || (0x7F <= v && v <= 0x9F)
}

/// The modifiers after key code `n` goes down (`pressed`) or up.
pub open spec fn mods_after(m: Mods, n: u8, pressed: bool) -> Mods {
    if is_shift(n) {
        Mods { shift: pressed, ..m }
    } else if is_ctrl(n) {
        Mods { ctrl: pressed, ..m }
    } else if is_alt(n) {
        Mods { alt: pressed, ..m }
    } else {
        m
    }
}

/// What recording key code position `n` (gone down or up, typing `text`)
/// does to the modifiers and the queue: modifier keys update the modifiers,
/// and the event queued carries the key, the text unless it is a control
/// character, and the modifiers as they now stand; a full queue drops the
/// event and counts it.
pub open spec fn recorded(mods: Mods, queue: KeyQueue, mods2: Mods, queue2: KeyQueue, n: u8, pressed: bool,
    text: Option<char>) -> bool {
    let e = KeyEvent {
        key: key_of(n),
        text: match text { Some(c) => if is_control_spec(c) { None } else { Some(c) }, None => None },
        pressed,
        mods: mods2,
    };
    &&& queue2.wf()
    &&& mods2 == mods_after(mods, n, pressed)
    &&& queue@.len() < QUEUE ==> queue2@ == queue@.push(e) && queue2.dropped_spec() == queue.dropped_spec()
    &&& queue@.len() == QUEUE ==> queue2@ == queue@ && queue2.dropped_spec() == queue.dropped_spec() + 1
}

/// The keyboard driver's state: the scancode decoder, the modifiers held,
/// and the events waiting for the next frame.
pub struct KeyboardState {
    pub kbd: Decoder,
    pub mods: Mods,
    pub queue: KeyQueue,
}

impl KeyboardState {
    pub fn new() -> (s: KeyboardState)
        ensures
            s.queue.wf(),
            s.queue@ == Seq::<KeyEvent>::empty(),
            s.mods == (Mods { shift: false, ctrl: false, alt: false }),
            s.kbd.bytes() == Seq::<u8>::empty(),
            s.kbd.events() == Seq::<(u8, u8)>::empty(),
    {
        KeyboardState { kbd: new_decoder(), mods: Mods::none(), queue: KeyQueue::new() }
    }

    /// Records a decoded key event: key code position `n`, gone down or up,
    /// typing `text`. Modifier keys update the modifiers first; the event
    /// queued carries the key, the text if it is not a control character,
    /// and the modifiers as they now stand.
    pub fn record(&mut self, n: u8, pressed: bool, text: Option<char>)
        requires
            old(self).queue.wf(),
            old(self).queue@.len() == QUEUE ==> old(self).queue.dropped_spec() < u32::MAX,
        ensures
            recorded(old(self).mods, old(self).queue, final(self).mods, final(self).queue, n, pressed, text),
            final(self).kbd == old(self).kbd,
    {
        if n == 76 || n == 87 {
            self.mods.shift = pressed;
        } else if n == 93 || n == 100 {
            self.mods.ctrl = pressed;
        } else if n == 95 || n == 97 {
            self.mods.alt = pressed;
        }
        let text = match text {
            Some(c) => if is_control(c) { None } else { Some(c) },
            None => None,
        };
        let mods = self.mods;
        self.queue.push(KeyEvent { key: key_from_number(n), text, pressed, mods });
    }

    /// Feeds one scancode byte from the controller to the decoder. Once a
    /// whole key event has been decoded it is mapped by the decoder and
    /// recorded as `record` describes (gone down unless its state is up);
    /// until then nothing changes but the decoder.
    pub fn process_byte(&mut self, scancode: u8)
        requires
            old(self).queue.wf(),
            old(self).queue@.len() == QUEUE ==> old(self).queue.dropped_spec() < u32::MAX,
        ensures
            final(self).queue.wf(),
            final(self).kbd.bytes() == old(self).kbd.bytes().push(scancode),
            match scancode_event(old(self).kbd.bytes(), scancode) {
                Some((n, st)) => {
                    &&& final(self).kbd.events() == old(self).kbd.events().push((n, st))
                    &&& recorded(old(self).mods, old(self).queue, final(self).mods, final(self).queue, n,
                        st != 1, key_text(old(self).kbd.events(), n, st))
                },
                None => {
                    &&& final(self).kbd.events() == old(self).kbd.events()
                    &&& final(self).mods == old(self).mods
                    &&& final(self).queue@ == old(self).queue@
                    &&& final(self).queue.dropped_spec() == old(self).queue.dropped_spec()
                },
            },
    {
        let (code, state) = match decoder_add_byte(&mut self.kbd, scancode) {
            Some(e) => e,
            None => return,
        };
        let n = code_number(code);
        let text = decoder_process(&mut self.kbd, code, state);
        self.record(n, state != 1, text);
    }

    /// Takes the next frame's batch of key events and the count of events
    /// lost since the last take.
    pub fn take_events(&mut self) -> (r: (KeyBatch, u32))
        requires old(self).queue.wf(),
        ensures
            final(self).queue.wf(),
            ({
                let q = old(self).queue@;
                let n = if q.len() < MAX_FRAME_KEYS { q.len() as int } else { MAX_FRAME_KEYS as int };
                &&& r.0.wf()
                &&& r.0@ == q.take(n)
                &&& final(self).queue@ == q.skip(n)
            }),
            r.1 == old(self).queue.dropped_spec(),
            final(self).queue.dropped_spec() == 0,
            final(self).mods == old(self).mods,
            final(self).kbd == old(self).kbd,
    {
        self.queue.take_events()
    }
}

/// Each modifier follows its own keys and no others: after recording key
/// code position `n`, the shift flag is `pressed` if `n` is `LShift` (76) or
/// `RShift` (87) and unchanged otherwise, the control flag likewise for
/// `LControl` (93) and `RControl` (100), and the alt flag for `LAlt` (95)
/// and `RAltGr` (97), their positions in `pc_keyboard`'s `KeyCode`. The queued event carries the flags as
/// they now stand.
pub proof fn lemma_modifiers_follow_their_keys(mods: Mods, queue: KeyQueue, mods2: Mods, queue2: KeyQueue, n: u8,
    pressed: bool, text: Option<char>)
    requires
        queue.wf(),
        recorded(mods, queue, mods2, queue2, n, pressed, text),
    ensures
        mods2.shift == (if n == 76 || n == 87 { pressed } else { mods.shift }),
        mods2.ctrl == (if n == 93 || n == 100 { pressed } else { mods.ctrl }),
        mods2.alt == (if n == 95 || n == 97 { pressed } else { mods.alt }),
        queue@.len() < QUEUE ==> queue2@.last().mods == mods2 && queue2@.last().pressed == pressed,
{
}

} // verus!
