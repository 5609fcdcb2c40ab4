use vstd::prelude::*;
use crate::apps::AppKind;

verus! {

/// The height of a window's title bar.
pub const TITLE_BAR: i32 = 38;

/// A window's corner radius.
pub const CORNER: i32 = 20;

/// The margin between a window's edge and its app's surface.
pub const CONTENT_INSET: i32 = 8;

/// The radius of a window's close dot.
pub const CLOSE_DOT: i32 = 11;

/// The size of a window around an app's content: an inset on each side and
/// below, and the title bar above.
pub open spec fn window_size_spec(kind: AppKind) -> (int, int) {
    let (cw, ch) = match kind {
        AppKind::Ball => (460int, 300int),
        AppKind::Clock => (300int, 130int),
    };
    (cw + CONTENT_INSET * 2, ch + TITLE_BAR + CONTENT_INSET)
}

/// The outer size of a window of app `kind`.
pub fn window_size(kind: AppKind) -> (s: (i32, i32))
    ensures s.0 == window_size_spec(kind).0, s.1 == window_size_spec(kind).1,
{
    let (cw, ch) = kind.content_size();
    (cw as i32 + CONTENT_INSET * 2, ch as i32 + TITLE_BAR + CONTENT_INSET)
}

/// The centre of the close dot of a window whose settled top-left corner is
/// `(x, y)`.
pub fn close_dot(x: i32, y: i32) -> (c: (i32, i32))
    requires
        i32::MIN <= x + 20 <= i32::MAX,
        i32::MIN <= y + TITLE_BAR / 2 <= i32::MAX,
    ensures c.0 == x + 20, c.1 == y + TITLE_BAR / 2,
{
    (x + 20, y + TITLE_BAR / 2)
}

/// Moves the window at `idx` to the top of the stack (the end), keeping the
/// others in their order.
pub fn raise<T>(windows: &mut Vec<T>, idx: usize)
    requires idx < old(windows)@.len(),
    ensures final(windows)@ == old(windows)@.remove(idx as int).push(old(windows)@[idx as int]),
{
    let w = windows.remove(idx);
    windows.push(w);
}

/// The lowest window in the stack for which `hits` holds.
pub fn lowest(hits: &[bool]) -> (i: Option<usize>)
    ensures
        match i {
            Some(k) => k < hits@.len() && hits@[k as int] && forall|j: int| 0 <= j < k ==> !#[trigger] hits@[j],
            None => forall|j: int| 0 <= j < hits@.len() ==> !#[trigger] hits@[j],
        },
{
    let mut k: usize = 0;
    while k < hits.len()
        invariant
            k <= hits@.len(),
            forall|j: int| 0 <= j < k ==> !#[trigger] hits@[j],
        decreases hits@.len() - k,
    {
        if hits[k] {
            return Some(k);
        }
        k += 1;
    }
    None
}

/// The topmost window in the stack for which `hits` holds.
pub fn topmost(hits: &[bool]) -> (i: Option<usize>)
    ensures
        match i {
            Some(k) => k < hits@.len() && hits@[k as int] && forall|j: int| k < j < hits@.len() ==> !#[trigger] hits@[j],
            None => forall|j: int| 0 <= j < hits@.len() ==> !#[trigger] hits@[j],
        },
{
    let mut k: usize = hits.len();
    while k > 0
        invariant
            k <= hits@.len(),
            forall|j: int| k <= j < hits@.len() ==> !#[trigger] hits@[j],
        decreases k,
    {
        k -= 1;
        if hits[k] {
            return Some(k);
        }
    }
    None
}

/// Raising a window keeps every window on the stack exactly once and puts
/// the raised one on top.
pub proof fn lemma_raise_keeps_windows<T>(windows: Seq<T>, idx: int)
    requires 0 <= idx < windows.len(),
    ensures
        windows.remove(idx).push(windows[idx]).to_multiset() == windows.to_multiset(),
        windows.remove(idx).push(windows[idx]).last() == windows[idx],
        windows.remove(idx).push(windows[idx]).len() == windows.len(),
{
    let moved = windows.remove(idx).push(windows[idx]);
    vstd::seq_lib::lemma_multiset_commutative(windows.remove(idx), seq![windows[idx]]);
    assert(windows.remove(idx) + seq![windows[idx]] =~= moved);
    assert(windows =~= windows.take(idx) + (seq![windows[idx]] + windows.skip(idx + 1)));
    assert(windows.remove(idx) =~= windows.take(idx) + windows.skip(idx + 1));
    vstd::seq_lib::lemma_multiset_commutative(windows.take(idx), seq![windows[idx]] + windows.skip(idx + 1));
    vstd::seq_lib::lemma_multiset_commutative(seq![windows[idx]], windows.skip(idx + 1));
    vstd::seq_lib::lemma_multiset_commutative(windows.take(idx), windows.skip(idx + 1));
}

} // verus!
