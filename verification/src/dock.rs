use vstd::prelude::*;
use crate::apps::AppKind;
use crate::gfx::coverage::COORD;
use crate::gfx::rect::Rect;
use crate::gfx::shapes::tdiv;

verus! {

pub const SLOTS: usize = 6;
pub const ICON: i32 = 52;
pub const PANEL_HEIGHT: i32 = 84;
pub const PANEL_BOTTOM_MARGIN: i32 = 22;
pub const PANEL_RADIUS: i32 = 26;
pub const PANEL_INSET: i32 = 12;

/// Slack above an icon that still counts as a hit, in pixels.
pub const HIT_ABOVE: i32 = 6;

/// Slack below an icon that still counts as a hit, in pixels.
pub const HIT_BELOW: i32 = 10;

/// Which app each slot launches: the ball, then the clock. The other slots
/// are the roadmap: they are drawn so the dock has its final shape, but they
/// do nothing yet.
pub open spec fn app_in_slot_spec(slot: int) -> Option<AppKind> {
    if slot == 0 {
        Some(AppKind::Ball)
    } else if slot == 1 {
        Some(AppKind::Clock)
    } else {
        None
    }
}

/// The space between two icons of a panel `w` wide.
pub open spec fn gap_spec(w: int) -> int {
    tdiv(w - ICON * SLOTS - PANEL_INSET * 2, SLOTS - 1)
}

/// The icon square of `slot` on `panel`.
pub open spec fn icon_rect_spec(panel: Rect, slot: int) -> Rect {
    let x = panel.x0 + PANEL_INSET + slot * (ICON + gap_spec(panel.x1 - panel.x0));
    let y = panel.y0 + (PANEL_HEIGHT - ICON) / 2;
    Rect { x0: x as i32, y0: y as i32, x1: (x + ICON) as i32, y1: (y + ICON) as i32 }
}

/// Whether the point lies on the icon of `slot`, or just above or below it.
pub open spec fn slot_hit(panel: Rect, slot: int, px: int, py: int) -> bool {
    let r = icon_rect_spec(panel, slot);
    r.x0 <= px < r.x1 && r.y0 - HIT_ABOVE <= py < r.y1 + HIT_BELOW
}

/// The launcher strip along the bottom of the desktop: a glass panel with one
/// icon per app slot.
pub struct Dock {
    panel: Rect,
}

impl Dock {
    pub closed spec fn panel_spec(&self) -> Rect {
        self.panel
    }

    /// The panel's coordinates stay small enough to lay icons out on.
    pub open spec fn wf(&self) -> bool {
        &&& -COORD <= self.panel_spec().x0 <= COORD
        &&& -COORD <= self.panel_spec().y0 <= COORD
        &&& 0 <= self.panel_spec().x1 - self.panel_spec().x0 <= COORD
    }

    /// A panel `panel_w` wide, centred along the bottom of a screen
    /// `screen_w` by `screen_h`, lifted off its edge.
    pub fn new(screen_w: i32, screen_h: i32, panel_w: i32) -> (d: Dock)
        requires
            0 <= screen_w <= COORD, 0 <= screen_h <= COORD, 0 <= panel_w <= COORD,
        ensures
            d.wf(),
            d.panel_spec() == (Rect {
                x0: tdiv(screen_w - panel_w, 2) as i32,
                y0: (screen_h - PANEL_HEIGHT - PANEL_BOTTOM_MARGIN) as i32,
                x1: (tdiv(screen_w - panel_w, 2) + panel_w) as i32,
                y1: (screen_h - PANEL_BOTTOM_MARGIN) as i32,
            }),
    {
        let x = (screen_w - panel_w) / 2;
        let y = screen_h - PANEL_HEIGHT - PANEL_BOTTOM_MARGIN;
        Dock { panel: Rect::from_size(x, y, panel_w, PANEL_HEIGHT) }
    }

    pub fn rect(&self) -> (r: Rect)
        ensures r == self.panel_spec(),
    {
        self.panel
    }

    /// The app `slot` launches, if any.
    pub fn app_in_slot(slot: usize) -> (a: Option<AppKind>)
        ensures a == app_in_slot_spec(slot as int),
    {
        if slot == 0 {
            Some(AppKind::Ball)
        } else if slot == 1 {
            Some(AppKind::Clock)
        } else {
            None
        }
    }

    /// The space between two icons.
    fn gap(&self) -> (g: i32)
        requires self.wf(),
        ensures g == gap_spec(self.panel_spec().x1 - self.panel_spec().x0),
    {
        let w = self.panel.x1 - self.panel.x0;
        (w - ICON * SLOTS as i32 - PANEL_INSET * 2) / (SLOTS as i32 - 1)
    }

    /// The icon square of `slot`.
    pub fn icon_rect(&self, slot: usize) -> (r: Rect)
        requires
            self.wf(),
            slot <= i32::MAX,
            i32::MIN <= slot * (ICON + gap_spec(self.panel_spec().x1 - self.panel_spec().x0)) <= i32::MAX,
            i32::MIN <= self.panel_spec().x0 + PANEL_INSET + slot * (ICON + gap_spec(self.panel_spec().x1 - self.panel_spec().x0)),
            self.panel_spec().x0 + PANEL_INSET + slot * (ICON + gap_spec(self.panel_spec().x1 - self.panel_spec().x0)) + ICON <= i32::MAX,
        ensures r == icon_rect_spec(self.panel_spec(), slot as int),
    {
        let g = self.gap();
        let x = self.panel.x0 + PANEL_INSET + slot as i32 * (ICON + g);
        let y = self.panel.y0 + (PANEL_HEIGHT - ICON) / 2;
        Rect::from_size(x, y, ICON, ICON)
    }

    /// The slot under the pixel `(px, py)`, with vertical slack above and
    /// below the icon because 52 px squares are small targets.
    pub fn slot_at(&self, px: i32, py: i32) -> (s: Option<usize>)
        requires self.wf(),
        ensures
            match s {
                Some(slot) => slot < SLOTS && slot_hit(self.panel_spec(), slot as int, px as int, py as int)
                    && forall|t: int| 0 <= t < slot ==> !#[trigger] slot_hit(self.panel_spec(), t, px as int, py as int),
                None => forall|t: int| 0 <= t < SLOTS ==> !#[trigger] slot_hit(self.panel_spec(), t, px as int, py as int),
            },
    {
        let mut slot: usize = 0;
        while slot < SLOTS
            invariant
                self.wf(),
                slot <= SLOTS,
                forall|t: int| 0 <= t < slot ==> !#[trigger] slot_hit(self.panel_spec(), t, px as int, py as int),
            decreases SLOTS - slot,
        {
            proof {
                let g = gap_spec(self.panel_spec().x1 - self.panel_spec().x0);
                let t = slot as int;
                assert(-6 * COORD <= t * (ICON + g) <= 6 * COORD) by (nonlinear_arith)
                    requires 0 <= t <= 6, -COORD <= ICON + g <= COORD;
            }
            let r = self.icon_rect(slot);
            if px >= r.x0 && px < r.x1 && py as i64 >= r.y0 as i64 - HIT_ABOVE as i64 && (py as i64) < r.y1 as i64 + HIT_BELOW as i64 {
                return Some(slot);
            }
            slot += 1;
        }
        None
    }
}

} // verus!
