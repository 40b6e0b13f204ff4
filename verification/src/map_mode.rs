//! Map-mode state, canvas-to-display projection, and the controller's rule.
//!
//! [`MapMode`] selects which sub-region of the 224x224 canvas is rendered into
//! the 64x64 display. The controller flips the mode every [`AUTO_INTERVAL_S`]
//! seconds and listens for manual flips; on either event the snapshot is
//! rebuilt immediately so that the panel shows the new mode.
use vstd::prelude::*;
use crate::projection::{PixelCoord, DISPLAY_SIDE};

verus! {

/// Which sub-region of the canvas is being rendered. Independent of
/// [`crate::display::DisplayConfig`] and not persisted.
#[derive(Debug, Clone, Copy, PartialEq, Eq, Structural)]
pub enum MapMode {
    /// Full Netherlands view: the canvas is downsampled 3.5 times.
    Netherlands,
    /// 80 km x 80 km zoom on the Randstad, anchored at west 78000, north
    /// 496000, which is canvas pixel (62, 73).
    Randstad,
}

/// Left edge of the Randstad window in canvas pixels.
pub const RANDSTAD_OFFSET_X: u8 = 62;

/// Top edge of the Randstad window in canvas pixels.
pub const RANDSTAD_OFFSET_Y: u8 = 73;

/// Seconds between two automatic flips of the mode.
pub const AUTO_INTERVAL_S: u64 = 300;

impl MapMode {
    /// The other mode.
    pub open spec fn other(self) -> MapMode {
        match self {
            MapMode::Netherlands => MapMode::Randstad,
            MapMode::Randstad => MapMode::Netherlands,
        }
    }

    pub fn next(self) -> (r: MapMode)
        ensures
            r == self.other(),
    {
        match self {
            MapMode::Netherlands => MapMode::Randstad,
            MapMode::Randstad => MapMode::Netherlands,
        }
    }
}

/// The display pixel that shows canvas pixel `coord` in `mode`, if any does.
pub open spec fn projected(coord: PixelCoord, mode: MapMode) -> Option<PixelCoord> {
    if !coord.on_canvas() {
        None
    } else {
        match mode {
            MapMode::Netherlands => Some(
                PixelCoord { x: (coord.x * 2 / 7) as u8, y: (coord.y * 2 / 7) as u8 },
            ),
            MapMode::Randstad => if RANDSTAD_OFFSET_X <= coord.x < RANDSTAD_OFFSET_X + DISPLAY_SIDE
                && RANDSTAD_OFFSET_Y <= coord.y < RANDSTAD_OFFSET_Y + DISPLAY_SIDE {
                Some(
                    PixelCoord {
                        x: (coord.x - RANDSTAD_OFFSET_X) as u8,
                        y: (coord.y - RANDSTAD_OFFSET_Y) as u8,
                    },
                )
            } else {
                None
            },
        }
    }
}

/// Project a canvas-pixel coordinate to display-pixel space for `mode`.
/// Returns `None` if the canvas coordinate is off-canvas or falls outside the
/// mode's display window.
pub fn canvas_to_display(coord: PixelCoord, mode: MapMode) -> (r: Option<PixelCoord>)
    ensures
        r == projected(coord, mode),
{
    if !coord.is_on_canvas() {
        return None;
    }
    let (dx, dy): (u8, u8) = match mode {
        MapMode::Netherlands => (
            (coord.x as u16 * 2 / 7) as u8,
            (coord.y as u16 * 2 / 7) as u8,
        ),
        MapMode::Randstad => {
            if coord.x < RANDSTAD_OFFSET_X || coord.y < RANDSTAD_OFFSET_Y {
                return None;
            }
            (coord.x - RANDSTAD_OFFSET_X, coord.y - RANDSTAD_OFFSET_Y)
        },
    };
    if dx >= DISPLAY_SIDE || dy >= DISPLAY_SIDE {
        return None;
    }
    Some(PixelCoord { x: dx, y: dy })
}

/// The mode that is shown, and whether a manual change still waits to be
/// picked up by the controller.
#[derive(Debug, Clone, Copy, PartialEq, Eq, Structural)]
pub struct ModeState {
    pub mode: MapMode,
    pub changed: bool,
}

/// What woke the controller.
#[derive(Debug, Clone, Copy, PartialEq, Eq, Structural)]
pub enum Wake {
    /// [`AUTO_INTERVAL_S`] seconds have passed.
    Timer,
    /// A manual change was signalled.
    Changed,
}

impl ModeState {
    /// At boot the whole country is shown.
    pub fn new() -> (r: ModeState)
        ensures
            r == (ModeState { mode: MapMode::Netherlands, changed: false }),
    {
        ModeState { mode: MapMode::Netherlands, changed: false }
    }
}

/// The mode that is shown.
pub fn current(state: &ModeState) -> (r: MapMode)
    ensures
        r == state.mode,
{
    state.mode
}

/// Show `mode`, without waking the controller.
pub fn set(state: &mut ModeState, mode: MapMode)
    ensures
        *final(state) == (ModeState { mode, changed: old(state).changed }),
{
    state.mode = mode;
}

/// Flip the mode and signal the controller. Use from manual triggers; the
/// automatic cycle flips directly without signalling.
pub fn toggle(state: &mut ModeState) -> (r: MapMode)
    ensures
        r == old(state).mode.other(),
        *final(state) == (ModeState { mode: r, changed: true }),
{
    let next = current(state).next();
    set(state, next);
    state.changed = true;
    next
}

/// What the controller does when it wakes: the timer flips the mode; a manual
/// change already has, so the signal is only consumed. Returns the mode that
/// the snapshot is to be rebuilt for.
pub fn on_wake(state: &mut ModeState, wake: Wake) -> (r: MapMode)
    ensures
        r == final(state).mode,
        match wake {
            Wake::Timer => final(state).mode == old(state).mode.other() && final(state).changed
                == old(state).changed,
            Wake::Changed => final(state).mode == old(state).mode && !final(state).changed,
        },
{
    match wake {
        Wake::Timer => {
            let next = current(state).next();
            set(state, next);
        },
        Wake::Changed => {
            state.changed = false;
        },
    }
    current(state)
}

/// Flipping the mode twice restores it.
pub proof fn law_mode_flips_back(mode: MapMode)
    ensures
        mode.other() != mode,
        mode.other().other() == mode,
{
}

/// A projected pixel always lies on the display.
pub proof fn law_projection_lands_on_display(coord: PixelCoord, mode: MapMode)
    requires
        projected(coord, mode) is Some,
    ensures
        projected(coord, mode)->0.x < DISPLAY_SIDE,
        projected(coord, mode)->0.y < DISPLAY_SIDE,
{
}

/// The country view shows every pixel of the canvas.
pub proof fn law_country_view_shows_whole_canvas(coord: PixelCoord)
    ensures
        projected(coord, MapMode::Netherlands) is Some <==> coord.on_canvas(),
{
}

/// The Randstad view does not merge pixels: it shows the canvas one to one.
pub proof fn law_randstad_view_is_one_to_one(a: PixelCoord, b: PixelCoord)
    requires
        projected(a, MapMode::Randstad) is Some,
        projected(a, MapMode::Randstad) == projected(b, MapMode::Randstad),
    ensures
        a == b,
{
}

/// Moving east or south on the canvas never moves west or north on the
/// display.
pub proof fn law_projection_keeps_order(a: PixelCoord, b: PixelCoord, mode: MapMode)
    requires
        projected(a, mode) is Some,
        projected(b, mode) is Some,
        a.x <= b.x,
        a.y <= b.y,
    ensures
        projected(a, mode)->0.x <= projected(b, mode)->0.x,
        projected(a, mode)->0.y <= projected(b, mode)->0.y,
{
}

/// The country view shows canvas pixels at two sevenths of their coordinates,
/// rounded down.
pub proof fn law_country_view_scales(coord: PixelCoord)
    ensures
        projected(coord, MapMode::Netherlands) is Some <==> coord.x < 224 && coord.y < 224,
        projected(coord, MapMode::Netherlands) matches Some(p) ==> 7 * p.x <= 2 * coord.x < 7 * p.x
            + 7 && 7 * p.y <= 2 * coord.y < 7 * p.y + 7,
{
}

/// The Randstad view shows a window of 64 by 64 canvas pixels, with its corner at
/// (62, 73), as it is.
pub proof fn law_randstad_view_is_a_window(coord: PixelCoord)
    ensures
        projected(coord, MapMode::Randstad) is Some <==> 62 <= coord.x < 126 && 73 <= coord.y < 137,
        projected(coord, MapMode::Randstad) matches Some(p) ==> p.x + 62 == coord.x && p.y + 73
            == coord.y,
{
}

} // verus!
