//! What the two buttons do.
//!
//! Two momentary buttons (UP / DOWN), normally open and shorting to ground when
//! pressed. UP: a short press cycles [`crate::display::VizMode`], a long press
//! toggles [`crate::map_mode::MapMode`]. DOWN: a press cycles
//! [`crate::display::ColorMode`].
use vstd::prelude::*;
use crate::display::{update_config, ConfigCell, DisplayConfig};
use crate::map_mode::{toggle, ModeState};
use crate::persist::{request_save, SaveSlot};

verus! {

/// Milliseconds to settle after an edge before re-sampling. Inexpensive
/// mechanical buttons bounce for a few milliseconds.
pub const DEBOUNCE_MS: u64 = 30;

/// Milliseconds that UP must be held to register as a long press.
pub const LONG_PRESS_MS: u64 = 800;

/// A falling edge on one of the buttons.
#[derive(Debug, Clone, Copy, PartialEq, Eq, Structural)]
pub enum Edge {
    Up,
    Down,
}

/// A press.
#[derive(Debug, Clone, Copy, PartialEq, Eq, Structural)]
pub enum Press {
    UpShort,
    UpLong,
    Down,
}

/// What is to happen after an edge has settled.
#[derive(Debug, Clone, Copy, PartialEq, Eq, Structural)]
pub enum Settled {
    /// The edge was a bounce or stray: wait for the next one.
    Ignore,
    /// UP is held: race its release against [`LONG_PRESS_MS`].
    Race,
    /// DOWN is pressed.
    Press(Press),
}

/// Confirm an edge by the level of its pin after the settling time: the pin
/// must still be pulled low.
pub fn settle(edge: Edge, up_low: bool, down_low: bool) -> (r: Settled)
    ensures
        r == match edge {
            Edge::Up => if up_low {
                Settled::Race
            } else {
                Settled::Ignore
            },
            Edge::Down => if down_low {
                Settled::Press(Press::Down)
            } else {
                Settled::Ignore
            },
        },
{
    match edge {
        Edge::Up => {
            if up_low {
                Settled::Race
            } else {
                Settled::Ignore
            }
        },
        Edge::Down => {
            if down_low {
                Settled::Press(Press::Down)
            } else {
                Settled::Ignore
            }
        },
    }
}

/// UP was released before the threshold, or held past it.
pub fn up_press(released: bool) -> (r: Press)
    ensures
        r == if released {
            Press::UpShort
        } else {
            Press::UpLong
        },
{
    if released {
        Press::UpShort
    } else {
        Press::UpLong
    }
}

/// The configuration after a press. A long press of UP leaves it alone.
pub open spec fn pressed_config(cfg: DisplayConfig, press: Press) -> DisplayConfig {
    match press {
        Press::UpShort => DisplayConfig { viz: cfg.viz.other(), ..cfg },
        Press::UpLong => cfg,
        Press::Down => DisplayConfig { col: cfg.col.other(), ..cfg },
    }
}

/// The map mode after a press. Only a long press of UP changes it.
pub open spec fn pressed_mode(state: ModeState, press: Press) -> ModeState {
    match press {
        Press::UpLong => ModeState { mode: state.mode.other(), changed: true },
        _ => state,
    }
}

/// What waits to be saved after a press. The map mode is not persisted.
pub open spec fn pressed_save(slot: SaveSlot, cfg: DisplayConfig, press: Press) -> SaveSlot {
    match press {
        Press::UpLong => slot,
        _ => SaveSlot { waiting: Some(pressed_config(cfg, press)) },
    }
}

/// Act on a press.
pub fn on_press(press: Press, cell: &mut ConfigCell, mode: &mut ModeState, slot: &mut SaveSlot)
    ensures
        final(cell).shown == pressed_config(old(cell).shown, press),
        *final(mode) == pressed_mode(*old(mode), press),
        *final(slot) == pressed_save(*old(slot), old(cell).shown, press),
{
    match press {
        Press::UpShort => {
            let cycle = |c: DisplayConfig| -> (n: DisplayConfig)
                ensures
                    n == pressed_config(c, Press::UpShort),
                {
                    let viz = c.viz.next();
                    DisplayConfig { viz, col: c.col }
                };
            let cfg: DisplayConfig = update_config(cell, cycle);
            request_save(slot, cfg);
        },
        Press::UpLong => {
            toggle(mode);
        },
        Press::Down => {
            let cycle = |c: DisplayConfig| -> (n: DisplayConfig)
                ensures
                    n == pressed_config(c, Press::Down),
                {
                    let col = c.col.next();
                    DisplayConfig { viz: c.viz, col }
                };
            let cfg: DisplayConfig = update_config(cell, cycle);
            request_save(slot, cfg);
        },
    }
}

/// The same press twice restores the configuration and the map mode.
pub proof fn law_two_presses_cancel(cfg: DisplayConfig, state: ModeState, press: Press)
    ensures
        pressed_config(pressed_config(cfg, press), press) == cfg,
        pressed_mode(pressed_mode(state, press), press).mode == state.mode,
{
}

/// Presses of different buttons act on different settings, so that their order
/// does not matter.
pub proof fn law_presses_commute(cfg: DisplayConfig, state: ModeState, a: Press, b: Press)
    ensures
        pressed_config(pressed_config(cfg, a), b) == pressed_config(pressed_config(cfg, b), a),
        pressed_mode(pressed_mode(state, a), b) == pressed_mode(pressed_mode(state, b), a),
{
}

/// Whenever a press changes the configuration, the configuration that is then
/// shown waits to be saved.
pub proof fn law_changes_are_saved(slot: SaveSlot, cfg: DisplayConfig, press: Press)
    requires
        pressed_config(cfg, press) != cfg,
    ensures
        pressed_save(slot, cfg, press).waiting == Some(pressed_config(cfg, press)),
{
}

/// What each press does: a short press of UP changes the animation and nothing
/// else, a press of DOWN the color axis and nothing else, and both are saved; a
/// long press of UP changes the map mode and nothing else, wakes the controller,
/// and is not saved.
pub proof fn law_what_presses_do(cfg: DisplayConfig, state: ModeState, slot: SaveSlot, press: Press)
    ensures
        press == Press::UpShort ==> pressed_config(cfg, press).viz != cfg.viz && pressed_config(
            cfg,
            press,
        ).col == cfg.col,
        press == Press::Down ==> pressed_config(cfg, press).col != cfg.col && pressed_config(
            cfg,
            press,
        ).viz == cfg.viz,
        press == Press::UpLong ==> pressed_config(cfg, press) == cfg && pressed_mode(
            state,
            press,
        ).mode != state.mode && pressed_mode(state, press).changed && pressed_save(slot, cfg, press)
            == slot,
        press != Press::UpLong ==> pressed_mode(state, press) == state && pressed_save(
            slot,
            cfg,
            press,
        ).waiting == Some(pressed_config(cfg, press)),
{
}

} // verus!
