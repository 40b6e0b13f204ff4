use ns_pixels::accel::{
    classify, get_direction, on_sample, read_multiple, Direction, DirectionCell, OUT_X_L,
};
use ns_pixels::display::{ColorMode, ConfigCell, DisplayConfig, VizMode};
use ns_pixels::input::{on_press, settle, up_press, Edge, Press, Settled};
use ns_pixels::map_mode::{
    canvas_to_display, current, on_wake, toggle, MapMode, ModeState, Wake,
};
use ns_pixels::persist::{
    col_from_u8, col_to_u8, request_save, viz_from_u8, viz_to_u8, SaveSlot, SerializationError,
};
use ns_pixels::projection::PixelCoord;
use ns_pixels::time::{Duration, Instant};

#[test]
fn country_view_is_downsampled() {
    let at = |x, y| canvas_to_display(PixelCoord { x, y }, MapMode::Netherlands);
    assert_eq!(at(0, 0), Some(PixelCoord { x: 0, y: 0 }));
    assert_eq!(at(7, 3), Some(PixelCoord { x: 2, y: 0 }));
    assert_eq!(at(223, 223), Some(PixelCoord { x: 63, y: 63 }));
    assert_eq!(at(224, 0), None);
    assert_eq!(at(0, 255), None);
}

#[test]
fn randstad_view_is_a_window() {
    let at = |x, y| canvas_to_display(PixelCoord { x, y }, MapMode::Randstad);
    assert_eq!(at(62, 73), Some(PixelCoord { x: 0, y: 0 }));
    assert_eq!(at(125, 136), Some(PixelCoord { x: 63, y: 63 }));
    assert_eq!(at(126, 73), None);
    assert_eq!(at(62, 137), None);
    assert_eq!(at(61, 73), None);
    assert_eq!(at(62, 72), None);
}

#[test]
fn coordinates_pack_into_keys() {
    let p = PixelCoord { x: 200, y: 7 };
    assert_eq!(p.as_u16(), 200 * 256 + 7);
    assert_eq!(PixelCoord::from_u16(p.as_u16()), p);
    assert!(p.is_on_canvas());
    assert!(!PixelCoord { x: 224, y: 7 }.is_on_canvas());
}

#[test]
fn map_mode_flips() {
    let mut state = ModeState::new();
    assert_eq!(current(&state), MapMode::Netherlands);
    assert_eq!(toggle(&mut state), MapMode::Randstad);
    assert!(state.changed);
    // The controller only consumes a manual change.
    assert_eq!(on_wake(&mut state, Wake::Changed), MapMode::Randstad);
    assert!(!state.changed);
    assert_eq!(on_wake(&mut state, Wake::Timer), MapMode::Netherlands);
    assert!(!state.changed);
    ns_pixels::map_mode::set(&mut state, MapMode::Randstad);
    assert_eq!(current(&state), MapMode::Randstad);
    assert_eq!(MapMode::Randstad.next(), MapMode::Netherlands);
}

#[test]
fn edges_are_confirmed() {
    assert_eq!(settle(Edge::Up, true, false), Settled::Race);
    assert_eq!(settle(Edge::Up, false, true), Settled::Ignore);
    assert_eq!(settle(Edge::Down, false, true), Settled::Press(Press::Down));
    assert_eq!(settle(Edge::Down, true, false), Settled::Ignore);
    assert_eq!(up_press(true), Press::UpShort);
    assert_eq!(up_press(false), Press::UpLong);
}

#[test]
fn presses_change_one_setting_each() {
    let mut cell = ConfigCell::new();
    let mut mode = ModeState::new();
    let mut slot = SaveSlot::new();
    on_press(Press::UpShort, &mut cell, &mut mode, &mut slot);
    let pulsing = DisplayConfig { viz: VizMode::GlobalPulse, col: ColorMode::ByType };
    assert_eq!(cell.shown, pulsing);
    assert_eq!(slot.take(), Some(pulsing));
    assert_eq!(slot.take(), None);
    on_press(Press::Down, &mut cell, &mut mode, &mut slot);
    let both = DisplayConfig { viz: VizMode::GlobalPulse, col: ColorMode::ByService };
    assert_eq!(cell.shown, both);
    assert_eq!(slot.take(), Some(both));
    assert_eq!(mode, ModeState::new());
    on_press(Press::UpLong, &mut cell, &mut mode, &mut slot);
    assert_eq!(cell.shown, both);
    assert_eq!(slot.waiting, None);
    assert_eq!(mode, ModeState { mode: MapMode::Randstad, changed: true });
    on_press(Press::UpLong, &mut cell, &mut mode, &mut slot);
    assert_eq!(mode.mode, MapMode::Netherlands);
}

#[test]
fn configurations_read_back() {
    for viz in [VizMode::PerCluster, VizMode::GlobalPulse] {
        for col in [ColorMode::ByType, ColorMode::ByService] {
            let cfg = DisplayConfig { viz, col };
            let mut buf = [9u8; 4];
            assert_eq!(cfg.serialize_into(&mut buf), Ok(2));
            assert_eq!(buf, [viz_to_u8(viz), col_to_u8(col), 9, 9]);
            assert_eq!(DisplayConfig::deserialize_from(&buf), Ok((cfg, 2)));
        }
    }
    assert_eq!(viz_from_u8(1), Some(VizMode::GlobalPulse));
    assert_eq!(viz_from_u8(2), None);
    assert_eq!(col_from_u8(0), Some(ColorMode::ByType));
    assert_eq!(col_from_u8(255), None);
}

#[test]
fn bad_configurations_are_refused() {
    let small = Err(SerializationError::BufferTooSmall);
    let mut buf = [9u8; 1];
    assert_eq!(DisplayConfig::new().serialize_into(&mut buf), small);
    assert_eq!(buf, [9]);
    assert_eq!(
        DisplayConfig::deserialize_from(&[0]),
        Err(SerializationError::BufferTooSmall)
    );
    for bytes in [[2, 0], [0, 2], [7, 7]] {
        assert_eq!(
            DisplayConfig::deserialize_from(&bytes),
            Err(SerializationError::InvalidFormat)
        );
    }
}

#[test]
fn latest_save_wins() {
    let a = DisplayConfig::new();
    let b = DisplayConfig { viz: VizMode::GlobalPulse, col: ColorMode::ByService };
    let mut slot = SaveSlot::new();
    request_save(&mut slot, a);
    request_save(&mut slot, b);
    assert_eq!(slot.take(), Some(b));
}

fn sample(x: i16, y: i16) -> [u8; 4] {
    let (x, y) = (x.to_le_bytes(), y.to_le_bytes());
    [x[0], x[1], y[0], y[1]]
}

#[test]
fn samples_indicate_a_direction() {
    assert_eq!(classify(&sample(4095, -4095)), None);
    assert_eq!(classify(&sample(4096, 0)), Some(Direction::XUp));
    assert_eq!(classify(&sample(-4096, 100)), Some(Direction::XDown));
    assert_eq!(classify(&sample(0, 16000)), Some(Direction::YUp));
    assert_eq!(classify(&sample(5000, -5001)), Some(Direction::YDown));
    assert_eq!(classify(&sample(5000, 5000)), Some(Direction::YUp));
    assert_eq!(classify(&sample(i16::MIN, i16::MAX)), Some(Direction::XDown));
}

#[test]
fn direction_is_kept_until_turned() {
    let mut cell = DirectionCell::new();
    assert_eq!(get_direction(&cell), Direction::default());
    assert_eq!(on_sample(&mut cell, &sample(9000, 0)), None);
    assert_eq!(on_sample(&mut cell, &sample(0, -9000)), Some(Direction::YDown));
    assert_eq!(on_sample(&mut cell, &sample(10, 10)), None);
    assert_eq!(get_direction(&cell), Direction::YDown);
}

#[test]
fn directions_read_back() {
    for d in [Direction::XUp, Direction::XDown, Direction::YUp, Direction::YDown] {
        assert_eq!(Direction::from(d.as_u8()), d);
    }
    assert_eq!(Direction::from(0), Direction::XUp);
    assert_eq!(Direction::from(5), Direction::XUp);
    assert_eq!(read_multiple(OUT_X_L), 0xa8);
}

#[test]
fn instants_and_spans() {
    let i = Instant { ticks: 5_000_000 };
    assert_eq!(i.checked_duration_since(Instant { ticks: 6_000_000 }), None);
    assert_eq!(i.duration_since(Instant { ticks: 1 }).ticks, 4_999_999);
    assert_eq!(i.checked_sub(Duration::from_secs(6)), None);
    assert_eq!(i.checked_sub(Duration::from_secs(5)), Some(Instant { ticks: 0 }));
    assert!(Instant { ticks: 1 }.is_before(i) && !i.is_before(i));
}
