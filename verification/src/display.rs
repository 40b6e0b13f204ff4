//! What the 64x64 LED matrix shows.
//!
//! The renderer owns one cluster snapshot and draws it every frame; the
//! producers (feed, enrichment, map mode) rebuild a spare one and hand it over
//! through a [`ClusterExchange`]. Colors come from the train type or from the
//! service category, and change over time in one of two ways, see
//! [`DisplayConfig`].
use vstd::prelude::*;
use crate::bits::{
    count_ones, law_member_is_known_by_its_place, law_nth_is_a_member, lowest, lowest_set_bit, nth,
    nth_set_bit, ones,
};
use crate::clusters::{cells_new, cells_slice, cluster_cells, is_clusters_of, ClusterVec};
use crate::map_mode::MapMode;
use crate::projection::PixelCoord;
use crate::registry::{visible_cells, Registry};
use crate::time::{Instant, TICK_HZ};
use crate::train::{PixelData, ServiceType, TrainType};

verus! {

pub const ROWS: usize = 64;

pub const COLS: usize = 64;

pub const PLANES: usize = 7;

/// Animation mode: how a pixel's colors change over time.
#[derive(Debug, Clone, Copy, PartialEq, Eq, Structural)]
pub enum VizMode {
    /// Each multi-type pixel cycles through its own member colors locally.
    PerCluster,
    /// The whole map pulses through the global type cycle; pixels matching the
    /// active type render bright, others dim in their own color.
    GlobalPulse,
}

impl VizMode {
    /// The other mode.
    pub open spec fn other(self) -> VizMode {
        match self {
            VizMode::PerCluster => VizMode::GlobalPulse,
            VizMode::GlobalPulse => VizMode::PerCluster,
        }
    }

    pub fn next(self) -> (r: VizMode)
        ensures
            r == self.other(),
    {
        match self {
            VizMode::PerCluster => VizMode::GlobalPulse,
            VizMode::GlobalPulse => VizMode::PerCluster,
        }
    }
}

/// Color axis: which train property colors are mapped from.
#[derive(Debug, Clone, Copy, PartialEq, Eq, Structural)]
pub enum ColorMode {
    /// Color by [`TrainType`].
    ByType,
    /// Color by [`ServiceType`].
    ByService,
}

impl ColorMode {
    /// The other axis.
    pub open spec fn other(self) -> ColorMode {
        match self {
            ColorMode::ByType => ColorMode::ByService,
            ColorMode::ByService => ColorMode::ByType,
        }
    }

    pub fn next(self) -> (r: ColorMode)
        ensures
            r == self.other(),
    {
        match self {
            ColorMode::ByType => ColorMode::ByService,
            ColorMode::ByService => ColorMode::ByType,
        }
    }
}

/// Cycling a mode twice restores it.
pub proof fn law_modes_flip_back(viz: VizMode, col: ColorMode)
    ensures
        viz.other() != viz,
        viz.other().other() == viz,
        col.other() != col,
        col.other().other() == col,
{
}

/// Combined display configuration. UP cycles `viz`, DOWN cycles `col`.
#[derive(Debug, Clone, Copy, PartialEq, Eq, Structural)]
pub struct DisplayConfig {
    pub viz: VizMode,
    pub col: ColorMode,
}

impl DisplayConfig {
    /// The configuration at the first start.
    pub fn new() -> (r: DisplayConfig)
        ensures
            r == (DisplayConfig { viz: VizMode::PerCluster, col: ColorMode::ByType }),
    {
        DisplayConfig { viz: VizMode::PerCluster, col: ColorMode::ByType }
    }
}

/// Holds the configuration that is shown.
#[derive(Debug, Clone, Copy, PartialEq, Eq, Structural)]
pub struct ConfigCell {
    pub shown: DisplayConfig,
}

impl ConfigCell {
    pub fn new() -> (r: ConfigCell)
        ensures
            r.shown == (DisplayConfig { viz: VizMode::PerCluster, col: ColorMode::ByType }),
    {
        ConfigCell { shown: DisplayConfig::new() }
    }
}

/// The configuration that is shown.
pub fn config(cell: &ConfigCell) -> (r: DisplayConfig)
    ensures
        r == cell.shown,
{
    cell.shown
}

/// Replace the configuration by what `f` makes of it, and return that.
pub fn update_config<F: FnOnce(DisplayConfig) -> DisplayConfig>(
    cell: &mut ConfigCell,
    f: F,
) -> (r: DisplayConfig)
    requires
        f.requires((old(cell).shown,)),
    ensures
        f.ensures((old(cell).shown,), r),
        *final(cell) == (ConfigCell { shown: r }),
{
    let next: DisplayConfig = f(cell.shown);
    cell.shown = next;
    next
}

/// Dwell time on a single highlighted type, in milliseconds, with the
/// cross-fade into the next type at its end.
pub const SLOT_MS: u64 = 1500;

/// Tail end of each slot spent fading into the next type.
pub const FADE_MS: u64 = 500;

/// Brightness divisor applied to pixels that do not match the active type.
pub const DIM_DIV: u16 = 6;

/// The color of a train type, given by its mask bit: gray, orange, cyan,
/// magenta, yellow, green, blue, white.
pub open spec fn type_color(bit: u8) -> Seq<u8> {
    if bit == TrainType::Unknown.bit() {
        seq![10u8, 10, 10]
    } else if bit == TrainType::SNG.bit() {
        seq![255u8, 80, 0]
    } else if bit == TrainType::SLT.bit() {
        seq![0u8, 200, 255]
    } else if bit == TrainType::Flirt.bit() {
        seq![255u8, 0, 200]
    } else if bit == TrainType::ICM.bit() {
        seq![255u8, 220, 0]
    } else if bit == TrainType::DDZ.bit() {
        seq![0u8, 255, 80]
    } else if bit == TrainType::VIRM.bit() {
        seq![80u8, 80, 255]
    } else if bit == TrainType::ICNG.bit() {
        seq![255u8, 255, 255]
    } else {
        black()
    }
}

/// The color of a service category, given by its mask bit: gray, cyan, yellow,
/// warm red.
pub open spec fn service_color(bit: u8) -> Seq<u8> {
    if bit == ServiceType::Unknown.bit() {
        seq![10u8, 10, 10]
    } else if bit == ServiceType::Sprinter.bit() {
        seq![0u8, 200, 255]
    } else if bit == ServiceType::Intercity.bit() {
        seq![255u8, 220, 0]
    } else if bit == ServiceType::IntercityDirect.bit() {
        seq![255u8, 40, 40]
    } else {
        black()
    }
}

pub open spec fn black() -> Seq<u8> {
    seq![0u8, 0, 0]
}

/// The color of a mask bit on an axis.
pub open spec fn bit_color(col: ColorMode, bit: u8) -> Seq<u8> {
    match col {
        ColorMode::ByType => type_color(bit),
        ColorMode::ByService => service_color(bit),
    }
}

/// The mask of a pixel on an axis.
pub open spec fn axis_bits(col: ColorMode, pixel: PixelData) -> u8 {
    match col {
        ColorMode::ByType => pixel.types,
        ColorMode::ByService => pixel.services,
    }
}

/// The bits that the global pulse cycles through. `Unknown` is excluded: it
/// stays flat regardless of the active slot.
pub open spec fn active_bits(col: ColorMode) -> Seq<u8> {
    match col {
        ColorMode::ByType => seq![
            TrainType::SNG.bit(),
            TrainType::SLT.bit(),
            TrainType::Flirt.bit(),
            TrainType::ICM.bit(),
            TrainType::DDZ.bit(),
            TrainType::VIRM.bit(),
            TrainType::ICNG.bit(),
        ],
        ColorMode::ByService => seq![
            ServiceType::Sprinter.bit(),
            ServiceType::Intercity.bit(),
            ServiceType::IntercityDirect.bit(),
        ],
    }
}

/// One channel of a cross-fade from `x` to `y`, at `t` of 255.
pub open spec fn lerp(x: u8, y: u8, t: u8) -> u8 {
    ((x * (255 - t) + y * t) / 255) as u8
}

/// A cross-fade from color `a` to color `b`, at `t` of 255.
pub open spec fn blended(a: Seq<u8>, b: Seq<u8>, t: u8) -> Seq<u8> {
    seq![lerp(a[0], b[0], t), lerp(a[1], b[1], t), lerp(a[2], b[2], t)]
}

/// A color at a fraction of its brightness.
pub open spec fn dimmed(c: Seq<u8>) -> Seq<u8> {
    seq![
        (c[0] as u16 / DIM_DIV) as u8,
        (c[1] as u16 / DIM_DIV) as u8,
        (c[2] as u16 / DIM_DIV) as u8,
    ]
}

/// Which of `n` slots is on at `now_ms`.
pub open spec fn slot_at(now_ms: nat, n: nat) -> nat {
    (now_ms % (n * SLOT_MS as nat)) / (SLOT_MS as nat)
}

/// How far the fade out of the slot that is on at `now_ms` has come, of 255;
/// `None` before it starts.
pub open spec fn fade_at(now_ms: nat, n: nat) -> Option<u8> {
    let in_slot = (now_ms % (n * SLOT_MS as nat)) % (SLOT_MS as nat);
    if in_slot + FADE_MS <= SLOT_MS {
        None
    } else {
        Some(((in_slot + FADE_MS - SLOT_MS) * 255 / FADE_MS as int) as u8)
    }
}

/// The color of a pixel that cycles through its own members.
pub open spec fn cluster_rgb(bits: u8, now_ms: nat, col: ColorMode) -> Seq<u8> {
    let n = ones(bits) as nat;
    if n == 0 {
        black()
    } else if n == 1 {
        bit_color(col, bits)
    } else {
        let slot = slot_at(now_ms, n);
        let a = bit_color(col, nth(bits, slot));
        match fade_at(now_ms, n) {
            None => a,
            Some(t) => blended(a, bit_color(col, nth(bits, (slot + 1) % n)), t),
        }
    }
}

/// The color of a pixel while bit `active` is highlighted.
pub open spec fn pulse_rgb(bits: u8, active: u8, col: ColorMode) -> Seq<u8> {
    if bits == 0 {
        black()
    } else if bits & active != 0 {
        bit_color(col, active)
    } else {
        dimmed(bit_color(col, lowest(bits)))
    }
}

/// The color of a pixel under the global pulse.
pub open spec fn global_rgb(bits: u8, now_ms: nat, col: ColorMode) -> Seq<u8> {
    let active = active_bits(col);
    let slot = slot_at(now_ms, active.len());
    let a = pulse_rgb(bits, active[slot as int], col);
    match fade_at(now_ms, active.len()) {
        None => a,
        Some(t) => blended(
            a,
            pulse_rgb(bits, active[((slot + 1) % active.len()) as int], col),
            t,
        ),
    }
}

/// The color of a pixel under a configuration.
pub open spec fn pixel_rgb(cfg: DisplayConfig, pixel: PixelData, now_ms: nat) -> Seq<u8> {
    let bits = axis_bits(cfg.col, pixel);
    match cfg.viz {
        VizMode::PerCluster => cluster_rgb(bits, now_ms, cfg.col),
        VizMode::GlobalPulse => global_rgb(bits, now_ms, cfg.col),
    }
}

/// One lit pixel of a frame.
#[derive(Debug, Clone, Copy, PartialEq, Eq)]
pub struct Dot {
    pub x: u8,
    pub y: u8,
    pub rgb: [u8; 3],
}

/// A dot as plain values.
pub open spec fn dot_view(dot: Dot) -> (u8, u8, Seq<u8>) {
    (dot.x, dot.y, dot.rgb@)
}

/// The dot that a pixel makes in a given color.
pub open spec fn dot_of(pixel: PixelData, rgb: Seq<u8>) -> (u8, u8, Seq<u8>) {
    ((pixel.coord_key / 256) as u8, (pixel.coord_key % 256) as u8, rgb)
}

/// The dots of a frame, in the order in which they are drawn.
pub open spec fn frame(cfg: DisplayConfig, pixels: Seq<PixelData>, now_ms: nat) -> Seq<
    (u8, u8, Seq<u8>),
> {
    pixels.map_values(|p: PixelData| dot_of(p, pixel_rgb(cfg, p, now_ms)))
}

/// Map a single-bit [`TrainType`] mask to its display color.
pub fn color_for_type_bit(bit: u8) -> (r: [u8; 3])
    ensures
        r@ == type_color(bit),
{
    let r: [u8; 3] = if bit == TrainType::UNKNOWN_BIT {
        [10, 10, 10]
    } else if bit == TrainType::SNG_BIT {
        [255, 80, 0]
    } else if bit == TrainType::SLT_BIT {
        [0, 200, 255]
    } else if bit == TrainType::FLIRT_BIT {
        [255, 0, 200]
    } else if bit == TrainType::ICM_BIT {
        [255, 220, 0]
    } else if bit == TrainType::DDZ_BIT {
        [0, 255, 80]
    } else if bit == TrainType::VIRM_BIT {
        [80, 80, 255]
    } else if bit == TrainType::ICNG_BIT {
        [255, 255, 255]
    } else {
        [0, 0, 0]
    };
    assert(r@ =~= type_color(bit));
    r
}

/// Map a single-bit [`ServiceType`] mask to its display color.
pub fn color_for_service_bit(bit: u8) -> (r: [u8; 3])
    ensures
        r@ == service_color(bit),
{
    let r: [u8; 3] = if bit == ServiceType::UNKNOWN_BIT {
        [10, 10, 10]
    } else if bit == ServiceType::SPRINTER_BIT {
        [0, 200, 255]
    } else if bit == ServiceType::INTERCITY_BIT {
        [255, 220, 0]
    } else if bit == ServiceType::INTERCITY_DIRECT_BIT {
        [255, 40, 40]
    } else {
        [0, 0, 0]
    };
    assert(r@ =~= service_color(bit));
    r
}

/// Color axis bound to a [`ColorMode`]: how to extract the relevant bitmask
/// from a [`PixelData`], the color lookup, and the global-pulse cycle.
#[derive(Debug, Clone, Copy, PartialEq, Eq, Structural)]
pub struct Axis {
    pub col: ColorMode,
}

pub fn axis_for(mode: ColorMode) -> (r: Axis)
    ensures
        r.col == mode,
{
    Axis { col: mode }
}

impl Axis {
    /// The mask of a pixel on this axis.
    pub fn extract(&self, pixel: &PixelData) -> (r: u8)
        ensures
            r == axis_bits(self.col, *pixel),
    {
        match self.col {
            ColorMode::ByType => pixel.types,
            ColorMode::ByService => pixel.services,
        }
    }

    /// The color of a single-bit mask on this axis.
    pub fn color_for(&self, bit: u8) -> (r: [u8; 3])
        ensures
            r@ == bit_color(self.col, bit),
    {
        match self.col {
            ColorMode::ByType => color_for_type_bit(bit),
            ColorMode::ByService => color_for_service_bit(bit),
        }
    }

    /// How many bits the global pulse cycles through.
    pub fn active_len(&self) -> (r: usize)
        ensures
            r == active_bits(self.col).len(),
    {
        match self.col {
            ColorMode::ByType => 7,
            ColorMode::ByService => 3,
        }
    }

    /// The bit that the global pulse highlights in a slot.
    pub fn active(&self, slot: usize) -> (r: u8)
        requires
            slot < active_bits(self.col).len(),
        ensures
            r == active_bits(self.col)[slot as int],
    {
        match self.col {
            ColorMode::ByType => match slot {
                0 => TrainType::SNG_BIT,
                1 => TrainType::SLT_BIT,
                2 => TrainType::FLIRT_BIT,
                3 => TrainType::ICM_BIT,
                4 => TrainType::DDZ_BIT,
                5 => TrainType::VIRM_BIT,
                _ => TrainType::ICNG_BIT,
            },
            ColorMode::ByService => match slot {
                0 => ServiceType::SPRINTER_BIT,
                1 => ServiceType::INTERCITY_BIT,
                _ => ServiceType::INTERCITY_DIRECT_BIT,
            },
        }
    }
}

pub fn dim(c: [u8; 3]) -> (r: [u8; 3])
    ensures
        r@ == dimmed(c@),
{
    let r: [u8; 3] = [
        (c[0] as u16 / DIM_DIV) as u8,
        (c[1] as u16 / DIM_DIV) as u8,
        (c[2] as u16 / DIM_DIV) as u8,
    ];
    assert(r@ =~= dimmed(c@));
    r
}

/// A weighted mean of two channels lies between them.
proof fn lemma_lerp(x: u8, y: u8, t: u8)
    ensures
        0 <= x * (255 - t) + y * t <= 65025,
        x <= y ==> x <= (x * (255 - t) + y * t) / 255 <= y,
        y <= x ==> y <= (x * (255 - t) + y * t) / 255 <= x,
{
    let v = x * (255 - t) + y * t;
    assert(x <= y ==> 255 * x <= v <= 255 * y) by (nonlinear_arith)
        requires
            0 <= t <= 255,
            v == x * (255 - t) + y * t,
    ;
    assert(y <= x ==> 255 * y <= v <= 255 * x) by (nonlinear_arith)
        requires
            0 <= t <= 255,
            v == x * (255 - t) + y * t,
    ;
}

/// One channel of a cross-fade.
fn lerp_channel(x: u8, y: u8, t: u8) -> (r: u8)
    ensures
        r == lerp(x, y, t),
{
    let inv: u16 = 255 - t as u16;
    proof {
        lemma_lerp(x, y, t);
        assert(0 <= x * inv <= 65025) by (nonlinear_arith)
            requires
                0 <= x <= 255,
                0 <= inv <= 255,
        ;
        assert(0 <= y * t <= 65025) by (nonlinear_arith)
            requires
                0 <= y <= 255,
                0 <= t <= 255,
        ;
    }
    let v: u16 = x as u16 * inv + y as u16 * t as u16;
    (v / 255) as u8
}

/// A cross-fade from `a` to `b`, at `t` of 255.
pub fn blend(a: [u8; 3], b: [u8; 3], t: u8) -> (r: [u8; 3])
    ensures
        r@ == blended(a@, b@, t),
{
    let r: [u8; 3] = [
        lerp_channel(a[0], b[0], t),
        lerp_channel(a[1], b[1], t),
        lerp_channel(a[2], b[2], t),
    ];
    assert(r@ =~= blended(a@, b@, t));
    r
}

/// The slot that is on, and how far its fade has come.
fn slot_and_fade(now_ms: u64, n: u64) -> (r: (u64, Option<u8>))
    requires
        0 < n <= 8,
    ensures
        r.0 == slot_at(now_ms as nat, n as nat),
        r.0 < n,
        r.1 == fade_at(now_ms as nat, n as nat),
{
    let phase: u64 = now_ms % (n * SLOT_MS);
    let slot: u64 = phase / SLOT_MS;
    let in_slot: u64 = phase % SLOT_MS;
    let fade: Option<u8> = if in_slot + FADE_MS <= SLOT_MS {
        None
    } else {
        Some(((in_slot + FADE_MS - SLOT_MS) * 255 / FADE_MS) as u8)
    };
    (slot, fade)
}

/// Cycle through every set bit in `bits`, holding each for `SLOT_MS - FADE_MS`
/// and then linearly cross-fading into the next over `FADE_MS`.
pub fn cluster_color(bits: u8, now_ms: u64, axis: &Axis) -> (r: [u8; 3])
    ensures
        r@ == cluster_rgb(bits, now_ms as nat, axis.col),
{
    let n: u32 = count_ones(bits);
    if n == 0 {
        let r: [u8; 3] = [0, 0, 0];
        assert(r@ =~= black());
        return r;
    }
    if n == 1 {
        return axis.color_for(bits);
    }
    let (slot, fade): (u64, Option<u8>) = slot_and_fade(now_ms, n as u64);
    let a: [u8; 3] = axis.color_for(nth_set_bit(bits, slot as u32));
    match fade {
        None => a,
        Some(t) => {
            let b: [u8; 3] = axis.color_for(nth_set_bit(bits, (slot as u32 + 1) % n));
            blend(a, b, t)
        },
    }
}

/// Pick a pixel's color for one frame of the global pulse: full-bright active
/// color when the pixel contains the active bit, otherwise the dim color of its
/// lowest-set bit on the same axis.
pub fn pixel_color(bits: u8, active: u8, axis: &Axis) -> (r: [u8; 3])
    ensures
        r@ == pulse_rgb(bits, active, axis.col),
{
    if bits == 0 {
        let r: [u8; 3] = [0, 0, 0];
        assert(r@ =~= black());
        return r;
    }
    if bits & active != 0 {
        return axis.color_for(active);
    }
    dim(axis.color_for(lowest_set_bit(bits)))
}

/// The dot that a pixel makes in a given color.
fn dot_at(pixel: &PixelData, rgb: [u8; 3]) -> (r: Dot)
    ensures
        dot_view(r) == dot_of(*pixel, rgb@),
{
    let at = PixelCoord::from_u16(pixel.coord_key);
    Dot { x: at.x, y: at.y, rgb }
}

/// Per-pixel cycle: each multi-bit pixel independently rotates through its
/// member colors with a brief cross-fade. Single-bit pixels render flat.
pub fn draw_per_cluster(pixels: &[PixelData], now_ms: u64, axis: &Axis) -> (r: Vec<Dot>)
    ensures
        r@.map_values(|d: Dot| dot_view(d)) == frame(
            DisplayConfig { viz: VizMode::PerCluster, col: axis.col },
            pixels@,
            now_ms as nat,
        ),
{
    let ghost cfg = DisplayConfig { viz: VizMode::PerCluster, col: axis.col };
    let mut dots: Vec<Dot> = Vec::new();
    let mut i: usize = 0;
    while i < pixels.len()
        invariant
            cfg == (DisplayConfig { viz: VizMode::PerCluster, col: axis.col }),
            i <= pixels@.len(),
            dots@.len() == i,
            forall|k: int|
                0 <= k < i ==> dot_view(#[trigger] dots@[k]) == frame(
                    cfg,
                    pixels@,
                    now_ms as nat,
                )[k],
        decreases pixels@.len() - i,
    {
        let bits: u8 = axis.extract(&pixels[i]);
        let rgb: [u8; 3] = cluster_color(bits, now_ms, axis);
        dots.push(dot_at(&pixels[i], rgb));
        i = i + 1;
    }
    assert(dots@.map_values(|d: Dot| dot_view(d)) =~= frame(cfg, pixels@, now_ms as nat));
    dots
}

/// Global pulse: the whole map highlights one axis value at a time. Pixels
/// matching the active bit render bright; others fall back to a dim color of
/// their own lowest-set bit on the same axis.
pub fn draw_global_pulse(pixels: &[PixelData], now_ms: u64, axis: &Axis) -> (r: Vec<Dot>)
    ensures
        r@.map_values(|d: Dot| dot_view(d)) == frame(
            DisplayConfig { viz: VizMode::GlobalPulse, col: axis.col },
            pixels@,
            now_ms as nat,
        ),
{
    let ghost cfg = DisplayConfig { viz: VizMode::GlobalPulse, col: axis.col };
    let n: usize = axis.active_len();
    let (slot, fade): (u64, Option<u8>) = slot_and_fade(now_ms, n as u64);
    let active_a: u8 = axis.active(slot as usize);
    let active_b: u8 = axis.active((slot as usize + 1) % n);
    let mut dots: Vec<Dot> = Vec::new();
    let mut i: usize = 0;
    while i < pixels.len()
        invariant
            cfg == (DisplayConfig { viz: VizMode::GlobalPulse, col: axis.col }),
            n == active_bits(axis.col).len(),
            slot == slot_at(now_ms as nat, n as nat),
            slot < n,
            fade == fade_at(now_ms as nat, n as nat),
            active_a == active_bits(axis.col)[slot as int],
            active_b == active_bits(axis.col)[((slot + 1) % n as int)],
            i <= pixels@.len(),
            dots@.len() == i,
            forall|k: int|
                0 <= k < i ==> dot_view(#[trigger] dots@[k]) == frame(
                    cfg,
                    pixels@,
                    now_ms as nat,
                )[k],
        decreases pixels@.len() - i,
    {
        let bits: u8 = axis.extract(&pixels[i]);
        let a: [u8; 3] = pixel_color(bits, active_a, axis);
        let rgb: [u8; 3] = match fade {
            None => a,
            Some(t) => blend(a, pixel_color(bits, active_b, axis), t),
        };
        dots.push(dot_at(&pixels[i], rgb));
        i = i + 1;
    }
    assert(dots@.map_values(|d: Dot| dot_view(d)) =~= frame(cfg, pixels@, now_ms as nat));
    dots
}

/// The dots of the current snapshot under `cfg`. The snapshot is the display's
/// own buffer; no registry lock is needed.
pub fn draw_trains(cfg: DisplayConfig, clusters: &ClusterVec, now_ms: u64) -> (r: Vec<Dot>)
    ensures
        r@.map_values(|d: Dot| dot_view(d)) == frame(cfg, cluster_cells(*clusters), now_ms as nat),
{
    let axis = axis_for(cfg.col);
    match cfg.viz {
        VizMode::PerCluster => draw_per_cluster(cells_slice(clusters), now_ms, &axis),
        VizMode::GlobalPulse => draw_global_pulse(cells_slice(clusters), now_ms, &axis),
    }
}

/// The snapshots on their way between the producers and the display, each in a
/// slot that keeps the latest one.
pub struct ClusterExchange {
    fresh: Option<ClusterVec>,
    free: Option<ClusterVec>,
}

/// The cells in an optional snapshot.
pub open spec fn cells_in(v: Option<ClusterVec>) -> Option<Seq<PixelData>> {
    match v {
        Some(cells) => Some(cluster_cells(cells)),
        None => None,
    }
}

/// What is on its way.
#[verifier::ext_equal]
pub struct Transit {
    /// Filled by a producer, for the display to start using.
    pub fresh: Option<Seq<PixelData>>,
    /// Done with by the display, for a producer to reuse.
    pub free: Option<Seq<PixelData>>,
}

impl View for ClusterExchange {
    type V = Transit;

    closed spec fn view(&self) -> Transit {
        Transit { fresh: cells_in(self.fresh), free: cells_in(self.free) }
    }
}

/// After a producer claimed the free buffer.
pub open spec fn claimed(t: Transit) -> Transit {
    Transit { free: None, ..t }
}

/// After a producer handed over a snapshot. One that still waited is replaced.
pub open spec fn handed_over(t: Transit, cells: Seq<PixelData>) -> Transit {
    Transit { fresh: Some(cells), ..t }
}

/// After the display, which shows `shown`, looked for a fresh snapshot: it
/// recycles what it showed.
pub open spec fn picked_up(t: Transit, shown: Seq<PixelData>) -> Transit {
    match t.fresh {
        Some(_) => Transit { fresh: None, free: Some(shown) },
        None => t,
    }
}

impl ClusterExchange {
    /// The exchange at the start, with one spare buffer, and the buffer that the
    /// display owns. Both are empty.
    pub fn new() -> (r: (ClusterExchange, ClusterVec))
        ensures
            r.0@ == (Transit { fresh: None, free: Some(Seq::<PixelData>::empty()) }),
            cluster_cells(r.1) == Seq::<PixelData>::empty(),
    {
        (ClusterExchange { fresh: None, free: Some(cells_new()) }, cells_new())
    }
}

/// Producer-side: claim a free buffer to rebuild into. Returns `None` if the
/// display hasn't recycled the previous snapshot yet; in that case, skip
/// publishing this round, the next update will catch up.
pub fn try_take_free_clusters(exchange: &mut ClusterExchange) -> (r: Option<ClusterVec>)
    ensures
        cells_in(r) == old(exchange)@.free,
        final(exchange)@ == claimed(old(exchange)@),
{
    exchange.free.take()
}

/// Producer-side: hand a freshly-rebuilt snapshot to the display. Pairs with
/// [`try_take_free_clusters`].
pub fn publish_clusters(exchange: &mut ClusterExchange, v: ClusterVec)
    ensures
        final(exchange)@ == handed_over(old(exchange)@, cluster_cells(v)),
{
    exchange.fresh = Some(v);
}

/// Display-side: start using the latest snapshot, if there is a fresh one, and
/// recycle the one that was shown.
pub fn refresh_clusters(exchange: &mut ClusterExchange, shown: &mut ClusterVec)
    ensures
        final(exchange)@ == picked_up(old(exchange)@, cluster_cells(*old(shown))),
        cluster_cells(*final(shown)) == match old(exchange)@.fresh {
            Some(cells) => cells,
            None => cluster_cells(*old(shown)),
        },
{
    if let Some(new) = exchange.fresh.take() {
        let mut spare = new;
        std::mem::swap(&mut spare, shown);
        exchange.free = Some(spare);
    }
}

/// Rebuild the cluster snapshot and hand it to the display, if a free buffer is
/// available. Skipping when none is free is fine: the next refresh catches up.
/// Returns whether a snapshot was published.
pub fn publish_snapshot(exchange: &mut ClusterExchange, registry: &Registry, mode: MapMode) -> (r:
    bool)
    requires
        registry.wf(),
    ensures
        r == old(exchange)@.free is Some,
        !r ==> final(exchange)@ == old(exchange)@,
        r ==> final(exchange)@.free is None && (final(exchange)@.fresh matches Some(cells)
            && is_clusters_of(cells, visible_cells(registry@, mode))),
{
    match try_take_free_clusters(exchange) {
        Some(buf) => {
            let mut buf = buf;
            registry.rebuild_clusters_into(&mut buf, mode);
            publish_clusters(exchange, buf);
            true
        },
        None => false,
    }
}

/// How many buffers are on their way.
pub open spec fn on_their_way(t: Transit) -> int {
    (if t.fresh is Some {
        1int
    } else {
        0int
    }) + (if t.free is Some {
        1int
    } else {
        0int
    })
}

/// Besides the buffer that the display owns there is exactly one, either on its
/// way or in the hands of a producer; no operation loses it or makes another.
pub proof fn law_no_buffer_is_lost(t: Transit, held: int, cells: Seq<PixelData>)
    requires
        on_their_way(t) + held == 1,
        held >= 0,
    ensures
        // claiming moves a free buffer into the producer's hands
        on_their_way(claimed(t)) + (held + if t.free is Some {
            1int
        } else {
            0int
        }) == 1,
        // handing over moves it on, and replaces no other
        held == 1 ==> on_their_way(handed_over(t, cells)) + (held - 1) == 1 && t.fresh is None,
        // picking up swaps it with the display's own
        on_their_way(picked_up(t, cells)) + held == 1,
{
}

/// Seconds over which frames are counted.
pub const FPS_SECONDS: u64 = 10;

/// Counts frames, and reports the count every [`FPS_SECONDS`] seconds.
#[derive(Debug, Clone, Copy, PartialEq, Eq, Structural)]
pub struct FrameCounter {
    pub count: u32,
    pub start: Instant,
}

impl FrameCounter {
    pub fn new(now: Instant) -> (r: FrameCounter)
        ensures
            r == (FrameCounter { count: 0, start: now }),
    {
        FrameCounter { count: 0, start: now }
    }

    /// Count one frame. When more than [`FPS_SECONDS`] seconds have passed,
    /// returns the count and starts anew.
    pub fn tick(&mut self, now: Instant) -> (r: Option<u32>)
        requires
            old(self).count < u32::MAX,
            old(self).start.ticks <= now.ticks,
        ensures
            if now.ticks - old(self).start.ticks > FPS_SECONDS * TICK_HZ {
                r == Some((old(self).count + 1) as u32) && *final(self) == (FrameCounter {
                    count: 0,
                    start: now,
                })
            } else {
                r is None && *final(self) == (FrameCounter {
                    count: (old(self).count + 1) as u32,
                    start: old(self).start,
                })
            },
    {
        self.count = self.count + 1;
        if now.duration_since(self.start).ticks > FPS_SECONDS * TICK_HZ {
            let count: u32 = self.count;
            self.count = 0;
            self.start = now;
            Some(count)
        } else {
            None
        }
    }
}

/// A fade starts out with the first color and ends up with the second.
pub proof fn law_fade_ends(a: Seq<u8>, b: Seq<u8>)
    requires
        a.len() == 3,
        b.len() == 3,
    ensures
        blended(a, b, 0) == a,
        blended(a, b, 255) == b,
{
    assert(blended(a, b, 0) =~= a);
    assert(blended(a, b, 255) =~= b);
}

/// Each channel of a fade lies between those of the two colors.
pub proof fn law_fade_stays_between(x: u8, y: u8, t: u8)
    ensures
        x <= y ==> x <= lerp(x, y, t) <= y,
        y <= x ==> y <= lerp(x, y, t) <= x,
{
    lemma_lerp(x, y, t);
}

/// A pixel with one member, or with none, never changes its color under the
/// local cycle.
pub proof fn law_single_pixels_are_flat(bits: u8, now_ms: nat, col: ColorMode)
    requires
        ones(bits) <= 1,
    ensures
        cluster_rgb(bits, now_ms, col) == if bits == 0 {
            black()
        } else {
            bit_color(col, bits)
        },
{
    assert(bits == 0 <==> ones(bits) == 0) by (bit_vector);
}

/// The local cycle of a pixel repeats after one slot per member.
pub proof fn law_cycle_repeats(bits: u8, now_ms: nat, col: ColorMode)
    ensures
        cluster_rgb(bits, now_ms + ones(bits) as nat * (SLOT_MS as nat), col) == cluster_rgb(
            bits,
            now_ms,
            col,
        ),
{
    let n = ones(bits) as nat;
    let period = n * (SLOT_MS as nat);
    if n > 0 {
        assert((now_ms + period) % period == now_ms % period) by (nonlinear_arith)
            requires
                period > 0,
        ;
    }
}

/// Outside of a fade, a pixel under the local cycle shows the color of one of
/// its own members.
pub proof fn law_cycle_shows_members(bits: u8, now_ms: nat, col: ColorMode)
    requires
        ones(bits) > 1,
        fade_at(now_ms, ones(bits) as nat) is None,
    ensures
        ({
            let member = nth(bits, slot_at(now_ms, ones(bits) as nat));
            &&& member & bits == member
            &&& ones(member) == 1
            &&& cluster_rgb(bits, now_ms, col) == bit_color(col, member)
        }),
{
    let n = ones(bits) as nat;
    lemma_slot(now_ms, n);
    law_nth_is_a_member(bits, slot_at(now_ms, n));
}

/// The slot that is on is one of the slots.
proof fn lemma_slot(now_ms: nat, n: nat)
    requires
        n > 0,
    ensures
        slot_at(now_ms, n) < n,
{
    let period = n * (SLOT_MS as nat);
    assert(period > 0 && now_ms % period < period) by (nonlinear_arith)
        requires
            n > 0,
            period == n * 1500,
    ;
}

/// Trains of unknown kind are never highlighted by the global pulse.
pub proof fn law_unknown_is_never_active(col: ColorMode, slot: int)
    requires
        0 <= slot < active_bits(col).len(),
    ensures
        active_bits(col)[slot] != TrainType::Unknown.bit(),
        active_bits(col)[slot] != ServiceType::Unknown.bit(),
{
}

/// Every frame has one dot per pixel of the snapshot, where that pixel is.
pub proof fn law_frame_covers_snapshot(
    cfg: DisplayConfig,
    pixels: Seq<PixelData>,
    now_ms: nat,
    i: int,
)
    requires
        0 <= i < pixels.len(),
    ensures
        frame(cfg, pixels, now_ms).len() == pixels.len(),
        frame(cfg, pixels, now_ms)[i].0 as int * 256 + frame(cfg, pixels, now_ms)[i].1 as int
            == pixels[i].coord_key,
{
}

/// The colors of the train types, all different; nothing else has one.
pub proof fn law_type_colors(t: TrainType, bit: u8)
    ensures
        type_color(t.bit()) == match t {
            TrainType::Unknown => seq![10u8, 10, 10],
            TrainType::SNG => seq![255u8, 80, 0],
            TrainType::SLT => seq![0u8, 200, 255],
            TrainType::Flirt => seq![255u8, 0, 200],
            TrainType::ICM => seq![255u8, 220, 0],
            TrainType::DDZ => seq![0u8, 255, 80],
            TrainType::VIRM => seq![80u8, 80, 255],
            TrainType::ICNG => seq![255u8, 255, 255],
        },
        (forall|u: TrainType| bit != #[trigger] u.bit()) ==> type_color(bit) == seq![0u8, 0, 0],
        type_color(bit).len() == 3,
{
    if forall|u: TrainType| bit != #[trigger] u.bit() {
        assert(bit != TrainType::Unknown.bit() && bit != TrainType::SNG.bit() && bit
            != TrainType::SLT.bit() && bit != TrainType::Flirt.bit() && bit != TrainType::ICM.bit()
            && bit != TrainType::DDZ.bit() && bit != TrainType::VIRM.bit() && bit
            != TrainType::ICNG.bit());
    }
}

/// The colors of the service categories, all different; nothing else has one.
pub proof fn law_service_colors(s: ServiceType, bit: u8)
    ensures
        service_color(s.bit()) == match s {
            ServiceType::Unknown => seq![10u8, 10, 10],
            ServiceType::Sprinter => seq![0u8, 200, 255],
            ServiceType::Intercity => seq![255u8, 220, 0],
            ServiceType::IntercityDirect => seq![255u8, 40, 40],
        },
        (forall|u: ServiceType| bit != #[trigger] u.bit()) ==> service_color(bit) == seq![
            0u8,
            0,
            0,
        ],
        service_color(bit).len() == 3,
{
    if forall|u: ServiceType| bit != #[trigger] u.bit() {
        assert(bit != ServiceType::Unknown.bit() && bit != ServiceType::Sprinter.bit() && bit
            != ServiceType::Intercity.bit() && bit != ServiceType::IntercityDirect.bit());
    }
}

/// A dimmed color has a sixth of each channel.
pub proof fn law_dimming_is_to_a_sixth(c: Seq<u8>, i: int)
    requires
        0 <= i < 3,
    ensures
        dimmed(c).len() == 3,
        6 * dimmed(c)[i] <= c[i] < 6 * dimmed(c)[i] + 6,
{
}

/// A fade is linear in each channel.
pub proof fn law_fade_is_linear(a: Seq<u8>, b: Seq<u8>, t: u8, i: int)
    requires
        0 <= i < 3,
    ensures
        blended(a, b, t).len() == 3,
        255 * blended(a, b, t)[i] <= a[i] * (255 - t) + b[i] * t < 255 * blended(a, b, t)[i] + 255,
{
    lemma_lerp(a[i], b[i], t);
}

/// The pulse has one slot for each known type, or for each known service, and for
/// nothing else.
pub proof fn law_pulse_has_a_slot_for_each(t: TrainType, s: ServiceType, k: int, j: int)
    ensures
        active_bits(ColorMode::ByType).len() == 7,
        active_bits(ColorMode::ByService).len() == 3,
        t != TrainType::Unknown ==> active_bits(ColorMode::ByType).contains(t.bit()),
        s != ServiceType::Unknown ==> active_bits(ColorMode::ByService).contains(s.bit()),
        0 <= k < j < 7 ==> active_bits(ColorMode::ByType)[k] != active_bits(ColorMode::ByType)[j],
        0 <= k < j < 3 ==> active_bits(ColorMode::ByService)[k] != active_bits(
            ColorMode::ByService,
        )[j],
        !active_bits(ColorMode::ByType).contains(TrainType::Unknown.bit()),
        !active_bits(ColorMode::ByService).contains(ServiceType::Unknown.bit()),
{
    let types = active_bits(ColorMode::ByType);
    let services = active_bits(ColorMode::ByService);
    assert(types[0] == 2 && types[1] == 4 && types[2] == 8 && types[3] == 16 && types[4] == 32
        && types[5] == 64 && types[6] == 128);
    assert(services[0] == 2 && services[1] == 4 && services[2] == 8);
}

/// The slot of the pulse in which a type is highlighted.
pub open spec fn type_slot(t: TrainType) -> nat {
    match t {
        TrainType::Unknown => 7,
        TrainType::SNG => 0,
        TrainType::SLT => 1,
        TrainType::Flirt => 2,
        TrainType::ICM => 3,
        TrainType::DDZ => 4,
        TrainType::VIRM => 5,
        TrainType::ICNG => 6,
    }
}

/// The slot of the pulse in which a service is highlighted.
pub open spec fn service_slot(s: ServiceType) -> nat {
    match s {
        ServiceType::Unknown => 3,
        ServiceType::Sprinter => 0,
        ServiceType::Intercity => 1,
        ServiceType::IntercityDirect => 2,
    }
}

/// Every known type has its turn under the pulse, for a second and a half in
/// every round of seven: for the first second of it every pixel with a train of
/// that type is in the full color of the type, and every other pixel in a sixth
/// of the color of its lowest type.
pub proof fn law_pulse_highlights_each_type(t: TrainType, round: nat, ms: nat, pixel: PixelData)
    requires
        t != TrainType::Unknown,
        ms <= 1000,
    ensures
        ({
            let cfg = DisplayConfig { viz: VizMode::GlobalPulse, col: ColorMode::ByType };
            let rgb = pixel_rgb(cfg, pixel, 1500 * (7 * round + type_slot(t)) + ms);
            let own = type_color(lowest(pixel.types));
            if pixel.types == 0 {
                rgb == seq![0u8, 0, 0]
            } else if pixel.types & t.bit() != 0 {
                rgb == type_color(t.bit())
            } else {
                rgb == seq![(own[0] / 6) as u8, (own[1] / 6) as u8, (own[2] / 6) as u8]
            }
        }),
{
    let now = 1500 * (7 * round + type_slot(t)) + ms;
    let active = active_bits(ColorMode::ByType);
    assert(now % 10500 == 1500 * type_slot(t) + ms);
    assert(slot_at(now, 7) == type_slot(t));
    assert(fade_at(now, 7) is None);
    assert(active[type_slot(t) as int] == t.bit());
    let own = type_color(lowest(pixel.types));
    law_type_colors(t, lowest(pixel.types));
    assert(dimmed(own) =~= seq![(own[0] / 6) as u8, (own[1] / 6) as u8, (own[2] / 6) as u8]);
}

/// Every known service has its turn under the pulse, for a second and a half in
/// every round of three: for the first second of it every pixel with a train of
/// that service is in the full color of the service, and every other pixel in a
/// sixth of the color of its lowest service.
pub proof fn law_pulse_highlights_each_service(
    s: ServiceType,
    round: nat,
    ms: nat,
    pixel: PixelData,
)
    requires
        s != ServiceType::Unknown,
        ms <= 1000,
    ensures
        ({
            let cfg = DisplayConfig { viz: VizMode::GlobalPulse, col: ColorMode::ByService };
            let rgb = pixel_rgb(cfg, pixel, 1500 * (3 * round + service_slot(s)) + ms);
            let own = service_color(lowest(pixel.services));
            if pixel.services == 0 {
                rgb == seq![0u8, 0, 0]
            } else if pixel.services & s.bit() != 0 {
                rgb == service_color(s.bit())
            } else {
                rgb == seq![(own[0] / 6) as u8, (own[1] / 6) as u8, (own[2] / 6) as u8]
            }
        }),
{
    let now = 1500 * (3 * round + service_slot(s)) + ms;
    let active = active_bits(ColorMode::ByService);
    assert(now % 4500 == 1500 * service_slot(s) + ms);
    assert(slot_at(now, 3) == service_slot(s));
    assert(fade_at(now, 3) is None);
    assert(active[service_slot(s) as int] == s.bit());
    let own = service_color(lowest(pixel.services));
    law_service_colors(s, lowest(pixel.services));
    assert(dimmed(own) =~= seq![(own[0] / 6) as u8, (own[1] / 6) as u8, (own[2] / 6) as u8]);
}

/// Which of `n` slots is on `ms` into the `q`-th one, and how far its fade is.
proof fn lemma_in_slot(q: nat, ms: nat, n: nat)
    requires
        0 < n <= 8,
        ms < 1500,
    ensures
        slot_at(1500 * q + ms, n) == q % n,
        fade_at(1500 * q + ms, n) == if ms <= 1000 {
            None::<u8>
        } else {
            Some(((ms - 1000) * 255 / 500) as u8)
        },
{
    let r = q % n;
    let d = q / n;
    assert(q == n * d + r && r < n) by (nonlinear_arith)
        requires
            n > 0,
            r == q % n,
            d == q / n,
    ;
    let now = 1500 * q + ms;
    let period = n * 1500;
    assert(now == period * d + (1500 * r + ms)) by (nonlinear_arith)
        requires
            now == 1500 * q + ms,
            q == n * d + r,
            period == n * 1500,
    ;
    assert(1500 * r + ms < period) by (nonlinear_arith)
        requires
            r + 1 <= n,
            ms < 1500,
            period == n * 1500,
    ;
    assert(now % period == 1500 * r + ms) by (nonlinear_arith)
        requires
            now == period * d + (1500 * r + ms),
            0 <= 1500 * r + ms < period,
    ;
    assert(period == n * (SLOT_MS as nat));
}

/// A color faded into itself does not change.
proof fn lemma_fade_to_itself(c: Seq<u8>, t: u8)
    requires
        c.len() == 3,
    ensures
        blended(c, c, t) == c,
{
    lemma_lerp(c[0], c[0], t);
    lemma_lerp(c[1], c[1], t);
    lemma_lerp(c[2], c[2], t);
    assert(blended(c, c, t) =~= c);
}

/// Every color has three channels.
proof fn lemma_three_channels(col: ColorMode, bit: u8, active: u8)
    ensures
        bit_color(col, bit).len() == 3,
        pulse_rgb(bit, active, col).len() == 3,
{
}

/// Time goes in slots of a second and a half. In the first second of each the
/// colors stand still; in the last half second they fade evenly into those of the
/// next slot. This holds of every pixel, in both animations and on both axes.
pub proof fn law_colors_stand_and_fade(
    cfg: DisplayConfig,
    pixel: PixelData,
    q: nat,
    ms: nat,
    i: int,
)
    requires
        ms < 1500,
        0 <= i < 3,
    ensures
        ({
            let a = pixel_rgb(cfg, pixel, 1500 * q);
            let b = pixel_rgb(cfg, pixel, 1500 * (q + 1));
            let c = pixel_rgb(cfg, pixel, 1500 * q + ms);
            let t = (ms - 1000) * 255 / 500;
            &&& c.len() == 3
            &&& ms <= 1000 ==> c == a
            &&& ms > 1000 ==> c[i] == (a[i] * (255 - t) + b[i] * t) / 255
        }),
{
    match cfg.viz {
        VizMode::GlobalPulse => {
            lemma_pulse_fades(axis_bits(cfg.col, pixel), cfg.col, q, ms);
        },
        VizMode::PerCluster => {
            lemma_cluster_fades(axis_bits(cfg.col, pixel), cfg.col, q, ms);
        },
    }
    let a = pixel_rgb(cfg, pixel, 1500 * q);
    let b = pixel_rgb(cfg, pixel, 1500 * (q + 1));
    if ms > 1000 {
        lemma_lerp(a[i], b[i], ((ms - 1000) * 255 / 500) as u8);
    }
}

/// The turn after the `q`-th of `n`.
proof fn lemma_next_turn(q: nat, n: nat)
    requires
        2 <= n <= 8,
    ensures
        (q % n + 1) % n == (q + 1) % n,
{
    assert(n == 2 || n == 3 || n == 4 || n == 5 || n == 6 || n == 7 || n == 8);
}

proof fn lemma_pulse_fades(bits: u8, col: ColorMode, q: nat, ms: nat)
    requires
        ms < 1500,
    ensures
        ({
            let a = global_rgb(bits, 1500 * q, col);
            let b = global_rgb(bits, 1500 * (q + 1), col);
            &&& a.len() == 3
            &&& b.len() == 3
            &&& global_rgb(bits, 1500 * q + ms, col) == if ms <= 1000 {
                a
            } else {
                blended(a, b, ((ms - 1000) * 255 / 500) as u8)
            }
        }),
{
    let active = active_bits(col);
    let n = active.len();
    assert(n == 7 || n == 3);
    lemma_in_slot(q, ms, n);
    lemma_in_slot(q, 0, n);
    lemma_in_slot(q + 1, 0, n);
    lemma_next_turn(q, n);
    lemma_three_channels(col, bits, active[(q % n) as int]);
    lemma_three_channels(col, bits, active[((q + 1) % n) as int]);
}

proof fn lemma_cluster_fades(bits: u8, col: ColorMode, q: nat, ms: nat)
    requires
        ms < 1500,
    ensures
        ({
            let a = cluster_rgb(bits, 1500 * q, col);
            let b = cluster_rgb(bits, 1500 * (q + 1), col);
            &&& a.len() == 3
            &&& b.len() == 3
            &&& cluster_rgb(bits, 1500 * q + ms, col) == if ms <= 1000 {
                a
            } else {
                blended(a, b, ((ms - 1000) * 255 / 500) as u8)
            }
        }),
{
    let n = ones(bits) as nat;
    lemma_three_channels(col, bits, 0);
    assert(ones(bits) <= 8) by (bit_vector);
    if n <= 1 {
        lemma_fade_to_itself(
            cluster_rgb(bits, 1500 * q, col),
            ((ms - 1000) * 255 / 500) as u8,
        );
    } else {
        lemma_in_slot(q, ms, n);
        lemma_in_slot(q, 0, n);
        lemma_in_slot(q + 1, 0, n);
        lemma_next_turn(q, n);
        lemma_three_channels(col, nth(bits, q % n), 0);
        lemma_three_channels(col, nth(bits, (q + 1) % n), 0);
    }
}

/// Under the local cycle a pixel shows its own members in turn, from the lowest to
/// the highest, and no other: in the `q`-th slot the member that has `q` members
/// below it, counted round and round.
pub proof fn law_cycle_shows_each_member(pixel: PixelData, col: ColorMode, q: nat, member: u8)
    requires
        ({
            let bits = match col {
                ColorMode::ByType => pixel.types,
                ColorMode::ByService => pixel.services,
            };
            &&& member != 0
            &&& ones(member) == 1
            &&& member & bits == member
            &&& ones(bits) > 0
            &&& ones(bits & (member - 1) as u8) == q % (ones(bits) as nat)
        }),
    ensures
        pixel_rgb(DisplayConfig { viz: VizMode::PerCluster, col }, pixel, 1500 * q) == match col {
            ColorMode::ByType => type_color(member),
            ColorMode::ByService => service_color(member),
        },
{
    let bits = axis_bits(col, pixel);
    let n = ones(bits) as nat;
    assert(ones(bits) <= 8) by (bit_vector);
    lemma_in_slot(q, 0, n);
    law_member_is_known_by_its_place(bits, member, q % n);
    if n == 1 {
        assert(member == bits) by (bit_vector)
            requires
                ones(member) == 1,
                ones(bits) == 1,
                member & bits == member,
        ;
    }
}

/// A pixel without a train is black.
pub proof fn law_empty_pixels_are_black(cfg: DisplayConfig, pixel: PixelData, q: nat)
    requires
        pixel.types == 0,
        pixel.services == 0,
    ensures
        pixel_rgb(cfg, pixel, 1500 * q) == seq![0u8, 0, 0],
{
    let n = active_bits(cfg.col).len();
    lemma_in_slot(q, 0, n);
    assert(ones(0) == 0) by (bit_vector);
}

/// Every pixel of the snapshot is painted, where it is and in the color that the
/// configuration gives it, whatever the other pixels are.
pub proof fn law_frame_paints_each_pixel(
    cfg: DisplayConfig,
    a: Seq<PixelData>,
    b: Seq<PixelData>,
    now_ms: nat,
    i: int,
)
    requires
        0 <= i < a.len(),
    ensures
        frame(cfg, a, now_ms).len() == a.len(),
        frame(cfg, a, now_ms)[i].0 == a[i].coord_key / 256,
        frame(cfg, a, now_ms)[i].1 == a[i].coord_key % 256,
        frame(cfg, a, now_ms)[i].2 == pixel_rgb(cfg, a[i], now_ms),
        frame(cfg, a + b, now_ms) == frame(cfg, a, now_ms) + frame(cfg, b, now_ms),
{
    assert(frame(cfg, a + b, now_ms) =~= frame(cfg, a, now_ms) + frame(cfg, b, now_ms));
}

/// A snapshot that is handed over is what the display finds next, unless a later
/// one replaces it; and what the display showed until then is free again.
pub proof fn law_published_snapshot_is_shown(
    t: Transit,
    cells: Seq<PixelData>,
    later: Seq<PixelData>,
    shown: Seq<PixelData>,
)
    ensures
        handed_over(t, cells).fresh == Some(cells),
        handed_over(t, cells).free == t.free,
        handed_over(handed_over(t, cells), later).fresh == Some(later),
        claimed(t).free is None,
        claimed(t).fresh == t.fresh,
        picked_up(handed_over(t, cells), shown).fresh is None,
        picked_up(handed_over(t, cells), shown).free == Some(shown),
        t.fresh is None ==> picked_up(t, shown) == t,
{
}

} // verus!
