//! Which way up the panel hangs, from a two-axis accelerometer.
use vstd::prelude::*;
use vstd::std_specs::convert::FromSpecImpl;

verus! {

/// Bus address of the accelerometer.
pub const DEVICE_ADDRESS: u8 = 0b0011001;

/// Control register.
pub const CTRL_REG1: u8 = 0x20;

/// Value for the control register: 10 Hz data rate, low-power disabled, Z axis
/// disabled.
pub const CTRL_REG1_VALUE: u8 = 0b00100011;

/// First output register; contiguous with the other three of the two axes, so
/// that all are read in a single sweep of four bytes.
pub const OUT_X_L: u8 = 0x28;

/// Milliseconds between two samples.
pub const SAMPLE_MS: u64 = 100;

/// Default chip settings produce values in approximately -2^14..2^14. Smaller
/// magnitudes than 2^12 are not indicative.
pub const THRESHOLD: u16 = 4096;

/// Set the address bit that indicates an auto-advancing read of multiple bytes.
pub fn read_multiple(addr: u8) -> (r: u8)
    ensures
        r == addr | 0x80,
{
    addr | 0x80
}

/// Which edge of the panel is up.
#[derive(Debug, Clone, Copy, PartialEq, Eq, Structural)]
pub enum Direction {
    XUp,
    XDown,
    YUp,
    YDown,
}

impl Direction {
    /// The number that stands for this direction.
    pub open spec fn code(self) -> u8 {
        match self {
            Direction::XUp => 1,
            Direction::XDown => 2,
            Direction::YUp => 3,
            Direction::YDown => 4,
        }
    }

    pub fn as_u8(self) -> (r: u8)
        ensures
            r == self.code(),
    {
        match self {
            Direction::XUp => 1,
            Direction::XDown => 2,
            Direction::YUp => 3,
            Direction::YDown => 4,
        }
    }
}

impl Default for Direction {
    fn default() -> (r: Direction)
        ensures
            r == Direction::XUp,
    {
        Direction::XUp
    }
}

/// The direction that a number stands for; the default one where it stands for
/// none.
pub open spec fn direction_of(value: u8) -> Direction {
    if value == 2 {
        Direction::XDown
    } else if value == 3 {
        Direction::YUp
    } else if value == 4 {
        Direction::YDown
    } else {
        Direction::XUp
    }
}

impl From<u8> for Direction {
    fn from(value: u8) -> (r: Direction) {
        match value {
            1 => Direction::XUp,
            2 => Direction::XDown,
            3 => Direction::YUp,
            4 => Direction::YDown,
            _ => Direction::default(),
        }
    }
}

impl FromSpecImpl<u8> for Direction {
    open spec fn obeys_from_spec() -> bool {
        true
    }

    open spec fn from_spec(value: u8) -> Direction {
        direction_of(value)
    }
}

/// A direction is read back from its number.
pub proof fn law_direction_reads_back(d: Direction)
    ensures
        direction_of(d.code()) == d,
{
}

/// The latest direction, as its number.
#[derive(Debug, Clone, Copy, PartialEq, Eq, Structural)]
pub struct DirectionCell {
    pub code: u8,
}

impl DirectionCell {
    pub fn new() -> (r: DirectionCell)
        ensures
            r.code == Direction::XUp.code(),
    {
        DirectionCell { code: 1 }
    }
}

/// The latest direction.
pub fn get_direction(cell: &DirectionCell) -> (r: Direction)
    ensures
        r == direction_of(cell.code),
{
    Direction::from(cell.code)
}

/// Two bytes as a signed number, the lowest first.
pub open spec fn le_i16(lo: u8, hi: u8) -> int {
    if hi < 128 {
        lo + 256 * hi
    } else {
        lo + 256 * hi - 65536
    }
}

/// The magnitude of a number.
pub open spec fn magnitude(v: int) -> int {
    if v < 0 {
        -v
    } else {
        v
    }
}

/// The direction that a sample indicates: that of the axis with the larger
/// magnitude (Y if they are equal), by its sign. None when both are small.
pub open spec fn indicated(x: int, y: int) -> Option<Direction> {
    if magnitude(x) < THRESHOLD && magnitude(y) < THRESHOLD {
        None
    } else if magnitude(x) > magnitude(y) {
        if x > 0 {
            Some(Direction::XUp)
        } else {
            Some(Direction::XDown)
        }
    } else if y > 0 {
        Some(Direction::YUp)
    } else {
        Some(Direction::YDown)
    }
}

fn read_i16(lo: u8, hi: u8) -> (r: i32)
    ensures
        r == le_i16(lo, hi),
        -32768 <= r <= 32767,
{
    let v: i32 = lo as i32 + 256 * (hi as i32);
    if hi < 128 {
        v
    } else {
        v - 65536
    }
}

fn abs(v: i32) -> (r: i32)
    requires
        -32768 <= v <= 32767,
    ensures
        r == magnitude(v as int),
{
    if v < 0 {
        -v
    } else {
        v
    }
}

/// The direction that the four output bytes indicate, if they indicate one.
pub fn classify(sample: &[u8; 4]) -> (r: Option<Direction>)
    ensures
        r == indicated(le_i16(sample@[0], sample@[1]), le_i16(sample@[2], sample@[3])),
{
    let x: i32 = read_i16(sample[0], sample[1]);
    let y: i32 = read_i16(sample[2], sample[3]);
    if abs(x) < THRESHOLD as i32 && abs(y) < THRESHOLD as i32 {
        return None;
    }
    if abs(x) > abs(y) {
        if x > 0 {
            Some(Direction::XUp)
        } else {
            Some(Direction::XDown)
        }
    } else {
        if y > 0 {
            Some(Direction::YUp)
        } else {
            Some(Direction::YDown)
        }
    }
}

/// Take in a sample. A sample that indicates nothing changes nothing. Returns
/// the direction if it is another one than before.
pub fn on_sample(cell: &mut DirectionCell, sample: &[u8; 4]) -> (r: Option<Direction>)
    ensures
        match indicated(le_i16(sample@[0], sample@[1]), le_i16(sample@[2], sample@[3])) {
            None => r is None && *final(cell) == *old(cell),
            Some(d) => final(cell).code == d.code() && r == if d != direction_of(
                old(cell).code,
            ) {
                Some(d)
            } else {
                None
            },
        },
{
    match classify(sample) {
        None => None,
        Some(direction) => {
            let previous: Direction = get_direction(cell);
            cell.code = direction.as_u8();
            if previous != direction {
                Some(direction)
            } else {
                None
            }
        },
    }
}

/// A panel that hangs still or lies flat keeps its direction: small values
/// never indicate one.
pub proof fn law_small_values_indicate_nothing(x: int, y: int)
    ensures
        indicated(x, y) is None <==> magnitude(x) < THRESHOLD && magnitude(y) < THRESHOLD,
{
}

/// Turning the panel by half a turn turns the direction by half a turn.
pub proof fn law_half_turn(x: int, y: int)
    ensures
        indicated(-x, -y) == match indicated(x, y) {
            Some(Direction::XUp) => Some(Direction::XDown),
            Some(Direction::XDown) => Some(Direction::XUp),
            Some(Direction::YUp) => Some(Direction::YDown),
            Some(Direction::YDown) => Some(Direction::YUp),
            None => None,
        },
{
}

/// Two output bytes are one number in two's complement, the lowest byte first.
pub proof fn law_output_is_twos_complement(lo: u8, hi: u8)
    ensures
        -32768 <= le_i16(lo, hi) <= 32767,
        le_i16(lo, hi) == lo + 256 * hi || le_i16(lo, hi) == lo + 256 * hi - 65536,
{
}

/// Which direction a sample indicates: the axis with the larger reading by its
/// sign, where that reading is at least 4096; Y when both are as large.
pub proof fn law_larger_axis_decides(x: int, y: int)
    ensures
        indicated(x, y) == Some(Direction::XUp) <==> x >= 4096 && x > y && x > -y,
        indicated(x, y) == Some(Direction::XDown) <==> x <= -4096 && -x > y && -x > -y,
        indicated(x, y) == Some(Direction::YUp) <==> y >= 4096 && y >= x && y >= -x,
        indicated(x, y) == Some(Direction::YDown) <==> y <= -4096 && -y >= x && -y >= -x,
        indicated(x, y) is None <==> -4096 < x < 4096 && -4096 < y < 4096,
{
}

/// The numbers of the directions.
pub proof fn law_direction_numbers(d: Direction, value: u8)
    ensures
        1 <= d.code() <= 4,
        d.code() == 1 <==> d == Direction::XUp,
        d.code() == 2 <==> d == Direction::XDown,
        d.code() == 3 <==> d == Direction::YUp,
        d.code() == 4 <==> d == Direction::YDown,
        value == 0 || value > 4 ==> direction_of(value) == Direction::XUp,
{
}

} // verus!
