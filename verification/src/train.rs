//! What is known of a train, and of one pixel of the map.
use vstd::prelude::*;
use crate::projection::PixelCoord;
use crate::time::Instant;

verus! {

/// Rolling-stock family of a train.
#[derive(Debug, Clone, Copy, PartialEq, Eq, Structural)]
pub enum TrainType {
    Unknown,
    SNG,
    SLT,
    Flirt,
    ICM,
    DDZ,
    VIRM,
    ICNG,
}

impl TrainType {
    pub const UNKNOWN_BIT: u8 = 1;
    pub const SNG_BIT: u8 = 2;
    pub const SLT_BIT: u8 = 4;
    pub const FLIRT_BIT: u8 = 8;
    pub const ICM_BIT: u8 = 16;
    pub const DDZ_BIT: u8 = 32;
    pub const VIRM_BIT: u8 = 64;
    pub const ICNG_BIT: u8 = 128;

    /// The mask bit that stands for this type.
    pub open spec fn bit(self) -> u8 {
        match self {
            TrainType::Unknown => 1,
            TrainType::SNG => 2,
            TrainType::SLT => 4,
            TrainType::Flirt => 8,
            TrainType::ICM => 16,
            TrainType::DDZ => 32,
            TrainType::VIRM => 64,
            TrainType::ICNG => 128,
        }
    }

    /// Single-bit mask representation; eight distinct values fit in a `u8` so
    /// clusters can be reduced to one byte covering every type present.
    pub fn as_bit(self) -> (r: u8)
        ensures
            r == self.bit(),
    {
        match self {
            TrainType::Unknown => Self::UNKNOWN_BIT,
            TrainType::SNG => Self::SNG_BIT,
            TrainType::SLT => Self::SLT_BIT,
            TrainType::Flirt => Self::FLIRT_BIT,
            TrainType::ICM => Self::ICM_BIT,
            TrainType::DDZ => Self::DDZ_BIT,
            TrainType::VIRM => Self::VIRM_BIT,
            TrainType::ICNG => Self::ICNG_BIT,
        }
    }
}

/// Service category of a train.
#[derive(Debug, Clone, Copy, PartialEq, Eq, Structural)]
pub enum ServiceType {
    Unknown,
    Sprinter,
    Intercity,
    IntercityDirect,
}

impl ServiceType {
    pub const UNKNOWN_BIT: u8 = 1;
    pub const SPRINTER_BIT: u8 = 2;
    pub const INTERCITY_BIT: u8 = 4;
    pub const INTERCITY_DIRECT_BIT: u8 = 8;

    /// The mask bit that stands for this category.
    pub open spec fn bit(self) -> u8 {
        match self {
            ServiceType::Unknown => 1,
            ServiceType::Sprinter => 2,
            ServiceType::Intercity => 4,
            ServiceType::IntercityDirect => 8,
        }
    }

    /// Single-bit mask representation; the four variants fit in the low nibble
    /// of a `u8` so clusters can carry a bitmask of every service type present.
    pub fn as_bit(self) -> (r: u8)
        ensures
            r == self.bit(),
    {
        match self {
            ServiceType::Unknown => Self::UNKNOWN_BIT,
            ServiceType::Sprinter => Self::SPRINTER_BIT,
            ServiceType::Intercity => Self::INTERCITY_BIT,
            ServiceType::IntercityDirect => Self::INTERCITY_DIRECT_BIT,
        }
    }
}

/// One row of the live registry. Identified externally by train number.
///
/// The two `*_attempt_ago` fields hold `last_seen` minus the time of the most
/// recent fetch attempt on that axis, in clock ticks: negative when the attempt
/// came after the train was last seen. The sentinel
/// [`TrainState::ATTEMPT_NEVER`] means that no attempt has been made yet.
#[derive(Debug, Clone, Copy)]
pub struct TrainState {
    pub pixel: PixelCoord,
    pub last_seen: Instant,
    pub typ: TrainType,
    pub service: ServiceType,
    pub last_type_attempt_ago: i128,
    pub last_service_attempt_ago: i128,
}

impl TrainState {
    /// Sentinel for the attempt offsets, meaning "no attempt yet".
    pub const ATTEMPT_NEVER: i128 = i128::MAX;

    /// A train of which only the position is known.
    pub open spec fn fresh(pixel: PixelCoord, last_seen: Instant) -> TrainState {
        TrainState {
            pixel,
            last_seen,
            typ: TrainType::Unknown,
            service: ServiceType::Unknown,
            last_type_attempt_ago: Self::ATTEMPT_NEVER,
            last_service_attempt_ago: Self::ATTEMPT_NEVER,
        }
    }

    pub fn new(pixel: PixelCoord, last_seen: Instant) -> (r: TrainState)
        ensures
            r == TrainState::fresh(pixel, last_seen),
    {
        TrainState {
            pixel,
            last_seen,
            typ: TrainType::Unknown,
            service: ServiceType::Unknown,
            last_type_attempt_ago: Self::ATTEMPT_NEVER,
            last_service_attempt_ago: Self::ATTEMPT_NEVER,
        }
    }
}

/// One on-screen pixel after cluster collapse. `types` / `services` are
/// bitmasks of every distinct [`TrainType`] / [`ServiceType`] sharing the
/// pixel (see the respective `as_bit` methods).
#[derive(Debug, Clone, Copy, PartialEq, Eq, Structural)]
pub struct PixelData {
    pub coord_key: u16,
    pub types: u8,
    pub services: u8,
}

impl PixelData {
    /// The cell that one train alone makes.
    pub open spec fn of(state: TrainState) -> PixelData {
        PixelData {
            coord_key: state.pixel.key(),
            types: state.typ.bit(),
            services: state.service.bit(),
        }
    }
}

impl<'a> From<&'a TrainState> for PixelData {
    fn from(state: &'a TrainState) -> (r: PixelData) {
        PixelData {
            coord_key: state.pixel.as_u16(),
            types: state.typ.as_bit(),
            services: state.service.as_bit(),
        }
    }
}

impl<'a> vstd::std_specs::convert::FromSpecImpl<&'a TrainState> for PixelData {
    open spec fn obeys_from_spec() -> bool {
        true
    }

    open spec fn from_spec(state: &'a TrainState) -> PixelData {
        PixelData::of(*state)
    }
}

/// Different types have disjoint bits, so a mask of types says exactly which
/// types are in it.
pub proof fn law_type_bits_are_disjoint(a: TrainType, b: TrainType)
    ensures
        a.bit() != 0,
        a.bit() & b.bit() == if a == b {
            a.bit()
        } else {
            0
        },
{
    let x = a.bit();
    let y = b.bit();
    assert(x & x == x) by (bit_vector);
    assert(x != y ==> x & y == 0) by (bit_vector)
        requires
            x == 1 || x == 2 || x == 4 || x == 8 || x == 16 || x == 32 || x == 64 || x == 128,
            y == 1 || y == 2 || y == 4 || y == 8 || y == 16 || y == 32 || y == 64 || y == 128,
    ;
}

/// Different service categories have disjoint bits, all in the low nibble.
pub proof fn law_service_bits_are_disjoint(a: ServiceType, b: ServiceType)
    ensures
        a.bit() != 0,
        a.bit() < 16,
        a.bit() & b.bit() == if a == b {
            a.bit()
        } else {
            0
        },
{
    let x = a.bit();
    let y = b.bit();
    assert(x & x == x) by (bit_vector);
    assert(x != y ==> x & y == 0) by (bit_vector)
        requires
            x == 1 || x == 2 || x == 4 || x == 8,
            y == 1 || y == 2 || y == 4 || y == 8,
    ;
}

/// The mask bits of the types and services, in the order in which they are
/// declared.
pub proof fn law_bit_values(t: TrainType, s: ServiceType)
    ensures
        t.bit() == match t {
            TrainType::Unknown => 0x01u8,
            TrainType::SNG => 0x02,
            TrainType::SLT => 0x04,
            TrainType::Flirt => 0x08,
            TrainType::ICM => 0x10,
            TrainType::DDZ => 0x20,
            TrainType::VIRM => 0x40,
            TrainType::ICNG => 0x80,
        },
        s.bit() == match s {
            ServiceType::Unknown => 0x01u8,
            ServiceType::Sprinter => 0x02,
            ServiceType::Intercity => 0x04,
            ServiceType::IntercityDirect => 0x08,
        },
{
}

/// The cell of one train lies on its pixel and has the bits of its type and
/// service, and no other.
pub proof fn law_cell_of_one_train(state: TrainState)
    ensures
        PixelData::of(state).coord_key == 256 * state.pixel.x + state.pixel.y,
        PixelData::of(state).types == state.typ.bit(),
        PixelData::of(state).services == state.service.bit(),
{
}

} // verus!
