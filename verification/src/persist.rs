//! What is stored of the display configuration, and when.
//!
//! Flash writes are blocking (the CPU stalls for milliseconds while a sector is
//! erased or programmed), so saves are funneled through a slot that keeps the
//! latest configuration only and is emptied by one task.
use vstd::prelude::*;
use crate::display::{ColorMode, DisplayConfig, VizMode};

verus! {

/// First byte of the flash region, on a 4 KiB sector boundary.
pub const FLASH_START: u32 = 0x9000;

/// End of the flash region, on a 4 KiB sector boundary.
pub const FLASH_END: u32 = 0xf000;

/// Key of the configuration entry.
pub const KEY_DISPLAY_CONFIG: u8 = 0;

/// Length of the buffer for a serialized key and value.
pub const SCRATCH_LEN: usize = 16;

/// Why a configuration could not be written or read.
#[derive(Debug, Clone, Copy, PartialEq, Eq, Structural)]
pub enum SerializationError {
    /// There are less than two bytes.
    BufferTooSmall,
    /// A byte stands for no mode.
    InvalidFormat,
}

/// The byte that stands for an animation mode.
pub open spec fn viz_byte(v: VizMode) -> u8 {
    match v {
        VizMode::PerCluster => 0,
        VizMode::GlobalPulse => 1,
    }
}

/// The byte that stands for a color axis.
pub open spec fn col_byte(c: ColorMode) -> u8 {
    match c {
        ColorMode::ByType => 0,
        ColorMode::ByService => 1,
    }
}

/// A configuration in two bytes.
pub open spec fn config_bytes(cfg: DisplayConfig) -> Seq<u8> {
    seq![viz_byte(cfg.viz), col_byte(cfg.col)]
}

pub fn viz_to_u8(v: VizMode) -> (r: u8)
    ensures
        r == viz_byte(v),
{
    match v {
        VizMode::PerCluster => 0,
        VizMode::GlobalPulse => 1,
    }
}

pub fn viz_from_u8(b: u8) -> (r: Option<VizMode>)
    ensures
        match r {
            Some(v) => viz_byte(v) == b,
            None => forall|v: VizMode| viz_byte(v) != b,
        },
{
    match b {
        0 => Some(VizMode::PerCluster),
        1 => Some(VizMode::GlobalPulse),
        _ => None,
    }
}

pub fn col_to_u8(c: ColorMode) -> (r: u8)
    ensures
        r == col_byte(c),
{
    match c {
        ColorMode::ByType => 0,
        ColorMode::ByService => 1,
    }
}

pub fn col_from_u8(b: u8) -> (r: Option<ColorMode>)
    ensures
        match r {
            Some(c) => col_byte(c) == b,
            None => forall|c: ColorMode| col_byte(c) != b,
        },
{
    match b {
        0 => Some(ColorMode::ByType),
        1 => Some(ColorMode::ByService),
        _ => None,
    }
}

impl DisplayConfig {
    /// Write the configuration to the start of `buffer`. Returns the number of
    /// bytes written.
    pub fn serialize_into(&self, buffer: &mut [u8]) -> (r: Result<usize, SerializationError>)
        ensures
            final(buffer)@.len() == old(buffer)@.len(),
            if old(buffer)@.len() < 2 {
                r == Err::<usize, SerializationError>(SerializationError::BufferTooSmall)
                    && final(buffer)@ == old(buffer)@
            } else {
                r == Ok::<usize, SerializationError>(2) && final(buffer)@ == config_bytes(*self)
                    + old(buffer)@.skip(2)
            },
    {
        if buffer.len() < 2 {
            return Err(SerializationError::BufferTooSmall);
        }
        buffer[0] = viz_to_u8(self.viz);
        buffer[1] = col_to_u8(self.col);
        assert(buffer@ =~= config_bytes(*self) + old(buffer)@.skip(2));
        Ok(2)
    }

    /// Read a configuration from the start of `buffer`. Returns it and the
    /// number of bytes read.
    pub fn deserialize_from(buffer: &[u8]) -> (r: Result<
        (DisplayConfig, usize),
        SerializationError,
    >)
        ensures
            match r {
                Ok((cfg, n)) => n == 2 && buffer@.len() >= 2 && buffer@.take(2) == config_bytes(
                    cfg,
                ),
                Err(SerializationError::BufferTooSmall) => buffer@.len() < 2,
                Err(SerializationError::InvalidFormat) => buffer@.len() >= 2 && forall|
                    cfg: DisplayConfig,
                | #[trigger] config_bytes(cfg) != buffer@.take(2),
            },
    {
        if buffer.len() < 2 {
            return Err(SerializationError::BufferTooSmall);
        }
        let ghost head = buffer@.take(2);
        assert(forall|cfg: DisplayConfig| #[trigger]
            config_bytes(cfg)[0] == viz_byte(cfg.viz) && config_bytes(cfg)[1] == col_byte(cfg.col));
        match (viz_from_u8(buffer[0]), col_from_u8(buffer[1])) {
            (Some(viz), Some(col)) => {
                let cfg = DisplayConfig { viz, col };
                assert(head =~= config_bytes(cfg));
                Ok((cfg, 2))
            },
            _ => {
                assert(head[0] == buffer@[0] && head[1] == buffer@[1]);
                Err(SerializationError::InvalidFormat)
            },
        }
    }
}

/// A configuration that was stored is read back as it was, and no two
/// configurations are stored alike.
pub proof fn law_config_reads_back(a: DisplayConfig, b: DisplayConfig)
    ensures
        config_bytes(a).len() == 2,
        config_bytes(a) == config_bytes(b) ==> a == b,
{
    assert(config_bytes(a)[0] == viz_byte(a.viz) && config_bytes(a)[1] == col_byte(a.col));
    assert(config_bytes(b)[0] == viz_byte(b.viz) && config_bytes(b)[1] == col_byte(b.col));
}

/// The configuration that waits to be saved, if any: the latest one.
#[derive(Debug, Clone, Copy, PartialEq, Eq)]
pub struct SaveSlot {
    pub waiting: Option<DisplayConfig>,
}

impl SaveSlot {
    pub fn new() -> (r: SaveSlot)
        ensures
            r.waiting is None,
    {
        SaveSlot { waiting: None }
    }

    /// Take out what is to be saved next.
    pub fn take(&mut self) -> (r: Option<DisplayConfig>)
        ensures
            r == old(self).waiting,
            final(self).waiting is None,
    {
        self.waiting.take()
    }
}

/// Ask for `cfg` to be saved. Replaces one that still waits.
pub fn request_save(slot: &mut SaveSlot, cfg: DisplayConfig)
    ensures
        final(slot).waiting == Some(cfg),
{
    slot.waiting = Some(cfg);
}

/// What is stored: the animation in the first byte, the color axis in the second,
/// each as 0 for the one at the first start and 1 for the other.
pub proof fn law_config_layout(cfg: DisplayConfig)
    ensures
        config_bytes(cfg).len() == 2,
        config_bytes(cfg)[0] == 0 <==> cfg.viz == VizMode::PerCluster,
        config_bytes(cfg)[0] == 1 <==> cfg.viz == VizMode::GlobalPulse,
        config_bytes(cfg)[1] == 0 <==> cfg.col == ColorMode::ByType,
        config_bytes(cfg)[1] == 1 <==> cfg.col == ColorMode::ByService,
{
}

} // verus!
