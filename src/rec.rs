//! The data of a replay file.
use vstd::prelude::*;
use crate::Position;

verus! {

/// One frame of a replay.
#[derive(Debug, Clone, Copy, PartialEq, Eq, Structural)]
pub struct Frame {
    /// Bike position, as the bit patterns of two single-precision floats.
    pub bike: Position<u32>,
    pub left_wheel: Position<i16>,
    pub right_wheel: Position<i16>,
    pub head: Position<i16>,
    /// Bike rotation, 0 to 10000.
    pub rotation: i16,
    pub left_wheel_rotation: u8,
    pub right_wheel_rotation: u8,
    pub throttle: bool,
    /// True when facing right.
    pub right: bool,
    /// Spring sound volume.
    pub volume: i16,
}

/// A replay event.
#[derive(Debug, Clone, Copy, PartialEq, Eq)]
pub struct Event {
    /// Time of the event, as the bit pattern of a double.
    pub time: u64,
    pub event_type: [u32; 2],
}

/// A replay.
#[derive(Debug, Clone)]
pub struct Rec {
    pub frame_count: i32,
    pub multi: bool,
    pub flag_tag: bool,
    /// Random number that links the replay to its level.
    pub link: u32,
    /// File name of the level.
    pub level: Vec<u8>,
    pub frames: Vec<Frame>,
    pub events: Vec<Event>,
}

impl Rec {
    /// An empty replay.
    pub fn new() -> (r: Rec)
        ensures
            r.frame_count == 0,
            !r.multi,
            !r.flag_tag,
            r.link == 0,
            r.level@.len() == 0,
            r.frames@.len() == 0,
            r.events@.len() == 0,
    {
        Rec {
            frame_count: 0,
            multi: false,
            flag_tag: false,
            link: 0,
            level: Vec::new(),
            frames: Vec::new(),
            events: Vec::new(),
        }
    }
}

impl Default for Rec {
    fn default() -> (r: Rec)
        ensures
            r.frame_count == 0,
            !r.multi,
            !r.flag_tag,
            r.link == 0,
            r.level@.len() == 0,
            r.frames@.len() == 0,
            r.events@.len() == 0,
    {
        Rec::new()
    }
}

} // verus!
