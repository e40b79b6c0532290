//! The settings that callers pass as plain integers when frames are made and
//! encoded: the quantisation speed, the transparent palette index and the
//! repeat count.
use vstd::prelude::*;

verus! {

/// The speed for colour reduction of a frame is from 1 up to, not including, 30.
pub fn speed_in_range(speed: i32) -> (r: bool)
    ensures
        r == (1 <= speed < 30),
{
    1 <= speed && speed < 30
}

/// The transparent palette index: a value from 0 up to, not including, 255
/// names one; any other value names none.
pub fn transparent_index(value: i32) -> (r: Option<u8>)
    ensures
        r == (if 0 <= value < 255 { Some(value as u8) } else { None::<u8> }),
{
    if 0 <= value && value < 255 {
        Some(value as u8)
    } else {
        None
    }
}

/// The number of repetitions of an animation: a value from 0 up to, not
/// including, 65535 is a finite count; any other value means forever (`None`).
pub fn repeat_count(value: i32) -> (r: Option<u16>)
    ensures
        r == (if 0 <= value < 65535 { Some(value as u16) } else { None::<u16> }),
{
    if 0 <= value && value < 65535 {
        Some(value as u16)
    } else {
        None
    }
}

} // verus!
