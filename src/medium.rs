//! The part of a participating medium's intersection that orders distances.
use vstd::prelude::*;
use crate::order::{KeyRange, key_max, key_min, total_key};

verus! {

/// Key of the distance zero.
pub const ZERO_KEY: u32 = 0x8000_0000;

/// The stretch of a ray inside a medium, given the keys of the boundary's
/// entry and exit crossings and the caller's range: the entry is raised to the
/// range's start, the exit lowered to its end; nothing is left where the entry
/// is then not before the exit; an entry behind the ray's origin starts at zero.
pub fn medium_span(entry: u32, exit: u32, t: KeyRange) -> (r: Option<KeyRange>)
    ensures
        ({
            let a = key_max(entry, t.start);
            let b = key_min(exit, t.end);
            r == if a >= b {
                None
            } else {
                Some(KeyRange { start: key_max(a, total_key(0)), end: b })
            }
        }),
{
    let mut a = entry;
    let mut b = exit;
    if a < t.start {
        a = t.start;
    }
    if b > t.end {
        b = t.end;
    }
    if a >= b {
        return None;
    }
    if a < ZERO_KEY {
        a = ZERO_KEY;
    }
    Some(KeyRange { start: a, end: b })
}

} // verus!
