//! Order keys for single-precision bit patterns, and ranges and boxes over them.
//!
//! A distance or a coordinate travels through the library as the `u32` bit
//! pattern of an IEEE-754 single, turned into a key whose unsigned order is the
//! order of the values: the sign bit is flipped for positive patterns and every
//! bit is flipped for negative ones, as `f32::total_cmp` does.
use vstd::prelude::*;

verus! {

/// Bit pattern of negative zero.
pub const NEG_ZERO_BITS: u32 = 0x8000_0000;

/// The key of a bit pattern under the total order of `f32::total_cmp`.
pub open spec fn total_key(bits: u32) -> u32 {
    if bits >= 0x8000_0000 {
        (0xFFFF_FFFFu32 - bits) as u32
    } else {
        (bits + 0x8000_0000u32) as u32
    }
}

/// The bit pattern of a key: the inverse of `total_key`.
pub open spec fn key_to_bits(key: u32) -> u32 {
    if key >= 0x8000_0000 {
        (key - 0x8000_0000u32) as u32
    } else {
        (0xFFFF_FFFFu32 - key) as u32
    }
}

/// The key of a distance: as `total_key`, with negative zero sent to the key
/// of positive zero, so that the two zeros compare equal as they do in `f32`.
pub open spec fn dist_key(bits: u32) -> u32 {
    if bits == NEG_ZERO_BITS {
        total_key(0)
    } else {
        total_key(bits)
    }
}

/// The key under which `f32::total_cmp` orders the value with these bits.
pub fn order_key(bits: u32) -> (r: u32)
    ensures
        r == total_key(bits),
        key_to_bits(r) == bits,
{
    if bits >= 0x8000_0000 {
        0xFFFF_FFFF - bits
    } else {
        bits + 0x8000_0000
    }
}

/// The key of a distance, with both zeros on one key.
pub fn distance_key(bits: u32) -> (r: u32)
    ensures
        r == dist_key(bits),
        bits != NEG_ZERO_BITS ==> key_to_bits(r) == bits,
{
    if bits == NEG_ZERO_BITS {
        order_key(0)
    } else {
        order_key(bits)
    }
}

/// The bit pattern that a key stands for.
pub fn key_bits(key: u32) -> (r: u32)
    ensures
        r == key_to_bits(key),
        total_key(r) == key,
{
    if key >= 0x8000_0000 {
        key - 0x8000_0000
    } else {
        0xFFFF_FFFF - key
    }
}

/// Keys and bit patterns correspond one to one.
pub proof fn lemma_key_round_trip(bits: u32, key: u32)
    ensures
        key_to_bits(total_key(bits)) == bits,
        total_key(key_to_bits(key)) == key,
{
}

/// A half-open range `[start, end)` of keys.
#[derive(Clone, Copy, Debug, PartialEq, Eq, Structural)]
pub struct KeyRange {
    pub start: u32,
    pub end: u32,
}

/// The smaller of two keys.
pub open spec fn key_min(a: u32, b: u32) -> u32 {
    if a <= b { a } else { b }
}

/// The larger of two keys.
pub open spec fn key_max(a: u32, b: u32) -> u32 {
    if a >= b { a } else { b }
}

impl KeyRange {
    /// Whether `key` lies in `[start, end)`.
    pub open spec fn has(self, key: u32) -> bool {
        self.start <= key && key < self.end
    }

    /// Whether this range covers `other` end to end.
    pub open spec fn covers(self, other: KeyRange) -> bool {
        self.start <= other.start && other.end <= self.end
    }

    /// The union hull of two ranges.
    pub open spec fn hull(self, other: KeyRange) -> KeyRange {
        KeyRange { start: key_min(self.start, other.start), end: key_max(self.end, other.end) }
    }

    pub fn new(start: u32, end: u32) -> (r: KeyRange)
        ensures
            r.start == start,
            r.end == end,
    {
        KeyRange { start, end }
    }

    pub fn contains(&self, key: u32) -> (r: bool)
        ensures
            r == self.has(key),
    {
        self.start <= key && key < self.end
    }

    /// The smallest range from the lower start to the higher end.
    pub fn join(&self, other: &KeyRange) -> (r: KeyRange)
        ensures
            r == self.hull(*other),
    {
        let start = if self.start <= other.start { self.start } else { other.start };
        let end = if self.end >= other.end { self.end } else { other.end };
        KeyRange { start, end }
    }

    /// The key brought into `[start, end]`: a key below the start becomes the
    /// start, and otherwise a key above the end becomes the end.
    pub fn clamp(&self, key: u32) -> (r: u32)
        ensures
            r == (if key < self.start { self.start } else if key > self.end { self.end } else { key }),
    {
        if key < self.start {
            self.start
        } else if key > self.end {
            self.end
        } else {
            key
        }
    }
}

/// Joining two ranges does not depend on their order.
pub proof fn lemma_join_commutative(a: KeyRange, b: KeyRange)
    ensures
        a.hull(b) == b.hull(a),
{
}

/// Joining ranges is associative.
pub proof fn lemma_join_associative(a: KeyRange, b: KeyRange, c: KeyRange)
    ensures
        a.hull(b).hull(c) == a.hull(b.hull(c)),
{
}

/// The join of two ranges covers both, and holds every key either holds.
pub proof fn lemma_join_covers(a: KeyRange, b: KeyRange, key: u32)
    ensures
        a.hull(b).covers(a),
        a.hull(b).covers(b),
        a.has(key) ==> a.hull(b).has(key),
        b.has(key) ==> a.hull(b).has(key),
{
}

/// The axis of greatest extent, given the extents' keys; a tie goes to the
/// lower axis, x before y before z.
pub fn longest_axis(x: u32, y: u32, z: u32) -> (r: usize)
    ensures
        r < 3,
        r == 0 <==> x >= y && x >= z,
        r == 1 <==> !(x >= y && x >= z) && y >= z,
        r == 2 <==> !(x >= y && x >= z) && y < z,
{
    if x >= y && x >= z {
        0
    } else if y >= z {
        1
    } else {
        2
    }
}

/// An axis-aligned box: one key range per axis.
#[derive(Clone, Copy, Debug, PartialEq, Eq, Structural)]
pub struct KeyBox {
    pub x: KeyRange,
    pub y: KeyRange,
    pub z: KeyRange,
}

impl KeyBox {
    /// The box that holds both boxes, axis by axis.
    pub open spec fn hull(self, other: KeyBox) -> KeyBox {
        KeyBox { x: self.x.hull(other.x), y: self.y.hull(other.y), z: self.z.hull(other.z) }
    }

    /// Whether this box holds `other` on every axis.
    pub open spec fn covers(self, other: KeyBox) -> bool {
        self.x.covers(other.x) && self.y.covers(other.y) && self.z.covers(other.z)
    }

    /// The range on an axis: 0 for x, 1 for y, 2 for z.
    pub open spec fn axis_range(self, axis: int) -> KeyRange {
        if axis == 0 {
            self.x
        } else if axis == 1 {
            self.y
        } else {
            self.z
        }
    }

    /// The range on `axis`.
    pub fn index(&self, axis: usize) -> (r: KeyRange)
        requires
            axis < 3,
        ensures
            r == self.axis_range(axis as int),
    {
        if axis == 0 {
            self.x
        } else if axis == 1 {
            self.y
        } else {
            self.z
        }
    }

    /// The union of two boxes, axis by axis.
    pub fn merge(&self, other: &KeyBox) -> (r: KeyBox)
        ensures
            r == self.hull(*other),
    {
        KeyBox { x: self.x.join(&other.x), y: self.y.join(&other.y), z: self.z.join(&other.z) }
    }
}

/// Merging boxes is commutative and associative, and the merge of two boxes
/// holds both.
pub proof fn lemma_merge_laws(a: KeyBox, b: KeyBox, c: KeyBox)
    ensures
        a.hull(b) == b.hull(a),
        a.hull(b).hull(c) == a.hull(b.hull(c)),
        a.hull(b).covers(a),
        a.hull(b).covers(b),
{
}

} // verus!
