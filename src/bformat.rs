//! The B-format sample and the directional encoder.
use vstd::prelude::*;

verus! {

/// Fixed-point scale of direction components: `UNIT` stands for 1.0.
pub const UNIT: i16 = 16384;

/// Gain of the omnidirectional channel: `1 / sqrt(2)` in units of `1 / UNIT`.
pub const OMNI_GAIN: i64 = 11585;

/// A direction relative to the listener, each component in units of `1 / UNIT`.
/// The listener faces `+y`; `+x` is to the right and `+z` is up.
#[derive(Clone, Copy, Debug, PartialEq, Eq, Structural)]
pub struct Direction {
    pub x: i16,
    pub y: i16,
    pub z: i16,
}

impl Direction {
    pub fn new(x: i16, y: i16, z: i16) -> (r: Direction)
        ensures
            r == (Direction { x, y, z }),
    {
        Direction { x, y, z }
    }
}

/// One first-order B-format sample: omnidirectional `w` and directional
/// `x`, `y`, `z` channels.
#[derive(Clone, Copy, Debug, PartialEq, Eq, Structural)]
pub struct BSample {
    pub w: i64,
    pub x: i64,
    pub y: i64,
    pub z: i64,
}

/// The mathematical value of a B-format sample.
pub type Field = (int, int, int, int);

impl View for BSample {
    type V = Field;

    open spec fn view(&self) -> Field {
        (self.w as int, self.x as int, self.y as int, self.z as int)
    }
}

pub open spec fn silent_field() -> Field {
    (0, 0, 0, 0)
}

/// Componentwise sum: the superposition of two sound fields.
pub open spec fn field_add(a: Field, b: Field) -> Field {
    (a.0 + b.0, a.1 + b.1, a.2 + b.2, a.3 + b.3)
}

/// The field of mono sample `s` arriving from direction `d`.
pub open spec fn encoded(s: int, d: Direction) -> Field {
    (s * OMNI_GAIN, s * d.x, s * d.y, s * d.z)
}

/// Largest magnitude of one channel of one encoded sample.
pub const ENCODED_BOUND: i64 = 1073741824;

pub open spec fn field_bounded(f: Field, b: int) -> bool {
    -b <= f.0 <= b && -b <= f.1 <= b && -b <= f.2 <= b && -b <= f.3 <= b
}

proof fn lemma_product_bound(a: int, b: int)
    requires
        -32768 <= a <= 32767,
        -32768 <= b <= 32767,
    ensures
        -ENCODED_BOUND <= a * b <= ENCODED_BOUND,
{
    assert(-1073741824 <= a * b <= 1073741824) by (nonlinear_arith)
        requires
            -32768 <= a <= 32767,
            -32768 <= b <= 32767,
    ;
}

/// Every encoded sample lies within `ENCODED_BOUND` on each channel.
pub proof fn lemma_encoded_bounded(s: i16, d: Direction)
    ensures
        field_bounded(encoded(s as int, d), ENCODED_BOUND as int),
{
    lemma_product_bound(s as int, OMNI_GAIN as int);
    lemma_product_bound(s as int, d.x as int);
    lemma_product_bound(s as int, d.y as int);
    lemma_product_bound(s as int, d.z as int);
}

impl BSample {
    /// The silent sample.
    pub fn zero() -> (r: BSample)
        ensures
            r@ == silent_field(),
    {
        BSample { w: 0, x: 0, y: 0, z: 0 }
    }

    /// Componentwise sum of two samples.
    pub fn add(self, o: BSample) -> (r: BSample)
        requires
            field_bounded(field_add(self@, o@), i64::MAX as int),
        ensures
            r@ == field_add(self@, o@),
    {
        BSample { w: self.w + o.w, x: self.x + o.x, y: self.y + o.y, z: self.z + o.z }
    }
}

/// Encodes mono sample `s` arriving from direction `d`: `w = s / sqrt(2)`
/// and `(x, y, z) = s * d`.
pub fn encode(s: i16, d: Direction) -> (r: BSample)
    ensures
        r@ == encoded(s as int, d),
{
    proof {
        lemma_encoded_bounded(s, d);
    }
    let s64 = s as i64;
    BSample { w: s64 * OMNI_GAIN, x: s64 * (d.x as i64), y: s64 * (d.y as i64), z: s64 * (d.z as i64) }
}

} // verus!
