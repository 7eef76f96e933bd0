//! Triples of measures, canonical extents and the two orders on them.
//!
//! Every measure (an extent, an offset or a weight) is a fixed-point number
//! held in a `u64`: the integer counts thousandths of the caller's unit, so
//! `2500` stands for two and a half.

use std::cmp::Ordering;
use vstd::prelude::*;

verus! {

/// How many counts of a measure make one whole unit.
pub const UNITS_PER_WHOLE: u64 = 1000;

/// How many counts of a measure make one tenth of a unit.
pub const UNITS_PER_TENTH: u64 = 100;

/// The largest of three measures.
pub open spec fn largest(a: u64, b: u64, c: u64) -> u64 {
    if a >= b && a >= c {
        a
    } else if b >= c {
        b
    } else {
        c
    }
}

/// The smallest of three measures.
pub open spec fn smallest(a: u64, b: u64, c: u64) -> u64 {
    if a <= b && a <= c {
        a
    } else if b <= c {
        b
    } else {
        c
    }
}

/// The one of three measures that is neither picked as largest nor as smallest.
pub open spec fn middle(a: u64, b: u64, c: u64) -> u64 {
    if a >= b {
        if b >= c {
            b
        } else if a >= c {
            c
        } else {
            a
        }
    } else {
        if a >= c {
            a
        } else if b >= c {
            c
        } else {
            b
        }
    }
}

/// Three measures, one for each axis: axis 0 is `x`, axis 1 is `y`, axis 2 is `z`.
#[derive(Clone, Copy, Debug, PartialEq, Eq, Structural)]
pub struct Coordinates {
    pub x: u64,
    pub y: u64,
    pub z: u64,
}

impl Coordinates {
    /// The measure on the given axis.
    pub open spec fn get(self, axis: int) -> u64 {
        if axis == 0 {
            self.x
        } else if axis == 1 {
            self.y
        } else {
            self.z
        }
    }

    /// The same triple with the measure on the given axis replaced.
    pub open spec fn with(self, axis: int, value: u64) -> Coordinates {
        if axis == 0 {
            Coordinates { x: value, y: self.y, z: self.z }
        } else if axis == 1 {
            Coordinates { x: self.x, y: value, z: self.z }
        } else {
            Coordinates { x: self.x, y: self.y, z: value }
        }
    }

    /// The three measures from largest to smallest.
    pub open spec fn descending(self) -> Coordinates {
        Coordinates {
            x: largest(self.x, self.y, self.z),
            y: middle(self.x, self.y, self.z),
            z: smallest(self.x, self.y, self.z),
        }
    }

    /// The three measures from smallest to largest.
    pub open spec fn ascending(self) -> Coordinates {
        Coordinates {
            x: smallest(self.x, self.y, self.z),
            y: middle(self.x, self.y, self.z),
            z: largest(self.x, self.y, self.z),
        }
    }

    /// The triple read backwards.
    pub open spec fn reversed(self) -> Coordinates {
        Coordinates { x: self.z, y: self.y, z: self.x }
    }

    /// The product of the three measures.
    pub open spec fn product(self) -> int {
        self.x * self.y * self.z
    }

    /// Whether no measure of `self` exceeds the measure of `outer` on the same axis.
    pub open spec fn fits_in(self, outer: Coordinates) -> bool {
        self.x <= outer.x && self.y <= outer.y && self.z <= outer.z
    }

    /// The triple of the three measures, in the order of the axes.
    pub fn new(x: u64, y: u64, z: u64) -> (c: Coordinates)
        ensures
            c == (Coordinates { x, y, z }),
    {
        Coordinates { x, y, z }
    }

    /// The triple of zeros: the low corner of a container.
    pub fn origin() -> (c: Coordinates)
        ensures
            c == (Coordinates { x: 0, y: 0, z: 0 }),
    {
        Coordinates { x: 0, y: 0, z: 0 }
    }

    /// The triple of the three measures of the array, in their order.
    pub fn from_array(array: &[u64; 3]) -> (c: Coordinates)
        ensures
            c == (Coordinates { x: array[0], y: array[1], z: array[2] }),
    {
        Coordinates { x: array[0], y: array[1], z: array[2] }
    }

    /// The three measures as an array, in the order of the axes.
    pub fn to_array(&self) -> (array: [u64; 3])
        ensures
            array[0] == self.x,
            array[1] == self.y,
            array[2] == self.z,
    {
        [self.x, self.y, self.z]
    }

    /// Reads the measure on one axis.
    pub fn at(&self, axis: usize) -> (value: u64)
        requires
            axis < 3,
        ensures
            value == self.get(axis as int),
    {
        if axis == 0 {
            self.x
        } else if axis == 1 {
            self.y
        } else {
            self.z
        }
    }

    /// Replaces the measure on one axis.
    pub fn replace(&self, axis: usize, value: u64) -> (c: Coordinates)
        requires
            axis < 3,
        ensures
            c == self.with(axis as int, value),
    {
        if axis == 0 {
            Coordinates { x: value, y: self.y, z: self.z }
        } else if axis == 1 {
            Coordinates { x: self.x, y: value, z: self.z }
        } else {
            Coordinates { x: self.x, y: self.y, z: value }
        }
    }

    /// Sorts the three measures from largest to smallest.
    pub fn sorted_descending(&self) -> (c: Coordinates)
        ensures
            c == self.descending(),
    {
        let (a, b, c) = (self.x, self.y, self.z);
        if a >= b {
            if b >= c {
                Coordinates { x: a, y: b, z: c }
            } else if a >= c {
                Coordinates { x: a, y: c, z: b }
            } else {
                Coordinates { x: c, y: a, z: b }
            }
        } else {
            if a >= c {
                Coordinates { x: b, y: a, z: c }
            } else if b >= c {
                Coordinates { x: b, y: c, z: a }
            } else {
                Coordinates { x: c, y: b, z: a }
            }
        }
    }

    /// Sorts the three measures from smallest to largest.
    pub fn sorted_ascending(&self) -> (c: Coordinates)
        ensures
            c == self.ascending(),
    {
        let d = self.sorted_descending();
        Coordinates { x: d.z, y: d.y, z: d.x }
    }
}

/// Whether `a` comes strictly before `b` when the triples are compared measure
/// by measure, the first measure deciding first.
pub open spec fn lex_less(a: Coordinates, b: Coordinates) -> bool {
    a.x < b.x || (a.x == b.x && (a.y < b.y || (a.y == b.y && a.z < b.z)))
}

/// The three-way outcome of the comparison that `lex_less` decides.
pub open spec fn lex_order(a: Coordinates, b: Coordinates) -> Ordering {
    if lex_less(a, b) {
        Ordering::Less
    } else if lex_less(b, a) {
        Ordering::Greater
    } else {
        Ordering::Equal
    }
}

/// The comparison measure by measure is a strict total order: no triple comes
/// before itself, of two different triples exactly one comes before the
/// other, and a triple that comes before a second, which comes before a
/// third, comes before the third.
pub proof fn lemma_lex_less_orders(a: Coordinates, b: Coordinates, c: Coordinates)
    ensures
        !lex_less(a, a),
        a != b ==> (lex_less(a, b) <==> !lex_less(b, a)),
        lex_less(a, b) && lex_less(b, c) ==> lex_less(a, c),
{
}

/// Compares two triples measure by measure, the first measure deciding first.
pub fn cmp_coordinates(a: &Coordinates, b: &Coordinates) -> (order: Ordering)
    ensures
        order == lex_order(*a, *b),
        order == Ordering::Equal <==> *a == *b,
{
    if a.x < b.x {
        return Ordering::Less;
    }
    if a.x > b.x {
        return Ordering::Greater;
    }
    if a.y < b.y {
        return Ordering::Less;
    }
    if a.y > b.y {
        return Ordering::Greater;
    }
    if a.z < b.z {
        return Ordering::Less;
    }
    if a.z > b.z {
        return Ordering::Greater;
    }
    Ordering::Equal
}

/// Tells whether `a` comes strictly before `b` in the order of `cmp_coordinates`.
pub fn comes_before(a: &Coordinates, b: &Coordinates) -> (before: bool)
    ensures
        before == lex_less(*a, *b),
{
    match cmp_coordinates(a, b) {
        Ordering::Less => true,
        _ => false,
    }
}

/// The extents of a cuboid along the three axes, as the caller gave them.
///
/// The canonical form of the extents is the same three measures sorted from
/// largest to smallest and named length, width and height. Sizes are compared
/// by the canonical form; positions and orientations go by the axes.
#[derive(Clone, Copy, Debug, PartialEq, Eq, Structural)]
pub struct Dimensions {
    pub raw: Coordinates,
}

impl Dimensions {
    /// The largest extent.
    pub open spec fn spec_length(&self) -> u64 {
        largest(self.raw.x, self.raw.y, self.raw.z)
    }

    /// The extent between the largest and the smallest.
    pub open spec fn spec_width(&self) -> u64 {
        middle(self.raw.x, self.raw.y, self.raw.z)
    }

    /// The smallest extent.
    pub open spec fn spec_height(&self) -> u64 {
        smallest(self.raw.x, self.raw.y, self.raw.z)
    }

    /// Length, width and height as one triple.
    pub open spec fn spec_canonical(&self) -> Coordinates {
        self.raw.descending()
    }

    /// The volume of the cuboid: the product of its three extents.
    pub open spec fn volume(&self) -> int {
        self.length() * self.width() * self.height()
    }

    /// Whether the cuboid has a volume greater than zero.
    pub open spec fn spec_is_solid(&self) -> bool {
        self.volume() > 0
    }

    /// Whether `self` comes strictly before `other` by length, then width, then height.
    pub open spec fn lwh_less(self, other: Dimensions) -> bool {
        lex_less(self.canonical(), other.canonical())
    }

    /// Whether `self` comes strictly before `other` by height, then width, then length.
    pub open spec fn hwl_less(self, other: Dimensions) -> bool {
        lex_less(self.canonical().reversed(), other.canonical().reversed())
    }

    /// Keeps the three extents as given, one per axis.
    pub fn from_array(array: &[u64; 3]) -> (d: Dimensions)
        ensures
            d.raw == (Coordinates { x: array[0], y: array[1], z: array[2] }),
    {
        Dimensions { raw: Coordinates::from_array(array) }
    }

    /// The largest extent.
    #[verifier::when_used_as_spec(spec_length)]
    pub fn length(&self) -> (value: u64)
        ensures
            value == self.spec_length(),
    {
        self.raw.sorted_descending().x
    }

    /// The extent between the largest and the smallest.
    #[verifier::when_used_as_spec(spec_width)]
    pub fn width(&self) -> (value: u64)
        ensures
            value == self.spec_width(),
    {
        self.raw.sorted_descending().y
    }

    /// The smallest extent.
    #[verifier::when_used_as_spec(spec_height)]
    pub fn height(&self) -> (value: u64)
        ensures
            value == self.spec_height(),
    {
        self.raw.sorted_descending().z
    }

    /// Sorts the extents from largest to smallest.
    #[verifier::when_used_as_spec(spec_canonical)]
    pub fn canonical(&self) -> (c: Coordinates)
        ensures
            c == self.spec_canonical(),
            c.x >= c.y >= c.z,
            c.x == self.length() && c.y == self.width() && c.z == self.height(),
    {
        self.raw.sorted_descending()
    }

    /// Tells whether the volume is greater than zero, without computing it.
    #[verifier::when_used_as_spec(spec_is_solid)]
    pub fn is_solid(&self) -> (solid: bool)
        ensures
            solid == self.spec_is_solid(),
            solid == (self.raw.x > 0 && self.raw.y > 0 && self.raw.z > 0),
    {
        proof {
            lemma_product_sign(self.length(), self.width(), self.height());
        }
        self.raw.x > 0 && self.raw.y > 0 && self.raw.z > 0
    }

    /// Computes the volume, or tells that it does not fit in 128 bits.
    pub fn checked_volume(&self) -> (value: Option<u128>)
        ensures
            self.volume() <= u128::MAX ==> value == Some(self.volume() as u128),
            self.volume() > u128::MAX ==> value.is_none(),
    {
        let c = self.raw.sorted_descending();
        proof {
            lemma_product_fits(c.x, c.y);
        }
        let base: u128 = (c.x as u128) * (c.y as u128);
        base.checked_mul(c.z as u128)
    }

    /// Compares by length, then width, then height.
    pub fn cmp_lwh(&self, other: &Dimensions) -> (order: Ordering)
        ensures
            order == lex_order(self.canonical(), other.canonical()),
    {
        cmp_coordinates(&self.canonical(), &other.canonical())
    }

    /// Compares by height, then width, then length.
    pub fn cmp_hwl(&self, other: &Dimensions) -> (order: Ordering)
        ensures
            order == lex_order(self.canonical().reversed(), other.canonical().reversed()),
    {
        let a = self.raw.sorted_ascending();
        let b = other.raw.sorted_ascending();
        cmp_coordinates(&a, &b)
    }
}

/// A product of three measures is positive exactly when each of them is.
pub proof fn lemma_product_sign(a: u64, b: u64, c: u64)
    ensures
        a * b * c >= 0,
        a * b * c > 0 <==> (a > 0 && b > 0 && c > 0),
{
    assert(a * b >= 0 && (a * b > 0 <==> (a > 0 && b > 0))) by (nonlinear_arith);
    let ab: int = a * b;
    assert(ab * c >= 0 && (ab * c > 0 <==> (ab > 0 && c > 0))) by (nonlinear_arith)
        requires
            ab >= 0,
    ;
}

/// The product of two measures fits in 128 bits.
pub proof fn lemma_product_fits(a: u64, b: u64)
    ensures
        0 <= a * b <= u128::MAX,
{
    assert(0 <= a * b <= 0xffff_ffff_ffff_ffff * 0xffff_ffff_ffff_ffff) by (nonlinear_arith)
        requires
            a <= 0xffff_ffff_ffff_ffff,
            b <= 0xffff_ffff_ffff_ffff,
    ;
}

/// Sorting three measures keeps their product.
pub proof fn lemma_sorting_keeps_product(c: Coordinates)
    ensures
        c.descending().product() == c.product(),
        c.ascending().product() == c.product(),
{
    lemma_product_of_permutation(c.x as int, c.y as int, c.z as int);
}

/// The product of three numbers does not depend on their order.
pub proof fn lemma_product_of_permutation(a: int, b: int, c: int)
    ensures
        a * b * c == a * c * b,
        a * b * c == b * a * c,
        a * b * c == b * c * a,
        a * b * c == c * a * b,
        a * b * c == c * b * a,
{
    assert(a * b * c == a * c * b) by (nonlinear_arith);
    assert(a * b * c == b * a * c) by (nonlinear_arith);
    assert(a * b * c == b * c * a) by (nonlinear_arith);
    assert(a * b * c == c * a * b) by (nonlinear_arith);
    assert(a * b * c == c * b * a) by (nonlinear_arith);
}

} // verus!
