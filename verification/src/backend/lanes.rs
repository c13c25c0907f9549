//! Vectors of four 32-bit lanes.
//!
//! Floats are held as their bit patterns. What is here acts on the bits alone:
//! masks, bitwise operations, sign, order and packing of pixels.

use crate::number::{
    high_bit, high_bit_of, is_nan, is_same, lemma_high_bit, lemma_small_powers, lemma_two_to_grows,
    lemma_two_to_sum, place, power, same, two_to,
};
use core::ops::{BitAnd, BitOr, Neg, Not};
use vstd::prelude::*;

verus! {

/// Number of lanes.
pub const LANES: usize = 4;

/// Masks: a truth value per lane.
pub trait MaskPrimitives: Sized {
    /// The lane is set.
    spec fn set(self, i: int) -> bool;

    /// Is any lane set?
    fn any(self) -> (b: bool)
        ensures
            b == exists|i: int| 0 <= i < LANES && #[trigger] self.set(i),
    ;

    /// Are all lanes set?
    fn all(self) -> (b: bool)
        ensures
            b == forall|i: int| 0 <= i < LANES ==> #[trigger] self.set(i),
    ;
}

/// A mask of four lanes. Comparisons leave all ones or all zeros in a lane; a
/// lane counts as set if it is not zero.
#[derive(Copy, Clone, Debug, PartialEq, Eq)]
pub struct Mask4(pub [u32; 4]);

/// Four floats.
#[derive(Copy, Clone, Debug, PartialEq, Eq)]
pub struct F32x4(pub [u32; 4]);

/// Four integers, such as packed pixels.
#[derive(Copy, Clone, Debug, PartialEq, Eq)]
pub struct U32x4(pub [u32; 4]);

/// Every lane of `a` and `b` combined.
pub open spec fn lanewise(a: [u32; 4], b: [u32; 4], f: spec_fn(u32, u32) -> u32) -> [u32; 4] {
    [f(a[0], b[0]), f(a[1], b[1]), f(a[2], b[2]), f(a[3], b[3])]
}

/// Bitwise and of every lane.
pub open spec fn and_lanes(a: [u32; 4], b: [u32; 4]) -> [u32; 4] {
    lanewise(a, b, |x: u32, y: u32| x & y)
}

/// Bitwise or of every lane.
pub open spec fn or_lanes(a: [u32; 4], b: [u32; 4]) -> [u32; 4] {
    lanewise(a, b, |x: u32, y: u32| x | y)
}

/// Bitwise complement of every lane.
pub open spec fn not_lanes(a: [u32; 4]) -> [u32; 4] {
    lanewise(a, a, |x: u32, y: u32| !x)
}

impl MaskPrimitives for Mask4 {
    open spec fn set(self, i: int) -> bool {
        self.0[i] != 0
    }

    fn any(self) -> (b: bool) {
        let b: bool = self.0[0] != 0 || self.0[1] != 0 || self.0[2] != 0 || self.0[3] != 0;
        assert(b ==> self.set(0) || self.set(1) || self.set(2) || self.set(3));
        b
    }

    fn all(self) -> (b: bool) {
        let b: bool = self.0[0] != 0 && self.0[1] != 0 && self.0[2] != 0 && self.0[3] != 0;
        assert(!b ==> !self.set(0) || !self.set(1) || !self.set(2) || !self.set(3));
        b
    }
}

impl Default for Mask4 {
    /// No lane set.
    fn default() -> (m: Mask4)
        ensures
            m.0 == [0u32, 0u32, 0u32, 0u32],
    {
        Mask4([0, 0, 0, 0])
    }
}

impl vstd::std_specs::ops::BitAndSpecImpl for Mask4 {
    open spec fn obeys_bitand_spec() -> bool {
        true
    }

    open spec fn bitand_req(self, rhs: Mask4) -> bool {
        true
    }

    open spec fn bitand_spec(self, rhs: Mask4) -> Mask4 {
        Mask4(and_lanes(self.0, rhs.0))
    }
}

impl BitAnd for Mask4 {
    type Output = Mask4;

    fn bitand(self, rhs: Mask4) -> (r: Mask4) {
        let (a, b) = (self.0, rhs.0);
        Mask4([a[0] & b[0], a[1] & b[1], a[2] & b[2], a[3] & b[3]])
    }
}

impl vstd::std_specs::ops::BitOrSpecImpl for Mask4 {
    open spec fn obeys_bitor_spec() -> bool {
        true
    }

    open spec fn bitor_req(self, rhs: Mask4) -> bool {
        true
    }

    open spec fn bitor_spec(self, rhs: Mask4) -> Mask4 {
        Mask4(or_lanes(self.0, rhs.0))
    }
}

impl BitOr for Mask4 {
    type Output = Mask4;

    fn bitor(self, rhs: Mask4) -> (r: Mask4) {
        let (a, b) = (self.0, rhs.0);
        Mask4([a[0] | b[0], a[1] | b[1], a[2] | b[2], a[3] | b[3]])
    }
}

impl vstd::std_specs::ops::NotSpecImpl for Mask4 {
    open spec fn obeys_not_spec() -> bool {
        true
    }

    open spec fn not_req(self) -> bool {
        true
    }

    open spec fn not_spec(self) -> Mask4 {
        Mask4(not_lanes(self.0))
    }
}

impl Not for Mask4 {
    type Output = Mask4;

    fn not(self) -> (r: Mask4) {
        let a = self.0;
        Mask4([!a[0], !a[1], !a[2], !a[3]])
    }
}

/// The bits of a lane chosen bit by bit: from `a` where `m` is one, else from `b`.
pub open spec fn chosen_bits(m: u32, a: u32, b: u32) -> u32 {
    (a & m) | (b & !m)
}

/// Choosing by a lane of ones or zeros takes one of the two whole.
pub proof fn masks_choose_whole_lanes(b: bool, x: u32, y: u32)
    ensures
        chosen_bits(lane_of(b), x, y) == if b {
            x
        } else {
            y
        },
{
    assert((x & 0xFFFF_FFFF) | (y & !0xFFFF_FFFFu32) == x) by (bit_vector);
    assert((x & 0) | (y & !0u32) == y) by (bit_vector);
}

/// `a < b` as floats.
pub open spec fn below(a: u32, b: u32) -> bool {
    !is_nan(a) && !is_nan(b) && place(a) < place(b)
}

/// All ones or all zeros.
pub open spec fn lane_of(b: bool) -> u32 {
    if b {
        0xFFFF_FFFF
    } else {
        0
    }
}

/// The mask of a test on every lane.
pub open spec fn mask_of(a: F32x4, b: F32x4, test: spec_fn(u32, u32) -> bool) -> Mask4 {
    Mask4(lanewise(a.0, b.0, |x: u32, y: u32| lane_of(test(x, y))))
}

/// Is `a < b` as floats?
fn is_below(a: u32, b: u32) -> (r: bool)
    ensures
        r == below(a, b),
{
    if a % 0x8000_0000 > 0x7F80_0000 || b % 0x8000_0000 > 0x7F80_0000 {
        return false;
    }
    let x: u32 = a % 0x8000_0000;
    let y: u32 = b % 0x8000_0000;
    if a < 0x8000_0000 {
        b < 0x8000_0000 && x < y
    } else if b < 0x8000_0000 {
        x > 0 || y > 0
    } else {
        y < x
    }
}

/// A lane of ones or zeros.
fn lane(b: bool) -> (x: u32)
    ensures
        x == lane_of(b),
{
    if b {
        0xFFFF_FFFF
    } else {
        0
    }
}

impl Default for F32x4 {
    /// Zeros.
    fn default() -> (v: F32x4)
        ensures
            v.0 == [0u32, 0u32, 0u32, 0u32],
    {
        F32x4([0, 0, 0, 0])
    }
}

impl vstd::std_specs::ops::BitAndSpecImpl for F32x4 {
    open spec fn obeys_bitand_spec() -> bool {
        true
    }

    open spec fn bitand_req(self, rhs: F32x4) -> bool {
        true
    }

    open spec fn bitand_spec(self, rhs: F32x4) -> F32x4 {
        F32x4(and_lanes(self.0, rhs.0))
    }
}

impl BitAnd for F32x4 {
    type Output = F32x4;

    fn bitand(self, rhs: F32x4) -> (r: F32x4) {
        let (a, b) = (self.0, rhs.0);
        F32x4([a[0] & b[0], a[1] & b[1], a[2] & b[2], a[3] & b[3]])
    }
}

impl vstd::std_specs::ops::BitOrSpecImpl for F32x4 {
    open spec fn obeys_bitor_spec() -> bool {
        true
    }

    open spec fn bitor_req(self, rhs: F32x4) -> bool {
        true
    }

    open spec fn bitor_spec(self, rhs: F32x4) -> F32x4 {
        F32x4(or_lanes(self.0, rhs.0))
    }
}

impl BitOr for F32x4 {
    type Output = F32x4;

    fn bitor(self, rhs: F32x4) -> (r: F32x4) {
        let (a, b) = (self.0, rhs.0);
        F32x4([a[0] | b[0], a[1] | b[1], a[2] | b[2], a[3] | b[3]])
    }
}

impl vstd::std_specs::ops::NotSpecImpl for F32x4 {
    open spec fn obeys_not_spec() -> bool {
        true
    }

    open spec fn not_req(self) -> bool {
        true
    }

    open spec fn not_spec(self) -> F32x4 {
        F32x4(not_lanes(self.0))
    }
}

impl Not for F32x4 {
    type Output = F32x4;

    fn not(self) -> (r: F32x4) {
        let a = self.0;
        F32x4([!a[0], !a[1], !a[2], !a[3]])
    }
}

/// Every float with its sign flipped.
pub open spec fn negated_lanes(a: [u32; 4]) -> [u32; 4] {
    lanewise(a, a, |x: u32, y: u32| x ^ 0x8000_0000)
}

impl vstd::std_specs::ops::NegSpecImpl for F32x4 {
    open spec fn obeys_neg_spec() -> bool {
        true
    }

    open spec fn neg_req(self) -> bool {
        true
    }

    open spec fn neg_spec(self) -> F32x4 {
        F32x4(negated_lanes(self.0))
    }
}

impl Neg for F32x4 {
    type Output = F32x4;

    fn neg(self) -> (r: F32x4) {
        let a = self.0;
        F32x4([
            a[0] ^ 0x8000_0000,
            a[1] ^ 0x8000_0000,
            a[2] ^ 0x8000_0000,
            a[3] ^ 0x8000_0000,
        ])
    }
}

impl F32x4 {
    /// The same bits in every lane.
    pub fn from_u32_bits(bits: u32) -> (v: F32x4)
        ensures
            v.0 == [bits, bits, bits, bits],
    {
        F32x4([bits, bits, bits, bits])
    }

    /// The bits of every lane.
    pub fn to_array(self) -> (a: [u32; 4])
        ensures
            a == self.0,
    {
        self.0
    }

    /// The first four floats of a slice.
    pub fn from_slice(slice: &[u32]) -> (v: F32x4)
        requires
            slice@.len() >= LANES,
        ensures
            forall|i: int| 0 <= i < LANES ==> #[trigger] v.0[i] == slice@[i],
    {
        F32x4([slice[0], slice[1], slice[2], slice[3]])
    }

    /// Every float without its sign.
    pub fn simd_abs(self) -> (v: F32x4)
        ensures
            forall|i: int| 0 <= i < LANES ==> #[trigger] v.0[i] == self.0[i] % 0x8000_0000,
    {
        let a = self.0;
        F32x4([a[0] % 0x8000_0000, a[1] % 0x8000_0000, a[2] % 0x8000_0000, a[3] % 0x8000_0000])
    }

    /// Where `self` is less.
    pub fn cmp_lt(self, rhs: F32x4) -> (m: Mask4)
        ensures
            m == mask_of(self, rhs, |x: u32, y: u32| below(x, y)),
    {
        let (a, b) = (self.0, rhs.0);
        Mask4([
            lane(is_below(a[0], b[0])),
            lane(is_below(a[1], b[1])),
            lane(is_below(a[2], b[2])),
            lane(is_below(a[3], b[3])),
        ])
    }

    /// Where `self` is less or equal.
    pub fn cmp_le(self, rhs: F32x4) -> (m: Mask4)
        ensures
            m == mask_of(self, rhs, |x: u32, y: u32| below(x, y) || same(x, y)),
    {
        let (a, b) = (self.0, rhs.0);
        Mask4([
            lane(is_below(a[0], b[0]) || is_same(a[0], b[0])),
            lane(is_below(a[1], b[1]) || is_same(a[1], b[1])),
            lane(is_below(a[2], b[2]) || is_same(a[2], b[2])),
            lane(is_below(a[3], b[3]) || is_same(a[3], b[3])),
        ])
    }

    /// Where `self` is greater.
    pub fn cmp_gt(self, rhs: F32x4) -> (m: Mask4)
        ensures
            m == mask_of(self, rhs, |x: u32, y: u32| below(y, x)),
    {
        let (a, b) = (self.0, rhs.0);
        Mask4([
            lane(is_below(b[0], a[0])),
            lane(is_below(b[1], a[1])),
            lane(is_below(b[2], a[2])),
            lane(is_below(b[3], a[3])),
        ])
    }

    /// Where `self` is greater or equal.
    pub fn cmp_ge(self, rhs: F32x4) -> (m: Mask4)
        ensures
            m == mask_of(self, rhs, |x: u32, y: u32| below(y, x) || same(x, y)),
    {
        let (a, b) = (self.0, rhs.0);
        Mask4([
            lane(is_below(b[0], a[0]) || is_same(a[0], b[0])),
            lane(is_below(b[1], a[1]) || is_same(a[1], b[1])),
            lane(is_below(b[2], a[2]) || is_same(a[2], b[2])),
            lane(is_below(b[3], a[3]) || is_same(a[3], b[3])),
        ])
    }

    /// Where both are equal.
    pub fn cmp_eq(self, rhs: F32x4) -> (m: Mask4)
        ensures
            m == mask_of(self, rhs, |x: u32, y: u32| same(x, y)),
    {
        let (a, b) = (self.0, rhs.0);
        Mask4([
            lane(is_same(a[0], b[0])),
            lane(is_same(a[1], b[1])),
            lane(is_same(a[2], b[2])),
            lane(is_same(a[3], b[3])),
        ])
    }

    /// Where both differ, or one is not a number.
    pub fn cmp_ne(self, rhs: F32x4) -> (m: Mask4)
        ensures
            m == mask_of(self, rhs, |x: u32, y: u32| !same(x, y)),
    {
        let (a, b) = (self.0, rhs.0);
        Mask4([
            lane(!is_same(a[0], b[0])),
            lane(!is_same(a[1], b[1])),
            lane(!is_same(a[2], b[2])),
            lane(!is_same(a[3], b[3])),
        ])
    }

    /// Bit by bit, `if_true` where the mask is one, else `if_false`.
    pub fn simd_select(mask: Mask4, if_true: F32x4, if_false: F32x4) -> (v: F32x4)
        ensures
            forall|i: int|
                0 <= i < LANES ==> #[trigger] v.0[i] == chosen_bits(
                    mask.0[i],
                    if_true.0[i],
                    if_false.0[i],
                ),
    {
        let (m, a, b) = (mask.0, if_true.0, if_false.0);
        F32x4([
            (a[0] & m[0]) | (b[0] & !m[0]),
            (a[1] & m[1]) | (b[1] & !m[1]),
            (a[2] & m[2]) | (b[2] & !m[2]),
            (a[3] & m[3]) | (b[3] & !m[3]),
        ])
    }

    /// The bits of a mask as floats.
    pub fn mask_to_float(mask: Mask4) -> (v: F32x4)
        ensures
            v.0 == mask.0,
    {
        F32x4(mask.0)
    }

    /// The bits of floats as a mask.
    pub fn float_to_mask(self) -> (m: Mask4)
        ensures
            m.0 == self.0,
    {
        Mask4(self.0)
    }

    /// Loads from a slice at the whole part of each index, held to the slice.
    pub fn gather(slice: &[u32], indices: F32x4) -> (v: F32x4)
        requires
            slice@.len() > 0,
        ensures
            forall|i: int|
                0 <= i < LANES ==> #[trigger] v.0[i] == slice@[gathered(
                    indices.0[i],
                    slice@.len() as int,
                )],
    {
        let n: usize = slice.len();
        let x = indices.0;
        F32x4([
            slice[gather_index(x[0], n)],
            slice[gather_index(x[1], n)],
            slice[gather_index(x[2], n)],
            slice[gather_index(x[3], n)],
        ])
    }
}

/// Whole part of a float, without bound; zero for negative floats and what is
/// not a number. Infinity counts as the float after the greatest.
pub open spec fn whole(bits: u32) -> nat {
    let exp = bits / 0x80_0000;
    let man = bits % 0x80_0000 + 0x80_0000;
    if bits >= 0x8000_0000 || exp < 127 || is_nan(bits) {
        0
    } else if exp >= 150 {
        (man * two_to((exp - 150) as nat)) as nat
    } else {
        (man as nat) / two_to((150 - exp) as nat)
    }
}

/// A float from two to the power 64 on is beyond every slice.
proof fn lemma_huge(bits: u32)
    requires
        bits < 0x8000_0000,
        !is_nan(bits),
        bits / 0x80_0000 >= 191,
    ensures
        whole(bits) >= 0x1_0000_0000_0000_0000,
{
    let exp = bits / 0x80_0000;
    let man = bits % 0x80_0000 + 0x80_0000;
    lemma_two_to_sum(41, 23);
    lemma_two_to_sum(32, 32);
    lemma_small_powers();
    lemma_two_to_grows(41, (exp - 150) as nat);
    let p = two_to((exp - 150) as nat) as int;
    let q = two_to(41) as int;
    assert(man * p >= 0x80_0000 * q) by (nonlinear_arith)
        requires
            man >= 0x80_0000,
            p >= q,
            q >= 0,
    ;
}

/// The index a float stands for in a slice of length `n`.
fn gather_index(bits: u32, n: usize) -> (i: usize)
    requires
        n > 0,
    ensures
        i == gathered(bits, n as int),
        i < n,
{
    let exp: u32 = bits / 0x80_0000;
    let man: u64 = (bits % 0x80_0000 + 0x80_0000) as u64;
    if bits >= 0x8000_0000 || exp < 127 || bits > 0x7F80_0000 {
        return 0;
    }
    if exp >= 191 {
        proof {
            lemma_huge(bits);
        }
        return n - 1;
    }
    let w: u64 = if exp >= 150 {
        let scale: u64 = power(exp - 150);
        proof {
            lemma_two_to_sum(40, 24);
            lemma_two_to_sum(32, 32);
            lemma_small_powers();
            lemma_two_to_grows((exp - 150) as nat, 40);
            let x = man as int;
            let s = scale as int;
            let q = two_to(40) as int;
            assert(x * s < 0x100_0000 * q) by (nonlinear_arith)
                requires
                    0 <= x < 0x100_0000,
                    1 <= s <= q,
            ;
        }
        man * scale
    } else {
        let unit: u64 = power(150 - exp);
        man / unit
    };
    if w < n as u64 {
        w as usize
    } else {
        n - 1
    }
}

/// The index a float stands for in a slice of length `n`.
pub open spec fn gathered(bits: u32, n: int) -> int {
    if whole(bits) < n {
        whole(bits) as int
    } else {
        n - 1
    }
}

impl Default for U32x4 {
    /// Zeros.
    fn default() -> (v: U32x4)
        ensures
            v.0 == [0u32, 0u32, 0u32, 0u32],
    {
        U32x4([0, 0, 0, 0])
    }
}

impl vstd::std_specs::ops::BitAndSpecImpl for U32x4 {
    open spec fn obeys_bitand_spec() -> bool {
        true
    }

    open spec fn bitand_req(self, rhs: U32x4) -> bool {
        true
    }

    open spec fn bitand_spec(self, rhs: U32x4) -> U32x4 {
        U32x4(and_lanes(self.0, rhs.0))
    }
}

impl BitAnd for U32x4 {
    type Output = U32x4;

    fn bitand(self, rhs: U32x4) -> (r: U32x4) {
        let (a, b) = (self.0, rhs.0);
        U32x4([a[0] & b[0], a[1] & b[1], a[2] & b[2], a[3] & b[3]])
    }
}

impl vstd::std_specs::ops::BitOrSpecImpl for U32x4 {
    open spec fn obeys_bitor_spec() -> bool {
        true
    }

    open spec fn bitor_req(self, rhs: U32x4) -> bool {
        true
    }

    open spec fn bitor_spec(self, rhs: U32x4) -> U32x4 {
        U32x4(or_lanes(self.0, rhs.0))
    }
}

impl BitOr for U32x4 {
    type Output = U32x4;

    fn bitor(self, rhs: U32x4) -> (r: U32x4) {
        let (a, b) = (self.0, rhs.0);
        U32x4([a[0] | b[0], a[1] | b[1], a[2] | b[2], a[3] | b[3]])
    }
}

impl vstd::std_specs::ops::NotSpecImpl for U32x4 {
    open spec fn obeys_not_spec() -> bool {
        true
    }

    open spec fn not_req(self) -> bool {
        true
    }

    open spec fn not_spec(self) -> U32x4 {
        U32x4(not_lanes(self.0))
    }
}

impl Not for U32x4 {
    type Output = U32x4;

    fn not(self) -> (r: U32x4) {
        let a = self.0;
        U32x4([!a[0], !a[1], !a[2], !a[3]])
    }
}

/// `n` rounded to 24 significant bits, ties to even.
pub open spec fn rounded(n: nat) -> nat {
    let e = high_bit(n);
    if e <= 23 {
        n
    } else {
        let unit = two_to((e - 23) as nat);
        let q = n / unit;
        let r = n % unit;
        if 2 * r > unit || (2 * r == unit && q % 2 == 1) {
            ((q + 1) * unit) as nat
        } else {
            (q * unit) as nat
        }
    }
}

/// A colour channel as a byte: the float held between zero and one, times 255
/// rounded to a float, without its fraction. What is not a number counts as zero.
pub open spec fn channel(bits: u32) -> nat {
    let exp = bits / 0x80_0000;
    let man = bits % 0x80_0000;
    if bits >= 0x8000_0000 || is_nan(bits) {
        0
    } else if bits >= 0x3F80_0000 {
        255
    } else if exp == 0 {
        0
    } else {
        rounded(((man + 0x80_0000) * 255) as nat) / two_to((150 - exp) as nat)
    }
}

/// A channel fits a byte.
pub proof fn channels_are_bytes(bits: u32)
    ensures
        channel(bits) <= 255,
{
    let exp = bits / 0x80_0000;
    let man = bits % 0x80_0000;
    if bits < 0x3F80_0000 && exp > 0 {
        let n = ((man + 0x80_0000) * 255) as nat;
        let r = rounded(n);
        lemma_rounded(n);
        let u = two_to((150 - exp) as nat);
        lemma_small_powers();
        lemma_two_to_grows(24, (150 - exp) as nat);
        assert(r / u <= 255) by (nonlinear_arith)
            requires
                r <= 255 * 0x100_0000,
                u >= 0x100_0000,
        ;
    }
}

proof fn lemma_rounded(n: nat)
    requires
        0x7F80_0000 <= n < 0x1_0000_0000 - 0x100_0000,
    ensures
        rounded(n) <= 255 * 0x100_0000,
        high_bit(n) == 30 || high_bit(n) == 31,
{
    lemma_high_bit(n);
    lemma_small_powers();
    assert(two_to(7) == 128) by {
        reveal_with_fuel(two_to, 9);
    }
    lemma_two_to_sum(23, 7);
    assert(two_to(31) == 2 * two_to(30));
    let e = high_bit(n);
    if e < 30 {
        lemma_two_to_grows((e + 1) as nat, 30);
    }
    if e > 31 {
        lemma_two_to_grows(32, e);
    }
    let q = n / two_to((e - 23) as nat);
    if e == 30 {
        assert(two_to((e - 23) as nat) == 128);
        assert(q < 0x100_0000) by (nonlinear_arith)
            requires
                n < 0x8000_0000,
                q == n / 128,
        ;
    } else {
        assert(e == 31);
        assert(two_to((e - 23) as nat) == 256);
        assert(q < 0xFF_0000) by (nonlinear_arith)
            requires
                n < 0xFF00_0000,
                q == n / 256,
        ;
    }
}

/// A colour channel as a byte.
fn channel_of(bits: u32) -> (c: u32)
    ensures
        c == channel(bits),
        c <= 255,
{
    let exp: u32 = bits / 0x80_0000;
    let man: u32 = bits % 0x80_0000;
    proof {
        channels_are_bytes(bits);
    }
    if bits >= 0x8000_0000 || bits > 0x7F80_0000 {
        return 0;
    }
    if bits >= 0x3F80_0000 {
        return 255;
    }
    if exp == 0 {
        return 0;
    }
    let n: u64 = (man as u64 + 0x80_0000) * 255;
    proof {
        lemma_rounded(n as nat);
    }
    let e: u32 = high_bit_of(n);
    let unit: u64 = power(e - 23);
    let q: u64 = n / unit;
    let r: u64 = n % unit;
    proof {
        reveal_with_fuel(two_to, 9);
        assert(unit == 128 || unit == 256);
    }
    let up: u64 = if 2 * r > unit || (2 * r == unit && q % 2 == 1) {
        1
    } else {
        0
    };
    let scaled: u64 = (q + up) * unit;
    assert(scaled == rounded(n as nat));
    if exp < 87 {
        proof {
            let u = two_to((150 - exp) as nat);
            lemma_small_powers();
            lemma_two_to_grows(63, (150 - exp) as nat);
            assert(scaled as int / u as int == 0) by (nonlinear_arith)
                requires
                    0 <= scaled < u,
            ;
        }
        return 0;
    }
    let u: u64 = power(150 - exp);
    (scaled / u) as u32
}

/// Four channels in one pixel, red lowest.
pub open spec fn pixel(r: u32, g: u32, b: u32, a: u32) -> nat {
    channel(r) + 0x100 * channel(g) + 0x1_0000 * channel(b) + 0x100_0000 * channel(a)
}

/// One pixel.
fn pack(r: u32, g: u32, b: u32, a: u32) -> (p: u32)
    ensures
        p == pixel(r, g, b, a),
{
    let (x, y, z, w): (u32, u32, u32, u32) = (
        channel_of(r),
        channel_of(g),
        channel_of(b),
        channel_of(a),
    );
    assert((x | (y << 8)) | ((z << 16) | (w << 24)) == x + 0x100 * y + 0x1_0000 * z + 0x100_0000
        * w) by (bit_vector)
        requires
            x <= 255,
            y <= 255,
            z <= 255,
            w <= 255,
    ;
    (x | (y << 8)) | ((z << 16) | (w << 24))
}

impl U32x4 {
    /// The same integer in every lane.
    pub fn splat(val: u32) -> (v: U32x4)
        ensures
            v.0 == [val, val, val, val],
    {
        U32x4([val, val, val, val])
    }

    /// Every lane.
    pub fn to_array(self) -> (a: [u32; 4])
        ensures
            a == self.0,
    {
        self.0
    }

    /// Writes the lanes to the start of a slice.
    pub fn store(&self, out: &mut [u32])
        requires
            old(out)@.len() >= LANES,
        ensures
            final(out)@.len() == old(out)@.len(),
            forall|i: int| 0 <= i < LANES ==> #[trigger] final(out)@[i] == self.0[i],
            forall|i: int|
                LANES <= i < old(out)@.len() ==> #[trigger] final(out)@[i] == old(out)@[i],
    {
        out[0] = self.0[0];
        out[1] = self.0[1];
        out[2] = self.0[2];
        out[3] = self.0[3];
    }

    /// Packs red, green, blue and alpha into pixels: each held between zero and
    /// one and scaled to a byte, red lowest.
    #[verifier::rlimit(40)]
    pub fn pack_rgba(r: F32x4, g: F32x4, b: F32x4, a: F32x4) -> (v: U32x4)
        ensures
            forall|i: int|
                0 <= i < LANES ==> #[trigger] v.0[i] == pixel(r.0[i], g.0[i], b.0[i], a.0[i]),
    {
        U32x4([
            pack(r.0[0], g.0[0], b.0[0], a.0[0]),
            pack(r.0[1], g.0[1], b.0[1], a.0[1]),
            pack(r.0[2], g.0[2], b.0[2], a.0[2]),
            pack(r.0[3], g.0[3], b.0[3], a.0[3]),
        ])
    }
}

} // verus!
