use vstd::arithmetic::div_mod::lemma_fundamental_div_mod_converse;
use vstd::prelude::*;

verus! {

/// Fractional bits of each packed coordinate: a resolution of 1/16384.
pub const FRACTION_BITS: u32 = 14;

/// Fixed-point x and y lie in `[-XY_LIMIT, XY_LIMIT)` (43-bit fields).
pub const XY_LIMIT: i64 = 0x400_0000_0000;

/// Fixed-point z lies in `[-Z_LIMIT, Z_LIMIT)` (a 42-bit field).
pub const Z_LIMIT: i64 = 0x200_0000_0000;

/// Whether `v` fits a two's-complement field of the given half-range.
pub open spec fn fits(v: int, half: int) -> bool {
    -half <= v < half
}

/// `v` as the unsigned contents of a two's-complement field of the given
/// half-range.
pub open spec fn field_of(v: int, half: int) -> int {
    if v >= 0 {
        v
    } else {
        v + 2 * half
    }
}

/// The signed value of a two's-complement field of the given half-range.
pub open spec fn sign_extend(f: int, half: int) -> int {
    if f >= half {
        f - 2 * half
    } else {
        f
    }
}

/// The 128-bit word holding fixed-point `x : y : z` from the most
/// significant bit down, in fields of 43, 43 and 42 bits.
pub open spec fn pack_spec(x: int, y: int, z: int) -> int {
    field_of(x, XY_LIMIT as int) * 0x20_0000_0000_0000_0000_0000 + field_of(y, XY_LIMIT as int)
        * 0x400_0000_0000 + field_of(z, Z_LIMIT as int)
}

pub open spec fn unpack_x(d: int) -> int {
    sign_extend(d / 0x20_0000_0000_0000_0000_0000, XY_LIMIT as int)
}

pub open spec fn unpack_y(d: int) -> int {
    sign_extend((d / 0x400_0000_0000) % 0x800_0000_0000, XY_LIMIT as int)
}

pub open spec fn unpack_z(d: int) -> int {
    sign_extend(d % 0x400_0000_0000, Z_LIMIT as int)
}

/// A position in fixed point with fourteen fractional bits, packed into one
/// 128-bit word for the GPU.
#[derive(Clone, Copy)]
pub struct PackedVec3 {
    data: u128,
}

impl View for PackedVec3 {
    type V = u128;

    closed spec fn view(&self) -> u128 {
        self.data
    }
}

/// Unpacking a packed word gives back the three coordinates it was packed
/// from, whenever each fits its field.
pub proof fn lemma_pack_round_trip(x: int, y: int, z: int)
    requires
        fits(x, XY_LIMIT as int),
        fits(y, XY_LIMIT as int),
        fits(z, Z_LIMIT as int),
    ensures
        0 <= pack_spec(x, y, z) < 0x1_0000_0000_0000_0000_0000_0000_0000_0000,
        unpack_x(pack_spec(x, y, z)) == x,
        unpack_y(pack_spec(x, y, z)) == y,
        unpack_z(pack_spec(x, y, z)) == z,
{
    let fx = field_of(x, XY_LIMIT as int);
    let fy = field_of(y, XY_LIMIT as int);
    let fz = field_of(z, Z_LIMIT as int);
    let d = pack_spec(x, y, z);
    let low = fy * 0x400_0000_0000 + fz;
    assert(0 <= low < 0x20_0000_0000_0000_0000_0000) by (nonlinear_arith)
        requires
            low == fy * 0x400_0000_0000 + fz,
            0 <= fy < 0x800_0000_0000,
            0 <= fz < 0x400_0000_0000,
    ;
    lemma_fundamental_div_mod_converse(d, 0x20_0000_0000_0000_0000_0000, fx, low);
    let high = fx * 0x800_0000_0000 + fy;
    assert(d == high * 0x400_0000_0000 + fz) by (nonlinear_arith)
        requires
            d == fx * 0x20_0000_0000_0000_0000_0000 + fy * 0x400_0000_0000 + fz,
            high == fx * 0x800_0000_0000 + fy,
    ;
    lemma_fundamental_div_mod_converse(d, 0x400_0000_0000, high, fz);
    lemma_fundamental_div_mod_converse(high, 0x800_0000_0000, fx, fy);
    assert(0 <= d < 0x1_0000_0000_0000_0000_0000_0000_0000_0000) by (nonlinear_arith)
        requires
            d == fx * 0x20_0000_0000_0000_0000_0000 + low,
            0 <= fx < 0x800_0000_0000,
            0 <= low < 0x20_0000_0000_0000_0000_0000,
    ;
}

/// The unsigned contents of a field from a signed value that fits it.
fn to_field(v: i64, half: i64) -> (f: u128)
    requires
        half == XY_LIMIT || half == Z_LIMIT,
        fits(v as int, half as int),
    ensures
        f as int == field_of(v as int, half as int),
{
    if v >= 0 {
        v as u128
    } else {
        (v + 2 * half) as u128
    }
}

/// The signed value of a field's unsigned contents.
fn from_field(f: u128, half: i64) -> (v: i64)
    requires
        half == XY_LIMIT || half == Z_LIMIT,
        0 <= f < 2 * half,
    ensures
        v as int == sign_extend(f as int, half as int),
{
    if f >= half as u128 {
        f as i64 - 2 * half
    } else {
        f as i64
    }
}

impl PackedVec3 {
    /// Packs fixed-point coordinates (units of 1/16384); `None` when one of
    /// them does not fit its field.
    pub fn from_fixed(x: i64, y: i64, z: i64) -> (r: Option<PackedVec3>)
        ensures
            match r {
                Some(p) => fits(x as int, XY_LIMIT as int) && fits(y as int, XY_LIMIT as int)
                    && fits(z as int, Z_LIMIT as int) && p@ as int == pack_spec(
                    x as int,
                    y as int,
                    z as int,
                ),
                None => !(fits(x as int, XY_LIMIT as int) && fits(y as int, XY_LIMIT as int) && fits(
                    z as int,
                    Z_LIMIT as int,
                )),
            },
    {
        if x < -XY_LIMIT || x >= XY_LIMIT || y < -XY_LIMIT || y >= XY_LIMIT || z < -Z_LIMIT || z
            >= Z_LIMIT {
            return None;
        }
        let fx = to_field(x, XY_LIMIT);
        let fy = to_field(y, XY_LIMIT);
        let fz = to_field(z, Z_LIMIT);
        let data = (fx << 85u128) | (fy << 42u128) | fz;
        assert((fx << 85u128) | (fy << 42u128) | fz == fx * 0x20_0000_0000_0000_0000_0000 + fy
            * 0x400_0000_0000 + fz) by (bit_vector)
            requires
                fx < 0x800_0000_0000,
                fy < 0x800_0000_0000,
                fz < 0x400_0000_0000,
        ;
        proof {
            lemma_pack_round_trip(x as int, y as int, z as int);
        }
        Some(PackedVec3 { data })
    }

    /// The fixed-point coordinates held in the word.
    pub fn to_fixed(&self) -> (r: (i64, i64, i64))
        ensures
            r.0 as int == unpack_x(self@ as int),
            r.1 as int == unpack_y(self@ as int),
            r.2 as int == unpack_z(self@ as int),
    {
        let d = self.data;
        let fx = d >> 85u128;
        let fy = (d >> 42u128) & 0x7ff_ffff_ffff;
        let fz = d & 0x3ff_ffff_ffff;
        assert(d >> 85u128 == d / 0x20_0000_0000_0000_0000_0000) by (bit_vector);
        assert((d >> 42u128) & 0x7ff_ffff_ffff == (d / 0x400_0000_0000) % 0x800_0000_0000) by (bit_vector);
        assert(d & 0x3ff_ffff_ffff == d % 0x400_0000_0000) by (bit_vector);
        assert(d >> 85u128 < 0x800_0000_0000) by (bit_vector);
        (from_field(fx, XY_LIMIT), from_field(fy, XY_LIMIT), from_field(fz, Z_LIMIT))
    }

    /// The vector held in a packed word; every word is one.
    pub fn from_bits(bits: u128) -> (p: PackedVec3)
        ensures
            p@ == bits,
    {
        PackedVec3 { data: bits }
    }

    /// The packed word.
    pub fn to_bits(&self) -> (b: u128)
        ensures
            b == self@,
    {
        self.data
    }

    /// The word as four 32-bit lanes, least significant first, as the GPU
    /// reads it from little-endian memory.
    pub fn lanes(&self) -> (l: [u32; 4])
        ensures
            forall|i: int| 0 <= i < 4 ==> l@[i] as int == (self@ as int / pow2_32(i)) % 0x1_0000_0000,
    {
        let d = self.data;
        let l = [d as u32, (d >> 32u128) as u32, (d >> 64u128) as u32, (d >> 96u128) as u32];
        assert(d as u32 == d % 0x1_0000_0000) by (bit_vector);
        assert((d >> 32u128) as u32 == (d / 0x1_0000_0000) % 0x1_0000_0000) by (bit_vector);
        assert((d >> 64u128) as u32 == (d / 0x1_0000_0000_0000_0000) % 0x1_0000_0000) by (bit_vector);
        assert((d >> 96u128) as u32 == (d / 0x1_0000_0000_0000_0000_0000_0000) % 0x1_0000_0000)
            by (bit_vector);
        l
    }
}

/// `2^(32 i)` for the four lanes of a word.
pub open spec fn pow2_32(i: int) -> int {
    if i == 0 {
        1
    } else if i == 1 {
        0x1_0000_0000
    } else if i == 2 {
        0x1_0000_0000_0000_0000
    } else {
        0x1_0000_0000_0000_0000_0000_0000
    }
}

} // verus!
