//! A block position packed into one 64-bit word: `x` in the top 26 bits, `z`
//! in the next 26, `y` in the low 12, each as two's complement.
use vstd::prelude::*;

use crate::reader::signed_of;
use crate::writer::unsigned_of;

verus! {

/// Patterns that an `x` or `z` field holds.
pub const XZ_RANGE: i64 = 0x400_0000;

/// Patterns that a `y` field holds.
pub const Y_RANGE: i64 = 0x1000;

/// A block position.
#[derive(Debug, Clone, Copy, PartialEq, Eq, Structural)]
pub struct Position {
    pub x: i64,
    pub y: i64,
    pub z: i64,
}

/// The packed word of a position: each coordinate reduced to its field's
/// width, then `x` shifted left by 38, `z` by 12, `y` in place.
pub open spec fn packed_bits(x: int, y: int, z: int) -> nat {
    ((x % 0x400_0000) * 0x40_0000_0000 + (z % 0x400_0000) * 0x1000 + (y % 0x1000)) as nat
}

/// The value of a field of `range` patterns, sign-extended.
pub open spec fn sign_extend(f: nat, range: nat) -> int {
    signed_of(f, range)
}

/// The position that the 64-bit pattern `u` packs.
pub open spec fn unpacked(u: nat) -> Position {
    Position {
        x: sign_extend(u / 0x40_0000_0000 % 0x400_0000, 0x400_0000) as i64,
        y: sign_extend(u % 0x1000, 0x1000) as i64,
        z: sign_extend(u / 0x1000 % 0x400_0000, 0x400_0000) as i64,
    }
}

/// Whether each coordinate fits its field.
pub open spec fn representable(p: Position) -> bool {
    &&& -0x200_0000 <= p.x < 0x200_0000
    &&& -0x800 <= p.y < 0x800
    &&& -0x200_0000 <= p.z < 0x200_0000
}

/// The 64-bit pattern of `v`.
fn word_bits(v: i64) -> (r: u64)
    ensures
        r as nat == unsigned_of(v as int, 0x1_0000_0000_0000_0000),
{
    if v >= 0 {
        v as u64
    } else {
        (v as i128 + 0x1_0000_0000_0000_0000) as u64
    }
}

/// Reducing the 64-bit pattern of `v` to a field gives what reducing `v` does.
proof fn lemma_mod_of_bits(v: int, m: int)
    requires
        m == 0x400_0000 || m == 0x1000,
        -0x8000_0000_0000_0000 <= v < 0x8000_0000_0000_0000,
    ensures
        unsigned_of(v, 0x1_0000_0000_0000_0000) as int % m == v % m,
{
    if v < 0 {
        assert(0x1_0000_0000_0000_0000int == m * (0x1_0000_0000_0000_0000int / m));
        vstd::arithmetic::div_mod::lemma_mod_multiples_vanish(0x1_0000_0000_0000_0000int / m, v, m);
    }
}

/// Sign-extending a field gives back a value that fits it.
proof fn lemma_sign_extend_field(v: int, m: int)
    requires
        m == 0x400_0000 || m == 0x1000,
        -(m / 2) <= v < m / 2,
    ensures
        sign_extend((v % m) as nat, m as nat) == v,
{
    if v < 0 {
        vstd::arithmetic::div_mod::lemma_mod_multiples_vanish(1, v, m);
        vstd::arithmetic::div_mod::lemma_small_mod((v + m) as nat, m as nat);
    } else {
        vstd::arithmetic::div_mod::lemma_small_mod(v as nat, m as nat);
    }
}

impl Position {
    /// The packed 64-bit word of this position.
    pub fn encode(&self) -> (r: i64)
        ensures
            r as int == signed_of(packed_bits(self.x as int, self.y as int, self.z as int), 0x1_0000_0000_0000_0000),
    {
        let xm: u64 = word_bits(self.x) % 0x400_0000;
        let zm: u64 = word_bits(self.z) % 0x400_0000;
        let ym: u64 = word_bits(self.y) % 0x1000;
        proof {
            lemma_mod_of_bits(self.x as int, 0x400_0000);
            lemma_mod_of_bits(self.z as int, 0x400_0000);
            lemma_mod_of_bits(self.y as int, 0x1000);
            assert(xm * 0x40_0000_0000 + zm * 0x1000 + ym < 0x1_0000_0000_0000_0000) by (nonlinear_arith)
                requires xm < 0x400_0000, zm < 0x400_0000, ym < 0x1000;
        }
        let word: u64 = xm * 0x40_0000_0000 + zm * 0x1000 + ym;
        if word < 0x8000_0000_0000_0000 {
            word as i64
        } else {
            (word as i128 - 0x1_0000_0000_0000_0000) as i64
        }
    }

    /// The position that a packed 64-bit word holds, each field sign-extended.
    pub fn decode(val: i64) -> (r: Position)
        ensures
            r == unpacked(unsigned_of(val as int, 0x1_0000_0000_0000_0000)),
    {
        let u: u64 = word_bits(val);
        let xf: u64 = u / 0x40_0000_0000 % 0x400_0000;
        let yf: u64 = u % 0x1000;
        let zf: u64 = u / 0x1000 % 0x400_0000;
        let x: i64 = if xf < 0x200_0000 {
            xf as i64
        } else {
            xf as i64 - XZ_RANGE
        };
        let y: i64 = if yf < 0x800 {
            yf as i64
        } else {
            yf as i64 - Y_RANGE
        };
        let z: i64 = if zf < 0x200_0000 {
            zf as i64
        } else {
            zf as i64 - XZ_RANGE
        };
        Position { x, y, z }
    }
}

/// Decoding the encoding of a position whose coordinates fit their fields
/// gives the position back.
pub proof fn lemma_position_round_trip(p: Position)
    requires
        representable(p),
    ensures
        unpacked(unsigned_of(
            signed_of(packed_bits(p.x as int, p.y as int, p.z as int), 0x1_0000_0000_0000_0000),
            0x1_0000_0000_0000_0000,
        )) == p,
{
    let xm = p.x as int % 0x400_0000;
    let zm = p.z as int % 0x400_0000;
    let ym = p.y as int % 0x1000;
    let w = packed_bits(p.x as int, p.y as int, p.z as int);
    assert(w < 0x1_0000_0000_0000_0000 && w / 0x40_0000_0000 % 0x400_0000 == xm && w % 0x1000 == ym
        && w / 0x1000 % 0x400_0000 == zm) by (nonlinear_arith)
        requires
            0 <= xm < 0x400_0000,
            0 <= zm < 0x400_0000,
            0 <= ym < 0x1000,
            w == xm * 0x40_0000_0000 + zm * 0x1000 + ym,
    ;
    assert(unsigned_of(signed_of(w, 0x1_0000_0000_0000_0000), 0x1_0000_0000_0000_0000) == w);
    lemma_sign_extend_field(p.x as int, 0x400_0000);
    lemma_sign_extend_field(p.y as int, 0x1000);
    lemma_sign_extend_field(p.z as int, 0x400_0000);
}

} // verus!
