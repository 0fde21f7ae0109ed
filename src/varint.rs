//! VarInt and VarLong: an integer as 7-bit groups, least significant group
//! first, each byte but the last with its high (continuation) bit set.
//! Signed values travel as their two's-complement bit pattern.
use vstd::prelude::*;

use crate::error::BufferError;

verus! {

/// Bytes a VarInt may take at most.
pub const VAR_INT_MAX_BYTES: usize = 5;

/// Bytes a VarLong may take at most.
pub const VAR_LONG_MAX_BYTES: usize = 10;

/// `128` to the power `e`.
pub open spec fn pow128(e: nat) -> nat
    decreases e,
{
    if e == 0 {
        1
    } else {
        128 * pow128((e - 1) as nat)
    }
}

/// The number that the low 7 bits of each byte spell, first byte lowest.
pub open spec fn groups_value(s: Seq<u8>) -> nat
    decreases s.len(),
{
    if s.len() == 0 {
        0
    } else {
        (s[0] % 128) as nat + 128 * groups_value(s.drop_first())
    }
}

/// Index of the first byte without the continuation bit, or `s.len()` if
/// every byte has it.
pub open spec fn stop_index(s: Seq<u8>) -> nat
    decreases s.len(),
{
    if s.len() == 0 {
        0
    } else if s[0] < 128 {
        0
    } else {
        1 + stop_index(s.drop_first())
    }
}

/// The canonical (shortest) group encoding of `n`.
pub open spec fn var_bytes(n: nat) -> Seq<u8>
    decreases n,
{
    if n < 128 {
        seq![n as u8]
    } else {
        seq![(n % 128 + 128) as u8] + var_bytes(n / 128)
    }
}

/// Decoding a group encoding of at most `max` bytes from the front of `s`:
/// the value and the number of bytes it took, `too_large` when the first `max`
/// bytes all continue, `Truncated` when `s` ends first.
pub open spec fn var_decode(s: Seq<u8>, max: nat, too_large: BufferError) -> Result<(nat, nat), BufferError> {
    let k = stop_index(s);
    if k < max && k < s.len() {
        Ok((groups_value(s.take(k + 1 as int)), k + 1))
    } else if s.len() >= max {
        Err(too_large)
    } else {
        Err(BufferError::Truncated)
    }
}

/// The 32-bit two's-complement pattern of `v`, as a number.
pub open spec fn i32_bits(v: i32) -> nat {
    if v >= 0 {
        v as nat
    } else {
        (v + 0x1_0000_0000) as nat
    }
}

/// The 64-bit two's-complement pattern of `v`, as a number.
pub open spec fn i64_bits(v: i64) -> nat {
    if v >= 0 {
        v as nat
    } else {
        (v + 0x1_0000_0000_0000_0000) as nat
    }
}

/// The `i32` whose two's-complement pattern is the low 32 bits of `n`.
pub open spec fn i32_from_bits(n: nat) -> i32 {
    let m = n % 0x1_0000_0000;
    if m < 0x8000_0000 {
        m as i32
    } else {
        (m - 0x1_0000_0000) as i32
    }
}

/// The `i64` whose two's-complement pattern is the low 64 bits of `n`.
pub open spec fn i64_from_bits(n: nat) -> i64 {
    let m = n % 0x1_0000_0000_0000_0000;
    if m < 0x8000_0000_0000_0000 {
        m as i64
    } else {
        (m - 0x1_0000_0000_0000_0000) as i64
    }
}

/// The VarInt encoding of `v`.
pub open spec fn var_int_bytes(v: i32) -> Seq<u8> {
    var_bytes(i32_bits(v))
}

/// The VarLong encoding of `v`.
pub open spec fn var_long_bytes(v: i64) -> Seq<u8> {
    var_bytes(i64_bits(v))
}

/// Decoding a VarInt from the front of `s`: the value and the bytes it took.
pub open spec fn var_int_decode(s: Seq<u8>) -> Result<(i32, nat), BufferError> {
    match var_decode(s, 5, BufferError::VarIntTooLarge) {
        Ok((v, n)) => Ok((i32_from_bits(v), n)),
        Err(e) => Err(e),
    }
}

/// Decoding a VarLong from the front of `s`: the value and the bytes it took.
pub open spec fn var_long_decode(s: Seq<u8>) -> Result<(i64, nat), BufferError> {
    match var_decode(s, 10, BufferError::VarLongTooLarge) {
        Ok((v, n)) => Ok((i64_from_bits(v), n)),
        Err(e) => Err(e),
    }
}

/// Appending a byte adds its group at the next power of 128.
proof fn lemma_groups_value_push(s: Seq<u8>, b: u8)
    ensures
        groups_value(s.push(b)) == groups_value(s) + (b % 128) as nat * pow128(s.len()),
    decreases s.len(),
{
    if s.len() > 0 {
        assert(s.push(b).drop_first() =~= s.drop_first().push(b));
        lemma_groups_value_push(s.drop_first(), b);
        let rest = groups_value(s.drop_first());
        let t = (b % 128) as nat;
        assert(128 * (rest + t * pow128((s.len() - 1) as nat)) == 128 * rest + t * pow128(s.len())) by (nonlinear_arith)
            requires pow128(s.len()) == 128 * pow128((s.len() - 1) as nat);
        assert(s.push(b)[0] == s[0]);
    } else {
        assert(s.push(b).drop_first() =~= Seq::<u8>::empty());
        assert(groups_value(Seq::<u8>::empty()) == 0);
        assert(s.push(b)[0] == b);
        assert(groups_value(s) == 0);
        assert(pow128(0) == 1);
    }
}

/// `k` groups spell a number below `128^k`.
proof fn lemma_groups_value_bound(s: Seq<u8>)
    ensures
        groups_value(s) < pow128(s.len()),
    decreases s.len(),
{
    if s.len() > 0 {
        lemma_groups_value_bound(s.drop_first());
        let rest = groups_value(s.drop_first());
        let p = pow128((s.len() - 1) as nat);
        assert((s[0] % 128) as nat + 128 * rest < 128 * p) by (nonlinear_arith)
            requires rest < p, (s[0] % 128) < 128;
    }
}

/// Where the first `i` bytes all continue and byte `i` stops (or `s` ends
/// there), `i` is the stop index.
proof fn lemma_stop_index(s: Seq<u8>, i: nat)
    requires
        i <= s.len(),
        forall|j: int| 0 <= j < i ==> s[j] >= 128,
        i == s.len() || s[i as int] < 128,
    ensures
        stop_index(s) == i,
    decreases i,
{
    if i > 0 {
        lemma_stop_index(s.drop_first(), (i - 1) as nat);
    }
}

/// Where the first `i` bytes all continue, the stop index is at least `i`.
proof fn lemma_stop_index_at_least(s: Seq<u8>, i: nat)
    requires
        i <= s.len(),
        forall|j: int| 0 <= j < i ==> s[j] >= 128,
    ensures
        stop_index(s) >= i,
    decreases i,
{
    if i > 0 {
        lemma_stop_index_at_least(s.drop_first(), (i - 1) as nat);
    }
}

/// Powers of 128 are positive and grow with the exponent.
proof fn lemma_pow128_mono(a: nat, b: nat)
    requires
        a <= b,
    ensures
        1 <= pow128(a) <= pow128(b),
    decreases b,
{
    if b > a {
        lemma_pow128_mono(a, (b - 1) as nat);
    } else if a > 0 {
        lemma_pow128_mono((a - 1) as nat, (a - 1) as nat);
    }
}

/// A decoded value is below `128` to the power of the bytes it took.
proof fn lemma_var_decode_bound(s: Seq<u8>, max: nat, too_large: BufferError)
    requires
        max <= 10,
    ensures
        var_decode(s, max, too_large) matches Ok((v, n)) ==> v < pow128(n) && n <= max,
{
    let k = stop_index(s);
    if k < max && k < s.len() {
        lemma_groups_value_bound(s.take(k + 1 as int));
    }
}

/// The powers of 128 that bound five and ten groups.
proof fn lemma_pow128_ten()
    ensures
        pow128(10) == 0x40_0000_0000_0000_0000,
        pow128(5) == 0x8_0000_0000,
{
    reveal_with_fuel(pow128, 11);
}

/// What decoding needs to know of `var_bytes(n)` followed by anything.
proof fn lemma_var_bytes_parts(n: nat, rest: Seq<u8>)
    ensures
        var_bytes(n).len() >= 1,
        stop_index(var_bytes(n) + rest) == var_bytes(n).len() - 1,
        groups_value(var_bytes(n)) == n,
        (var_bytes(n) + rest).take(var_bytes(n).len() as int) == var_bytes(n),
    decreases n,
{
    let e = var_bytes(n);
    assert((e + rest).take(e.len() as int) =~= e);
    if n < 128 {
        assert((e + rest)[0] == n as u8);
        assert(e.drop_first() =~= Seq::<u8>::empty());
        assert(groups_value(Seq::<u8>::empty()) == 0);
    } else {
        let tail = var_bytes(n / 128);
        lemma_var_bytes_parts(n / 128, rest);
        assert((e + rest).drop_first() =~= tail + rest);
        assert(e.drop_first() =~= tail);
        assert((e + rest)[0] >= 128);
    }
}

/// An encoding of `n` is no longer than `m` bytes where `n < 128^m`.
proof fn lemma_var_bytes_len(n: nat, m: nat)
    requires
        1 <= m,
        n < pow128(m),
    ensures
        var_bytes(n).len() <= m,
    decreases n,
{
    if n >= 128 {
        if m == 1 {
            assert(pow128(1) == 128) by {
                reveal_with_fuel(pow128, 2);
            }
        }
        assert(n / 128 < pow128((m - 1) as nat)) by (nonlinear_arith)
            requires n < pow128(m), pow128(m) == 128 * pow128((m - 1) as nat);
        lemma_var_bytes_len(n / 128, (m - 1) as nat);
    }
}

/// Decoding at most `max` bytes of `var_bytes(n)` followed by anything gives
/// `n` and the length of the encoding, where that length is within `max`.
proof fn lemma_var_decode_of_bytes(n: nat, rest: Seq<u8>, max: nat, too_large: BufferError)
    requires
        var_bytes(n).len() <= max,
    ensures
        var_decode(var_bytes(n) + rest, max, too_large) == Ok::<(nat, nat), BufferError>((n, var_bytes(n).len())),
{
    lemma_var_bytes_parts(n, rest);
}

/// Decoding the VarInt encoding of any `v`, whatever bytes follow it, gives
/// back `v` and consumes exactly the encoding.
pub proof fn lemma_var_int_round_trip(v: i32, rest: Seq<u8>)
    ensures
        var_int_decode(var_int_bytes(v) + rest) == Ok::<(i32, nat), BufferError>((v, var_int_bytes(v).len())),
{
    let n = i32_bits(v);
    lemma_pow128_ten();
    lemma_var_bytes_len(n, 5);
    lemma_var_decode_of_bytes(n, rest, 5, BufferError::VarIntTooLarge);
}

/// Decoding the VarLong encoding of any `v`, whatever bytes follow it, gives
/// back `v` and consumes exactly the encoding.
pub proof fn lemma_var_long_round_trip(v: i64, rest: Seq<u8>)
    ensures
        var_long_decode(var_long_bytes(v) + rest) == Ok::<(i64, nat), BufferError>((v, var_long_bytes(v).len())),
{
    let n = i64_bits(v);
    lemma_pow128_ten();
    lemma_var_bytes_len(n, 10);
    lemma_var_decode_of_bytes(n, rest, 10, BufferError::VarLongTooLarge);
}

/// Bytes whose first five all carry the continuation bit are refused as a
/// VarInt, whatever follows them; the first ten, as a VarLong.
pub proof fn lemma_overlong_refused(s: Seq<u8>)
    ensures
        s.len() >= 5 && (forall|j: int| 0 <= j < 5 ==> s[j] >= 128) ==> var_int_decode(s) == Err::<(i32, nat), BufferError>(
            BufferError::VarIntTooLarge,
        ),
        s.len() >= 10 && (forall|j: int| 0 <= j < 10 ==> s[j] >= 128) ==> var_long_decode(s) == Err::<(i64, nat), BufferError>(
            BufferError::VarLongTooLarge,
        ),
{
    if s.len() >= 5 && (forall|j: int| 0 <= j < 5 ==> s[j] >= 128) {
        lemma_stop_index_at_least(s, 5);
    }
    if s.len() >= 10 && (forall|j: int| 0 <= j < 10 ==> s[j] >= 128) {
        lemma_stop_index_at_least(s, 10);
    }
}

/// The powers of 128 below the VarInt and VarLong ranges.
proof fn lemma_pow128_small()
    ensures
        pow128(4) == 0x1000_0000,
        pow128(9) == 0x8000_0000_0000_0000,
{
    reveal_with_fuel(pow128, 10);
}

/// No VarInt takes fewer bytes than `var_int_bytes(v)` and decodes to `v`:
/// the encoding written is the shortest one there is.
pub proof fn lemma_var_int_shortest(v: i32, s: Seq<u8>, n: nat)
    requires
        var_int_decode(s) == Ok::<(i32, nat), BufferError>((v, n)),
    ensures
        n >= var_int_bytes(v).len(),
{
    let g = groups_value(s.take(n as int));
    lemma_var_decode_bound(s, 5, BufferError::VarIntTooLarge);
    lemma_var_int_len(v);
    if n < 5 {
        lemma_pow128_mono(n, 4);
        lemma_pow128_small();
        assert(g % 0x1_0000_0000 == g);
        assert(i32_bits(v) == g);
        let k = var_int_bytes(v).len();
        lemma_var_bytes_minimal(g);
        if k > n {
            lemma_pow128_mono(n, (k - 1) as nat);
        }
    }
}

/// No VarLong takes fewer bytes than `var_long_bytes(v)` and decodes to `v`.
pub proof fn lemma_var_long_shortest(v: i64, s: Seq<u8>, n: nat)
    requires
        var_long_decode(s) == Ok::<(i64, nat), BufferError>((v, n)),
    ensures
        n >= var_long_bytes(v).len(),
{
    let g = groups_value(s.take(n as int));
    lemma_var_decode_bound(s, 10, BufferError::VarLongTooLarge);
    lemma_pow128_ten();
    lemma_var_bytes_len(i64_bits(v), 10);
    if n < 10 {
        lemma_pow128_mono(n, 9);
        lemma_pow128_small();
        assert(g % 0x1_0000_0000_0000_0000 == g);
        assert(i64_bits(v) == g);
        let k = var_long_bytes(v).len();
        lemma_var_bytes_minimal(g);
        if k > n {
            lemma_pow128_mono(n, (k - 1) as nat);
        }
    }
}

/// Every byte of an encoding but the last carries the continuation bit.
proof fn lemma_var_bytes_continue(n: nat)
    ensures
        forall|j: int| 0 <= j < var_bytes(n).len() - 1 ==> var_bytes(n)[j] >= 128,
    decreases n,
{
    if n >= 128 {
        lemma_var_bytes_continue(n / 128);
        let tail = var_bytes(n / 128);
        assert forall|j: int| 0 <= j < var_bytes(n).len() - 1 implies var_bytes(n)[j] >= 128 by {
            if j > 0 {
                assert(var_bytes(n)[j] == tail[j - 1]);
            }
        }
    }
}

/// A VarInt encoding takes at most five bytes.
pub proof fn lemma_var_int_len(v: i32)
    ensures
        1 <= var_int_bytes(v).len() <= 5,
{
    lemma_pow128_ten();
    lemma_var_bytes_len(i32_bits(v), 5);
    lemma_var_bytes_parts(i32_bits(v), Seq::empty());
}

/// Decoding a proper prefix of a VarInt encoding finds too few bytes.
pub proof fn lemma_var_int_prefix(v: i32, k: nat)
    requires
        k < var_int_bytes(v).len(),
    ensures
        var_int_decode(var_int_bytes(v).take(k as int)) == Err::<(i32, nat), BufferError>(BufferError::Truncated),
{
    let e = var_int_bytes(v);
    lemma_var_int_len(v);
    lemma_var_bytes_continue(i32_bits(v));
    lemma_stop_index(e.take(k as int), k);
}

/// The encoding is the shortest there is: `n` fits in as many 7-bit groups as
/// `var_bytes(n)` has bytes, and in no fewer.
pub proof fn lemma_var_bytes_minimal(n: nat)
    ensures
        n < pow128(var_bytes(n).len()),
        var_bytes(n).len() == 1 || pow128((var_bytes(n).len() - 1) as nat) <= n,
    decreases n,
{
    if n < 128 {
        assert(pow128(1) == 128) by {
            reveal_with_fuel(pow128, 2);
        }
    } else {
        lemma_var_bytes_minimal(n / 128);
        let k = var_bytes(n / 128).len();
        assert(var_bytes(n).len() == k + 1);
        assert(pow128(k + 1) == 128 * pow128(k));
        if k == 1 {
            assert(pow128(1) == 128) by {
                reveal_with_fuel(pow128, 2);
            }
        } else {
            assert(pow128(k) == 128 * pow128((k - 1) as nat));
        }
        assert(n < pow128(k + 1) && pow128(k) <= n) by (nonlinear_arith)
            requires n / 128 < pow128(k), n >= 128, pow128(k + 1) == 128 * pow128(k),
                k == 1 ==> pow128(k) == 128,
                k != 1 ==> (pow128((k - 1) as nat) <= n / 128 && pow128(k) == 128 * pow128((k - 1) as nat));
    }
}

/// Decodes a group encoding of at most `max` bytes from the front of `s`.
fn decode_groups(s: &[u8], max: usize, too_large: BufferError) -> (r: Result<(u128, usize), BufferError>)
    requires
        1 <= max <= 10,
    ensures
        match var_decode(s@, max as nat, too_large) {
            Ok((v, n)) => r == Ok::<(u128, usize), BufferError>((v as u128, n as usize)),
            Err(e) => r == Err::<(u128, usize), BufferError>(e),
        },
{
    let mut acc: u128 = 0;
    let mut mult: u128 = 1;
    let mut i: usize = 0;
    loop
        invariant
            1 <= max <= 10,
            i < max,
            i <= s@.len(),
            forall|j: int| 0 <= j < i ==> s@[j] >= 128,
            mult == pow128(i as nat),
            acc == groups_value(s@.take(i as int)),
        decreases max - i,
    {
        if i >= s.len() {
            proof {
                lemma_stop_index(s@, i as nat);
            }
            return Err(BufferError::Truncated);
        }
        let b = s[i];
        proof {
            lemma_groups_value_push(s@.take(i as int), b);
            assert(s@.take(i as int).push(b) =~= s@.take(i + 1));
            lemma_groups_value_bound(s@.take(i + 1));
            lemma_pow128_mono((i + 1) as nat, 10);
            lemma_pow128_ten();
        }
        acc = acc + (b % 128) as u128 * mult;
        if b < 128 {
            proof {
                lemma_stop_index(s@, i as nat);
            }
            return Ok((acc, i + 1));
        }
        if i + 1 >= max {
            proof {
                lemma_stop_index_at_least(s@, max as nat);
            }
            return Err(too_large);
        }
        mult = mult * 128;
        i = i + 1;
    }
}

/// The canonical group encoding of `x`.
fn encode_groups(x: u64) -> (r: Vec<u8>)
    ensures
        r@ == var_bytes(x as nat),
{
    let mut out: Vec<u8> = Vec::new();
    let mut rest: u64 = x;
    while rest >= 128
        invariant
            out@ + var_bytes(rest as nat) == var_bytes(x as nat),
        decreases rest,
    {
        let group: u8 = (rest % 128 + 128) as u8;
        proof {
            assert(var_bytes(rest as nat) == seq![group] + var_bytes((rest / 128) as nat));
            assert(out@.push(group) + var_bytes((rest / 128) as nat) =~= out@ + (seq![group] + var_bytes((rest / 128) as nat)));
        }
        out.push(group);
        rest = rest / 128;
    }
    proof {
        assert(out@.push(rest as u8) =~= out@ + var_bytes(rest as nat));
    }
    out.push(rest as u8);
    out
}

/// Encodes `value` as a VarInt: at most five bytes, the shortest encoding
/// of its 32-bit pattern.
pub fn encode_var_int(value: i32) -> (r: Vec<u8>)
    ensures
        r@ == var_int_bytes(value),
{
    let bits: u64 = if value >= 0 {
        value as u64
    } else {
        (value as i64 + 0x1_0000_0000) as u64
    };
    encode_groups(bits)
}

/// Encodes `value` as a VarLong: at most ten bytes, the shortest encoding
/// of its 64-bit pattern.
pub fn encode_var_long(value: i64) -> (r: Vec<u8>)
    ensures
        r@ == var_long_bytes(value),
{
    let bits: u64 = if value >= 0 {
        value as u64
    } else {
        (value as i128 + 0x1_0000_0000_0000_0000) as u64
    };
    encode_groups(bits)
}

/// Decodes a VarInt from the front of `s`: the value and the number of
/// bytes it took.
pub fn decode_var_int(s: &[u8]) -> (r: Result<(i32, usize), BufferError>)
    ensures
        match var_int_decode(s@) {
            Ok((v, n)) => r == Ok::<(i32, usize), BufferError>((v, n as usize)),
            Err(e) => r == Err::<(i32, usize), BufferError>(e),
        },
{
    match decode_groups(s, VAR_INT_MAX_BYTES, BufferError::VarIntTooLarge) {
        Ok((v, n)) => {
            proof {
                lemma_var_decode_bound(s@, 5, BufferError::VarIntTooLarge);
                lemma_pow128_mono(n as nat, 10);
                lemma_pow128_ten();
            }
            let m: u128 = v % 0x1_0000_0000;
            let value: i32 = if m < 0x8000_0000 {
                m as i32
            } else {
                (m as i64 - 0x1_0000_0000) as i32
            };
            Ok((value, n))
        },
        Err(e) => Err(e),
    }
}

/// Decodes a VarLong from the front of `s`: the value and the number of
/// bytes it took.
pub fn decode_var_long(s: &[u8]) -> (r: Result<(i64, usize), BufferError>)
    ensures
        match var_long_decode(s@) {
            Ok((v, n)) => r == Ok::<(i64, usize), BufferError>((v, n as usize)),
            Err(e) => r == Err::<(i64, usize), BufferError>(e),
        },
{
    match decode_groups(s, VAR_LONG_MAX_BYTES, BufferError::VarLongTooLarge) {
        Ok((v, n)) => {
            proof {
                lemma_var_decode_bound(s@, 10, BufferError::VarLongTooLarge);
                lemma_pow128_mono(n as nat, 10);
                lemma_pow128_ten();
            }
            let m: u128 = v % 0x1_0000_0000_0000_0000;
            let value: i64 = if m < 0x8000_0000_0000_0000 {
                m as i64
            } else {
                (m as i128 - 0x1_0000_0000_0000_0000) as i64
            };
            Ok((value, n))
        },
        Err(e) => Err(e),
    }
}

} // verus!
