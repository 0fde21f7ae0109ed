//! Appending wire values to the back of a buffer. Writes always succeed, but
//! for a string longer than its bound.
use vstd::prelude::*;
use vstd::string::StringSliceAdditionalSpecFns;
use vstd::utf8::{encode_utf8, encode_utf8_decode_utf8, encode_utf8_valid_utf8};

use crate::buf::{buf_data, buf_extend};
use crate::error::BufferError;
use crate::reader::{be_value, fixed_read, pow256, string_read, FULL_STRING_MAX};
use crate::varint::{
    encode_var_int, encode_var_long, lemma_var_int_prefix, lemma_var_int_round_trip, var_int_bytes,
    var_long_bytes,
};
use crate::wire_uuid::WireUuid;

verus! {

/// The `n` low bytes of `x`, most significant first.
pub open spec fn be_bytes(x: nat, n: nat) -> Seq<u8>
    decreases n,
{
    if n == 0 {
        Seq::empty()
    } else {
        be_bytes(x / 256, (n - 1) as nat).push((x % 256) as u8)
    }
}

/// The pattern of `v` in a two's-complement width that holds `modulus`
/// patterns.
pub open spec fn unsigned_of(v: int, modulus: nat) -> nat {
    if v >= 0 {
        v as nat
    } else {
        (v + modulus) as nat
    }
}

/// The wire byte of a boolean.
pub open spec fn bool_byte(b: bool) -> u8 {
    if b {
        1
    } else {
        0
    }
}

/// Whether `bytes` is what `function` may give for `value`.
pub open spec fn encodes_as<T, F: Fn(&T) -> Vec<u8>>(function: F, value: T, bytes: Seq<u8>) -> bool {
    exists|o: Vec<u8>| #[trigger] function.ensures((&value,), o) && o@ == bytes
}

/// The bytes that writing a string of characters `s` appends: its VarInt
/// byte length, then its UTF-8 bytes.
pub open spec fn string_bytes(s: Seq<char>) -> Seq<u8> {
    var_int_bytes(encode_utf8(s).len() as i32) + encode_utf8(s)
}

/// Powers of 256 are positive.
proof fn lemma_pow256_positive(n: nat)
    ensures
        pow256(n) > 0,
    decreases n,
{
    if n > 0 {
        lemma_pow256_positive((n - 1) as nat);
    }
}

/// Reading back `n` big-endian bytes of `x` gives `x` reduced to `n` bytes.
pub proof fn lemma_be_round_trip(x: nat, n: nat)
    ensures
        be_bytes(x, n).len() == n,
        be_value(be_bytes(x, n)) == x % pow256(n),
    decreases n,
{
    if n > 0 {
        lemma_be_round_trip(x / 256, (n - 1) as nat);
        let b = be_bytes(x, n);
        assert(b.drop_last() =~= be_bytes(x / 256, (n - 1) as nat));
        assert(pow256(n) == 256 * pow256((n - 1) as nat));
        lemma_pow256_positive((n - 1) as nat);
        vstd::arithmetic::div_mod::lemma_mod_breakdown(x as int, 256, pow256((n - 1) as nat) as int);
    }
}

/// A fixed-width number written and then read back is the number reduced
/// to its width, whatever follows it.
pub proof fn lemma_fixed_round_trip(x: nat, n: nat, rest: Seq<u8>)
    ensures
        fixed_read(be_bytes(x, n) + rest, n) == Ok::<nat, BufferError>(x % pow256(n)),
{
    lemma_be_round_trip(x, n);
    assert((be_bytes(x, n) + rest).take(n as int) =~= be_bytes(x, n));
}

/// A UUID written and then read back is the same UUID: its high word comes
/// first, then its low word.
pub proof fn lemma_uuid_round_trip(u: WireUuid, rest: Seq<u8>)
    ensures
        ({
            let s = be_bytes(u.high as nat, 8) + be_bytes(u.low as nat, 8) + rest;
            &&& s.len() >= 16
            &&& be_value(s.take(8)) == u.high as nat
            &&& be_value(s.subrange(8, 16)) == u.low as nat
        }),
{
    let s = be_bytes(u.high as nat, 8) + be_bytes(u.low as nat, 8) + rest;
    lemma_be_round_trip(u.high as nat, 8);
    lemma_be_round_trip(u.low as nat, 8);
    assert(pow256(8) == 0x1_0000_0000_0000_0000) by {
        reveal_with_fuel(pow256, 9);
    }
    assert(s.take(8) =~= be_bytes(u.high as nat, 8));
    assert(s.subrange(8, 16) =~= be_bytes(u.low as nat, 8));
}

/// A string written within its bound and then read back with the same bound
/// is the same string, and takes exactly the bytes written; a read of any
/// part of those bytes cut short fails with `Truncated`.
pub proof fn lemma_string_round_trip(s: Seq<char>, max: int, rest: Seq<u8>, k: nat)
    requires
        encode_utf8(s).len() <= max,
        max <= i32::MAX,
        k < string_bytes(s).len(),
    ensures
        string_read(string_bytes(s) + rest, max) == Ok::<(Seq<char>, nat), BufferError>((s, string_bytes(s).len())),
        string_read(string_bytes(s).take(k as int), max) == Err::<(Seq<char>, nat), BufferError>(
            BufferError::Truncated,
        ),
{
    let body = encode_utf8(s);
    let len = body.len() as i32;
    let whole = string_bytes(s) + rest;
    assert(whole =~= var_int_bytes(len) + (body + rest));
    lemma_var_int_round_trip(len, body + rest);
    let n = var_int_bytes(len).len();
    assert(whole.subrange(n as int, n + len) =~= body);
    encode_utf8_valid_utf8(s);
    encode_utf8_decode_utf8(s);
    let cut = string_bytes(s).take(k as int);
    if k < n {
        assert(cut =~= var_int_bytes(len).take(k as int));
        lemma_var_int_prefix(len, k);
    } else {
        assert(cut =~= var_int_bytes(len) + body.take(k - n));
        lemma_var_int_round_trip(len, body.take(k - n));
    }
}

/// Appends the `n` low bytes of `x`, most significant first.
fn write_be(buf: &mut bytes::BytesMut, x: u64, n: usize)
    requires
        1 <= n <= 8,
    ensures
        buf_data(*final(buf)) == buf_data(*old(buf)) + be_bytes(x as nat, n as nat),
{
    let mut out: Vec<u8> = Vec::new();
    let mut k: usize = 0;
    while k < n
        invariant
            k <= n,
            out@.len() == k,
        decreases n - k,
    {
        out.push(0);
        k = k + 1;
    }
    let mut rest: u64 = x;
    let mut i: usize = n;
    while i > 0
        invariant
            i <= n == out@.len(),
            be_bytes(x as nat, n as nat) == be_bytes(rest as nat, i as nat) + out@.subrange(i as int, n as int),
        decreases i,
    {
        let b: u8 = (rest % 256) as u8;
        proof {
            let tail = out@.subrange(i as int, n as int);
            let prefix = be_bytes((rest / 256) as nat, (i - 1) as nat);
            assert(be_bytes(rest as nat, i as nat) == prefix.push(b));
            assert(out@.update(i - 1, b).subrange(i - 1, n as int) =~= seq![b] + tail);
            assert(prefix.push(b) + tail =~= prefix + (seq![b] + tail));
        }
        out.set(i - 1, b);
        rest = rest / 256;
        i = i - 1;
    }
    proof {
        assert(out@.subrange(0, n as int) =~= out@);
        assert(be_bytes(rest as nat, 0) + out@ =~= out@);
    }
    buf_extend(buf, out.as_slice());
}

/// Appending wire values to the back of a byte container.
pub trait ProtocolBufferWriterExt: Sized {
    /// The bytes held, written ones last.
    spec fn written(&self) -> Seq<u8>;

    /// One byte: 1 for `true`, 0 for `false`.
    fn write_bool(&mut self, value: &bool)
        ensures
            final(self).written() == old(self).written().push(bool_byte(*value)),
    ;

    /// One byte, two's complement.
    fn write_i8(&mut self, value: &i8)
        ensures
            final(self).written() == old(self).written() + be_bytes(unsigned_of(*value as int, 0x100), 1),
    ;

    /// One byte.
    fn write_u8(&mut self, value: &u8)
        ensures
            final(self).written() == old(self).written().push(*value),
    ;

    /// Two bytes, big-endian, two's complement.
    fn write_i16(&mut self, value: &i16)
        ensures
            final(self).written() == old(self).written() + be_bytes(unsigned_of(*value as int, 0x1_0000), 2),
    ;

    /// Two bytes, big-endian.
    fn write_u16(&mut self, value: &u16)
        ensures
            final(self).written() == old(self).written() + be_bytes(*value as nat, 2),
    ;

    /// Four bytes, big-endian, two's complement.
    fn write_i32(&mut self, value: &i32)
        ensures
            final(self).written() == old(self).written() + be_bytes(unsigned_of(*value as int, 0x1_0000_0000), 4),
    ;

    /// Four bytes, big-endian.
    fn write_u32(&mut self, value: &u32)
        ensures
            final(self).written() == old(self).written() + be_bytes(*value as nat, 4),
    ;

    /// Eight bytes, big-endian, two's complement.
    fn write_i64(&mut self, value: &i64)
        ensures
            final(self).written() == old(self).written() + be_bytes(
                unsigned_of(*value as int, 0x1_0000_0000_0000_0000),
                8,
            ),
    ;

    /// Eight bytes, big-endian.
    fn write_u64(&mut self, value: &u64)
        ensures
            final(self).written() == old(self).written() + be_bytes(*value as nat, 8),
    ;

    /// The VarInt byte length of `value`, then its UTF-8 bytes; refused when
    /// that length exceeds `max_size`.
    fn write_string(&mut self, value: &str, max_size: i32) -> (r: Result<(), BufferError>)
        ensures
            value.spec_bytes().len() > max_size ==> r == Err::<(), BufferError>(BufferError::StringTooLarge)
                && final(self).written() == old(self).written(),
            value.spec_bytes().len() <= max_size ==> r is Ok && final(self).written() == old(self).written()
                + var_int_bytes(value.spec_bytes().len() as i32) + value.spec_bytes(),
    ;

    /// A string of at most 32767 bytes.
    fn write_full_string(&mut self, value: &str) -> (r: Result<(), BufferError>)
        ensures
            value.spec_bytes().len() > FULL_STRING_MAX ==> r == Err::<(), BufferError>(BufferError::StringTooLarge)
                && final(self).written() == old(self).written(),
            value.spec_bytes().len() <= FULL_STRING_MAX ==> r is Ok && final(self).written() == old(self).written()
                + var_int_bytes(value.spec_bytes().len() as i32) + value.spec_bytes(),
    ;

    /// A VarInt.
    fn write_var_int(&mut self, value: &i32)
        ensures
            final(self).written() == old(self).written() + var_int_bytes(*value),
    ;

    /// A VarLong.
    fn write_var_long(&mut self, value: &i64)
        ensures
            final(self).written() == old(self).written() + var_long_bytes(*value),
    ;

    /// The high 64-bit word, then the low one, each big-endian.
    fn write_uuid(&mut self, value: &WireUuid)
        ensures
            final(self).written() == old(self).written() + be_bytes(value.high as nat, 8) + be_bytes(value.low as nat, 8),
    ;

    /// A presence flag, then the encoding of the value if there is one.
    fn write_option<T, F: Fn(&T) -> Vec<u8>>(&mut self, value: Option<T>, function: F)
        requires
            forall|t: &T| #[trigger] function.requires((t,)),
        ensures
            value is None ==> final(self).written() == old(self).written().push(0),
            value matches Some(v) ==> exists|o: Seq<u8>| encodes_as(function, v, o)
                && final(self).written() == old(self).written().push(1) + o,
    ;

    /// The VarInt element count, then each element's encoding in order.
    fn write_array<T, F: Fn(&T) -> Vec<u8>>(&mut self, value: Vec<T>, function: F)
        requires
            value@.len() <= i32::MAX,
            forall|t: &T| #[trigger] function.requires((t,)),
        ensures
            exists|parts: Seq<Seq<u8>>|
                parts.len() == value@.len()
                && (forall|i: int| 0 <= i < parts.len() ==> encodes_as(function, value@[i], #[trigger] parts[i]))
                && final(self).written() == old(self).written() + var_int_bytes(value@.len() as i32) + parts.flatten(),
    ;

    /// The VarInt count of words, then each 64-bit word big-endian.
    fn write_bitset(&mut self, value: &[i64])
        requires
            value@.len() <= i32::MAX,
        ensures
            exists|parts: Seq<Seq<u8>>|
                parts.len() == value@.len()
                && (forall|i: int| 0 <= i < parts.len() ==> #[trigger] parts[i] == be_bytes(
                    unsigned_of(value@[i] as int, 0x1_0000_0000_0000_0000),
                    8,
                ))
                && final(self).written() == old(self).written() + var_int_bytes(value@.len() as i32) + parts.flatten(),
    ;
}

impl ProtocolBufferWriterExt for bytes::BytesMut {
    open spec fn written(&self) -> Seq<u8> {
        buf_data(*self)
    }

    fn write_bool(&mut self, value: &bool) {
        let byte: u8 = if *value {
            1
        } else {
            0
        };
        self.write_u8(&byte);
    }

    fn write_i8(&mut self, value: &i8) {
        let bits: u64 = if *value >= 0 {
            *value as u64
        } else {
            (*value as i16 + 0x100) as u64
        };
        write_be(self, bits, 1);
    }

    fn write_u8(&mut self, value: &u8) {
        let one = [*value];
        proof {
            assert(one@ =~= seq![*value]);
        }
        buf_extend(self, &one);
    }

    fn write_i16(&mut self, value: &i16) {
        let bits: u64 = if *value >= 0 {
            *value as u64
        } else {
            (*value as i32 + 0x1_0000) as u64
        };
        write_be(self, bits, 2);
    }

    fn write_u16(&mut self, value: &u16) {
        write_be(self, *value as u64, 2);
    }

    fn write_i32(&mut self, value: &i32) {
        let bits: u64 = if *value >= 0 {
            *value as u64
        } else {
            (*value as i64 + 0x1_0000_0000) as u64
        };
        write_be(self, bits, 4);
    }

    fn write_u32(&mut self, value: &u32) {
        write_be(self, *value as u64, 4);
    }

    fn write_i64(&mut self, value: &i64) {
        let bits: u64 = if *value >= 0 {
            *value as u64
        } else {
            (*value as i128 + 0x1_0000_0000_0000_0000) as u64
        };
        write_be(self, bits, 8);
    }

    fn write_u64(&mut self, value: &u64) {
        write_be(self, *value, 8);
    }

    fn write_string(&mut self, value: &str, max_size: i32) -> (r: Result<(), BufferError>) {
        let bytes = value.as_bytes();
        if max_size < 0 || bytes.len() > max_size as usize {
            return Err(BufferError::StringTooLarge);
        }
        let len = bytes.len() as i32;
        self.write_var_int(&len);
        buf_extend(self, bytes);
        Ok(())
    }

    fn write_full_string(&mut self, value: &str) -> (r: Result<(), BufferError>) {
        self.write_string(value, FULL_STRING_MAX)
    }

    fn write_var_int(&mut self, value: &i32) {
        let encoded = encode_var_int(*value);
        buf_extend(self, encoded.as_slice());
    }

    fn write_var_long(&mut self, value: &i64) {
        let encoded = encode_var_long(*value);
        buf_extend(self, encoded.as_slice());
    }

    fn write_uuid(&mut self, value: &WireUuid) {
        write_be(self, value.high, 8);
        write_be(self, value.low, 8);
    }

    fn write_option<T, F: Fn(&T) -> Vec<u8>>(&mut self, value: Option<T>, function: F) {
        match value {
            None => self.write_bool(&false),
            Some(v) => {
                self.write_bool(&true);
                let encoded = function(&v);
                proof {
                    assert(encodes_as(function, v, encoded@));
                }
                buf_extend(self, encoded.as_slice());
            },
        }
    }

    fn write_array<T, F: Fn(&T) -> Vec<u8>>(&mut self, value: Vec<T>, function: F) {
        let count = value.len() as i32;
        self.write_var_int(&count);
        let ghost start = buf_data(*self);
        let ghost mut parts: Seq<Seq<u8>> = Seq::empty();
        let mut i: usize = 0;
        while i < value.len()
            invariant
                i <= value@.len(),
                parts.len() == i,
                forall|t: &T| #[trigger] function.requires((t,)),
                forall|k: int| 0 <= k < i ==> encodes_as(function, value@[k], #[trigger] parts[k]),
                buf_data(*self) == start + parts.flatten(),
            decreases value@.len() - i,
        {
            let encoded = function(&value[i]);
            proof {
                assert(encodes_as(function, value@[i as int], encoded@));
                parts.lemma_flatten_push(encoded@);
                parts = parts.push(encoded@);
            }
            buf_extend(self, encoded.as_slice());
            i = i + 1;
        }
    }

    fn write_bitset(&mut self, value: &[i64]) {
        let count = value.len() as i32;
        self.write_var_int(&count);
        let ghost start = buf_data(*self);
        let ghost mut parts: Seq<Seq<u8>> = Seq::empty();
        let mut i: usize = 0;
        while i < value.len()
            invariant
                i <= value@.len(),
                parts.len() == i,
                forall|k: int| 0 <= k < i ==> #[trigger] parts[k] == be_bytes(
                    unsigned_of(value@[k] as int, 0x1_0000_0000_0000_0000),
                    8,
                ),
                buf_data(*self) == start + parts.flatten(),
            decreases value@.len() - i,
        {
            let ghost before = buf_data(*self);
            self.write_i64(&value[i]);
            proof {
                let word = be_bytes(unsigned_of(value@[i as int] as int, 0x1_0000_0000_0000_0000), 8);
                parts.lemma_flatten_push(word);
                parts = parts.push(word);
            }
            i = i + 1;
        }
    }
}

} // verus!
