//! Reading wire values from the front of a buffer. Every read either consumes
//! exactly the bytes of the value it returns or fails and consumes nothing.
use vstd::prelude::*;
use vstd::utf8::{decode_utf8, valid_utf8};

use crate::buf::{buf_advance, buf_copy_to_bytes, buf_data, buf_slice, frozen_data};
use crate::error::BufferError;
use crate::varint::{decode_var_int, decode_var_long, var_int_decode, var_long_decode};
use crate::wire_uuid::WireUuid;

verus! {

/// The largest byte length of a string read or written without an explicit
/// bound.
pub const FULL_STRING_MAX: i32 = 32767;

/// `256` to the power `e`.
pub open spec fn pow256(e: nat) -> nat
    decreases e,
{
    if e == 0 {
        1
    } else {
        256 * pow256((e - 1) as nat)
    }
}

/// The number that the bytes of `s` spell, first byte most significant.
pub open spec fn be_value(s: Seq<u8>) -> nat
    decreases s.len(),
{
    if s.len() == 0 {
        0
    } else {
        be_value(s.drop_last()) * 256 + s.last() as nat
    }
}

/// The signed value of the two's-complement pattern `m` in a width that holds
/// `modulus` patterns.
pub open spec fn signed_of(m: nat, modulus: nat) -> int {
    if m < modulus / 2 {
        m as int
    } else {
        m - modulus
    }
}

/// Reading a big-endian number of `n` bytes from the front of `s`.
pub open spec fn fixed_read(s: Seq<u8>, n: nat) -> Result<nat, BufferError> {
    if s.len() >= n {
        Ok(be_value(s.take(n as int)))
    } else {
        Err(BufferError::Truncated)
    }
}

/// What is left of `s` after a read of `n` bytes that succeeded (`ok`) or failed.
pub open spec fn after_read(s: Seq<u8>, ok: bool, n: nat) -> Seq<u8> {
    if ok {
        s.skip(n as int)
    } else {
        s
    }
}

/// Reading a length-prefixed UTF-8 string of at most `max` bytes from the
/// front of `s`: its characters and the bytes it took.
pub open spec fn string_read(s: Seq<u8>, max: int) -> Result<(Seq<char>, nat), BufferError> {
    match var_int_decode(s) {
        Err(e) => Err(e),
        Ok((len, n)) => if len > max {
            Err(BufferError::StringTooLarge)
        } else if len < 0 || s.len() < n + len {
            Err(BufferError::Truncated)
        } else if !valid_utf8(s.subrange(n as int, n + len)) {
            Err(BufferError::InvalidUtf8)
        } else {
            Ok((decode_utf8(s.subrange(n as int, n + len)), (n + len) as nat))
        },
    }
}

/// Bytes that a bitset of `bits` bits takes: one per started group of eight.
pub open spec fn bitset_bytes(bits: nat) -> nat {
    (bits + 7) / 8
}

/// Whether `function`, given a slice that holds `s`, may answer `o`.
pub open spec fn decoded_by<T, F: Fn(&[u8]) -> Result<(T, usize), BufferError>>(
    function: F,
    s: Seq<u8>,
    o: Result<(T, usize), BufferError>,
) -> bool {
    exists|sl: &[u8]| sl@ == s && #[trigger] function.ensures((sl,), o)
}

/// Whether a decoder always reports a length within the slice it was given.
pub open spec fn stays_within<T, F: Fn(&[u8]) -> Result<(T, usize), BufferError>>(function: F) -> bool {
    forall|sl: &[u8], o: Result<(T, usize), BufferError>| #[trigger]
        function.ensures((sl,), o) ==> (o matches Ok((_, n)) ==> n <= sl@.len())
}

/// Whether `function` decoded `vals` one after another from `s`, the first
/// from offset `start`, element `i` ending at offset `ends[i]`.
#[verifier::opaque]
pub open spec fn elements_decoded<T, F: Fn(&[u8]) -> Result<(T, usize), BufferError>>(
    function: F,
    s: Seq<u8>,
    start: nat,
    vals: Seq<T>,
    ends: Seq<nat>,
) -> bool {
    &&& vals.len() == ends.len()
    &&& forall|i: int|
        0 <= i < vals.len() ==> {
            let from = if i == 0 {
                start
            } else {
                ends[i - 1]
            };
            &&& from <= #[trigger] ends[i] <= s.len()
            &&& decoded_by(function, s.skip(from as int), Ok((vals[i], (ends[i] - from) as usize)))
        }
}

/// The offset where the last of the elements ended, `start` if there is none.
pub open spec fn end_of(start: nat, ends: Seq<nat>) -> nat {
    if ends.len() == 0 {
        start
    } else {
        ends.last()
    }
}

/// Whether `function` decoded all of `vals` from `s` as a VarInt count
/// followed by the elements, with `rest` left after them.
pub open spec fn array_decoded<T, F: Fn(&[u8]) -> Result<(T, usize), BufferError>>(
    function: F,
    s: Seq<u8>,
    vals: Seq<T>,
    rest: Seq<u8>,
) -> bool {
    match var_int_decode(s) {
        Ok((count, n)) => exists|ends: Seq<nat>|
            vals.len() == (if count > 0 { count as int } else { 0 })
            && #[trigger] elements_decoded(function, s, n, vals, ends)
            && rest == s.skip(end_of(n, ends) as int),
        Err(_) => false,
    }
}

/// Whether, of at most `count` elements from offset `n` of `s`, `function`
/// decodes some and then fails with `e` on the next.
pub open spec fn element_failed<T, F: Fn(&[u8]) -> Result<(T, usize), BufferError>>(
    function: F,
    s: Seq<u8>,
    count: i32,
    n: nat,
    e: BufferError,
) -> bool {
    exists|vals: Seq<T>, ends: Seq<nat>|
        vals.len() < count as int
        && #[trigger] elements_decoded(function, s, n, vals, ends)
        && decoded_by(function, s.skip(end_of(n, ends) as int), Err::<(T, usize), BufferError>(e))
}

/// Whether reading an array from `s` fails with `e`: at the count, or at the
/// first element that `function` does not decode.
pub open spec fn array_failed<T, F: Fn(&[u8]) -> Result<(T, usize), BufferError>>(
    function: F,
    s: Seq<u8>,
    e: BufferError,
) -> bool {
    match var_int_decode(s) {
        Ok((count, n)) => element_failed::<T, F>(function, s, count, n, e),
        Err(e0) => e == e0,
    }
}

/// An array read that decoded some elements and then failed is `array_failed`.
proof fn lemma_array_failed_at<T, F: Fn(&[u8]) -> Result<(T, usize), BufferError>>(
    function: F,
    s: Seq<u8>,
    count: i32,
    n: nat,
    vals: Seq<T>,
    ends: Seq<nat>,
    e: BufferError,
)
    requires
        var_int_decode(s) == Ok::<(i32, nat), BufferError>((count, n)),
        vals.len() < count,
        elements_decoded(function, s, n, vals, ends),
        decoded_by(function, s.skip(end_of(n, ends) as int), Err::<(T, usize), BufferError>(e)),
    ensures
        array_failed(function, s, e),
{
    assert(element_failed::<T, F>(function, s, count, n, e)) by {
        assert(elements_decoded(function, s, n, vals, ends));
    }
}

/// One more decoded element extends the run.
proof fn lemma_elements_decoded_push<T, F: Fn(&[u8]) -> Result<(T, usize), BufferError>>(
    function: F,
    s: Seq<u8>,
    start: nat,
    vals: Seq<T>,
    ends: Seq<nat>,
    v: T,
    e: nat,
)
    requires
        elements_decoded(function, s, start, vals, ends),
        end_of(start, ends) <= e <= s.len(),
        decoded_by(function, s.skip(end_of(start, ends) as int), Ok((v, (e - end_of(start, ends)) as usize))),
    ensures
        elements_decoded(function, s, start, vals.push(v), ends.push(e)),
{
    reveal(elements_decoded);
    let vals2 = vals.push(v);
    let ends2 = ends.push(e);
    assert forall|k: int| 0 <= k < vals2.len() implies {
        let from = if k == 0 {
            start
        } else {
            ends2[k - 1]
        };
        &&& from <= #[trigger] ends2[k] <= s.len()
        &&& decoded_by(function, s.skip(from as int), Ok((vals2[k], (ends2[k] - from) as usize)))
    } by {
        if k < vals.len() {
            assert(vals2[k] == vals[k]);
            assert(ends2[k] == ends[k]);
            if k > 0 {
                assert(ends2[k - 1] == ends[k - 1]);
            }
        } else if k > 0 {
            assert(ends2[k - 1] == ends.last());
        }
    }
}

/// No elements form a run.
proof fn lemma_elements_decoded_empty<T, F: Fn(&[u8]) -> Result<(T, usize), BufferError>>(
    function: F,
    s: Seq<u8>,
    start: nat,
)
    ensures
        elements_decoded(function, s, start, Seq::<T>::empty(), Seq::<nat>::empty()),
{
    reveal(elements_decoded);
}

/// `k` bytes spell a number below `256^k`.
proof fn lemma_be_value_bound(s: Seq<u8>)
    ensures
        be_value(s) < pow256(s.len()),
    decreases s.len(),
{
    if s.len() > 0 {
        lemma_be_value_bound(s.drop_last());
        let p = pow256((s.len() - 1) as nat);
        let h = be_value(s.drop_last());
        assert(h * 256 + s.last() < 256 * p) by (nonlinear_arith)
            requires h < p, s.last() < 256;
    }
}

/// The powers of 256 that bound the fixed widths.
proof fn lemma_pow256_eight()
    ensures
        pow256(1) == 0x100,
        pow256(2) == 0x1_0000,
        pow256(4) == 0x1_0000_0000,
        pow256(8) == 0x1_0000_0000_0000_0000,
{
    reveal_with_fuel(pow256, 9);
}

/// Relies on `std::str::from_utf8`: valid UTF-8 gives the string it spells,
/// any other bytes an error.
#[verifier::external_body]
fn utf8_str(b: &[u8]) -> (r: Option<&str>)
    ensures
        r is Some <==> valid_utf8(b@),
        r is Some ==> r->Some_0@ == decode_utf8(b@),
{
    std::str::from_utf8(b).ok()
}

/// Reads a big-endian number of `n` bytes.
fn read_be(buf: &mut bytes::BytesMut, n: usize) -> (r: Result<u64, BufferError>)
    requires
        1 <= n <= 8,
    ensures
        match fixed_read(buf_data(*old(buf)), n as nat) {
            Ok(v) => r matches Ok(x) && x as nat == v,
            Err(e) => r == Err::<u64, BufferError>(e),
        },
        buf_data(*final(buf)) == after_read(buf_data(*old(buf)), r is Ok, n as nat),
{
    let data = buf_slice(buf);
    if data.len() < n {
        return Err(BufferError::Truncated);
    }
    let mut acc: u64 = 0;
    let mut i: usize = 0;
    while i < n
        invariant
            n <= 8,
            i <= n <= data@.len(),
            acc as nat == be_value(data@.take(i as int)),
        decreases n - i,
    {
        proof {
            assert(data@.take(i + 1).drop_last() =~= data@.take(i as int));
            lemma_be_value_bound(data@.take(i + 1));
            lemma_pow256_eight();
            reveal_with_fuel(pow256, 9);
        }
        acc = acc * 256 + data[i] as u64;
        i = i + 1;
    }
    buf_advance(buf, n);
    Ok(acc)
}

/// Reading wire values from the front of a byte container.
pub trait ProtocolBufferReaderExt: Sized {
    /// The bytes not read yet.
    spec fn unread(&self) -> Seq<u8>;

    /// One byte; zero is `false`, anything else `true`.
    fn read_bool(&mut self) -> (r: Result<bool, BufferError>)
        ensures
            match fixed_read(old(self).unread(), 1) {
                Ok(v) => r == Ok::<bool, BufferError>(v != 0),
                Err(e) => r == Err::<bool, BufferError>(e),
            },
            final(self).unread() == after_read(old(self).unread(), r is Ok, 1),
    ;

    /// One byte as a signed number.
    fn read_i8(&mut self) -> (r: Result<i8, BufferError>)
        ensures
            match fixed_read(old(self).unread(), 1) {
                Ok(v) => r matches Ok(x) && x as int == signed_of(v, 0x100),
                Err(e) => r == Err::<i8, BufferError>(e),
            },
            final(self).unread() == after_read(old(self).unread(), r is Ok, 1),
    ;

    /// One byte.
    fn read_u8(&mut self) -> (r: Result<u8, BufferError>)
        ensures
            match fixed_read(old(self).unread(), 1) {
                Ok(v) => r matches Ok(x) && x as nat == v,
                Err(e) => r == Err::<u8, BufferError>(e),
            },
            final(self).unread() == after_read(old(self).unread(), r is Ok, 1),
    ;

    /// Two bytes, big-endian, signed.
    fn read_i16(&mut self) -> (r: Result<i16, BufferError>)
        ensures
            match fixed_read(old(self).unread(), 2) {
                Ok(v) => r matches Ok(x) && x as int == signed_of(v, 0x1_0000),
                Err(e) => r == Err::<i16, BufferError>(e),
            },
            final(self).unread() == after_read(old(self).unread(), r is Ok, 2),
    ;

    /// Two bytes, big-endian.
    fn read_u16(&mut self) -> (r: Result<u16, BufferError>)
        ensures
            match fixed_read(old(self).unread(), 2) {
                Ok(v) => r matches Ok(x) && x as nat == v,
                Err(e) => r == Err::<u16, BufferError>(e),
            },
            final(self).unread() == after_read(old(self).unread(), r is Ok, 2),
    ;

    /// Four bytes, big-endian, signed.
    fn read_i32(&mut self) -> (r: Result<i32, BufferError>)
        ensures
            match fixed_read(old(self).unread(), 4) {
                Ok(v) => r matches Ok(x) && x as int == signed_of(v, 0x1_0000_0000),
                Err(e) => r == Err::<i32, BufferError>(e),
            },
            final(self).unread() == after_read(old(self).unread(), r is Ok, 4),
    ;

    /// Four bytes, big-endian.
    fn read_u32(&mut self) -> (r: Result<u32, BufferError>)
        ensures
            match fixed_read(old(self).unread(), 4) {
                Ok(v) => r matches Ok(x) && x as nat == v,
                Err(e) => r == Err::<u32, BufferError>(e),
            },
            final(self).unread() == after_read(old(self).unread(), r is Ok, 4),
    ;

    /// Eight bytes, big-endian, signed.
    fn read_i64(&mut self) -> (r: Result<i64, BufferError>)
        ensures
            match fixed_read(old(self).unread(), 8) {
                Ok(v) => r matches Ok(x) && x as int == signed_of(v, 0x1_0000_0000_0000_0000),
                Err(e) => r == Err::<i64, BufferError>(e),
            },
            final(self).unread() == after_read(old(self).unread(), r is Ok, 8),
    ;

    /// Eight bytes, big-endian.
    fn read_u64(&mut self) -> (r: Result<u64, BufferError>)
        ensures
            match fixed_read(old(self).unread(), 8) {
                Ok(v) => r matches Ok(x) && x as nat == v,
                Err(e) => r == Err::<u64, BufferError>(e),
            },
            final(self).unread() == after_read(old(self).unread(), r is Ok, 8),
    ;

    /// A VarInt.
    fn read_var_int(&mut self) -> (r: Result<i32, BufferError>)
        ensures
            match var_int_decode(old(self).unread()) {
                Ok((v, n)) => r == Ok::<i32, BufferError>(v) && final(self).unread() == old(self).unread().skip(n as int),
                Err(e) => r == Err::<i32, BufferError>(e) && final(self).unread() == old(self).unread(),
            },
    ;

    /// A VarLong.
    fn read_var_long(&mut self) -> (r: Result<i64, BufferError>)
        ensures
            match var_long_decode(old(self).unread()) {
                Ok((v, n)) => r == Ok::<i64, BufferError>(v) && final(self).unread() == old(self).unread().skip(n as int),
                Err(e) => r == Err::<i64, BufferError>(e) && final(self).unread() == old(self).unread(),
            },
    ;

    /// A VarInt byte length, at most `size`, then that many bytes of UTF-8.
    fn read_string(&mut self, size: i32) -> (r: Result<String, BufferError>)
        ensures
            match string_read(old(self).unread(), size as int) {
                Ok((s, n)) => r matches Ok(x) && x@ == s && final(self).unread() == old(self).unread().skip(n as int),
                Err(e) => r == Err::<String, BufferError>(e) && final(self).unread() == old(self).unread(),
            },
    ;

    /// A string of at most 32767 bytes.
    fn read_full_string(&mut self) -> (r: Result<String, BufferError>)
        ensures
            match string_read(old(self).unread(), FULL_STRING_MAX as int) {
                Ok((s, n)) => r matches Ok(x) && x@ == s && final(self).unread() == old(self).unread().skip(n as int),
                Err(e) => r == Err::<String, BufferError>(e) && final(self).unread() == old(self).unread(),
            },
    ;

    /// Sixteen bytes: the high 64-bit word, then the low one, each big-endian.
    fn read_uuid(&mut self) -> (r: Result<WireUuid, BufferError>)
        ensures
            old(self).unread().len() >= 16 ==> (r matches Ok(u)
                && u.high as nat == be_value(old(self).unread().take(8))
                && u.low as nat == be_value(old(self).unread().subrange(8, 16))),
            old(self).unread().len() < 16 ==> r == Err::<WireUuid, BufferError>(BufferError::Truncated),
            final(self).unread() == after_read(old(self).unread(), r is Ok, 16),
    ;

    /// A presence flag, then, where it is set, one value that `function`
    /// decodes from the bytes after it.
    fn read_option<T, F: Fn(&[u8]) -> Result<(T, usize), BufferError>>(&mut self, function: F) -> (r: Result<
        Option<T>,
        BufferError,
    >)
        requires
            forall|sl: &[u8]| #[trigger] function.requires((sl,)),
            stays_within(function),
        ensures
            old(self).unread().len() == 0 ==> r == Err::<Option<T>, BufferError>(BufferError::Truncated)
                && final(self).unread() == old(self).unread(),
            old(self).unread().len() > 0 && old(self).unread()[0] == 0 ==> r == Ok::<Option<T>, BufferError>(None)
                && final(self).unread() == old(self).unread().skip(1),
            old(self).unread().len() > 0 && old(self).unread()[0] != 0 ==> exists|o: Result<(T, usize), BufferError>|
                decoded_by(function, old(self).unread().skip(1), o) && match o {
                    Ok((v, n)) => r == Ok::<Option<T>, BufferError>(Some(v))
                        && final(self).unread() == old(self).unread().skip(1 + n),
                    Err(e) => r == Err::<Option<T>, BufferError>(e) && final(self).unread() == old(self).unread(),
                },
    ;

    /// A VarInt count, then that many values that `function` decodes one
    /// after another (none where the count is not positive).
    fn read_array<T, F: Fn(&[u8]) -> Result<(T, usize), BufferError>>(&mut self, function: F) -> (r: Result<
        Vec<T>,
        BufferError,
    >)
        requires
            forall|sl: &[u8]| #[trigger] function.requires((sl,)),
            stays_within(function),
        ensures
            r matches Ok(vals) ==> array_decoded(function, old(self).unread(), vals@, final(self).unread()),
            r matches Err(e) ==> array_failed(function, old(self).unread(), e) && final(self).unread() == old(self).unread(),
    ;

    /// `len` raw bytes of a bitset.
    fn read_bitset(&mut self, len: usize) -> (r: Result<bytes::Bytes, BufferError>)
        ensures
            old(self).unread().len() >= len ==> (r matches Ok(b) && frozen_data(b) == old(self).unread().take(len as int)),
            old(self).unread().len() < len ==> r == Err::<bytes::Bytes, BufferError>(BufferError::Truncated),
            final(self).unread() == after_read(old(self).unread(), r is Ok, len as nat),
    ;

    /// The raw bytes of a bitset of `len` bits: one byte per started eight.
    fn read_fixed_bitset(&mut self, len: usize) -> (r: Result<bytes::Bytes, BufferError>)
        ensures
            old(self).unread().len() >= bitset_bytes(len as nat) ==> (r matches Ok(b)
                && frozen_data(b) == old(self).unread().take(bitset_bytes(len as nat) as int)),
            old(self).unread().len() < bitset_bytes(len as nat) ==> r == Err::<bytes::Bytes, BufferError>(BufferError::Truncated),
            final(self).unread() == after_read(old(self).unread(), r is Ok, bitset_bytes(len as nat)),
    ;

    /// The next `size` bytes.
    fn copy_buffer_to_bytes(&mut self, size: usize) -> (r: Result<bytes::Bytes, BufferError>)
        ensures
            old(self).unread().len() >= size ==> (r matches Ok(b) && frozen_data(b) == old(self).unread().take(size as int)),
            old(self).unread().len() < size ==> r == Err::<bytes::Bytes, BufferError>(BufferError::Truncated),
            final(self).unread() == after_read(old(self).unread(), r is Ok, size as nat),
    ;

    /// Fills `dst` with the next `dst.len()` bytes.
    fn copy_buffer_to_slice(&mut self, dst: &mut [u8]) -> (r: Result<(), BufferError>)
        ensures
            old(self).unread().len() >= old(dst)@.len() ==> r is Ok && final(dst)@ == old(self).unread().take(old(dst)@.len() as int),
            old(self).unread().len() < old(dst)@.len() ==> r == Err::<(), BufferError>(BufferError::Truncated) && final(dst)@ == old(dst)@,
            final(self).unread() == after_read(old(self).unread(), r is Ok, old(dst)@.len()),
    ;
}

impl ProtocolBufferReaderExt for bytes::BytesMut {
    open spec fn unread(&self) -> Seq<u8> {
        buf_data(*self)
    }

    fn read_bool(&mut self) -> (r: Result<bool, BufferError>) {
        match read_be(self, 1) {
            Ok(v) => Ok(v != 0),
            Err(e) => Err(e),
        }
    }

    fn read_i8(&mut self) -> (r: Result<i8, BufferError>) {
        proof {
            lemma_pow256_eight();
        }
        match read_be(self, 1) {
            Ok(v) => {
                proof {
                    lemma_be_value_bound(old(self).unread().take(1));
                }
                Ok(if v < 0x80 {
                    v as i8
                } else {
                    (v as i16 - 0x100) as i8
                })
            },
            Err(e) => Err(e),
        }
    }

    fn read_u8(&mut self) -> (r: Result<u8, BufferError>) {
        proof {
            lemma_pow256_eight();
        }
        match read_be(self, 1) {
            Ok(v) => {
                proof {
                    lemma_be_value_bound(old(self).unread().take(1));
                }
                Ok(v as u8)
            },
            Err(e) => Err(e),
        }
    }

    fn read_i16(&mut self) -> (r: Result<i16, BufferError>) {
        proof {
            lemma_pow256_eight();
        }
        match read_be(self, 2) {
            Ok(v) => {
                proof {
                    lemma_be_value_bound(old(self).unread().take(2));
                }
                Ok(if v < 0x8000 {
                    v as i16
                } else {
                    (v as i32 - 0x1_0000) as i16
                })
            },
            Err(e) => Err(e),
        }
    }

    fn read_u16(&mut self) -> (r: Result<u16, BufferError>) {
        proof {
            lemma_pow256_eight();
        }
        match read_be(self, 2) {
            Ok(v) => {
                proof {
                    lemma_be_value_bound(old(self).unread().take(2));
                }
                Ok(v as u16)
            },
            Err(e) => Err(e),
        }
    }

    fn read_i32(&mut self) -> (r: Result<i32, BufferError>) {
        proof {
            lemma_pow256_eight();
        }
        match read_be(self, 4) {
            Ok(v) => {
                proof {
                    lemma_be_value_bound(old(self).unread().take(4));
                }
                Ok(if v < 0x8000_0000 {
                    v as i32
                } else {
                    (v as i64 - 0x1_0000_0000) as i32
                })
            },
            Err(e) => Err(e),
        }
    }

    fn read_u32(&mut self) -> (r: Result<u32, BufferError>) {
        proof {
            lemma_pow256_eight();
        }
        match read_be(self, 4) {
            Ok(v) => {
                proof {
                    lemma_be_value_bound(old(self).unread().take(4));
                }
                Ok(v as u32)
            },
            Err(e) => Err(e),
        }
    }

    fn read_i64(&mut self) -> (r: Result<i64, BufferError>) {
        match read_be(self, 8) {
            Ok(v) => Ok(if v < 0x8000_0000_0000_0000 {
                v as i64
            } else {
                (v as i128 - 0x1_0000_0000_0000_0000) as i64
            }),
            Err(e) => Err(e),
        }
    }

    fn read_u64(&mut self) -> (r: Result<u64, BufferError>) {
        read_be(self, 8)
    }

    fn read_var_int(&mut self) -> (r: Result<i32, BufferError>) {
        let decoded = decode_var_int(buf_slice(self));
        match decoded {
            Ok((v, n)) => {
                buf_advance(self, n);
                Ok(v)
            },
            Err(e) => Err(e),
        }
    }

    fn read_var_long(&mut self) -> (r: Result<i64, BufferError>) {
        let decoded = decode_var_long(buf_slice(self));
        match decoded {
            Ok((v, n)) => {
                buf_advance(self, n);
                Ok(v)
            },
            Err(e) => Err(e),
        }
    }

    fn read_string(&mut self, size: i32) -> (r: Result<String, BufferError>) {
        let data = buf_slice(self);
        let (len, n) = match decode_var_int(data) {
            Ok(p) => p,
            Err(e) => return Err(e),
        };
        if len > size {
            return Err(BufferError::StringTooLarge);
        }
        if len < 0 || data.len() - n < len as usize {
            return Err(BufferError::Truncated);
        }
        let end: usize = n + len as usize;
        let text = match utf8_str(&data[n..end]) {
            Some(t) => t.to_string(),
            None => return Err(BufferError::InvalidUtf8),
        };
        buf_advance(self, end);
        Ok(text)
    }

    fn read_full_string(&mut self) -> (r: Result<String, BufferError>) {
        self.read_string(FULL_STRING_MAX)
    }

    fn read_uuid(&mut self) -> (r: Result<WireUuid, BufferError>) {
        if buf_slice(self).len() < 16 {
            return Err(BufferError::Truncated);
        }
        let ghost start = buf_data(*self);
        let high = read_be(self, 8);
        let low = read_be(self, 8);
        proof {
            assert(start.skip(8).take(8) =~= start.subrange(8, 16));
            assert(start.skip(8).skip(8) =~= start.skip(16));
        }
        match (high, low) {
            (Ok(h), Ok(l)) => Ok(WireUuid { high: h, low: l }),
            _ => Err(BufferError::Truncated),
        }
    }

    fn read_option<T, F: Fn(&[u8]) -> Result<(T, usize), BufferError>>(&mut self, function: F) -> (r: Result<
        Option<T>,
        BufferError,
    >) {
        let data = buf_slice(self);
        if data.len() == 0 {
            return Err(BufferError::Truncated);
        }
        if data[0] == 0 {
            buf_advance(self, 1);
            return Ok(None);
        }
        let rest = &data[1..data.len()];
        let o = function(rest);
        proof {
            assert(decoded_by(function, old(self).unread().skip(1), o));
        }
        match o {
            Ok((v, n)) => {
                proof {
                    assert(old(self).unread().skip(1).skip(n as int) =~= old(self).unread().skip(1 + n));
                }
                buf_advance(self, 1 + n);
                Ok(Some(v))
            },
            Err(e) => Err(e),
        }
    }

    fn read_array<T, F: Fn(&[u8]) -> Result<(T, usize), BufferError>>(&mut self, function: F) -> (r: Result<
        Vec<T>,
        BufferError,
    >) {
        let data = buf_slice(self);
        let (count, n) = match decode_var_int(data) {
            Ok(p) => p,
            Err(e) => return Err(e),
        };
        let ghost s = data@;
        let mut vals: Vec<T> = Vec::new();
        let ghost mut ends: Seq<nat> = Seq::empty();
        proof {
            lemma_elements_decoded_empty::<T, F>(function, s, n as nat);
        }
        let mut pos: usize = n;
        let mut i: i32 = 0;
        while i < count
            invariant
                s == data@,
                s == old(self).unread(),
                *self == *old(self),
                var_int_decode(s) == Ok::<(i32, nat), BufferError>((count, n as nat)),
                0 <= i,
                i <= count || count <= 0,
                count <= 0 ==> i == 0,
                vals@.len() == i,
                n <= pos <= s.len(),
                pos == end_of(n as nat, ends),
                elements_decoded(function, s, n as nat, vals@, ends),
                forall|sl: &[u8]| #[trigger] function.requires((sl,)),
                stays_within(function),
            decreases count - i,
        {
            let o = function(&data[pos..data.len()]);
            proof {
                assert(decoded_by(function, s.skip(pos as int), o));
            }
            match o {
                Ok((v, used)) => {
                    proof {
                        lemma_elements_decoded_push(function, s, n as nat, vals@, ends, v, (pos + used) as nat);
                    }
                    vals.push(v);
                    pos = pos + used;
                    proof {
                        ends = ends.push(pos as nat);
                    }
                },
                Err(e) => {
                    proof {
                        assert(vals@.len() < count && elements_decoded(function, s, n as nat, vals@, ends)
                            && decoded_by(function, s.skip(end_of(n as nat, ends) as int), Err::<(T, usize), BufferError>(e)));
                        lemma_array_failed_at(function, s, count, n as nat, vals@, ends, e);
                    }
                    return Err(e);
                },
            }
            i = i + 1;
        }
        buf_advance(self, pos);
        proof {
            assert(vals@.len() == (if count > 0 { count as int } else { 0 })
                && elements_decoded(function, s, n as nat, vals@, ends)
                && buf_data(*self) == s.skip(end_of(n as nat, ends) as int));
            assert(array_decoded(function, s, vals@, buf_data(*self)));
        }
        Ok(vals)
    }

    fn read_bitset(&mut self, len: usize) -> (r: Result<bytes::Bytes, BufferError>) {
        self.copy_buffer_to_bytes(len)
    }

    fn read_fixed_bitset(&mut self, len: usize) -> (r: Result<bytes::Bytes, BufferError>) {
        let bytes_needed: usize = len / 8 + if len % 8 == 0 { 0 } else { 1 };
        proof {
            assert(bytes_needed as nat == bitset_bytes(len as nat));
        }
        self.copy_buffer_to_bytes(bytes_needed)
    }

    fn copy_buffer_to_bytes(&mut self, size: usize) -> (r: Result<bytes::Bytes, BufferError>) {
        if buf_slice(self).len() >= size {
            Ok(buf_copy_to_bytes(self, size))
        } else {
            Err(BufferError::Truncated)
        }
    }

    fn copy_buffer_to_slice(&mut self, dst: &mut [u8]) -> (r: Result<(), BufferError>) {
        let data = buf_slice(self);
        let n = dst.len();
        if data.len() < n {
            return Err(BufferError::Truncated);
        }
        let mut i: usize = 0;
        while i < n
            invariant
                n == dst@.len() == old(dst)@.len(),
                n <= data@.len(),
                i <= n,
                forall|j: int| 0 <= j < i ==> dst@[j] == data@[j],
            decreases n - i,
        {
            dst[i] = data[i];
            i = i + 1;
        }
        proof {
            assert(dst@ =~= data@.take(n as int));
        }
        buf_advance(self, n);
        Ok(())
    }
}

} // verus!
