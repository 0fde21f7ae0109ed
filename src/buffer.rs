//! A byte buffer that is read from the front and written at the back, for
//! one packet payload or one outgoing message.
use vstd::prelude::*;

use crate::buf::{buf_data, buf_extend, buf_new, frozen_data};
use crate::error::BufferError;
use crate::reader::{
    after_read, be_value, bitset_bytes, decoded_by, fixed_read, signed_of, stays_within, string_read,
    ProtocolBufferReaderExt, FULL_STRING_MAX,
};
use crate::varint::{var_int_decode, var_long_decode};
use crate::wire_uuid::WireUuid;
use crate::writer::{encodes_as, ProtocolBufferWriterExt};

verus! {

/// A payload being decoded or a message being encoded.
#[derive(Debug)]
pub struct ProtocolBuffer {
    pub buffer: bytes::BytesMut,
}

impl View for ProtocolBuffer {
    type V = Seq<u8>;

    /// The bytes held, unread ones first, written ones last.
    open spec fn view(&self) -> Seq<u8> {
        buf_data(self.buffer)
    }
}

impl ProtocolBuffer {
    /// A buffer over the bytes of `buffer`.
    pub fn new(buffer: bytes::BytesMut) -> (r: ProtocolBuffer)
        ensures
            r@ == buf_data(buffer),
    {
        ProtocolBuffer { buffer }
    }

    /// One byte as a signed number.
    pub fn read_i8(&mut self) -> (r: Result<i8, BufferError>)
        ensures
            match fixed_read(old(self)@, 1) {
                Ok(v) => r matches Ok(x) && x as int == signed_of(v, 0x100),
                Err(e) => r == Err::<i8, BufferError>(e),
            },
            final(self)@ == after_read(old(self)@, r is Ok, 1),
    {
        self.buffer.read_i8()
    }

    /// One byte.
    pub fn read_u8(&mut self) -> (r: Result<u8, BufferError>)
        ensures
            match fixed_read(old(self)@, 1) {
                Ok(v) => r matches Ok(x) && x as nat == v,
                Err(e) => r == Err::<u8, BufferError>(e),
            },
            final(self)@ == after_read(old(self)@, r is Ok, 1),
    {
        self.buffer.read_u8()
    }

    /// Two bytes, big-endian, signed.
    pub fn read_i16(&mut self) -> (r: Result<i16, BufferError>)
        ensures
            match fixed_read(old(self)@, 2) {
                Ok(v) => r matches Ok(x) && x as int == signed_of(v, 0x1_0000),
                Err(e) => r == Err::<i16, BufferError>(e),
            },
            final(self)@ == after_read(old(self)@, r is Ok, 2),
    {
        self.buffer.read_i16()
    }

    /// Two bytes, big-endian.
    pub fn read_u16(&mut self) -> (r: Result<u16, BufferError>)
        ensures
            match fixed_read(old(self)@, 2) {
                Ok(v) => r matches Ok(x) && x as nat == v,
                Err(e) => r == Err::<u16, BufferError>(e),
            },
            final(self)@ == after_read(old(self)@, r is Ok, 2),
    {
        self.buffer.read_u16()
    }

    /// Four bytes, big-endian, signed.
    pub fn read_i32(&mut self) -> (r: Result<i32, BufferError>)
        ensures
            match fixed_read(old(self)@, 4) {
                Ok(v) => r matches Ok(x) && x as int == signed_of(v, 0x1_0000_0000),
                Err(e) => r == Err::<i32, BufferError>(e),
            },
            final(self)@ == after_read(old(self)@, r is Ok, 4),
    {
        self.buffer.read_i32()
    }

    /// Four bytes, big-endian.
    pub fn read_u32(&mut self) -> (r: Result<u32, BufferError>)
        ensures
            match fixed_read(old(self)@, 4) {
                Ok(v) => r matches Ok(x) && x as nat == v,
                Err(e) => r == Err::<u32, BufferError>(e),
            },
            final(self)@ == after_read(old(self)@, r is Ok, 4),
    {
        self.buffer.read_u32()
    }

    /// Eight bytes, big-endian, signed.
    pub fn read_i64(&mut self) -> (r: Result<i64, BufferError>)
        ensures
            match fixed_read(old(self)@, 8) {
                Ok(v) => r matches Ok(x) && x as int == signed_of(v, 0x1_0000_0000_0000_0000),
                Err(e) => r == Err::<i64, BufferError>(e),
            },
            final(self)@ == after_read(old(self)@, r is Ok, 8),
    {
        self.buffer.read_i64()
    }

    /// Eight bytes, big-endian.
    pub fn read_u64(&mut self) -> (r: Result<u64, BufferError>)
        ensures
            match fixed_read(old(self)@, 8) {
                Ok(v) => r matches Ok(x) && x as nat == v,
                Err(e) => r == Err::<u64, BufferError>(e),
            },
            final(self)@ == after_read(old(self)@, r is Ok, 8),
    {
        self.buffer.read_u64()
    }

    /// One byte; zero is `false`, anything else `true`.
    pub fn read_bool(&mut self) -> (r: Result<bool, BufferError>)
        ensures
            match fixed_read(old(self)@, 1) {
                Ok(v) => r == Ok::<bool, BufferError>(v != 0),
                Err(e) => r == Err::<bool, BufferError>(e),
            },
            final(self)@ == after_read(old(self)@, r is Ok, 1),
    {
        self.buffer.read_bool()
    }

    /// A VarInt.
    pub fn read_var_int(&mut self) -> (r: Result<i32, BufferError>)
        ensures
            match var_int_decode(old(self)@) {
                Ok((v, n)) => r == Ok::<i32, BufferError>(v) && final(self)@ == old(self)@.skip(n as int),
                Err(e) => r == Err::<i32, BufferError>(e) && final(self)@ == old(self)@,
            },
    {
        self.buffer.read_var_int()
    }

    /// A VarLong.
    pub fn read_var_long(&mut self) -> (r: Result<i64, BufferError>)
        ensures
            match var_long_decode(old(self)@) {
                Ok((v, n)) => r == Ok::<i64, BufferError>(v) && final(self)@ == old(self)@.skip(n as int),
                Err(e) => r == Err::<i64, BufferError>(e) && final(self)@ == old(self)@,
            },
    {
        self.buffer.read_var_long()
    }

    /// A string of at most 32767 bytes.
    pub fn read_full_string(&mut self) -> (r: Result<String, BufferError>)
        ensures
            match string_read(old(self)@, FULL_STRING_MAX as int) {
                Ok((s, n)) => r matches Ok(x) && x@ == s && final(self)@ == old(self)@.skip(n as int),
                Err(e) => r == Err::<String, BufferError>(e) && final(self)@ == old(self)@,
            },
    {
        self.buffer.read_full_string()
    }

    /// A VarInt byte length, at most `size`, then that many bytes of UTF-8.
    pub fn read_string(&mut self, size: i32) -> (r: Result<String, BufferError>)
        ensures
            match string_read(old(self)@, size as int) {
                Ok((s, n)) => r matches Ok(x) && x@ == s && final(self)@ == old(self)@.skip(n as int),
                Err(e) => r == Err::<String, BufferError>(e) && final(self)@ == old(self)@,
            },
    {
        self.buffer.read_string(size)
    }

    /// A presence flag, then, where it is set, one value that `function`
    /// decodes from the bytes after it.
    pub fn read_option<T, F: Fn(&[u8]) -> Result<(T, usize), BufferError>>(&mut self, function: F) -> (r: Result<
        Option<T>,
        BufferError,
    >)
        requires
            forall|sl: &[u8]| #[trigger] function.requires((sl,)),
            stays_within(function),
        ensures
            old(self)@.len() == 0 ==> r == Err::<Option<T>, BufferError>(BufferError::Truncated)
                && final(self)@ == old(self)@,
            old(self)@.len() > 0 && old(self)@[0] == 0 ==> r == Ok::<Option<T>, BufferError>(None)
                && final(self)@ == old(self)@.skip(1),
            old(self)@.len() > 0 && old(self)@[0] != 0 ==> exists|o: Result<(T, usize), BufferError>|
                decoded_by(function, old(self)@.skip(1), o) && match o {
                    Ok((v, n)) => r == Ok::<Option<T>, BufferError>(Some(v)) && final(self)@ == old(self)@.skip(1 + n),
                    Err(e) => r == Err::<Option<T>, BufferError>(e) && final(self)@ == old(self)@,
                },
    {
        self.buffer.read_option(function)
    }

    /// Sixteen bytes: the high 64-bit word, then the low one, each big-endian.
    pub fn read_uuid(&mut self) -> (r: Result<WireUuid, BufferError>)
        ensures
            old(self)@.len() >= 16 ==> (r matches Ok(u) && u.high as nat == be_value(old(self)@.take(8))
                && u.low as nat == be_value(old(self)@.subrange(8, 16))),
            old(self)@.len() < 16 ==> r == Err::<WireUuid, BufferError>(BufferError::Truncated),
            final(self)@ == after_read(old(self)@, r is Ok, 16),
    {
        self.buffer.read_uuid()
    }

    /// The raw bytes of a bitset of `bits` bits: one byte per started eight.
    pub fn read_fixed_bitset(&mut self, bits: usize) -> (r: Result<bytes::Bytes, BufferError>)
        ensures
            old(self)@.len() >= bitset_bytes(bits as nat) ==> (r matches Ok(b) && frozen_data(b) == old(self)@.take(
                bitset_bytes(bits as nat) as int,
            )),
            old(self)@.len() < bitset_bytes(bits as nat) ==> r == Err::<bytes::Bytes, BufferError>(
                BufferError::Truncated,
            ),
            final(self)@ == after_read(old(self)@, r is Ok, bitset_bytes(bits as nat)),
    {
        self.buffer.read_fixed_bitset(bits)
    }

    /// A presence flag, then the encoding of the value if there is one.
    pub fn write_option<T, F: Fn(&T) -> Vec<u8>>(&mut self, value: &Option<T>, function: F)
        requires
            forall|t: &T| #[trigger] function.requires((t,)),
        ensures
            *value is None ==> final(self)@ == old(self)@.push(0),
            *value matches Some(v) ==> exists|o: Seq<u8>| encodes_as(function, v, o) && final(self)@ == old(self)@.push(1)
                + o,
    {
        match value {
            None => self.buffer.write_bool(&false),
            Some(v) => {
                self.buffer.write_bool(&true);
                let encoded = function(v);
                proof {
                    assert(encodes_as(function, *v, encoded@));
                }
                buf_extend(&mut self.buffer, encoded.as_slice());
            },
        }
    }

    /// One byte.
    pub fn write_u8(&mut self, value: u8)
        ensures
            final(self)@ == old(self)@.push(value),
    {
        self.buffer.write_u8(&value)
    }

    /// The next `size` bytes.
    pub fn copy_to_bytes(&mut self, size: usize) -> (r: Result<bytes::Bytes, BufferError>)
        ensures
            old(self)@.len() >= size ==> (r matches Ok(b) && frozen_data(b) == old(self)@.take(size as int)),
            old(self)@.len() < size ==> r == Err::<bytes::Bytes, BufferError>(BufferError::Truncated),
            final(self)@ == after_read(old(self)@, r is Ok, size as nat),
    {
        self.buffer.copy_buffer_to_bytes(size)
    }

    /// Fills `dst` with the next `dst.len()` bytes.
    pub fn copy_to_slice(&mut self, dst: &mut [u8]) -> (r: Result<(), BufferError>)
        ensures
            old(self)@.len() >= old(dst)@.len() ==> r is Ok && final(dst)@ == old(self)@.take(old(dst)@.len() as int),
            old(self)@.len() < old(dst)@.len() ==> r == Err::<(), BufferError>(BufferError::Truncated) && final(dst)@
                == old(dst)@,
            final(self)@ == after_read(old(self)@, r is Ok, old(dst)@.len()),
    {
        self.buffer.copy_buffer_to_slice(dst)
    }
}

impl Default for ProtocolBuffer {
    /// An empty buffer.
    fn default() -> (r: ProtocolBuffer)
        ensures
            r@ == Seq::<u8>::empty(),
    {
        ProtocolBuffer { buffer: buf_new() }
    }
}

} // verus!
