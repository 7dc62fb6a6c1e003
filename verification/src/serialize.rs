//! Byte buffers, and the trait that lets an application's messages go through them.
use vstd::bytes::*;
use vstd::prelude::*;

verus! {

/// Why a message could not be written or read.
#[derive(Clone, Copy, Debug, PartialEq, Eq, Structural)]
pub enum SerializeError {
    /// The buffer ended before the value did.
    EndOfBuffer,
    /// The value cannot be written, or the bytes stand for no value.
    InvalidValue,
}

/// A buffer that values are written to.
pub trait WriteBuffer: Sized {
    /// The bytes written since the last start.
    spec fn written(&self) -> Seq<u8>;

    /// Returns an empty buffer with room for `capacity` bytes.
    fn with_capacity(capacity: usize) -> (r: Self)
        ensures
            r.written() == Seq::<u8>::empty(),
    ;

    /// Forgets what was written.
    fn start_write(&mut self)
        ensures
            final(self).written() == Seq::<u8>::empty(),
    ;

    /// Appends `bytes`.
    fn write_bytes(&mut self, bytes: &[u8])
        ensures
            final(self).written() == old(self).written() + bytes@,
    ;

    /// Returns what was written, and leaves the buffer empty.
    fn finish_write(&mut self) -> (r: Vec<u8>)
        ensures
            r@ == old(self).written(),
            final(self).written() == Seq::<u8>::empty(),
    ;
}

/// A buffer that values are read from.
pub trait ReadBuffer: Sized {
    /// The bytes not read yet.
    spec fn remaining(&self) -> Seq<u8>;

    /// Returns a buffer that reads `bytes` from their start.
    fn start_read(bytes: &[u8]) -> (r: Self)
        ensures
            r.remaining() == bytes@,
    ;

    /// Reads the next `n` bytes, or nothing where fewer are left.
    fn read_bytes(&mut self, n: usize) -> (r: Option<Vec<u8>>)
        ensures
            match r {
                Some(b) => {
                    &&& n <= old(self).remaining().len()
                    &&& b@ == old(self).remaining().take(n as int)
                    &&& final(self).remaining() == old(self).remaining().skip(n as int)
                },
                None => {
                    &&& n > old(self).remaining().len()
                    &&& final(self).remaining() == old(self).remaining()
                },
            },
    ;
}

/// A [`WriteBuffer`] in memory.
pub struct WriteWordBuffer {
    bytes: Vec<u8>,
}

impl WriteBuffer for WriteWordBuffer {
    closed spec fn written(&self) -> Seq<u8> {
        self.bytes@
    }

    fn with_capacity(capacity: usize) -> (r: Self) {
        WriteWordBuffer { bytes: Vec::with_capacity(capacity) }
    }

    fn start_write(&mut self) {
        self.bytes.clear();
    }

    fn write_bytes(&mut self, bytes: &[u8]) {
        self.bytes.extend_from_slice(bytes);
        assert(self.bytes@ =~= old(self).bytes@ + bytes@);
    }

    fn finish_write(&mut self) -> (r: Vec<u8>) {
        let mut r: Vec<u8> = Vec::new();
        r.append(&mut self.bytes);
        assert(r@ =~= old(self).bytes@);
        r
    }
}

/// A [`ReadBuffer`] in memory.
pub struct ReadWordBuffer {
    bytes: Vec<u8>,
    position: usize,
}

impl ReadWordBuffer {
    #[verifier::type_invariant]
    spec fn position_in_range(self) -> bool {
        self.position <= self.bytes@.len()
    }
}

impl ReadBuffer for ReadWordBuffer {
    closed spec fn remaining(&self) -> Seq<u8> {
        self.bytes@.skip(self.position as int)
    }

    fn start_read(bytes: &[u8]) -> (r: Self) {
        let r = ReadWordBuffer { bytes: vstd::slice::slice_to_vec(bytes), position: 0 };
        assert(r.remaining() =~= bytes@);
        r
    }

    fn read_bytes(&mut self, n: usize) -> (r: Option<Vec<u8>>) {
        proof {
            use_type_invariant(&*self);
        }
        if n > self.bytes.len() - self.position {
            return None;
        }
        let end: usize = self.position + n;
        let b = vstd::slice::slice_to_vec(
            vstd::slice::slice_subrange(self.bytes.as_slice(), self.position, end),
        );
        assert(b@ =~= self.remaining().take(n as int));
        self.position = end;
        assert(self.remaining() =~= old(self).remaining().skip(n as int));
        Some(b)
    }
}

/// A message that an application sends: it can be written to a buffer and read back.
///
/// The specification functions name what an implementation does, and the contracts of this crate
/// speak of messages through them. An implementation that is not verified can leave them at
/// their defaults; what the contracts say of messages does not apply to it.
pub trait BitSerializable: Sized {
    /// The bytes that the message is written as, or why it cannot be written.
    closed spec fn encoding(&self) -> Result<Seq<u8>, SerializeError> {
        arbitrary()
    }

    /// Why no message can be read from a buffer that holds `bytes`, or `None` where one can.
    closed spec fn decode_error(bytes: Seq<u8>) -> Option<SerializeError> {
        arbitrary()
    }

    /// Whether `message` is what is read from a buffer that holds `bytes`.
    closed spec fn decodes_to(bytes: Seq<u8>, message: Self) -> bool {
        arbitrary()
    }

    /// Writes the message.
    fn encode<W: WriteBuffer>(&self, writer: &mut W) -> (r: Result<(), SerializeError>)
        ensures
            match self.encoding() {
                Ok(bytes) => {
                    &&& r is Ok
                    &&& final(writer).written() == old(writer).written() + bytes
                },
                Err(e) => r == Err::<(), SerializeError>(e),
            },
    ;

    /// Reads a message.
    fn decode<R: ReadBuffer>(reader: &mut R) -> (r: Result<Self, SerializeError>)
        ensures
            match r {
                Ok(message) => {
                    &&& Self::decode_error(old(reader).remaining()) is None
                    &&& Self::decodes_to(old(reader).remaining(), message)
                },
                Err(e) => Self::decode_error(old(reader).remaining()) == Some(e),
            },
    ;
}

// ---------------------------------------------------------------------------------------
// Primitive values on the wire. A reader of a value takes a byte sequence apart into the value
// and the bytes behind it.
// ---------------------------------------------------------------------------------------

/// Takes one byte off the front of `s`.
pub open spec fn take_u8(s: Seq<u8>) -> Option<(u8, Seq<u8>)> {
    if s.len() >= 1 {
        Some((s[0], s.skip(1)))
    } else {
        None
    }
}

/// Takes a 16-bit integer off the front of `s`.
pub open spec fn take_u16(s: Seq<u8>) -> Option<(u16, Seq<u8>)> {
    if s.len() >= 2 {
        Some((spec_u16_from_le_bytes(s.take(2)), s.skip(2)))
    } else {
        None
    }
}

/// Takes a 32-bit integer off the front of `s`.
pub open spec fn take_u32(s: Seq<u8>) -> Option<(u32, Seq<u8>)> {
    if s.len() >= 4 {
        Some((spec_u32_from_le_bytes(s.take(4)), s.skip(4)))
    } else {
        None
    }
}

/// Takes a 64-bit integer off the front of `s`.
pub open spec fn take_u64(s: Seq<u8>) -> Option<(u64, Seq<u8>)> {
    if s.len() >= 8 {
        Some((spec_u64_from_le_bytes(s.take(8)), s.skip(8)))
    } else {
        None
    }
}

/// A byte string on the wire: its length, then its bytes.
pub open spec fn chunk_bytes(b: Seq<u8>) -> Seq<u8> {
    spec_u16_to_le_bytes(b.len() as u16) + b
}

/// Takes a byte string off the front of `s`.
pub open spec fn take_chunk(s: Seq<u8>) -> Option<(Seq<u8>, Seq<u8>)> {
    match take_u16(s) {
        None => None,
        Some((n, t)) => if t.len() >= n {
            Some((t.take(n as int), t.skip(n as int)))
        } else {
            None
        },
    }
}

/// A byte is read as it was written.
pub proof fn lemma_take_u8(x: u8, t: Seq<u8>)
    ensures
        take_u8(seq![x] + t) == Some((x, t)),
{
    assert((seq![x] + t).skip(1) =~= t);
}

/// A 16-bit integer is read as it was written.
pub proof fn lemma_take_u16(x: u16, t: Seq<u8>)
    ensures
        spec_u16_to_le_bytes(x).len() == 2,
        take_u16(spec_u16_to_le_bytes(x) + t) == Some((x, t)),
{
    lemma_auto_spec_u16_to_from_le_bytes();
    let b = spec_u16_to_le_bytes(x);
    assert((b + t).take(2) =~= b);
    assert((b + t).skip(2) =~= t);
}

/// A 32-bit integer is read as it was written.
pub proof fn lemma_take_u32(x: u32, t: Seq<u8>)
    ensures
        spec_u32_to_le_bytes(x).len() == 4,
        take_u32(spec_u32_to_le_bytes(x) + t) == Some((x, t)),
{
    lemma_auto_spec_u32_to_from_le_bytes();
    let b = spec_u32_to_le_bytes(x);
    assert((b + t).take(4) =~= b);
    assert((b + t).skip(4) =~= t);
}

/// A 64-bit integer is read as it was written.
pub proof fn lemma_take_u64(x: u64, t: Seq<u8>)
    ensures
        spec_u64_to_le_bytes(x).len() == 8,
        take_u64(spec_u64_to_le_bytes(x) + t) == Some((x, t)),
{
    lemma_auto_spec_u64_to_from_le_bytes();
    let b = spec_u64_to_le_bytes(x);
    assert((b + t).take(8) =~= b);
    assert((b + t).skip(8) =~= t);
}

/// A byte string is read as it was written.
pub proof fn lemma_take_chunk(b: Seq<u8>, t: Seq<u8>)
    requires
        b.len() <= u16::MAX,
    ensures
        chunk_bytes(b).len() == 2 + b.len(),
        take_chunk(chunk_bytes(b) + t) == Some((b, t)),
{
    let n = spec_u16_to_le_bytes(b.len() as u16);
    lemma_take_u16(b.len() as u16, b + t);
    assert(chunk_bytes(b) + t =~= n + (b + t));
    assert((b + t).take(b.len() as int) =~= b);
    assert((b + t).skip(b.len() as int) =~= t);
}

/// Writes one byte.
pub fn write_u8<W: WriteBuffer>(writer: &mut W, x: u8)
    ensures
        final(writer).written() == old(writer).written() + seq![x],
{
    let b: Vec<u8> = vec![x];
    assert(b@ =~= seq![x]);
    writer.write_bytes(b.as_slice());
}

/// Writes a 16-bit integer.
pub fn write_u16<W: WriteBuffer>(writer: &mut W, x: u16)
    ensures
        final(writer).written() == old(writer).written() + spec_u16_to_le_bytes(x),
{
    let b = u16_to_le_bytes(x);
    writer.write_bytes(b.as_slice());
}

/// Writes a 32-bit integer.
pub fn write_u32<W: WriteBuffer>(writer: &mut W, x: u32)
    ensures
        final(writer).written() == old(writer).written() + spec_u32_to_le_bytes(x),
{
    let b = u32_to_le_bytes(x);
    writer.write_bytes(b.as_slice());
}

/// Writes a 64-bit integer.
pub fn write_u64<W: WriteBuffer>(writer: &mut W, x: u64)
    ensures
        final(writer).written() == old(writer).written() + spec_u64_to_le_bytes(x),
{
    let b = u64_to_le_bytes(x);
    writer.write_bytes(b.as_slice());
}

/// Writes a byte string that is short enough for its length to fit.
pub fn write_chunk<W: WriteBuffer>(writer: &mut W, bytes: &[u8])
    requires
        bytes@.len() <= u16::MAX,
    ensures
        final(writer).written() == old(writer).written() + chunk_bytes(bytes@),
{
    write_u16(writer, bytes.len() as u16);
    writer.write_bytes(bytes);
    assert(writer.written() =~= old(writer).written() + chunk_bytes(bytes@));
}

/// Reads one byte.
pub fn read_u8<R: ReadBuffer>(reader: &mut R) -> (r: Option<u8>)
    ensures
        match take_u8(old(reader).remaining()) {
            Some((x, t)) => r == Some(x) && final(reader).remaining() == t,
            None => r is None,
        },
{
    let b = reader.read_bytes(1)?;
    Some(b[0])
}

/// Reads a 16-bit integer.
pub fn read_u16<R: ReadBuffer>(reader: &mut R) -> (r: Option<u16>)
    ensures
        match take_u16(old(reader).remaining()) {
            Some((x, t)) => r == Some(x) && final(reader).remaining() == t,
            None => r is None,
        },
{
    let b = reader.read_bytes(2)?;
    Some(u16_from_le_bytes(b.as_slice()))
}

/// Reads a 32-bit integer.
pub fn read_u32<R: ReadBuffer>(reader: &mut R) -> (r: Option<u32>)
    ensures
        match take_u32(old(reader).remaining()) {
            Some((x, t)) => r == Some(x) && final(reader).remaining() == t,
            None => r is None,
        },
{
    let b = reader.read_bytes(4)?;
    Some(u32_from_le_bytes(b.as_slice()))
}

/// Reads a 64-bit integer.
pub fn read_u64<R: ReadBuffer>(reader: &mut R) -> (r: Option<u64>)
    ensures
        match take_u64(old(reader).remaining()) {
            Some((x, t)) => r == Some(x) && final(reader).remaining() == t,
            None => r is None,
        },
{
    let b = reader.read_bytes(8)?;
    Some(u64_from_le_bytes(b.as_slice()))
}

/// Reads a byte string.
pub fn read_chunk<R: ReadBuffer>(reader: &mut R) -> (r: Option<Vec<u8>>)
    ensures
        match take_chunk(old(reader).remaining()) {
            Some((b, t)) => r is Some && r.unwrap()@ == b && final(reader).remaining() == t,
            None => r is None,
        },
{
    let n = read_u16(reader)?;
    reader.read_bytes(n as usize)
}

/// Integers are messages.
impl BitSerializable for u32 {
    open spec fn encoding(&self) -> Result<Seq<u8>, SerializeError> {
        Ok(spec_u32_to_le_bytes(*self))
    }

    open spec fn decode_error(bytes: Seq<u8>) -> Option<SerializeError> {
        match take_u32(bytes) {
            Some(_) => None,
            None => Some(SerializeError::EndOfBuffer),
        }
    }

    open spec fn decodes_to(bytes: Seq<u8>, message: Self) -> bool {
        take_u32(bytes) matches Some((x, t)) && x == message
    }

    fn encode<W: WriteBuffer>(&self, writer: &mut W) -> (r: Result<(), SerializeError>) {
        write_u32(writer, *self);
        Ok(())
    }

    fn decode<R: ReadBuffer>(reader: &mut R) -> (r: Result<Self, SerializeError>) {
        match read_u32(reader) {
            Some(x) => Ok(x),
            None => Err(SerializeError::EndOfBuffer),
        }
    }
}

} // verus!
