//! Byte buffers for writing and reading binary messages.
//!
//! Integers are written big-endian. Bit fields are packed most significant
//! bit first.

use vstd::prelude::*;

verus! {

/// The two bytes of `x`, big-endian.
pub open spec fn be16(x: u16) -> Seq<u8> {
    seq![(x / 256) as u8, (x % 256) as u8]
}

/// The four bytes of `x`, big-endian.
pub open spec fn be32(x: u32) -> Seq<u8> {
    be16((x / 0x10000) as u16) + be16((x % 0x10000) as u16)
}

/// The eight bytes of `x`, big-endian.
pub open spec fn be64(x: u64) -> Seq<u8> {
    be32((x / 0x1_0000_0000) as u32) + be32((x % 0x1_0000_0000) as u32)
}

pub proof fn lemma_be16_injective(a: u16, b: u16)
    requires
        be16(a) == be16(b),
    ensures
        a == b,
{
    assert(be16(a)[0] == be16(b)[0] && be16(a)[1] == be16(b)[1]);
    assert(a == (a / 256) * 256 + a % 256);
    assert(b == (b / 256) * 256 + b % 256);
}

pub proof fn lemma_be32_injective(a: u32, b: u32)
    requires
        be32(a) == be32(b),
    ensures
        a == b,
{
    let (x, y) = (be32(a), be32(b));
    assert(x.subrange(0, 2) =~= be16((a / 0x10000) as u16));
    assert(y.subrange(0, 2) =~= be16((b / 0x10000) as u16));
    assert(x.subrange(2, 4) =~= be16((a % 0x10000) as u16));
    assert(y.subrange(2, 4) =~= be16((b % 0x10000) as u16));
    lemma_be16_injective((a / 0x10000) as u16, (b / 0x10000) as u16);
    lemma_be16_injective((a % 0x10000) as u16, (b % 0x10000) as u16);
    assert(a == (a / 0x10000) * 0x10000 + a % 0x10000);
    assert(b == (b / 0x10000) * 0x10000 + b % 0x10000);
}

pub proof fn lemma_be64_injective(a: u64, b: u64)
    requires
        be64(a) == be64(b),
    ensures
        a == b,
{
    let (x, y) = (be64(a), be64(b));
    assert(x.subrange(0, 4) =~= be32((a / 0x1_0000_0000) as u32));
    assert(y.subrange(0, 4) =~= be32((b / 0x1_0000_0000) as u32));
    assert(x.subrange(4, 8) =~= be32((a % 0x1_0000_0000) as u32));
    assert(y.subrange(4, 8) =~= be32((b % 0x1_0000_0000) as u32));
    lemma_be32_injective((a / 0x1_0000_0000) as u32, (b / 0x1_0000_0000) as u32);
    lemma_be32_injective((a % 0x1_0000_0000) as u32, (b % 0x1_0000_0000) as u32);
    assert(a == (a / 0x1_0000_0000) * 0x1_0000_0000 + a % 0x1_0000_0000);
    assert(b == (b / 0x1_0000_0000) * 0x1_0000_0000 + b % 0x1_0000_0000);
}

/// A growable buffer that encoders write into.
pub struct EncPacket {
    buf: Vec<u8>,
}

impl View for EncPacket {
    type V = Seq<u8>;

    closed spec fn view(&self) -> Seq<u8> {
        self.buf@
    }
}

impl EncPacket {
    /// An empty buffer.
    pub fn new() -> (r: EncPacket)
        ensures
            r@ == Seq::<u8>::empty(),
    {
        EncPacket { buf: Vec::new() }
    }

    /// The bytes written so far.
    pub fn data(&self) -> (r: &Vec<u8>)
        ensures
            r@ == self@,
    {
        &self.buf
    }

    /// The number of bytes written so far.
    pub fn len(&self) -> (r: usize)
        ensures
            r == self@.len(),
    {
        self.buf.len()
    }

    /// Take the bytes out of the buffer.
    pub fn into_data(self) -> (r: Vec<u8>)
        ensures
            r@ == self@,
    {
        self.buf
    }

    pub fn encode_u8(&mut self, x: u8)
        ensures
            final(self)@ == old(self)@.push(x),
    {
        self.buf.push(x);
    }

    pub fn encode_u16(&mut self, x: u16)
        ensures
            final(self)@ == old(self)@ + be16(x),
    {
        self.buf.push((x / 256) as u8);
        self.buf.push((x % 256) as u8);
        proof {
            assert(self@ =~= old(self)@ + be16(x));
        }
    }

    pub fn encode_u32(&mut self, x: u32)
        ensures
            final(self)@ == old(self)@ + be32(x),
    {
        self.encode_u16((x / 0x10000) as u16);
        self.encode_u16((x % 0x10000) as u16);
        proof {
            assert(self@ =~= old(self)@ + be32(x));
        }
    }

    pub fn encode_u64(&mut self, x: u64)
        ensures
            final(self)@ == old(self)@ + be64(x),
    {
        self.encode_u32((x / 0x1_0000_0000) as u32);
        self.encode_u32((x % 0x1_0000_0000) as u32);
        proof {
            assert(self@ =~= old(self)@ + be64(x));
        }
    }

    /// Append every byte of `data`.
    pub fn encode_bytes(&mut self, data: &[u8])
        ensures
            final(self)@ == old(self)@ + data@,
    {
        let mut i: usize = 0;
        while i < data.len()
            invariant
                0 <= i <= data@.len(),
                self@ == old(self)@ + data@.subrange(0, i as int),
            decreases data@.len() - i,
        {
            self.buf.push(data[i]);
            i = i + 1;
            proof {
                assert(data@.subrange(0, i as int) =~= data@.subrange(0, i - 1).push(data@[i - 1]));
                assert(self@ =~= old(self)@ + data@.subrange(0, i as int));
            }
        }
        proof {
            assert(data@.subrange(0, data@.len() as int) =~= data@);
        }
    }

    /// Reserve a 16-bit length field; returns where it stands.
    pub fn begin_length(&mut self) -> (r: usize)
        ensures
            r == old(self)@.len(),
            final(self)@ == old(self)@ + seq![0u8, 0u8],
    {
        let at = self.buf.len();
        self.buf.push(0);
        self.buf.push(0);
        proof {
            assert(self@ =~= old(self)@ + seq![0u8, 0u8]);
        }
        at
    }

    /// Fill the length field at `at` with the number of bytes written after it.
    ///
    /// Fails, and leaves the buffer as it is, where that number does not fit
    /// in 16 bits.
    pub fn end_length(&mut self, at: usize) -> (r: Result<(), String>)
        requires
            at + 2 <= old(self)@.len(),
        ensures
            r is Ok <==> old(self)@.len() - at - 2 <= 0xffff,
            r is Ok ==> final(self)@ == old(self)@.subrange(0, at as int) + be16(
                (old(self)@.len() - at - 2) as u16,
            ) + old(self)@.subrange(at + 2, old(self)@.len() as int),
            r is Err ==> final(self)@ == old(self)@,
    {
        let n = self.buf.len() - at - 2;
        if n > 0xffff {
            return Err("length field overflow".to_owned());
        }
        let v = n as u16;
        self.buf.set(at, (v / 256) as u8);
        self.buf.set(at + 1, (v % 256) as u8);
        proof {
            assert(self@ =~= old(self)@.subrange(0, at as int) + be16(v) + old(self)@.subrange(
                at + 2,
                old(self)@.len() as int,
            ));
        }
        Ok(())
    }
}

/// A copy of `v`.
pub fn copy_bytes(v: &Vec<u8>) -> (r: Vec<u8>)
    ensures
        r@ == v@,
{
    let r = v.clone();
    proof {
        assert(r@ =~= v@);
    }
    r
}

/// A vector holding the bytes of `v`.
pub fn copy_slice(v: &[u8]) -> (r: Vec<u8>)
    ensures
        r@ == v@,
{
    let mut r: Vec<u8> = Vec::new();
    let mut i: usize = 0;
    while i < v.len()
        invariant
            0 <= i <= v@.len(),
            r@ == v@.subrange(0, i as int),
        decreases v@.len() - i,
    {
        r.push(v[i]);
        i = i + 1;
        proof {
            assert(r@ =~= v@.subrange(0, i as int));
        }
    }
    proof {
        assert(v@.subrange(0, v@.len() as int) =~= v@);
    }
    r
}

/// A buffer being read, with the position of the next byte.
pub struct DecPacket {
    buffer: Vec<u8>,
    offset: usize,
}

impl DecPacket {
    /// The whole buffer.
    pub closed spec fn bytes(&self) -> Seq<u8> {
        self.buffer@
    }

    /// The position of the next byte to read.
    pub closed spec fn pos(&self) -> int {
        self.offset as int
    }

    /// The bytes not yet read.
    pub open spec fn rest(&self) -> Seq<u8> {
        self.bytes().subrange(self.pos(), self.bytes().len() as int)
    }

    pub closed spec fn wf(&self) -> bool {
        self.offset <= self.buffer@.len()
    }

    pub proof fn lemma_wf(&self)
        requires
            self.wf(),
        ensures
            0 <= self.pos() <= self.bytes().len(),
    {
    }

    /// A reader at the start of `data`.
    pub fn new(data: Vec<u8>) -> (r: DecPacket)
        ensures
            r.wf(),
            r.bytes() == data@,
            r.pos() == 0,
    {
        DecPacket { buffer: data, offset: 0 }
    }

    /// The position of the next byte to read.
    pub fn current_offset(&self) -> (r: usize)
        ensures
            r == self.pos(),
    {
        self.offset
    }

    /// The number of bytes not yet read.
    pub fn remaining(&self) -> (r: usize)
        requires
            self.wf(),
        ensures
            r == self.bytes().len() - self.pos(),
    {
        self.buffer.len() - self.offset
    }

    /// A reader over the first `new_size` bytes, at `new_offset`.
    ///
    /// Fails unless `new_offset < new_size <= ` the buffer's length.
    pub fn seek(&self, new_offset: usize, new_size: usize) -> (r: Result<DecPacket, String>)
        ensures
            r is Ok <==> new_offset < new_size && new_size <= self.bytes().len(),
            r matches Ok(p) ==> p.wf() && p.bytes() == self.bytes().subrange(0, new_size as int)
                && p.pos() == new_offset,
    {
        if new_offset >= new_size || new_size > self.buffer.len() {
            return Err("seek out of bounds".to_owned());
        }
        let mut res: Vec<u8> = Vec::new();
        let mut i: usize = 0;
        while i < new_size
            invariant
                new_size <= self.buffer@.len(),
                0 <= i <= new_size,
                res@ == self.buffer@.subrange(0, i as int),
            decreases new_size - i,
        {
            res.push(self.buffer[i]);
            i = i + 1;
            proof {
                assert(res@ =~= self.buffer@.subrange(0, i as int));
            }
        }
        Ok(DecPacket { buffer: res, offset: new_offset })
    }

    pub fn decode_u8(&mut self) -> (r: Result<u8, String>)
        requires
            old(self).wf(),
        ensures
            final(self).wf(),
            final(self).bytes() == old(self).bytes(),
            r is Ok <==> old(self).pos() + 1 <= old(self).bytes().len(),
            r matches Ok(x) ==> x == old(self).bytes()[old(self).pos() as int] && final(self).pos()
                == old(self).pos() + 1,
            r is Err ==> final(self).pos() == old(self).pos(),
    {
        if self.offset >= self.buffer.len() {
            Err("buffer underflow".to_owned())
        } else {
            self.offset = self.offset + 1;
            Ok(self.buffer[self.offset - 1])
        }
    }

    pub fn decode_u16(&mut self) -> (r: Result<u16, String>)
        requires
            old(self).wf(),
        ensures
            final(self).wf(),
            final(self).bytes() == old(self).bytes(),
            r is Ok <==> old(self).pos() + 2 <= old(self).bytes().len(),
            r matches Ok(x) ==> be16(x) == old(self).bytes().subrange(
                old(self).pos() as int,
                old(self).pos() + 2,
            ) && final(self).pos() == old(self).pos() + 2,
    {
        let hi = self.decode_u8()?;
        let lo = self.decode_u8()?;
        let x = (hi as u16) * 256 + (lo as u16);
        proof {
            assert(be16(x) =~= old(self).bytes().subrange(old(self).pos() as int, old(self).pos() + 2));
        }
        Ok(x)
    }

    pub fn decode_u32(&mut self) -> (r: Result<u32, String>)
        requires
            old(self).wf(),
        ensures
            final(self).wf(),
            final(self).bytes() == old(self).bytes(),
            r is Ok <==> old(self).pos() + 4 <= old(self).bytes().len(),
            r matches Ok(x) ==> be32(x) == old(self).bytes().subrange(
                old(self).pos() as int,
                old(self).pos() + 4,
            ) && final(self).pos() == old(self).pos() + 4,
    {
        let hi = self.decode_u16()?;
        let lo = self.decode_u16()?;
        let x = (hi as u32) * 0x10000 + (lo as u32);
        proof {
            assert((x / 0x10000) as u16 == hi);
            assert((x % 0x10000) as u16 == lo);
            assert(be32(x) =~= old(self).bytes().subrange(old(self).pos() as int, old(self).pos() + 4));
        }
        Ok(x)
    }

    pub fn decode_u64(&mut self) -> (r: Result<u64, String>)
        requires
            old(self).wf(),
        ensures
            final(self).wf(),
            final(self).bytes() == old(self).bytes(),
            r is Ok <==> old(self).pos() + 8 <= old(self).bytes().len(),
            r matches Ok(x) ==> be64(x) == old(self).bytes().subrange(
                old(self).pos() as int,
                old(self).pos() + 8,
            ) && final(self).pos() == old(self).pos() + 8,
    {
        let hi = self.decode_u32()?;
        let lo = self.decode_u32()?;
        let x = (hi as u64) * 0x1_0000_0000 + (lo as u64);
        proof {
            assert((x / 0x1_0000_0000) as u32 == hi);
            assert((x % 0x1_0000_0000) as u32 == lo);
            assert(be64(x) =~= old(self).bytes().subrange(old(self).pos() as int, old(self).pos() + 8));
        }
        Ok(x)
    }

    /// Read the next `num_bytes` bytes.
    pub fn read_bytes(&mut self, num_bytes: usize) -> (r: Result<Vec<u8>, String>)
        requires
            old(self).wf(),
        ensures
            final(self).wf(),
            final(self).bytes() == old(self).bytes(),
            r is Ok <==> old(self).pos() + num_bytes <= old(self).bytes().len(),
            r matches Ok(v) ==> v@ == old(self).bytes().subrange(
                old(self).pos() as int,
                old(self).pos() + num_bytes,
            ) && final(self).pos() == old(self).pos() + num_bytes,
    {
        if num_bytes > self.buffer.len() - self.offset {
            return Err("buffer underflow".to_owned());
        }
        let mut res: Vec<u8> = Vec::new();
        let blen = self.buffer.len();
        let mut i: usize = 0;
        while i < num_bytes
            invariant
                blen == self.buffer@.len(),
                self.buffer == old(self).buffer,
                old(self).offset + num_bytes <= self.buffer@.len(),
                0 <= i <= num_bytes,
                self.offset == old(self).offset + i,
                res@ == self.buffer@.subrange(old(self).offset as int, self.offset as int),
            decreases num_bytes - i,
        {
            res.push(self.buffer[self.offset]);
            self.offset = self.offset + 1;
            i = i + 1;
            proof {
                assert(res@ =~= self.buffer@.subrange(old(self).offset as int, self.offset as int));
            }
        }
        Ok(res)
    }

    /// Read a 16-bit length field.
    pub fn decode_length(&mut self) -> (r: Result<usize, String>)
        requires
            old(self).wf(),
        ensures
            final(self).wf(),
            final(self).bytes() == old(self).bytes(),
            r is Ok <==> old(self).pos() + 2 <= old(self).bytes().len(),
            r matches Ok(n) ==> n <= 0xffff && be16(n as u16) == old(self).bytes().subrange(
                old(self).pos() as int,
                old(self).pos() + 2,
            ) && final(self).pos() == old(self).pos() + 2,
    {
        let n = self.decode_u16()?;
        Ok(n as usize)
    }

    /// Check that exactly `len` bytes were read since position `start`.
    pub fn check_length(&self, start: usize, len: usize) -> (r: Result<(), String>)
        ensures
            r is Ok <==> self.pos() == start + len,
    {
        if self.offset < len || self.offset - len != start {
            Err("incorrect length field".to_owned())
        } else {
            Ok(())
        }
    }
}

} // verus!
