//! The payloads exchanged by two WWR endpoints.

use vstd::prelude::*;
use crate::bits::{BitWriter, BitReader, bits_of, value_of, lemma_bits_of_value, lemma_bits_len, lemma_value_bound, two_pow};
use crate::codec::{EncPacket, DecPacket, be32};

verus! {

/// An acknowledgement of the chunks seen in the receiver's window.
///
/// Bit `i` of `window_mask` says that the chunk numbered
/// `window_start + i + 1` has been received.
#[derive(Debug)]
pub struct Ack {
    pub window_start: u32,
    pub window_mask: Vec<bool>,
}

/// A numbered piece of the byte stream; an empty one marks its end.
#[derive(Debug)]
pub struct Chunk {
    pub seq: u32,
    pub data: Vec<u8>,
}

/// A WWR payload: an acknowledgement and perhaps a chunk.
#[derive(Debug)]
pub struct Packet {
    pub ack: Ack,
    pub chunk: Option<Chunk>,
}

impl Chunk {
    /// A copy of this chunk.
    pub fn duplicate(&self) -> (r: Chunk)
        ensures
            r.seq == self.seq,
            r.data@ == self.data@,
    {
        let data = self.data.clone();
        proof {
            assert(data@ =~= self.data@);
        }
        Chunk { seq: self.seq, data }
    }
}

impl Clone for Chunk {
    fn clone(&self) -> (r: Chunk)
        ensures
            r.seq == self.seq,
            r.data@ == self.data@,
    {
        self.duplicate()
    }
}

impl Ack {
    /// A copy of this acknowledgement.
    pub fn duplicate(&self) -> (r: Ack)
        ensures
            r.window_start == self.window_start,
            r.window_mask@ == self.window_mask@,
    {
        let window_mask = self.window_mask.clone();
        proof {
            assert(window_mask@ =~= self.window_mask@);
        }
        Ack { window_start: self.window_start, window_mask }
    }
}

impl Clone for Ack {
    fn clone(&self) -> (r: Ack)
        ensures
            r.window_start == self.window_start,
            r.window_mask@ == self.window_mask@,
    {
        self.duplicate()
    }
}

impl PartialEq for Chunk {
    fn eq(&self, o: &Chunk) -> (r: bool)
        ensures
            r == (self.seq == o.seq && self.data@ == o.data@),
    {
        if self.seq != o.seq || self.data.len() != o.data.len() {
            return false;
        }
        let mut i: usize = 0;
        while i < self.data.len()
            invariant
                self.data@.len() == o.data@.len(),
                0 <= i <= self.data@.len(),
                forall|k: int| 0 <= k < i ==> self.data@[k] == o.data@[k],
            decreases self.data@.len() - i,
        {
            if self.data[i] != o.data[i] {
                return false;
            }
            i = i + 1;
        }
        proof {
            assert(self.data@ =~= o.data@);
        }
        true
    }
}

impl vstd::std_specs::cmp::PartialEqSpecImpl for Chunk {
    open spec fn obeys_eq_spec() -> bool {
        true
    }

    open spec fn eq_spec(&self, o: &Chunk) -> bool {
        self.seq == o.seq && self.data@ == o.data@
    }
}

impl PartialEq for Ack {
    fn eq(&self, o: &Ack) -> (r: bool)
        ensures
            r == (self.window_start == o.window_start && self.window_mask@ == o.window_mask@),
    {
        if self.window_start != o.window_start || self.window_mask.len() != o.window_mask.len() {
            return false;
        }
        let mut i: usize = 0;
        while i < self.window_mask.len()
            invariant
                self.window_mask@.len() == o.window_mask@.len(),
                0 <= i <= self.window_mask@.len(),
                forall|k: int| 0 <= k < i ==> self.window_mask@[k] == o.window_mask@[k],
            decreases self.window_mask@.len() - i,
        {
            if self.window_mask[i] != o.window_mask[i] {
                return false;
            }
            i = i + 1;
        }
        proof {
            assert(self.window_mask@ =~= o.window_mask@);
        }
        true
    }
}

impl vstd::std_specs::cmp::PartialEqSpecImpl for Ack {
    open spec fn obeys_eq_spec() -> bool {
        true
    }

    open spec fn eq_spec(&self, o: &Ack) -> bool {
        self.window_start == o.window_start && self.window_mask@ == o.window_mask@
    }
}

/// `m` followed by false bits up to a whole number of bytes.
pub open spec fn pad8(m: Seq<bool>) -> Seq<bool> {
    m + Seq::new((if m.len() % 8 == 0 { 0 } else { 8 - m.len() % 8 }) as nat, |i: int| false)
}

/// Bits, a whole number of bytes of them, packed into bytes most
/// significant bit first.
pub open spec fn pack(bits: Seq<bool>) -> Seq<u8>
    decreases bits.len(),
{
    if bits.len() < 8 {
        Seq::empty()
    } else {
        pack(bits.take(bits.len() - 8)).push(value_of(bits.skip(bits.len() - 8)) as u8)
    }
}

/// The bits of bytes, most significant first.
pub open spec fn unpack(bytes: Seq<u8>) -> Seq<bool>
    decreases bytes.len(),
{
    if bytes.len() == 0 {
        Seq::empty()
    } else {
        unpack(bytes.drop_last()) + bits_of(bytes.last() as nat, 8)
    }
}

/// The number of bytes that hold `n` bits.
pub open spec fn byte_count(n: nat) -> nat {
    if n % 8 == 0 {
        n / 8
    } else {
        n / 8 + 1
    }
}

/// The wire form of an acknowledgement.
pub open spec fn ack_bytes(window_start: u32, mask: Seq<bool>) -> Seq<u8> {
    be32(window_start) + pack(pad8(mask))
}

/// The wire form of a chunk.
pub open spec fn chunk_bytes(seq: u32, data: Seq<u8>) -> Seq<u8> {
    be32(seq) + data
}

/// Relies on `rand::random`: a 64-bit number drawn from the thread's
/// generator, so that two keep-alive queries differ.
#[verifier::external_body]
fn random_nonce() -> (r: u64) {
    rand::random::<u64>()
}

pub proof fn lemma_unpack_len(bytes: Seq<u8>)
    ensures
        unpack(bytes).len() == 8 * bytes.len(),
    decreases bytes.len(),
{
    if bytes.len() > 0 {
        lemma_unpack_len(bytes.drop_last());
        lemma_bits_len(bytes.last() as nat, 8);
    }
}

pub proof fn lemma_pack_len(bits: Seq<bool>)
    requires
        bits.len() % 8 == 0,
    ensures
        pack(bits).len() == bits.len() / 8,
    decreases bits.len(),
{
    if bits.len() >= 8 {
        lemma_pack_len(bits.take(bits.len() - 8));
    }
}

/// Unpacking packed bits gives them back.
pub proof fn lemma_unpack_pack(bits: Seq<bool>)
    requires
        bits.len() % 8 == 0,
    ensures
        unpack(pack(bits)) == bits,
    decreases bits.len(),
{
    if bits.len() >= 8 {
        let front = bits.take(bits.len() - 8);
        let last = bits.skip(bits.len() - 8);
        lemma_unpack_pack(front);
        lemma_value_bound(last);
        assert(two_pow(8) == 256) by {
            reveal_with_fuel(two_pow, 9);
        }
        lemma_bits_of_value(last);
        let p = pack(bits);
        assert(p.drop_last() == pack(front));
        assert(front + last =~= bits);
    } else {
        assert(bits =~= Seq::<bool>::empty());
    }
}

impl Ack {
    /// Append the wire form: the window start, then the mask packed into
    /// bytes, most significant bit first, the last byte padded with zeros.
    pub fn encode(&self, packet: &mut EncPacket)
        ensures
            final(packet)@ == old(packet)@ + ack_bytes(self.window_start, self.window_mask@),
    {
        packet.encode_u32(self.window_start);
        let n = self.window_mask.len();
        let nbytes = n / 8 + if n % 8 == 0 {
            0
        } else {
            1
        };
        let ghost padded = pad8(self.window_mask@);
        let ghost base = packet@;
        proof {
            assert(padded.len() == 8 * nbytes);
            assert(padded.take(0) =~= Seq::<bool>::empty());
        }
        let mut k: usize = 0;
        while k < nbytes
            invariant
                n == self.window_mask@.len(),
                padded == pad8(self.window_mask@),
                padded.len() == 8 * nbytes,
                0 <= k <= nbytes,
                packet@ == base + pack(padded.take(8 * k)),
            decreases nbytes - k,
        {
            let mut w = BitWriter::new();
            let mut j: usize = 0;
            while j < 8
                invariant
                    n == self.window_mask@.len(),
                    padded == pad8(self.window_mask@),
                    padded.len() == 8 * nbytes,
                    k < nbytes,
                    0 <= j <= 8,
                    w.wf(),
                    w@ == padded.subrange(8 * k, 8 * k + j),
                decreases 8 - j,
            {
                let at = 8 * k + j;
                let bit = if at < n {
                    self.window_mask[at]
                } else {
                    false
                };
                proof {
                    assert(padded[at as int] == bit);
                    assert(w@.len() == j);
                }
                w.write_bit(bit);
                j = j + 1;
                proof {
                    assert(w@ =~= padded.subrange(8 * k, 8 * k + j));
                }
            }
            let v = w.value();
            proof {
                lemma_value_bound(w@);
                assert(two_pow(8) == 256) by {
                    reveal_with_fuel(two_pow, 9);
                }
                assert(w@.len() == 8);
            }
            packet.encode_u8(v as u8);
            k = k + 1;
            proof {
                let t = padded.take(8 * k);
                assert(t.take(t.len() - 8) =~= padded.take(8 * (k - 1)));
                assert(t.skip(t.len() - 8) =~= padded.subrange(8 * (k - 1), 8 * k));
                assert(packet@ =~= base + pack(t));
            }
        }
        proof {
            assert(padded.take(8 * nbytes) =~= padded);
        }
    }

    /// Read an acknowledgement whose mask has `window_size - 1` bits,
    /// `window_size` being the sender's outgoing window size.
    pub fn decode(packet: &mut DecPacket, window_size: u16) -> (r: Result<Ack, String>)
        requires
            old(packet).wf(),
            window_size >= 1,
        ensures
            final(packet).wf(),
            final(packet).bytes() == old(packet).bytes(),
            r is Ok <==> old(packet).pos() + 4 + byte_count((window_size - 1) as nat) <= old(
                packet,
            ).bytes().len(),
            r matches Ok(a) ==> {
                let p = old(packet).pos();
                let b = old(packet).bytes();
                &&& be32(a.window_start) == b.subrange(p, p + 4)
                &&& a.window_mask@ == unpack(
                    b.subrange(p + 4, p + 4 + byte_count((window_size - 1) as nat)),
                ).take(window_size - 1)
                &&& final(packet).pos() == p + 4 + byte_count((window_size - 1) as nat)
            },
    {
        proof {
            packet.lemma_wf();
        }
        let window_start = match packet.decode_u32() {
            Ok(x) => x,
            Err(e) => {
                return Err(e);
            },
        };
        let num_bits = (window_size as usize) - 1;
        let num_bytes = if num_bits % 8 != 0 {
            num_bits / 8 + 1
        } else {
            num_bits / 8
        };
        let bytes = packet.read_bytes(num_bytes)?;
        let mut bits: Vec<bool> = Vec::new();
        let mut k: usize = 0;
        proof {
            assert(bytes@.take(0) =~= Seq::<u8>::empty());
        }
        while k < bytes.len()
            invariant
                num_bits == window_size - 1,
                0 <= k <= bytes@.len(),
                bits@.len() <= num_bits,
                bits@.len() <= 8 * k,
                bits@ == unpack(bytes@.take(k as int)).take(bits@.len() as int),
                bits@.len() < num_bits ==> bits@.len() == 8 * k,
            decreases bytes@.len() - k,
        {
            let mut rd = BitReader::new(bytes[k] as u64, 8);
            let ghost pre = unpack(bytes@.take(k as int));
            let ghost byte_bits = bits_of(bytes@[k as int] as nat, 8);
            proof {
                lemma_bits_len(bytes@[k as int] as nat, 8);
                assert(bytes@.take(k + 1).drop_last() =~= bytes@.take(k as int));
                assert(unpack(bytes@.take(k + 1)) == pre + byte_bits);
                lemma_unpack_len(bytes@.take(k as int));
                assert((pre + byte_bits).take(bits@.len() as int) =~= pre.take(bits@.len() as int));
            }
            let mut j: usize = 0;
            while j < 8
                invariant
                    num_bits == window_size - 1,
                    0 <= j <= 8,
                    byte_bits.len() == 8,
                    rd.wf(),
                    rd@ == byte_bits.skip(j as int),
                    bits@.len() <= num_bits,
                    bits@ == (pre + byte_bits).take(bits@.len() as int),
                    bits@.len() < num_bits ==> bits@.len() == pre.len() + j,
                    bits@.len() <= pre.len() + j,
                    pre.len() == 8 * k,
                decreases 8 - j,
            {
                let b = rd.read_bit();
                proof {
                    assert(rd@ == byte_bits.skip(j + 1));
                }
                match b {
                    Some(bit) => {
                        if bits.len() < num_bits {
                            proof {
                                assert(bit == byte_bits[j as int]);
                            }
                            bits.push(bit);
                            proof {
                                assert(bits@ =~= (pre + byte_bits).take(bits@.len() as int));
                            }
                        }
                    },
                    None => {
                    },
                }
                j = j + 1;
            }
            k = k + 1;
        }
        proof {
            assert(bytes@.take(bytes@.len() as int) =~= bytes@);
            lemma_unpack_len(bytes@);
        }
        Ok(Ack { window_start, window_mask: bits })
    }
}

impl Chunk {
    /// Append the wire form: the number, then the data.
    pub fn encode(&self, packet: &mut EncPacket)
        ensures
            final(packet)@ == old(packet)@ + chunk_bytes(self.seq, self.data@),
    {
        packet.encode_u32(self.seq);
        packet.encode_bytes(self.data.as_slice());
        proof {
            assert(final(packet)@ =~= old(packet)@ + chunk_bytes(self.seq, self.data@));
        }
    }

    /// Read a chunk that fills the rest of the packet.
    pub fn decode(packet: &mut DecPacket) -> (r: Result<Chunk, String>)
        requires
            old(packet).wf(),
        ensures
            final(packet).wf(),
            final(packet).bytes() == old(packet).bytes(),
            r is Ok <==> old(packet).pos() + 4 <= old(packet).bytes().len(),
            r matches Ok(c) ==> chunk_bytes(c.seq, c.data@) == old(packet).rest()
                && final(packet).pos() == old(packet).bytes().len(),
    {
        proof {
            packet.lemma_wf();
        }
        let seq = packet.decode_u32()?;
        let remaining = packet.remaining();
        let data = packet.read_bytes(remaining)?;
        proof {
            assert(chunk_bytes(seq, data@) =~= old(packet).rest());
        }
        Ok(Chunk { seq, data })
    }
}

/// Whether `decode_query` accepts `data` with API character `api` and the
/// sender's window size `w`.
pub open spec fn query_packet_ok(data: Seq<u8>, w: u16, api: char) -> bool {
    let n = 4 + byte_count((w - 1) as nat);
    (api == 't' || api == 'p') && n <= data.len() && query_tail_ok(api, data.skip(n as int))
}

/// Whether `decode_response` accepts `data` with this end's window size `w`.
pub open spec fn response_packet_ok(data: Seq<u8>, w: u16) -> bool {
    let n = 4 + byte_count((w - 1) as nat);
    n <= data.len() && (data.len() == n || data.len() >= n + 4)
}

/// The bytes that a query packet carries after its acknowledgement.
pub open spec fn query_tail_ok(api: char, tail: Seq<u8>) -> bool {
    api == 'p' || (api == 't' && tail.len() >= 4)
}

impl Packet {
    /// Encode as a transfer query: the API character, `t` with a chunk or
    /// `p` without one, and the bytes for the query name. A query without
    /// a chunk carries a random number, so that resolvers do not answer it
    /// from their caches.
    pub fn encode_query(&self) -> (r: Result<(char, Vec<u8>), String>)
        ensures
            r matches Ok((api, bytes)) && {
                let a = ack_bytes(self.ack.window_start, self.ack.window_mask@);
                match self.chunk {
                    Some(c) => api == 't' && bytes@ == a + chunk_bytes(c.seq, c.data@),
                    None => api == 'p' && bytes@.len() == a.len() + 8 && bytes@.take(a.len() as int) == a,
                }
            },
    {
        let mut enc = EncPacket::new();
        self.ack.encode(&mut enc);
        let api_code = match &self.chunk {
            Some(chunk) => {
                chunk.encode(&mut enc);
                't'
            },
            None => {
                let ghost before = enc@;
                enc.encode_u64(random_nonce());
                proof {
                    assert(enc@.take(before.len() as int) =~= before);
                }
                'p'
            },
        };
        proof {
            assert(Seq::<u8>::empty() + ack_bytes(self.ack.window_start, self.ack.window_mask@)
                =~= ack_bytes(self.ack.window_start, self.ack.window_mask@));
        }
        Ok((api_code, enc.into_data()))
    }

    /// Decode a transfer query's bytes, given its API character and the
    /// sender's outgoing window size.
    pub fn decode_query(data: &[u8], window_size: u16, api_code: char) -> (r: Result<Packet, String>)
        requires
            window_size >= 1,
        ensures
            ({
                let n = 4 + byte_count((window_size - 1) as nat);
                r is Ok <==> (api_code == 't' || api_code == 'p') && n <= data@.len()
                    && query_tail_ok(api_code, data@.skip(n as int))
            }),
            r matches Ok(p) ==> {
                let n = 4 + byte_count((window_size - 1) as nat);
                &&& be32(p.ack.window_start) == data@.take(4)
                &&& p.ack.window_mask@ == unpack(data@.subrange(4, n as int)).take(window_size - 1)
                &&& (api_code == 'p' ==> p.chunk is None)
                &&& (api_code == 't' ==> (p.chunk matches Some(c) && chunk_bytes(c.seq, c.data@)
                    == data@.skip(n as int)))
            },
    {
        if api_code != 't' && api_code != 'p' {
            return Err("unknown API code".to_owned());
        }
        let mut packet = DecPacket::new(crate::codec::copy_slice(data));
        let ack = Ack::decode(&mut packet, window_size)?;
        proof {
            packet.lemma_wf();
            assert(packet.rest() =~= data@.skip(packet.pos()));
            assert(data@.subrange(0, 4) =~= data@.take(4));
        }
        if api_code == 't' {
            let chunk = Chunk::decode(&mut packet)?;
            Ok(Packet { ack, chunk: Some(chunk) })
        } else {
            Ok(Packet { ack, chunk: None })
        }
    }

    /// Encode for a response body: the acknowledgement, then the chunk if any.
    pub fn encode_response(&self) -> (r: Result<Vec<u8>, String>)
        ensures
            r matches Ok(bytes) && bytes@ == ack_bytes(self.ack.window_start, self.ack.window_mask@)
                + match self.chunk {
                Some(c) => chunk_bytes(c.seq, c.data@),
                None => Seq::<u8>::empty(),
            },
    {
        let mut enc = EncPacket::new();
        self.ack.encode(&mut enc);
        match &self.chunk {
            Some(chunk) => {
                chunk.encode(&mut enc);
            },
            None => {
            },
        }
        proof {
            assert(enc@ =~= ack_bytes(self.ack.window_start, self.ack.window_mask@) + match self.chunk {
                Some(c) => chunk_bytes(c.seq, c.data@),
                None => Seq::<u8>::empty(),
            });
        }
        Ok(enc.into_data())
    }

    /// Decode a response body, given this end's outgoing window size.
    pub fn decode_response(data: &[u8], window_size: u16) -> (r: Result<Packet, String>)
        requires
            window_size >= 1,
        ensures
            ({
                let n = 4 + byte_count((window_size - 1) as nat);
                r is Ok <==> n <= data@.len() && (data@.len() == n || data@.len() >= n + 4)
            }),
            r matches Ok(p) ==> {
                let n = 4 + byte_count((window_size - 1) as nat);
                &&& be32(p.ack.window_start) == data@.take(4)
                &&& p.ack.window_mask@ == unpack(data@.subrange(4, n as int)).take(window_size - 1)
                &&& (data@.len() == n ==> p.chunk is None)
                &&& (data@.len() > n ==> (p.chunk matches Some(c) && chunk_bytes(c.seq, c.data@)
                    == data@.skip(n as int)))
            },
    {
        let mut packet = DecPacket::new(crate::codec::copy_slice(data));
        let ack = Ack::decode(&mut packet, window_size)?;
        proof {
            packet.lemma_wf();
            assert(packet.rest() =~= data@.skip(packet.pos()));
            assert(data@.subrange(0, 4) =~= data@.take(4));
        }
        if packet.remaining() > 0 {
            let chunk = Chunk::decode(&mut packet)?;
            Ok(Packet { ack, chunk: Some(chunk) })
        } else {
            Ok(Packet { ack, chunk: None })
        }
    }
}

/// An acknowledgement's mask reads back unchanged when read with the
/// window size it was made for.
pub proof fn lemma_ack_mask_round_trip(mask: Seq<bool>, window_size: u16)
    requires
        window_size >= 1,
        mask.len() == window_size - 1,
    ensures
        pack(pad8(mask)).len() == byte_count((window_size - 1) as nat),
        unpack(pack(pad8(mask))).take(window_size - 1) == mask,
{
    lemma_pack_len(pad8(mask));
    lemma_unpack_pack(pad8(mask));
    assert(pad8(mask).take(mask.len() as int) =~= mask);
}

/// A response packet decodes to the acknowledgement and chunk it was
/// encoded from, when read with the window size its mask was made for.
pub proof fn lemma_response_round_trip(ws: u32, mask: Seq<bool>, chunk: Option<(u32, Seq<u8>)>, window_size: u16)
    requires
        window_size >= 1,
        mask.len() == window_size - 1,
    ensures
        ({
            let bytes = ack_bytes(ws, mask) + match chunk {
                Some((s, d)) => chunk_bytes(s, d),
                None => Seq::<u8>::empty(),
            };
            let n = 4 + byte_count((window_size - 1) as nat);
            &&& n <= bytes.len()
            &&& (bytes.len() == n || bytes.len() >= n + 4)
            &&& bytes.take(4) == be32(ws)
            &&& unpack(bytes.subrange(4, n as int)).take(window_size - 1) == mask
            &&& (chunk is None <==> bytes.len() == n)
            &&& (chunk matches Some((s, d)) ==> bytes.skip(n as int) == chunk_bytes(s, d))
        }),
{
    lemma_ack_mask_round_trip(mask, window_size);
    let bytes = ack_bytes(ws, mask) + match chunk {
        Some((s, d)) => chunk_bytes(s, d),
        None => Seq::<u8>::empty(),
    };
    let n = 4 + byte_count((window_size - 1) as nat);
    assert(bytes.take(4) =~= be32(ws));
    assert(bytes.subrange(4, n as int) =~= pack(pad8(mask)));
    match chunk {
        Some((s, d)) => {
            assert(bytes.skip(n as int) =~= chunk_bytes(s, d));
        },
        None => {
            assert(bytes =~= ack_bytes(ws, mask));
        },
    }
}

} // verus!
