//! The fixed twelve-byte header of a DNS message.

use vstd::prelude::*;
use crate::bits::{BitWriter, BitReader, bits_of, value_of, lemma_bits_len, lemma_value_of_bits, two_pow};
use crate::codec::{EncPacket, DecPacket, be16};

verus! {

#[derive(PartialEq, Eq, Structural, Clone, Copy, Debug)]
pub enum Opcode {
    Query,
    IQuery,
    Status,
    Notify,
    Update,
    Unknown,
}

#[derive(PartialEq, Eq, Structural, Clone, Copy, Debug)]
pub enum ResponseCode {
    NoError,
    FormatError,
    ServerFailure,
    NXDomain,
    NotImplemented,
    Refused,
    YXDomain,
    YXRRSet,
    NXRRSet,
    NotAuth,
    NotZone,
    Unknown,
}

#[derive(PartialEq, Eq, Structural, Clone, Copy, Debug)]
pub struct Header {
    pub identifier: u16,
    pub is_response: bool,
    pub opcode: Opcode,
    pub authoritative: bool,
    pub truncated: bool,
    pub recursion_desired: bool,
    pub recursion_available: bool,
    pub response_code: ResponseCode,
    pub question_count: u16,
    pub answer_count: u16,
    pub authority_count: u16,
    pub additional_count: u16,
}

pub open spec fn opcode_value(o: Opcode) -> Option<nat> {
    match o {
        Opcode::Query => Some(0),
        Opcode::IQuery => Some(1),
        Opcode::Status => Some(2),
        Opcode::Notify => Some(4),
        Opcode::Update => Some(5),
        Opcode::Unknown => None,
    }
}

pub open spec fn opcode_of(v: nat) -> Opcode {
    if v == 0 {
        Opcode::Query
    } else if v == 1 {
        Opcode::IQuery
    } else if v == 2 {
        Opcode::Status
    } else if v == 4 {
        Opcode::Notify
    } else if v == 5 {
        Opcode::Update
    } else {
        Opcode::Unknown
    }
}

pub open spec fn rcode_value(c: ResponseCode) -> Option<nat> {
    match c {
        ResponseCode::NoError => Some(0),
        ResponseCode::FormatError => Some(1),
        ResponseCode::ServerFailure => Some(2),
        ResponseCode::NXDomain => Some(3),
        ResponseCode::NotImplemented => Some(4),
        ResponseCode::Refused => Some(5),
        ResponseCode::YXDomain => Some(6),
        ResponseCode::YXRRSet => Some(7),
        ResponseCode::NXRRSet => Some(8),
        ResponseCode::NotAuth => Some(9),
        ResponseCode::NotZone => Some(10),
        ResponseCode::Unknown => None,
    }
}

pub open spec fn rcode_of(v: nat) -> ResponseCode {
    if v == 0 {
        ResponseCode::NoError
    } else if v == 1 {
        ResponseCode::FormatError
    } else if v == 2 {
        ResponseCode::ServerFailure
    } else if v == 3 {
        ResponseCode::NXDomain
    } else if v == 4 {
        ResponseCode::NotImplemented
    } else if v == 5 {
        ResponseCode::Refused
    } else if v == 6 {
        ResponseCode::YXDomain
    } else if v == 7 {
        ResponseCode::YXRRSet
    } else if v == 8 {
        ResponseCode::NXRRSet
    } else if v == 9 {
        ResponseCode::NotAuth
    } else if v == 10 {
        ResponseCode::NotZone
    } else {
        ResponseCode::Unknown
    }
}

impl Opcode {
    /// The four-bit value of a known opcode.
    pub fn encode(&self) -> (r: Result<u64, String>)
        ensures
            match opcode_value(*self) {
                Some(v) => r matches Ok(x) && x == v,
                None => r is Err,
            },
    {
        match *self {
            Opcode::Query => Ok(0),
            Opcode::IQuery => Ok(1),
            Opcode::Status => Ok(2),
            Opcode::Notify => Ok(4),
            Opcode::Update => Ok(5),
            Opcode::Unknown => Err("unknown opcode".to_owned()),
        }
    }

    pub fn decode(value: u64) -> (r: Opcode)
        ensures
            r == opcode_of(value as nat),
    {
        if value == 0 {
            Opcode::Query
        } else if value == 1 {
            Opcode::IQuery
        } else if value == 2 {
            Opcode::Status
        } else if value == 4 {
            Opcode::Notify
        } else if value == 5 {
            Opcode::Update
        } else {
            Opcode::Unknown
        }
    }
}

impl ResponseCode {
    /// The four-bit value of a known response code.
    pub fn encode(&self) -> (r: Result<u64, String>)
        ensures
            match rcode_value(*self) {
                Some(v) => r matches Ok(x) && x == v,
                None => r is Err,
            },
    {
        match *self {
            ResponseCode::NoError => Ok(0),
            ResponseCode::FormatError => Ok(1),
            ResponseCode::ServerFailure => Ok(2),
            ResponseCode::NXDomain => Ok(3),
            ResponseCode::NotImplemented => Ok(4),
            ResponseCode::Refused => Ok(5),
            ResponseCode::YXDomain => Ok(6),
            ResponseCode::YXRRSet => Ok(7),
            ResponseCode::NXRRSet => Ok(8),
            ResponseCode::NotAuth => Ok(9),
            ResponseCode::NotZone => Ok(10),
            ResponseCode::Unknown => Err("unknown response code".to_owned()),
        }
    }

    pub fn decode(value: u64) -> (r: ResponseCode)
        ensures
            r == rcode_of(value as nat),
    {
        if value == 0 {
            ResponseCode::NoError
        } else if value == 1 {
            ResponseCode::FormatError
        } else if value == 2 {
            ResponseCode::ServerFailure
        } else if value == 3 {
            ResponseCode::NXDomain
        } else if value == 4 {
            ResponseCode::NotImplemented
        } else if value == 5 {
            ResponseCode::Refused
        } else if value == 6 {
            ResponseCode::YXDomain
        } else if value == 7 {
            ResponseCode::YXRRSet
        } else if value == 8 {
            ResponseCode::NXRRSet
        } else if value == 9 {
            ResponseCode::NotAuth
        } else if value == 10 {
            ResponseCode::NotZone
        } else {
            ResponseCode::Unknown
        }
    }
}

/// The sixteen flag bits of a header, most significant first: response,
/// opcode, the four one-bit flags, three zero bits and the response code.
pub open spec fn flag_bits(h: Header, op: nat, rc: nat) -> Seq<bool> {
    seq![h.is_response] + bits_of(op, 4) + seq![
        h.authoritative,
        h.truncated,
        h.recursion_desired,
        h.recursion_available,
    ] + bits_of(0, 3) + bits_of(rc, 4)
}

/// The wire form of a header with a known opcode and response code.
pub open spec fn header_bytes(h: Header) -> Seq<u8> {
    be16(h.identifier) + be16(
        value_of(flag_bits(h, opcode_value(h.opcode)->0, rcode_value(h.response_code)->0)) as u16,
    ) + be16(h.question_count) + be16(h.answer_count) + be16(h.authority_count) + be16(
        h.additional_count,
    )
}

/// The header that the twelve bytes at the start of `b` spell.
pub open spec fn header_of(b: Seq<u8>) -> Header {
    let f = bits_of((b[2] as nat) * 256 + b[3] as nat, 16);
    Header {
        identifier: ((b[0] as nat) * 256 + b[1] as nat) as u16,
        is_response: f[0],
        opcode: opcode_of(value_of(f.subrange(1, 5))),
        authoritative: f[5],
        truncated: f[6],
        recursion_desired: f[7],
        recursion_available: f[8],
        response_code: rcode_of(value_of(f.subrange(12, 16))),
        question_count: ((b[4] as nat) * 256 + b[5] as nat) as u16,
        answer_count: ((b[6] as nat) * 256 + b[7] as nat) as u16,
        authority_count: ((b[8] as nat) * 256 + b[9] as nat) as u16,
        additional_count: ((b[10] as nat) * 256 + b[11] as nat) as u16,
    }
}

proof fn lemma_two_pow_16()
    ensures
        two_pow(16) == 0x10000,
        two_pow(4) == 16,
{
    reveal_with_fuel(two_pow, 17);
}

impl Header {
    /// The flag bits packed into one word.
    fn flags_word(&self, op: u64, rc: u64) -> (r: u16)
        requires
            op < 16,
            rc < 16,
        ensures
            r as nat == value_of(flag_bits(*self, op as nat, rc as nat)),
    {
        let mut flags = BitWriter::new();
        flags.write_bit(self.is_response);
        flags.write_bits(op, 4);
        proof {
            lemma_bits_len(op as nat, 4);
        }
        flags.write_bit(self.authoritative);
        flags.write_bit(self.truncated);
        flags.write_bit(self.recursion_desired);
        flags.write_bit(self.recursion_available);
        flags.write_bits(0, 3);
        proof {
            lemma_bits_len(0, 3);
        }
        flags.write_bits(rc, 4);
        proof {
            lemma_bits_len(rc as nat, 4);
            assert(flags@ =~= flag_bits(*self, op as nat, rc as nat));
            crate::bits::lemma_value_bound(flags@);
            lemma_two_pow_16();
        }
        flags.value() as u16
    }

    /// Append the wire form; fails on an unknown opcode or response code.
    pub fn encode(&self, packet: &mut EncPacket) -> (r: Result<(), String>)
        ensures
            r is Ok <==> opcode_value(self.opcode) is Some && rcode_value(self.response_code) is Some,
            r is Ok ==> final(packet)@ == old(packet)@ + header_bytes(*self),
            r is Err ==> final(packet)@ == old(packet)@,
    {
        let op = self.opcode.encode()?;
        let rc = self.response_code.encode()?;
        let v = self.flags_word(op, rc);
        packet.encode_u16(self.identifier);
        packet.encode_u16(v);
        packet.encode_u16(self.question_count);
        packet.encode_u16(self.answer_count);
        packet.encode_u16(self.authority_count);
        packet.encode_u16(self.additional_count);
        proof {
            assert(packet@ =~= old(packet)@ + header_bytes(*self));
        }
        Ok(())
    }

    /// Read a header; the reserved bits are ignored and unknown codes read
    /// as `Unknown`.
    pub fn decode(packet: &mut DecPacket) -> (r: Result<Header, String>)
        requires
            old(packet).wf(),
        ensures
            final(packet).wf(),
            final(packet).bytes() == old(packet).bytes(),
            r is Ok <==> old(packet).pos() + 12 <= old(packet).bytes().len(),
            r matches Ok(h) ==> h == header_of(old(packet).rest()) && final(packet).pos()
                == old(packet).pos() + 12,
    {
        proof {
            packet.lemma_wf();
        }
        let ghost b = old(packet).rest();
        if packet.remaining() < 12 {
            return Err("buffer underflow".to_owned());
        }
        let identifier = packet.decode_u16()?;
        let word = packet.decode_u16()?;
        let mut flags = BitReader::new(word as u64, 16);
        let ghost f = bits_of(word as nat, 16);
        proof {
            lemma_bits_len(word as nat, 16);
        }
        let is_response = flags.read_bit().unwrap();
        let opv = flags.read_bits(4).unwrap();
        let authoritative = flags.read_bit().unwrap();
        let truncated = flags.read_bit().unwrap();
        let recursion_desired = flags.read_bit().unwrap();
        let recursion_available = flags.read_bit().unwrap();
        let _reserved = flags.read_bits(3).unwrap();
        let rcv = flags.read_bits(4).unwrap();
        proof {
            assert(f.skip(1).take(4) =~= f.subrange(1, 5));
            assert(f.skip(1).skip(4).skip(1).skip(1).skip(1).skip(1).skip(3).take(4) =~= f.subrange(12, 16));
            assert(f.skip(1).skip(4)[0] == f[5]);
            assert(f.skip(1).skip(4).skip(1)[0] == f[6]);
            assert(f.skip(1).skip(4).skip(1).skip(1)[0] == f[7]);
            assert(f.skip(1).skip(4).skip(1).skip(1).skip(1)[0] == f[8]);
        }
        let question_count = packet.decode_u16()?;
        let answer_count = packet.decode_u16()?;
        let authority_count = packet.decode_u16()?;
        let additional_count = packet.decode_u16()?;
        let h = Header {
            identifier,
            is_response,
            opcode: Opcode::decode(opv),
            authoritative,
            truncated,
            recursion_desired,
            recursion_available,
            response_code: ResponseCode::decode(rcv),
            question_count,
            answer_count,
            authority_count,
            additional_count,
        };
        proof {
            assert(be16(identifier) == b.subrange(0, 2));
            assert(be16(word) == b.subrange(2, 4));
            assert(be16(question_count) == b.subrange(4, 6));
            assert(be16(answer_count) == b.subrange(6, 8));
            assert(be16(authority_count) == b.subrange(8, 10));
            assert(be16(additional_count) == b.subrange(10, 12));
            assert(b.subrange(0, 2)[0] == b[0] && b.subrange(0, 2)[1] == b[1]);
            assert(b.subrange(2, 4)[0] == b[2] && b.subrange(2, 4)[1] == b[3]);
            assert(b.subrange(4, 6)[0] == b[4] && b.subrange(4, 6)[1] == b[5]);
            assert(b.subrange(6, 8)[0] == b[6] && b.subrange(6, 8)[1] == b[7]);
            assert(b.subrange(8, 10)[0] == b[8] && b.subrange(8, 10)[1] == b[9]);
            assert(b.subrange(10, 12)[0] == b[10] && b.subrange(10, 12)[1] == b[11]);
        }
        Ok(h)
    }
}

/// A header with a known opcode and response code reads back unchanged.
pub proof fn lemma_header_round_trip(h: Header)
    requires
        opcode_value(h.opcode) is Some,
        rcode_value(h.response_code) is Some,
    ensures
        header_bytes(h).len() == 12,
        header_of(header_bytes(h)) == h,
{
    let op = opcode_value(h.opcode)->0;
    let rc = rcode_value(h.response_code)->0;
    let fb = flag_bits(h, op, rc);
    lemma_bits_len(op, 4);
    lemma_bits_len(0, 3);
    lemma_bits_len(rc, 4);
    assert(fb.len() == 16);
    crate::bits::lemma_value_bound(fb);
    lemma_two_pow_16();
    let v = value_of(fb);
    crate::bits::lemma_bits_of_value(fb);
    let b = header_bytes(h);
    assert(b[2] as nat * 256 + b[3] as nat == v);
    let f = bits_of((b[2] as nat) * 256 + b[3] as nat, 16);
    assert(f == fb);
    assert(f.subrange(1, 5) =~= bits_of(op, 4));
    assert(f.subrange(12, 16) =~= bits_of(rc, 4));
    lemma_value_of_bits(op, 4);
    lemma_value_of_bits(rc, 4);
    assert(header_of(b) == h);
}

} // verus!
