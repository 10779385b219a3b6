//! Carrying raw bytes in the body of a record.

use vstd::prelude::*;
use crate::codec::{EncPacket, DecPacket};
use crate::record::{RecordBody, RecordType};

verus! {

/// `d` cut into runs of at most 255 bytes, each after its length.
pub open spec fn txt_runs(d: Seq<u8>) -> Seq<u8>
    decreases d.len(),
{
    if d.len() == 0 {
        Seq::empty()
    } else if d.len() >= 255 {
        seq![255u8] + d.take(255) + txt_runs(d.skip(255))
    } else {
        seq![d.len() as u8] + d
    }
}

/// The TXT form of `d`: its runs, or one empty run where `d` is empty.
pub open spec fn txt_encode(d: Seq<u8>) -> Seq<u8> {
    if d.len() == 0 {
        seq![0u8]
    } else {
        txt_runs(d)
    }
}

/// The bytes of the runs in `b`, where `b` is a whole number of runs.
pub open spec fn txt_decode(b: Seq<u8>) -> Option<Seq<u8>>
    decreases b.len(),
{
    if b.len() == 0 {
        Some(Seq::empty())
    } else if 1 + b[0] > b.len() {
        None
    } else {
        match txt_decode(b.skip(1 + b[0])) {
            Some(rest) => Some(b.subrange(1, 1 + b[0]) + rest),
            None => None,
        }
    }
}

/// Puts raw bytes into TXT records, as runs of at most 255 bytes.
pub struct RawTxtCode;

/// The record code for `record_type` and the name `name`.
pub fn get_record_code(record_type: RecordType, name: &str) -> (r: Option<RawTxtCode>)
    ensures
        r is Some <==> record_type == RecordType::TXT && name@ == "raw"@,
{
    proof {
        reveal_strlit("raw");
    }
    match record_type {
        RecordType::TXT => {
            if name.unicode_len() == 3 && name.get_char(0) == 'r' && name.get_char(1) == 'a'
                && name.get_char(2) == 'w' {
                proof {
                    assert(name@ =~= "raw"@);
                }
                Some(RawTxtCode)
            } else {
                None
            }
        },
        _ => None,
    }
}

impl RawTxtCode {
    /// A TXT body holding `data`.
    pub fn encode_body(&self, data: &[u8]) -> (r: Result<RecordBody, String>)
        ensures
            r matches Ok(RecordBody::Unknown(b)) && b@ == txt_encode(data@),
    {
        let mut out = EncPacket::new();
        if data.len() == 0 {
            out.encode_u8(0);
            proof {
                assert(out@ =~= seq![0u8]);
            }
            return Ok(RecordBody::Unknown(out.into_data()));
        }
        let mut i: usize = 0;
        proof {
            assert(data@.skip(0) =~= data@);
            assert(out@ + txt_runs(data@) =~= txt_runs(data@));
        }
        while data.len() - i >= 255
            invariant
                0 <= i <= data@.len(),
                out@ + txt_runs(data@.skip(i as int)) == txt_runs(data@),
            decreases data@.len() - i,
        {
            let ghost before = out@;
            let ghost rest = data@.skip(i as int);
            out.encode_u8(255);
            out.encode_bytes(&data[i..i + 255]);
            proof {
                assert(data@.subrange(i as int, i + 255) =~= rest.take(255));
                assert(rest.skip(255) =~= data@.skip(i + 255));
                assert(out@ + txt_runs(data@.skip(i + 255)) =~= before + txt_runs(rest));
            }
            i = i + 255;
        }
        if i < data.len() {
            let ghost before = out@;
            let ghost rest = data@.skip(i as int);
            out.encode_u8((data.len() - i) as u8);
            out.encode_bytes(&data[i..data.len()]);
            proof {
                assert(data@.subrange(i as int, data@.len() as int) =~= rest);
                assert(out@ =~= before + txt_runs(rest));
            }
        } else {
            proof {
                assert(data@.skip(i as int) =~= Seq::<u8>::empty());
                assert(out@ + Seq::<u8>::empty() =~= out@);
            }
        }
        Ok(RecordBody::Unknown(out.into_data()))
    }

    /// The bytes held in a TXT body.
    pub fn decode_body(&self, body: &RecordBody) -> (r: Result<Vec<u8>, String>)
        ensures
            body matches RecordBody::Unknown(b) ==> match txt_decode(b@) {
                Some(d) => r matches Ok(v) && v@ == d,
                None => r is Err,
            },
            !(body is Unknown) ==> r is Err,
    {
        match body {
            RecordBody::Unknown(data) => {
                let mut packet = DecPacket::new(crate::codec::copy_bytes(data));
                let mut result: Vec<u8> = Vec::new();
                proof {
                    assert(packet.rest() =~= data@);
                    if txt_decode(data@) is Some {
                        assert(result@ + txt_decode(data@)->0 =~= txt_decode(data@)->0);
                    }
                }
                loop
                    invariant
                        body matches RecordBody::Unknown(b) && b@ == data@,
                        packet.wf(),
                        packet.bytes() == data@,
                        txt_decode(data@) == match txt_decode(packet.rest()) {
                            Some(d) => Some(result@ + d),
                            None => None,
                        },
                    decreases packet.bytes().len() - packet.pos(),
                {
                    proof {
                        packet.lemma_wf();
                    }
                    if packet.remaining() == 0 {
                        proof {
                            assert(packet.rest() =~= Seq::<u8>::empty());
                            assert(result@ + Seq::<u8>::empty() =~= result@);
                        }
                        assert(txt_decode(Seq::<u8>::empty()) == Some(Seq::<u8>::empty()));
                        assert(txt_decode(data@) == Some(result@));
                        return Ok(result);
                    }
                    let ghost rest = packet.rest();
                    let ghost start_pos = packet.pos();
                    let n = packet.decode_u8()?;
                    proof {
                        assert(packet.pos() == start_pos + 1);
                        assert(n == data@[start_pos]);
                        assert(rest[0] == n);
                    }
                    let run = packet.read_bytes(n as usize);
                    match run {
                        Err(e) => {
                            proof {
                                assert(rest.len() == data@.len() - start_pos);
                                assert(1 + rest[0] > rest.len());
                                assert(txt_decode(rest) is None);
                            }
                            return Err(e);
                        },
                        Ok(mut bytes) => {
                            let ghost pre = result@;
                            let ghost got = bytes@;
                            result.append(&mut bytes);
                            proof {
                                packet.lemma_wf();
                                assert(rest.skip(1 + n) =~= packet.rest());
                                assert(got == data@.subrange(start_pos + 1, start_pos + 1 + n));
                                assert(rest.subrange(1, 1 + n) =~= got);
                                let inner = txt_decode(packet.rest());
                                if inner is Some {
                                    assert(pre + (got + inner->0) =~= result@ + inner->0);
                                }
                            }
                        },
                    }
                }
            },
            _ => Err("unexpected record type".to_owned()),
        }
    }
}

/// The TXT form of any bytes reads back as the same bytes.
pub proof fn lemma_txt_round_trip(d: Seq<u8>)
    ensures
        txt_decode(txt_encode(d)) == Some(d),
{
    if d.len() == 0 {
        let e = seq![0u8];
        assert(e.skip(1) =~= Seq::<u8>::empty());
        assert(e.subrange(1, 1) =~= Seq::<u8>::empty());
        assert(txt_decode(Seq::<u8>::empty()) == Some(Seq::<u8>::empty()));
        assert(e.subrange(1, 1) + Seq::<u8>::empty() =~= d);
    } else {
        lemma_txt_runs_round_trip(d);
    }
}

proof fn lemma_txt_runs_round_trip(d: Seq<u8>)
    ensures
        txt_decode(txt_runs(d)) == Some(d),
    decreases d.len(),
{
    if d.len() == 0 {
    } else if d.len() >= 255 {
        let e = txt_runs(d);
        assert(e[0] == 255);
        lemma_txt_runs_round_trip(d.skip(255));
        assert(e.skip(256) =~= txt_runs(d.skip(255)));
        assert(e.subrange(1, 256) =~= d.take(255));
        assert(d.take(255) + d.skip(255) =~= d);
    } else {
        let e = txt_runs(d);
        assert(e[0] == d.len());
        assert(e.skip(1 + d.len() as int) =~= Seq::<u8>::empty());
        assert(txt_decode(Seq::<u8>::empty()) == Some(Seq::<u8>::empty()));
        assert(e.subrange(1, 1 + d.len() as int) =~= d);
        assert(d + Seq::<u8>::empty() =~= d);
    }
}

} // verus!
