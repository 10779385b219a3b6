//! Stateless probes that a client sends to learn what the path between it
//! and the server lets through.

use vstd::prelude::*;
use crate::digest::{sha1_of, sha1_digest};
use crate::domain::{Domain, strings_view, valid_domain, wire_len, join_dots, label_bytes};
use crate::header::Header;
use crate::message::{Message, Question};
use crate::record::{Record, RecordBody, RecordHeader, RecordType};
use crate::record_code::{get_record_code, txt_encode};
use crate::text::{push_char, chars_of, push_decimal, decimal, parse_decimal, parse_u64};
use crate::util::{domain_part_lowercase, is_api_query, api_query_spec, lower};

verus! {

/// The bytes of a name written with dots.
pub open spec fn display_bytes(ls: Seq<Seq<char>>) -> Seq<u8> {
    label_bytes(join_dots(ls))
}

/// The first four bytes of the SHA-1 digest of the name written with dots.
pub fn domain_hash(domain: &Domain) -> (r: [u8; 4])
    ensures
        r@ == sha1_of(display_bytes(domain@)).take(4),
{
    let s = domain.to_string();
    let cs = chars_of(s.as_str());
    let mut bytes: Vec<u8> = Vec::new();
    let mut i: usize = 0;
    while i < cs.len()
        invariant
            0 <= i <= cs@.len(),
            bytes@ == label_bytes(cs@.take(i as int)),
        decreases cs@.len() - i,
    {
        bytes.push(cs[i] as u8);
        i = i + 1;
        proof {
            assert(bytes@ =~= label_bytes(cs@.take(i as int)));
        }
    }
    proof {
        assert(cs@.take(cs@.len() as int) =~= cs@);
    }
    let d = sha1_digest(bytes.as_slice());
    let r = [d[0], d[1], d[2], d[3]];
    proof {
        assert(r@ =~= d@.take(4));
    }
    r
}

/// What a download-generation probe asks for.
#[derive(Debug)]
pub struct DownloadGenQuery {
    pub encoding: String,
    pub len: u16,
    pub bias: u8,
    pub coefficient: u8,
    pub modulus: u8,
}

/// The `i`th generated byte.
pub open spec fn gen_byte(i: nat, bias: u8, coefficient: u8, modulus: u8) -> u8 {
    (((i + bias) * coefficient) % (modulus as int)) as u8
}

/// The labels of a probe before padding.
pub open spec fn gen_labels(q: DownloadGenQuery) -> Seq<Seq<char>> {
    seq![
        seq!['f'] + q.encoding@,
        decimal(q.len as nat),
        decimal(q.bias as nat),
        decimal(q.coefficient as nat),
        decimal(q.modulus as nat),
    ]
}

/// The padding labels that bring a name of `total` bytes to `pad` bytes:
/// `xx` where the parities differ, then `x` labels of two bytes each.
pub open spec fn padding(total: nat, pad: nat) -> Seq<Seq<char>> {
    let t1 = if total % 2 != pad % 2 {
        total + 3
    } else {
        total
    };
    let fix = if total % 2 != pad % 2 {
        seq![seq!['x', 'x']]
    } else {
        Seq::empty()
    };
    let n = if t1 < pad {
        ((pad - t1) / 2) as nat
    } else {
        0
    };
    fix + Seq::new(n, |i: int| seq!['x'])
}

/// The length that the name reaches before any `x` label.
pub open spec fn padded_base(total: nat, pad: nat) -> nat {
    if total % 2 != pad % 2 {
        total + 3
    } else {
        total
    }
}

impl DownloadGenQuery {
    /// Read a probe from the labels of its name: `f<encoding>`, then the
    /// length, bias, coefficient and modulus in decimal.
    pub fn from_domain(domain: &Domain) -> (r: Result<DownloadGenQuery, String>)
        ensures
            r is Ok <==> (domain@.len() >= 5 && parse_decimal(domain@[1], 0xffff) is Some
                && parse_decimal(domain@[2], 0xff) is Some && parse_decimal(domain@[3], 0xff) is Some
                && parse_decimal(domain@[4], 0xff) is Some && parse_decimal(domain@[4], 0xff)->0 >= 2),
            r matches Ok(q) ==> {
                &&& q.encoding@ == if domain@[0].len() > 0 {
                    lower(domain@[0]).skip(1)
                } else {
                    Seq::empty()
                }
                &&& parse_decimal(domain@[1], 0xffff) == Some(q.len as nat)
                &&& parse_decimal(domain@[2], 0xff) == Some(q.bias as nat)
                &&& parse_decimal(domain@[3], 0xff) == Some(q.coefficient as nat)
                &&& parse_decimal(domain@[4], 0xff) == Some(q.modulus as nat)
            },
    {
        let parts = domain.parts();
        if parts.len() < 5 {
            return Err("not enough domain parts".to_owned());
        }
        proof {
            assert(domain@[0] == parts@[0]@);
            assert(domain@[1] == parts@[1]@);
            assert(domain@[2] == parts@[2]@);
            assert(domain@[3] == parts@[3]@);
            assert(domain@[4] == parts@[4]@);
        }
        let low = chars_of(domain_part_lowercase(parts[0].as_str()).as_str());
        let mut encoding = String::new();
        let mut i: usize = 1;
        while i < low.len()
            invariant
                1 <= i,
                i <= low@.len() || low@.len() == 0,
                low@.len() > 0 ==> encoding@ == low@.subrange(1, i as int),
                low@.len() == 0 ==> encoding@.len() == 0,
            decreases low@.len() - i,
        {
            push_char(&mut encoding, low[i]);
            i = i + 1;
            proof {
                assert(encoding@ =~= low@.subrange(1, i as int));
            }
        }
        proof {
            if low@.len() > 0 {
                assert(low@.subrange(1, low@.len() as int) =~= low@.skip(1));
            } else {
                assert(encoding@ =~= Seq::<char>::empty());
            }
        }
        let len = parse_u64(parts[1].as_str(), 0xffff);
        let bias = parse_u64(parts[2].as_str(), 0xff);
        let coefficient = parse_u64(parts[3].as_str(), 0xff);
        let modulus = parse_u64(parts[4].as_str(), 0xff);
        match (len, bias, coefficient, modulus) {
            (Some(l), Some(b), Some(c), Some(m)) => {
                if m < 2 {
                    return Err("invalid number in domain".to_owned());
                }
                Ok(DownloadGenQuery {
                    encoding,
                    len: l as u16,
                    bias: b as u8,
                    coefficient: c as u8,
                    modulus: m as u8,
                })
            },
            _ => Err("invalid number in domain".to_owned()),
        }
    }

    /// The bytes the probe asks for: byte `i` is `((i + bias) * coefficient) mod modulus`.
    pub fn generated_data(&self) -> (r: Vec<u8>)
        requires
            self.modulus >= 1,
        ensures
            r@.len() == self.len,
            forall|i: int|
                0 <= i < r@.len() ==> r@[i] == gen_byte(
                    i as nat,
                    self.bias,
                    self.coefficient,
                    self.modulus,
                ),
    {
        let mut result: Vec<u8> = Vec::new();
        let mut i: u16 = 0;
        while i < self.len
            invariant
                self.modulus >= 1,
                0 <= i <= self.len,
                result@.len() == i,
                forall|k: int|
                    0 <= k < i ==> result@[k] == gen_byte(
                        k as nat,
                        self.bias,
                        self.coefficient,
                        self.modulus,
                    ),
            decreases self.len - i,
        {
            let sum = (i as u64) + (self.bias as u64);
            proof {
                assert(sum * (self.coefficient as u64) <= 0x10100 * 0xff) by (nonlinear_arith)
                    requires
                        sum <= 0x10100,
                        self.coefficient <= 0xff,
                ;
            }
            let value = sum * (self.coefficient as u64) % (self.modulus as u64);
            result.push(value as u8);
            i = i + 1;
        }
        result
    }

    /// The name for this probe under `host`, padded with `x` labels to
    /// exactly `pad_to_len` bytes of wire form.
    pub fn to_domain(&self, host: &Domain, pad_to_len: usize) -> (r: Result<Domain, String>)
        requires
            wire_len(gen_labels(*self) + host@) + 3 <= usize::MAX,
        ensures
            ({
                let base = gen_labels(*self);
                let total = wire_len(base + host@);
                let labels = base + padding(total, pad_to_len as nat) + host@;
                &&& r is Ok <==> padded_base(total, pad_to_len as nat) <= pad_to_len
                    && valid_domain(labels)
                &&& r matches Ok(d) ==> d@ == labels
            }),
    {
        let mut parts: Vec<String> = Vec::new();
        let mut first = String::new();
        push_char(&mut first, 'f');
        let enc = chars_of(self.encoding.as_str());
        let mut i: usize = 0;
        while i < enc.len()
            invariant
                0 <= i <= enc@.len(),
                enc@ == self.encoding@,
                first@ == seq!['f'] + enc@.take(i as int),
            decreases enc@.len() - i,
        {
            push_char(&mut first, enc[i]);
            i = i + 1;
            proof {
                assert(first@ =~= seq!['f'] + enc@.take(i as int));
            }
        }
        proof {
            assert(enc@.take(enc@.len() as int) =~= enc@);
        }
        parts.push(first);
        let mut s1 = String::new();
        push_decimal(&mut s1, self.len as u64);
        parts.push(s1);
        let mut s2 = String::new();
        push_decimal(&mut s2, self.bias as u64);
        parts.push(s2);
        let mut s3 = String::new();
        push_decimal(&mut s3, self.coefficient as u64);
        parts.push(s3);
        let mut s4 = String::new();
        push_decimal(&mut s4, self.modulus as u64);
        parts.push(s4);
        proof {
            assert(strings_view(parts@) =~= gen_labels(*self));
        }
        let ghost base = gen_labels(*self);
        let total0 = crate::domain::wire_len_of(&parts, host);
        let ghost total = total0 as nat;
        let mut total_bytes = total0;
        let ghost fixpart: Seq<Seq<char>> = Seq::empty();
        if total_bytes % 2 != pad_to_len % 2 {
            let mut xx = String::new();
            push_char(&mut xx, 'x');
            push_char(&mut xx, 'x');
            proof {
                assert(xx@ =~= seq!['x', 'x']);
                fixpart = seq![seq!['x', 'x']];
            }
            let ghost pv = strings_view(parts@);
            parts.push(xx);
            proof {
                assert(strings_view(parts@) =~= pv.push(xx@));
            }
            total_bytes = total_bytes + 3;
        }
        let ghost fixed = strings_view(parts@);
        proof {
            assert(fixed =~= base + fixpart);
        }
        let mut n: usize = 0;
        while total_bytes < pad_to_len
            invariant
                total_bytes == padded_base(total, pad_to_len as nat) + 2 * n,
                total_bytes % 2 == pad_to_len % 2,
                n > 0 ==> total_bytes <= pad_to_len,
                fixed == base + fixpart,
                fixpart == (if total % 2 != pad_to_len % 2 {
                    seq![seq!['x', 'x']]
                } else {
                    Seq::<Seq<char>>::empty()
                }),
                strings_view(parts@) == fixed + Seq::new(n as nat, |i: int| seq!['x']),
            decreases pad_to_len - total_bytes,
        {
            let mut x = String::new();
            push_char(&mut x, 'x');
            let ghost pv = strings_view(parts@);
            parts.push(x);
            n = n + 1;
            total_bytes = total_bytes + 2;
            proof {
                assert(x@ =~= seq!['x']);
                assert(strings_view(parts@) =~= pv.push(x@));
                assert(strings_view(parts@) =~= fixed + Seq::new(n as nat, |i: int| seq!['x']));
            }
        }
        if total_bytes > pad_to_len {
            return Err("target length is too short".to_owned());
        }
        proof {
            assert(fixpart + Seq::new(n as nat, |i: int| seq!['x']) =~= padding(total, pad_to_len as nat));
            assert(strings_view(parts@) =~= base + padding(total, pad_to_len as nat));
        }
        let hp = host.parts();
        let mut k: usize = 0;
        let ghost pre = strings_view(parts@);
        while k < hp.len()
            invariant
                strings_view(hp@) == host@,
                0 <= k <= hp@.len(),
                strings_view(parts@) == pre + host@.take(k as int),
            decreases hp@.len() - k,
        {
            let s = hp[k].clone();
            let ghost pv = strings_view(parts@);
            parts.push(s);
            k = k + 1;
            proof {
                assert(s@ == hp@[k - 1]@);
                assert(strings_view(parts@) =~= pv.push(s@));
                assert(host@.take(k as int) =~= host@.take(k - 1).push(host@[k - 1]));
                assert(strings_view(parts@) =~= pre + host@.take(k as int));
            }
        }
        proof {
            assert(host@.take(host@.len() as int) =~= host@);
        }
        Domain::from_parts(parts)
    }
}

/// A discovery query asking for a domain hash.
pub open spec fn is_domain_hash_spec(m: Message) -> bool {
    api_query_spec(m, 'f') && m.questions@[0].record_type == RecordType::A
}

/// A discovery query asking for generated data.
pub open spec fn is_download_gen_spec(m: Message) -> bool {
    api_query_spec(m, 'f') && m.questions@[0].record_type == RecordType::TXT
}

/// Whether `query` is a domain-hash probe.
pub fn is_domain_hash_query(query: &Message) -> (r: bool)
    ensures
        r == is_domain_hash_spec(*query),
{
    is_api_query(query, 'f') && query.questions[0].record_type == RecordType::A
}

/// Whether `query` is a download-generation probe.
pub fn is_download_gen_query(query: &Message) -> (r: bool)
    ensures
        r == is_download_gen_spec(*query),
{
    is_api_query(query, 'f') && query.questions[0].record_type == RecordType::TXT
}

/// The answer to a one-question query: the query's header marked as a
/// response with one answer, its question, and the answer record with a
/// time to live of zero.
pub(crate) fn answer_query(query: &Message, body: RecordBody) -> (r: Message)
    requires
        query.questions@.len() == 1,
    ensures
        r.header == (Header { is_response: true, answer_count: 1, ..query.header }),
        r.questions@.len() == 1,
        r.questions@[0].domain@ == query.questions@[0].domain@,
        r.questions@[0].record_type == query.questions@[0].record_type,
        r.questions@[0].record_class == query.questions@[0].record_class,
        r.answers@.len() == 1,
        r.answers@[0].header.domain@ == query.questions@[0].domain@,
        r.answers@[0].header.record_type == query.questions@[0].record_type,
        r.answers@[0].header.record_class == query.questions@[0].record_class,
        r.answers@[0].header.ttl == 0,
        r.answers@[0].body == body,
        r.authorities@.len() == 0,
        r.additional@.len() == 0,
{
    let question = &query.questions[0];
    let mut header = query.header;
    header.answer_count = 1;
    header.is_response = true;
    let mut questions: Vec<Question> = Vec::new();
    questions.push(
        Question {
            domain: question.domain.clone(),
            record_type: question.record_type,
            record_class: question.record_class,
        },
    );
    let mut answers: Vec<Record> = Vec::new();
    answers.push(
        Record {
            header: RecordHeader {
                domain: question.domain.clone(),
                record_type: question.record_type,
                record_class: question.record_class,
                ttl: 0,
            },
            body,
        },
    );
    Message { header, questions, answers, authorities: Vec::new(), additional: Vec::new() }
}

/// The response to a domain-hash probe: an A record holding the first four
/// bytes of the SHA-1 digest of the queried name.
pub fn domain_hash_response(query: &Message) -> (r: Result<Message, String>)
    ensures
        r is Ok <==> is_domain_hash_spec(*query),
        r matches Ok(m) ==> m.header == (Header { is_response: true, answer_count: 1, ..query.header })
            && m.answers@.len() == 1 && m.answers@[0].header.ttl == 0
            && m.answers@[0].header.domain@ == query.questions@[0].domain@
            && m.answers@[0].header.record_type == RecordType::A
            && m.answers@[0].header.record_class == query.questions@[0].record_class
            && m.questions@.len() == 1 && m.questions@[0].domain@ == query.questions@[0].domain@
            && m.questions@[0].record_type == query.questions@[0].record_type
            && m.questions@[0].record_class == query.questions@[0].record_class
            && m.authorities@.len() == 0 && m.additional@.len() == 0
            && (m.answers@[0].body matches RecordBody::A(a) && a@ == sha1_of(
            display_bytes(query.questions@[0].domain@),
        ).take(4)),
{
    if !is_domain_hash_query(query) {
        return Err("not a domain hash query".to_owned());
    }
    let hash = domain_hash(&query.questions[0].domain);
    Ok(answer_query(query, RecordBody::A(hash)))
}

/// The response to a download-generation probe: the generated bytes in a
/// TXT record, in the record code the name asks for.
pub fn download_gen_response(query: &Message) -> (r: Result<Message, String>)
    ensures
        r is Ok ==> is_download_gen_spec(*query),
        r matches Ok(m) ==> m.header == (Header { is_response: true, answer_count: 1, ..query.header })
            && m.answers@.len() == 1 && m.answers@[0].header.ttl == 0
            && m.answers@[0].header.domain@ == query.questions@[0].domain@,
        r matches Ok(m) ==> exists|q: DownloadGenQuery|
            #[trigger] gen_query_of(query.questions@[0].domain@, q) && (m.answers@[0].body matches RecordBody::Unknown(
                b,
            ) && b@ == txt_encode(gen_bytes(q))),
        is_download_gen_spec(*query) ==> (r is Ok <==> exists|q: DownloadGenQuery|
            #[trigger] gen_query_of(query.questions@[0].domain@, q) && q.encoding@ == "raw"@),
{
    if !is_download_gen_query(query) {
        return Err("not a download generation query".to_owned());
    }
    let question = &query.questions[0];
    let parsed = match DownloadGenQuery::from_domain(&question.domain) {
        Ok(q) => q,
        Err(e) => {
            proof {
                assert forall|q: DownloadGenQuery| !gen_query_of(question.domain@, q) by {}
            }
            return Err(e);
        },
    };
    let code = match get_record_code(question.record_type, parsed.encoding.as_str()) {
        Some(c) => c,
        None => {
            proof {
                assert forall|q: DownloadGenQuery| gen_query_of(question.domain@, q) implies q.encoding@
                    != "raw"@ by {
                    assert(q.encoding@ == parsed.encoding@);
                }
            }
            return Err("no record code found".to_owned());
        },
    };
    let data = parsed.generated_data();
    let body = match code.encode_body(data.as_slice()) {
        Ok(b) => b,
        Err(e) => {
            return Err(e);
        },
    };
    proof {
        assert(gen_query_of(question.domain@, parsed));
        assert(data@ =~= gen_bytes(parsed));
    }
    Ok(answer_query(query, body))
}

/// The bytes that probe `q` asks for.
pub open spec fn gen_bytes(q: DownloadGenQuery) -> Seq<u8> {
    Seq::new(q.len as nat, |i: int| gen_byte(i as nat, q.bias, q.coefficient, q.modulus))
}

/// `q` is what the labels `ls` of a probe ask for.
pub open spec fn gen_query_of(ls: Seq<Seq<char>>, q: DownloadGenQuery) -> bool {
    &&& ls.len() >= 5
    &&& q.encoding@ == (if ls[0].len() > 0 {
        lower(ls[0]).skip(1)
    } else {
        Seq::empty()
    })
    &&& parse_decimal(ls[1], 0xffff) == Some(q.len as nat)
    &&& parse_decimal(ls[2], 0xff) == Some(q.bias as nat)
    &&& parse_decimal(ls[3], 0xff) == Some(q.coefficient as nat)
    &&& parse_decimal(ls[4], 0xff) == Some(q.modulus as nat)
    &&& q.modulus >= 2
}

} // verus!
