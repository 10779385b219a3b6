//! Carrying raw bytes in the labels of a query name, as hexadecimal.

use vstd::prelude::*;
use crate::domain::{Domain, strings_view, valid_domain};
use crate::text::{push_char, chars_of, push_decimal, decimal, parse_decimal, parse_u64, is_digit, digits_value};
use crate::util::{domain_ends_with, ends_with_ci};

verus! {

pub open spec fn hex_digit(n: nat) -> char {
    if n < 10 {
        ((n + 48) as u32) as char
    } else {
        ((n + 87) as u32) as char
    }
}

/// The two lowercase hexadecimal digits of `b`.
pub open spec fn hex_byte(b: u8) -> Seq<char> {
    seq![hex_digit((b / 16) as nat), hex_digit((b % 16) as nat)]
}

/// `d` in lowercase hexadecimal, two digits per byte.
pub open spec fn hex(d: Seq<u8>) -> Seq<char>
    decreases d.len(),
{
    if d.len() == 0 {
        Seq::empty()
    } else {
        hex(d.drop_last()) + hex_byte(d.last())
    }
}

/// The value of a hexadecimal digit of either case.
pub open spec fn hex_val(c: char) -> Option<nat> {
    if '0' <= c <= '9' {
        Some(((c as u32) - 48) as nat)
    } else if 'a' <= c <= 'f' {
        Some(((c as u32) - 87) as nat)
    } else if 'A' <= c <= 'F' {
        Some(((c as u32) - 55) as nat)
    } else {
        None
    }
}

/// The bytes that the hexadecimal string `s` spells, where it spells any.
pub open spec fn unhex(s: Seq<char>) -> Option<Seq<u8>>
    decreases s.len(),
{
    if s.len() == 0 {
        Some(Seq::empty())
    } else if s.len() == 1 {
        None
    } else {
        match (hex_val(s[s.len() - 2]), hex_val(s[s.len() - 1]), unhex(s.take(s.len() - 2))) {
            (Some(a), Some(b), Some(prev)) => Some(prev.push((a * 16 + b) as u8)),
            _ => None,
        }
    }
}

/// `s` cut into labels of 63 characters, the last one shorter; none for
/// an empty `s`.
pub open spec fn split63(s: Seq<char>) -> Seq<Seq<char>>
    decreases s.len(),
{
    if s.len() == 0 {
        Seq::empty()
    } else if s.len() > 63 {
        seq![s.take(63)] + split63(s.skip(63))
    } else {
        seq![s]
    }
}

/// The labels of `ls` written one after another.
pub open spec fn concat(ls: Seq<Seq<char>>) -> Seq<char>
    decreases ls.len(),
{
    if ls.len() == 0 {
        Seq::empty()
    } else {
        concat(ls.drop_last()) + ls.last()
    }
}

/// The labels of a transfer query name: the API character and the session
/// number, the data, then the server's zone.
pub open spec fn query_labels(api: char, sess: u16, data: Seq<u8>, host: Seq<Seq<char>>) -> Seq<
    Seq<char>,
> {
    seq![seq![api] + decimal(sess as nat)] + split63(hex(data)) + host
}

/// What a transfer query name carries: API character, session and data.
pub open spec fn query_of_labels(name: Seq<Seq<char>>, host: Seq<Seq<char>>) -> Option<
    (char, u16, Seq<u8>),
> {
    if !ends_with_ci(name, host) || name.len() < host.len() + 1 || name[0].len() == 0 {
        None
    } else {
        match (
            parse_decimal(name[0].skip(1), 0xffff),
            unhex(concat(name.subrange(1, name.len() - host.len()))),
        ) {
            (Some(sess), Some(data)) => Some((name[0][0], sess as u16, data)),
            _ => None,
        }
    }
}

/// Encodes data in labels as lowercase hexadecimal.
pub struct HexNameCode;

/// The name code called `name`.
pub fn get_name_code(name: &str) -> (r: Option<HexNameCode>)
    ensures
        r is Some <==> name@ == "b16"@,
{
    proof {
        reveal_strlit("b16");
    }
    if name.unicode_len() == 3 && name.get_char(0) == 'b' && name.get_char(1) == '1'
        && name.get_char(2) == '6' {
        proof {
            assert(name@ =~= "b16"@);
        }
        Some(HexNameCode)
    } else {
        None
    }
}

fn hex_char(n: u8) -> (r: char)
    requires
        n < 16,
    ensures
        r == hex_digit(n as nat),
{
    if n < 10 {
        (n + 48) as char
    } else {
        (n + 87) as char
    }
}

fn hex_value(c: char) -> (r: Option<u8>)
    ensures
        r matches Some(v) ==> hex_val(c) == Some(v as nat) && v < 16,
        r is None ==> hex_val(c) is None,
{
    if '0' <= c && c <= '9' {
        Some((c as u32 - 48) as u8)
    } else if 'a' <= c && c <= 'f' {
        Some((c as u32 - 87) as u8)
    } else if 'A' <= c && c <= 'F' {
        Some((c as u32 - 55) as u8)
    } else {
        None
    }
}

/// A string holding `cs[a..b]`.
fn string_of_range(cs: &Vec<char>, a: usize, b: usize) -> (r: String)
    requires
        a <= b <= cs@.len(),
    ensures
        r@ == cs@.subrange(a as int, b as int),
{
    let mut s = String::new();
    let mut i = a;
    while i < b
        invariant
            a <= i <= b,
            b <= cs@.len(),
            s@ == cs@.subrange(a as int, i as int),
        decreases b - i,
    {
        push_char(&mut s, cs[i]);
        i = i + 1;
        proof {
            assert(s@ =~= cs@.subrange(a as int, i as int));
        }
    }
    s
}


impl HexNameCode {
    /// The data as labels of hexadecimal digits.
    pub fn encode_parts(&self, data: &[u8]) -> (r: Result<Vec<String>, String>)
        ensures
            r matches Ok(v) && strings_view(v@) == split63(hex(data@)),
    {
        let mut cs: Vec<char> = Vec::new();
        let mut i: usize = 0;
        while i < data.len()
            invariant
                0 <= i <= data@.len(),
                cs@ == hex(data@.take(i as int)),
            decreases data@.len() - i,
        {
            let b = data[i];
            cs.push(hex_char(b / 16));
            cs.push(hex_char(b % 16));
            i = i + 1;
            proof {
                assert(data@.take(i as int).drop_last() =~= data@.take(i - 1));
                assert(cs@ =~= hex(data@.take(i as int)));
            }
        }
        proof {
            assert(data@.take(data@.len() as int) =~= data@);
        }
        let mut parts: Vec<String> = Vec::new();
        let mut at: usize = 0;
        let n = cs.len();
        proof {
            assert(cs@.skip(0) =~= cs@);
            assert(strings_view(parts@) + split63(cs@) =~= split63(cs@));
        }
        while n - at > 63
            invariant
                n == cs@.len(),
                0 <= at <= n,
                strings_view(parts@) + split63(cs@.skip(at as int)) == split63(cs@),
            decreases n - at,
        {
            let ghost pv = strings_view(parts@);
            let ghost rest = cs@.skip(at as int);
            parts.push(string_of_range(&cs, at, at + 63));
            proof {
                assert(cs@.subrange(at as int, at + 63) =~= rest.take(63));
                assert(rest.skip(63) =~= cs@.skip(at + 63));
                assert(strings_view(parts@) + split63(cs@.skip(at + 63)) =~= pv + split63(rest));
            }
            at = at + 63;
        }
        let ghost pv = strings_view(parts@);
        if at < n {
            parts.push(string_of_range(&cs, at, n));
            proof {
                assert(cs@.subrange(at as int, n as int) =~= cs@.skip(at as int));
                assert(strings_view(parts@) =~= pv + split63(cs@.skip(at as int)));
            }
        } else {
            proof {
                assert(cs@.skip(at as int) =~= Seq::<char>::empty());
                assert(pv + split63(cs@.skip(at as int)) =~= pv);
            }
        }
        proof {
            assert(cs@.skip(0) =~= cs@);
        }
        Ok(parts)
    }

    /// The data spelled by hexadecimal labels.
    pub fn decode_parts(&self, parts: &[String]) -> (r: Result<Vec<u8>, String>)
        ensures
            match unhex(concat(strings_view(parts@))) {
                Some(d) => r matches Ok(v) && v@ == d,
                None => r is Err,
            },
    {
        let mut cs: Vec<char> = Vec::new();
        let mut i: usize = 0;
        while i < parts.len()
            invariant
                0 <= i <= parts@.len(),
                cs@ == concat(strings_view(parts@).take(i as int)),
            decreases parts@.len() - i,
        {
            let mut more = chars_of(parts[i].as_str());
            cs.append(&mut more);
            i = i + 1;
            proof {
                assert(strings_view(parts@).take(i as int).drop_last() =~= strings_view(parts@).take(
                    i - 1,
                ));
                assert(cs@ =~= concat(strings_view(parts@).take(i as int)));
            }
        }
        proof {
            assert(strings_view(parts@).take(parts@.len() as int) =~= strings_view(parts@));
        }
        if cs.len() % 2 != 0 {
            proof {
                lemma_unhex_odd(cs@);
            }
            return Err("invalid data length".to_owned());
        }
        let mut data: Vec<u8> = Vec::new();
        let mut k: usize = 0;
        while k < cs.len() / 2
            invariant
                cs@ == concat(strings_view(parts@)),
                cs@.len() % 2 == 0,
                0 <= k <= cs@.len() / 2,
                unhex(cs@.take(2 * k)) == Some(data@),
            decreases cs@.len() / 2 - k,
        {
            let hi = hex_value(cs[2 * k]);
            let lo = hex_value(cs[2 * k + 1]);
            proof {
                let t = cs@.take(2 * k + 2);
                assert(t.take(2 * k) =~= cs@.take(2 * k));
                assert(t[2 * k] == cs@[2 * k]);
                assert(t[2 * k + 1] == cs@[2 * k + 1]);
            }
            match (hi, lo) {
                (Some(a), Some(b)) => {
                    data.push(a * 16 + b);
                    k = k + 1;
                },
                _ => {
                    proof {
                        let t = cs@.take(2 * k + 2);
                        assert(hex_val(t[2 * k]) is None || hex_val(t[2 * k + 1]) is None);
                        assert(unhex(t) is None);
                        lemma_unhex_prefix_fails(cs@, 2 * k + 2);
                    }
                    return Err("invalid hex byte".to_owned());
                },
            }
        }
        proof {
            assert(cs@.take(cs@.len() as int) =~= cs@);
        }
        Ok(data)
    }

    /// The name for a transfer query: label `{api_flag}{sess_id}`, the data's
    /// labels, then the labels of `host`.
    pub fn encode_domain(&self, api_flag: char, sess_id: u16, data: &[u8], host: &Domain) -> (r:
        Result<Domain, String>)
        ensures
            r is Ok <==> valid_domain(query_labels(api_flag, sess_id, data@, host@)),
            r matches Ok(d) ==> d@ == query_labels(api_flag, sess_id, data@, host@),
    {
        let mut first = String::new();
        push_char(&mut first, api_flag);
        push_decimal(&mut first, sess_id as u64);
        let mut parts: Vec<String> = Vec::new();
        parts.push(first);
        let mut labels = match self.encode_parts(data) {
            Ok(v) => v,
            Err(e) => {
                return Err(e);
            },
        };
        let ghost pv = strings_view(parts@);
        let ghost lv = strings_view(labels@);
        parts.append(&mut labels);
        proof {
            assert(strings_view(parts@) =~= pv + lv);
        }
        let hp = host.parts();
        let mut i: usize = 0;
        let ghost base = strings_view(parts@);
        while i < hp.len()
            invariant
                strings_view(hp@) == host@,
                0 <= i <= hp@.len(),
                strings_view(parts@) == base + host@.take(i as int),
            decreases hp@.len() - i,
        {
            let ghost before = strings_view(parts@);
            let s = hp[i].clone();
            parts.push(s);
            i = i + 1;
            proof {
                assert(s@ == hp@[i - 1]@);
                assert(strings_view(parts@) =~= before.push(s@));
                assert(host@.take(i as int) =~= host@.take(i - 1).push(host@[i - 1]));
                assert(strings_view(parts@) =~= base + host@.take(i as int));
            }
        }
        proof {
            assert(host@.take(host@.len() as int) =~= host@);
            assert(seq![seq![api_flag] + decimal(sess_id as nat)] =~= pv);
        }
        Domain::from_parts(parts)
    }

    /// The API character, session and data of a transfer query name under `host`.
    pub fn decode_domain(&self, name: &Domain, host: &Domain) -> (r: Result<(char, u16, Vec<u8>), String>)
        ensures
            match query_of_labels(name@, host@) {
                Some((api, sess, data)) => r matches Ok((a, s, v)) && a == api && s == sess && v@ == data,
                None => r is Err,
            },
    {
        if !domain_ends_with(name, host) {
            return Err("incorrect host domain".to_owned());
        }
        let np = name.parts();
        let hl = host.parts().len();
        if np.len() - hl < 1 {
            return Err("not enough data".to_owned());
        }
        let first = chars_of(np[0].as_str());
        proof {
            assert(name@[0] == np@[0]@);
        }
        if first.len() == 0 {
            return Err("invalid session ID".to_owned());
        }
        let api_code = first[0];
        let tail = string_of_range(&first, 1, first.len());
        proof {
            assert(tail@ =~= name@[0].skip(1));
        }
        let sess_id = match parse_u64(tail.as_str(), 0xffff) {
            Some(v) => v as u16,
            None => {
                return Err("invalid session ID".to_owned());
            },
        };
        let interior = &np[1..np.len() - hl];
        proof {
            assert(strings_view(interior@) =~= name@.subrange(1, name@.len() - host@.len()));
        }
        let data = self.decode_parts(interior)?;
        Ok((api_code, sess_id, data))
    }
}

proof fn lemma_unhex_odd(s: Seq<char>)
    requires
        s.len() % 2 == 1,
    ensures
        unhex(s) is None,
    decreases s.len(),
{
    if s.len() > 1 {
        lemma_unhex_odd(s.take(s.len() - 2));
    }
}

/// Where a prefix of even length spells nothing, neither does the whole.
proof fn lemma_unhex_prefix_fails(s: Seq<char>, k: int)
    requires
        s.len() % 2 == 0,
        0 <= k <= s.len(),
        k % 2 == 0,
        unhex(s.take(k)) is None,
    ensures
        unhex(s) is None,
    decreases s.len() - k,
{
    if k < s.len() {
        let t = s.take(k + 2);
        assert(t.take(k) =~= s.take(k));
        lemma_unhex_prefix_fails(s, k + 2);
    } else {
        assert(s.take(k) =~= s);
    }
}

proof fn lemma_decimal(n: nat)
    ensures
        decimal(n).len() > 0,
        forall|i: int| 0 <= i < decimal(n).len() ==> is_digit(#[trigger] decimal(n)[i]),
        digits_value(decimal(n)) == n,
    decreases n,
{
    assert(crate::text::digit_char(n % 10) as u32 == n % 10 + 48);
    if n >= 10 {
        lemma_decimal(n / 10);
        let d = decimal(n);
        assert(d.last() == crate::text::digit_char(n % 10));
        assert(d.drop_last() == decimal(n / 10));
        assert(digits_value(d) == 10 * digits_value(d.drop_last()) + ((d.last() as u32) - 48) as nat);
        assert(digits_value(d) == 10 * (n / 10) + n % 10);
        assert(d.drop_last() =~= decimal(n / 10));
        assert forall|i: int| 0 <= i < d.len() implies is_digit(#[trigger] d[i]) by {
            if i < d.len() - 1 {
                assert(d[i] == decimal(n / 10)[i]);
            }
        }
    } else {
        let d = decimal(n);
        assert(d.drop_last() =~= Seq::<char>::empty());
        assert(digits_value(d.drop_last()) == 0);
        assert(d.last() == crate::text::digit_char(n % 10));
        assert(digits_value(d) == ((d.last() as u32) - 48) as nat);
    }
}

proof fn lemma_concat_prepend(a: Seq<char>, ls: Seq<Seq<char>>)
    ensures
        concat(seq![a] + ls) == a + concat(ls),
    decreases ls.len(),
{
    if ls.len() == 0 {
        assert((seq![a] + ls).drop_last() =~= Seq::<Seq<char>>::empty());
        assert((seq![a] + ls).last() == a);
        assert(concat(Seq::<Seq<char>>::empty()) == Seq::<char>::empty());
        assert(concat(ls) == Seq::<char>::empty());
        assert(a + Seq::<char>::empty() =~= a);
        assert(Seq::<char>::empty() + a =~= a);
    } else {
        lemma_concat_prepend(a, ls.drop_last());
        assert((seq![a] + ls).drop_last() =~= seq![a] + ls.drop_last());
        assert((seq![a] + ls).last() == ls.last());
        assert(a + concat(ls.drop_last()) + ls.last() =~= a + (concat(ls.drop_last()) + ls.last()));
    }
}

proof fn lemma_concat_split63(s: Seq<char>)
    ensures
        concat(split63(s)) == s,
    decreases s.len(),
{
    if s.len() > 63 {
        lemma_concat_split63(s.skip(63));
        lemma_concat_prepend(s.take(63), split63(s.skip(63)));
        assert(s.take(63) + s.skip(63) =~= s);
    } else if s.len() > 0 {
        assert(seq![s].drop_last() =~= Seq::<Seq<char>>::empty());
        assert(seq![s].last() == s);
        assert(concat(Seq::<Seq<char>>::empty()) == Seq::<char>::empty());
        assert(Seq::<char>::empty() + s =~= s);
    } else {
        assert(s =~= Seq::<char>::empty());
    }
}

proof fn lemma_unhex_hex(d: Seq<u8>)
    ensures
        unhex(hex(d)) == Some(d),
        hex(d).len() == 2 * d.len(),
    decreases d.len(),
{
    if d.len() > 0 {
        lemma_unhex_hex(d.drop_last());
        let h = hex(d);
        let b = d.last();
        assert(h.take(h.len() - 2) =~= hex(d.drop_last()));
        assert(h[h.len() - 2] == hex_digit((b / 16) as nat));
        assert(h[h.len() - 1] == hex_digit((b % 16) as nat));
        assert(hex_val(hex_digit((b / 16) as nat)) == Some((b / 16) as nat));
        assert(hex_val(hex_digit((b % 16) as nat)) == Some((b % 16) as nat));
        assert(d.drop_last().push(b) =~= d);
    }
}

/// A transfer query name reads back as the API character, session and data
/// it was made from, wherever it forms a valid name.
pub proof fn lemma_name_code_round_trip(api: char, sess: u16, data: Seq<u8>, host: Seq<Seq<char>>)
    requires
        valid_domain(query_labels(api, sess, data, host)),
    ensures
        query_of_labels(query_labels(api, sess, data, host), host) == Some((api, sess, data)),
{
    let first = seq![api] + decimal(sess as nat);
    let parts = split63(hex(data));
    let name = query_labels(api, sess, data, host);
    lemma_decimal(sess as nat);
    assert forall|i: int| 0 <= i < host.len() implies crate::util::lower(#[trigger] host[i])
        == crate::util::lower(name[i + name.len() - host.len()]) by {
        assert(name[i + name.len() - host.len()] == host[i]);
    }
    assert(name[0] == first);
    assert(first.skip(1) =~= decimal(sess as nat));
    assert(name.subrange(1, name.len() - host.len()) =~= parts);
    lemma_concat_split63(hex(data));
    lemma_unhex_hex(data);
}

} // verus!
