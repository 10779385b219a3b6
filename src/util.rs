//! Case-insensitive comparison of domain labels.

use vstd::prelude::*;
use crate::domain::Domain;
use crate::message::Message;
use crate::text::{push_char, chars_of};

verus! {

pub open spec fn lower_char(c: char) -> char {
    if 'A' <= c <= 'Z' {
        ((c as u32) + 32) as char
    } else {
        c
    }
}

/// `s` with its ASCII capitals made small.
pub open spec fn lower(s: Seq<char>) -> Seq<char> {
    s.map_values(|c: char| lower_char(c))
}

/// Whether the last labels of `d` are those of `suffix`, ignoring case.
pub open spec fn ends_with_ci(d: Seq<Seq<char>>, suffix: Seq<Seq<char>>) -> bool {
    &&& suffix.len() <= d.len()
    &&& forall|i: int|
        0 <= i < suffix.len() ==> lower(#[trigger] suffix[i]) == lower(
            d[i + d.len() - suffix.len()],
        )
}

fn lower_one(c: char) -> (r: char)
    ensures
        r == lower_char(c),
{
    if 'A' <= c && c <= 'Z' {
        ((c as u8) + 32) as char
    } else {
        c
    }
}

/// A label with its ASCII capitals made small.
pub fn domain_part_lowercase(x: &str) -> (r: String)
    ensures
        r@ == lower(x@),
{
    let cs = chars_of(x);
    let mut res = String::new();
    let mut i: usize = 0;
    while i < cs.len()
        invariant
            cs@ == x@,
            0 <= i <= cs@.len(),
            res@ == lower(cs@.subrange(0, i as int)),
        decreases cs@.len() - i,
    {
        push_char(&mut res, lower_one(cs[i]));
        i = i + 1;
        proof {
            assert(res@ =~= lower(cs@.subrange(0, i as int)));
        }
    }
    proof {
        assert(cs@.subrange(0, cs@.len() as int) =~= cs@);
    }
    res
}

/// Whether two labels are equal, ignoring case.
pub fn domain_part_equal(x: &str, y: &str) -> (r: bool)
    ensures
        r == (lower(x@) == lower(y@)),
{
    let a = domain_part_lowercase(x);
    let b = domain_part_lowercase(y);
    a == b
}

/// Whether `domain` ends with the labels of `suffix`, ignoring case.
pub fn domain_ends_with(domain: &Domain, suffix: &Domain) -> (r: bool)
    ensures
        r == ends_with_ci(domain@, suffix@),
{
    let dp = domain.parts();
    let sp = suffix.parts();
    if dp.len() < sp.len() {
        return false;
    }
    let offset = dp.len() - sp.len();
    let dl = dp.len();
    let mut i: usize = 0;
    while i < sp.len()
        invariant
            dl == dp@.len(),
            crate::domain::strings_view(dp@) == domain@,
            crate::domain::strings_view(sp@) == suffix@,
            offset == dp@.len() - sp@.len(),
            0 <= i <= sp@.len(),
            forall|k: int|
                0 <= k < i ==> lower(#[trigger] suffix@[k]) == lower(
                    domain@[k + domain@.len() - suffix@.len()],
                ),
        decreases sp@.len() - i,
    {
        if !domain_part_equal(sp[i].as_str(), dp[i + offset].as_str()) {
            proof {
                assert(suffix@[i as int] == sp@[i as int]@);
                assert(domain@[i + offset] == dp@[i + offset]@);
            }
            return false;
        }
        proof {
            assert(suffix@[i as int] == sp@[i as int]@);
            assert(domain@[i + offset] == dp@[i + offset]@);
        }
        i = i + 1;
    }
    true
}

/// A query of one question and nothing else, whose first label starts
/// with `prefix`, ignoring case.
pub open spec fn api_query_spec(m: Message, prefix: char) -> bool {
    &&& !m.header.is_response
    &&& m.questions@.len() == 1
    &&& m.answers@.len() == 0
    &&& m.authorities@.len() == 0
    &&& m.additional@.len() == 0
    &&& m.questions@[0].domain@.len() > 0
    &&& m.questions@[0].domain@[0].len() > 0
    &&& lower(m.questions@[0].domain@[0])[0] == prefix
}

/// Whether `m` is a query for the API that `prefix` names.
pub fn is_api_query(m: &Message, prefix: char) -> (r: bool)
    ensures
        r == api_query_spec(*m, prefix),
{
    let is_query = !m.header.is_response && m.questions.len() == 1 && m.answers.len() == 0
        && m.authorities.len() == 0 && m.additional.len() == 0;
    if !is_query {
        return false;
    }
    let parts = m.questions[0].domain.parts();
    if parts.len() == 0 {
        return false;
    }
    proof {
        assert(m.questions@[0].domain@[0] == parts@[0]@);
    }
    let low = chars_of(domain_part_lowercase(parts[0].as_str()).as_str());
    if low.len() == 0 {
        return false;
    }
    low[0] == prefix
}

} // verus!
