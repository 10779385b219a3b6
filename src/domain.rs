//! Domain names: validated sequences of labels, and their wire form.

use vstd::prelude::*;
use crate::text::{push_char, chars_of};
use crate::codec::{EncPacket, DecPacket, copy_bytes};

verus! {

pub open spec fn is_letter(c: char) -> bool {
    ('a' <= c <= 'z') || ('A' <= c <= 'Z')
}

pub open spec fn is_label_char(c: char) -> bool {
    is_letter(c) || ('0' <= c <= '9') || c == '-'
}

/// A label: 1 to 63 letters, digits and hyphens, starting with a letter
/// or digit and not ending with a hyphen.
pub open spec fn valid_label(l: Seq<char>) -> bool {
    &&& 1 <= l.len() <= 63
    &&& (is_letter(l[0]) || ('0' <= l[0] <= '9'))
    &&& l.last() != '-'
    &&& forall|i: int| 0 <= i < l.len() ==> is_label_char(#[trigger] l[i])
}

/// The length of the uncompressed wire form of `ls`.
pub open spec fn wire_len(ls: Seq<Seq<char>>) -> nat
    decreases ls.len(),
{
    if ls.len() == 0 {
        1
    } else {
        ls[0].len() + 1 + wire_len(ls.drop_first())
    }
}

/// A name of valid labels whose wire form takes at most 255 bytes.
pub open spec fn valid_domain(ls: Seq<Seq<char>>) -> bool {
    &&& forall|i: int| 0 <= i < ls.len() ==> valid_label(#[trigger] ls[i])
    &&& wire_len(ls) <= 255
}

/// The labels of `ls` joined by dots.
pub open spec fn join_dots(ls: Seq<Seq<char>>) -> Seq<char>
    decreases ls.len(),
{
    if ls.len() == 0 {
        Seq::empty()
    } else if ls.len() == 1 {
        ls[0]
    } else {
        join_dots(ls.drop_last()).push('.') + ls.last()
    }
}

/// The pieces of `s` between dots.
pub open spec fn split_dots(s: Seq<char>) -> Seq<Seq<char>>
    decreases s.len(),
{
    if s.len() == 0 {
        seq![Seq::empty()]
    } else if s.last() == '.' {
        split_dots(s.drop_last()).push(Seq::empty())
    } else {
        let p = split_dots(s.drop_last());
        p.update(p.len() - 1, p.last().push(s.last()))
    }
}

pub proof fn lemma_split_nonempty(s: Seq<char>)
    ensures
        split_dots(s).len() >= 1,
    decreases s.len(),
{
    if s.len() > 0 {
        lemma_split_nonempty(s.drop_last());
    }
}

pub open spec fn strings_view(v: Seq<String>) -> Seq<Seq<char>> {
    v.map_values(|s: String| s@)
}

/// A domain name, kept with the case of its letters.
#[derive(Debug)]
pub struct Domain {
    labels: Vec<String>,
}

impl View for Domain {
    type V = Seq<Seq<char>>;

    closed spec fn view(&self) -> Seq<Seq<char>> {
        strings_view(self.labels@)
    }
}

impl Domain {
    /// Every domain name is valid: its labels and its length.
    #[verifier::type_invariant]
    spec fn inv(self) -> bool {
        valid_domain(strings_view(self.labels@))
    }
}

impl Clone for Domain {
    fn clone(&self) -> (r: Domain)
        ensures
            r@ == self@,
    {
        let mut v: Vec<String> = Vec::new();
        let mut i: usize = 0;
        while i < self.labels.len()
            invariant
                0 <= i <= self.labels@.len(),
                v@.len() == i,
                strings_view(v@) == strings_view(self.labels@.subrange(0, i as int)),
            decreases self.labels@.len() - i,
        {
            let s = self.labels[i].clone();
            let ghost pv = v@;
            v.push(s);
            i = i + 1;
            proof {
                assert(v@ == pv.push(s));
                assert(s@ == self.labels@[i - 1]@);
                let a = strings_view(v@);
                let b = strings_view(self.labels@.subrange(0, i as int));
                let c = strings_view(pv);
                let d = strings_view(self.labels@.subrange(0, i - 1));
                assert(a.len() == b.len());
                assert forall|k: int| 0 <= k < a.len() implies a[k] == b[k] by {
                    if k < i - 1 {
                        assert(c[k] == d[k]);
                    }
                }
                assert(a =~= b);
            }
        }
        proof {
            assert(self.labels@.subrange(0, self.labels@.len() as int) =~= self.labels@);
            use_type_invariant(self);
        }
        Domain { labels: v }
    }
}

impl PartialEq for Domain {
    fn eq(&self, o: &Domain) -> (r: bool)
        ensures
            r == (self@ == o@),
    {
        if self.labels.len() != o.labels.len() {
            proof {
                assert(self@.len() == self.labels@.len());
                assert(o@.len() == o.labels@.len());
            }
            return false;
        }
        let mut i: usize = 0;
        while i < self.labels.len()
            invariant
                self.labels@.len() == o.labels@.len(),
                0 <= i <= self.labels@.len(),
                forall|k: int| 0 <= k < i ==> self.labels@[k]@ == o.labels@[k]@,
            decreases self.labels@.len() - i,
        {
            if self.labels[i] != o.labels[i] {
                proof {
                    assert(self@[i as int] == self.labels@[i as int]@);
                    assert(o@[i as int] == o.labels@[i as int]@);
                }
                return false;
            }
            i = i + 1;
        }
        proof {
            assert(self@ =~= o@);
        }
        true
    }
}

impl vstd::std_specs::cmp::PartialEqSpecImpl for Domain {
    open spec fn obeys_eq_spec() -> bool {
        true
    }

    open spec fn eq_spec(&self, o: &Domain) -> bool {
        self@ == o@
    }
}

impl Eq for Domain {
}

/// Check one label.
pub fn check_label(label: &String) -> (r: bool)
    ensures
        r == valid_label(label@),
{
    let cs = chars_of(label.as_str());
    if cs.len() == 0 || cs.len() > 63 {
        return false;
    }
    let c0 = cs[0];
    if !(('a' <= c0 && c0 <= 'z') || ('A' <= c0 && c0 <= 'Z') || ('0' <= c0 && c0 <= '9')) {
        return false;
    }
    if cs[cs.len() - 1] == '-' {
        return false;
    }
    let mut i: usize = 0;
    while i < cs.len()
        invariant
            cs@ == label@,
            0 <= i <= cs@.len(),
            forall|k: int| 0 <= k < i ==> is_label_char(#[trigger] cs@[k]),
        decreases cs@.len() - i,
    {
        let c = cs[i];
        if !(('a' <= c && c <= 'z') || ('A' <= c && c <= 'Z') || ('0' <= c && c <= '9') || c
            == '-') {
            return false;
        }
        i = i + 1;
    }
    true
}

proof fn lemma_wire_len_split(ls: Seq<Seq<char>>, k: int)
    requires
        0 <= k <= ls.len(),
    ensures
        wire_len(ls) == wire_len(ls.subrange(k, ls.len() as int)) + wire_len(ls.subrange(0, k)) - 1,
    decreases k,
{
    if k > 0 {
        lemma_wire_len_split(ls.drop_first(), k - 1);
        assert(ls.drop_first().subrange(k - 1, ls.len() - 1) =~= ls.subrange(k, ls.len() as int));
        assert(ls.subrange(0, k).drop_first() =~= ls.drop_first().subrange(0, k - 1));
        assert(ls.subrange(0, k)[0] == ls[0]);
    } else {
        assert(ls.subrange(0, 0) =~= Seq::<Seq<char>>::empty());
        assert(ls.subrange(0, ls.len() as int) =~= ls);
    }
}

pub proof fn lemma_wire_len_push(ls: Seq<Seq<char>>, l: Seq<char>)
    ensures
        wire_len(ls.push(l)) == wire_len(ls) + l.len() + 1,
    decreases ls.len(),
{
    reveal_with_fuel(wire_len, 2);
    if ls.len() > 0 {
        lemma_wire_len_push(ls.drop_first(), l);
        assert(ls.push(l).drop_first() =~= ls.drop_first().push(l));
        assert(ls.push(l)[0] == ls[0]);
    } else {
        assert(ls.push(l).drop_first() =~= Seq::<Seq<char>>::empty());
        assert(ls.push(l)[0] == l);
    }
}

impl Domain {
    /// Build a name from its labels, which must be valid.
    pub fn from_parts(labels: Vec<String>) -> (r: Result<Domain, String>)
        ensures
            r is Ok <==> valid_domain(strings_view(labels@)),
            r matches Ok(d) ==> d@ == strings_view(labels@),
    {
        let mut total: usize = 1;
        let mut i: usize = 0;
        while i < labels.len()
            invariant
                0 <= i <= labels@.len(),
                total == wire_len(strings_view(labels@.subrange(0, i as int))),
                total <= 255,
                forall|k: int| 0 <= k < i ==> valid_label(#[trigger] labels@[k]@),
            decreases labels@.len() - i,
        {
            if !check_label(&labels[i]) {
                proof {
                    assert(strings_view(labels@)[i as int] == labels@[i as int]@);
                }
                return Err("invalid domain name label".to_owned());
            }
            proof {
                assert(strings_view(labels@.subrange(0, i + 1)) =~= strings_view(
                    labels@.subrange(0, i as int),
                ).push(labels@[i as int]@));
                lemma_wire_len_push(strings_view(labels@.subrange(0, i as int)), labels@[i as int]@);
            }
            total = total + labels[i].as_str().unicode_len() + 1;
            if total > 255 {
                proof {
                    lemma_wire_len_split(strings_view(labels@), i + 1);
                    assert(strings_view(labels@).subrange(0, i + 1) =~= strings_view(
                        labels@.subrange(0, i + 1),
                    ));
                }
                return Err("domain name is too long".to_owned());
            }
            i = i + 1;
        }
        proof {
            assert(labels@.subrange(0, labels@.len() as int) =~= labels@);
        }
        Ok(Domain { labels })
    }

    /// The labels, in order. They form a valid name.
    pub fn parts(&self) -> (r: &[String])
        ensures
            strings_view(r@) == self@,
            valid_domain(self@),
    {
        proof {
            use_type_invariant(self);
        }
        self.labels.as_slice()
    }

    /// The number of labels. They form a valid name.
    pub fn len(&self) -> (r: usize)
        ensures
            r == self@.len(),
            valid_domain(self@),
    {
        proof {
            use_type_invariant(self);
        }
        self.labels.len()
    }

    /// Parse a name written with dots between its labels.
    pub fn parse(s: &str) -> (r: Result<Domain, String>)
        ensures
            r is Ok <==> valid_domain(split_dots(s@)),
            r matches Ok(d) ==> d@ == split_dots(s@),
    {
        let cs = chars_of(s);
        let mut parts: Vec<String> = Vec::new();
        let mut cur = String::new();
        let mut i: usize = 0;
        while i < cs.len()
            invariant
                cs@ == s@,
                0 <= i <= cs@.len(),
                strings_view(parts@).push(cur@) == split_dots(cs@.subrange(0, i as int)),
            decreases cs@.len() - i,
        {
            let c = cs[i];
            proof {
                assert(cs@.subrange(0, i + 1).drop_last() =~= cs@.subrange(0, i as int));
                lemma_split_nonempty(cs@.subrange(0, i as int));
            }
            if c == '.' {
                let ghost pv = strings_view(parts@);
                let ghost cv = cur@;
                let mut done = String::new();
                std::mem::swap(&mut done, &mut cur);
                parts.push(done);
                proof {
                    assert(strings_view(parts@) =~= pv.push(cv));
                    assert(strings_view(parts@).push(cur@) =~= split_dots(cs@.subrange(0, i + 1)));
                }
            } else {
                push_char(&mut cur, c);
                proof {
                    assert(strings_view(parts@).push(cur@) =~= split_dots(cs@.subrange(0, i + 1)));
                }
            }
            i = i + 1;
        }
        parts.push(cur);
        proof {
            assert(cs@.subrange(0, cs@.len() as int) =~= cs@);
            assert(strings_view(parts@) =~= split_dots(s@));
        }
        Domain::from_parts(parts)
    }

    /// The name written with dots between its labels.
    pub fn to_string(&self) -> (r: String)
        ensures
            r@ == join_dots(self@),
    {
        let mut s = String::new();
        let mut i: usize = 0;
        while i < self.labels.len()
            invariant
                0 <= i <= self.labels@.len(),
                s@ == join_dots(strings_view(self.labels@.subrange(0, i as int))),
            decreases self.labels@.len() - i,
        {
            if i > 0 {
                push_char(&mut s, '.');
            }
            let cs = chars_of(self.labels[i].as_str());
            let ghost mid = s@;
            let mut j: usize = 0;
            while j < cs.len()
                invariant
                    0 <= j <= cs@.len(),
                    s@ == mid + cs@.subrange(0, j as int),
                decreases cs@.len() - j,
            {
                push_char(&mut s, cs[j]);
                j = j + 1;
                proof {
                    assert(s@ =~= mid + cs@.subrange(0, j as int));
                }
            }
            proof {
                let ls = strings_view(self.labels@.subrange(0, i + 1));
                assert(ls.drop_last() =~= strings_view(self.labels@.subrange(0, i as int)));
                assert(cs@.subrange(0, cs@.len() as int) =~= cs@);
                assert(s@ =~= join_dots(ls));
            }
            i = i + 1;
        }
        proof {
            assert(self.labels@.subrange(0, self.labels@.len() as int) =~= self.labels@);
        }
        s
    }
}

/// The bytes of an ASCII label.
pub open spec fn label_bytes(l: Seq<char>) -> Seq<u8> {
    l.map_values(|c: char| c as u8)
}

/// The characters of ASCII bytes.
pub open spec fn ascii_chars(b: Seq<u8>) -> Seq<char> {
    b.map_values(|x: u8| x as char)
}

/// The wire form of `ls` without compression: each label after its length,
/// then a zero byte.
pub open spec fn raw_form(ls: Seq<Seq<char>>) -> Seq<u8>
    decreases ls.len(),
{
    if ls.len() == 0 {
        seq![0u8]
    } else {
        seq![ls[0].len() as u8] + label_bytes(ls[0]) + raw_form(ls.drop_first())
    }
}

/// The highest offset a compression pointer can hold, plus one.
pub const POINTER_LIMIT: usize = 0x4000;

/// Whether `raw` occurs in `buf` at `i`.
pub open spec fn match_at(buf: Seq<u8>, raw: Seq<u8>, i: int) -> bool {
    0 <= i && i + raw.len() <= buf.len() && buf.subrange(i, i + raw.len()) == raw
}

/// The first offset from `i` on, below the pointer limit, where `raw` occurs in `buf`.
pub open spec fn first_match_from(buf: Seq<u8>, raw: Seq<u8>, i: int) -> Option<int>
    decreases 0x4000 - i,
{
    if i < 0 || i >= 0x4000 || i + raw.len() > buf.len() {
        None
    } else if match_at(buf, raw, i) {
        Some(i)
    } else {
        first_match_from(buf, raw, i + 1)
    }
}

/// The wire form of `ls` written after `buf`: each label in turn, until
/// the rest of the name already occurs in `buf`, which a two-byte pointer
/// then stands for.
pub open spec fn compressed(buf: Seq<u8>, ls: Seq<Seq<char>>) -> Seq<u8>
    decreases ls.len(),
{
    if ls.len() == 0 {
        seq![0u8]
    } else {
        match first_match_from(buf, raw_form(ls), 0) {
            Some(i) => seq![(0xc0 + i / 256) as u8, (i % 256) as u8],
            None => {
                let head = seq![ls[0].len() as u8] + label_bytes(ls[0]);
                head + compressed(buf + head, ls.drop_first())
            },
        }
    }
}

/// The labels (as bytes) of the name at `pos` in `buf`, and where it ends.
///
/// A length byte with the two top bits set starts a pointer to an earlier
/// offset, read in the buffer cut at the pointer.
pub open spec fn name_at(buf: Seq<u8>, pos: int) -> Option<(Seq<Seq<u8>>, int)>
    decreases buf.len(), buf.len() - pos,
{
    if pos < 0 || pos >= buf.len() {
        None
    } else {
        let b = buf[pos];
        if b >= 0xc0 {
            if pos + 1 >= buf.len() {
                None
            } else {
                let addr = (b - 0xc0) * 256 + buf[pos + 1];
                if addr < pos {
                    match name_at(buf.subrange(0, pos), addr) {
                        Some((ls, _)) => Some((ls, pos + 2)),
                        None => None,
                    }
                } else {
                    None
                }
            }
        } else if b >= 0x40 {
            None
        } else if b == 0 {
            Some((Seq::empty(), pos + 1))
        } else if pos + 1 + b > buf.len() {
            None
        } else {
            match name_at(buf, pos + 1 + b) {
                Some((ls, end)) => Some((seq![buf.subrange(pos + 1, pos + 1 + b)] + ls, end)),
                None => None,
            }
        }
    }
}

pub open spec fn all_ascii(ls: Seq<Seq<u8>>) -> bool {
    forall|i: int, j: int| 0 <= i < ls.len() && 0 <= j < ls[i].len() ==> #[trigger] ls[i][j] < 128
}

pub open spec fn labels_of_bytes(ls: Seq<Seq<u8>>) -> Seq<Seq<char>> {
    ls.map_values(|b: Seq<u8>| ascii_chars(b))
}

pub open spec fn bytes_view(v: Seq<Vec<u8>>) -> Seq<Seq<u8>> {
    v.map_values(|b: Vec<u8>| b@)
}

/// Whether `raw` occurs at `i` in `buf`.
fn matches_at(buf: &Vec<u8>, raw: &Vec<u8>, i: usize) -> (r: bool)
    requires
        i + raw@.len() <= buf@.len(),
    ensures
        r == match_at(buf@, raw@, i as int),
{
    let bl = buf.len();
    let mut j: usize = 0;
    while j < raw.len()
        invariant
            bl == buf@.len(),
            i + raw@.len() <= buf@.len(),
            0 <= j <= raw@.len(),
            forall|k: int| 0 <= k < j ==> buf@[i + k] == raw@[k],
        decreases raw@.len() - j,
    {
        if buf[i + j] != raw[j] {
            proof {
                assert(buf@.subrange(i as int, i + raw@.len())[j as int] != raw@[j as int]);
            }
            return false;
        }
        j = j + 1;
    }
    proof {
        assert(buf@.subrange(i as int, i + raw@.len()) =~= raw@);
    }
    true
}

proof fn lemma_first_match_skip(buf: Seq<u8>, raw: Seq<u8>, i: int)
    requires
        0 <= i,
        forall|k: int| 0 <= k < i ==> !match_at(buf, raw, k),
    ensures
        first_match_from(buf, raw, 0) == first_match_from(buf, raw, i),
    decreases i,
{
    if i > 0 {
        lemma_first_match_skip(buf, raw, i - 1);
        if i - 1 < 0x4000 && i - 1 + raw.len() <= buf.len() {
            assert(!match_at(buf, raw, i - 1));
        } else {
            lemma_first_match_none(buf, raw, i - 1);
            lemma_first_match_none(buf, raw, i);
        }
    }
}

proof fn lemma_first_match_none(buf: Seq<u8>, raw: Seq<u8>, i: int)
    requires
        i >= 0x4000 || i + raw.len() > buf.len(),
    ensures
        first_match_from(buf, raw, i) is None,
{
}

/// The first offset, below the pointer limit, where `raw` occurs in `buf`.
fn find_match(buf: &Vec<u8>, raw: &Vec<u8>) -> (r: Option<usize>)
    ensures
        r matches Some(i) ==> first_match_from(buf@, raw@, 0) == Some(i as int) && i < 0x4000
            && match_at(buf@, raw@, i as int),
        r is None ==> first_match_from(buf@, raw@, 0) is None,
{
    if raw.len() > buf.len() {
        proof {
            lemma_first_match_none(buf@, raw@, 0);
        }
        return None;
    }
    let last = buf.len() - raw.len();
    let mut i: usize = 0;
    while i <= last && i < POINTER_LIMIT
        invariant
            last == buf@.len() - raw@.len(),
            forall|k: int| 0 <= k < i ==> !match_at(buf@, raw@, k),
        decreases last + 1 - i,
    {
        if matches_at(buf, raw, i) {
            proof {
                lemma_first_match_skip(buf@, raw@, i as int);
            }
            return Some(i);
        }
        i = i + 1;
    }
    proof {
        lemma_first_match_skip(buf@, raw@, i as int);
        lemma_first_match_none(buf@, raw@, i as int);
    }
    None
}

impl Domain {
    /// The uncompressed wire form of the labels from `k` on.
    fn raw_from(&self, k: usize) -> (r: Vec<u8>)
        requires
            k <= self@.len(),
        ensures
            r@ == raw_form(self@.subrange(k as int, self@.len() as int)),
        decreases self@.len() - k,
    {
        if k == self.labels.len() {
            proof {
                assert(self@.subrange(k as int, self@.len() as int) =~= Seq::<Seq<char>>::empty());
            }
            let mut r: Vec<u8> = Vec::new();
            r.push(0);
            proof {
                assert(r@ =~= seq![0u8]);
            }
            return r;
        }
        let cs = chars_of(self.labels[k].as_str());
        let mut r: Vec<u8> = Vec::new();
        r.push(cs.len() as u8);
        let mut j: usize = 0;
        while j < cs.len()
            invariant
                0 <= j <= cs@.len(),
                r@ == seq![cs@.len() as u8] + label_bytes(cs@.subrange(0, j as int)),
            decreases cs@.len() - j,
        {
            r.push(cs[j] as u8);
            j = j + 1;
            proof {
                assert(r@ =~= seq![cs@.len() as u8] + label_bytes(cs@.subrange(0, j as int)));
            }
        }
        let mut tail = self.raw_from(k + 1);
        r.append(&mut tail);
        proof {
            let ls = self@.subrange(k as int, self@.len() as int);
            assert(ls[0] == self@[k as int]);
            assert(self@[k as int] == self.labels@[k as int]@);
            assert(cs@.subrange(0, cs@.len() as int) =~= cs@);
            assert(ls.drop_first() =~= self@.subrange(k + 1, self@.len() as int));
            assert(r@ =~= raw_form(ls));
        }
        r
    }

    /// Write the name at the end of `packet`, pointing back to an earlier
    /// copy of its last labels where the packet holds one. What is written
    /// reads back as the name, whatever follows it.
    pub fn encode(&self, packet: &mut EncPacket)
        ensures
            final(packet)@ == old(packet)@ + compressed(old(packet)@, self@),
            valid_domain(self@),
            all_ascii(labels_bytes(self@)),
            labels_of_bytes(labels_bytes(self@)) == self@,
            forall|after: Seq<u8>|
                #[trigger] name_at(final(packet)@ + after, old(packet)@.len() as int) == Some(
                    (labels_bytes(self@), final(packet)@.len() as int),
                ),
    {
        proof {
            use_type_invariant(self);
        }
        self.write_labels(packet);
        proof {
            lemma_domain_round_trip(old(packet)@, self@, Seq::empty());
            assert forall|after: Seq<u8>|
                #[trigger] name_at(packet@ + after, old(packet)@.len() as int) == Some(
                    (labels_bytes(self@), packet@.len() as int),
                ) by {
                lemma_domain_round_trip(old(packet)@, self@, after);
            }
        }
    }

    /// Write the labels, each literally until the rest of the name already
    /// occurs in the packet.
    fn write_labels(&self, packet: &mut EncPacket)
        ensures
            final(packet)@ == old(packet)@ + compressed(old(packet)@, self@),
    {
        let n = self.labels.len();
        let mut k: usize = 0;
        proof {
            assert(self@.subrange(0, n as int) =~= self@);
        }
        while k < n
            invariant
                n == self@.len(),
                0 <= k <= n,
                old(packet)@ + compressed(old(packet)@, self@) == packet@ + compressed(
                    packet@,
                    self@.subrange(k as int, n as int),
                ),
            decreases n - k,
        {
            let raw = self.raw_from(k);
            let found = find_match(packet.data(), &raw);
            let ghost ls = self@.subrange(k as int, n as int);
            match found {
                Some(i) => {
                    let ghost before = packet@;
                    packet.encode_u8((0xc0 + i / 256) as u8);
                    packet.encode_u8((i % 256) as u8);
                    proof {
                        assert(packet@ =~= before + compressed(before, ls));
                        assert(compressed(packet@, Seq::<Seq<char>>::empty()) == seq![0u8]);
                    }
                    return ;
                },
                None => {
                    let ghost before = packet@;
                    let cs = chars_of(self.labels[k].as_str());
                    packet.encode_u8(cs.len() as u8);
                    let mut j: usize = 0;
                    while j < cs.len()
                        invariant
                            0 <= j <= cs@.len(),
                            packet@ == before + seq![cs@.len() as u8] + label_bytes(
                                cs@.subrange(0, j as int),
                            ),
                        decreases cs@.len() - j,
                    {
                        packet.encode_u8(cs[j] as u8);
                        j = j + 1;
                        proof {
                            assert(packet@ =~= before + seq![cs@.len() as u8] + label_bytes(
                                cs@.subrange(0, j as int),
                            ));
                        }
                    }
                    proof {
                        assert(ls[0] == self@[k as int]);
                        assert(self@[k as int] == self.labels@[k as int]@);
                        assert(cs@.subrange(0, cs@.len() as int) =~= cs@);
                        assert(ls.drop_first() =~= self@.subrange(k + 1, n as int));
                        let head = seq![ls[0].len() as u8] + label_bytes(ls[0]);
                        assert(packet@ =~= before + head);
                        assert(compressed(before, ls) == head + compressed(before + head, ls.drop_first()));
                        assert(before + compressed(before, ls) =~= packet@ + compressed(packet@, ls.drop_first()));
                    }
                },
            }
            k = k + 1;
        }
        packet.encode_u8(0);
        proof {
            assert(self@.subrange(n as int, n as int) =~= Seq::<Seq<char>>::empty());
        }
    }
}

/// Read the labels, as bytes, of the name at the packet's position.
fn read_labels(p: &mut DecPacket) -> (r: Result<Vec<Vec<u8>>, String>)
    requires
        old(p).wf(),
    ensures
        final(p).wf(),
        final(p).bytes() == old(p).bytes(),
        name_at(old(p).bytes(), old(p).pos()) is None ==> r is Err,
        name_at(old(p).bytes(), old(p).pos()) matches Some((ls, end)) ==> r matches Ok(v) && bytes_view(v@)
            == ls && final(p).pos() == end,
    decreases old(p).bytes().len(),
{
    let ghost buf = p.bytes();
    let ghost start = p.pos();
    let mut parts: Vec<Vec<u8>> = Vec::new();
    loop
        invariant
            p.wf(),
            p.bytes() == buf,
            buf == old(p).bytes(),
            start == old(p).pos(),
            name_at(buf, start) == match name_at(buf, p.pos()) {
                Some((ls, end)) => Some((bytes_view(parts@) + ls, end)),
                None => None,
            },
        decreases buf.len() - p.pos(),
    {
        let ghost at = p.pos();
        proof {
            p.lemma_wf();
        }
        let size = p.decode_u8()?;
        proof {
            assert(size == buf[at]);
        }
        if size >= 0xc0 {
            let lower = p.decode_u8()?;
            let addr = ((size - 0xc0) as usize) * 256 + (lower as usize);
            let cur = p.current_offset();
            proof {
                assert(cur == at + 2);
                assert(lower == buf[at + 1]);
            }
            let mut seeked = p.seek(addr, cur - 2)?;
            proof {
                assert(seeked.bytes() == buf.subrange(0, at));
            }
            let tail = read_labels(&mut seeked)?;
            let mut i: usize = 0;
            let ghost pv = bytes_view(parts@);
            while i < tail.len()
                invariant
                    0 <= i <= tail@.len(),
                    bytes_view(parts@) == pv + bytes_view(tail@.subrange(0, i as int)),
                decreases tail@.len() - i,
            {
                let ghost before = parts@;
                let x = copy_bytes(&tail[i]);
                parts.push(x);
                i = i + 1;
                proof {
                    assert(parts@ == before.push(x));
                    assert(bytes_view(parts@) =~= bytes_view(before).push(x@));
                    assert(tail@.subrange(0, i as int) =~= tail@.subrange(0, i - 1).push(tail@[i - 1]));
                    assert(bytes_view(parts@) =~= pv + bytes_view(tail@.subrange(0, i as int)));
                }
            }
            proof {
                assert(tail@.subrange(0, tail@.len() as int) =~= tail@);
                assert(bytes_view(parts@) =~= pv + bytes_view(tail@));
            }
            return Ok(parts);
        } else if size >= 0x40 {
            return Err("invalid label length field".to_owned());
        } else if size == 0 {
            proof {
                assert(bytes_view(parts@) + Seq::<Seq<u8>>::empty() =~= bytes_view(parts@));
            }
            return Ok(parts);
        } else {
            let label = p.read_bytes(size as usize)?;
            let ghost pv = bytes_view(parts@);
            parts.push(label);
            proof {
                assert(bytes_view(parts@) =~= pv.push(label@));
                assert(label@ == buf.subrange(at + 1, at + 1 + size));
                let inner = name_at(buf, p.pos());
                if inner is Some {
                    let (ls, end) = inner->0;
                    assert(pv + (seq![label@] + ls) =~= bytes_view(parts@) + ls);
                }
            }
        }
    }
}

/// The characters of ASCII bytes, where they all are.
fn ascii_string(b: &Vec<u8>) -> (r: Option<String>)
    ensures
        r matches Some(s) ==> s@ == ascii_chars(b@) && forall|j: int| 0 <= j < b@.len() ==> b@[j] < 128,
        r is None ==> exists|j: int| 0 <= j < b@.len() && b@[j] >= 128,
{
    let mut s = String::new();
    let mut i: usize = 0;
    while i < b.len()
        invariant
            0 <= i <= b@.len(),
            s@ == ascii_chars(b@.subrange(0, i as int)),
            forall|j: int| 0 <= j < i ==> b@[j] < 128,
        decreases b@.len() - i,
    {
        if b[i] >= 128 {
            return None;
        }
        push_char(&mut s, b[i] as char);
        i = i + 1;
        proof {
            assert(s@ =~= ascii_chars(b@.subrange(0, i as int)));
        }
    }
    proof {
        assert(b@.subrange(0, b@.len() as int) =~= b@);
    }
    Some(s)
}

impl Domain {
    /// Read a name at the packet's position, following pointers.
    pub fn decode(packet: &mut DecPacket) -> (r: Result<Domain, String>)
        requires
            old(packet).wf(),
        ensures
            final(packet).wf(),
            final(packet).bytes() == old(packet).bytes(),
            r is Ok <==> (name_at(old(packet).bytes(), old(packet).pos()) matches Some((ls, _))
                && all_ascii(ls) && valid_domain(labels_of_bytes(ls))),
            r matches Ok(d) ==> (name_at(old(packet).bytes(), old(packet).pos()) matches Some((ls, end))
                && d@ == labels_of_bytes(ls) && final(packet).pos() == end),
    {
        let raw = read_labels(packet)?;
        let ghost ls = bytes_view(raw@);
        let ghost end = packet.pos();
        let mut labels: Vec<String> = Vec::new();
        let mut i: usize = 0;
        while i < raw.len()
            invariant
                ls == bytes_view(raw@),
                packet.wf(),
                packet.bytes() == old(packet).bytes(),
                packet.pos() == end,
                name_at(old(packet).bytes(), old(packet).pos()) == Some((ls, end)),
                0 <= i <= raw@.len(),
                labels@.len() == i,
                strings_view(labels@) == labels_of_bytes(ls.subrange(0, i as int)),
                forall|a: int, j: int| 0 <= a < i && 0 <= j < ls[a].len() ==> #[trigger] ls[a][j] < 128,
            decreases raw@.len() - i,
        {
            match ascii_string(&raw[i]) {
                None => {
                    proof {
                        let j = choose|j: int| 0 <= j < raw@[i as int]@.len() && raw@[i as int]@[j] >= 128;
                        assert(ls[i as int][j] >= 128);
                    }
                    return Err("domain label is not ASCII".to_owned());
                },
                Some(s) => {
                    let ghost pv = strings_view(labels@);
                    labels.push(s);
                    proof {
                        assert(strings_view(labels@) =~= pv.push(s@));
                        assert(labels_of_bytes(ls.subrange(0, i + 1)) =~= labels_of_bytes(
                            ls.subrange(0, i as int),
                        ).push(ascii_chars(ls[i as int])));
                    }
                    i = i + 1;
                },
            }
        }
        proof {
            assert(ls.subrange(0, ls.len() as int) =~= ls);
        }
        Domain::from_parts(labels)
    }
}

/// A name takes at least one byte.
pub proof fn lemma_name_advances(buf: Seq<u8>, pos: int)
    ensures
        name_at(buf, pos) matches Some((ls, end)) ==> end >= pos + 1,
    decreases buf.len(), buf.len() - pos,
{
    if 0 <= pos < buf.len() {
        let b = buf[pos];
        if b < 0x40 && b != 0 && pos + 1 + b <= buf.len() {
            lemma_name_advances(buf, pos + 1 + b);
        }
    }
}

/// The length of the uncompressed wire form of `parts` followed by the
/// labels of `host`.
pub fn wire_len_of(parts: &Vec<String>, host: &Domain) -> (r: usize)
    requires
        wire_len(strings_view(parts@) + host@) <= usize::MAX,
    ensures
        r == wire_len(strings_view(parts@) + host@),
{
    let ghost all = strings_view(parts@) + host@;
    proof {
        lemma_wire_len_ge(all);
    }
    let n = parts.len() + host.labels.len();
    let mut total: usize = 1;
    let mut i: usize = n;
    proof {
        assert(all.subrange(n as int, n as int) =~= Seq::<Seq<char>>::empty());
    }
    while i > 0
        invariant
            n == all.len(),
            0 <= i <= n,
            all == strings_view(parts@) + host@,
            wire_len(all) <= usize::MAX,
            total == wire_len(all.subrange(i as int, n as int)),
        decreases i,
    {
        let l = if i - 1 < parts.len() {
            proof {
                assert(all[i - 1] == parts@[i - 1]@);
            }
            parts[i - 1].as_str().unicode_len()
        } else {
            proof {
                assert(all[i - 1] == host.labels@[i - 1 - parts@.len()]@);
            }
            host.labels[i - 1 - parts.len()].as_str().unicode_len()
        };
        proof {
            assert(all.subrange(i - 1, n as int).drop_first() =~= all.subrange(i as int, n as int));
            lemma_wire_len_split(all, i - 1);
            lemma_wire_len_ge(all.subrange(0, i - 1));
        }
        total = total + l + 1;
        i = i - 1;
    }
    proof {
        assert(all.subrange(0, n as int) =~= all);
    }
    total
}

proof fn lemma_wire_len_ge(ls: Seq<Seq<char>>)
    ensures
        wire_len(ls) >= ls.len() + 1,
    decreases ls.len(),
{
    if ls.len() > 0 {
        lemma_wire_len_ge(ls.drop_first());
    }
}

/// The labels of `ls` as bytes.
pub open spec fn labels_bytes(ls: Seq<Seq<char>>) -> Seq<Seq<u8>> {
    ls.map_values(|l: Seq<char>| label_bytes(l))
}

proof fn lemma_label_ascii(l: Seq<char>)
    requires
        valid_label(l),
    ensures
        ascii_chars(label_bytes(l)) == l,
        label_bytes(l).len() == l.len(),
        forall|j: int| 0 <= j < l.len() ==> #[trigger] label_bytes(l)[j] < 128,
{
    assert forall|j: int| 0 <= j < l.len() implies (#[trigger] label_bytes(l)[j] as char) == l[j]
        && label_bytes(l)[j] < 128 by {
        assert(is_label_char(l[j]));
    }
    assert(ascii_chars(label_bytes(l)) =~= l);
}

/// A name written out in full reads back as its labels.
proof fn lemma_raw_reads_back(buf: Seq<u8>, i: int, ls: Seq<Seq<char>>)
    requires
        0 <= i,
        i + raw_form(ls).len() <= buf.len(),
        buf.subrange(i, i + raw_form(ls).len()) == raw_form(ls),
        forall|k: int| 0 <= k < ls.len() ==> valid_label(#[trigger] ls[k]),
    ensures
        name_at(buf, i) == Some((labels_bytes(ls), i + raw_form(ls).len() as int)),
    decreases ls.len(),
{
    let raw = raw_form(ls);
    assert(buf[i] == raw[0]);
    if ls.len() == 0 {
        assert(labels_bytes(ls) =~= Seq::<Seq<u8>>::empty());
    } else {
        let l = ls[0];
        assert(valid_label(l));
        lemma_label_ascii(l);
        let n = l.len() as int;
        let rest = ls.drop_first();
        assert forall|k: int| 0 <= k < rest.len() implies valid_label(#[trigger] rest[k]) by {
            assert(rest[k] == ls[k + 1]);
        }
        assert(raw == seq![n as u8] + label_bytes(l) + raw_form(rest));
        assert(buf.subrange(i + 1, i + 1 + n) =~= label_bytes(l)) by {
            assert forall|j: int| 0 <= j < n implies buf.subrange(i + 1, i + 1 + n)[j] == label_bytes(l)[j] by {
                assert(buf[i + 1 + j] == raw[1 + j]);
            }
        }
        assert(buf.subrange(i + 1 + n, i + 1 + n + raw_form(rest).len()) =~= raw_form(rest)) by {
            assert forall|j: int| 0 <= j < raw_form(rest).len() implies buf.subrange(
                i + 1 + n,
                i + 1 + n + raw_form(rest).len(),
            )[j] == raw_form(rest)[j] by {
                assert(buf[i + 1 + n + j] == raw[1 + n + j]);
            }
        }
        lemma_raw_reads_back(buf, i + 1 + n, rest);
        assert(labels_bytes(ls) =~= seq![label_bytes(l)] + labels_bytes(rest));
    }
}

/// `buf` holds the bytes of `b0`, except perhaps at a zero byte that
/// follows another zero byte.
pub open spec fn agrees_but_zero_pairs(b0: Seq<u8>, buf: Seq<u8>) -> bool {
    &&& b0.len() <= buf.len()
    &&& forall|d: int|
        0 <= d < b0.len() && #[trigger] buf[d] != b0[d] ==> 1 <= d && b0[d] == 0 && b0[d - 1] == 0
}

/// The wire form of a non-empty name of valid labels has a zero byte at
/// its end and nowhere else.
proof fn lemma_raw_shape(ls: Seq<Seq<char>>)
    requires
        ls.len() > 0,
        forall|k: int| 0 <= k < ls.len() ==> valid_label(#[trigger] ls[k]),
    ensures
        raw_form(ls).len() >= 3,
        raw_form(ls).last() == 0,
        forall|k: int| 0 <= k < raw_form(ls).len() - 1 ==> #[trigger] raw_form(ls)[k] != 0,
    decreases ls.len(),
{
    let l = ls[0];
    let rest = ls.drop_first();
    let raw = raw_form(ls);
    let head = seq![l.len() as u8] + label_bytes(l);
    assert(raw == head + raw_form(rest));
    assert forall|k: int| 0 <= k < head.len() implies #[trigger] head[k] != 0 by {
        if k > 0 {
            assert(is_label_char(l[k - 1]));
        }
    }
    if rest.len() == 0 {
        assert(raw_form(rest) == seq![0u8]);
        assert forall|k: int| 0 <= k < raw.len() - 1 implies #[trigger] raw[k] != 0 by {
            assert(raw[k] == head[k]);
        }
    } else {
        assert forall|k: int| 0 <= k < rest.len() implies valid_label(#[trigger] rest[k]) by {
            assert(rest[k] == ls[k + 1]);
        }
        lemma_raw_shape(rest);
        assert forall|k: int| 0 <= k < raw.len() - 1 implies #[trigger] raw[k] != 0 by {
            if k < head.len() {
                assert(raw[k] == head[k]);
            } else {
                assert(raw[k] == raw_form(rest)[k - head.len()]);
            }
        }
    }
}

/// A copy of a name's wire form found in `b0` is still whole in `buf`.
proof fn lemma_match_survives(b0: Seq<u8>, buf: Seq<u8>, ls: Seq<Seq<char>>, i: int)
    requires
        ls.len() > 0,
        forall|k: int| 0 <= k < ls.len() ==> valid_label(#[trigger] ls[k]),
        match_at(b0, raw_form(ls), i),
        agrees_but_zero_pairs(b0, buf),
    ensures
        buf.subrange(i, i + raw_form(ls).len()) == raw_form(ls),
{
    let raw = raw_form(ls);
    lemma_raw_shape(ls);
    assert forall|j: int| 0 <= j < raw.len() implies buf[i + j] == raw[j] by {
        assert(b0.subrange(i, i + raw.len())[j] == b0[i + j]);
        if buf[i + j] != b0[i + j] {
            assert(b0[i + j] == 0 && b0[i + j - 1] == 0);
            assert(j == raw.len() - 1);
            assert(b0.subrange(i, i + raw.len())[j - 1] == b0[i + j - 1]);
            assert(raw[j - 1] != 0);
        }
    }
    assert(buf.subrange(i, i + raw.len()) =~= raw);
}

/// What `encode` writes after `b0` reads back, at the offset where it
/// starts, as the labels it was made from, in any buffer that holds those
/// bytes there and agrees with `b0` before them but at zero pairs.
pub proof fn lemma_compressed_reads_back(b0: Seq<u8>, ls: Seq<Seq<char>>, buf: Seq<u8>)
    requires
        forall|k: int| 0 <= k < ls.len() ==> valid_label(#[trigger] ls[k]),
        b0.len() + compressed(b0, ls).len() <= buf.len(),
        buf.subrange(b0.len() as int, (b0.len() + compressed(b0, ls).len()) as int) == compressed(b0, ls),
        agrees_but_zero_pairs(b0, buf),
    ensures
        name_at(buf, b0.len() as int) == Some((labels_bytes(ls), (b0.len() + compressed(b0, ls).len()) as int)),
    decreases ls.len(),
{
    let p = b0.len() as int;
    let c = compressed(b0, ls);
    assert(buf[p] == c[0]) by {
        assert(buf.subrange(p, p + c.len())[0] == buf[p]);
    }
    if ls.len() == 0 {
        assert(labels_bytes(ls) =~= Seq::<Seq<u8>>::empty());
    } else {
        match first_match_from(b0, raw_form(ls), 0) {
            Some(i) => {
                lemma_first_match_found(b0, raw_form(ls), 0);
                assert(buf[p + 1] == c[1]) by {
                    assert(buf.subrange(p, p + c.len())[1] == buf[p + 1]);
                }
                lemma_raw_len(ls);
                lemma_match_survives(b0, buf, ls, i);
                let cut = buf.subrange(0, p);
                assert(cut.subrange(i, i + raw_form(ls).len()) =~= raw_form(ls)) by {
                    assert forall|j: int| 0 <= j < raw_form(ls).len() implies cut.subrange(
                        i,
                        i + raw_form(ls).len(),
                    )[j] == raw_form(ls)[j] by {
                        assert(buf.subrange(i, i + raw_form(ls).len())[j] == buf[i + j]);
                    }
                }
                lemma_raw_reads_back(cut, i, ls);
            },
            None => {
                let l = ls[0];
                lemma_label_ascii(l);
                let n = l.len() as int;
                let head = seq![n as u8] + label_bytes(l);
                let rest = ls.drop_first();
                assert forall|k: int| 0 <= k < rest.len() implies valid_label(#[trigger] rest[k]) by {
                    assert(rest[k] == ls[k + 1]);
                }
                let c2 = compressed(b0 + head, rest);
                assert(c == head + c2);
                assert(buf.subrange(p + 1, p + 1 + n) =~= label_bytes(l)) by {
                    assert forall|j: int| 0 <= j < n implies buf.subrange(p + 1, p + 1 + n)[j] == label_bytes(l)[j] by {
                        assert(buf.subrange(p, p + c.len())[1 + j] == buf[p + 1 + j]);
                    }
                }
                let b1 = b0 + head;
                assert(buf.subrange(b1.len() as int, (b1.len() + c2.len()) as int) =~= c2) by {
                    assert forall|j: int| 0 <= j < c2.len() implies buf.subrange(
                        b1.len() as int,
                        (b1.len() + c2.len()) as int,
                    )[j] == c2[j] by {
                        assert(buf.subrange(p, p + c.len())[head.len() + j] == buf[b1.len() + j]);
                    }
                }
                assert(agrees_but_zero_pairs(b1, buf)) by {
                    assert forall|d: int| 0 <= d < b1.len() && #[trigger] buf[d] != b1[d] implies 1 <= d
                        && b1[d] == 0 && b1[d - 1] == 0 by {
                        if d >= p {
                            assert(buf.subrange(p, p + c.len())[d - p] == buf[d]);
                        }
                    }
                }
                lemma_compressed_reads_back(b1, rest, buf);
                assert(labels_bytes(ls) =~= seq![label_bytes(l)] + labels_bytes(rest));
            },
        }
    }
}

proof fn lemma_raw_len(ls: Seq<Seq<char>>)
    ensures
        raw_form(ls).len() >= 1,
    decreases ls.len(),
{
    if ls.len() > 0 {
        lemma_raw_len(ls.drop_first());
    }
}

proof fn lemma_first_match_found(buf: Seq<u8>, raw: Seq<u8>, i: int)
    requires
        first_match_from(buf, raw, i) is Some,
    ensures
        ({
            let j = first_match_from(buf, raw, i)->0;
            i <= j < 0x4000 && match_at(buf, raw, j)
        }),
    decreases 0x4000 - i,
{
    if !(i < 0 || i >= 0x4000 || i + raw.len() > buf.len()) && !match_at(buf, raw, i) {
        lemma_first_match_found(buf, raw, i + 1);
    }
}

/// A valid name, encoded after any bytes and followed by any bytes, decodes
/// from where it starts to the same labels; a copy that an earlier name in
/// the buffer lets it point to changes nothing of that.
pub proof fn lemma_domain_round_trip(before: Seq<u8>, ls: Seq<Seq<char>>, after: Seq<u8>)
    requires
        valid_domain(ls),
    ensures
        ({
            let buf = before + compressed(before, ls) + after;
            &&& name_at(buf, before.len() as int) == Some(
                (labels_bytes(ls), (before.len() + compressed(before, ls).len()) as int),
            )
            &&& all_ascii(labels_bytes(ls))
            &&& labels_of_bytes(labels_bytes(ls)) == ls
        }),
{
    let c = compressed(before, ls);
    let buf = before + c + after;
    assert(buf.subrange(before.len() as int, (before.len() + c.len()) as int) =~= c);
    assert(agrees_but_zero_pairs(before, buf));
    lemma_compressed_reads_back(before, ls, buf);
    assert forall|i: int, j: int| 0 <= i < ls.len() && 0 <= j < labels_bytes(ls)[i].len() implies #[trigger] labels_bytes(
        ls,
    )[i][j] < 128 by {
        lemma_label_ascii(ls[i]);
    }
    assert forall|i: int| 0 <= i < ls.len() implies labels_of_bytes(labels_bytes(ls))[i] == ls[i] by {
        lemma_label_ascii(ls[i]);
    }
    assert(labels_of_bytes(labels_bytes(ls)) =~= ls);
}

pub proof fn lemma_raw_len_is_wire_len(ls: Seq<Seq<char>>)
    ensures
        raw_form(ls).len() == wire_len(ls),
    decreases ls.len(),
{
    if ls.len() > 0 {
        lemma_raw_len_is_wire_len(ls.drop_first());
    }
}

/// Compression never lengthens a name's wire form.
pub proof fn lemma_compressed_len(buf: Seq<u8>, ls: Seq<Seq<char>>)
    ensures
        compressed(buf, ls).len() <= wire_len(ls),
    decreases ls.len(),
{
    lemma_raw_len_is_wire_len(ls);
    if ls.len() > 0 {
        lemma_raw_len(ls.drop_first());
        lemma_raw_len_is_wire_len(ls.drop_first());
        let head = seq![ls[0].len() as u8] + label_bytes(ls[0]);
        lemma_compressed_len(buf + head, ls.drop_first());
    }
}

impl std::str::FromStr for Domain {
    type Err = String;

    fn from_str(s: &str) -> Result<Domain, String> {
        Domain::parse(s)
    }
}

} // verus!
