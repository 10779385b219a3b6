//! Packing bit fields into an integer, most significant bit first.

use vstd::prelude::*;

verus! {

/// `2^n`.
pub open spec fn two_pow(n: nat) -> nat
    decreases n,
{
    if n == 0 {
        1
    } else {
        2 * two_pow((n - 1) as nat)
    }
}

/// The low `n` bits of `v`, most significant first.
pub open spec fn bits_of(v: nat, n: nat) -> Seq<bool>
    decreases n,
{
    if n == 0 {
        Seq::empty()
    } else {
        bits_of(v / 2, (n - 1) as nat).push(v % 2 == 1)
    }
}

/// The number whose binary digits, most significant first, are `s`.
pub open spec fn value_of(s: Seq<bool>) -> nat
    decreases s.len(),
{
    if s.len() == 0 {
        0
    } else {
        2 * value_of(s.drop_last()) + if s.last() {
            1nat
        } else {
            0nat
        }
    }
}

pub proof fn lemma_bits_len(v: nat, n: nat)
    ensures
        bits_of(v, n).len() == n,
    decreases n,
{
    if n > 0 {
        lemma_bits_len(v / 2, (n - 1) as nat);
    }
}

pub proof fn lemma_value_bound(s: Seq<bool>)
    ensures
        value_of(s) < two_pow(s.len()),
    decreases s.len(),
{
    if s.len() > 0 {
        lemma_value_bound(s.drop_last());
    }
}

/// Reading the digits of a sequence's value gives the sequence back.
pub proof fn lemma_bits_of_value(s: Seq<bool>)
    ensures
        bits_of(value_of(s), s.len()) == s,
    decreases s.len(),
{
    if s.len() > 0 {
        lemma_bits_of_value(s.drop_last());
        let v = value_of(s);
        assert(v / 2 == value_of(s.drop_last()));
        assert(bits_of(v, s.len()) =~= s);
    }
}

/// The value of the low `n` bits of `v` is `v` where `v < 2^n`.
pub proof fn lemma_value_of_bits(v: nat, n: nat)
    requires
        v < two_pow(n),
    ensures
        value_of(bits_of(v, n)) == v,
        bits_of(v, n).len() == n,
    decreases n,
{
    if n > 0 {
        lemma_value_of_bits(v / 2, (n - 1) as nat);
        assert(bits_of(v, n).drop_last() == bits_of(v / 2, (n - 1) as nat));
    }
}

/// Writes bit fields into one integer.
pub struct BitWriter {
    value: u64,
    bits_used: u64,
}

impl View for BitWriter {
    type V = Seq<bool>;

    closed spec fn view(&self) -> Seq<bool> {
        bits_of(self.value as nat, self.bits_used as nat)
    }
}

impl BitWriter {
    pub closed spec fn wf(&self) -> bool {
        self.bits_used <= 64 && (self.value as nat) < two_pow(self.bits_used as nat)
    }

    /// A writer holding no bits.
    pub fn new() -> (r: BitWriter)
        ensures
            r.wf(),
            r@ == Seq::<bool>::empty(),
    {
        BitWriter { value: 0, bits_used: 0 }
    }

    /// The number of bits written.
    pub fn bits_used(&self) -> (r: u64)
        requires
            self.wf(),
        ensures
            r == self@.len(),
    {
        proof {
            lemma_value_of_bits(self.value as nat, self.bits_used as nat);
        }
        self.bits_used
    }

    /// Append one bit as the new least significant one.
    pub fn write_bit(&mut self, bit: bool)
        requires
            old(self).wf(),
            old(self)@.len() < 64,
        ensures
            final(self).wf(),
            final(self)@ == old(self)@.push(bit),
    {
        proof {
            lemma_value_of_bits(self.value as nat, self.bits_used as nat);
        }
        let b: u64 = if bit {
            1
        } else {
            0
        };
        proof {
            lemma_two_pow_64();
            lemma_pow_mono(self.bits_used as nat + 1, 64);
        }
        self.value = self.value * 2 + b;
        self.bits_used = self.bits_used + 1;
        proof {
            assert(bits_of(self.value as nat, self.bits_used as nat).drop_last() == bits_of(
                old(self).value as nat,
                old(self).bits_used as nat,
            ));
            assert(self@ =~= old(self)@.push(bit));
        }
    }

    /// Append the low `num_bits` bits of `value`, most significant first.
    pub fn write_bits(&mut self, value: u64, num_bits: u64)
        requires
            old(self).wf(),
            old(self)@.len() + num_bits <= 64,
        ensures
            final(self).wf(),
            final(self)@ == old(self)@ + bits_of(value as nat, num_bits as nat),
        decreases num_bits,
    {
        if num_bits == 0 {
            proof {
                assert(self@ =~= old(self)@ + bits_of(value as nat, num_bits as nat));
            }
            return;
        }
        proof {
            lemma_value_of_bits(self.value as nat, self.bits_used as nat);
        }
        self.write_bits(value / 2, num_bits - 1);
        proof {
            lemma_bits_len(value as nat / 2, (num_bits - 1) as nat);
        }
        self.write_bit(value % 2 == 1);
        proof {
            assert(self@ =~= old(self)@ + bits_of(value as nat, num_bits as nat));
        }
    }

    /// Whether the fields fill exactly `width` bits.
    pub fn fits(&self, width: u64) -> (r: bool)
        requires
            self.wf(),
        ensures
            r == (self@.len() == width),
    {
        proof {
            lemma_value_of_bits(self.value as nat, self.bits_used as nat);
        }
        self.bits_used == width
    }

    /// The fields packed into one integer.
    pub fn value(&self) -> (r: u64)
        requires
            self.wf(),
        ensures
            r as nat == value_of(self@),
            bits_of(r as nat, self@.len()) == self@,
    {
        proof {
            lemma_value_of_bits(self.value as nat, self.bits_used as nat);
        }
        self.value
    }
}

pub proof fn lemma_two_pow_64()
    ensures
        two_pow(64) == 0x1_0000_0000_0000_0000,
{
    reveal_with_fuel(two_pow, 65);
}

pub proof fn lemma_pow_mono(a: nat, b: nat)
    requires
        a <= b,
    ensures
        two_pow(a) <= two_pow(b),
    decreases b,
{
    if a < b {
        lemma_pow_mono(a, (b - 1) as nat);
    }
}

/// The low `n` bits of `v` as a vector, most significant first.
fn bit_vec(v: u64, n: u64) -> (r: Vec<bool>)
    ensures
        r@ == bits_of(v as nat, n as nat),
    decreases n,
{
    if n == 0 {
        return Vec::new();
    }
    let mut r = bit_vec(v / 2, n - 1);
    r.push(v % 2 == 1);
    r
}

/// Reads bit fields out of one integer.
pub struct BitReader {
    bits: Vec<bool>,
    pos: usize,
}

impl View for BitReader {
    type V = Seq<bool>;

    /// The bits not yet read.
    closed spec fn view(&self) -> Seq<bool> {
        self.bits@.subrange(self.pos as int, self.bits@.len() as int)
    }
}

impl BitReader {
    pub closed spec fn wf(&self) -> bool {
        self.pos <= self.bits@.len()
    }

    /// A reader over the low `bits` bits of `value`.
    pub fn new(value: u64, bits: u64) -> (r: BitReader)
        ensures
            r.wf(),
            r@ == bits_of(value as nat, bits as nat),
    {
        let v = bit_vec(value, bits);
        proof {
            assert(v@.subrange(0, v@.len() as int) =~= v@);
        }
        BitReader { bits: v, pos: 0 }
    }

    /// Read the next bit, if one is left.
    pub fn read_bit(&mut self) -> (r: Option<bool>)
        requires
            old(self).wf(),
        ensures
            final(self).wf(),
            old(self)@.len() == 0 ==> r is None && final(self)@ == old(self)@,
            old(self)@.len() > 0 ==> r == Some(old(self)@[0]) && final(self)@ == old(self)@.drop_first(),
    {
        if self.pos >= self.bits.len() {
            return None;
        }
        let b = self.bits[self.pos];
        self.pos = self.pos + 1;
        proof {
            assert(self@ =~= old(self)@.drop_first());
        }
        Some(b)
    }

    /// Read the next `num_bits` bits as an integer, if that many are left.
    pub fn read_bits(&mut self, num_bits: u64) -> (r: Option<u64>)
        requires
            old(self).wf(),
            num_bits <= 64,
        ensures
            final(self).wf(),
            r is Some <==> num_bits <= old(self)@.len(),
            r matches Some(x) ==> x as nat == value_of(old(self)@.take(num_bits as int))
                && final(self)@ == old(self)@.skip(num_bits as int),
    {
        let mut result: u64 = 0;
        let mut i: u64 = 0;
        while i < num_bits
            invariant
                self.wf(),
                num_bits <= 64,
                0 <= i <= num_bits,
                i <= old(self)@.len(),
                self@ == old(self)@.skip(i as int),
                result as nat == value_of(old(self)@.take(i as int)),
            decreases num_bits - i,
        {
            let b = self.read_bit();
            match b {
                None => {
                    return None;
                },
                Some(bit) => {
                    proof {
                        lemma_value_bound(old(self)@.take(i as int));
                        lemma_pow_mono(i as nat + 1, 64);
                        lemma_two_pow_64();
                        assert(old(self)@.take(i + 1).drop_last() =~= old(self)@.take(i as int));
                        assert(self@ =~= old(self)@.skip(i + 1));
                    }
                    result = result * 2 + if bit {
                        1
                    } else {
                        0
                    };
                    i = i + 1;
                },
            }
        }
        Some(result)
    }
}

/// A field written with a width and read back with the same width comes
/// back bit for bit, and as the same number where it fits that width.
pub proof fn lemma_bits_round_trip(written: Seq<bool>, value: nat, width: nat)
    requires
        written.len() <= 64,
    ensures
        value_of(written.take(written.len() as int)) == value_of(written),
        bits_of(value_of(written), written.len()) == written,
        value < two_pow(width) ==> value_of(bits_of(value, width)) == value,
{
    assert(written.take(written.len() as int) =~= written);
    lemma_bits_of_value(written);
    if value < two_pow(width) {
        lemma_value_of_bits(value, width);
    }
}

/// Fields written one after another read back one after another: where
/// the bits left to read start with a field `v` of width `n`, reading `n`
/// bits gives `v` and leaves the bits after it. With `write_bits`, `value`,
/// `BitReader::new` and `read_bits`, this gives each field of a packed
/// integer back in turn.
pub proof fn lemma_read_field(v: nat, n: nat, rest: Seq<bool>)
    requires
        v < two_pow(n),
    ensures
        value_of((bits_of(v, n) + rest).take(n as int)) == v,
        (bits_of(v, n) + rest).skip(n as int) == rest,
{
    lemma_value_of_bits(v, n);
    assert((bits_of(v, n) + rest).take(n as int) =~= bits_of(v, n));
    assert((bits_of(v, n) + rest).skip(n as int) =~= rest);
}

} // verus!
