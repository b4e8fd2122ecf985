//! Variable-width codes packed into bytes, least significant bit first.
//!
//! A stream of codes is modelled as one natural number: the first code sits
//! in the lowest bits, each later code above the ones before it.  Byte `i` of
//! the packed stream is then digit `i` of that number in base 256.

use vstd::arithmetic::div_mod::{
    lemma_div_denominator, lemma_fundamental_div_mod, lemma_hoist_over_denominator,
    lemma_mod_multiples_vanish, lemma_small_mod,
};
use vstd::arithmetic::mul::{lemma_mul_is_associative, lemma_mul_is_commutative};
use vstd::arithmetic::power2::{lemma2_to64, lemma_pow2_adds, lemma_pow2_pos, pow2};
use vstd::prelude::*;

verus! {

/// A finite string of bits: bit `i` is binary digit `i` of `value`.
pub struct BitString {
    pub value: nat,
    pub len: nat,
}

impl BitString {
    pub open spec fn empty() -> BitString {
        BitString { value: 0, len: 0 }
    }

    /// The string followed by the `width` low bits of `code`.
    pub open spec fn append(self, code: nat, width: nat) -> BitString {
        BitString { value: self.value + code * pow2(self.len), len: self.len + width }
    }

    /// Number of bytes needed to hold the string.
    pub open spec fn byte_len(self) -> nat {
        (self.len + 7) / 8
    }

    /// Byte `i` of the packed string; bits past the end read as zero.
    pub open spec fn byte(self, i: int) -> u8 {
        ((self.value / pow2((8 * i) as nat)) % 256) as u8
    }

    /// The packed string.
    pub open spec fn bytes(self) -> Seq<u8> {
        Seq::new(self.byte_len(), |i: int| self.byte(i))
    }
}

/// Appending bits leaves every byte that lies wholly below them as it was.
pub proof fn lemma_append_keeps_low_bytes(s: BitString, code: nat, width: nat, i: int)
    requires
        0 <= i,
        8 * i + 8 <= s.len,
    ensures
        s.append(code, width).byte(i) == s.byte(i),
{
    let lo = (8 * i) as nat;
    let hi = (s.len - 8 * i - 8) as nat;
    let d = pow2(lo) as int;
    lemma_pow2_pos(lo);
    lemma2_to64();
    assert(pow2(s.len) == pow2(hi) * 256 * pow2(lo)) by {
        lemma_pow2_adds(hi, 8);
        lemma_pow2_adds((hi + 8) as nat, lo);
    }
    let m = code * pow2(hi);
    assert(code * pow2(s.len) == (m * 256) * d) by {
        lemma_mul_is_associative(code as int, pow2(hi) as int, 256);
        lemma_mul_is_associative(code as int, (pow2(hi) * 256) as int, d);
        lemma_mul_is_associative(pow2(hi) as int, 256, d);
    }
    let v = s.value as int;
    assert((v + (m * 256) * d) / d == v / d + m * 256) by {
        lemma_hoist_over_denominator(v, (m * 256) as int, d as nat);
    }
    assert((v / d + m * 256) % 256 == (v / d) % 256) by {
        lemma_mul_is_commutative(m as int, 256);
        lemma_mod_multiples_vanish(m as int, v / d, 256);
    }
}

/// Collects codes into bytes.  Between two calls fewer than eight bits are
/// pending; everything before them has been written out.
pub struct BitWriter {
    out: Vec<u8>,
    acc: u32,
    nbits: u32,
    scale: u32,
    total: Ghost<BitString>,
}

impl BitWriter {
    /// All bits given to the writer so far.
    pub closed spec fn view(&self) -> BitString {
        self.total@
    }

    spec fn inv(&self) -> bool {
        &&& self.nbits < 20
        &&& self.scale == pow2(self.nbits as nat)
        &&& self.acc < self.scale
        &&& self.total@.len == 8 * self.out.len() + self.nbits
        &&& self.total@.value / pow2((8 * self.out.len()) as nat) == self.acc
        &&& forall|i: int| 0 <= i < self.out.len() ==> self.out[i] == #[trigger] self.total@.byte(i)
    }

    pub closed spec fn wf(&self) -> bool {
        self.inv() && self.nbits < 8
    }

    pub fn new() -> (w: BitWriter)
        ensures
            w.wf(),
            w@ == BitString::empty(),
    {
        proof {
            lemma2_to64();
        }
        BitWriter { out: Vec::new(), acc: 0, nbits: 0, scale: 1, total: Ghost(BitString::empty()) }
    }

    /// Appends the `width` bits of `code`; `limit` is two to the `width`.
    pub fn write(&mut self, code: u16, width: u32, limit: u32)
        requires
            old(self).wf(),
            1 <= width <= 12,
            limit == pow2(width as nat),
            code < limit,
        ensures
            final(self).wf(),
            final(self)@ == old(self)@.append(code as nat, width as nat),
    {
        let ghost before = self.total@;
        let ghost after = before.append(code as nat, width as nat);
        let ghost n = self.out.len() as nat;
        proof {
            lemma2_to64();
            let nb = self.nbits as nat;
            let d = pow2((8 * n) as nat);
            lemma_pow2_pos((8 * n) as nat);
            lemma_pow2_adds(nb, width as nat);
            lemma_pow2_adds(nb, (8 * n) as nat);
            assert(pow2(nb) <= 128 && limit <= 4096) by {
                lemma_small_powers(nb);
                lemma_small_powers(width as nat);
            }
            assert(code * self.scale + self.acc < self.scale * limit) by (nonlinear_arith)
                requires
                    code < limit,
                    self.acc < self.scale,
                    limit > 0,
            ;
            assert(self.scale * limit <= 128 * 4096) by (nonlinear_arith)
                requires
                    self.scale <= 128,
                    limit <= 4096,
            ;
            assert(code * pow2(before.len) == (code * pow2(nb)) * d) by {
                lemma_mul_is_associative(code as int, pow2(nb) as int, d as int);
            }
            assert(after.value / d == self.acc + code * self.scale) by {
                lemma_hoist_over_denominator(before.value as int, (code * pow2(nb)) as int, d);
            }
            assert forall|i: int| 0 <= i < n implies self.out[i] == #[trigger] after.byte(i) by {
                lemma_append_keeps_low_bytes(before, code as nat, width as nat, i);
                assert(self.out[i] == before.byte(i));
            }
        }
        self.acc = self.acc + (code as u32) * self.scale;
        self.scale = self.scale * limit;
        self.nbits = self.nbits + width;
        self.total = Ghost(after);
        while self.nbits >= 8
            invariant
                self.inv(),
                self.total@ == after,
            decreases self.nbits,
        {
            proof {
                lemma2_to64();
                let m = self.out.len() as nat;
                let d = pow2((8 * m) as nat) as int;
                lemma_pow2_pos((8 * m) as nat);
                lemma_pow2_adds((8 * m) as nat, 8);
                lemma_pow2_adds((self.nbits - 8) as nat, 8);
                assert((after.value as int / d) / 256 == after.value as int / (d * 256)) by {
                    lemma_div_denominator(after.value as int, d, 256);
                }
                assert(after.byte(m as int) == (self.acc % 256) as u8);
                assert(self.scale / 256 == pow2((self.nbits - 8) as nat));
                lemma_fundamental_div_mod(self.acc as int, 256);
            }
            let ghost prev = self.out@;
            self.out.push((self.acc % 256) as u8);
            self.acc = self.acc / 256;
            self.scale = self.scale / 256;
            self.nbits = self.nbits - 8;
            proof {
                assert forall|i: int| 0 <= i < self.out.len() implies self.out[i]
                    == #[trigger] after.byte(i) by {
                    if i < prev.len() {
                        assert(self.out[i] == prev[i]);
                    }
                }
            }
        }
    }

    /// The packed bytes; a last partial byte is filled up with zero bits.
    pub fn finish(self) -> (bytes: Vec<u8>)
        requires
            self.wf(),
        ensures
            bytes@ == self@.bytes(),
    {
        let mut out = self.out;
        let ghost total = self.total@;
        if self.nbits > 0 {
            proof {
                lemma_small_powers(self.nbits as nat);
                lemma_small_mod(self.acc as nat, 256);
            }
            out.push(self.acc as u8);
        }
        assert(out@ =~= total.bytes());
        out
    }
}

/// Bounds on the powers of two that a code width or a pending bit count reaches.
pub proof fn lemma_small_powers(e: nat)
    ensures
        e <= 7 ==> pow2(e) <= 128,
        e <= 12 ==> pow2(e) <= 4096,
        e <= 19 ==> pow2(e) <= 524288,
        pow2(e) >= 1,
{
    lemma2_to64();
    lemma_pow2_pos(e);
    if e <= 19 {
        assert(e == 0 || e == 1 || e == 2 || e == 3 || e == 4 || e == 5 || e == 6 || e == 7 || e
            == 8 || e == 9 || e == 10 || e == 11 || e == 12 || e == 13 || e == 14 || e == 15 || e
            == 16 || e == 17 || e == 18 || e == 19);
    }
}

} // verus!
