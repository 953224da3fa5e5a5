//! Packing a bit sequence into octets, least significant bit first.
//!
//! Bit `i` of the stream occupies bit `i % 8` of octet `i / 8`, bit 0
//! being the least significant.

use vstd::prelude::*;
use vstd::arithmetic::power2::*;
use vstd::arithmetic::div_mod::lemma_div_denominator;

verus! {

/// Whether bit `k` (0 = least significant) of octet `b` is set.
pub open spec fn bit_of_byte(b: u8, k: int) -> bool {
    (b as nat / pow2(k as nat)) % 2 == 1
}

/// The bit stream an octet sequence carries.
pub open spec fn bytes_to_bits(bytes: Seq<u8>) -> Seq<bool> {
    Seq::new((bytes.len() * 8) as nat, |i: int| bit_of_byte(bytes[i / 8], i % 8))
}

/// The value of a bit sequence read least significant bit first.
pub open spec fn lsb_val(bits: Seq<bool>) -> nat
    decreases bits.len(),
{
    if bits.len() == 0 {
        0
    } else {
        (if bits[0] {
            1nat
        } else {
            0nat
        }) + 2 * lsb_val(bits.skip(1))
    }
}

pub proof fn lemma_lsb_val_bound(bits: Seq<bool>)
    ensures
        lsb_val(bits) < pow2(bits.len() as nat),
    decreases bits.len(),
{
    if bits.len() == 0 {
        lemma2_to64();
    } else {
        lemma_lsb_val_bound(bits.skip(1));
        lemma_pow2_unfold(bits.len() as nat);
    }
}

/// Bit `k` of the value of a bit sequence is the sequence's `k`-th bit.
pub proof fn lemma_lsb_val_bit(bits: Seq<bool>, k: int)
    requires
        0 <= k < bits.len(),
    ensures
        bit_of_byte((lsb_val(bits) % 256) as u8, k) == bits[k] || lsb_val(bits) >= 256,
        (lsb_val(bits) as nat / pow2(k as nat)) % 2 == (if bits[k] {
            1nat
        } else {
            0nat
        }),
    decreases k,
{
    lemma2_to64();
    let v = lsb_val(bits);
    if k == 0 {
        assert(v % 2 == (if bits[0] {
            1nat
        } else {
            0nat
        }));
        if v < 256 {
            assert(bit_of_byte((v % 256) as u8, 0) == bits[0]);
        }
    } else {
        let rest = bits.skip(1);
        lemma_lsb_val_bit(rest, k - 1);
        assert(rest[k - 1] == bits[k]);
        assert(v / 2 == lsb_val(rest));
        lemma_pow2_pos((k - 1) as nat);
        lemma_div_denominator(v as int, 2, pow2((k - 1) as nat) as int);
        lemma_pow2_unfold(k as nat);
        assert(v as nat / pow2(k as nat) == lsb_val(rest) as nat / pow2((k - 1) as nat));
        if v < 256 {
            assert(bit_of_byte((v % 256) as u8, k) == bits[k]);
        }
    }
}

/// Packs a bit sequence whose length is a whole number of octets.
pub(crate) fn pack_bits(bits: &Vec<bool>) -> (r: Vec<u8>)
    requires
        bits@.len() % 8 == 0,
    ensures
        r@.len() * 8 == bits@.len(),
        bytes_to_bits(r@) == bits@,
{
    let len = bits.len();
    let mut out: Vec<u8> = Vec::new();
    let mut i: usize = 0;
    while i < len
        invariant
            len == bits@.len(),
            0 <= i <= bits@.len(),
            i % 8 == 0,
            bits@.len() % 8 == 0,
            out@.len() * 8 == i,
            bytes_to_bits(out@) == bits@.subrange(0, i as int),
        decreases bits@.len() - i,
    {
        let ghost prev = out@;
        let mut val: u8 = 0;
        let mut k: usize = 8;
        proof {
            lemma2_to64();
            assert(bits@.subrange(i + 8, i + 8) =~= Seq::<bool>::empty());
        }
        while k > 0
            invariant
                0 <= k <= 8,
                len == bits@.len(),
                i + 8 <= len,
                val as nat == lsb_val(bits@.subrange(i + k, i + 8)),
                val < pow2((8 - k) as nat),
            decreases k,
        {
            proof {
                lemma2_to64();
                let sub = bits@.subrange(i + k - 1, i + 8);
                assert(sub.skip(1) =~= bits@.subrange(i + k, i + 8));
            }
            k = k - 1;
            val = 2 * val + (if bits[i + k] {
                1
            } else {
                0
            });
        }
        out.push(val);
        i = i + 8;
        proof {
            let sub = bits@.subrange(i - 8, i as int);
            assert(sub =~= bits@.subrange(i - 8 + 0, i - 8 + 8));
            assert(val as nat == lsb_val(sub));
            lemma_lsb_val_bound(sub);
            lemma2_to64();
            assert(bytes_to_bits(out@) =~= bits@.subrange(0, i as int)) by {
                assert forall|j: int| 0 <= j < i implies #[trigger] bytes_to_bits(out@)[j]
                    == bits@[j] by {
                    if j < i - 8 {
                        assert(out@[j / 8] == prev[j / 8]);
                        assert(bytes_to_bits(prev)[j] == bits@[j]);
                    } else {
                        let k2 = j - (i - 8);
                        assert((j / 8) * 8 + (j % 8) == j) by (nonlinear_arith);
                        assert(j / 8 == (i - 8) / 8 && j % 8 == k2) by (nonlinear_arith)
                            requires
                                (i - 8) % 8 == 0,
                                0 <= k2 < 8,
                                j == (i - 8) + k2,
                                i >= 8,
                        ;
                        assert(out@[j / 8] == val);
                        lemma_lsb_val_bit(sub, k2);
                        assert(sub[k2] == bits@[j]);
                    }
                }
            }
        }
    }
    proof {
        assert(bits@.subrange(0, bits@.len() as int) =~= bits@);
    }
    out
}

/// The bit stream carried by `bytes`, least significant bit of each octet
/// first.
pub(crate) fn unpack_bits(bytes: &Vec<u8>) -> (r: Vec<bool>)
    ensures
        r@ == bytes_to_bits(bytes@),
        r@.len() == bytes@.len() * 8,
{
    let mut out: Vec<bool> = Vec::new();
    let mut i: usize = 0;
    while i < bytes.len()
        invariant
            0 <= i <= bytes@.len(),
            out@.len() == i * 8,
            forall|j: int| 0 <= j < i * 8 ==> #[trigger] out@[j] == bytes_to_bits(bytes@)[j],
        decreases bytes@.len() - i,
    {
        let mut cur: u8 = bytes[i];
        let mut k: usize = 0;
        proof {
            lemma2_to64();
        }
        while k < 8
            invariant
                0 <= k <= 8,
                0 <= i < bytes@.len(),
                cur as nat == bytes@[i as int] as nat / pow2(k as nat),
                out@.len() == i * 8 + k,
                forall|j: int| 0 <= j < i * 8 + k ==> #[trigger] out@[j] == bytes_to_bits(
                    bytes@,
                )[j],
            decreases 8 - k,
        {
            out.push(cur % 2 == 1);
            proof {
                lemma2_to64();
                let b = bytes@[i as int];
                lemma_pow2_pos(k as nat);
                lemma_div_denominator(b as int, pow2(k as nat) as int, 2);
                lemma_pow2_unfold((k + 1) as nat);
                assert(b as nat / pow2((k + 1) as nat) == cur as nat / 2);
                let j = i * 8 + k;
                assert(j / 8 == i as int && j % 8 == k) by (nonlinear_arith)
                    requires
                        0 <= k < 8,
                        j == i * 8 + k,
                        i >= 0,
                ;
                assert(out@[j] == bit_of_byte(b, k as int));
                assert(out@[j] == bytes_to_bits(bytes@)[j]);
            }
            cur = cur / 2;
            k = k + 1;
        }
        i = i + 1;
    }
    proof {
        assert(out@ =~= bytes_to_bits(bytes@));
    }
    out
}

} // verus!
