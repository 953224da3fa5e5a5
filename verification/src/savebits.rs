//! Bit-level serialisation of primitive values.
//!
//! Two codecs live here: fixed-width octets (eight bits, most significant
//! first) and a self-delimiting encoding of positive integers.  A positive
//! integer `n` needing `b` bits is written as `b - 1` leading `false` bits,
//! one `true` bit, and then the low `b - 1` bits of `n` most significant
//! first (the top bit of `n` is always set and is left implicit), for
//! `2 * b - 1` bits in all.

use vstd::prelude::*;
use vstd::arithmetic::power2::*;

verus! {

/// The `w` low bits of `n`, most significant first.
pub open spec fn msb_bits(n: nat, w: nat) -> Seq<bool>
    decreases w,
{
    if w == 0 {
        Seq::empty()
    } else {
        msb_bits(n / 2, (w - 1) as nat).push(n % 2 == 1)
    }
}

/// The value of a bit sequence read most significant bit first.
pub open spec fn msb_val(bits: Seq<bool>) -> nat
    decreases bits.len(),
{
    if bits.len() == 0 {
        0
    } else {
        2 * msb_val(bits.drop_last()) + (if bits.last() {
            1nat
        } else {
            0nat
        })
    }
}

/// The number of binary digits of `n`, for `n >= 1`; `bit_width(n)` is
/// the least `b` with `n < pow2(b)`.
pub open spec fn bit_width(n: nat) -> nat
    decreases n,
{
    if n <= 1 {
        1
    } else {
        1 + bit_width(n / 2)
    }
}

pub proof fn lemma_msb_bits_len(n: nat, w: nat)
    ensures
        msb_bits(n, w).len() == w,
    decreases w,
{
    if w > 0 {
        lemma_msb_bits_len(n / 2, (w - 1) as nat);
    }
}

/// Reading back the low `w` bits of `n` recovers `n` when `n` fits in `w` bits.
pub proof fn lemma_msb_round_trip(n: nat, w: nat)
    requires
        n < pow2(w),
    ensures
        msb_val(msb_bits(n, w)) == n,
    decreases w,
{
    if w == 0 {
        lemma2_to64();
    } else {
        let prefix = msb_bits(n / 2, (w - 1) as nat);
        let whole = msb_bits(n, w);
        assert(whole.drop_last() =~= prefix);
        assert(pow2(w) == 2 * pow2((w - 1) as nat)) by {
            lemma_pow2_unfold(w);
        }
        lemma_msb_round_trip(n / 2, (w - 1) as nat);
    }
}

pub proof fn lemma_msb_val_bound(bits: Seq<bool>)
    ensures
        msb_val(bits) < pow2(bits.len() as nat),
    decreases bits.len(),
{
    if bits.len() == 0 {
        lemma2_to64();
    } else {
        lemma_msb_val_bound(bits.drop_last());
        lemma_pow2_unfold(bits.len() as nat);
    }
}

pub proof fn lemma_bit_width_bounds(n: nat)
    requires
        n >= 1,
    ensures
        bit_width(n) >= 1,
        pow2((bit_width(n) - 1) as nat) <= n < pow2(bit_width(n)),
    decreases n,
{
    if n == 1 {
        lemma2_to64();
    } else {
        lemma_bit_width_bounds(n / 2);
        let w = bit_width(n);
        lemma_pow2_unfold(w);
        lemma_pow2_unfold((w - 1) as nat);
    }
}

/// A number's width never exceeds the number itself.
pub proof fn lemma_bit_width_le(n: nat)
    requires
        n >= 1,
    ensures
        bit_width(n) <= n,
    decreases n,
{
    if n > 1 {
        lemma_bit_width_le(n / 2);
    }
}

/// Bits of a self-delimited positive integer: a unary length prefix
/// (`bit_width(n) - 1` zeros then a one), then the low bits of `n`.
pub open spec fn uint_bits(n: nat) -> Seq<bool> {
    let w = bit_width(n);
    Seq::new((w - 1) as nat, |i: int| false).push(true) + msb_bits(
        (n - pow2((w - 1) as nat)) as nat,
        (w - 1) as nat,
    )
}

/// How many bits a unary length prefix occupies, terminator included:
/// `Some(k)` when the first `true` at or after `pos` stands at `pos + k - 1`.
pub open spec fn unary_scan(bits: Seq<bool>, pos: int) -> Option<int>
    decreases bits.len() - pos,
{
    if pos < 0 || pos >= bits.len() {
        None
    } else if bits[pos] {
        Some(1)
    } else {
        match unary_scan(bits, pos + 1) {
            None => None,
            Some(k) => Some(k + 1),
        }
    }
}

/// What parsing a self-delimited positive integer at `pos` yields.  `None`
/// when the bits run out mid-token or the value does not fit in `usize`.
pub open spec fn uint_parse(bits: Seq<bool>, pos: int) -> Option<(usize, int)> {
    match unary_scan(bits, pos) {
        None => None,
        Some(w) => {
            let end = pos + 2 * w - 1;
            if end > bits.len() {
                None
            } else {
                let val = pow2((w - 1) as nat) + msb_val(bits.subrange(pos + w, end));
                if val > usize::MAX {
                    None
                } else {
                    Some((val as usize, end))
                }
            }
        },
    }
}

pub proof fn lemma_unary_scan_none(bits: Seq<bool>, pos: int)
    requires
        0 <= pos <= bits.len(),
        forall|i: int| pos <= i < bits.len() ==> !(#[trigger] bits[i]),
    ensures
        unary_scan(bits, pos) is None,
    decreases bits.len() - pos,
{
    if pos < bits.len() {
        lemma_unary_scan_none(bits, pos + 1);
    }
}

pub proof fn lemma_unary_scan_some(bits: Seq<bool>, pos: int)
    ensures
        unary_scan(bits, pos) matches Some(k) ==> 1 <= k && pos + k <= bits.len(),
    decreases bits.len() - pos,
{
    if 0 <= pos && pos < bits.len() && !bits[pos] {
        lemma_unary_scan_some(bits, pos + 1);
    }
}

/// A run of `w - 1` zeros followed by a one scans to exactly `w`.
pub proof fn lemma_unary_scan_of_run(bits: Seq<bool>, pos: int, w: int)
    requires
        0 <= pos,
        w >= 1,
        pos + w <= bits.len(),
        forall|i: int| 0 <= i < w - 1 ==> !(#[trigger] bits[pos + i]),
        bits[pos + w - 1],
    ensures
        unary_scan(bits, pos) == Some(w),
    decreases w,
{
    if w > 1 {
        assert(!bits[pos + 0]);
        assert forall|i: int| 0 <= i < w - 2 implies !(#[trigger] bits[pos + 1 + i]) by {
            assert(!bits[pos + (i + 1)]);
        }
        lemma_unary_scan_of_run(bits, pos + 1, w - 1);
    }
}

/// Serialisation of a value as a bit sequence, with its parser.
///
/// `spec_bits` gives the exact bits that `save_bits` emits, and `spec_parse`
/// the exact outcome of `from_bits`; the two agree, which
/// `lemma_save_then_parse` states: parsing at the start of a saved value,
/// whatever follows it, yields that value back and stops right after it.
pub trait SaveBits where Self: Sized {
    /// Which values the codec accepts (the self-delimiting integer codec is
    /// undefined for zero).
    spec fn encodable(&self) -> bool;

    /// The bits that `save_bits` emits.
    spec fn spec_bits(&self) -> Seq<bool>;

    /// The value a parse at `pos` yields and the position just after its
    /// encoding, or `None` when the bits run out mid-token (or, for the
    /// integer codec, when the value overflows `usize`).
    spec fn spec_parse(bits: Seq<bool>, pos: int) -> Option<(Self, int)>;

    fn save_bits(&self) -> (r: Vec<bool>)
        requires
            self.encodable(),
        ensures
            r@ == self.spec_bits(),
    ;

    fn from_bits(bits: &Vec<bool>, pos: usize) -> (r: Option<(Self, usize)>)
        requires
            pos <= bits@.len(),
        ensures
            (match r {
                Some((v, p)) => Self::spec_parse(bits@, pos as int) == Some((v, p as int)),
                None => Self::spec_parse(bits@, pos as int) is None,
            }),
    ;

    /// A successful parse consumes at least one bit, stays inside the
    /// sequence, and yields an encodable value.
    proof fn lemma_parse_advances(bits: Seq<bool>, pos: int)
        ensures
            Self::spec_parse(bits, pos) matches Some((v, p)) ==> pos < p <= bits.len()
                && v.encodable(),
    ;

    /// Round trip: wherever the saved bits of `self` stand, parsing there
    /// returns `self` and consumes exactly those bits.
    proof fn lemma_save_then_parse(&self, bits: Seq<bool>, pos: int)
        requires
            self.encodable(),
            0 <= pos,
            pos + self.spec_bits().len() <= bits.len(),
            bits.subrange(pos, pos + self.spec_bits().len() as int) == self.spec_bits(),
        ensures
            Self::spec_parse(bits, pos) == Some((*self, pos + self.spec_bits().len())),
    ;
}

/// Appends the `w` low bits of `n`, most significant first.
pub(crate) fn push_msb_bits(out: &mut Vec<bool>, n: usize, w: usize)
    ensures
        final(out)@ == old(out)@ + msb_bits(n as nat, w as nat),
    decreases w,
{
    if w == 0 {
        assert(out@ =~= out@ + msb_bits(n as nat, 0));
    } else {
        push_msb_bits(out, n / 2, w - 1);
        out.push(n % 2 == 1);
        assert(out@ =~= old(out)@ + msb_bits(n as nat, w as nat));
    }
}

impl SaveBits for u8 {
    open spec fn encodable(&self) -> bool {
        true
    }

    open spec fn spec_bits(&self) -> Seq<bool> {
        msb_bits(*self as nat, 8)
    }

    open spec fn spec_parse(bits: Seq<bool>, pos: int) -> Option<(u8, int)> {
        if 0 <= pos && pos + 8 <= bits.len() {
            Some(((msb_val(bits.subrange(pos, pos + 8)) as u8), pos + 8))
        } else {
            None
        }
    }

    fn save_bits(&self) -> (r: Vec<bool>) {
        let mut r: Vec<bool> = Vec::new();
        push_msb_bits(&mut r, *self as usize, 8);
        proof {
            assert(r@ =~= msb_bits(*self as nat, 8));
        }
        r
    }

    fn from_bits(bits: &Vec<bool>, pos: usize) -> (r: Option<(Self, usize)>) {
        if bits.len() - pos < 8 {
            return None;
        }
        let mut s: u8 = 0;
        let mut j: usize = 0;
        proof {
            lemma2_to64();
        }
        while j < 8
            invariant
                0 <= j <= 8,
                pos + 8 <= bits@.len(),
                pos + 8 <= usize::MAX,
                s as nat == msb_val(bits@.subrange(pos as int, pos + j)),
                s < pow2(j as nat),
            decreases 8 - j,
        {
            proof {
                lemma_pow2_unfold((j + 1) as nat);
                lemma2_to64();
                if (j as nat) < 7 {
                    lemma_pow2_strictly_increases(j as nat, 7);
                }
                assert(bits@.subrange(pos as int, pos + j + 1).drop_last() =~= bits@.subrange(
                    pos as int,
                    pos + j,
                ));
            }
            let b = bits[pos + j];
            s = 2 * s + (if b {
                1
            } else {
                0
            });
            j += 1;
        }
        Some((s, pos + 8))
    }

    proof fn lemma_parse_advances(bits: Seq<bool>, pos: int) {
    }

    proof fn lemma_save_then_parse(&self, bits: Seq<bool>, pos: int) {
        lemma_msb_bits_len(*self as nat, 8);
        assert(bits.subrange(pos, pos + 8) == msb_bits(*self as nat, 8));
        lemma2_to64();
        lemma_msb_round_trip(*self as nat, 8);
    }
}

impl SaveBits for usize {
    open spec fn encodable(&self) -> bool {
        *self >= 1
    }

    open spec fn spec_bits(&self) -> Seq<bool> {
        uint_bits(*self as nat)
    }

    open spec fn spec_parse(bits: Seq<bool>, pos: int) -> Option<(usize, int)> {
        uint_parse(bits, pos)
    }

    fn save_bits(&self) -> (r: Vec<bool>) {
        let n: usize = *self;
        proof {
            lemma_bit_width_bounds(n as nat);
            lemma_bit_width_le(n as nat);
        }
        let mut w: usize = 1;
        let mut m: usize = n;
        while m > 1
            invariant
                1 <= m,
                1 <= w,
                bit_width(n as nat) == (w - 1) + bit_width(m as nat),
                bit_width(n as nat) <= n,
            decreases m,
        {
            proof {
                lemma_bit_width_bounds((m / 2) as nat);
            }
            m = m / 2;
            w = w + 1;
        }
        let ghost wid = bit_width(n as nat);
        proof {
            assert(wid == w);
            lemma_bit_width_bounds(n as nat);
        }
        let mut r: Vec<bool> = Vec::new();
        let mut i: usize = 0;
        while i < w - 1
            invariant
                0 <= i <= w - 1,
                r@.len() == i,
                forall|k: int| 0 <= k < i ==> !(#[trigger] r@[k]),
            decreases w - 1 - i,
        {
            r.push(false);
            i += 1;
        }
        proof {
            assert(r@ =~= Seq::new((wid - 1) as nat, |k: int| false));
        }
        r.push(true);
        let mut h: usize = 1;
        let mut j: usize = 0;
        proof {
            lemma2_to64();
        }
        while j < w - 1
            invariant
                0 <= j <= w - 1,
                w == wid == bit_width(n as nat),
                h == pow2(j as nat),
                pow2((wid - 1) as nat) <= n,
            decreases w - 1 - j,
        {
            proof {
                lemma_pow2_unfold((j + 1) as nat);
                if j + 1 < w - 1 {
                    lemma_pow2_strictly_increases((j + 1) as nat, (wid - 1) as nat);
                }
            }
            h = h * 2;
            j += 1;
        }
        let low = n - h;
        push_msb_bits(&mut r, low, w - 1);
        proof {
            assert(r@ =~= uint_bits(n as nat));
        }
        r
    }

    fn from_bits(bits: &Vec<bool>, pos: usize) -> (r: Option<(Self, usize)>) {
        let len = bits.len();
        let mut p: usize = pos;
        while p < len && !bits[p]
            invariant
                pos <= p <= len,
                len == bits@.len(),
                forall|i: int| pos <= i < p ==> !(#[trigger] bits@[i]),
            decreases len - p,
        {
            p = p + 1;
        }
        if p == len {
            proof {
                lemma_unary_scan_none(bits@, pos as int);
            }
            return None;
        }
        let w = p - pos + 1;
        proof {
            lemma_unary_scan_of_run(bits@, pos as int, w as int);
        }
        if len - (p + 1) < w - 1 {
            return None;
        }
        if w > (usize::BITS as usize) {
            proof {
                vstd::layout::unsigned_int_max_values();
                if (usize::BITS as nat) < (w - 1) as nat {
                    lemma_pow2_strictly_increases(usize::BITS as nat, (w - 1) as nat);
                }
            }
            return None;
        }
        let body = p + 1;
        let mut s: usize = 1;
        let mut j: usize = 0;
        proof {
            lemma2_to64();
        }
        while j < w - 1
            invariant
                0 <= j <= w - 1,
                body == p + 1,
                pos <= p,
                w == p - pos + 1,
                body + (w - 1) <= len,
                len == bits@.len(),
                w <= usize::BITS,
                s as nat == pow2(j as nat) + msb_val(bits@.subrange(body as int, body + j)),
            decreases w - 1 - j,
        {
            proof {
                vstd::layout::unsigned_int_max_values();
                let sub = bits@.subrange(body as int, body + j);
                lemma_msb_val_bound(sub);
                lemma_pow2_unfold((j + 1) as nat);
                lemma_pow2_unfold((j + 2) as nat);
                if j + 2 < usize::BITS {
                    lemma_pow2_strictly_increases((j + 2) as nat, usize::BITS as nat);
                }
                assert(bits@.subrange(body as int, body + j + 1).drop_last() =~= sub);
            }
            let b = bits[body + j];
            s = 2 * s + (if b {
                1
            } else {
                0
            });
            j += 1;
        }
        proof {
            vstd::layout::unsigned_int_max_values();
            lemma_msb_val_bound(bits@.subrange(body as int, body + (w - 1)));
        }
        Some((s, p + w))
    }

    proof fn lemma_parse_advances(bits: Seq<bool>, pos: int) {
        lemma_unary_scan_some(bits, pos);
        if uint_parse(bits, pos) is Some {
            let w = unary_scan(bits, pos)->Some_0;
            lemma_pow2_pos((w - 1) as nat);
        }
    }

    proof fn lemma_save_then_parse(&self, bits: Seq<bool>, pos: int) {
        let n = *self as nat;
        let w = bit_width(n);
        let low = (n - pow2((w - 1) as nat)) as nat;
        lemma_bit_width_bounds(n);
        lemma_msb_bits_len(low, (w - 1) as nat);
        let enc = uint_bits(n);
        assert(enc.len() == 2 * w - 1);
        assert(bits.subrange(pos, pos + (2 * w - 1)) == enc);
        assert forall|i: int| 0 <= i < w - 1 implies !(#[trigger] bits[pos + i]) by {
            assert(enc[i] == bits.subrange(pos, pos + (2 * w - 1))[i]);
        }
        assert(bits[pos + (w - 1)] == enc[w - 1]);
        assert(enc[w - 1]);
        lemma_unary_scan_of_run(bits, pos, w as int);
        assert(bits.subrange(pos + w, pos + 2 * w - 1) =~= msb_bits(low, (w - 1) as nat)) by {
            assert forall|k: int| 0 <= k < w - 1 implies #[trigger] bits.subrange(
                pos + w as int,
                pos + 2 * w - 1,
            )[k] == msb_bits(low, (w - 1) as nat)[k] by {
                assert(bits[pos + (w + k)] == enc[w + k]);
            }
        }
        lemma_pow2_unfold(w);
        lemma_msb_round_trip(low, (w - 1) as nat);
    }
}

/// Decoding the saved bits of an octet returns it; the encoding is eight
/// bits long.
pub proof fn lemma_octet_round_trip(v: u8)
    ensures
        v.spec_bits().len() == 8,
        u8::spec_parse(v.spec_bits(), 0) == Some((v, 8int)),
{
    lemma_msb_bits_len(v as nat, 8);
    assert(v.spec_bits().subrange(0, 8) =~= v.spec_bits());
    v.lemma_save_then_parse(v.spec_bits(), 0);
}

/// Decoding the saved bits of a positive integer returns it, and the
/// encoding is `2 * bit_width(n) - 1` bits long.
pub proof fn lemma_uint_round_trip(n: usize)
    requires
        n >= 1,
    ensures
        n.spec_bits().len() == 2 * bit_width(n as nat) - 1,
        usize::spec_parse(n.spec_bits(), 0) == Some((n, n.spec_bits().len() as int)),
{
    lemma_bit_width_bounds(n as nat);
    lemma_msb_bits_len((n - pow2((bit_width(n as nat) - 1) as nat)) as nat, (bit_width(n as nat)
        - 1) as nat);
    assert(n.spec_bits().subrange(0, n.spec_bits().len() as int) =~= n.spec_bits());
    n.lemma_save_then_parse(n.spec_bits(), 0);
}

} // verus!
