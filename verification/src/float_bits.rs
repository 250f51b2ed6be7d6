//! Single-precision values carried as their IEEE 754 bit patterns, with the
//! comparison that IEEE 754 defines on them, stated on integers.
use vstd::prelude::*;

verus! {

/// The sign bit of a bit pattern.
pub open spec fn sign_bit(bits: u32) -> bool {
    bits >= 0x8000_0000
}

/// The biased exponent field of a bit pattern.
pub open spec fn exponent_field(bits: u32) -> int {
    (bits as int / 0x80_0000) % 256
}

/// The fraction field of a bit pattern.
pub open spec fn fraction_field(bits: u32) -> int {
    bits as int % 0x80_0000
}

/// Whether a bit pattern encodes a NaN.
pub open spec fn is_nan(bits: u32) -> bool {
    exponent_field(bits) == 255 && fraction_field(bits) != 0
}

/// An integer that orders the non-NaN values the way IEEE 754 compares
/// them: the magnitude bits, negated for negative values, so that both
/// zeros share the key 0 and the infinities sit at the ends.
pub open spec fn order_key(bits: u32) -> int {
    let magnitude = bits as int % 0x8000_0000;
    if sign_bit(bits) { -magnitude } else { magnitude }
}

/// IEEE 754 `a > b` on the values with bit patterns `a` and `b`: false when
/// either is NaN, and equal values (including `+0` and `-0`) are not greater.
pub open spec fn f32_gt(a: u32, b: u32) -> bool {
    !is_nan(a) && !is_nan(b) && order_key(a) > order_key(b)
}

/// The bit pattern of `-1e10f32`.
pub const NEG_1E10_BITS: u32 = 0xD015_02F9;

/// Whether a bit pattern encodes a NaN.
pub fn bits_is_nan(bits: u32) -> (r: bool)
    ensures
        r == is_nan(bits),
{
    (bits / 0x80_0000) % 256 == 255 && bits % 0x80_0000 != 0
}

/// The comparison key of a non-NaN bit pattern.
pub fn bits_order_key(bits: u32) -> (k: i64)
    ensures
        k as int == order_key(bits),
{
    let magnitude: u32 = bits % 0x8000_0000;
    if bits >= 0x8000_0000 {
        -(magnitude as i64)
    } else {
        magnitude as i64
    }
}

/// IEEE 754 `a > b` on two single-precision values given by their bit patterns.
pub fn bits_gt(a: u32, b: u32) -> (r: bool)
    ensures
        r == f32_gt(a, b),
{
    !bits_is_nan(a) && !bits_is_nan(b) && bits_order_key(a) > bits_order_key(b)
}

/// IEEE 754 `>` is a strict order on the values that are not NaN: it is
/// irreflexive and transitive, and exactly one of `a > b`, `b > a` or
/// "neither" holds, where "neither" means equal keys (`+0` equals `-0`).
pub proof fn lemma_f32_gt_strict_order(a: u32, b: u32, c: u32)
    ensures
        !f32_gt(a, a),
        f32_gt(a, b) ==> !f32_gt(b, a),
        f32_gt(a, b) && f32_gt(b, c) ==> f32_gt(a, c),
        !is_nan(a) && !is_nan(b) ==> (f32_gt(a, b) || f32_gt(b, a) || order_key(a) == order_key(b)),
        is_nan(a) ==> !f32_gt(a, b) && !f32_gt(b, a),
{
}

/// The first index holding a greatest element of `v`, as a left-to-right
/// scan with `>` selects it: the scan starts at element 0 and moves only to
/// a strictly greater value. A NaN at index 0 is never replaced.
pub open spec fn is_argmax(v: Seq<u32>, r: int) -> bool {
    &&& 0 <= r < v.len()
    &&& is_nan(v[0]) ==> r == 0
    &&& !is_nan(v[0]) ==> {
        &&& !is_nan(v[r])
        &&& forall|j: int| 0 <= j < r ==> !is_nan(v[j]) ==> order_key(v[j]) < order_key(v[r])
        &&& forall|j: int| r < j < v.len() ==> !is_nan(v[j]) ==> order_key(v[j]) <= order_key(v[r])
    }
}

/// Greedy sampling: the index of the highest logit, given the logits as bit
/// patterns. Ties go to the earliest index.
pub fn sample_argmax(logits: &[u32]) -> (r: usize)
    requires
        logits@.len() > 0,
    ensures
        is_argmax(logits@, r as int),
{
    let mut max_val = logits[0];
    let mut max_idx: usize = 0;
    let mut i: usize = 1;
    while i < logits.len()
        invariant
            1 <= i <= logits@.len(),
            max_idx < i,
            max_val == logits@[max_idx as int],
            is_argmax(logits@.subrange(0, i as int), max_idx as int),
        decreases logits@.len() - i,
    {
        if bits_gt(logits[i], max_val) {
            max_val = logits[i];
            max_idx = i;
        }
        i += 1;
        assert(logits@.subrange(0, i as int)[0] == logits@[0]);
    }
    assert(logits@.subrange(0, i as int) =~= logits@);
    max_idx
}

/// The `f32` bit patterns of a buffer of little-endian bfloat16 values: each
/// pair of bytes becomes the upper half of a single-precision pattern whose
/// lower half is zero. A trailing odd byte is ignored.
pub fn bf16_to_f32_bits(data: &[u8]) -> (out: Vec<u32>)
    ensures
        out@.len() == data@.len() / 2,
        forall|i: int|
            0 <= i < out@.len() ==> #[trigger] out@[i] as int == (data@[2 * i] as int + 256
                * data@[2 * i + 1] as int) * 65536,
{
    let len = data.len();
    let n = len / 2;
    let mut out: Vec<u32> = Vec::with_capacity(n);
    let mut i: usize = 0;
    while i < n
        invariant
            len == data@.len(),
            n == data@.len() / 2,
            i <= n,
            out@.len() == i,
            forall|k: int|
                0 <= k < i ==> #[trigger] out@[k] as int == (data@[2 * k] as int + 256
                    * data@[2 * k + 1] as int) * 65536,
        decreases n - i,
    {
        assert(2 * i + 1 < data@.len()) by (nonlinear_arith)
            requires
                i < n,
                n == data@.len() / 2,
        ;
        let j: usize = i + i;
        let lo: u32 = data[j] as u32;
        let hi: u32 = data[j + 1] as u32;
        assert(lo < 256 && hi < 256);
        let half: u32 = lo + 256 * hi;
        out.push(half * 65536);
        i += 1;
    }
    out
}

} // verus!
