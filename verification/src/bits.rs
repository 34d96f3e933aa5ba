//! Bit-level facts about 64-bit masks.

use vstd::prelude::*;

verus! {

/// Whether bit `i` of `m` is set. Out of `0..64` no bit is set.
pub open spec fn bit(m: u64, i: int) -> bool {
    0 <= i < 64 && (m >> (i as u64)) & 1 == 1
}

/// The mask that holds square `i` alone.
pub open spec fn single(i: int) -> u64 {
    1u64 << (i as u64)
}

/// Where the `n` lowest bits of `x` are clear and bit `n` is clear too, the
/// `n + 1` lowest bits are clear.
proof fn lemma_low_step_bv(x: u64, n: u64)
    by (bit_vector)
    requires
        n < 64,
        n == 0 || x << ((64 - n) as u64) == 0,
        (x >> n) & 1 != 1,
    ensures
        x << ((63 - n) as u64) == 0,
{
}

/// Masks that differ in no bit are equal.
proof fn lemma_xor_zero_bv(a: u64, b: u64)
    by (bit_vector)
    requires
        (a ^ b) << 0 == 0,
    ensures
        a == b,
{
}

/// A mask without a bit below `n` vanishes when it is shifted up by `64 - n`.
proof fn lemma_low_bits_clear(x: u64, n: int)
    requires
        0 <= n <= 64,
        forall|i: int| 0 <= i < n ==> !bit(x, i),
    ensures
        n == 0 || x << ((64 - n) as u64) == 0,
    decreases n,
{
    if n > 0 {
        lemma_low_bits_clear(x, n - 1);
        assert(!bit(x, n - 1));
        lemma_low_step_bv(x, (n - 1) as u64);
    }
}

/// Two masks with the same bits are equal.
pub proof fn lemma_ext(a: u64, b: u64)
    requires
        forall|i: int| 0 <= i < 64 ==> bit(a, i) == bit(b, i),
    ensures
        a == b,
{
    let x = a ^ b;
    assert forall|i: int| 0 <= i < 64 implies !bit(x, i) by {
        lemma_ops_bv(a, b, i as u64);
        assert(bit(a, i) == bit(b, i));
    }
    lemma_low_bits_clear(x, 64);
    lemma_xor_zero_bv(a, b);
}

/// Bit `i` of a union, an intersection, a difference and a complement, and of
/// the empty and the full mask.
proof fn lemma_ops_bv(a: u64, b: u64, i: u64)
    by (bit_vector)
    requires
        i < 64,
    ensures
        (((a | b) >> i) & 1 == 1) == (((a >> i) & 1 == 1) || ((b >> i) & 1 == 1)),
        (((a & b) >> i) & 1 == 1) == (((a >> i) & 1 == 1) && ((b >> i) & 1 == 1)),
        (((a ^ b) >> i) & 1 == 1) == (((a >> i) & 1 == 1) != ((b >> i) & 1 == 1)),
        (((!a) >> i) & 1 == 1) == !((a >> i) & 1 == 1),
        ((0u64 >> i) & 1 == 1) == false,
        ((0xffff_ffff_ffff_ffffu64 >> i) & 1 == 1) == true,
{
}

/// `1 << p` has bit `p` and no other.
proof fn lemma_single_bv(p: u64, i: u64)
    by (bit_vector)
    requires
        p < 64,
        i < 64,
    ensures
        (((1u64 << p) >> i) & 1 == 1) == (i == p),
{
}

/// A mask meets `1 << p` exactly when its bit `p` is set.
proof fn lemma_test_bv(m: u64, p: u64)
    by (bit_vector)
    requires
        p < 64,
    ensures
        (m & (1u64 << p) != 0) == ((m >> p) & 1 == 1),
        ((1u64 << p) & m != 0) == ((m >> p) & 1 == 1),
{
}

/// A mask meets `single(p)` exactly when its bit `p` is set.
pub proof fn lemma_test(m: u64, p: int)
    requires
        0 <= p < 64,
    ensures
        (m & single(p) != 0) == bit(m, p),
        (m & single(p) == 0) == !bit(m, p),
        (single(p) & m != 0) == bit(m, p),
{
    lemma_test_bv(m, p as u64);
}

/// The bits of `single(p)`.
pub proof fn lemma_single(p: int)
    requires
        0 <= p < 64,
    ensures
        forall|i: int| #[trigger] bit(single(p), i) == (i == p),
{
    assert forall|i: int| #[trigger] bit(single(p), i) == (i == p) by {
        if 0 <= i < 64 {
            lemma_single_bv(p as u64, i as u64);
        }
    }
}

/// The bits of the unions, intersections and complements of two masks.
pub proof fn lemma_ops(a: u64, b: u64)
    ensures
        forall|i: int| #[trigger] bit(a | b, i) == (bit(a, i) || bit(b, i)),
        forall|i: int| #[trigger] bit(a & b, i) == (bit(a, i) && bit(b, i)),
        forall|i: int| #[trigger] bit(a ^ b, i) == (bit(a, i) != bit(b, i)),
        forall|i: int| #[trigger] bit(!a, i) == (0 <= i < 64 && !bit(a, i)),
{
    assert forall|i: int| #[trigger] bit(a | b, i) == (bit(a, i) || bit(b, i)) by {
        if 0 <= i < 64 {
            lemma_ops_bv(a, b, i as u64);
        }
    }
    assert forall|i: int| #[trigger] bit(a & b, i) == (bit(a, i) && bit(b, i)) by {
        if 0 <= i < 64 {
            lemma_ops_bv(a, b, i as u64);
        }
    }
    assert forall|i: int| #[trigger] bit(a ^ b, i) == (bit(a, i) != bit(b, i)) by {
        if 0 <= i < 64 {
            lemma_ops_bv(a, b, i as u64);
        }
    }
    assert forall|i: int| #[trigger] bit(!a, i) == (0 <= i < 64 && !bit(a, i)) by {
        if 0 <= i < 64 {
            lemma_ops_bv(a, b, i as u64);
        }
    }
}

/// The empty mask has no bit, the full mask has all of them.
pub proof fn lemma_consts()
    ensures
        forall|i: int| !#[trigger] bit(0, i),
        forall|i: int| #[trigger] bit(0xffff_ffff_ffff_ffff, i) == (0 <= i < 64),
{
    assert forall|i: int| !#[trigger] bit(0, i) by {
        if 0 <= i < 64 {
            lemma_ops_bv(0, 0, i as u64);
        }
    }
    assert forall|i: int| #[trigger] bit(0xffff_ffff_ffff_ffff, i) == (0 <= i < 64) by {
        if 0 <= i < 64 {
            lemma_ops_bv(0, 0, i as u64);
        }
    }
}

/// How many of the squares below `n` are in `m`.
pub open spec fn count_below(m: u64, n: int) -> nat
    decreases n,
{
    if n <= 0 {
        0
    } else {
        count_below(m, n - 1) + if bit(m, n - 1) {
            1nat
        } else {
            0nat
        }
    }
}

/// How many squares are in `m`.
pub open spec fn popcount(m: u64) -> nat {
    count_below(m, 64)
}

/// No more squares below `n` than `n`.
pub proof fn lemma_count_bound(m: u64, n: int)
    requires
        0 <= n,
    ensures
        count_below(m, n) <= n,
    decreases n,
{
    if n > 0 {
        lemma_count_bound(m, n - 1);
    }
}

/// A mask that gains the one square `p` counts one more from `p` on.
pub proof fn lemma_count_gain(a: u64, b: u64, p: int, n: int)
    requires
        0 <= p < 64,
        !bit(a, p),
        forall|i: int| 0 <= i < 64 ==> bit(b, i) == (bit(a, i) || i == p),
        0 <= n <= 64,
    ensures
        count_below(b, n) == count_below(a, n) + if p < n {
            1nat
        } else {
            0nat
        },
    decreases n,
{
    if n > 0 {
        lemma_count_gain(a, b, p, n - 1);
    }
}

/// Number of set bits of `m`.
pub fn count_bits(m: u64) -> (r: u32)
    ensures
        r == popcount(m),
        r <= 64,
{
    let mut c: u32 = 0;
    let mut i: u32 = 0;
    while i < 64
        invariant
            i <= 64,
            c == count_below(m, i as int),
            c <= i,
        decreases 64 - i,
    {
        if (m >> i) & 1 == 1 {
            c += 1;
        }
        i += 1;
    }
    c
}

/// The mask of the squares below `n` that `pred` holds of.
pub open spec fn mask_below(pred: spec_fn(int) -> bool, n: int) -> u64
    decreases n,
{
    if n <= 0 {
        0
    } else {
        mask_below(pred, n - 1) | if pred(n - 1) {
            single(n - 1)
        } else {
            0
        }
    }
}

/// The mask of the squares of the board that `pred` holds of.
pub open spec fn mask_where(pred: spec_fn(int) -> bool) -> u64 {
    mask_below(pred, 64)
}

/// The bits of `mask_below`.
pub proof fn lemma_mask_below(pred: spec_fn(int) -> bool, n: int)
    requires
        0 <= n <= 64,
    ensures
        forall|q: int| #[trigger] bit(mask_below(pred, n), q) == (0 <= q < n && pred(q)),
    decreases n,
{
    if n <= 0 {
        lemma_consts();
    } else {
        lemma_mask_below(pred, n - 1);
        let tail = if pred(n - 1) {
            single(n - 1)
        } else {
            0
        };
        lemma_ops(mask_below(pred, n - 1), tail);
        lemma_single(n - 1);
        lemma_consts();
    }
}

/// The bits of `mask_where`: the squares of the board that `pred` holds of.
pub proof fn lemma_mask_where(pred: spec_fn(int) -> bool)
    ensures
        forall|q: int| #[trigger] bit(mask_where(pred), q) == (0 <= q < 64 && pred(q)),
{
    lemma_mask_below(pred, 64);
}

/// A mask whose bits are the squares that `pred` holds of is `mask_where(pred)`.
pub proof fn lemma_mask_where_unique(m: u64, pred: spec_fn(int) -> bool)
    requires
        forall|q: int| 0 <= q < 64 ==> bit(m, q) == pred(q),
    ensures
        m == mask_where(pred),
{
    lemma_mask_where(pred);
    lemma_ext(m, mask_where(pred));
}

/// A mask without squares in `lo..hi` counts the same below both.
pub proof fn lemma_count_gap(m: u64, lo: int, hi: int)
    requires
        0 <= lo <= hi,
        forall|i: int| lo <= i < hi ==> !bit(m, i),
    ensures
        count_below(m, hi) == count_below(m, lo),
    decreases hi - lo,
{
    if lo < hi {
        lemma_count_gap(m, lo, hi - 1);
    }
}

/// A count of zero below `n` means that no square below `n` is in the mask.
pub proof fn lemma_count_zero(m: u64, n: int)
    requires
        0 <= n,
    ensures
        count_below(m, n) == 0 <==> forall|i: int| 0 <= i < n ==> !bit(m, i),
    decreases n,
{
    if n > 0 {
        lemma_count_zero(m, n - 1);
        if count_below(m, n) == 0 {
            assert forall|i: int| 0 <= i < n implies !bit(m, i) by {
                if i < n - 1 {
                } else {
                    assert(!bit(m, n - 1));
                }
            }
        }
        if forall|i: int| 0 <= i < n ==> !bit(m, i) {
            assert(!bit(m, n - 1));
            assert(forall|i: int| 0 <= i < n - 1 ==> !bit(m, i));
        }
    }
}

/// Only the empty mask counts zero squares.
pub proof fn lemma_popcount_zero(m: u64)
    ensures
        popcount(m) == 0 <==> m == 0,
        popcount(m) <= 64,
{
    lemma_count_zero(m, 64);
    lemma_count_bound(m, 64);
    lemma_consts();
    if popcount(m) == 0 {
        lemma_ext(m, 0);
    }
}

/// A mask is not empty exactly when it has a square.
pub proof fn lemma_nonzero(m: u64)
    ensures
        m != 0 <==> exists|i: int| bit(m, i),
{
    lemma_consts();
    if !(exists|i: int| bit(m, i)) {
        assert forall|i: int| 0 <= i < 64 implies bit(m, i) == bit(0, i) by {
            assert(!bit(m, i));
        }
        lemma_ext(m, 0);
    }
}

/// Whether square `i` is in `m`.
pub fn test_bit(m: u64, i: u8) -> (r: bool)
    requires
        i < 64,
    ensures
        r == bit(m, i as int),
{
    proof {
        lemma_test(m, i as int);
    }
    (m & (1u64 << (i as u64))) != 0
}

/// A mask covers `part` exactly when it has every square of `part`.
pub proof fn lemma_covers(m: u64, part: u64)
    ensures
        (m & part == part) <==> forall|i: int| bit(part, i) ==> bit(m, i),
{
    lemma_ops(m, part);
    if forall|i: int| bit(part, i) ==> bit(m, i) {
        lemma_ext(m & part, part);
    }
    if m & part == part {
        assert forall|i: int| bit(part, i) implies bit(m, i) by {
            assert(bit(m & part, i));
        }
    }
}

} // verus!
