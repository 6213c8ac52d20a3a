//! Bit-mask primitives for one line of cells, and the facts about them that
//! the rest of the crate reasons with.

use vstd::prelude::*;
use crate::common::Mask;

verus! {

/// Whether cell `i` is a member of `x`.
pub open spec fn bit(x: Mask, i: int) -> bool {
    0 <= i < 64 && (x >> (i as u64)) & 1 == 1
}

/// The mask of the cells `0 .. n`.
pub open spec fn low_bits(n: int) -> Mask {
    if n <= 0 {
        0
    } else if n >= 64 {
        u64::MAX
    } else {
        !(u64::MAX << (n as u64))
    }
}

/// The mask of the `h` cells `p .. p + h`.
pub open spec fn run_mask(p: int, h: int) -> Mask {
    low_bits(h) << (p as u64)
}

/// Every cell of `sub` is a cell of `sup`.
pub open spec fn includes(sup: Mask, sub: Mask) -> bool {
    sup & sub == sub
}

/// `x` and `y` have no cell in common.
pub open spec fn disjoint(x: Mask, y: Mask) -> bool {
    x & y == 0
}

/// The cells of `x` that are not cells of `y`.
pub open spec fn without(x: Mask, y: Mask) -> Mask {
    x & !y
}

/// How many of the cells `0 .. n` are members of `m`.
pub open spec fn count_bits(m: Mask, n: int) -> int
    decreases n,
{
    if n <= 0 {
        0
    } else {
        count_bits(m, n - 1) + if bit(m, n - 1) {
            1int
        } else {
            0int
        }
    }
}

/// The mask with exactly the low `width` bits set.
pub fn all(width: usize) -> (r: Mask)
    requires
        width < 64,
    ensures
        r == low_bits(width as int),
        forall|i: int| bit(r, i) == (0 <= i < width),
{
    broadcast use lemma_bit_low_bits;

    let w: u64 = width as u64;
    assert((1u64 << w) >= 1 && ((1u64 << w) - 1) as u64 == (if w == 0 {
        0
    } else {
        !(0xffff_ffff_ffff_ffffu64 << w)
    })) by (bit_vector)
        requires
            w < 64,
    ;
    (1u64 << w) - 1
}

/// True iff every bit set in `sub` is set in `sup`.
pub fn subset_bit(sup: Mask, sub: Mask) -> (r: bool)
    ensures
        r == includes(sup, sub),
        r == (forall|i: int| bit(sub, i) ==> bit(sup, i)),
{
    proof {
        lemma_includes_bits(sup, sub);
    }
    sup & sub == sub
}

/// The bits set in `x` but not in `y`.
pub fn minus(x: Mask, y: Mask) -> (r: Mask)
    ensures
        r == without(x, y),
        disjoint(r, y),
        forall|i: int| bit(r, i) == (bit(x, i) && !bit(y, i)),
{
    broadcast use {lemma_bit_and, lemma_bit_not};

    proof {
        lemma_minus_disjoint(x, y);
    }
    x & !y
}

/// True iff `x` and `y` share no set bit.
pub fn distinct(x: Mask, y: Mask) -> (r: bool)
    ensures
        r == disjoint(x, y),
        r == (forall|i: int| !(bit(x, i) && bit(y, i))),
{
    proof {
        lemma_disjoint_bits(x, y);
    }
    x & y == 0
}

/// True iff bit `i` of `x` is set.
pub fn set(x: Mask, i: usize) -> (r: bool)
    requires
        i < 64,
    ensures
        r == bit(x, i as int),
{
    x >> i & 1 == 1
}

/// Every mask includes itself.
pub proof fn lemma_subset_reflexive(x: Mask)
    ensures
        includes(x, x),
{
    assert(x & x == x) by (bit_vector);
}

/// What is left after taking `y` away shares no cell with `y`.
pub proof fn lemma_minus_disjoint(x: Mask, y: Mask)
    ensures
        disjoint(without(x, y), y),
{
    assert((x & !y) & y == 0) by (bit_vector);
}

/// Every mask is disjoint from the empty mask.
pub proof fn lemma_distinct_zero(x: Mask)
    ensures
        disjoint(x, 0),
{
    assert(x & 0 == 0) by (bit_vector);
}

/// The empty mask has no cell.
pub broadcast proof fn lemma_bit_zero(i: int)
    ensures
        !#[trigger] bit(0, i),
{
    if 0 <= i < 64 {
        let k = i as u64;
        assert((0u64 >> k) & 1 == 0) by (bit_vector);
    }
}

/// A union has the cells of both masks.
pub broadcast proof fn lemma_bit_or(a: Mask, b: Mask, i: int)
    ensures
        #[trigger] bit(a | b, i) == (bit(a, i) || bit(b, i)),
{
    if 0 <= i < 64 {
        let k = i as u64;
        assert((((a | b) >> k) & 1 == 1) == (((a >> k) & 1 == 1) || ((b >> k) & 1 == 1)))
            by (bit_vector);
    }
}

/// An intersection has the cells that both masks have.
pub broadcast proof fn lemma_bit_and(a: Mask, b: Mask, i: int)
    ensures
        #[trigger] bit(a & b, i) == (bit(a, i) && bit(b, i)),
{
    if 0 <= i < 64 {
        let k = i as u64;
        assert((((a & b) >> k) & 1 == 1) == (((a >> k) & 1 == 1) && ((b >> k) & 1 == 1)))
            by (bit_vector);
    }
}

/// A complement has the cells that the mask lacks.
pub broadcast proof fn lemma_bit_not(a: Mask, i: int)
    ensures
        #[trigger] bit(!a, i) == (0 <= i < 64 && !bit(a, i)),
{
    if 0 <= i < 64 {
        let k = i as u64;
        assert((((!a) >> k) & 1 == 1) == !((a >> k) & 1 == 1)) by (bit_vector)
            requires
                k < 64,
        ;
    }
}

/// A symmetric difference has the cells that one mask alone has.
pub broadcast proof fn lemma_bit_xor(a: Mask, b: Mask, i: int)
    ensures
        #[trigger] bit(a ^ b, i) == (bit(a, i) != bit(b, i)),
{
    if 0 <= i < 64 {
        let k = i as u64;
        assert((((a ^ b) >> k) & 1 == 1) == (((a >> k) & 1 == 1) != ((b >> k) & 1 == 1)))
            by (bit_vector);
    }
}

/// The mask of the low `n` cells has the cells `0 .. n`.
pub broadcast proof fn lemma_bit_low_bits(n: int, i: int)
    ensures
        #[trigger] bit(low_bits(n), i) == (0 <= i < n && i < 64),
{
    if 0 <= i < 64 {
        let k = i as u64;
        if n <= 0 {
            lemma_bit_zero(i);
        } else if n >= 64 {
            assert((0xffff_ffff_ffff_ffffu64 >> k) & 1 == 1) by (bit_vector)
                requires
                    k < 64,
            ;
        } else {
            let m = n as u64;
            assert((((!(0xffff_ffff_ffff_ffffu64 << m)) >> k) & 1 == 1) == (k < m)) by (bit_vector)
                requires
                    k < 64,
                    m < 64,
            ;
        }
    }
}

/// The mask of a run has the cells of the run.
pub broadcast proof fn lemma_bit_run(p: int, h: int, i: int)
    requires
        0 <= p,
        0 <= h < 64,
        p + h <= 64,
    ensures
        #[trigger] bit(run_mask(p, h), i) == (p <= i < p + h),
{
    if 0 <= i < 64 {
        let k = i as u64;
        let q = p as u64;
        let m = h as u64;
        let low = low_bits(h);
        assert(low == if m == 0 { 0 } else { !(0xffff_ffff_ffff_ffffu64 << m) });
        assert((((low << q) >> k) & 1 == 1) == (q <= k && k < q + m)) by (bit_vector)
            requires
                k < 64,
                m < 64,
                q + m <= 64,
                low == if m == 0 { 0 } else { !(0xffff_ffff_ffff_ffffu64 << m) },
        ;
    }
}

/// The mask of one cell has that cell.
pub broadcast proof fn lemma_bit_single(j: int, i: int)
    requires
        0 <= j < 64,
    ensures
        #[trigger] bit(1u64 << (j as u64), i) == (i == j),
{
    if 0 <= i < 64 {
        let k = i as u64;
        let q = j as u64;
        assert((((1u64 << q) >> k) & 1 == 1) == (k == q)) by (bit_vector)
            requires
                k < 64,
                q < 64,
        ;
    }
}

/// Masks that agree on the cells `0 .. n` agree once cut down to them.
proof fn lemma_agree_below(a: Mask, b: Mask, n: int)
    requires
        0 <= n <= 64,
        forall|i: int| 0 <= i < n ==> bit(a, i) == bit(b, i),
    ensures
        a & low_bits(n) == b & low_bits(n),
    decreases n,
{
    if n == 0 {
        assert(a & 0 == b & 0) by (bit_vector);
    } else {
        lemma_agree_below(a, b, n - 1);
        let k = (n - 1) as u64;
        let lo = low_bits(n - 1);
        let hi = low_bits(n);
        assert(bit(a, n - 1) == bit(b, n - 1));
        let k1 = (k + 1) as u64;
        assert(hi == if k == 63 {
            0xffff_ffff_ffff_ffffu64
        } else {
            !(0xffff_ffff_ffff_ffffu64 << k1)
        });
        assert(lo == if k == 0 {
            0
        } else {
            !(0xffff_ffff_ffff_ffffu64 << k)
        });
        assert(a & hi == b & hi) by (bit_vector)
            requires
                k < 64,
                k1 == k + 1,
                lo == if k == 0 {
                    0
                } else {
                    !(0xffff_ffff_ffff_ffffu64 << k)
                },
                hi == if k == 63 {
                    0xffff_ffff_ffff_ffffu64
                } else {
                    !(0xffff_ffff_ffff_ffffu64 << k1)
                },
                a & lo == b & lo,
                ((a >> k) & 1 == 1) == ((b >> k) & 1 == 1),
        ;
    }
}

/// Two masks with the same cells are the same mask.
pub proof fn lemma_mask_ext(a: Mask, b: Mask)
    requires
        forall|i: int| 0 <= i < 64 ==> bit(a, i) == bit(b, i),
    ensures
        a == b,
{
    lemma_agree_below(a, b, 64);
    assert(a & 0xffff_ffff_ffff_ffffu64 == a) by (bit_vector);
    assert(b & 0xffff_ffff_ffff_ffffu64 == b) by (bit_vector);
}

/// Inclusion of masks is inclusion of their cells.
pub proof fn lemma_includes_bits(sup: Mask, sub: Mask)
    ensures
        includes(sup, sub) <==> (forall|i: int| bit(sub, i) ==> bit(sup, i)),
{
    broadcast use group_mask_bits;

    if includes(sup, sub) {
        assert forall|i: int| bit(sub, i) implies bit(sup, i) by {
            assert(bit(sup & sub, i));
        }
    }
    if forall|i: int| bit(sub, i) ==> bit(sup, i) {
        assert forall|i: int| 0 <= i < 64 implies bit(sup & sub, i) == bit(sub, i) by {}
        lemma_mask_ext(sup & sub, sub);
    }
}

/// Two masks are disjoint where no cell is in both.
pub proof fn lemma_disjoint_bits(x: Mask, y: Mask)
    ensures
        disjoint(x, y) <==> (forall|i: int| !(bit(x, i) && bit(y, i))),
{
    broadcast use group_mask_bits;

    if disjoint(x, y) {
        assert forall|i: int| !(bit(x, i) && bit(y, i)) by {
            assert(!bit(x & y, i));
        }
    }
    if forall|i: int| !(bit(x, i) && bit(y, i)) {
        assert forall|i: int| 0 <= i < 64 implies bit(x & y, i) == bit(0, i) by {}
        lemma_mask_ext(x & y, 0);
    }
}

/// The mask of the cells below `n` that `f` holds of.
pub open spec fn mask_where(f: spec_fn(int) -> bool, n: int) -> Mask
    decreases n,
{
    if n <= 0 {
        0
    } else if f(n - 1) {
        mask_where(f, n - 1) | (1u64 << ((n - 1) as u64))
    } else {
        mask_where(f, n - 1)
    }
}

/// The mask of the cells that `f` holds of has those cells.
pub proof fn lemma_mask_where_bits(f: spec_fn(int) -> bool, n: int, i: int)
    requires
        0 <= n <= 64,
    ensures
        bit(mask_where(f, n), i) == (0 <= i < n && f(i)),
    decreases n,
{
    broadcast use group_mask_bits;

    if n > 0 {
        lemma_mask_where_bits(f, n - 1, i);
    }
}

/// What the operations on masks do to the cells.
pub broadcast group group_mask_bits {
    lemma_bit_zero,
    lemma_bit_or,
    lemma_bit_and,
    lemma_bit_not,
    lemma_bit_xor,
    lemma_bit_low_bits,
    lemma_bit_run,
    lemma_bit_single,
}

} // verus!
