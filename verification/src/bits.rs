//! Bit masks over a window of 32 bytes: bit `j` of a mask speaks of the
//! byte at offset `j` of the window.

use vstd::prelude::*;
use vstd::std_specs::bits::{axiom_u32_trailing_zeros, u32_trailing_zeros};

verus! {

/// Whether bit `j` of `mask` is set.
pub open spec fn bit(mask: u32, j: int) -> bool {
    0 <= j < 32 && (mask >> (j as u32)) & 1u32 == 1u32
}

/// Setting bit `j` changes bit `j` and no other.
proof fn lemma_set_at(m: u32, j: u32, k: u32)
    by (bit_vector)
    requires
        j < 32,
        k < 32,
    ensures
        ((m | (1u32 << j)) >> k) & 1u32 == 1u32 <==> ((m >> k) & 1u32 == 1u32 || k == j),
{
}

/// A bit of `a | b` is set where it is set in `a` or in `b`.
proof fn lemma_or_at(a: u32, b: u32, k: u32)
    by (bit_vector)
    requires
        k < 32,
    ensures
        ((a | b) >> k) & 1u32 == 1u32 <==> ((a >> k) & 1u32 == 1u32 || (b >> k) & 1u32 == 1u32),
{
}

/// No bit of 0 is set.
proof fn lemma_zero_at(k: u32)
    by (bit_vector)
    requires
        k < 32,
    ensures
        (0u32 >> k) & 1u32 == 0u32,
{
}

/// Where the bits below `t` are clear and bit `t` is clear, the bits below
/// `t + 1` are clear.
proof fn lemma_low_step(m: u32, t: u32)
    by (bit_vector)
    requires
        t < 32,
        m & (((1u32 << t) - 1) as u32) == 0,
        (m >> t) & 1u32 == 0u32,
    ensures
        t < 31 ==> m & (((1u32 << ((t + 1) as u32)) - 1) as u32) == 0,
        t == 31 ==> m == 0,
{
}

/// With `t` the lowest set bit of `m`: `m ^ (m - 1)` has the bits up to `t`
/// set and no other, and `m & (m - 1)` is `m` without bit `t`.
proof fn lemma_low_at(m: u32, x: u32, t: u32, k: u32)
    by (bit_vector)
    requires
        t < 32,
        k < 32,
        (m >> t) & 1u32 == 1u32,
        m & (((1u32 << t) - 1) as u32) == 0,
    ensures
        ((m ^ ((m - 1) as u32)) >> k) & 1u32 == 1u32 <==> k <= t,
        ((x & !(m ^ ((m - 1) as u32))) >> k) & 1u32 == 1u32 <==> ((x >> k) & 1u32 == 1u32 && k > t),
        ((m & ((m - 1) as u32)) >> k) & 1u32 == 1u32 <==> ((m >> k) & 1u32 == 1u32 && k != t),
{
}

/// The bits below `t` of `m` are clear, as one equation.
spec fn low_clear(m: u32, t: u32) -> bool {
    m & (((1u32 << t) - 1) as u32) == 0
}

/// Bits that are clear one by one are clear as one equation.
proof fn lemma_low_clear(m: u32, t: u32)
    requires
        t < 32,
        forall|j: u32| 0 <= j < t ==> #[trigger] (m >> j) & 1u32 == 0u32,
    ensures
        low_clear(m, t),
    decreases t,
{
    if t == 0 {
        assert(m & (((1u32 << 0u32) - 1) as u32) == 0) by (bit_vector);
    } else {
        let s = (t - 1) as u32;
        lemma_low_clear(m, s);
        assert((m >> s) & 1u32 == 0u32);
        lemma_low_step(m, s);
    }
}

/// The empty mask has no bit set.
pub proof fn lemma_no_bits()
    ensures
        forall|k: int| !bit(0u32, k),
{
    assert forall|k: int| !bit(0u32, k) by {
        if 0 <= k < 32 {
            lemma_zero_at(k as u32);
        }
    }
}

/// `m` with bit `j` set, too.
pub fn with_bit(m: u32, j: u32) -> (r: u32)
    requires
        j < 32,
    ensures
        forall|k: int| bit(r, k) <==> bit(m, k) || k == j,
{
    let r = m | (1u32 << j);
    proof {
        assert forall|k: int| bit(r, k) <==> bit(m, k) || k == j by {
            if 0 <= k < 32 {
                lemma_set_at(m, j, k as u32);
            }
        }
    }
    r
}

/// The bits of `a` and those of `b`.
pub fn either(a: u32, b: u32) -> (r: u32)
    ensures
        forall|k: int| bit(r, k) <==> bit(a, k) || bit(b, k),
        (a == 0 && b == 0) ==> r == 0,
{
    let r = a | b;
    proof {
        assert forall|k: int| bit(r, k) <==> bit(a, k) || bit(b, k) by {
            if 0 <= k < 32 {
                lemma_or_at(a, b, k as u32);
            }
        }
        assert(0u32 | 0u32 == 0u32) by (bit_vector);
    }
    r
}

/// The place of the lowest set bit of `m`, by `u32::trailing_zeros`; what
/// is known of that count is what vstd proves of it.
pub fn lowest(m: u32) -> (t: u32)
    requires
        m != 0,
    ensures
        t < 32,
        t == u32_trailing_zeros(m),
        bit(m, t as int),
        forall|k: int| 0 <= k < t ==> !bit(m, k),
{
    proof {
        axiom_u32_trailing_zeros(m);
        let t = u32_trailing_zeros(m);
        assert forall|k: int| 0 <= k < t implies !bit(m, k) by {
            assert((m >> (k as u32)) & 1u32 == 0u32);
        }
    }
    m.trailing_zeros()
}

/// `x` without its bits at and below the lowest set bit of `m`; for `x`
/// equal to `m` this is `m & (m - 1)`, which drops that one bit.
pub fn above_lowest(x: u32, m: u32) -> (r: u32)
    requires
        m != 0,
    ensures
        forall|k: int| bit(r, k) <==> bit(x, k) && k > u32_trailing_zeros(m),
        x == m ==> r == m & ((m - 1) as u32),
{
    let low = m ^ (m - 1);
    let r = x & !low;
    proof {
        axiom_u32_trailing_zeros(m);
        let t = u32_trailing_zeros(m);
        lemma_low_clear(m, t);
        assert forall|k: int| bit(r, k) <==> bit(x, k) && k > t by {
            if 0 <= k < 32 {
                lemma_low_at(m, x, t, k as u32);
            }
        }
        assert(m & !(m ^ ((m - 1) as u32)) == m & ((m - 1) as u32)) by (bit_vector)
            requires
                m != 0,
        ;
    }
    r
}

} // verus!
