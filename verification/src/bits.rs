//! Facts about single bits of a 64-bit mask.

use vstd::prelude::*;

verus! {

/// Whether bit `i` of `m` is set. There is no bit 64 or above.
pub open spec fn bit(m: u64, i: int) -> bool {
    0 <= i < 64 && (m >> (i as u64)) & 1 == 1
}

/// The lowest `n` bits of `x`.
pub open spec fn low(x: u64, n: u64) -> u64 {
    x & !(0xffff_ffff_ffff_ffffu64 << n)
}

proof fn lemma_low_none(x: u64)
    by (bit_vector)
    ensures
        low(x, 0) == 0,
{
}

proof fn lemma_low_step(x: u64, n: u64)
    by (bit_vector)
    requires
        n < 63,
        low(x, n) == 0,
        (x >> n) & 1 != 1,
    ensures
        low(x, (n + 1) as u64) == 0,
{
}

proof fn lemma_low_all(x: u64)
    by (bit_vector)
    requires
        low(x, 63) == 0,
        (x >> 63) & 1 != 1,
    ensures
        x == 0,
{
}

proof fn lemma_low_clear(x: u64, n: u64)
    requires
        n <= 63,
        forall|i: int| 0 <= i < n ==> !bit(x, i),
    ensures
        low(x, n) == 0,
    decreases n,
{
    if n == 0 {
        lemma_low_none(x);
    } else {
        let m = (n - 1) as u64;
        lemma_low_clear(x, m);
        assert(!bit(x, m as int));
        lemma_low_step(x, m);
    }
}

/// A mask that is not zero has a bit set.
pub proof fn lemma_some_bit(x: u64)
    requires
        x != 0,
    ensures
        exists|i: int| bit(x, i),
{
    if forall|i: int| !bit(x, i) {
        lemma_low_clear(x, 63);
        assert(!bit(x, 63));
        lemma_low_all(x);
    }
}

/// A mask with a bit set is not zero.
pub proof fn lemma_bit_nonzero(x: u64, i: int)
    requires
        bit(x, i),
    ensures
        x != 0,
{
    let j = i as u64;
    assert((x >> j) & 1 == 1 ==> x != 0) by (bit_vector);
}

/// Two masks with the same bits are the same mask.
pub proof fn lemma_same_bits(a: u64, b: u64)
    requires
        forall|i: int| 0 <= i < 64 ==> bit(a, i) == bit(b, i),
    ensures
        a == b,
{
    let x = a ^ b;
    if x != 0 {
        lemma_some_bit(x);
        let i = choose|i: int| bit(x, i);
        let j = i as u64;
        assert(((a ^ b) >> j) & 1 == 1 ==> (((a >> j) & 1 == 1) != ((b >> j) & 1 == 1)))
            by (bit_vector);
        assert(bit(a, i) == bit(b, i));
    }
    assert(a ^ b == 0 ==> a == b) by (bit_vector);
}

/// Masking with a single bit tells whether that bit is set.
pub proof fn lemma_probe(m: u64, i: int)
    requires
        0 <= i < 64,
    ensures
        bit(m, i) == (m & (1u64 << (i as u64)) != 0),
{
    let j = i as u64;
    assert(j < 64 ==> (((m >> j) & 1 == 1) == (m & (1u64 << j) != 0))) by (bit_vector);
}

/// Toggling bit `e` changes that bit and no other.
pub proof fn lemma_toggle(m: u64, e: int, i: int)
    requires
        0 <= e < 64,
        0 <= i < 64,
    ensures
        bit(m ^ (1u64 << (e as u64)), i) == (if i == e {
            !bit(m, i)
        } else {
            bit(m, i)
        }),
{
    let eu = e as u64;
    let iu = i as u64;
    assert(eu < 64 && iu < 64 ==> ((((m ^ (1u64 << eu)) >> iu) & 1 == 1) == (if iu == eu {
        !((m >> iu) & 1 == 1)
    } else {
        (m >> iu) & 1 == 1
    }))) by (bit_vector);
}

/// The bits of `a ^ b`.
pub proof fn lemma_xor_bit(a: u64, b: u64, i: int)
    requires
        0 <= i < 64,
    ensures
        bit(a ^ b, i) == (bit(a, i) != bit(b, i)),
{
    let j = i as u64;
    assert(j < 64 ==> ((((a ^ b) >> j) & 1 == 1) == (((a >> j) & 1 == 1) != ((b >> j) & 1 == 1))))
        by (bit_vector);
}

/// The mask whose bit `i` is set where `b` has the four bits `i`, `i + k`,
/// `i + 2k` and `i + 3k`.
pub open spec fn run(b: u64, k: u64) -> u64 {
    b & (b >> k) & (b >> ((2 * k) as u64)) & (b >> ((3 * k) as u64))
}

/// The bits of `run(b, k)`.
pub proof fn lemma_run(b: u64, k: u64, i: int)
    requires
        0 <= i < 64,
        1 <= k <= 8,
    ensures
        bit(run(b, k), i) <==> bit(b, i) && bit(b, i + k) && bit(b, i + 2 * k) && bit(
            b,
            i + 3 * k,
        ),
{
    let j = i as u64;
    assert(j < 64 && 1 <= k <= 8 ==> (((b & (b >> k) & (b >> ((2 * k) as u64)) & (b >> ((3
        * k) as u64))) >> j) & 1 == 1 <==> (j + 3 * k < 64 && (b >> j) & 1 == 1 && (b >> ((j
        + k) as u64)) & 1 == 1 && (b >> ((j + 2 * k) as u64)) & 1 == 1 && (b >> ((j + 3
        * k) as u64)) & 1 == 1))) by (bit_vector);
}

} // verus!
