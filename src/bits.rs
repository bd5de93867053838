//! Order subsets as `u32` bitmasks, and the facts about them that the
//! searches rely on.
use vstd::prelude::*;

verus! {

/// Bit `k` of `m` is set.
pub open spec fn in_mask(m: u32, k: int) -> bool {
    m & (1u32 << (k as u32)) != 0
}

/// Every bit of `a` is set in `b`.
pub open spec fn within(a: u32, b: u32) -> bool {
    a & b == a
}

/// The mask of the first `n` orders.
pub open spec fn full_of(n: nat) -> u32 {
    ((1u64 << (n as u64)) - 1) as u32
}

pub proof fn lemma_set_bit(m: u32, k: u32)
    requires
        k < 32,
    ensures
        forall|j: u32| j < 32 ==> (#[trigger] in_mask(m | (1u32 << k), j as int) == (in_mask(m, j as int) || j == k)),
        !in_mask(m, k as int) ==> m | (1u32 << k) == m + (1u32 << k),
        1 <= (1u32 << k),
        in_mask(m | (1u32 << k), k as int),
{
    assert forall|j: u32| j < 32 implies (#[trigger] in_mask(m | (1u32 << k), j as int) == (in_mask(m, j as int) || j == k)) by {
        assert((m | (1u32 << k)) & (1u32 << j) != 0 <==> (m & (1u32 << j) != 0 || j == k)) by (bit_vector)
            requires k < 32, j < 32;
    }
    assert(m & (1u32 << k) == 0 ==> m | (1u32 << k) == m + (1u32 << k)) by (bit_vector)
        requires k < 32;
    assert(1 <= (1u32 << k)) by (bit_vector)
        requires k < 32;
}

/// The bits below `n` make the full mask, and nothing above it is set there.
pub proof fn lemma_full(n: u32)
    requires
        n <= 16,
    ensures
        full_of(n as nat) == ((1u32 << n) - 1) as u32,
        full_of(n as nat) < 65536,
        n == 0 ==> full_of(n as nat) == 0,
        n > 0 ==> full_of(n as nat) != 0,
        forall|k: u32| k < 32 ==> (#[trigger] in_mask(full_of(n as nat), k as int) == (k < n)),
        forall|m: u32| (forall|k: u32| k < 32 ==> (#[trigger] in_mask(m, k as int) ==> k < n)) ==> within(m, full_of(n as nat)),
{
    let f = full_of(n as nat);
    assert(((1u64 << (n as u64)) - 1) as u32 == ((1u32 << n) - 1) as u32) by (bit_vector)
        requires n <= 16;
    assert((((1u32 << n) - 1) as u32) < 65536 && (n == 0 ==> ((1u32 << n) - 1) as u32 == 0)
        && (n > 0 ==> ((1u32 << n) - 1) as u32 != 0)) by (bit_vector)
        requires n <= 16;
    assert forall|k: u32| k < 32 implies (#[trigger] in_mask(f, k as int) == (k < n)) by {
        assert((((1u32 << n) - 1) as u32) & (1u32 << k) != 0 <==> k < n) by (bit_vector)
            requires n <= 16, k < 32;
    }
    assert forall|m: u32| (forall|k: u32| k < 32 ==> (#[trigger] in_mask(m, k as int) ==> k < n)) implies within(m, f) by {
        lemma_bits_within(m, f);
    }
}

/// Inclusion of masks is inclusion of their bits.
pub proof fn lemma_bits_within(a: u32, b: u32)
    ensures
        within(a, b) <==> (forall|k: u32| k < 32 ==> (#[trigger] in_mask(a, k as int) ==> in_mask(b, k as int))),
{
    if forall|k: u32| k < 32 ==> (#[trigger] in_mask(a, k as int) ==> in_mask(b, k as int)) {
        assert((a & b) == a) by {
            assert forall|k: u32| k < 32 implies #[trigger] ((a & b) & (1u32 << k)) == (a & (1u32 << k)) by {
                assert(in_mask(a, k as int) ==> in_mask(b, k as int));
                assert((a & (1u32 << k) != 0 ==> b & (1u32 << k) != 0) ==> ((a & b) & (1u32 << k)) == (a & (1u32 << k))) by (bit_vector)
                    requires k < 32;
            }
            lemma_bits_eq(a & b, a);
        }
    }
    if within(a, b) {
        assert forall|k: u32| k < 32 implies (#[trigger] in_mask(a, k as int) ==> in_mask(b, k as int)) by {
            assert(a & b == a ==> (a & (1u32 << k) != 0 ==> b & (1u32 << k) != 0)) by (bit_vector)
                requires k < 32;
        }
    }
}

/// Two masks that agree on every bit are equal.
pub proof fn lemma_bits_eq(a: u32, b: u32)
    requires
        forall|k: u32| k < 32 ==> #[trigger] (a & (1u32 << k)) == (b & (1u32 << k)),
    ensures
        a == b,
{
    let x = a ^ b;
    assert forall|k: u32| k < 32 implies #[trigger] (x & (1u32 << k)) == 0 by {
        assert(a & (1u32 << k) == b & (1u32 << k) ==> (a ^ b) & (1u32 << k) == 0) by (bit_vector)
            requires k < 32;
    }
    assert(x == 0) by {
        assert(
            (x & (1u32 << 0u32)) == 0 && (x & (1u32 << 1u32)) == 0 && (x & (1u32 << 2u32)) == 0 && (x & (1u32 << 3u32)) == 0
            && (x & (1u32 << 4u32)) == 0 && (x & (1u32 << 5u32)) == 0 && (x & (1u32 << 6u32)) == 0 && (x & (1u32 << 7u32)) == 0
            && (x & (1u32 << 8u32)) == 0 && (x & (1u32 << 9u32)) == 0 && (x & (1u32 << 10u32)) == 0 && (x & (1u32 << 11u32)) == 0
            && (x & (1u32 << 12u32)) == 0 && (x & (1u32 << 13u32)) == 0 && (x & (1u32 << 14u32)) == 0 && (x & (1u32 << 15u32)) == 0
            && (x & (1u32 << 16u32)) == 0 && (x & (1u32 << 17u32)) == 0 && (x & (1u32 << 18u32)) == 0 && (x & (1u32 << 19u32)) == 0
            && (x & (1u32 << 20u32)) == 0 && (x & (1u32 << 21u32)) == 0 && (x & (1u32 << 22u32)) == 0 && (x & (1u32 << 23u32)) == 0
            && (x & (1u32 << 24u32)) == 0 && (x & (1u32 << 25u32)) == 0 && (x & (1u32 << 26u32)) == 0 && (x & (1u32 << 27u32)) == 0
            && (x & (1u32 << 28u32)) == 0 && (x & (1u32 << 29u32)) == 0 && (x & (1u32 << 30u32)) == 0 && (x & (1u32 << 31u32)) == 0
            ==> x == 0
        ) by (bit_vector);
    }
    assert((a ^ b) == 0 ==> a == b) by (bit_vector);
}

/// Identities of masks used throughout.
pub proof fn lemma_mask_facts(x: u32, y: u32, z: u32)
    ensures
        x | 0u32 == x,
        0u32 | x == x,
        x & 0u32 == 0u32,
        0u32 & x == 0u32,
        x ^ 0u32 == x,
        x ^ x == 0u32,
        x & y == y & x,
        x | (y | z) == (x | y) | z,
        x | y == 0u32 ==> x == 0u32 && y == 0u32,
        x & y == x && y & x == y ==> x == y,
        x & y == x && y & z == y ==> x & z == x,
        x & y == x ==> x <= y,
        (x & (y | z) == 0u32) == (x & y == 0u32 && x & z == 0u32),
        x & y == 0u32 ==> x | y == x + y && x & (x | y) == x && y & (x | y) == y,
        x & (x | y) == x,
        y & (x | y) == y,
{
    assert(
        x | 0u32 == x && 0u32 | x == x && x & 0u32 == 0u32 && 0u32 & x == 0u32 && x ^ 0u32 == x && x ^ x == 0u32
        && x & y == y & x && x | (y | z) == (x | y) | z
        && (x | y == 0u32 ==> x == 0u32 && y == 0u32)
        && (x & y == x && y & x == y ==> x == y)
        && (x & y == x && y & z == y ==> x & z == x)
        && (x & y == x ==> x <= y)
        && ((x & (y | z) == 0u32) == (x & y == 0u32 && x & z == 0u32))
        && (x & y == 0u32 ==> x | y == x + y && x & (x | y) == x && y & (x | y) == y)
        && x & (x | y) == x && y & (x | y) == y
    ) by (bit_vector);
}

/// No bit of the empty mask is set.
pub proof fn lemma_no_bits(k: u32)
    requires
        k < 32,
    ensures
        !in_mask(0, k as int),
        0u32 & (1u32 << k) == 0u32,
{
    assert(0u32 & (1u32 << k) == 0u32) by (bit_vector);
}

/// Masks with the same bits are equal.
pub proof fn lemma_same_bits(x: u32, y: u32)
    requires
        forall|l: u32| l < 32 ==> #[trigger] in_mask(x, l as int) == in_mask(y, l as int),
    ensures
        x == y,
{
    lemma_bits_within(x, y);
    lemma_bits_within(y, x);
    lemma_mask_facts(x, y, 0u32);
}

/// Two masks share no order exactly when no bit is set in both.
pub proof fn lemma_and_zero(x: u32, y: u32)
    ensures
        (x & y == 0) <==> (forall|k: u32| k < 32 ==> !(#[trigger] in_mask(x, k as int) && in_mask(y, k as int))),
{
    if forall|k: u32| k < 32 ==> !(#[trigger] in_mask(x, k as int) && in_mask(y, k as int)) {
        assert forall|k: u32| k < 32 implies #[trigger] ((x & y) & (1u32 << k)) == (0u32 & (1u32 << k)) by {
            assert(!(in_mask(x, k as int) && in_mask(y, k as int)));
            assert(!(x & (1u32 << k) != 0 && y & (1u32 << k) != 0) ==> (x & y) & (1u32 << k) == 0u32 & (1u32 << k)) by (bit_vector)
                requires k < 32;
        }
        lemma_bits_eq(x & y, 0);
    }
    if x & y == 0 {
        assert forall|k: u32| k < 32 implies !(#[trigger] in_mask(x, k as int) && in_mask(y, k as int)) by {
            assert(x & y == 0 ==> !(x & (1u32 << k) != 0 && y & (1u32 << k) != 0)) by (bit_vector)
                requires k < 32;
        }
    }
}

/// A bit of the union of two masks is a bit of one of them.
pub proof fn lemma_or_bit(x: u32, y: u32, k: u32)
    requires
        k < 32,
    ensures
        in_mask(x | y, k as int) == (in_mask(x, k as int) || in_mask(y, k as int)),
{
    assert(((x | y) & (1u32 << k) != 0) == (x & (1u32 << k) != 0 || y & (1u32 << k) != 0)) by (bit_vector)
        requires k < 32;
}

} // verus!
