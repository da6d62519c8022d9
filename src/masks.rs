use vstd::prelude::*;

verus! {

/// Category `slot` is filled in `mask`.
pub open spec fn has_slot(mask: u32, slot: nat) -> bool {
    slot < 32 && mask & (1u32 << slot as u32) != 0
}

/// How many of the categories `0..k` are filled in `mask`.
pub open spec fn filled_count(mask: u32, k: nat) -> nat
    decreases k,
{
    if k == 0 {
        0
    } else {
        filled_count(mask, (k - 1) as nat) + if has_slot(mask, (k - 1) as nat) {
            1nat
        } else {
            0nat
        }
    }
}

/// `mask` holds no category from `k` on.
pub open spec fn within(mask: u32, k: nat) -> bool {
    k >= 32 || (mask as nat) < vstd::arithmetic::power2::pow2(k)
}

pub proof fn lemma_filled_count_le(mask: u32, k: nat)
    ensures
        filled_count(mask, k) <= k,
    decreases k,
{
    if k > 0 {
        lemma_filled_count_le(mask, (k - 1) as nat);
    }
}

proof fn lemma_bit_with(p: u32, s: u32, i: u32)
    requires
        s < 32,
        i < 32,
    ensures
        ((p | (1u32 << s)) & (1u32 << i) != 0) == ((p & (1u32 << i) != 0) || i == s),
{
    assert(((p | (1u32 << s)) & (1u32 << i) != 0) == ((p & (1u32 << i) != 0) || i == s)) by (bit_vector)
        requires s < 32, i < 32;
}

/// Filling category `s` fills it and leaves every other category as it was.
pub proof fn lemma_has_slot_fill(p: u32, s: nat, i: nat)
    requires
        s < 32,
    ensures
        has_slot(p | (1u32 << s as u32), i) == (has_slot(p, i) || i == s),
{
    if i < 32 {
        lemma_bit_with(p, s as u32, i as u32);
    }
}

/// Filling an empty category adds one to the count of filled ones below any bound above it.
pub proof fn lemma_filled_count_add(p: u32, s: nat, k: nat)
    requires
        s < 32,
        !has_slot(p, s),
    ensures
        filled_count(p | (1u32 << s as u32), k) == filled_count(p, k) + if s < k {
            1nat
        } else {
            0nat
        },
    decreases k,
{
    if k > 0 {
        lemma_filled_count_add(p, s, (k - 1) as nat);
        let i = (k - 1) as nat;
        if i < 32 {
            lemma_bit_with(p, s as u32, i as u32);
        }
    }
}

/// Filling a category below `k` keeps a mask within `k` categories.
pub proof fn lemma_fill_within(p: u32, s: nat, k: nat)
    requires
        s < k,
        k <= 32,
        within(p, k),
    ensures
        within(p | (1u32 << s as u32), k),
{
    if k < 32 {
        let s32 = s as u32;
        let k32 = k as u32;
        vstd::arithmetic::power2::lemma_pow2_strictly_increases(k, 32);
        vstd::arithmetic::power2::lemma2_to64();
        vstd::arithmetic::power2::lemma2_to64_rest();
        vstd::bits::lemma_u32_shl_is_mul(1, k32);
        assert(1u32 * vstd::arithmetic::power2::pow2(k32 as nat) == vstd::arithmetic::power2::pow2(k));
        assert(p < (1u32 << k32) && s32 < k32 && k32 < 32 ==> (p | (1u32 << s32)) < (1u32 << k32)) by (bit_vector);
    }
}

/// Whether category `slot` is filled in `mask`.
pub fn is_filled(mask: u32, slot: usize) -> (r: bool)
    requires
        slot < 32,
    ensures
        r == has_slot(mask, slot as nat),
{
    mask & (1u32 << slot as u32) != 0
}

/// How many of the categories `0..k` are filled in `mask`.
pub fn count_filled(mask: u32, k: usize) -> (r: usize)
    requires
        k <= 32,
    ensures
        r == filled_count(mask, k as nat),
{
    let mut count: usize = 0;
    let mut i: usize = 0;
    while i < k
        invariant
            i <= k <= 32,
            count == filled_count(mask, i as nat),
            count <= i,
        decreases k - i,
    {
        if is_filled(mask, i) {
            count += 1;
        }
        i += 1;
    }
    count
}

} // verus!
