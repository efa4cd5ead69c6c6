//! The fixed layout of the corpus: 6,236 aya rows grouped into 114 suras.
//!
//! Each sura begins at a fixed global row index; the table below is the
//! canonical 114-entry boundary table. A row index is mapped to its
//! (sura number, aya number) pair purely from this table, by counting the
//! sura starts at or before the row.

use vstd::prelude::*;

verus! {

/// Number of aya rows in the full corpus.
pub const AYA_COUNT: usize = 6236;

/// Number of suras.
pub const SURA_COUNT: usize = 114;

/// Global row index at which each sura starts, in canonical order.
pub const SURA_STARTS: [usize; 114] = [
    0, 7, 293, 493, 669, 789, 954, 1160, 1235, 1364, 1473, 1596, 1707, 1750, 1802, 1901, 2029,
    2140, 2250, 2348, 2483, 2595, 2673, 2791, 2855, 2932, 3159, 3252, 3340, 3409, 3469, 3503, 3533,
    3606, 3660, 3705, 3788, 3970, 4058, 4133, 4218, 4272, 4325, 4414, 4473, 4510, 4545, 4583, 4612,
    4630, 4675, 4735, 4784, 4846, 4901, 4979, 5075, 5104, 5126, 5150, 5163, 5177, 5188, 5199, 5217,
    5229, 5241, 5271, 5323, 5375, 5419, 5447, 5475, 5495, 5551, 5591, 5622, 5672, 5712, 5758, 5800,
    5829, 5848, 5884, 5909, 5931, 5948, 5967, 5993, 6023, 6043, 6058, 6079, 6090, 6098, 6106, 6125,
    6130, 6138, 6146, 6157, 6168, 6176, 6179, 6188, 6193, 6197, 6204, 6207, 6213, 6216, 6221, 6225,
    6230,
];

/// How many of the first `k` sura starts are at or before row `i`.
pub open spec fn starts_at_or_before(i: int, k: int) -> int
    decreases k,
{
    if k <= 0 {
        0
    } else {
        starts_at_or_before(i, k - 1) + if SURA_STARTS[k - 1] <= i {
            1int
        } else {
            0int
        }
    }
}

/// The sura number (1-based) of row `i`.
pub open spec fn spec_sura(i: int) -> int {
    starts_at_or_before(i, 114)
}

/// The aya number (1-based within its sura) of row `i`.
pub open spec fn spec_aya(i: int) -> int {
    i - SURA_STARTS[spec_sura(i) - 1] + 1
}

/// The boundary table is strictly increasing up to index `k`.
pub open spec fn starts_sorted_upto(k: int) -> bool
    decreases k,
{
    k <= 1 || (starts_sorted_upto(k - 1) && SURA_STARTS[k - 2] < SURA_STARTS[k - 1])
}

/// The boundary table is strictly increasing.
pub proof fn lemma_starts_sorted()
    ensures
        forall|a: int, b: int| 0 <= a < b < 114 ==> SURA_STARTS[a] < SURA_STARTS[b],
{
    assert(starts_sorted_upto(10)) by {
        reveal_with_fuel(starts_sorted_upto, 12);
    }
    assert(starts_sorted_upto(20)) by {
        reveal_with_fuel(starts_sorted_upto, 12);
    }
    assert(starts_sorted_upto(30)) by {
        reveal_with_fuel(starts_sorted_upto, 12);
    }
    assert(starts_sorted_upto(40)) by {
        reveal_with_fuel(starts_sorted_upto, 12);
    }
    assert(starts_sorted_upto(50)) by {
        reveal_with_fuel(starts_sorted_upto, 12);
    }
    assert(starts_sorted_upto(60)) by {
        reveal_with_fuel(starts_sorted_upto, 12);
    }
    assert(starts_sorted_upto(70)) by {
        reveal_with_fuel(starts_sorted_upto, 12);
    }
    assert(starts_sorted_upto(80)) by {
        reveal_with_fuel(starts_sorted_upto, 12);
    }
    assert(starts_sorted_upto(90)) by {
        reveal_with_fuel(starts_sorted_upto, 12);
    }
    assert(starts_sorted_upto(100)) by {
        reveal_with_fuel(starts_sorted_upto, 12);
    }
    assert(starts_sorted_upto(110)) by {
        reveal_with_fuel(starts_sorted_upto, 12);
    }
    assert(starts_sorted_upto(114)) by {
        reveal_with_fuel(starts_sorted_upto, 12);
    }
    lemma_sorted_pairs(114);
}

proof fn lemma_sorted_pairs(k: int)
    requires
        starts_sorted_upto(k),
        k <= 114,
    ensures
        forall|a: int, b: int| 0 <= a < b < k ==> SURA_STARTS[a] < SURA_STARTS[b],
    decreases k,
{
    if k > 1 {
        lemma_sorted_pairs(k - 1);
        assert forall|a: int, b: int| 0 <= a < b < k implies SURA_STARTS[a] < SURA_STARTS[b] by {
            if b == k - 1 && a < k - 2 {
                assert(SURA_STARTS[a] < SURA_STARTS[k - 2]);
            }
        }
    }
}

/// The count of starts is between 0 and `k`.
proof fn lemma_saob_bounds(i: int, k: int)
    requires
        0 <= k,
    ensures
        0 <= starts_at_or_before(i, k),
        starts_at_or_before(i, k) <= k,
    decreases k,
{
    if k > 0 {
        lemma_saob_bounds(i, k - 1);
    }
}

/// The count of starts never decreases as the row grows.
proof fn lemma_saob_mono(i1: int, i2: int, k: int)
    requires
        i1 <= i2,
    ensures
        starts_at_or_before(i1, k) <= starts_at_or_before(i2, k),
    decreases k,
{
    if k > 0 {
        lemma_saob_mono(i1, i2, k - 1);
    }
}

/// With a strictly increasing table, the counted starts are exactly the
/// first `starts_at_or_before(i, k)` entries, so the last counted one is
/// at or before `i` and the first uncounted one is after `i`.
proof fn lemma_saob_locate(i: int, k: int)
    requires
        0 <= k <= 114,
        forall|a: int, b: int| 0 <= a < b < 114 ==> SURA_STARTS[a] < SURA_STARTS[b],
    ensures
        starts_at_or_before(i, k) >= 1 ==> SURA_STARTS[starts_at_or_before(i, k) - 1] <= i,
        starts_at_or_before(i, k) < k ==> SURA_STARTS[starts_at_or_before(i, k)] > i,
    decreases k,
{
    lemma_saob_bounds(i, k);
    if k > 0 {
        lemma_saob_locate(i, k - 1);
        lemma_saob_bounds(i, k - 1);
        let c = starts_at_or_before(i, k - 1);
        if SURA_STARTS[k - 1] <= i {
            // every earlier uncounted entry would exceed this one
            if c < k - 1 {
                assert(SURA_STARTS[c] > i);
                assert(SURA_STARTS[c] < SURA_STARTS[k - 1]);
                assert(false);
            }
        }
    }
}

/// Growing the row by one adds at most one newly counted start.
proof fn lemma_saob_step(i: int, k: int)
    requires
        0 <= k <= 114,
        forall|a: int, b: int| 0 <= a < b < 114 ==> SURA_STARTS[a] < SURA_STARTS[b],
    ensures
        starts_at_or_before(i + 1, k) <= starts_at_or_before(i, k) + 1,
    decreases k,
{
    lemma_saob_locate(i + 1, k);
    lemma_saob_mono(i, i + 1, k);
    lemma_saob_bounds(i, k);
    lemma_saob_bounds(i + 1, k);
    let c0 = starts_at_or_before(i, k);
    let c1 = starts_at_or_before(i + 1, k);
    if c1 > c0 + 1 {
        // both of the last two newly counted entries would have to be at
        // row i + 1, yet the table is strictly increasing
        lemma_saob_locate(i, k);
        assert(SURA_STARTS[c1 - 1] <= i + 1);
        assert(c0 < k);
        assert(SURA_STARTS[c0] > i);
        assert(SURA_STARTS[c0] < SURA_STARTS[c1 - 1]);
        assert(false);
    }
}

/// Counting the starts at or before a start row yields that sura's number.
proof fn lemma_saob_at_start(s: int, k: int)
    requires
        0 <= s < 114,
        0 <= k <= 114,
        forall|a: int, b: int| 0 <= a < b < 114 ==> SURA_STARTS[a] < SURA_STARTS[b],
    ensures
        starts_at_or_before(SURA_STARTS[s] as int, k) == if k <= s + 1 {
            k
        } else {
            s + 1
        },
    decreases k,
{
    if k > 0 {
        lemma_saob_at_start(s, k - 1);
        if k - 1 < s {
            assert(SURA_STARTS[k - 1] < SURA_STARTS[s]);
        }
        if k - 1 > s {
            assert(SURA_STARTS[k - 1] > SURA_STARTS[s]);
        }
    }
}

/// If every one of the first `k` starts is at or before `i`, all are counted.
proof fn lemma_saob_all(i: int, k: int)
    requires
        0 <= k <= 114,
        forall|t: int| 0 <= t < k ==> SURA_STARTS[t] <= i,
    ensures
        starts_at_or_before(i, k) == k,
    decreases k,
{
    if k > 0 {
        lemma_saob_all(i, k - 1);
    }
}

/// The row numbering law: over the rows of the corpus the sura number
/// starts at 1, ends at 114, and never decreases, moving only in unit
/// steps that land exactly on the boundary table; the aya number is
/// 1-based and counts up within each sura, restarting at each boundary.
pub proof fn lemma_row_numbering()
    ensures
        forall|i: int| 0 <= i < 6236 ==> 1 <= #[trigger] spec_sura(i) <= 114,
        forall|i: int| 0 <= i < 6236 ==> 1 <= #[trigger] spec_aya(i),
        forall|i: int| 0 <= i < 6235 ==> #[trigger] spec_sura(i) <= spec_sura(i + 1) <= spec_sura(
            i,
        ) + 1,
        spec_sura(0) == 1,
        spec_sura(6235) == 114,
        forall|s: int| 0 <= s < 114 ==> #[trigger] spec_sura(SURA_STARTS[s] as int) == s + 1,
        forall|i: int|
            0 <= i < 6235 && spec_sura(i + 1) == spec_sura(i) ==> #[trigger] spec_aya(i + 1)
                == spec_aya(i) + 1,
        forall|i: int|
            0 <= i < 6235 && spec_sura(i + 1) == spec_sura(i) + 1 ==> #[trigger] spec_aya(i + 1)
                == 1,
{
    lemma_starts_sorted();
    assert forall|i: int| 0 <= i < 6236 implies 1 <= #[trigger] spec_sura(i) <= 114 by {
        lemma_saob_bounds(i, 114);
        lemma_saob_mono(0, i, 114);
        lemma_saob_at_start(0, 114);
        assert(SURA_STARTS[0] == 0);
    }
    assert forall|i: int| 0 <= i < 6236 implies 1 <= #[trigger] spec_aya(i) by {
        lemma_saob_bounds(i, 114);
        lemma_saob_mono(0, i, 114);
        lemma_saob_at_start(0, 114);
        assert(SURA_STARTS[0] == 0);
        lemma_saob_locate(i, 114);
    }
    assert forall|i: int| 0 <= i < 6235 implies #[trigger] spec_sura(i) <= spec_sura(i + 1)
        <= spec_sura(i) + 1 by {
        lemma_saob_mono(i, i + 1, 114);
        lemma_saob_step(i, 114);
    }
    assert(spec_sura(0) == 1) by {
        lemma_saob_at_start(0, 114);
        assert(SURA_STARTS[0] == 0);
    }
    assert(spec_sura(6235) == 114) by {
        assert(SURA_STARTS[113] == 6230);
        assert forall|t: int| 0 <= t < 114 implies SURA_STARTS[t] <= 6235 by {
            if t < 113 {
                assert(SURA_STARTS[t] < SURA_STARTS[113]);
            }
        }
        lemma_saob_all(6235, 114);
    }
    assert forall|s: int| 0 <= s < 114 implies #[trigger] spec_sura(SURA_STARTS[s] as int) == s
        + 1 by {
        lemma_saob_at_start(s, 114);
    }
    assert forall|i: int|
        0 <= i < 6235 && spec_sura(i + 1) == spec_sura(i) implies #[trigger] spec_aya(i + 1)
        == spec_aya(i) + 1 by {
        lemma_saob_bounds(i, 114);
    }
    assert forall|i: int|
        0 <= i < 6235 && spec_sura(i + 1) == spec_sura(i) + 1 implies #[trigger] spec_aya(i + 1)
        == 1 by {
        // the new sura's start row must be exactly i + 1
        lemma_saob_bounds(i, 114);
        lemma_saob_bounds(i + 1, 114);
        lemma_saob_locate(i + 1, 114);
        lemma_saob_locate(i, 114);
        let c = spec_sura(i + 1);
        assert(SURA_STARTS[c - 1] <= i + 1);
        if SURA_STARTS[c - 1] <= i {
            lemma_saob_mono(SURA_STARTS[c - 1] as int, i, 114);
            lemma_saob_at_start(c - 1, 114);
            assert(false);
        }
    }
}

/// The sura number of row `i`, counted from the boundary table.
#[verifier::rlimit(100)]
pub fn sura_of_row(i: usize) -> (s: u8)
    requires
        i < 6236,
    ensures
        s as int == spec_sura(i as int),
        1 <= s <= 114,
{
    let mut k: usize = 0;
    let mut cnt: u8 = 0;
    while k < 114
        invariant
            0 <= k <= 114,
            cnt as int == starts_at_or_before(i as int, k as int),
            0 <= cnt <= k,
        decreases 114 - k,
    {
        if SURA_STARTS[k] <= i {
            cnt = cnt + 1;
        }
        k = k + 1;
    }
    proof {
        lemma_starts_sorted();
        lemma_saob_mono(0, i as int, 114);
        lemma_saob_at_start(0, 114);
        assert(SURA_STARTS[0] == 0);
    }
    cnt
}

/// The aya number of row `i`, counted from its sura's start row.
#[verifier::rlimit(100)]
pub fn aya_of_row(i: usize) -> (a: u16)
    requires
        i < 6236,
    ensures
        a as int == spec_aya(i as int),
        1 <= a,
{
    let s = sura_of_row(i);
    proof {
        lemma_starts_sorted();
        lemma_saob_locate(i as int, 114);
    }
    let start = SURA_STARTS[(s - 1) as usize];
    (i - start + 1) as u16
}

} // verus!
