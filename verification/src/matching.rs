//! Longest-common-prefix matching of a target suffix against suffixes of the
//! base buffer, steered by the suffix array.

use crate::suffix::{is_suffix_array, lemma_sorted_pairwise, suffix_le};
use vstd::prelude::*;

verus! {

/// Length of the longest common prefix of `base[bpos..]` and `target[tpos..]`.
pub open spec fn lcp_len(base: Seq<u8>, bpos: int, target: Seq<u8>, tpos: int) -> int
    decreases base.len() - bpos,
{
    if bpos < 0 || tpos < 0 || bpos >= base.len() || tpos >= target.len() {
        0
    } else if base[bpos] != target[tpos] {
        0
    } else {
        1 + lcp_len(base, bpos + 1, target, tpos + 1)
    }
}

pub proof fn lemma_lcp_bounds(base: Seq<u8>, bpos: int, target: Seq<u8>, tpos: int)
    requires
        0 <= bpos <= base.len(),
        0 <= tpos <= target.len(),
    ensures
        0 <= lcp_len(base, bpos, target, tpos),
        lcp_len(base, bpos, target, tpos) <= base.len() - bpos,
        lcp_len(base, bpos, target, tpos) <= target.len() - tpos,
    decreases base.len() - bpos,
{
    if bpos < base.len() && tpos < target.len() && base[bpos] == target[tpos] {
        lemma_lcp_bounds(base, bpos + 1, target, tpos + 1);
    }
}

/// Number of leading positions on which `base[bpos..]` and `target[tpos..]`
/// agree.
pub fn matchlen(base: &[u8], bpos: usize, target: &[u8], tpos: usize) -> (r: usize)
    requires
        bpos <= base@.len(),
        tpos <= target@.len(),
    ensures
        r == lcp_len(base@, bpos as int, target@, tpos as int),
{
    let bn = base.len();
    let tn = target.len();
    let mut i: usize = 0;
    while bpos + i < bn && tpos + i < tn && base[bpos + i] == target[tpos + i]
        invariant
            bn == base@.len(),
            tn == target@.len(),
            bpos + i <= bn,
            tpos + i <= tn,
            lcp_len(base@, bpos as int, target@, tpos as int) == i + lcp_len(
                base@,
                bpos + i,
                target@,
                tpos + i,
            ),
        decreases bn - bpos - i,
    {
        proof {
            assert(lcp_len(base@, bpos + i, target@, tpos + i) == 1 + lcp_len(
                base@,
                bpos + i + 1,
                target@,
                tpos + i + 1,
            ));
        }
        i += 1;
    }
    proof {
        assert(lcp_len(base@, bpos + i, target@, tpos + i) == 0);
    }
    i
}


pub proof fn lemma_lcp_nonneg(base: Seq<u8>, bpos: int, target: Seq<u8>, tpos: int)
    ensures
        lcp_len(base, bpos, target, tpos) >= 0,
    decreases base.len() - bpos,
{
    if 0 <= bpos < base.len() && 0 <= tpos < target.len() && base[bpos] == target[tpos] {
        lemma_lcp_nonneg(base, bpos + 1, target, tpos + 1);
    }
}

/// The base suffix at `i` is lexicographically at most the target tail at
/// `j`; a side that runs out first is the smaller.
pub open spec fn suffix_le_target(base: Seq<u8>, i: int, target: Seq<u8>, j: int) -> bool
    decreases base.len() - i,
{
    if i < 0 || i >= base.len() {
        true
    } else if j < 0 || j >= target.len() {
        false
    } else if base[i] < target[j] {
        true
    } else if base[i] > target[j] {
        false
    } else {
        suffix_le_target(base, i + 1, target, j + 1)
    }
}

/// The target tail at `j` is lexicographically at most the base suffix at
/// `i`.
pub open spec fn target_le_suffix(target: Seq<u8>, j: int, base: Seq<u8>, i: int) -> bool
    decreases target.len() - j,
{
    if j < 0 || j >= target.len() {
        true
    } else if i < 0 || i >= base.len() {
        false
    } else if target[j] < base[i] {
        true
    } else if target[j] > base[i] {
        false
    } else {
        target_le_suffix(target, j + 1, base, i + 1)
    }
}

/// Of two ordered suffixes both at most the target tail, the later one
/// shares at least as long a prefix with it.
pub proof fn lemma_lcp_mono_up(base: Seq<u8>, a: int, b: int, target: Seq<u8>, j: int)
    requires
        suffix_le(base, a, b),
        suffix_le_target(base, b, target, j),
    ensures
        lcp_len(base, a, target, j) <= lcp_len(base, b, target, j),
    decreases base.len() - a,
{
    lemma_lcp_nonneg(base, b, target, j);
    if 0 <= a < base.len() && 0 <= j < target.len() && base[a] == target[j] {
        assert(0 <= b < base.len());
        assert(base[b] == target[j]);
        lemma_lcp_mono_up(base, a + 1, b + 1, target, j + 1);
    }
}

/// Of two ordered suffixes both at least the target tail, the earlier one
/// shares at least as long a prefix with it.
pub proof fn lemma_lcp_mono_down(base: Seq<u8>, b: int, k: int, target: Seq<u8>, j: int)
    requires
        target_le_suffix(target, j, base, b),
        suffix_le(base, b, k),
    ensures
        lcp_len(base, k, target, j) <= lcp_len(base, b, target, j),
    decreases base.len() - b,
{
    lemma_lcp_nonneg(base, b, target, j);
    if 0 <= k < base.len() && 0 <= j < target.len() && base[k] == target[j] {
        assert(0 <= b < base.len());
        assert(base[b] == target[j]);
        lemma_lcp_mono_down(base, b + 1, k + 1, target, j + 1);
    }
}

/// Full lexicographic comparison of the base suffix at `bpos` against the
/// target tail at `tpos`; a side that runs out first is the smaller.  A
/// comparison truncated to the shorter side could step past a base suffix
/// that is a proper prefix of the target tail and lose the longest match;
/// comparing to the end keeps the maximum inside the search bracket.
fn suffix_target_less(base: &[u8], bpos: usize, target: &[u8], tpos: usize) -> (r: bool)
    requires
        bpos <= base@.len(),
        tpos <= target@.len(),
    ensures
        r ==> suffix_le_target(base@, bpos as int, target@, tpos as int),
        !r ==> target_le_suffix(target@, tpos as int, base@, bpos as int),
{
    let bn = base.len();
    let tn = target.len();
    let mut a = bpos;
    let mut b = tpos;
    while a < bn && b < tn && base[a] == target[b]
        invariant
            bpos <= a <= bn,
            tpos <= b <= tn,
            bn == base@.len(),
            tn == target@.len(),
            suffix_le_target(base@, bpos as int, target@, tpos as int) == suffix_le_target(
                base@,
                a as int,
                target@,
                b as int,
            ),
            target_le_suffix(target@, tpos as int, base@, bpos as int) == target_le_suffix(
                target@,
                b as int,
                base@,
                a as int,
            ),
        decreases bn - a,
    {
        proof {
            assert(suffix_le_target(base@, a as int, target@, b as int) == suffix_le_target(
                base@,
                a + 1int,
                target@,
                b + 1int,
            ));
            assert(target_le_suffix(target@, b as int, base@, a as int) == target_le_suffix(
                target@,
                b + 1int,
                base@,
                a + 1int,
            ));
        }
        a += 1;
        b += 1;
    }
    if a >= bn {
        true
    } else if b >= tn {
        false
    } else {
        base[a] < target[b]
    }
}

/// Binary search over the suffix array for the base position whose suffix
/// shares the longest common prefix with `target[tpos..]`.  Writes the
/// chosen base position to `pos` and returns the measured common-prefix
/// length at that position; over a valid suffix array, no entry of the
/// bracket does better.
#[verifier::rlimit(100)]
pub fn search(
    order: &Vec<i64>,
    base: &[u8],
    target: &[u8],
    tpos: usize,
    st: usize,
    en: usize,
    pos: &mut usize,
) -> (r: usize)
    requires
        order@.len() == base@.len() + 1,
        forall|k: int| 0 <= k < order@.len() ==> 0 <= #[trigger] order@[k] <= base@.len(),
        st <= en <= base@.len(),
        tpos <= target@.len(),
    ensures
        *final(pos) <= base@.len(),
        r == lcp_len(base@, *final(pos) as int, target@, tpos as int),
        is_suffix_array(base@, order@) ==> forall|k: int|
            st <= k <= en ==> lcp_len(base@, #[trigger] order@[k] as int, target@, tpos as int)
                <= r,
    decreases en - st,
{
    let bn = base.len();
    if en - st < 2 {
        let ist = order[st] as usize;
        let ien = order[en] as usize;
        let x = matchlen(base, ist, target, tpos);
        let y = matchlen(base, ien, target, tpos);
        proof {
            assert(ist as int == order@[st as int] as int);
            assert(ien as int == order@[en as int] as int);
            assert forall|k: int| st <= k <= en implies lcp_len(
                base@,
                #[trigger] order@[k] as int,
                target@,
                tpos as int,
            ) <= (if x > y {
                x
            } else {
                y
            }) by {
                assert(k == st || k == en);
            }
        }
        if x > y {
            *pos = ist;
            x
        } else {
            *pos = ien;
            y
        }
    } else {
        let middle = st + (en - st) / 2;
        let im = order[middle] as usize;
        proof {
            assert(im as int == order@[middle as int] as int);
        }
        if suffix_target_less(base, im, target, tpos) {
            let r = search(order, base, target, tpos, middle, en, pos);
            proof {
                if is_suffix_array(base@, order@) {
                    lemma_lcp_nonneg(base@, *pos as int, target@, tpos as int);
                    assert forall|k: int| st <= k <= en implies lcp_len(
                        base@,
                        #[trigger] order@[k] as int,
                        target@,
                        tpos as int,
                    ) <= r by {
                        if k == 0 {
                            // slot 0 carries the sentinel empty suffix
                            assert(lcp_len(base@, order@[k] as int, target@, tpos as int) == 0);
                        } else if k < middle {
                            lemma_sorted_pairwise(base@, order@, k, middle as int);
                            lemma_lcp_mono_up(
                                base@,
                                order@[k] as int,
                                order@[middle as int] as int,
                                target@,
                                tpos as int,
                            );
                        }
                    }
                }
            }
            r
        } else {
            let r = search(order, base, target, tpos, st, middle, pos);
            proof {
                if is_suffix_array(base@, order@) {
                    assert forall|k: int| st <= k <= en implies lcp_len(
                        base@,
                        #[trigger] order@[k] as int,
                        target@,
                        tpos as int,
                    ) <= r by {
                        if k > middle {
                            lemma_sorted_pairwise(base@, order@, middle as int, k);
                            lemma_lcp_mono_down(
                                base@,
                                order@[middle as int] as int,
                                order@[k] as int,
                                target@,
                                tpos as int,
                            );
                        }
                    }
                }
            }
            r
        }
    }
}

} // verus!
