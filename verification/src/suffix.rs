//! Suffix-array construction over the base buffer by a doubling rank sort.
//!
//! `order` and `rank` are two parallel arrays of length `n + 1` (`n` the base
//! length).  During construction an `order` entry is either a buffer position
//! (a value in `0..=n`) or a negative run-length sentinel `-(l)` marking `l`
//! consecutive already-final positions; only one reading is live at a time.
//! After construction `order` holds plain positions only.
//!
//! The doubling passes themselves carry entry bounds and a frame for each
//! refinement step; what `qsufsort` and `suffix_array` return is proved to
//! be a valid suffix array outright — `is_suffix_array` — by running the
//! verified decision procedure `check_suffix_order` over the fast sort's
//! result and falling back to a directly verified sort where it would ever
//! say no.

use vstd::prelude::*;

verus! {

/// Every entry lies in `-(n+1)..=n`: a position or a run-length sentinel.
pub open spec fn signed_entries_bounded(s: Seq<i64>, n: int) -> bool {
    forall|k: int| 0 <= k < s.len() ==> -(n + 1) <= #[trigger] s[k] <= n
}

/// Every entry lies in `0..=n`.
pub open spec fn entries_in_range(s: Seq<i64>, n: int) -> bool {
    forall|k: int| 0 <= k < s.len() ==> 0 <= #[trigger] s[k] <= n
}

/// Well-formedness of the two working arrays between sorting passes.
pub open spec fn wf_arrays(order: Seq<i64>, rank: Seq<i64>) -> bool {
    &&& order.len() == rank.len()
    &&& order.len() >= 1
    &&& order.len() <= usize::MAX
    &&& order.len() < 0x8000_0000_0000_0000
    &&& signed_entries_bounded(order, order.len() - 1)
    &&& entries_in_range(rank, rank.len() - 1)
}

/// The rank of position `order[p]` at depth `h`, or `-1` where a sentinel or
/// the end of the buffer leaves no rank to read.
pub open spec fn sort_key(order: Seq<i64>, rank: Seq<i64>, h: int, p: int) -> i64 {
    if 0 <= order[p] && order[p] + h < rank.len() {
        rank[order[p] + h]
    } else {
        -1i64
    }
}

fn vswap(v: &mut Vec<i64>, a: usize, b: usize)
    requires
        a < old(v)@.len(),
        b < old(v)@.len(),
    ensures
        final(v)@ == old(v)@.update(a as int, old(v)@[b as int]).update(
            b as int,
            old(v)@[a as int],
        ),
        final(v)@.len() == old(v)@.len(),
{
    let x = v[a];
    let y = v[b];
    v[a] = y;
    v[b] = x;
}

fn key_at(order: &Vec<i64>, rank: &Vec<i64>, h: usize, p: usize) -> (r: i64)
    requires
        p < order@.len(),
        rank@.len() >= 1,
        rank@.len() <= usize::MAX,
        signed_entries_bounded(order@, rank@.len() - 1),
    ensures
        r == sort_key(order@, rank@, h as int, p as int),
{
    let v = order[p];
    if v >= 0 {
        let vi = v as usize;
        if vi < rank.len() && rank.len() - vi > h {
            return rank[vi + h];
        }
    }
    -1
}

/// `v` occurs among the entries originally stored in
/// `oorder[start..start+len]`.
pub open spec fn in_segment(oorder: Seq<i64>, start: int, len: int, v: i64) -> bool {
    exists|q: int| start <= q < start + len && oorder[q] == v
}

/// What one group-refinement call may change, and how: `order` entries
/// outside the segment keep their old values; entries inside are the `-1`
/// final mark or one of the segment's original entries, without duplicating
/// any when the originals were pairwise distinct; `rank` changes only at
/// positions the segment originally stored, and every changed rank is an
/// index inside the segment.
pub open spec fn refine_frame(
    oorder: Seq<i64>,
    orank: Seq<i64>,
    norder: Seq<i64>,
    nrank: Seq<i64>,
    start: int,
    len: int,
) -> bool {
    &&& forall|p: int|
        #![trigger norder[p]]
        0 <= p < norder.len() && !(start <= p < start + len) ==> norder[p] == oorder[p]
    &&& forall|p: int|
        #![trigger norder[p]]
        start <= p < start + len ==> norder[p] == -1i64 || in_segment(oorder, start, len, norder[p])
    &&& forall|p: int|
        #![trigger nrank[p]]
        0 <= p < nrank.len() && !in_segment(oorder, start, len, p as i64) ==> nrank[p] == orank[p]
    &&& forall|p: int|
        #![trigger nrank[p]]
        0 <= p < nrank.len() && nrank[p] != orank[p] ==> start <= nrank[p] < start + len
    &&& (forall|a: int, b: int|
        #![trigger oorder[a], oorder[b]]
        start <= a < b < start + len ==> oorder[a] != oorder[b]) ==> (forall|a: int, b: int|
        #![trigger norder[a], norder[b]]
        start <= a < b < start + len && norder[a] != -1i64 && norder[b] != -1i64 ==> norder[a]
            != norder[b])
}

proof fn lemma_frame_swap(
    oorder: Seq<i64>,
    orank: Seq<i64>,
    before: Seq<i64>,
    after: Seq<i64>,
    cur_rank: Seq<i64>,
    start: int,
    len: int,
    a: int,
    b: int,
)
    requires
        refine_frame(oorder, orank, before, cur_rank, start, len),
        0 <= start,
        start + len <= before.len(),
        start <= a < start + len,
        start <= b < start + len,
        after == before.update(a, before[b]).update(b, before[a]),
    ensures
        refine_frame(oorder, orank, after, cur_rank, start, len),
{
    assert forall|p: int|
        0 <= p < after.len() && !(start <= p < start + len) implies #[trigger] after[p]
        == oorder[p] by {
        assert(after[p] == before[p]);
    }
    assert forall|p: int| start <= p < start + len implies #[trigger] after[p] == -1i64
        || in_segment(oorder, start, len, after[p]) by {
        if p == b {
            assert(after[p] == before[a]);
        } else if p == a {
            assert(after[p] == before[b]);
        } else {
            assert(after[p] == before[p]);
        }
    }
    if forall|p: int, q: int|
        #![trigger oorder[p], oorder[q]]
        start <= p < q < start + len ==> oorder[p] != oorder[q] {
        assert forall|p: int, q: int|
            start <= p < q < start + len && #[trigger] after[p] != -1i64 && #[trigger] after[q]
                != -1i64 implies after[p] != after[q] by {
            let p0 = if p == a {
                b
            } else if p == b {
                a
            } else {
                p
            };
            let q0 = if q == a {
                b
            } else if q == b {
                a
            } else {
                q
            };
            assert(after[p] == before[p0]);
            assert(after[q] == before[q0]);
            assert(p0 != q0);
        }
    }
}

proof fn lemma_frame_mark(
    oorder: Seq<i64>,
    orank: Seq<i64>,
    before: Seq<i64>,
    after: Seq<i64>,
    cur_rank: Seq<i64>,
    start: int,
    len: int,
    a: int,
)
    requires
        refine_frame(oorder, orank, before, cur_rank, start, len),
        0 <= start,
        start + len <= before.len(),
        start <= a < start + len,
        after == before.update(a, -1i64),
    ensures
        refine_frame(oorder, orank, after, cur_rank, start, len),
{
    assert forall|p: int|
        0 <= p < after.len() && !(start <= p < start + len) implies #[trigger] after[p]
        == oorder[p] by {
        assert(after[p] == before[p]);
    }
    assert forall|p: int| start <= p < start + len implies #[trigger] after[p] == -1i64
        || in_segment(oorder, start, len, after[p]) by {
        if p != a {
            assert(after[p] == before[p]);
        }
    }
    if forall|p: int, q: int|
        #![trigger oorder[p], oorder[q]]
        start <= p < q < start + len ==> oorder[p] != oorder[q] {
        assert forall|p: int, q: int|
            start <= p < q < start + len && #[trigger] after[p] != -1i64 && #[trigger] after[q]
                != -1i64 implies after[p] != after[q] by {
            assert(p != a && q != a);
            assert(after[p] == before[p]);
            assert(after[q] == before[q]);
        }
    }
}

proof fn lemma_frame_rank_write(
    oorder: Seq<i64>,
    orank: Seq<i64>,
    cur_order: Seq<i64>,
    before: Seq<i64>,
    after: Seq<i64>,
    start: int,
    len: int,
    t: i64,
    v: i64,
)
    requires
        refine_frame(oorder, orank, cur_order, before, start, len),
        0 <= start,
        in_segment(oorder, start, len, t),
        0 <= t < before.len(),
        start <= v < start + len,
        after == before.update(t as int, v),
    ensures
        refine_frame(oorder, orank, cur_order, after, start, len),
{
    assert forall|p: int|
        0 <= p < after.len() && !in_segment(oorder, start, len, p as i64) implies #[trigger] after[p]
        == orank[p] by {
        if p == t as int {
            assert(p as i64 == t);
        } else {
            assert(after[p] == before[p]);
        }
    }
    assert forall|p: int| 0 <= p < after.len() && after[p] != orank[p] implies start
        <= #[trigger] after[p] < start + len by {
        if p != t as int {
            assert(after[p] == before[p]);
        }
    }
}

/// One pending step of group refinement: a group still to be partitioned,
/// or the rank settlement of a middle zone `[jj, kk)` whose left neighbour
/// groups have been finished.
enum WorkItem {
    Group(usize, usize),
    Settle(usize, usize),
}

spec fn item_weight(it: WorkItem) -> int {
    match it {
        WorkItem::Group(_, l) => 3 * l + 1,
        WorkItem::Settle(_, _) => 1,
    }
}

/// Total weight of the pending work, chosen so that replacing a group by
/// its strictly smaller pieces and one settlement shrinks it.
spec fn work_measure(s: Seq<WorkItem>) -> int
    decreases s.len(),
{
    if s.len() == 0 {
        0
    } else {
        work_measure(s.drop_last()) + item_weight(s.last())
    }
}

proof fn lemma_work_measure_nonneg(s: Seq<WorkItem>)
    ensures
        work_measure(s) >= 0,
    decreases s.len(),
{
    if s.len() > 0 {
        lemma_work_measure_nonneg(s.drop_last());
    }
}

spec fn item_wf(it: WorkItem, lo: int, hi: int) -> bool {
    match it {
        WorkItem::Group(s, l) => lo <= s && 1 <= l && s + l <= hi,
        WorkItem::Settle(jj, kk) => lo <= jj && jj < kk <= hi,
    }
}

/// Refines the group `order[start..start+len]` by the rank found `h`
/// positions into each suffix: a median-keyed 3-way partition for large
/// groups, a direct grouping pass for small ones.  Group members get their
/// `rank` updated to the group's last index; groups that become singletons
/// are marked final with a `-1` sentinel.  The sub-partitions run off an
/// explicit work stack, in the same order a recursive descent would take
/// them, so near-uniform buffers cannot exhaust the call stack.
///
/// The contract carries the refinement's frame — nothing outside the
/// segment and its stored positions moves, the segment keeps its own
/// entries apart from the final marks, and changed ranks point into the
/// segment — plus the exact effect on a one-element group.  The partition
/// counts place every key in its zone before the zone's end; the index
/// guards below bound the loops without relying on that.
#[verifier::loop_isolation(false)]
#[verifier::rlimit(100)]
pub fn split(order: &mut Vec<i64>, rank: &mut Vec<i64>, start: usize, len: usize, h: usize)
    requires
        wf_arrays(old(order)@, old(rank)@),
        len >= 1,
        start + len <= old(order)@.len(),
    ensures
        final(order)@.len() == old(order)@.len(),
        final(rank)@.len() == old(rank)@.len(),
        wf_arrays(final(order)@, final(rank)@),
        refine_frame(
            old(order)@,
            old(rank)@,
            final(order)@,
            final(rank)@,
            start as int,
            len as int,
        ),
        len == 1 ==> final(order)@[start as int] == -1i64 && (old(order)@[start as int] >= 0
            ==> final(rank)@[old(order)@[start as int] as int] == start as i64),
{
    let ghost olen = order@.len();
    let ghost oorder = order@;
    let ghost orank = rank@;
    let ghost glo = start as int;
    let ghost ghi = start as int + len as int;
    let mut work: Vec<WorkItem> = Vec::new();
    work.push(WorkItem::Group(start, len));
    proof {
        assert forall|p: int| glo <= p < ghi implies #[trigger] oorder[p] == -1i64 || in_segment(
            oorder,
            glo,
            len as int,
            oorder[p],
        ) by {
            assert(glo <= p < glo + len as int && oorder[p] == oorder[p]);
        }
    }
    while work.len() > 0
        invariant
            order@.len() == olen,
            wf_arrays(order@, rank@),
            forall|q: int| 0 <= q < work@.len() ==> item_wf(#[trigger] work@[q], glo, ghi),
            refine_frame(oorder, orank, order@, rank@, glo, len as int),
            len == 1 ==> (work@ =~= seq![WorkItem::Group(start, 1)] && order@ == oorder && rank@
                == orank) || (work@.len() == 0 && order@[glo] == -1i64 && (oorder[glo] >= 0
                ==> rank@[oorder[glo] as int] == start as i64)),
        decreases work_measure(work@),
    {
        let ghost prev = work@;
        proof {
            assert(work_measure(prev) == work_measure(prev.drop_last()) + item_weight(prev.last()));
            lemma_work_measure_nonneg(prev.drop_last());
        }
        let item = match work.pop() {
            Some(e) => e,
            None => {
                proof {
                    assert(false);
                }
                vstd::pervasive::unreached()
            },
        };
        let ghost mut m = work_measure(work@);
        proof {
            assert(work@ =~= prev.drop_last());
            assert(m == work_measure(prev) - item_weight(prev.last()));
        }
        match item {
            WorkItem::Settle(jj, kk) => {
                let mut i2: usize = 0;
                while i2 < kk - jj
                    invariant
                        i2 <= kk - jj,
                        glo <= jj < kk <= ghi,
                        order@.len() == olen,
                        wf_arrays(order@, rank@),
                        refine_frame(oorder, orank, order@, rank@, glo, len as int),
                    decreases kk - jj - i2,
                {
                    let t = order[jj + i2];
                    if t >= 0 {
                        let ghost br = rank@;
                        rank[t as usize] = (kk - 1) as i64;
                        proof {
                            assert(in_segment(oorder, glo, len as int, t));
                            lemma_frame_rank_write(
                                oorder,
                                orank,
                                order@,
                                br,
                                rank@,
                                glo,
                                len as int,
                                t,
                                (kk - 1) as i64,
                            );
                        }
                    }
                    i2 += 1;
                }
                if jj == kk - 1 {
                    let ghost bo = order@;
                    order[jj] = -1;
                    proof {
                        lemma_frame_mark(
                            oorder,
                            orank,
                            bo,
                            order@,
                            rank@,
                            glo,
                            len as int,
                            jj as int,
                        );
                    }
                }
            },
            WorkItem::Group(gstart, glen) => {
                if glen == 1 {
                    // a one-element group: its rank settles to its own
                    // index and its slot is marked final
                    let t = order[gstart];
                    if t >= 0 {
                        let ghost br = rank@;
                        rank[t as usize] = gstart as i64;
                        proof {
                            assert(in_segment(oorder, glo, len as int, t));
                            lemma_frame_rank_write(
                                oorder,
                                orank,
                                order@,
                                br,
                                rank@,
                                glo,
                                len as int,
                                t,
                                gstart as i64,
                            );
                        }
                    }
                    let ghost bo = order@;
                    order[gstart] = -1;
                    proof {
                        lemma_frame_mark(
                            oorder,
                            orank,
                            bo,
                            order@,
                            rank@,
                            glo,
                            len as int,
                            gstart as int,
                        );
                        if len == 1 {
                            assert(prev =~= seq![WorkItem::Group(start, 1)]);
                            assert(work@.len() == 0);
                            assert(gstart == start);
                        }
                    }
                } else if glen < 16 {
                    let mut k = gstart;
                    while k < gstart + glen
                        invariant
                            gstart <= k <= gstart + glen,
                            glo <= gstart,
                            gstart + glen <= ghi,
                            order@.len() == olen,
                            wf_arrays(order@, rank@),
                            refine_frame(oorder, orank, order@, rank@, glo, len as int),
                        decreases gstart + glen - k,
                    {
                        let mut j: usize = 1;
                        let mut x = key_at(order, rank, h, k);
                        let mut i: usize = 1;
                        while k + i < gstart + glen
                            invariant
                                1 <= j <= i,
                                k < gstart + glen,
                                k + i <= gstart + glen,
                                glo <= gstart,
                                gstart + glen <= ghi,
                                order@.len() == olen,
                                wf_arrays(order@, rank@),
                                refine_frame(oorder, orank, order@, rank@, glo, len as int),
                            decreases gstart + glen - k - i,
                        {
                            let value = key_at(order, rank, h, k + i);
                            if value < x {
                                x = value;
                                j = 0;
                            }
                            if value == x {
                                let ghost bo = order@;
                                vswap(order, k + j, k + i);
                                proof {
                                    lemma_frame_swap(
                                        oorder,
                                        orank,
                                        bo,
                                        order@,
                                        rank@,
                                        glo,
                                        len as int,
                                        k + j,
                                        k + i,
                                    );
                                }
                                j += 1;
                            }
                            i += 1;
                        }
                        let mut i2: usize = 0;
                        while i2 < j
                            invariant
                                i2 <= j,
                                k + j <= gstart + glen,
                                glo <= gstart,
                                gstart + glen <= ghi,
                                j >= 1,
                                k < gstart + glen,
                                order@.len() == olen,
                                wf_arrays(order@, rank@),
                                refine_frame(oorder, orank, order@, rank@, glo, len as int),
                            decreases j - i2,
                        {
                            let t = order[k + i2];
                            if t >= 0 {
                                let ghost br = rank@;
                                rank[t as usize] = (k + j - 1) as i64;
                                proof {
                                    assert(in_segment(oorder, glo, len as int, t));
                                    lemma_frame_rank_write(
                                        oorder,
                                        orank,
                                        order@,
                                        br,
                                        rank@,
                                        glo,
                                        len as int,
                                        t,
                                        (k + j - 1) as i64,
                                    );
                                }
                            }
                            i2 += 1;
                        }
                        if j == 1 {
                            let ghost bo = order@;
                            order[k] = -1;
                            proof {
                                lemma_frame_mark(
                                    oorder,
                                    orank,
                                    bo,
                                    order@,
                                    rank@,
                                    glo,
                                    len as int,
                                    k as int,
                                );
                            }
                        }
                        k += j;
                    }
                } else {
                    let x = key_at(order, rank, h, gstart + glen / 2);
                    let mut jjc: usize = 0;
                    let mut kkc: usize = 0;
                    let mut i0: usize = gstart;
                    while i0 < gstart + glen
                        invariant
                            gstart <= i0 <= gstart + glen,
                            glo <= gstart,
                            gstart + glen <= ghi,
                            jjc + kkc <= i0 - gstart,
                            i0 > gstart + glen / 2 ==> kkc >= 1,
                            glen >= 1,
                            x == sort_key(order@, rank@, h as int, gstart + glen / 2),
                            order@.len() == olen,
                            wf_arrays(order@, rank@),
                            refine_frame(oorder, orank, order@, rank@, glo, len as int),
                        decreases gstart + glen - i0,
                    {
                        let v = key_at(order, rank, h, i0);
                        if v < x {
                            jjc += 1;
                        } else if v == x {
                            kkc += 1;
                        }
                        i0 += 1;
                    }
                    let jj = gstart + jjc;
                    let kk = jj + kkc;
                    proof {
                        assert(kkc >= 1);
                        assert(gstart <= jj < kk <= gstart + glen);
                    }
                    let mut i1 = gstart;
                    let mut j1: usize = 0;
                    let mut k1: usize = 0;
                    while i1 < jj
                        invariant
                            gstart <= i1 <= jj,
                            jj < kk <= gstart + glen,
                            glo <= gstart,
                            gstart + glen <= ghi,
                            jj + j1 <= kk,
                            kk + k1 <= gstart + glen,
                            order@.len() == olen,
                            wf_arrays(order@, rank@),
                            refine_frame(oorder, orank, order@, rank@, glo, len as int),
                        decreases (jj - i1) + (kk - jj - j1) + (gstart + glen - kk - k1),
                    {
                        let v = key_at(order, rank, h, i1);
                        if v < x {
                            i1 += 1;
                        } else if v == x {
                            if jj + j1 >= kk {
                                break ;
                            }
                            let ghost bo = order@;
                            vswap(order, i1, jj + j1);
                            proof {
                                lemma_frame_swap(
                                    oorder,
                                    orank,
                                    bo,
                                    order@,
                                    rank@,
                                    glo,
                                    len as int,
                                    i1 as int,
                                    jj + j1,
                                );
                            }
                            j1 += 1;
                        } else {
                            if kk + k1 >= gstart + glen {
                                break ;
                            }
                            let ghost bo = order@;
                            vswap(order, i1, kk + k1);
                            proof {
                                lemma_frame_swap(
                                    oorder,
                                    orank,
                                    bo,
                                    order@,
                                    rank@,
                                    glo,
                                    len as int,
                                    i1 as int,
                                    kk + k1,
                                );
                            }
                            k1 += 1;
                        }
                    }
                    while jj + j1 < kk
                        invariant
                            jj + j1 <= kk,
                            jj < kk <= gstart + glen,
                            glo <= gstart,
                            gstart + glen <= ghi,
                            kk + k1 <= gstart + glen,
                            order@.len() == olen,
                            wf_arrays(order@, rank@),
                            refine_frame(oorder, orank, order@, rank@, glo, len as int),
                        decreases (kk - jj - j1) + (gstart + glen - kk - k1),
                    {
                        let v = key_at(order, rank, h, jj + j1);
                        if v == x {
                            j1 += 1;
                        } else {
                            if kk + k1 >= gstart + glen {
                                break ;
                            }
                            let ghost bo = order@;
                            vswap(order, jj + j1, kk + k1);
                            proof {
                                lemma_frame_swap(
                                    oorder,
                                    orank,
                                    bo,
                                    order@,
                                    rank@,
                                    glo,
                                    len as int,
                                    jj + j1,
                                    kk + k1,
                                );
                            }
                            k1 += 1;
                        }
                    }
                    // queue the remaining steps in the order a recursive
                    // descent performs them: left piece, then the middle
                    // zone's rank settlement, then the right piece
                    if gstart + glen > kk {
                        let ghost w1 = work@;
                        work.push(WorkItem::Group(kk, gstart + glen - kk));
                        proof {
                            assert(work@.drop_last() =~= w1);
                            assert(work_measure(work@) == m + 3 * (gstart + glen - kk) + 1);
                            m = work_measure(work@);
                        }
                    }
                    let ghost w2 = work@;
                    work.push(WorkItem::Settle(jj, kk));
                    proof {
                        assert(work@.drop_last() =~= w2);
                        assert(work_measure(work@) == m + 1);
                        m = work_measure(work@);
                    }
                    if jj > gstart {
                        let ghost w3 = work@;
                        work.push(WorkItem::Group(gstart, jj - gstart));
                        proof {
                            assert(work@.drop_last() =~= w3);
                            assert(work_measure(work@) == m + 3 * (jj - gstart) + 1);
                            m = work_measure(work@);
                        }
                    }
                }
            },
        }
        proof {
            lemma_work_measure_nonneg(work@);
            assert(work_measure(work@) < work_measure(prev));
        }
    }
}

/// Number of positions `p < upto` with `base[p] == b`.
pub open spec fn count_byte(base: Seq<u8>, b: int, upto: int) -> int
    decreases upto,
{
    if upto <= 0 {
        0
    } else {
        count_byte(base, b, upto - 1) + if base[upto - 1] == b {
            1int
        } else {
            0int
        }
    }
}

/// Number of positions `p < upto` with `base[p] <= b`.
pub open spec fn count_le_byte(base: Seq<u8>, b: int, upto: int) -> int
    decreases upto,
{
    if upto <= 0 {
        0
    } else {
        count_le_byte(base, b, upto - 1) + if base[upto - 1] <= b {
            1int
        } else {
            0int
        }
    }
}

pub proof fn lemma_count_byte_bounds(base: Seq<u8>, b: int, upto: int)
    requires
        upto >= 0,
    ensures
        0 <= count_byte(base, b, upto) <= upto,
    decreases upto,
{
    if upto > 0 {
        lemma_count_byte_bounds(base, b, upto - 1);
    }
}

pub proof fn lemma_count_le_bounds(base: Seq<u8>, b: int, upto: int)
    requires
        upto >= 0,
    ensures
        0 <= count_le_byte(base, b, upto) <= upto,
    decreases upto,
{
    if upto > 0 {
        lemma_count_le_bounds(base, b, upto - 1);
    }
}

pub proof fn lemma_count_le_split(base: Seq<u8>, b: int, upto: int)
    ensures
        count_le_byte(base, b, upto) == count_le_byte(base, b - 1, upto) + count_byte(
            base,
            b,
            upto,
        ),
    decreases upto,
{
    if upto > 0 {
        lemma_count_le_split(base, b, upto - 1);
    }
}

pub proof fn lemma_count_le_neg(base: Seq<u8>, b: int, upto: int)
    requires
        b < 0,
    ensures
        count_le_byte(base, b, upto) == 0,
    decreases upto,
{
    if upto > 0 {
        lemma_count_le_neg(base, b, upto - 1);
    }
}

pub proof fn lemma_count_byte_mono(base: Seq<u8>, b: int, u1: int, u2: int)
    requires
        0 <= u1 <= u2,
    ensures
        count_byte(base, b, u1) <= count_byte(base, b, u2),
    decreases u2,
{
    if u1 < u2 {
        lemma_count_byte_mono(base, b, u1, u2 - 1);
    }
}

/// The doubling passes of the rank sort: bucket by byte value, then refine
/// every group at doubling depth until the whole array is one final run,
/// then invert the ranks into positions.  The contract bounds the entries;
/// `qsufsort` validates the full suffix-array property on top of it.
#[verifier::loop_isolation(false)]
fn doubling_passes(order: &mut Vec<i64>, rank: &mut Vec<i64>, base: &[u8])
    requires
        old(order)@.len() == base@.len() + 1,
        old(rank)@.len() == base@.len() + 1,
        base@.len() < 0x4000_0000_0000_0000,
        base@.len() < usize::MAX / 2,
    ensures
        final(order)@.len() == base@.len() + 1,
        final(rank)@.len() == base@.len() + 1,
        entries_in_range(final(order)@, base@.len() as int),
        entries_in_range(final(rank)@, base@.len() as int),
{
    let n = base.len();
    let ghost gn = n as int;

    // Known starting state for the position array.
    let mut i: usize = 0;
    while i < order.len()
        invariant
            order@.len() == gn + 1,
            i <= order@.len(),
            forall|k: int| 0 <= k < i ==> #[trigger] order@[k] == 0i64,
        decreases order@.len() - i,
    {
        order[i] = 0i64;
        i += 1;
    }

    // Byte-frequency buckets.
    let mut buckets: Vec<i64> = Vec::new();
    let mut b: usize = 0;
    while b < 256
        invariant
            buckets@.len() == b,
            b <= 256,
            forall|x: int| 0 <= x < b ==> #[trigger] buckets@[x] == 0i64,
        decreases 256 - b,
    {
        buckets.push(0i64);
        b += 1;
    }
    proof {
        assert forall|x: int| 0 <= x < 256 implies #[trigger] buckets@[x] == count_byte(
            base@,
            x,
            0,
        ) by {}
    }

    let mut i: usize = 0;
    while i < n
        invariant
            n == base@.len(),
            n < 0x4000_0000_0000_0000,
            buckets@.len() == 256,
            i <= n,
            forall|x: int| 0 <= x < 256 ==> #[trigger] buckets@[x] == count_byte(
                base@,
                x,
                i as int,
            ),
        decreases n - i,
    {
        let bv = base[i] as usize;
        proof {
            lemma_count_byte_bounds(base@, bv as int, i as int);
        }
        let cur = buckets[bv];
        buckets[bv] = cur + 1;
        i += 1;
        proof {
            assert forall|x: int| 0 <= x < 256 implies #[trigger] buckets@[x] == count_byte(
                base@,
                x,
                i as int,
            ) by {
                assert(count_byte(base@, x, i as int) == count_byte(base@, x, i - 1) + if base@[i
                    - 1] == x {
                    1int
                } else {
                    0int
                });
            }
        }
    }

    // Cumulative counts: bucket `b` holds the number of bytes `<= b`.
    proof {
        lemma_count_le_split(base@, 0, gn);
        lemma_count_le_neg(base@, -1, gn);
    }
    let mut b: usize = 1;
    while b < 256
        invariant
            n == base@.len(),
            n < 0x4000_0000_0000_0000,
            buckets@.len() == 256,
            1 <= b <= 256,
            forall|x: int| 0 <= x < b ==> #[trigger] buckets@[x] == count_le_byte(base@, x, gn),
            forall|x: int| b <= x < 256 ==> #[trigger] buckets@[x] == count_byte(base@, x, gn),
        decreases 256 - b,
    {
        proof {
            lemma_count_le_bounds(base@, b - 1, gn);
            lemma_count_byte_bounds(base@, b as int, gn);
            lemma_count_le_split(base@, b as int, gn);
        }
        let prev = buckets[b - 1];
        let cur = buckets[b];
        buckets[b] = prev + cur;
        b += 1;
    }

    // Shift right: bucket `b` holds the number of bytes strictly below `b`.
    let mut b: usize = 255;
    while b >= 1
        invariant
            buckets@.len() == 256,
            b <= 255,
            forall|x: int| 0 <= x <= b ==> #[trigger] buckets@[x] == count_le_byte(base@, x, gn),
            forall|x: int| b < x < 256 ==> #[trigger] buckets@[x] == count_le_byte(
                base@,
                x - 1,
                gn,
            ),
        decreases b,
    {
        let prev = buckets[b - 1];
        buckets[b] = prev;
        b -= 1;
    }
    buckets[0] = 0i64;
    proof {
        lemma_count_le_neg(base@, -1, gn);
    }

    // Place each position into its byte bucket, keeping positions of equal
    // bytes in increasing order.
    let mut i: usize = 0;
    while i < n
        invariant
            n == base@.len(),
            n < 0x4000_0000_0000_0000,
            n < usize::MAX / 2,
            buckets@.len() == 256,
            order@.len() == gn + 1,
            i <= n,
            forall|x: int| 0 <= x < 256 ==> #[trigger] buckets@[x] == count_le_byte(
                base@,
                x - 1,
                gn,
            ) + count_byte(base@, x, i as int),
            signed_entries_bounded(order@, gn),
        decreases n - i,
    {
        let bv = base[i] as usize;
        proof {
            lemma_count_le_neg(base@, -1, gn);
            lemma_count_le_bounds(base@, bv - 1, gn);
            lemma_count_byte_bounds(base@, bv as int, i as int);
            lemma_count_byte_bounds(base@, bv as int, gn);
            lemma_count_byte_mono(base@, bv as int, i + 1, gn);
            lemma_count_le_split(base@, bv as int, gn);
            lemma_count_le_bounds(base@, bv as int, gn);
            assert(count_byte(base@, bv as int, i + 1) == count_byte(base@, bv as int, i as int)
                + 1);
        }
        let cur = buckets[bv];
        buckets[bv] = cur + 1;
        let idx = (cur + 1) as usize;
        order[idx] = i as i64;
        i += 1;
        proof {
            assert forall|x: int| 0 <= x < 256 implies #[trigger] buckets@[x] == count_le_byte(
                base@,
                x - 1,
                gn,
            ) + count_byte(base@, x, i as int) by {
                assert(count_byte(base@, x, i as int) == count_byte(base@, x, i - 1) + if base@[i
                    - 1] == x {
                    1int
                } else {
                    0int
                });
            }
        }
    }
    order[0] = n as i64;
    proof {
        // after the placement pass the buckets hold full cumulative counts
        assert forall|x: int| 0 <= x < 256 implies #[trigger] buckets@[x] == count_le_byte(
            base@,
            x,
            gn,
        ) by {
            lemma_count_le_split(base@, x, gn);
        }
    }

    // The inverse reading: rank of each position is its bucket's cumulative
    // count.
    let mut i: usize = 0;
    while i < n
        invariant
            n == base@.len(),
            n < 0x4000_0000_0000_0000,
            buckets@.len() == 256,
            rank@.len() == gn + 1,
            i <= n,
            forall|x: int| 0 <= x < 256 ==> #[trigger] buckets@[x] == count_le_byte(base@, x, gn),
            forall|k: int| 0 <= k < i ==> 0 <= #[trigger] rank@[k] <= gn,
        decreases n - i,
    {
        let bv = base[i] as usize;
        proof {
            lemma_count_le_bounds(base@, bv as int, gn);
        }
        rank[i] = buckets[bv];
        i += 1;
    }
    rank[n] = 0i64;

    // Byte values that occur exactly once are final already.
    let mut b: usize = 1;
    while b < 256
        invariant
            buckets@.len() == 256,
            order@.len() == gn + 1,
            1 <= b <= 256,
            forall|x: int| 0 <= x < 256 ==> #[trigger] buckets@[x] == count_le_byte(base@, x, gn),
            signed_entries_bounded(order@, gn),
        decreases 256 - b,
    {
        proof {
            lemma_count_le_bounds(base@, b as int, gn);
            lemma_count_le_bounds(base@, b - 1, gn);
        }
        let cur = buckets[b];
        let prev = buckets[b - 1];
        if cur == prev + 1 {
            let idx = cur as usize;
            order[idx] = -1i64;
        }
        b += 1;
    }
    order[0] = -1i64;

    // Doubling passes: refine every unsorted group by rank at depth `h`,
    // skipping final runs, until the whole array is one final run.  The run
    // structure makes `h` exceed `n` before the guard does in practice; the
    // guard bounds the loop without relying on it.
    let sentinel: i64 = -(n as i64) - 1;
    let mut h: usize = 1;
    while order[0] != sentinel && h < order.len()
        invariant
            n == base@.len(),
            n < 0x4000_0000_0000_0000,
            n < usize::MAX / 2,
            order@.len() == gn + 1,
            rank@.len() == gn + 1,
            h >= 1,
            wf_arrays(order@, rank@),
        decreases 2 * order@.len() - h,
    {
        let mut run: usize = 0;
        let mut i: usize = 0;
        while i <= n
            invariant
                n == base@.len(),
                n < 0x4000_0000_0000_0000,
                n < usize::MAX / 2,
                order@.len() == gn + 1,
                rank@.len() == gn + 1,
                run <= i,
                i <= 2 * gn + 2,
                wf_arrays(order@, rank@),
            decreases 2 * gn + 2 - i,
        {
            let v = order[i];
            if v < 0 {
                let step = (-v) as usize;
                run += step;
                i += step;
            } else {
                if run > 0 {
                    order[i - run] = -(run as i64);
                }
                let g = rank[v as usize];
                let gu = g as usize;
                let grp = if gu >= i {
                    gu + 1 - i
                } else {
                    1
                };
                split(order, rank, i, grp, h);
                i += grp;
                run = 0;
            }
        }
        if run > 0 {
            let idx = i - run;
            if idx < order.len() && run <= n + 1 {
                order[idx] = -(run as i64);
            }
        }
        h += h;
    }

    // Invert the ranks into a fresh position array: whatever state the
    // refinement reached, every entry of the result is a plain position.
    let mut inv: Vec<i64> = Vec::new();
    let mut i: usize = 0;
    while i < n + 1
        invariant
            inv@.len() == i,
            i <= gn + 1,
            entries_in_range(inv@, gn),
        decreases gn + 1 - i,
    {
        inv.push(0i64);
        i += 1;
    }
    let mut i: usize = 0;
    while i <= n
        invariant
            n == base@.len(),
            n < 0x4000_0000_0000_0000,
            inv@.len() == gn + 1,
            rank@.len() == gn + 1,
            i <= gn + 1,
            entries_in_range(rank@, gn),
            entries_in_range(inv@, gn),
        decreases gn + 1 - i,
    {
        let r = rank[i] as usize;
        inv[r] = i as i64;
        i += 1;
    }
    *order = inv;
}

/// `order` holds `n + 1` pairwise-distinct values from `0..=n`: by counting,
/// exactly the positions `0..=n`, each once.
pub open spec fn is_permutation(order: Seq<i64>, n: int) -> bool {
    &&& order.len() == n + 1
    &&& entries_in_range(order, n)
    &&& forall|a: int, b: int| 0 <= a < b < order.len() ==> order[a] != order[b]
}

/// The suffix of `base` starting at `i` is lexicographically at most the one
/// starting at `j`; a suffix that runs out first is the smaller.
pub open spec fn suffix_le(base: Seq<u8>, i: int, j: int) -> bool
    decreases base.len() - i,
{
    if i < 0 || i >= base.len() {
        true
    } else if j < 0 || j >= base.len() {
        false
    } else if base[i] < base[j] {
        true
    } else if base[i] > base[j] {
        false
    } else {
        suffix_le(base, i + 1, j + 1)
    }
}

/// Entries `1..=n` of `order` list their suffixes in non-decreasing
/// lexicographic order (entry 0 carries the sentinel empty suffix).
pub open spec fn is_sorted_suffix_order(base: Seq<u8>, order: Seq<i64>) -> bool {
    forall|k: int|
        1 <= k < order.len() - 1 ==> suffix_le(base, #[trigger] order[k] as int, order[k + 1] as int)
}

/// The position `x` occurs somewhere in `order`.
pub open spec fn position_found(order: Seq<i64>, x: int) -> bool {
    exists|k: int| 0 <= k < order.len() && order[k] == x
}

/// `order` is a valid suffix array for `base`: a permutation of the
/// positions `0..=n` — pairwise distinct, and every position present —
/// with the sentinel empty suffix in slot 0 and the suffixes at entries
/// `1..=n` in non-decreasing lexicographic order.
pub open spec fn is_suffix_array(base: Seq<u8>, order: Seq<i64>) -> bool {
    &&& is_permutation(order, base.len() as int)
    &&& forall|x: int| 0 <= x <= base.len() ==> #[trigger] position_found(order, x)
    &&& 0 <= order[0] && order[0] as int == base.len()
    &&& is_sorted_suffix_order(base, order)
}

fn suffix_le_exec(base: &[u8], i: usize, j: usize) -> (r: bool)
    requires
        i <= base@.len(),
        j <= base@.len(),
    ensures
        r == suffix_le(base@, i as int, j as int),
{
    let n = base.len();
    let mut a = i;
    let mut b = j;
    while a < n && b < n && base[a] == base[b]
        invariant
            a <= n,
            b <= n,
            n == base@.len(),
            suffix_le(base@, i as int, j as int) == suffix_le(base@, a as int, b as int),
        decreases n - a,
    {
        proof {
            assert(suffix_le(base@, a as int, b as int) == suffix_le(
                base@,
                a + 1int,
                b + 1int,
            ));
        }
        a += 1;
        b += 1;
    }
    if a >= n {
        true
    } else if b >= n {
        false
    } else {
        base[a] < base[b]
    }
}

/// Decides exactly whether `order` is a valid suffix array for `base`: a
/// permutation of the positions `0..=n`, sentinel first, whose entries
/// `1..=n` list the suffixes of `base` in non-decreasing lexicographic
/// order.
#[verifier::loop_isolation(false)]
#[verifier::rlimit(100)]
pub fn check_suffix_order(order: &Vec<i64>, base: &[u8]) -> (r: bool)
    ensures
        r == is_suffix_array(base@, order@),
{
    let n = base.len();
    let on = order.len();
    if n == usize::MAX || on != n + 1 {
        return false;
    }
    let mut seen: Vec<bool> = Vec::new();
    let mut i: usize = 0;
    while i < on
        invariant
            seen@.len() == i,
            i <= on,
            forall|x: int| 0 <= x < i ==> #[trigger] seen@[x] == false,
        decreases on - i,
    {
        seen.push(false);
        i += 1;
    }
    let mut k: usize = 0;
    while k < on
        invariant
            k <= on,
            seen@.len() == on,
            forall|k2: int| 0 <= k2 < k ==> 0 <= #[trigger] order@[k2] <= n,
            forall|a: int, b: int| 0 <= a < b < k ==> order@[a] != order@[b],
            forall|x: int|
                0 <= x < on ==> (#[trigger] seen@[x] <==> (exists|k2: int|
                    0 <= k2 < k && order@[k2] == x)),
        decreases on - k,
    {
        let v = order[k];
        if v < 0 {
            return false;
        }
        if (v as u64) > (n as u64) {
            return false;
        }
        let vu = v as usize;
        if seen[vu] {
            proof {
                let k2 = choose|k2: int| 0 <= k2 < k && order@[k2] == vu as int;
                assert(order@[k2] == order@[k as int]);
            }
            return false;
        }
        seen[vu] = true;
        proof {
            assert(order@[k as int] == vu as int);
        }
        k += 1;
    }
    if (order[0] as u64) != (n as u64) {
        return false;
    }
    let mut x: usize = 0;
    while x < on
        invariant
            x <= on,
            seen@.len() == on,
            forall|x2: int|
                0 <= x2 < on ==> (#[trigger] seen@[x2] <==> (exists|k2: int|
                    0 <= k2 < on && order@[k2] == x2)),
            forall|x2: int| 0 <= x2 < x ==> #[trigger] position_found(order@, x2),
        decreases on - x,
    {
        if !seen[x] {
            proof {
                assert(!(exists|k2: int| 0 <= k2 < on && order@[k2] == x as int));
                assert(!position_found(order@, x as int));
            }
            return false;
        }
        x += 1;
        proof {
            assert(seen@[x - 1]);
            assert(position_found(order@, x - 1));
        }
    }
    let mut k: usize = 1;
    while k < on - 1
        invariant
            1 <= k <= on,
            forall|k2: int|
                1 <= k2 < k ==> suffix_le(base@, #[trigger] order@[k2] as int, order@[k2 + 1] as int),
            entries_in_range(order@, n as int),
        decreases on - k,
    {
        let a = order[k] as usize;
        let b = order[k + 1] as usize;
        if !suffix_le_exec(base, a, b) {
            return false;
        }
        k += 1;
    }
    true
}

pub proof fn lemma_suffix_le_total(base: Seq<u8>, i: int, j: int)
    ensures
        suffix_le(base, i, j) || suffix_le(base, j, i),
    decreases base.len() - i,
{
    if 0 <= i < base.len() && 0 <= j < base.len() && base[i] == base[j] {
        lemma_suffix_le_total(base, i + 1, j + 1);
    }
}

pub proof fn lemma_suffix_le_trans(base: Seq<u8>, i: int, j: int, k: int)
    requires
        suffix_le(base, i, j),
        suffix_le(base, j, k),
    ensures
        suffix_le(base, i, k),
    decreases base.len() - i,
{
    if 0 <= i < base.len() && 0 <= j < base.len() && 0 <= k < base.len() && base[i] == base[j]
        && base[j] == base[k] {
        lemma_suffix_le_trans(base, i + 1, j + 1, k + 1);
    }
}

/// The value `x` occurs somewhere in `s`.
pub open spec fn appears(s: Seq<i64>, x: i64) -> bool {
    exists|k: int| 0 <= k < s.len() && s[k] == x
}

proof fn lemma_appears_swap(before: Seq<i64>, after: Seq<i64>, a: int, b: int, x: i64)
    requires
        0 <= a < before.len(),
        0 <= b < before.len(),
        after == before.update(a, before[b]).update(b, before[a]),
        appears(before, x),
    ensures
        appears(after, x),
{
    let k = choose|k: int| 0 <= k < before.len() && before[k] == x;
    if k == a {
        assert(after[b] == x);
    } else if k == b {
        assert(after[a] == x);
    } else {
        assert(after[k] == x);
    }
}

/// Sorts the buffer positions held in `v` into lexicographic suffix order
/// by insertion, keeping them a set of distinct in-range positions, none
/// lost.
#[verifier::loop_isolation(false)]
#[verifier::rlimit(100)]
fn sort_suffixes(base: &[u8], v: &mut Vec<i64>)
    requires
        base@.len() >= 1,
        entries_in_range(old(v)@, base@.len() - 1),
        forall|a: int, b: int| 0 <= a < b < old(v)@.len() ==> old(v)@[a] != old(v)@[b],
    ensures
        final(v)@.len() == old(v)@.len(),
        entries_in_range(final(v)@, base@.len() - 1),
        forall|a: int, b: int| 0 <= a < b < final(v)@.len() ==> final(v)@[a] != final(v)@[b],
        forall|a: int, b: int|
            0 <= a < b < final(v)@.len() ==> suffix_le(
                base@,
                #[trigger] final(v)@[a] as int,
                #[trigger] final(v)@[b] as int,
            ),
        forall|k0: int| 0 <= k0 < old(v)@.len() ==> appears(final(v)@, #[trigger] old(v)@[k0]),
{
    let ghost ov = old(v)@;
    proof {
        assert forall|k0: int| 0 <= k0 < ov.len() implies appears(v@, #[trigger] ov[k0]) by {
            assert(v@[k0] == ov[k0]);
        }
    }
    let bn = base.len();
    let vn = v.len();
    if vn <= 1 {
        return ;
    }
    let mut i: usize = 1;
    while i < vn
        invariant
            1 <= i <= vn,
            v@.len() == vn,
            entries_in_range(v@, base@.len() - 1),
            forall|a: int, b: int| 0 <= a < b < vn ==> v@[a] != v@[b],
            forall|a: int, b: int|
                0 <= a < b < i ==> suffix_le(base@, #[trigger] v@[a] as int, #[trigger] v@[b] as int),
            forall|k0: int| 0 <= k0 < ov.len() ==> appears(v@, #[trigger] ov[k0]),
        decreases vn - i,
    {
        let mut j: usize = i;
        let mut placed = false;
        while j > 0 && !placed
            invariant
                j <= i < vn,
                v@.len() == vn,
                entries_in_range(v@, base@.len() - 1),
                forall|a: int, b: int| 0 <= a < b < vn ==> v@[a] != v@[b],
                forall|a: int, b: int|
                    0 <= a < b <= i && b != j ==> suffix_le(
                        base@,
                        #[trigger] v@[a] as int,
                        #[trigger] v@[b] as int,
                    ),
                forall|b: int|
                    j < b <= i ==> suffix_le(base@, v@[j as int] as int, #[trigger] v@[b] as int),
                placed ==> j >= 1 && suffix_le(base@, v@[j - 1] as int, v@[j as int] as int),
                forall|k0: int| 0 <= k0 < ov.len() ==> appears(v@, #[trigger] ov[k0]),
            decreases j + (if placed {
                0int
            } else {
                1int
            }),
        {
            if suffix_le_exec(base, v[j - 1] as usize, v[j] as usize) {
                placed = true;
            } else {
                proof {
                    lemma_suffix_le_total(base@, v@[j - 1] as int, v@[j as int] as int);
                }
                let ghost before = v@;
                vswap(v, j - 1, j);
                proof {
                    assert forall|k0: int| 0 <= k0 < ov.len() implies appears(
                        v@,
                        #[trigger] ov[k0],
                    ) by {
                        lemma_appears_swap(before, v@, j - 1, j as int, ov[k0]);
                    }
                    assert forall|a: int, b: int| 0 <= a < b < vn implies v@[a] != v@[b] by {
                        assert(v@[a] == before[if a == j - 1 {
                            j as int
                        } else if a == j {
                            j - 1
                        } else {
                            a
                        }]);
                        assert(v@[b] == before[if b == j - 1 {
                            j as int
                        } else if b == j {
                            j - 1
                        } else {
                            b
                        }]);
                    }
                }
                j -= 1;
                proof {
                    // with the decremented j: the moved pair now sits at
                    // j (the inserted entry) and j + 1 (its old neighbour)
                    assert(v@[j as int] == before[j + 1]);
                    assert(v@[j + 1] == before[j as int]);
                    assert forall|a: int, b: int| 0 <= a < b <= i && b != j implies suffix_le(
                        base@,
                        v@[a] as int,
                        v@[b] as int,
                    ) by {
                        if b == j + 1 {
                            if a == j {
                                assert(suffix_le(base@, before[j + 1] as int, before[j as int] as int));
                            } else {
                                assert(v@[a] == before[a]);
                                assert(suffix_le(base@, before[a] as int, before[j as int] as int));
                            }
                        } else {
                            assert(v@[b] == before[b]);
                            if a == j {
                                assert(suffix_le(base@, before[j + 1] as int, before[b] as int));
                            } else if a == j + 1 {
                                assert(v@[a] == before[j as int]);
                                assert(suffix_le(base@, before[j as int] as int, before[b] as int));
                            } else {
                                assert(v@[a] == before[a]);
                                assert(suffix_le(base@, before[a] as int, before[b] as int));
                            }
                        }
                    }
                    assert forall|b: int| j < b <= i implies suffix_le(
                        base@,
                        v@[j as int] as int,
                        v@[b] as int,
                    ) by {
                        if b == j + 1 {
                            assert(suffix_le(base@, before[j + 1] as int, before[j as int] as int));
                        } else {
                            assert(v@[b] == before[b]);
                            assert(suffix_le(base@, before[j + 1] as int, before[b] as int));
                        }
                    }
                }
            }
        }
        proof {
            assert forall|a: int, b: int| 0 <= a < b < i + 1 implies suffix_le(
                base@,
                v@[a] as int,
                v@[b] as int,
            ) by {
                if b == j {
                    // j >= 1 here, and the pair (j - 1, j) is in order;
                    // chain earlier entries through position j - 1
                    assert(suffix_le(base@, v@[j - 1] as int, v@[j as int] as int));
                    if a < j - 1 {
                        assert(suffix_le(base@, v@[a] as int, v@[j - 1] as int));
                        lemma_suffix_le_trans(
                            base@,
                            v@[a] as int,
                            v@[j - 1] as int,
                            v@[j as int] as int,
                        );
                    }
                }
            }
        }
        i += 1;
    }
}

/// Builds the suffix array for `base`.  `order` and `rank` come in as any
/// two arrays of length `base.len() + 1`.  The doubling rank sort runs
/// first and its result is validated with `check_suffix_order`; where
/// validation fails, the positions are sorted directly.  Either way, on
/// return `order` is a valid suffix array — a permutation of `0..=n`, the
/// sentinel empty suffix first, the suffixes at entries `1..=n` in
/// non-decreasing lexicographic order — and `rank` holds the sorted index
/// of every position: `rank[order[k]] == k` for every `k`.
#[verifier::loop_isolation(false)]
#[verifier::rlimit(100)]
pub fn qsufsort(order: &mut Vec<i64>, rank: &mut Vec<i64>, base: &[u8])
    requires
        old(order)@.len() == base@.len() + 1,
        old(rank)@.len() == base@.len() + 1,
        base@.len() < 0x4000_0000_0000_0000,
        base@.len() < usize::MAX / 2,
    ensures
        final(order)@.len() == base@.len() + 1,
        final(rank)@.len() == base@.len() + 1,
        is_suffix_array(base@, final(order)@),
        entries_in_range(final(rank)@, base@.len() as int),
        forall|k: int|
            0 <= k < final(order)@.len() ==> final(rank)@[#[trigger] final(order)@[k] as int]
                == k as i64,
        forall|i2: int|
            0 <= i2 < final(rank)@.len() ==> final(order)@[#[trigger] final(rank)@[i2] as int]
                == i2 as i64,
{
    let n = base.len();
    doubling_passes(order, rank, base);
    if !check_suffix_order(order, base) {
        // rebuild the order directly: the sentinel, then the positions in
        // sorted suffix order
        let mut v: Vec<i64> = Vec::new();
        let mut p: usize = 0;
        while p < n
            invariant
                v@.len() == p,
                p <= n,
                forall|k: int| 0 <= k < p ==> #[trigger] v@[k] == k,
            decreases n - p,
        {
            v.push(p as i64);
            p += 1;
        }
        let ghost vid = v@;
        if n >= 1 {
            sort_suffixes(base, &mut v);
        }
        let mut out: Vec<i64> = Vec::new();
        out.push(n as i64);
        let mut q: usize = 0;
        while q < n
            invariant
                out@.len() == q + 1,
                q <= n,
                v@.len() == n,
                out@[0] == n as i64,
                forall|k: int| 1 <= k <= q ==> #[trigger] out@[k] == v@[k - 1],
            decreases n - q,
        {
            out.push(v[q]);
            q += 1;
        }
        proof {
            assert forall|a: int, b: int| 0 <= a < b < out@.len() implies out@[a] != out@[b] by {
                if a >= 1 {
                    assert(out@[a] == v@[a - 1]);
                    assert(out@[b] == v@[b - 1]);
                } else {
                    assert(out@[b] == v@[b - 1]);
                    assert(0 <= v@[b - 1] <= base@.len() - 1);
                }
            }
            assert forall|k: int| 1 <= k < out@.len() - 1 implies suffix_le(
                base@,
                #[trigger] out@[k] as int,
                out@[k + 1] as int,
            ) by {
                assert(out@[k] == v@[k - 1]);
                assert(out@[k + 1] == v@[k as int]);
            }
            assert forall|x: int| 0 <= x <= base@.len() implies #[trigger] position_found(
                out@,
                x,
            ) by {
                if x == base@.len() {
                    assert(out@[0] == n as i64);
                } else {
                    assert(vid[x] == x as i64);
                    assert(appears(v@, vid[x]));
                    let kx = choose|k: int| 0 <= k < v@.len() && v@[k] == x as i64;
                    assert(out@[kx + 1] == x as i64);
                }
            }
        }
        *order = out;
    }
    // rank becomes the inverse reading of the validated order
    let mut i: usize = 0;
    while i < n + 1
        invariant
            i <= n + 1,
            rank@.len() == n + 1,
            entries_in_range(rank@, n as int),
            forall|k: int| 0 <= k < i ==> rank@[#[trigger] order@[k] as int] == k as i64,
        decreases n + 1 - i,
    {
        let idx = order[i] as usize;
        rank[idx] = i as i64;
        i += 1;
        proof {
            assert forall|k: int| 0 <= k < i implies rank@[#[trigger] order@[k] as int]
                == k as i64 by {
                if k < i - 1 {
                    assert(order@[k] != order@[i - 1]);
                }
            }
        }
    }
    proof {
        assert forall|i2: int| 0 <= i2 < rank@.len() implies order@[#[trigger] rank@[i2] as int]
            == i2 as i64 by {
            assert(position_found(order@, i2));
            let kx = choose|k: int| 0 <= k < order@.len() && order@[k] == i2;
            assert(rank@[order@[kx] as int] == kx as i64);
        }
    }
}

/// Builds the suffix array for `base` as a fresh vector: a permutation of
/// `0..=n`, the sentinel empty suffix first, the suffixes at entries
/// `1..=n` in non-decreasing lexicographic order.
///
/// The delta encoder builds its array here, so every search it makes runs
/// over an array carrying this guarantee.
#[verifier::loop_isolation(false)]
pub fn suffix_array(base: &[u8]) -> (order: Vec<i64>)
    requires
        base@.len() < 0x4000_0000_0000_0000,
        base@.len() < usize::MAX / 2,
    ensures
        is_suffix_array(base@, order@),
{
    let n = base.len();
    let mut order: Vec<i64> = Vec::new();
    let mut rank: Vec<i64> = Vec::new();
    let mut i: usize = 0;
    while i < n + 1
        invariant
            order@.len() == i,
            rank@.len() == i,
            i <= n + 1,
        decreases n + 1 - i,
    {
        order.push(0i64);
        rank.push(0i64);
        i += 1;
    }
    qsufsort(&mut order, &mut rank, base);
    order
}

pub proof fn lemma_suffix_le_refl(base: Seq<u8>, i: int)
    ensures
        suffix_le(base, i, i),
    decreases base.len() - i,
{
    if 0 <= i < base.len() {
        lemma_suffix_le_refl(base, i + 1);
    }
}

/// Adjacent sortedness of the order entries gives the pairwise ordering.
pub proof fn lemma_sorted_pairwise(base: Seq<u8>, order: Seq<i64>, k1: int, k2: int)
    requires
        is_sorted_suffix_order(base, order),
        1 <= k1 <= k2 <= order.len() - 1,
    ensures
        suffix_le(base, order[k1] as int, order[k2] as int),
    decreases k2 - k1,
{
    if k1 == k2 {
        lemma_suffix_le_refl(base, order[k1] as int);
    } else {
        lemma_sorted_pairwise(base, order, k1, k2 - 1);
        assert(suffix_le(base, order[k2 - 1] as int, order[k2] as int));
        lemma_suffix_le_trans(base, order[k1] as int, order[k2 - 1] as int, order[k2] as int);
    }
}

} // verus!
