//! The delta encoder: a single forward scan over the target buffer that
//! partitions it into copy regions (stored as wraparound differences against
//! the base) and literal regions, emitting one control triple per region
//! pair.

use crate::delta::{
    apply_triples, combine, end_oldpos, lemma_apply_push, progressive, sum_copy, sum_literal,
    sum_total, triple_wf, triples_wf, ControlTriple,
};
use crate::matching::{lcp_len, lemma_lcp_bounds, search};
use crate::suffix::suffix_array;
use crate::patch::{apply_channels, apply_exact, apply_stream, lemma_channels_exact_implies_stream,
    lemma_exact_implies_stream};
use crate::wire::{byte_sub, i64_le_bytes, le64_i64, le64_write, lemma_i64_le_round_trip,
    lemma_wrap_round_trip, wrap_sub};
use vstd::prelude::*;

verus! {

/// Buffer lengths the encoder accepts: far below both the wire format's
/// signed 64-bit lengths and the address space.
pub open spec fn fits(l: int) -> bool {
    l < 0x4000_0000_0000_0000 && l < usize::MAX / 2
}

/// The one triple emitted when the base buffer is empty: nothing to copy,
/// the whole target as literal bytes.
pub open spec fn whole_insert_triple(n: int) -> ControlTriple {
    ControlTriple { copy_len: 0, literal_len: n as i64, seek_delta: 0 }
}

/// Scoring margin of the scan-cut heuristic: the scan stops extending when
/// the fresh match is this much longer than the running agreement score.
/// Tuning it changes delta sizes, never correctness.
const SCORE_MARGIN: usize = 8;

/// Forward extension of the previous match, backward extension of the
/// fresh one, and resolution of their overlap.  Returns `(lenf, lenb)`:
/// the copy region is `target[lastscan..lastscan+lenf]` against
/// `base[lastpos..lastpos+lenf]`, and the fresh match resumes at
/// `scan - lenb` / `pos - lenb`, the two regions disjoint.
#[verifier::loop_isolation(false)]
#[verifier::rlimit(100)]
fn extend_regions(
    base: &[u8],
    target: &[u8],
    scan: usize,
    lastscan: usize,
    lastpos: usize,
    pos: usize,
) -> (r: (usize, usize))
    requires
        lastscan <= scan <= target@.len(),
        lastpos <= base@.len(),
        pos <= base@.len(),
        target@.len() < 0x4000_0000_0000_0000,
        base@.len() < 0x4000_0000_0000_0000,
        target@.len() < usize::MAX / 2,
        base@.len() < usize::MAX / 2,
    ensures
        r.0 <= scan - lastscan,
        r.0 <= base@.len() - lastpos,
        r.1 <= scan - lastscan,
        r.1 <= pos,
        lastscan + r.0 <= scan - r.1,
        scan == target@.len() ==> r.1 == 0,
        base@.len() == 0 ==> r.0 == 0,
{
    let n = base.len();
    let tn = target.len();

    // forward extension of the previous match region
    let mut s: usize = 0;
    let mut sf: usize = 0;
    let mut lenf: usize = 0;
    let mut i: usize = 0;
    while lastscan + i < scan && lastpos + i < n
        invariant
            lenf <= i,
            i <= scan - lastscan,
            i <= n - lastpos,
            s <= i,
            sf <= lenf,
        decreases scan - lastscan - i,
    {
        if base[lastpos + i] == target[lastscan + i] {
            s += 1;
        }
        i += 1;
        if 2 * (s as i128) - (i as i128) > 2 * (sf as i128) - (lenf as i128) {
            sf = s;
            lenf = i;
        }
    }

    // backward extension of the fresh match
    let mut lenb: usize = 0;
    if scan < tn {
        let mut s2: usize = 0;
        let mut sb: usize = 0;
        let mut ib: usize = 1;
        while scan >= lastscan + ib && pos >= ib
            invariant
                1 <= ib,
                lenb <= scan - lastscan,
                lenb <= pos,
                ib <= scan + 1,
                s2 < ib,
                sb <= tn,
            decreases scan + 1 - lastscan - ib,
        {
            if base[pos - ib] == target[scan - ib] {
                s2 += 1;
            }
            if 2 * (s2 as i128) - (ib as i128) > 2 * (sb as i128) - (lenb as i128) {
                sb = s2;
                lenb = ib;
            }
            ib += 1;
        }
    }

    // the two extensions may overlap: pick the split that favours
    // agreement with the forward side
    if lastscan + lenf > scan - lenb {
        let overlap = (lastscan + lenf) - (scan - lenb);
        let mut s3: i128 = 0;
        let mut ss: i128 = 0;
        let mut lens: usize = 0;
        let mut io: usize = 0;
        while io < overlap
            invariant
                io <= overlap,
                lens <= io,
                overlap <= lenb,
                overlap <= lenf,
                -(io as int) <= s3 as int <= io as int,
                0 <= ss as int <= io as int,
            decreases overlap - io,
        {
            if target[lastscan + lenf - overlap + io] == base[lastpos + lenf - overlap + io] {
                s3 += 1;
            }
            if target[scan - lenb + io] == base[pos - lenb + io] {
                s3 -= 1;
            }
            if s3 > ss {
                ss = s3;
                lens = io + 1;
            }
            io += 1;
        }
        lenf = lenf - (overlap - lens);
        lenb = lenb - lens;
    }
    (lenf, lenb)
}

/// Computes the delta between `base` and `target` as a sequence of control
/// triples with their concatenated diff and extra payloads: the bsdiff scan
/// loop.  Applying the result to `base` gives back exactly `target`; an
/// empty target gives no triples, and an empty base gives one all-literal
/// triple.
#[verifier::loop_isolation(false)]
#[verifier::rlimit(100)]
pub fn diff_triples(base: &[u8], target: &[u8]) -> (r: (Vec<ControlTriple>, Vec<u8>, Vec<u8>))
    requires
        fits(base@.len() as int),
        fits(target@.len() as int),
    ensures
        triples_wf(r.0@),
        progressive(r.0@),
        sum_copy(r.0@) == r.1@.len(),
        sum_literal(r.0@) == r.2@.len(),
        sum_total(r.0@) == target@.len(),
        apply_triples(base@, r.0@, r.1@, r.2@, 0) == target@,
        target@.len() == 0 ==> r.0@.len() == 0,
        (base@.len() == 0 && target@.len() > 0) ==> (r.0@ == seq![
            whole_insert_triple(target@.len() as int),
        ] && r.1@.len() == 0 && r.2@ == target@),
{
    let n = base.len();
    let tn = target.len();
    let order = suffix_array(base);

    let mut ts: Vec<ControlTriple> = Vec::new();
    let mut diffb: Vec<u8> = Vec::new();
    let mut extrab: Vec<u8> = Vec::new();

    let mut scan: usize = 0;
    let mut len: usize = 0;
    let mut pos: usize = 0;
    let mut lastscan: usize = 0;
    let mut lastpos: usize = 0;
    let mut lastoffset: i64 = 0;
    let ghost mut produced: int = 0;

    proof {
        assert(apply_triples(base@, ts@, diffb@, extrab@, 0) =~= target@.take(0));
        assert(sum_copy(ts@) == 0);
        assert(sum_literal(ts@) == 0);
        assert(end_oldpos(ts@, 0) == 0);
    }

    while scan < tn
        invariant
            scan <= tn,
            scan < tn ==> len <= tn - scan,
            pos <= n,
            triples_wf(ts@),
            sum_copy(ts@) == diffb@.len(),
            sum_literal(ts@) == extrab@.len(),
            sum_total(ts@) == produced,
            0 <= produced <= tn,
            apply_triples(base@, ts@, diffb@, extrab@, 0) == target@.take(produced),
            scan < tn ==> produced == lastscan && end_oldpos(ts@, 0) == lastpos && lastoffset
                == lastpos as i64 - lastscan as i64 && lastscan <= scan && lastpos <= n,
            scan >= tn ==> produced == tn && progressive(ts@),
            tn == 0 ==> ts@.len() == 0,
            n == 0 && scan < tn ==> len == 0,
            n == 0 && scan < tn ==> ts@.len() == 0,
            n == 0 && scan >= tn && tn > 0 ==> ts@ == seq![whole_insert_triple(tn as int)]
                && diffb@.len() == 0 && extrab@ == target@,
        decreases 2 * (tn - scan) + (if len == 0 {
            1int
        } else {
            0int
        }),
    {
        let mut oldscore: usize = 0;
        scan = scan + len;
        let mut scsc: usize = scan;
        let mut cut = false;
        let ghost scan_entry = scan as int;

        while !cut && scan < tn
            invariant
                lastscan <= scan <= tn,
                scan_entry <= scan as int,
                pos <= n,
                oldscore <= scsc,
                scsc <= tn,
                cut ==> 1 <= len && len <= tn - scan,
                n == 0 ==> !cut && len == 0 && oldscore == 0,
            decreases 2 * (tn - scan) + (if cut {
                0int
            } else {
                1int
            }),
        {
            len = search(&order, base, target, scan, 0, n, &mut pos);
            proof {
                lemma_lcp_bounds(base@, pos as int, target@, scan as int);
                if n == 0 {
                    assert(lcp_len(base@, pos as int, target@, scan as int) == 0);
                }
            }
            while scsc < scan + len
                invariant
                    scan + len <= tn,
                    scsc <= tn,
                    oldscore <= scsc,
                    n == 0 ==> oldscore == 0,
                decreases scan + len - scsc,
            {
                let t = scsc as i64 + lastoffset;
                if t >= 0 && t < n as i64 {
                    if base[t as usize] == target[scsc] {
                        oldscore += 1;
                    }
                }
                scsc += 1;
            }
            if (len == oldscore && len != 0) || len > oldscore + SCORE_MARGIN {
                cut = true;
            } else {
                let t2 = scan as i64 + lastoffset;
                if t2 >= 0 && t2 < n as i64 {
                    if base[t2 as usize] == target[scan] && oldscore > 0 {
                        oldscore -= 1;
                    }
                }
                scan += 1;
            }
        }

        if len != oldscore || scan == tn {
            let (lenf, lenb) = extend_regions(base, target, scan, lastscan, lastpos, pos);

            // emit one control triple with its payloads
            let c0u = lenf;
            let c1u = (scan - lenb) - (lastscan + lenf);
            let seek = (pos - lenb) as i64 - (lastpos + lenf) as i64;
            let t = ControlTriple {
                copy_len: c0u as i64,
                literal_len: c1u as i64,
                seek_delta: seek,
            };
            let ghost tsnap = ts@;
            let ghost dsnap = diffb@;
            let ghost esnap = extrab@;

            let mut id: usize = 0;
            while id < c0u
                invariant
                    id <= c0u,
                    lastpos + c0u <= n,
                    lastscan + c0u <= tn,
                    diffb@ =~= dsnap + Seq::new(
                        id as nat,
                        |q: int| wrap_sub(target@[lastscan + q], base@[lastpos + q]),
                    ),
                decreases c0u - id,
            {
                diffb.push(byte_sub(target[lastscan + id], base[lastpos + id]));
                id += 1;
                proof {
                    assert(diffb@ =~= dsnap + Seq::new(
                        id as nat,
                        |q: int| wrap_sub(target@[lastscan + q], base@[lastpos + q]),
                    ));
                }
            }
            let mut ie: usize = 0;
            while ie < c1u
                invariant
                    ie <= c1u,
                    lastscan + lenf + c1u <= tn,
                    extrab@ =~= esnap + target@.subrange(
                        lastscan + lenf as int,
                        lastscan + lenf + ie,
                    ),
                decreases c1u - ie,
            {
                extrab.push(target[lastscan + lenf + ie]);
                ie += 1;
                proof {
                    assert(extrab@ =~= esnap + target@.subrange(
                        lastscan + lenf as int,
                        lastscan + lenf + ie,
                    ));
                }
            }
            ts.push(t);

            proof {
                let d2 = Seq::new(
                    c0u as nat,
                    |q: int| wrap_sub(target@[lastscan + q], base@[lastpos + q]),
                );
                let e2 = target@.subrange(lastscan + lenf as int, (scan - lenb) as int);
                assert(e2 =~= target@.subrange(lastscan + lenf as int, lastscan + lenf + c1u));
                lemma_apply_push(base@, tsnap, dsnap, esnap, 0, t, d2, e2);
                assert forall|q: int| 0 <= q < c0u implies combine(base@, lastpos as int, d2)[q]
                    == target@[lastscan + q] by {
                    lemma_wrap_round_trip(target@[lastscan + q], base@[lastpos + q]);
                }
                assert(combine(base@, lastpos as int, d2) =~= target@.subrange(
                    lastscan as int,
                    lastscan + c0u,
                ));
                assert(target@.take(lastscan as int) + target@.subrange(
                    lastscan as int,
                    lastscan + c0u,
                ) + e2 =~= target@.take((scan - lenb) as int));
                produced = (scan - lenb) as int;
            }

            if scan < tn {
                lastscan = scan - lenb;
                lastpos = pos - lenb;
                lastoffset = pos as i64 - scan as i64;
            }
        }
    }
    proof {
        assert(target@.take(produced) =~= target@);
    }
    (ts, diffb, extrab)
}

/// The raw interleaved wire form of a delta: for each triple, its three
/// little-endian control words, then its diff payload, then its extra
/// payload.
pub open spec fn interleave(ts: Seq<ControlTriple>, diff: Seq<u8>, extra: Seq<u8>) -> Seq<u8>
    decreases ts.len(),
{
    if ts.len() == 0 {
        Seq::empty()
    } else {
        let t = ts[0];
        i64_le_bytes(t.copy_len) + i64_le_bytes(t.literal_len) + i64_le_bytes(t.seek_delta)
            + diff.take(t.copy_len as int) + extra.take(t.literal_len as int) + interleave(
            ts.drop_first(),
            diff.skip(t.copy_len as int),
            extra.skip(t.literal_len as int),
        )
    }
}

pub proof fn lemma_interleave_len(ts: Seq<ControlTriple>, diff: Seq<u8>, extra: Seq<u8>)
    requires
        triples_wf(ts),
        diff.len() == sum_copy(ts),
        extra.len() == sum_literal(ts),
    ensures
        interleave(ts, diff, extra).len() == 24 * ts.len() + diff.len() + extra.len(),
    decreases ts.len(),
{
    if ts.len() > 0 {
        let t = ts[0];
        assert(triple_wf(t));
        crate::delta::lemma_wf_drop_first(ts);
        crate::delta::lemma_sums_nonneg(ts.drop_first());
        lemma_interleave_len(
            ts.drop_first(),
            diff.skip(t.copy_len as int),
            extra.skip(t.literal_len as int),
        );
    }
}

proof fn lemma_sum_total_last(ts: Seq<ControlTriple>)
    requires
        triples_wf(ts),
        ts.len() > 0,
    ensures
        sum_total(ts) >= ts[ts.len() - 1].copy_len + ts[ts.len() - 1].literal_len,
    decreases ts.len(),
{
    assert(triple_wf(ts[0]));
    if ts.len() == 1 {
        assert(sum_copy(ts.drop_first()) == 0);
        assert(sum_literal(ts.drop_first()) == 0);
    } else {
        crate::delta::lemma_wf_drop_first(ts);
        lemma_sum_total_last(ts.drop_first());
        assert(ts.drop_first()[ts.len() - 2] == ts[ts.len() - 1]);
    }
}

/// The serialized interleaved stream of a well-formed, progressive delta
/// applies completely and reconstructs exactly what the triples describe.
#[verifier::rlimit(100)]
pub proof fn lemma_apply_interleave(
    base: Seq<u8>,
    ts: Seq<ControlTriple>,
    diff: Seq<u8>,
    extra: Seq<u8>,
    oldpos: int,
)
    requires
        triples_wf(ts),
        progressive(ts),
        diff.len() == sum_copy(ts),
        extra.len() == sum_literal(ts),
    ensures
        apply_exact(base, interleave(ts, diff, extra), oldpos, sum_total(ts)) == Some(
            apply_triples(base, ts, diff, extra, oldpos),
        ),
    decreases ts.len(),
{
    if ts.len() == 0 {
        assert(sum_copy(ts) == 0);
        assert(sum_literal(ts) == 0);
        assert(interleave(ts, diff, extra).len() == 0);
        assert(apply_triples(base, ts, diff, extra, oldpos) =~= Seq::<u8>::empty());
    } else {
        let t = ts[0];
        let c0 = t.copy_len as int;
        let c1 = t.literal_len as int;
        assert(triple_wf(t));
        crate::delta::lemma_wf_drop_first(ts);
        crate::delta::lemma_sums_nonneg(ts.drop_first());
        let drest = diff.skip(c0);
        let erest = extra.skip(c1);
        let rest = interleave(ts.drop_first(), drest, erest);
        let s = interleave(ts, diff, extra);
        lemma_interleave_len(ts.drop_first(), drest, erest);
        assert(s.subrange(0, 8) =~= i64_le_bytes(t.copy_len));
        assert(s.subrange(8, 16) =~= i64_le_bytes(t.literal_len));
        assert(s.subrange(16, 24) =~= i64_le_bytes(t.seek_delta));
        lemma_i64_le_round_trip(t.copy_len);
        lemma_i64_le_round_trip(t.literal_len);
        lemma_i64_le_round_trip(t.seek_delta);
        assert(le64_i64(s.subrange(0, 8)) == t.copy_len);
        assert(le64_i64(s.subrange(8, 16)) == t.literal_len);
        assert(le64_i64(s.subrange(16, 24)) == t.seek_delta);
        assert(s.subrange(24, 24 + c0) =~= diff.take(c0));
        assert(s.subrange(24 + c0, 24 + c0 + c1) =~= extra.take(c1));
        assert(s.skip(24 + c0 + c1) =~= rest);
        let count = sum_total(ts);
        let count2 = sum_total(ts.drop_first());
        assert(count - c0 - c1 == count2);
        if ts.len() == 1 {
            assert(count2 == 0);
            assert(rest.len() == 0);
            assert(apply_exact(base, rest, oldpos + t.copy_len + t.seek_delta, count2) == Some(
                Seq::<u8>::empty(),
            ));
            assert(apply_triples(base, ts.drop_first(), drest, erest, oldpos + t.copy_len
                + t.seek_delta) =~= Seq::<u8>::empty());
        } else {
            lemma_sum_total_last(ts.drop_first());
            lemma_apply_interleave(
                base,
                ts.drop_first(),
                drest,
                erest,
                oldpos + t.copy_len + t.seek_delta,
            );
            assert(count2 > 0);
        }
        assert(combine(base, oldpos, s.subrange(24, 24 + c0)) == combine(base, oldpos, diff.take(c0)));
        assert(apply_exact(base, s, oldpos, count) == Some(
            combine(base, oldpos, diff.take(c0)) + extra.take(c1) + apply_triples(
                base,
                ts.drop_first(),
                drest,
                erest,
                oldpos + t.copy_len + t.seek_delta,
            ),
        ));
    }
}

/// Serializes a delta into the raw interleaved wire form.
#[verifier::loop_isolation(false)]
#[verifier::rlimit(100)]
fn serialize_raw(ts: &Vec<ControlTriple>, diffb: &Vec<u8>, extrab: &Vec<u8>) -> (patch: Vec<u8>)
    requires
        triples_wf(ts@),
        sum_copy(ts@) == diffb@.len(),
        sum_literal(ts@) == extrab@.len(),
    ensures
        patch@ == interleave(ts@, diffb@, extrab@),
{
    let tn = ts.len();
    let dn = diffb.len();
    let en = extrab.len();
    let mut patch: Vec<u8> = Vec::new();
    let mut k: usize = 0;
    let mut dpos: usize = 0;
    let mut epos: usize = 0;
    proof {
        assert(ts@.skip(0) =~= ts@);
        assert(diffb@.skip(0) =~= diffb@);
        assert(extrab@.skip(0) =~= extrab@);
        assert(Seq::<u8>::empty() + interleave(ts@, diffb@, extrab@) =~= interleave(
            ts@,
            diffb@,
            extrab@,
        ));
    }
    while k < ts.len()
        invariant
            k <= ts@.len(),
            dpos <= diffb@.len(),
            epos <= extrab@.len(),
            sum_copy(ts@.skip(k as int)) == diffb@.len() - dpos,
            sum_literal(ts@.skip(k as int)) == extrab@.len() - epos,
            interleave(ts@, diffb@, extrab@) == patch@ + interleave(
                ts@.skip(k as int),
                diffb@.skip(dpos as int),
                extrab@.skip(epos as int),
            ),
        decreases ts@.len() - k,
    {
        let t = ts[k];
        let ghost tsk = ts@.skip(k as int);
        proof {
            assert(tsk[0] == ts@[k as int]);
            assert forall|q: int| 0 <= q < tsk.len() implies triple_wf(#[trigger] tsk[q]) by {
                assert(tsk[q] == ts@[k + q]);
            }
            assert(tsk.drop_first() =~= ts@.skip(k as int + 1));
            crate::delta::lemma_sums_nonneg(tsk.drop_first());
            assert(sum_copy(tsk) == tsk[0].copy_len + sum_copy(tsk.drop_first()));
            assert(sum_literal(tsk) == tsk[0].literal_len + sum_literal(tsk.drop_first()));
        }
        let c0u = t.copy_len as usize;
        let c1u = t.literal_len as usize;
        le64_write(t.copy_len, &mut patch);
        le64_write(t.literal_len, &mut patch);
        le64_write(t.seek_delta, &mut patch);
        let ghost snapd = patch@;
        let mut q: usize = 0;
        while q < c0u
            invariant
                q <= c0u,
                dpos + c0u <= diffb@.len(),
                patch@ =~= snapd + diffb@.subrange(dpos as int, dpos + q),
            decreases c0u - q,
        {
            patch.push(diffb[dpos + q]);
            q += 1;
            proof {
                assert(patch@ =~= snapd + diffb@.subrange(dpos as int, dpos + q));
            }
        }
        let ghost snape = patch@;
        let mut q2: usize = 0;
        while q2 < c1u
            invariant
                q2 <= c1u,
                epos + c1u <= extrab@.len(),
                patch@ =~= snape + extrab@.subrange(epos as int, epos + q2),
            decreases c1u - q2,
        {
            patch.push(extrab[epos + q2]);
            q2 += 1;
            proof {
                assert(patch@ =~= snape + extrab@.subrange(epos as int, epos + q2));
            }
        }
        proof {
            let c0 = t.copy_len as int;
            let c1 = t.literal_len as int;
            let dsk = diffb@.skip(dpos as int);
            let esk = extrab@.skip(epos as int);
            assert(interleave(tsk, dsk, esk) == i64_le_bytes(t.copy_len) + i64_le_bytes(
                t.literal_len,
            ) + i64_le_bytes(t.seek_delta) + dsk.take(c0) + esk.take(c1) + interleave(
                tsk.drop_first(),
                dsk.skip(c0),
                esk.skip(c1),
            ));
            assert(dsk.take(c0) =~= diffb@.subrange(dpos as int, dpos + c0));
            assert(esk.take(c1) =~= extrab@.subrange(epos as int, epos + c1));
            assert(dsk.skip(c0) =~= diffb@.skip(dpos + c0));
            assert(esk.skip(c1) =~= extrab@.skip(epos + c1));
            assert(patch@ + interleave(
                ts@.skip(k as int + 1),
                diffb@.skip(dpos + c0),
                extrab@.skip(epos + c1),
            ) =~= (snapd + diffb@.subrange(dpos as int, dpos + c0)) + extrab@.subrange(
                epos as int,
                epos + c1,
            ) + interleave(ts@.skip(k as int + 1), diffb@.skip(dpos + c0), extrab@.skip(epos + c1)));
        }
        dpos = dpos + c0u;
        epos = epos + c1u;
        k += 1;
    }
    proof {
        assert(ts@.skip(k as int) =~= Seq::<ControlTriple>::empty());
        assert(interleave(ts@.skip(k as int), diffb@.skip(dpos as int), extrab@.skip(epos as int))
            == Seq::<u8>::empty());
        assert(patch@ + Seq::<u8>::empty() =~= patch@);
    }
    patch
}

/// Computes the raw interleaved delta stream between `base` and `target`.
/// Applying the result to `base` with output length `target.len()` gives
/// back exactly `target`; an empty target gives an empty stream, and an
/// empty base gives a single all-literal record.
#[verifier::rlimit(100)]
pub fn bsdiff_raw(base: &[u8], target: &[u8]) -> (patch: Vec<u8>)
    requires
        fits(base@.len() as int),
        fits(target@.len() as int),
    ensures
        apply_exact(base@, patch@, 0, target@.len() as int) == Some(target@),
        apply_stream(base@, patch@, 0, target@.len() as int) == Some(target@),
        target@.len() == 0 ==> patch@.len() == 0,
        (base@.len() == 0 && target@.len() > 0) ==> patch@ == i64_le_bytes(0) + i64_le_bytes(
            target@.len() as i64,
        ) + i64_le_bytes(0) + target@,
{
    let (ts, diffb, extrab) = diff_triples(base, target);
    let patch = serialize_raw(&ts, &diffb, &extrab);
    proof {
        lemma_apply_interleave(base@, ts@, diffb@, extrab@, 0);
        lemma_exact_implies_stream(base@, patch@, 0, target@.len() as int);
        if base@.len() == 0 && target@.len() > 0 {
            let w = whole_insert_triple(target@.len() as int);
            assert(ts@[0] == w);
            assert(ts@.drop_first() =~= Seq::<ControlTriple>::empty());
            assert(diffb@.take(0) =~= Seq::<u8>::empty());
            assert(extrab@.take(w.literal_len as int) =~= target@);
            assert(interleave(
                ts@.drop_first(),
                diffb@.skip(0),
                extrab@.skip(w.literal_len as int),
            ) == Seq::<u8>::empty());
            assert(patch@ =~= i64_le_bytes(0) + i64_le_bytes(target@.len() as i64) + i64_le_bytes(0)
                + target@);
        }
    }
    patch
}

/// The control channel of a delta: the three little-endian words of each
/// triple, concatenated.
pub open spec fn ctrl_stream(ts: Seq<ControlTriple>) -> Seq<u8>
    decreases ts.len(),
{
    if ts.len() == 0 {
        Seq::empty()
    } else {
        i64_le_bytes(ts[0].copy_len) + i64_le_bytes(ts[0].literal_len) + i64_le_bytes(
            ts[0].seek_delta,
        ) + ctrl_stream(ts.drop_first())
    }
}

/// The serialized channels of a well-formed, progressive delta apply
/// completely and reconstruct exactly what the triples describe.
pub proof fn lemma_apply_ctrl_stream(
    base: Seq<u8>,
    ts: Seq<ControlTriple>,
    diff: Seq<u8>,
    extra: Seq<u8>,
    oldpos: int,
)
    requires
        triples_wf(ts),
        progressive(ts),
        diff.len() == sum_copy(ts),
        extra.len() == sum_literal(ts),
    ensures
        apply_channels(base, ctrl_stream(ts), diff, extra, oldpos, sum_total(ts), true) == Some(
            apply_triples(base, ts, diff, extra, oldpos),
        ),
    decreases ts.len(),
{
    if ts.len() == 0 {
        assert(sum_copy(ts) == 0);
        assert(sum_literal(ts) == 0);
        assert(ctrl_stream(ts).len() == 0);
        assert(apply_triples(base, ts, diff, extra, oldpos) =~= Seq::<u8>::empty());
    } else {
        let t = ts[0];
        let c0 = t.copy_len as int;
        let c1 = t.literal_len as int;
        assert(triple_wf(t));
        crate::delta::lemma_wf_drop_first(ts);
        crate::delta::lemma_sums_nonneg(ts.drop_first());
        let drest = diff.skip(c0);
        let erest = extra.skip(c1);
        let s = ctrl_stream(ts);
        assert(s.subrange(0, 8) =~= i64_le_bytes(t.copy_len));
        assert(s.subrange(8, 16) =~= i64_le_bytes(t.literal_len));
        assert(s.subrange(16, 24) =~= i64_le_bytes(t.seek_delta));
        lemma_i64_le_round_trip(t.copy_len);
        lemma_i64_le_round_trip(t.literal_len);
        lemma_i64_le_round_trip(t.seek_delta);
        assert(s.skip(24) =~= ctrl_stream(ts.drop_first()));
        let count = sum_total(ts);
        let count2 = sum_total(ts.drop_first());
        assert(count - c0 - c1 == count2);
        if ts.len() == 1 {
            assert(count2 == 0);
            assert(ctrl_stream(ts.drop_first()).len() == 0);
            assert(drest.len() == 0);
            assert(erest.len() == 0);
            assert(apply_channels(base, s.skip(24), drest, erest, oldpos + t.copy_len
                + t.seek_delta, count2, true) == Some(Seq::<u8>::empty()));
            assert(apply_triples(base, ts.drop_first(), drest, erest, oldpos + t.copy_len
                + t.seek_delta) =~= Seq::<u8>::empty());
        } else {
            lemma_sum_total_last(ts.drop_first());
            lemma_apply_ctrl_stream(
                base,
                ts.drop_first(),
                drest,
                erest,
                oldpos + t.copy_len + t.seek_delta,
            );
            assert(count2 > 0);
        }
        assert(apply_channels(base, s, diff, extra, oldpos, count, true) == Some(
            combine(base, oldpos, diff.take(c0)) + extra.take(c1) + apply_triples(
                base,
                ts.drop_first(),
                drest,
                erest,
                oldpos + t.copy_len + t.seek_delta,
            ),
        ));
    }
}

/// The three sink channels that the encoder fills: control records, diff
/// payload, extra payload.
pub struct BsDiffRequest {
    pub ctrl: Vec<u8>,
    pub diff: Vec<u8>,
    pub extra: Vec<u8>,
}

/// Computes the delta between `base` and `target` as three separate
/// channels, the form the block-compressed container stores.  Applying the
/// channels to `base` gives back exactly `target`.
#[verifier::loop_isolation(false)]
#[verifier::rlimit(100)]
pub fn bsdiff_internal(base: &[u8], target: &[u8]) -> (r: BsDiffRequest)
    requires
        fits(base@.len() as int),
        fits(target@.len() as int),
    ensures
        apply_channels(base@, r.ctrl@, r.diff@, r.extra@, 0, target@.len() as int, true) == Some(
            target@,
        ),
        apply_channels(base@, r.ctrl@, r.diff@, r.extra@, 0, target@.len() as int, false) == Some(
            target@,
        ),
{
    let (ts, diffb, extrab) = diff_triples(base, target);
    let mut ctrl: Vec<u8> = Vec::new();
    let mut k: usize = 0;
    proof {
        assert(ts@.skip(0) =~= ts@);
        assert(Seq::<u8>::empty() + ctrl_stream(ts@) =~= ctrl_stream(ts@));
    }
    while k < ts.len()
        invariant
            k <= ts@.len(),
            ctrl_stream(ts@) == ctrl@ + ctrl_stream(ts@.skip(k as int)),
        decreases ts@.len() - k,
    {
        let t = ts[k];
        proof {
            assert(ts@.skip(k as int)[0] == ts@[k as int]);
            assert(ts@.skip(k as int).drop_first() =~= ts@.skip(k as int + 1));
        }
        le64_write(t.copy_len, &mut ctrl);
        le64_write(t.literal_len, &mut ctrl);
        le64_write(t.seek_delta, &mut ctrl);
        k += 1;
    }
    proof {
        assert(ts@.skip(k as int) =~= Seq::<ControlTriple>::empty());
        assert(ctrl_stream(ts@.skip(k as int)) == Seq::<u8>::empty());
        assert(ctrl@ + Seq::<u8>::empty() =~= ctrl@);
        lemma_apply_ctrl_stream(base@, ts@, diffb@, extrab@, 0);
        lemma_channels_exact_implies_stream(
            base@,
            ctrl@,
            diffb@,
            extrab@,
            0,
            target@.len() as int,
        );
    }
    BsDiffRequest { ctrl, diff: diffb, extra: extrab }
}

} // verus!
