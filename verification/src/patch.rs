//! Applying a delta: the mathematical reading of the wire stream, and the
//! executable appliers for the raw interleaved form and the three-channel
//! form.

use crate::delta::combine;
use crate::error::DeltaError;
use crate::wire::{byte_add, le64_i64, le64_read};
use vstd::prelude::*;

verus! {

/// The meaning of a raw interleaved delta stream: records of a 24-byte
/// control triple followed by its diff and extra payloads, applied until
/// `count` output bytes exist.  `None` where a length is negative, a record
/// would write past `count`, or the stream ends early.  With `exact` set,
/// the stream must also hold nothing after the last record.
pub open spec fn apply_delta(
    base: Seq<u8>,
    patch: Seq<u8>,
    oldpos: int,
    count: int,
    exact: bool,
) -> Option<Seq<u8>>
    decreases patch.len(),
{
    if count <= 0 {
        if exact && patch.len() != 0 {
            None
        } else {
            Some(Seq::empty())
        }
    } else if patch.len() < 24 {
        None
    } else {
        let c0 = le64_i64(patch.subrange(0, 8)) as int;
        let c1 = le64_i64(patch.subrange(8, 16)) as int;
        let c2 = le64_i64(patch.subrange(16, 24)) as int;
        if c0 < 0 || c0 > count || c1 < 0 || c1 > count - c0 {
            None
        } else if patch.len() < 24 + c0 + c1 {
            None
        } else {
            let d = patch.subrange(24, 24 + c0);
            let e = patch.subrange(24 + c0, 24 + c0 + c1);
            match apply_delta(
                base,
                patch.skip(24 + c0 + c1),
                oldpos + c0 + c2,
                count - c0 - c1,
                exact,
            ) {
                Some(rest) => Some(combine(base, oldpos, d) + e + rest),
                None => None,
            }
        }
    }
}

/// Applying a raw stream, ignoring trailing bytes after the last record.
pub open spec fn apply_stream(base: Seq<u8>, patch: Seq<u8>, oldpos: int, count: int) -> Option<
    Seq<u8>,
> {
    apply_delta(base, patch, oldpos, count, false)
}

/// Applying a raw stream that is consumed completely.
pub open spec fn apply_exact(base: Seq<u8>, patch: Seq<u8>, oldpos: int, count: int) -> Option<
    Seq<u8>,
> {
    apply_delta(base, patch, oldpos, count, true)
}

pub proof fn lemma_exact_implies_stream(base: Seq<u8>, patch: Seq<u8>, oldpos: int, count: int)
    requires
        apply_exact(base, patch, oldpos, count) is Some,
    ensures
        apply_stream(base, patch, oldpos, count) == apply_exact(base, patch, oldpos, count),
    decreases patch.len(),
{
    if count > 0 && patch.len() >= 24 {
        let c0 = le64_i64(patch.subrange(0, 8)) as int;
        let c1 = le64_i64(patch.subrange(8, 16)) as int;
        let c2 = le64_i64(patch.subrange(16, 24)) as int;
        if 0 <= c0 <= count && 0 <= c1 <= count - c0 && patch.len() >= 24 + c0 + c1 {
            lemma_exact_implies_stream(
                base,
                patch.skip(24 + c0 + c1),
                oldpos + c0 + c2,
                count - c0 - c1,
            );
        }
    }
}

/// A stream can only succeed when it holds at least as many bytes as it
/// produces.
pub proof fn lemma_stream_count_bound(base: Seq<u8>, patch: Seq<u8>, oldpos: int, count: int)
    requires
        apply_stream(base, patch, oldpos, count) is Some,
    ensures
        count <= patch.len(),
    decreases patch.len(),
{
    if count > 0 {
        let c0 = le64_i64(patch.subrange(0, 8)) as int;
        let c1 = le64_i64(patch.subrange(8, 16)) as int;
        let c2 = le64_i64(patch.subrange(16, 24)) as int;
        lemma_stream_count_bound(
            base,
            patch.skip(24 + c0 + c1),
            oldpos + c0 + c2,
            count - c0 - c1,
        );
    }
}

/// Cutting any nonzero tail off a stream that applies completely leaves a
/// stream that no longer applies at all.
pub proof fn lemma_truncated_fails(base: Seq<u8>, patch: Seq<u8>, oldpos: int, count: int, k: int)
    requires
        apply_exact(base, patch, oldpos, count) is Some,
        0 <= k < patch.len(),
    ensures
        apply_stream(base, patch.take(k), oldpos, count) is None,
    decreases patch.len(),
{
    assert(count > 0);
    let c0 = le64_i64(patch.subrange(0, 8)) as int;
    let c1 = le64_i64(patch.subrange(8, 16)) as int;
    let c2 = le64_i64(patch.subrange(16, 24)) as int;
    let t = patch.take(k);
    if k < 24 {
        assert(apply_stream(base, t, oldpos, count) is None);
    } else {
        assert(t.subrange(0, 8) =~= patch.subrange(0, 8));
        assert(t.subrange(8, 16) =~= patch.subrange(8, 16));
        assert(t.subrange(16, 24) =~= patch.subrange(16, 24));
        if k < 24 + c0 + c1 {
            assert(apply_stream(base, t, oldpos, count) is None);
        } else {
            assert(t.skip(24 + c0 + c1) =~= patch.skip(24 + c0 + c1).take(k - (24 + c0 + c1)));
            lemma_truncated_fails(
                base,
                patch.skip(24 + c0 + c1),
                oldpos + c0 + c2,
                count - c0 - c1,
                k - (24 + c0 + c1),
            );
        }
    }
}

/// One parsing step of `apply_stream`, read at offset `off` of the full
/// stream: the record is cut short or ill-sized.
proof fn lemma_stream_step_bad(base: Seq<u8>, patch: Seq<u8>, off: int, oldpos: int, count: int)
    requires
        0 <= off <= patch.len(),
        count > 0,
        patch.len() - off >= 24 ==> ({
            let c0 = le64_i64(patch.subrange(off, off + 8)) as int;
            let c1 = le64_i64(patch.subrange(off + 8, off + 16)) as int;
            c0 < 0 || c0 > count || c1 < 0 || c1 > count - c0 || patch.len() < off + 24 + c0 + c1
        }),
    ensures
        apply_stream(base, patch.skip(off), oldpos, count) is None,
{
    let po = patch.skip(off);
    if po.len() >= 24 {
        assert(po.subrange(0, 8) =~= patch.subrange(off, off + 8));
        assert(po.subrange(8, 16) =~= patch.subrange(off + 8, off + 16));
        assert(po.subrange(16, 24) =~= patch.subrange(off + 16, off + 24));
    }
}

/// One parsing step of `apply_stream`, read at offset `off` of the full
/// stream: a whole record is present, and applying from `off` means
/// applying this record and then the rest.
proof fn lemma_stream_step(base: Seq<u8>, patch: Seq<u8>, off: int, oldpos: int, count: int)
    requires
        0 <= off,
        off + 24 <= patch.len(),
        count > 0,
        ({
            let c0 = le64_i64(patch.subrange(off, off + 8)) as int;
            let c1 = le64_i64(patch.subrange(off + 8, off + 16)) as int;
            0 <= c0 <= count && 0 <= c1 <= count - c0 && off + 24 + c0 + c1 <= patch.len()
        }),
    ensures
        ({
            let c0 = le64_i64(patch.subrange(off, off + 8)) as int;
            let c1 = le64_i64(patch.subrange(off + 8, off + 16)) as int;
            let c2 = le64_i64(patch.subrange(off + 16, off + 24)) as int;
            let chunk = combine(base, oldpos, patch.subrange(off + 24, off + 24 + c0))
                + patch.subrange(off + 24 + c0, off + 24 + c0 + c1);
            apply_stream(base, patch.skip(off), oldpos, count) == (match apply_stream(
                base,
                patch.skip(off + 24 + c0 + c1),
                oldpos + c0 + c2,
                count - c0 - c1,
            ) {
                Some(rest) => Some(chunk + rest),
                None => None::<Seq<u8>>,
            })
        }),
{
    let po = patch.skip(off);
    let c0 = le64_i64(patch.subrange(off, off + 8)) as int;
    let c1 = le64_i64(patch.subrange(off + 8, off + 16)) as int;
    let c2 = le64_i64(patch.subrange(off + 16, off + 24)) as int;
    assert(po.subrange(0, 8) =~= patch.subrange(off, off + 8));
    assert(po.subrange(8, 16) =~= patch.subrange(off + 8, off + 16));
    assert(po.subrange(16, 24) =~= patch.subrange(off + 16, off + 24));
    assert(po.subrange(24, 24 + c0) =~= patch.subrange(off + 24, off + 24 + c0));
    assert(po.subrange(24 + c0, 24 + c0 + c1) =~= patch.subrange(
        off + 24 + c0,
        off + 24 + c0 + c1,
    ));
    assert(po.skip(24 + c0 + c1) =~= patch.skip(off + 24 + c0 + c1));
}

/// Applies a raw interleaved delta stream to `base`, producing exactly
/// `new_len` bytes.  Returns `Ok` exactly where the stream is a valid delta
/// for that output length; a record that would write past the end, or a
/// stream that ends early, gives `InvalidPatchData`.
#[verifier::loop_isolation(false)]
#[verifier::rlimit(100)]
pub fn bspatch_raw(base: &[u8], new_len: usize, patch: &[u8]) -> (r: Result<Vec<u8>, DeltaError>)
    ensures
        match r {
            Ok(out) => out@.len() == new_len && apply_stream(base@, patch@, 0, new_len as int)
                == Some(out@),
            Err(e) => apply_stream(base@, patch@, 0, new_len as int) is None && e
                == DeltaError::InvalidPatchData,
        },
{
    let pn = patch.len();
    let bn = base.len();
    let mut out: Vec<u8> = Vec::new();
    let mut off: usize = 0;
    let mut oldpos: i128 = 0;
    let ghost mut recs: int = 0;
    proof {
        assert(patch@.skip(0) =~= patch@);
        let r0 = apply_stream(base@, patch@, 0, new_len as int);
        if r0 is Some {
            assert(Seq::<u8>::empty() + r0->Some_0 =~= r0->Some_0);
        }
    }
    while out.len() < new_len
        invariant
            off <= pn,
            out@.len() <= new_len,
            recs >= 0,
            24 * recs <= off,
            -(recs * 0x1_0000_0000_0000_0000) <= oldpos as int <= recs * 0x1_0000_0000_0000_0000,
            apply_stream(base@, patch@, 0, new_len as int) == (match apply_stream(
                base@,
                patch@.skip(off as int),
                oldpos as int,
                new_len - out@.len(),
            ) {
                Some(rest) => Some(out@ + rest),
                None => None::<Seq<u8>>,
            }),
        decreases pn - off,
    {
        let remaining = new_len - out.len();
        if pn - off < 24 {
            proof {
                lemma_stream_step_bad(base@, patch@, off as int, oldpos as int, remaining as int);
            }
            return Err(DeltaError::InvalidPatchData);
        }
        let c0 = le64_read(patch, off);
        let c1 = le64_read(patch, off + 8);
        let c2 = le64_read(patch, off + 16);
        if c0 < 0 || (c0 as u64) > (remaining as u64) {
            proof {
                lemma_stream_step_bad(base@, patch@, off as int, oldpos as int, remaining as int);
            }
            return Err(DeltaError::InvalidPatchData);
        }
        let c0u = c0 as usize;
        if c1 < 0 || (c1 as u64) > ((remaining - c0u) as u64) {
            proof {
                lemma_stream_step_bad(base@, patch@, off as int, oldpos as int, remaining as int);
            }
            return Err(DeltaError::InvalidPatchData);
        }
        let c1u = c1 as usize;
        if pn - off - 24 < c0u + c1u {
            proof {
                lemma_stream_step_bad(base@, patch@, off as int, oldpos as int, remaining as int);
            }
            return Err(DeltaError::InvalidPatchData);
        }
        proof {
            lemma_stream_step(base@, patch@, off as int, oldpos as int, remaining as int);
        }
        let ghost snap = out@;
        let mut i: usize = 0;
        while i < c0u
            invariant
                i <= c0u,
                off + 24 + c0u + c1u <= pn,
                out@ =~= snap + combine(
                    base@,
                    oldpos as int,
                    patch@.subrange(off as int + 24, off as int + 24 + i),
                ),
            decreases c0u - i,
        {
            let b = patch[off + 24 + i];
            let t = oldpos + i as i128;
            let v = if t >= 0 && t < bn as i128 {
                byte_add(b, base[t as usize])
            } else {
                b
            };
            out.push(v);
            i += 1;
            proof {
                assert(out@ =~= snap + combine(
                    base@,
                    oldpos as int,
                    patch@.subrange(off as int + 24, off as int + 24 + i),
                ));
            }
        }
        let ghost snap2 = out@;
        let mut i2: usize = 0;
        while i2 < c1u
            invariant
                i2 <= c1u,
                off + 24 + c0u + c1u <= pn,
                out@ =~= snap2 + patch@.subrange(
                    off as int + 24 + c0u,
                    off as int + 24 + c0u + i2,
                ),
            decreases c1u - i2,
        {
            out.push(patch[off + 24 + c0u + i2]);
            i2 += 1;
            proof {
                assert(out@ =~= snap2 + patch@.subrange(
                    off as int + 24 + c0u,
                    off as int + 24 + c0u + i2,
                ));
            }
        }
        proof {
            let chunk = combine(
                base@,
                oldpos as int,
                patch@.subrange(off as int + 24, off as int + 24 + c0u),
            ) + patch@.subrange(off as int + 24 + c0u, off as int + 24 + c0u + c1u);
            assert(out@ =~= snap + chunk);
            let inner = apply_stream(
                base@,
                patch@.skip(off as int + 24 + c0u + c1u),
                oldpos as int + c0 + c2,
                remaining - c0u - c1u,
            );
            if inner is Some {
                let rest = inner->Some_0;
                assert(snap + (chunk + rest) =~= out@ + rest);
            }
        }
        off = off + 24 + c0u + c1u;
        oldpos = oldpos + c0 as i128 + c2 as i128;
        proof {
            recs = recs + 1;
        }
    }
    proof {
        assert(apply_stream(base@, patch@.skip(off as int), oldpos as int, 0) == Some(
            Seq::<u8>::empty(),
        ));
        assert(out@ + Seq::<u8>::empty() =~= out@);
    }
    Ok(out)
}

/// The three-channel reading of a delta: control records on one channel,
/// diff payload on a second, extra payload on a third, each consumed from
/// the front.  With `exact` set, all three channels must be consumed
/// completely.
pub open spec fn apply_channels(
    base: Seq<u8>,
    ctrl: Seq<u8>,
    diff: Seq<u8>,
    extra: Seq<u8>,
    oldpos: int,
    count: int,
    exact: bool,
) -> Option<Seq<u8>>
    decreases ctrl.len(),
{
    if count <= 0 {
        if exact && (ctrl.len() != 0 || diff.len() != 0 || extra.len() != 0) {
            None
        } else {
            Some(Seq::empty())
        }
    } else if ctrl.len() < 24 {
        None
    } else {
        let c0 = le64_i64(ctrl.subrange(0, 8)) as int;
        let c1 = le64_i64(ctrl.subrange(8, 16)) as int;
        let c2 = le64_i64(ctrl.subrange(16, 24)) as int;
        if c0 < 0 || c0 > count || c1 < 0 || c1 > count - c0 {
            None
        } else if diff.len() < c0 || extra.len() < c1 {
            None
        } else {
            match apply_channels(
                base,
                ctrl.skip(24),
                diff.skip(c0),
                extra.skip(c1),
                oldpos + c0 + c2,
                count - c0 - c1,
                exact,
            ) {
                Some(rest) => Some(combine(base, oldpos, diff.take(c0)) + extra.take(c1) + rest),
                None => None,
            }
        }
    }
}

proof fn lemma_channels_step_bad(
    base: Seq<u8>,
    ctrl: Seq<u8>,
    diff: Seq<u8>,
    extra: Seq<u8>,
    coff: int,
    dpos: int,
    epos: int,
    oldpos: int,
    count: int,
)
    requires
        0 <= coff <= ctrl.len(),
        0 <= dpos <= diff.len(),
        0 <= epos <= extra.len(),
        count > 0,
        ctrl.len() - coff >= 24 ==> ({
            let c0 = le64_i64(ctrl.subrange(coff, coff + 8)) as int;
            let c1 = le64_i64(ctrl.subrange(coff + 8, coff + 16)) as int;
            c0 < 0 || c0 > count || c1 < 0 || c1 > count - c0 || diff.len() - dpos < c0
                || extra.len() - epos < c1
        }),
    ensures
        apply_channels(
            base,
            ctrl.skip(coff),
            diff.skip(dpos),
            extra.skip(epos),
            oldpos,
            count,
            false,
        ) is None,
{
    let co = ctrl.skip(coff);
    if co.len() >= 24 {
        assert(co.subrange(0, 8) =~= ctrl.subrange(coff, coff + 8));
        assert(co.subrange(8, 16) =~= ctrl.subrange(coff + 8, coff + 16));
        assert(co.subrange(16, 24) =~= ctrl.subrange(coff + 16, coff + 24));
    }
}

proof fn lemma_channels_step(
    base: Seq<u8>,
    ctrl: Seq<u8>,
    diff: Seq<u8>,
    extra: Seq<u8>,
    coff: int,
    dpos: int,
    epos: int,
    oldpos: int,
    count: int,
)
    requires
        0 <= coff,
        coff + 24 <= ctrl.len(),
        0 <= dpos <= diff.len(),
        0 <= epos <= extra.len(),
        count > 0,
        ({
            let c0 = le64_i64(ctrl.subrange(coff, coff + 8)) as int;
            let c1 = le64_i64(ctrl.subrange(coff + 8, coff + 16)) as int;
            0 <= c0 <= count && 0 <= c1 <= count - c0 && dpos + c0 <= diff.len() && epos + c1
                <= extra.len()
        }),
    ensures
        ({
            let c0 = le64_i64(ctrl.subrange(coff, coff + 8)) as int;
            let c1 = le64_i64(ctrl.subrange(coff + 8, coff + 16)) as int;
            let c2 = le64_i64(ctrl.subrange(coff + 16, coff + 24)) as int;
            let chunk = combine(base, oldpos, diff.subrange(dpos, dpos + c0)) + extra.subrange(
                epos,
                epos + c1,
            );
            apply_channels(
                base,
                ctrl.skip(coff),
                diff.skip(dpos),
                extra.skip(epos),
                oldpos,
                count,
                false,
            ) == (match apply_channels(
                base,
                ctrl.skip(coff + 24),
                diff.skip(dpos + c0),
                extra.skip(epos + c1),
                oldpos + c0 + c2,
                count - c0 - c1,
                false,
            ) {
                Some(rest) => Some(chunk + rest),
                None => None::<Seq<u8>>,
            })
        }),
{
    let co = ctrl.skip(coff);
    let c0 = le64_i64(ctrl.subrange(coff, coff + 8)) as int;
    let c1 = le64_i64(ctrl.subrange(coff + 8, coff + 16)) as int;
    assert(co.subrange(0, 8) =~= ctrl.subrange(coff, coff + 8));
    assert(co.subrange(8, 16) =~= ctrl.subrange(coff + 8, coff + 16));
    assert(co.subrange(16, 24) =~= ctrl.subrange(coff + 16, coff + 24));
    assert(co.skip(24) =~= ctrl.skip(coff + 24));
    assert(diff.skip(dpos).take(c0) =~= diff.subrange(dpos, dpos + c0));
    assert(diff.skip(dpos).skip(c0) =~= diff.skip(dpos + c0));
    assert(extra.skip(epos).take(c1) =~= extra.subrange(epos, epos + c1));
    assert(extra.skip(epos).skip(c1) =~= extra.skip(epos + c1));
}

/// The three source channels that the applier reads: control records, diff
/// payload, extra payload.
pub struct BsPatchRequest {
    pub ctrl: Vec<u8>,
    pub diff: Vec<u8>,
    pub extra: Vec<u8>,
}

/// Applies a three-channel delta to `base`, producing exactly `new_len`
/// bytes.  Returns `Ok` exactly where the channels hold a valid delta for
/// that output length.
#[verifier::loop_isolation(false)]
#[verifier::rlimit(100)]
pub fn bspatch_internal(base: &[u8], new_len: usize, req: &BsPatchRequest) -> (r: Result<
    Vec<u8>,
    DeltaError,
>)
    ensures
        match r {
            Ok(out) => out@.len() == new_len && apply_channels(
                base@,
                req.ctrl@,
                req.diff@,
                req.extra@,
                0,
                new_len as int,
                false,
            ) == Some(out@),
            Err(e) => apply_channels(
                base@,
                req.ctrl@,
                req.diff@,
                req.extra@,
                0,
                new_len as int,
                false,
            ) is None && e == DeltaError::InvalidPatchData,
        },
{
    let cn = req.ctrl.len();
    let dn = req.diff.len();
    let en = req.extra.len();
    let bn = base.len();
    let mut out: Vec<u8> = Vec::new();
    let mut coff: usize = 0;
    let mut dpos: usize = 0;
    let mut epos: usize = 0;
    let mut oldpos: i128 = 0;
    let ghost mut recs: int = 0;
    proof {
        assert(req.ctrl@.skip(0) =~= req.ctrl@);
        assert(req.diff@.skip(0) =~= req.diff@);
        assert(req.extra@.skip(0) =~= req.extra@);
        let r0 = apply_channels(base@, req.ctrl@, req.diff@, req.extra@, 0, new_len as int, false);
        if r0 is Some {
            assert(Seq::<u8>::empty() + r0->Some_0 =~= r0->Some_0);
        }
    }
    while out.len() < new_len
        invariant
            coff <= cn,
            dpos <= dn,
            epos <= en,
            out@.len() <= new_len,
            recs >= 0,
            24 * recs <= coff,
            -(recs * 0x1_0000_0000_0000_0000) <= oldpos as int <= recs * 0x1_0000_0000_0000_0000,
            apply_channels(base@, req.ctrl@, req.diff@, req.extra@, 0, new_len as int, false) == (
            match apply_channels(
                base@,
                req.ctrl@.skip(coff as int),
                req.diff@.skip(dpos as int),
                req.extra@.skip(epos as int),
                oldpos as int,
                new_len - out@.len(),
                false,
            ) {
                Some(rest) => Some(out@ + rest),
                None => None::<Seq<u8>>,
            }),
        decreases cn - coff,
    {
        let remaining = new_len - out.len();
        if cn - coff < 24 {
            proof {
                lemma_channels_step_bad(
                    base@,
                    req.ctrl@,
                    req.diff@,
                    req.extra@,
                    coff as int,
                    dpos as int,
                    epos as int,
                    oldpos as int,
                    remaining as int,
                );
            }
            return Err(DeltaError::InvalidPatchData);
        }
        let c0 = le64_read(req.ctrl.as_slice(), coff);
        let c1 = le64_read(req.ctrl.as_slice(), coff + 8);
        let c2 = le64_read(req.ctrl.as_slice(), coff + 16);
        if c0 < 0 || (c0 as u64) > (remaining as u64) {
            proof {
                lemma_channels_step_bad(
                    base@,
                    req.ctrl@,
                    req.diff@,
                    req.extra@,
                    coff as int,
                    dpos as int,
                    epos as int,
                    oldpos as int,
                    remaining as int,
                );
            }
            return Err(DeltaError::InvalidPatchData);
        }
        let c0u = c0 as usize;
        if c1 < 0 || (c1 as u64) > ((remaining - c0u) as u64) {
            proof {
                lemma_channels_step_bad(
                    base@,
                    req.ctrl@,
                    req.diff@,
                    req.extra@,
                    coff as int,
                    dpos as int,
                    epos as int,
                    oldpos as int,
                    remaining as int,
                );
            }
            return Err(DeltaError::InvalidPatchData);
        }
        let c1u = c1 as usize;
        if dn - dpos < c0u || en - epos < c1u {
            proof {
                lemma_channels_step_bad(
                    base@,
                    req.ctrl@,
                    req.diff@,
                    req.extra@,
                    coff as int,
                    dpos as int,
                    epos as int,
                    oldpos as int,
                    remaining as int,
                );
            }
            return Err(DeltaError::InvalidPatchData);
        }
        proof {
            lemma_channels_step(
                base@,
                req.ctrl@,
                req.diff@,
                req.extra@,
                coff as int,
                dpos as int,
                epos as int,
                oldpos as int,
                remaining as int,
            );
        }
        let ghost snap = out@;
        let mut i: usize = 0;
        while i < c0u
            invariant
                i <= c0u,
                dpos + c0u <= dn,
                out@ =~= snap + combine(
                    base@,
                    oldpos as int,
                    req.diff@.subrange(dpos as int, dpos as int + i),
                ),
            decreases c0u - i,
        {
            let b = req.diff[dpos + i];
            let t = oldpos + i as i128;
            let v = if t >= 0 && t < bn as i128 {
                byte_add(b, base[t as usize])
            } else {
                b
            };
            out.push(v);
            i += 1;
            proof {
                assert(out@ =~= snap + combine(
                    base@,
                    oldpos as int,
                    req.diff@.subrange(dpos as int, dpos as int + i),
                ));
            }
        }
        let ghost snap2 = out@;
        let mut i2: usize = 0;
        while i2 < c1u
            invariant
                i2 <= c1u,
                epos + c1u <= en,
                out@ =~= snap2 + req.extra@.subrange(epos as int, epos as int + i2),
            decreases c1u - i2,
        {
            out.push(req.extra[epos + i2]);
            i2 += 1;
            proof {
                assert(out@ =~= snap2 + req.extra@.subrange(epos as int, epos as int + i2));
            }
        }
        proof {
            let chunk = combine(
                base@,
                oldpos as int,
                req.diff@.subrange(dpos as int, dpos as int + c0u),
            ) + req.extra@.subrange(epos as int, epos as int + c1u);
            assert(out@ =~= snap + chunk);
            let inner = apply_channels(
                base@,
                req.ctrl@.skip(coff as int + 24),
                req.diff@.skip(dpos as int + c0u),
                req.extra@.skip(epos as int + c1u),
                oldpos as int + c0 + c2,
                remaining - c0u - c1u,
                false,
            );
            if inner is Some {
                let rest = inner->Some_0;
                assert(snap + (chunk + rest) =~= out@ + rest);
            }
        }
        coff = coff + 24;
        dpos = dpos + c0u;
        epos = epos + c1u;
        oldpos = oldpos + c0 as i128 + c2 as i128;
        proof {
            recs = recs + 1;
        }
    }
    proof {
        assert(apply_channels(
            base@,
            req.ctrl@.skip(coff as int),
            req.diff@.skip(dpos as int),
            req.extra@.skip(epos as int),
            oldpos as int,
            0,
            false,
        ) == Some(Seq::<u8>::empty()));
        assert(out@ + Seq::<u8>::empty() =~= out@);
    }
    Ok(out)
}

pub proof fn lemma_channels_exact_implies_stream(
    base: Seq<u8>,
    ctrl: Seq<u8>,
    diff: Seq<u8>,
    extra: Seq<u8>,
    oldpos: int,
    count: int,
)
    requires
        apply_channels(base, ctrl, diff, extra, oldpos, count, true) is Some,
    ensures
        apply_channels(base, ctrl, diff, extra, oldpos, count, false) == apply_channels(
            base,
            ctrl,
            diff,
            extra,
            oldpos,
            count,
            true,
        ),
    decreases ctrl.len(),
{
    if count > 0 && ctrl.len() >= 24 {
        let c0 = le64_i64(ctrl.subrange(0, 8)) as int;
        let c1 = le64_i64(ctrl.subrange(8, 16)) as int;
        let c2 = le64_i64(ctrl.subrange(16, 24)) as int;
        if 0 <= c0 <= count && 0 <= c1 <= count - c0 && c0 <= diff.len() && c1 <= extra.len() {
            lemma_channels_exact_implies_stream(
                base,
                ctrl.skip(24),
                diff.skip(c0),
                extra.skip(c1),
                oldpos + c0 + c2,
                count - c0 - c1,
            );
        }
    }
}

/// Three channels can only succeed when the payload channels hold at least
/// as many bytes as the output asks for.
pub proof fn lemma_channels_count_bound(
    base: Seq<u8>,
    ctrl: Seq<u8>,
    diff: Seq<u8>,
    extra: Seq<u8>,
    oldpos: int,
    count: int,
)
    requires
        apply_channels(base, ctrl, diff, extra, oldpos, count, false) is Some,
    ensures
        count <= diff.len() + extra.len(),
    decreases ctrl.len(),
{
    if count > 0 {
        let c0 = le64_i64(ctrl.subrange(0, 8)) as int;
        let c1 = le64_i64(ctrl.subrange(8, 16)) as int;
        let c2 = le64_i64(ctrl.subrange(16, 24)) as int;
        lemma_channels_count_bound(
            base,
            ctrl.skip(24),
            diff.skip(c0),
            extra.skip(c1),
            oldpos + c0 + c2,
            count - c0 - c1,
        );
    }
}

} // verus!
