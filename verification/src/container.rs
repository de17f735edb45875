//! Container framing around the raw delta: a magic constant, declared
//! lengths, and block compression of the delta streams.

use crate::diff::{bsdiff_internal, bsdiff_raw, fits};
use crate::error::DeltaError;
use crate::patch::{
    apply_channels, apply_stream, bspatch_internal, bspatch_raw, lemma_channels_count_bound,
    lemma_stream_count_bound, BsPatchRequest,
};
use crate::wire::{le64_bytes, le64_read, le64_val, le64_write, lemma_le64_round_trip,
    lemma_u64_i64_cast};
use std::io::Read;
use std::io::Write;
use vstd::prelude::*;

verus! {

/// What the block compressor emits for the given bytes.
pub uninterp spec fn bz_compressed(data: Seq<u8>) -> Seq<u8>;

/// What inflating the given bytes yields, or `None` where they are not a
/// well-formed compressed stream.
pub uninterp spec fn bz_extracted(data: Seq<u8>) -> Option<Seq<u8>>;

/// Relies on bzip2::write::BzEncoder at the best level: compression is a
/// function of the input bytes alone, and inflating its output gives the
/// input back unchanged.  Writing into a plain byte vector cannot fail.
#[verifier::external_body]
fn bz_compress(data: &[u8]) -> (r: Vec<u8>)
    ensures
        r@ == bz_compressed(data@),
        bz_extracted(r@) == Some(data@),
{
    let mut enc = bzip2::write::BzEncoder::new(Vec::new(), bzip2::Compression::best());
    enc.write_all(data).expect("writing to a byte vector cannot fail");
    enc.finish().expect("writing to a byte vector cannot fail")
}

/// Relies on bzip2::read::BzDecoder: inflation is a function of the input
/// bytes alone; a stream that is not well-formed compressed data fails, and
/// bytes after the end of the compressed stream are ignored.
#[verifier::external_body]
fn bz_decompress(data: &[u8]) -> (r: Result<Vec<u8>, DeltaError>)
    ensures
        match r {
            Ok(v) => bz_extracted(data@) == Some(v@),
            Err(e) => bz_extracted(data@) is None && e == DeltaError::IoFailure,
        },
{
    let mut dec = bzip2::read::BzDecoder::new(data);
    let mut out = Vec::new();
    match dec.read_to_end(&mut out) {
        Ok(_) => Ok(out),
        Err(_) => Err(DeltaError::IoFailure),
    }
}

/// The ASCII bytes of "ENDSLEY/BSDIFF43".
pub open spec fn magic43() -> Seq<u8> {
    seq![
        0x45u8,
        0x4eu8,
        0x44u8,
        0x53u8,
        0x4cu8,
        0x45u8,
        0x59u8,
        0x2fu8,
        0x42u8,
        0x53u8,
        0x44u8,
        0x49u8,
        0x46u8,
        0x46u8,
        0x34u8,
        0x33u8,
    ]
}

/// The ASCII bytes of "BSDIFF40".
pub open spec fn magic40() -> Seq<u8> {
    seq![0x42u8, 0x53u8, 0x44u8, 0x49u8, 0x46u8, 0x46u8, 0x34u8, 0x30u8]
}

fn magic43_bytes() -> (r: Vec<u8>)
    ensures
        r@ == magic43(),
{
    let mut v: Vec<u8> = Vec::new();
    v.push(0x45u8);
    v.push(0x4eu8);
    v.push(0x44u8);
    v.push(0x53u8);
    v.push(0x4cu8);
    v.push(0x45u8);
    v.push(0x59u8);
    v.push(0x2fu8);
    v.push(0x42u8);
    v.push(0x53u8);
    v.push(0x44u8);
    v.push(0x49u8);
    v.push(0x46u8);
    v.push(0x46u8);
    v.push(0x34u8);
    v.push(0x33u8);
    proof {
        assert(v@ =~= magic43());
    }
    v
}

fn magic40_bytes() -> (r: Vec<u8>)
    ensures
        r@ == magic40(),
{
    let mut v: Vec<u8> = Vec::new();
    v.push(0x42u8);
    v.push(0x53u8);
    v.push(0x44u8);
    v.push(0x49u8);
    v.push(0x46u8);
    v.push(0x46u8);
    v.push(0x34u8);
    v.push(0x30u8);
    proof {
        assert(v@ =~= magic40());
    }
    v
}

fn append_bytes(dst: &mut Vec<u8>, src: &[u8])
    ensures
        final(dst)@ == old(dst)@ + src@,
{
    let sn = src.len();
    let mut i: usize = 0;
    while i < sn
        invariant
            i <= sn,
            sn == src@.len(),
            dst@ =~= old(dst)@ + src@.subrange(0, i as int),
        decreases sn - i,
    {
        dst.push(src[i]);
        i += 1;
        proof {
            assert(dst@ =~= old(dst)@ + src@.subrange(0, i as int));
        }
    }
    proof {
        assert(old(dst)@ + src@.subrange(0, sn as int) =~= old(dst)@ + src@);
    }
}

fn has_prefix(data: &[u8], m: &Vec<u8>) -> (r: bool)
    requires
        m@.len() <= data@.len(),
    ensures
        r == (data@.subrange(0, m@.len() as int) == m@),
{
    let mn = m.len();
    let mut i: usize = 0;
    while i < mn
        invariant
            i <= mn,
            mn == m@.len() <= data@.len(),
            forall|k: int| 0 <= k < i ==> data@[k] == m@[k],
        decreases mn - i,
    {
        if data[i] != m[i] {
            proof {
                assert(data@.subrange(0, mn as int)[i as int] != m@[i as int]);
            }
            return false;
        }
        i += 1;
    }
    proof {
        assert(data@.subrange(0, mn as int) =~= m@);
    }
    true
}

/// The meaning of a single-stream container: the magic constant, the
/// declared output length, then one compressed raw delta stream.
pub open spec fn patch43_result(base: Seq<u8>, patch: Seq<u8>) -> Result<Seq<u8>, DeltaError> {
    if patch.len() < 24 {
        Err(DeltaError::InvalidPatchData)
    } else if patch.subrange(0, 16) != magic43() {
        Err(DeltaError::HeaderMismatch)
    } else {
        let nlen = le64_val(patch.subrange(16, 24)) as int;
        match bz_extracted(patch.skip(24)) {
            Some(raw) => match apply_stream(base, raw, 0, nlen) {
                Some(out) => Ok(out),
                None => Err(DeltaError::InvalidPatchData),
            },
            None => Err(DeltaError::IoFailure),
        }
    }
}

/// Encodes `target` against `base` as a single-stream container: magic,
/// little-endian output length, then the compressed raw delta.  Unpacking
/// the result against `base` gives back exactly `target`.
pub fn bsdiff43_vec(base: &[u8], target: &[u8]) -> (r: Result<Vec<u8>, DeltaError>)
    requires
        fits(base@.len() as int),
        fits(target@.len() as int),
    ensures
        r is Ok,
        patch43_result(base@, r->Ok_0@) == Ok::<Seq<u8>, DeltaError>(target@),
{
    let raw = bsdiff_raw(base, target);
    let comp = bz_compress(raw.as_slice());
    let mut patch = magic43_bytes();
    let nlen = target.len() as u64;
    le64_write(nlen as i64, &mut patch);
    proof {
        lemma_u64_i64_cast(nlen);
    }
    append_bytes(&mut patch, comp.as_slice());
    proof {
        assert(patch@.subrange(0, 16) =~= magic43());
        assert(patch@.subrange(16, 24) =~= le64_bytes(nlen));
        lemma_le64_round_trip(nlen);
        assert(patch@.skip(24) =~= comp@);
        assert(le64_val(patch@.subrange(16, 24)) as int == target@.len() as int);
    }
    Ok(patch)
}

/// Unpacks a single-stream container and applies the delta inside it.
/// Fails with `HeaderMismatch` on a wrong magic constant, `IoFailure` where
/// the compressed stream cannot be inflated, and `InvalidPatchData` where
/// the header is cut short or the delta does not fit the declared length.
pub fn bspatch43_vec(base: &[u8], patch: &[u8]) -> (r: Result<Vec<u8>, DeltaError>)
    ensures
        match r {
            Ok(out) => patch43_result(base@, patch@) == Ok::<Seq<u8>, DeltaError>(out@),
            Err(e) => patch43_result(base@, patch@) == Err::<Seq<u8>, DeltaError>(e),
        },
{
    let pn = patch.len();
    if pn < 24 {
        return Err(DeltaError::InvalidPatchData);
    }
    let m = magic43_bytes();
    if !has_prefix(patch, &m) {
        return Err(DeltaError::HeaderMismatch);
    }
    let nlen_i = le64_read(patch, 16);
    let ghost nlen = le64_val(patch@.subrange(16, 24)) as int;
    proof {
        lemma_u64_i64_cast(le64_val(patch@.subrange(16, 24)));
    }
    let nlen_u = nlen_i as u64;
    let raw = match bz_decompress(&patch[24..pn]) {
        Ok(v) => v,
        Err(e) => {
            proof {
                assert(patch@.skip(24) =~= patch@.subrange(24, pn as int));
            }
            return Err(e);
        },
    };
    proof {
        assert(patch@.skip(24) =~= patch@.subrange(24, pn as int));
    }
    let rn = raw.len();
    if nlen_u > rn as u64 {
        proof {
            if apply_stream(base@, raw@, 0, nlen) is Some {
                lemma_stream_count_bound(base@, raw@, 0, nlen);
            }
        }
        return Err(DeltaError::InvalidPatchData);
    }
    let nlen_us = nlen_u as usize;
    match bspatch_raw(base, nlen_us, raw.as_slice()) {
        Ok(out) => Ok(out),
        Err(e) => Err(e),
    }
}

/// The meaning of a three-stream container: the magic constant, the lengths
/// of the two leading compressed streams and of the output, then the
/// compressed control, diff and extra channels in that order (the extra
/// channel running to the end of the container).
pub open spec fn patch40_result(base: Seq<u8>, patch: Seq<u8>) -> Result<Seq<u8>, DeltaError> {
    if patch.len() < 32 {
        Err(DeltaError::InvalidPatchData)
    } else if patch.subrange(0, 8) != magic40() {
        Err(DeltaError::HeaderMismatch)
    } else {
        let clen = le64_val(patch.subrange(8, 16)) as int;
        let dlen = le64_val(patch.subrange(16, 24)) as int;
        let nlen = le64_val(patch.subrange(24, 32)) as int;
        if 32 + clen + dlen > patch.len() {
            Err(DeltaError::InvalidPatchData)
        } else {
            let cz = patch.subrange(32, 32 + clen);
            let dz = patch.subrange(32 + clen, 32 + clen + dlen);
            let ez = patch.skip(32 + clen + dlen);
            if bz_extracted(cz) is None || bz_extracted(dz) is None || bz_extracted(ez)
                is None {
                Err(DeltaError::IoFailure)
            } else if nlen > usize::MAX {
                Err(DeltaError::InvalidPatchData)
            } else {
                match apply_channels(
                    base,
                    bz_extracted(cz)->Some_0,
                    bz_extracted(dz)->Some_0,
                    bz_extracted(ez)->Some_0,
                    0,
                    nlen,
                    false,
                ) {
                    Some(out) => Ok(out),
                    None => Err(DeltaError::InvalidPatchData),
                }
            }
        }
    }
}

/// Encodes `target` against `base` as a three-stream container: magic, the
/// two compressed-stream lengths and the output length, then each channel
/// compressed on its own.  Unpacking the result against `base` gives back
/// exactly `target`.
#[verifier::rlimit(100)]
pub fn jbsdiff40_vec(base: &[u8], target: &[u8]) -> (r: Result<Vec<u8>, DeltaError>)
    requires
        fits(base@.len() as int),
        fits(target@.len() as int),
    ensures
        r is Ok,
        patch40_result(base@, r->Ok_0@) == Ok::<Seq<u8>, DeltaError>(target@),
{
    let req = bsdiff_internal(base, target);
    let cc = bz_compress(req.ctrl.as_slice());
    let dc = bz_compress(req.diff.as_slice());
    let ec = bz_compress(req.extra.as_slice());
    let mut patch = magic40_bytes();
    let clen = cc.len() as u64;
    let dlen = dc.len() as u64;
    let nlen = target.len() as u64;
    le64_write(clen as i64, &mut patch);
    le64_write(dlen as i64, &mut patch);
    le64_write(nlen as i64, &mut patch);
    proof {
        lemma_u64_i64_cast(clen);
        lemma_u64_i64_cast(dlen);
        lemma_u64_i64_cast(nlen);
    }
    append_bytes(&mut patch, cc.as_slice());
    append_bytes(&mut patch, dc.as_slice());
    append_bytes(&mut patch, ec.as_slice());
    proof {
        lemma_le64_round_trip(clen);
        lemma_le64_round_trip(dlen);
        lemma_le64_round_trip(nlen);
        assert(patch@.subrange(0, 8) =~= magic40());
        assert(patch@.subrange(8, 16) =~= le64_bytes(clen));
        assert(patch@.subrange(16, 24) =~= le64_bytes(dlen));
        assert(patch@.subrange(24, 32) =~= le64_bytes(nlen));
        assert(patch@.subrange(32, 32 + cc@.len() as int) =~= cc@);
        assert(patch@.subrange(32 + cc@.len() as int, 32 + cc@.len() + dc@.len() as int) =~= dc@);
        assert(patch@.skip(32 + cc@.len() + dc@.len() as int) =~= ec@);
    }
    Ok(patch)
}

/// Unpacks a three-stream container and applies the delta inside it.
/// Fails with `HeaderMismatch` on a wrong magic constant, `IoFailure` where
/// a compressed stream cannot be inflated, and `InvalidPatchData` where the
/// header is cut short, a declared length overruns the container, or the
/// delta does not fit the declared output length.
#[verifier::rlimit(100)]
pub fn jbspatch40_vec(base: &[u8], patch: &[u8]) -> (r: Result<Vec<u8>, DeltaError>)
    ensures
        match r {
            Ok(out) => patch40_result(base@, patch@) == Ok::<Seq<u8>, DeltaError>(out@),
            Err(e) => patch40_result(base@, patch@) == Err::<Seq<u8>, DeltaError>(e),
        },
{
    let pn = patch.len();
    if pn < 32 {
        return Err(DeltaError::InvalidPatchData);
    }
    let m = magic40_bytes();
    if !has_prefix(patch, &m) {
        return Err(DeltaError::HeaderMismatch);
    }
    let clen_i = le64_read(patch, 8);
    let dlen_i = le64_read(patch, 16);
    let nlen_i = le64_read(patch, 24);
    proof {
        lemma_u64_i64_cast(le64_val(patch@.subrange(8, 16)));
        lemma_u64_i64_cast(le64_val(patch@.subrange(16, 24)));
        lemma_u64_i64_cast(le64_val(patch@.subrange(24, 32)));
    }
    let clen_u = clen_i as u64;
    let dlen_u = dlen_i as u64;
    let nlen_u = nlen_i as u64;
    if clen_u > (pn - 32) as u64 {
        return Err(DeltaError::InvalidPatchData);
    }
    let clen = clen_u as usize;
    if dlen_u > (pn - 32 - clen) as u64 {
        return Err(DeltaError::InvalidPatchData);
    }
    let dlen = dlen_u as usize;
    let ctrl = match bz_decompress(&patch[32..32 + clen]) {
        Ok(v) => v,
        Err(e) => {
            return Err(e);
        },
    };
    let diff = match bz_decompress(&patch[32 + clen..32 + clen + dlen]) {
        Ok(v) => v,
        Err(e) => {
            return Err(e);
        },
    };
    let extra = match bz_decompress(&patch[32 + clen + dlen..pn]) {
        Ok(v) => v,
        Err(e) => {
            proof {
                assert(patch@.skip(32 + clen + dlen) =~= patch@.subrange(
                    32 + clen + dlen,
                    pn as int,
                ));
            }
            return Err(e);
        },
    };
    proof {
        assert(patch@.skip(32 + clen + dlen) =~= patch@.subrange(32 + clen + dlen, pn as int));
    }
    let dn = diff.len();
    let en = extra.len();
    if nlen_u > (usize::MAX as u64) || (nlen_u as u128) > (dn as u128) + (en as u128) {
        proof {
            let nlen = le64_val(patch@.subrange(24, 32)) as int;
            if nlen <= usize::MAX && apply_channels(base@, ctrl@, diff@, extra@, 0, nlen, false)
                is Some {
                lemma_channels_count_bound(base@, ctrl@, diff@, extra@, 0, nlen);
            }
        }
        return Err(DeltaError::InvalidPatchData);
    }
    let nlen_us = nlen_u as usize;
    let req = BsPatchRequest { ctrl, diff, extra };
    match bspatch_internal(base, nlen_us, &req) {
        Ok(out) => Ok(out),
        Err(e) => Err(e),
    }
}

} // verus!
