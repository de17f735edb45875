use bsdiff_rs::{
    bsdiff43_vec, bsdiff_internal, bsdiff_raw, bspatch43_vec, bspatch_internal, jbsdiff40_vec,
    jbspatch40_vec, BsPatchRequest, DeltaError,
};
use rand::Rng;

fn sample_pair() -> (Vec<u8>, Vec<u8>) {
    let mut rng = rand_pcg::Mcg128Xsl64::new(42);
    let old_data = (&mut rng)
        .sample_iter(rand::distributions::Standard)
        .take(4000)
        .collect::<Vec<u8>>();
    let mut new_data = Vec::new();
    new_data.extend_from_slice(&old_data[100..2100]);
    (&mut rng)
        .sample_iter(rand::distributions::Standard)
        .take(300)
        .for_each(|b: u8| new_data.push(b));
    new_data.extend_from_slice(&old_data[2100..3900]);
    (old_data, new_data)
}

#[test]
fn single_stream_container_round_trip() {
    let (old_data, new_data) = sample_pair();
    let patch = bsdiff43_vec(&old_data, &new_data).unwrap();
    let output = bspatch43_vec(&old_data, &patch).unwrap();
    assert_eq!(output, new_data);
}

#[test]
fn three_stream_container_round_trip() {
    let (old_data, new_data) = sample_pair();
    let patch = jbsdiff40_vec(&old_data, &new_data).unwrap();
    let output = jbspatch40_vec(&old_data, &patch).unwrap();
    assert_eq!(output, new_data);
}

#[test]
fn channel_form_round_trip() {
    let (old_data, new_data) = sample_pair();
    let channels = bsdiff_internal(&old_data, &new_data);
    let req = BsPatchRequest {
        ctrl: channels.ctrl,
        diff: channels.diff,
        extra: channels.extra,
    };
    let output = bspatch_internal(&old_data, new_data.len(), &req).unwrap();
    assert_eq!(output, new_data);
}

#[test]
fn container_magic_is_checked() {
    let (old_data, new_data) = sample_pair();

    let mut patch43 = bsdiff43_vec(&old_data, &new_data).unwrap();
    patch43[0] ^= 0xff;
    assert_eq!(
        bspatch43_vec(&old_data, &patch43),
        Err(DeltaError::HeaderMismatch)
    );

    let mut patch40 = jbsdiff40_vec(&old_data, &new_data).unwrap();
    patch40[0] ^= 0xff;
    assert_eq!(
        jbspatch40_vec(&old_data, &patch40),
        Err(DeltaError::HeaderMismatch)
    );
}

#[test]
fn short_container_header_is_rejected() {
    let old_data = [1u8, 2u8, 3u8];
    assert_eq!(
        bspatch43_vec(&old_data, &[0x45u8, 0x4eu8]),
        Err(DeltaError::InvalidPatchData)
    );
    assert_eq!(
        jbspatch40_vec(&old_data, &[0x42u8, 0x53u8]),
        Err(DeltaError::InvalidPatchData)
    );
}

#[test]
fn corrupt_compressed_stream_fails() {
    let (old_data, new_data) = sample_pair();
    let patch = bsdiff43_vec(&old_data, &new_data).unwrap();
    // drop the compressed payload entirely: nothing to inflate
    assert!(bspatch43_vec(&old_data, &patch[..24]).is_err());
    // tamper with the compressed stream's first bytes
    let mut broken = patch.clone();
    for b in broken[24..30].iter_mut() {
        *b ^= 0x5a;
    }
    assert!(bspatch43_vec(&old_data, &broken).is_err());
}

#[test]
fn container_compresses_redundant_deltas() {
    // highly repetitive buffers: the container must come out smaller than
    // the raw stream it wraps, so the compressor really ran
    let old_data = vec![0u8; 2000];
    let new_data = vec![0u8; 2000];
    let raw = bsdiff_raw(&old_data, &new_data);
    let patch = bsdiff43_vec(&old_data, &new_data).unwrap();
    assert!(patch.len() < raw.len());
    let output = bspatch43_vec(&old_data, &patch).unwrap();
    assert_eq!(output, new_data);
}

#[test]
fn empty_pair_round_trips_through_containers() {
    let patch43 = bsdiff43_vec(&[], &[]).unwrap();
    assert_eq!(bspatch43_vec(&[], &patch43).unwrap(), Vec::<u8>::new());
    let patch40 = jbsdiff40_vec(&[], &[]).unwrap();
    assert_eq!(jbspatch40_vec(&[], &patch40).unwrap(), Vec::<u8>::new());
}

#[test]
fn undecodable_stream_reports_io_failure() {
    let old_data = [1u8, 2u8, 3u8];
    // valid magic and length words followed by bytes that are not a
    // compressed stream at all
    let mut patch: Vec<u8> = Vec::new();
    patch.extend_from_slice(b"ENDSLEY/BSDIFF43");
    patch.extend_from_slice(&3u64.to_le_bytes());
    patch.extend_from_slice(&[0u8, 1u8, 2u8, 3u8, 4u8, 5u8]);
    assert_eq!(
        bspatch43_vec(&old_data, &patch),
        Err(DeltaError::IoFailure)
    );
}

#[test]
fn truncated_containers_are_rejected() {
    let (old_data, new_data) = sample_pair();
    let patch43 = bsdiff43_vec(&old_data, &new_data).unwrap();
    for cut in [0usize, 10, 23] {
        assert_eq!(
            bspatch43_vec(&old_data, &patch43[..cut]),
            Err(DeltaError::InvalidPatchData)
        );
    }
    let patch40 = jbsdiff40_vec(&old_data, &new_data).unwrap();
    for cut in [0usize, 15, 31] {
        assert_eq!(
            jbspatch40_vec(&old_data, &patch40[..cut]),
            Err(DeltaError::InvalidPatchData)
        );
    }
    // cutting into the compressed streams can no longer inflate them
    assert!(jbspatch40_vec(&old_data, &patch40[..patch40.len() - 1]).is_err());
}
