use bsdiff_rs::{bsdiff_raw, bspatch_raw, DeltaError};
use rand::Rng;

#[test]
fn hardcoded_data() {
    let old_data = &[0u8, 1u8, 2u8, 3u8, 4u8, 10u8, 9u8, 255u8, 0u8, 72u8];
    let new_data = &[1u8, 0u8, 2u8, 3u8, 4u8, 10u8, 90u8, 0u8, 0u8, 255u8];

    let patch = bsdiff_raw(old_data, new_data);

    let output_data = bspatch_raw(old_data, new_data.len(), &patch).unwrap();

    assert_eq!(&output_data[..], &new_data[..]);
}

#[test]
fn long_random_data() {
    for _ in 0..10 {
        let old_data = rand::thread_rng()
            .sample_iter(rand::distributions::Standard)
            .take(1000)
            .collect::<Vec<u8>>();
        let new_data = rand::thread_rng()
            .sample_iter(rand::distributions::Standard)
            .take(99)
            .collect::<Vec<u8>>();

        let patch = bsdiff_raw(&old_data[..], &new_data[..]);

        println!("{:X?}", &patch[..50]);

        let output_data = bspatch_raw(&old_data[..], 99, &patch).unwrap();

        assert_eq!(&output_data[..], &new_data[..])
    }
}

#[test]
fn scale_trials() {
    let mut rng = rand_pcg::Mcg128Xsl64::new(0);
    for i in 0..10 {
        let old_data = (&mut rng)
            .sample_iter(rand::distributions::Standard)
            .take(10000 - i)
            .collect::<Vec<u8>>();
        let new_data = (&mut rng)
            .sample_iter(rand::distributions::Standard)
            .take(10 + 100 * i)
            .collect::<Vec<u8>>();

        let patch = bsdiff_raw(&old_data[..], &new_data[..]);

        let output_data = bspatch_raw(&old_data[..], 10 + 100 * i, &patch).unwrap();

        assert_eq!(&output_data[..], &new_data[..])
    }
}

#[test]
fn delta_data() {
    let mut rng = rand_pcg::Mcg128Xsl64::new(0);
    let old_data = (&mut rng)
        .sample_iter(rand::distributions::Standard)
        .take(5000)
        .collect::<Vec<u8>>();
    let mut new_data = Vec::with_capacity(5000);
    new_data.extend_from_slice(&old_data[..2500]);
    (&mut rng)
        .sample_iter(rand::distributions::Standard)
        .take(500)
        .for_each(|b: u8| new_data.push(b));
    old_data[2500..]
        .iter()
        .map(|b| b.overflowing_add(1).0)
        .for_each(|b| new_data.push(b));

    let patch = bsdiff_raw(&old_data, &new_data);

    let output = bspatch_raw(&old_data, new_data.len(), &patch).unwrap();

    assert_eq!(new_data, output);
}

#[test]
fn deterministic_encoding() {
    let mut rng = rand_pcg::Mcg128Xsl64::new(7);
    let old_data = (&mut rng)
        .sample_iter(rand::distributions::Standard)
        .take(3000)
        .collect::<Vec<u8>>();
    let new_data = (&mut rng)
        .sample_iter(rand::distributions::Standard)
        .take(800)
        .collect::<Vec<u8>>();

    let patch_a = bsdiff_raw(&old_data, &new_data);
    let patch_b = bsdiff_raw(&old_data, &new_data);
    assert_eq!(patch_a, patch_b);

    let small_a = bsdiff_raw(&[1u8, 2u8, 3u8], &[3u8, 2u8, 1u8]);
    let small_b = bsdiff_raw(&[1u8, 2u8, 3u8], &[3u8, 2u8, 1u8]);
    assert_eq!(small_a, small_b);
}

#[test]
fn empty_target_gives_empty_patch() {
    let old_data = &[5u8, 6u8, 7u8];
    let patch = bsdiff_raw(old_data, &[]);
    assert_eq!(patch.len(), 0);
    let output = bspatch_raw(old_data, 0, &patch).unwrap();
    assert_eq!(output.len(), 0);
}

#[test]
fn empty_base_gives_single_literal_record() {
    let new_data = &[9u8, 8u8, 7u8, 6u8];
    let patch = bsdiff_raw(&[], new_data);
    // one 24-byte control record, no diff payload, the target verbatim
    assert_eq!(patch.len(), 24 + new_data.len());
    let mut expected = Vec::new();
    expected.extend_from_slice(&0u64.to_le_bytes());
    expected.extend_from_slice(&(new_data.len() as u64).to_le_bytes());
    expected.extend_from_slice(&0u64.to_le_bytes());
    expected.extend_from_slice(new_data);
    assert_eq!(patch, expected);
    let output = bspatch_raw(&[], new_data.len(), &patch).unwrap();
    assert_eq!(&output[..], &new_data[..]);
}

#[test]
fn identical_buffers_round_trip() {
    let data = (0u32..2000).map(|i| (i * 7 % 251) as u8).collect::<Vec<u8>>();
    let patch = bsdiff_raw(&data, &data);
    let output = bspatch_raw(&data, data.len(), &patch).unwrap();
    assert_eq!(output, data);
}

#[test]
fn wraparound_bytes_recombine() {
    for n in 0u16..256 {
        for o in 0u16..256 {
            let nb = n as u8;
            let ob = o as u8;
            let d = bsdiff_rs::wire::byte_sub(nb, ob);
            assert_eq!(bsdiff_rs::wire::byte_add(d, ob), nb);
        }
    }
}

#[test]
fn truncated_stream_is_rejected() {
    let old_data = &[0u8, 1u8, 2u8, 3u8, 4u8, 10u8, 9u8, 255u8, 0u8, 72u8];
    let new_data = &[1u8, 0u8, 2u8, 3u8, 4u8, 10u8, 90u8, 0u8, 0u8, 255u8];
    let patch = bsdiff_raw(old_data, new_data);
    for cut in 0..patch.len() {
        let result = bspatch_raw(old_data, new_data.len(), &patch[..cut]);
        assert_eq!(result, Err(DeltaError::InvalidPatchData));
    }
}

#[test]
fn wrong_declared_length_is_rejected() {
    let old_data = &[1u8, 2u8, 3u8, 4u8];
    let new_data = &[4u8, 3u8, 2u8, 1u8, 0u8];
    let patch = bsdiff_raw(old_data, new_data);
    // too little or too much output demanded: the stream no longer fits
    assert!(bspatch_raw(old_data, new_data.len() - 1, &patch).is_err());
    assert!(bspatch_raw(old_data, new_data.len() + 1, &patch).is_err());
}

#[test]
fn proved_scenario_helper_holds() {
    let expected = [1u8, 0u8, 2u8, 3u8, 4u8, 10u8, 90u8, 0u8, 0u8, 255u8];
    assert_eq!(bsdiff_rs::hardcoded_data_t(), expected.to_vec());
}
