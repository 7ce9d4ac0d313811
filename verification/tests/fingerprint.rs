use duplicates::fingerprint::{
    get_fingerprint, measured_length, sampling_plan, SamplingPlan, PAGE_SIZE,
};

#[test]
fn plan_for_an_empty_file_reads_nothing() {
    assert_eq!(sampling_plan(0), SamplingPlan::Nothing);
}

#[test]
fn plan_for_a_short_file_reads_it_whole() {
    assert_eq!(sampling_plan(1), SamplingPlan::Whole);
    assert_eq!(sampling_plan(4095), SamplingPlan::Whole);
    assert_eq!(sampling_plan(PAGE_SIZE), SamplingPlan::Whole);
}

#[test]
fn plan_for_a_long_file_reads_four_chunks_of_two() {
    assert_eq!(
        sampling_plan(4097),
        SamplingPlan::Scattered { reads: 4, chunk: 2, skip: 1024 }
    );
    assert_eq!(
        sampling_plan(1_000_003),
        SamplingPlan::Scattered { reads: 4, chunk: 2, skip: 250_000 }
    );
}

#[test]
fn scattered_reads_stay_inside_the_file() {
    for len in [4097usize, 4098, 4099, 4100, 5000, 8191, 8192, 1 << 20, usize::MAX] {
        match sampling_plan(len) {
            SamplingPlan::Scattered { reads, chunk, skip } => {
                let end = (reads as u128) * (chunk as u128) + (reads as u128 - 1) * (skip as u128);
                assert!(end <= len as u128);
            }
            _ => panic!("a long file is sampled by scattered reads"),
        }
    }
}

#[test]
fn empty_files_have_the_fingerprint_zero() {
    assert_eq!(get_fingerprint(0, &[]), Some((0, 0)));
    assert_eq!(get_fingerprint(0, &[7, 7, 7]), Some((0, 0)));
}

#[test]
fn one_byte_is_its_own_fingerprint() {
    assert_eq!(get_fingerprint(1, &[0xab]), Some((0xab, 1)));
}

#[test]
fn short_files_are_packed_byte_by_byte_lowest_first() {
    assert_eq!(get_fingerprint(3, &[1, 2, 3]), Some((1 + 2 * 256 + 3 * 65536, 3)));
    assert_eq!(
        get_fingerprint(7, &[1, 2, 3, 4, 5, 6, 7]),
        Some((0x00_07_06_05_04_03_02_01, 7))
    );
    assert_eq!(
        get_fingerprint(8, &[1, 2, 3, 4, 5, 6, 7, 8]),
        Some((0x08_07_06_05_04_03_02_01, 8))
    );
}

#[test]
fn fingerprint_depends_on_the_order_of_the_bytes() {
    assert_ne!(get_fingerprint(2, &[1, 2]), get_fingerprint(2, &[2, 1]));
}

#[test]
fn at_most_eight_bytes_are_sampled() {
    // Nine bytes: an eighth of the length rounds down to one, so the first
    // eight bytes are taken and the ninth is left out.
    let bytes = [1, 2, 3, 4, 5, 6, 7, 8, 9];
    assert_eq!(get_fingerprint(9, &bytes), Some((0x08_07_06_05_04_03_02_01, 9)));
    let mut other = bytes;
    other[8] = 0xff;
    assert_eq!(get_fingerprint(9, &other), get_fingerprint(9, &bytes));
}

#[test]
fn whole_files_are_sampled_at_every_eighth() {
    let bytes: Vec<u8> = (0..16).collect();
    // The stride is two: the bytes at 0, 2, 4, ..., 14.
    assert_eq!(get_fingerprint(16, &bytes), Some((0x0e_0c_0a_08_06_04_02_00, 16)));
    let page: Vec<u8> = (0..PAGE_SIZE).map(|i| (i / 512) as u8 + 1).collect();
    // The stride is 512: the bytes at 0, 512, ..., 3584.
    assert_eq!(
        get_fingerprint(PAGE_SIZE, &page),
        Some((0x08_07_06_05_04_03_02_01, PAGE_SIZE))
    );
}

#[test]
fn unsampled_bytes_do_not_change_the_fingerprint() {
    let mut left: Vec<u8> = (0..16).collect();
    let right = left.clone();
    left[1] = 0xff;
    assert_eq!(get_fingerprint(16, &left), get_fingerprint(16, &right));
}

#[test]
fn the_length_read_from_the_file_decides_not_the_bytes_handed_in() {
    let bytes: Vec<u8> = (1..=32).collect();
    // Sixteen bytes were announced: the stride is two, whatever came after.
    assert_eq!(get_fingerprint(16, &bytes), Some((0x0f_0d_0b_09_07_05_03_01, 16)));
}

#[test]
fn long_files_are_packed_from_the_eight_bytes_read() {
    let fetched = [0x11, 0x22, 0x33, 0x44, 0x55, 0x66, 0x77, 0x88];
    assert_eq!(get_fingerprint(4097, &fetched), Some((0x88_77_66_55_44_33_22_11, 4097)));
    assert_eq!(
        get_fingerprint(1 << 30, &fetched),
        Some((0x88_77_66_55_44_33_22_11, 1 << 30))
    );
}

#[test]
fn the_highest_fingerprint_fits() {
    assert_eq!(get_fingerprint(5000, &[0xff; 8]), Some((u64::MAX, 5000)));
}

#[test]
fn equal_samples_of_different_lengths_differ_in_the_length() {
    let fetched = [1, 2, 3, 4, 5, 6, 7, 8];
    let (left, left_len) = get_fingerprint(5000, &fetched).unwrap();
    let (right, right_len) = get_fingerprint(6000, &fetched).unwrap();
    assert_eq!(left, right);
    assert_ne!(left_len, right_len);
}

#[test]
fn too_few_bytes_give_no_fingerprint() {
    assert_eq!(get_fingerprint(3, &[1, 2]), None);
    assert_eq!(get_fingerprint(1, &[]), None);
    assert_eq!(get_fingerprint(PAGE_SIZE, &[0; 4095]), None);
    assert_eq!(get_fingerprint(4097, &[1, 2, 3, 4, 5, 6, 7]), None);
}

#[test]
fn more_bytes_than_the_plan_fetches_do_no_harm() {
    assert_eq!(
        get_fingerprint(4097, &[1, 2, 3, 4, 5, 6, 7, 8, 9, 10]),
        Some((0x08_07_06_05_04_03_02_01, 4097))
    );
}

#[test]
fn a_file_that_cannot_be_measured_counts_as_empty() {
    assert_eq!(measured_length(None), 0);
    assert_eq!(sampling_plan(measured_length(None)), SamplingPlan::Nothing);
}

#[test]
fn a_measured_length_is_taken_as_it_is() {
    assert_eq!(measured_length(Some(0)), 0);
    assert_eq!(measured_length(Some(4096)), 4096);
    assert_eq!(measured_length(Some(123_456_789)), 123_456_789);
}

#[test]
fn a_measured_length_is_cut_to_the_size_of_the_machine() {
    assert_eq!(measured_length(Some(u64::MAX)), u64::MAX as usize);
}
