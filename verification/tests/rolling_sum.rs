use rdiff_rust::rolling_sum::{chunk_rollsum, RollingSum};

#[test]
pub fn default_constructed() {
    let rs = RollingSum::new();
    assert_eq!(rs.l, 0);
    assert_eq!(rs.r1, 0);
    assert_eq!(rs.r2, 0);
    assert_eq!(rs.digest(), 0u32);
}

#[test]
pub fn rollsum() {
    let mut rs = RollingSum::new();
    rs.update(vec![1, 2, 3, 4].as_slice());
    assert_eq!(rs.l, 4);
    assert_eq!(rs.digest(), 1310730);

    // [1, 2, 3, 4, 5, 6, 7, 8]
    rs.update(vec![5, 6, 7, 8].as_slice());
    assert_eq!(rs.l, 8);
    assert_eq!(rs.digest(), 5242916);

    // Test rolling forward
    //
    // [2, 3, 4, 5, 6, 7, 8, 9]
    rs.roll_fw(1, Some(9));
    assert_eq!(rs.l, 8);
    assert_eq!(rs.digest(), 7602220);

    // Roll forward more
    //
    // [5, 6, 7, 8, 9, 10, 11]
    rs.roll_fw(2, Some(10));
    rs.roll_fw(3, Some(11));
    rs.roll_fw(4, None);
    assert_eq!(rs.l, 7);
    assert_eq!(rs.digest(), 13893688);
}

#[test]
pub fn update() {
    let mut rs = RollingSum::new();

    let mut vec: Vec<u8> = Vec::with_capacity(80);
    for i in 0..vec.capacity() {
        vec.push(i as u8);
    }

    rs.update(vec.as_slice());
    assert_eq!(rs.digest(), 1296567384);
}

#[test]
pub fn rollsum_from_chunk() {
    let vec: Vec<u8> = vec![5; 20];
    assert_eq!(chunk_rollsum(vec.as_slice()), 68812900);
}

#[test]
fn default_is_new() {
    let rs = RollingSum::default();
    assert_eq!((rs.r1, rs.r2, rs.l), (0, 0, 0));
}

#[test]
fn update_fields_follow_the_formula() {
    // a = 1 + 2 + 3 = 6, b = 1 * 3 + 2 * 2 + 3 * 1 = 10
    let mut rs = RollingSum::new();
    rs.update(&[1, 2, 3]);
    assert_eq!((rs.r1, rs.r2, rs.l), (6, 10, 3));
    assert_eq!(rs.digest(), 6 + (10 << 16));
}

#[test]
fn update_of_nothing_changes_nothing() {
    let mut rs = RollingSum::new();
    rs.update(&[7, 7]);
    let before = (rs.r1, rs.r2, rs.l);
    rs.update(&[]);
    assert_eq!((rs.r1, rs.r2, rs.l), before);
}

#[test]
fn digest_is_the_same_for_the_same_bytes() {
    let bytes: Vec<u8> = (0..=255u8).cycle().take(3000).collect();
    let mut first = RollingSum::new();
    first.update(&bytes);
    let mut unrelated = RollingSum::new();
    unrelated.update(&[9, 9, 9]);
    unrelated.roll_fw(9, Some(1));
    let mut second = RollingSum::new();
    second.update(&bytes);
    assert_eq!(first.digest(), second.digest());
    assert_eq!(first.digest(), chunk_rollsum(&bytes));
}

#[test]
fn accumulators_stay_below_the_modulus() {
    // 70000 bytes of 255: both sums pass 2^16 many times over, the length too.
    let bytes = vec![255u8; 70000];
    let mut rs = RollingSum::new();
    rs.update(&bytes);
    let a: u64 = 255 * 70000;
    let b: u64 = 255 * (70000 * 70001 / 2);
    assert_eq!(rs.r1 as u64, a % 65536);
    assert_eq!(rs.r2 as u64, b % 65536);
    assert_eq!(rs.l, 70000 % 65536);
    assert_eq!(rs.digest() as u64, a % 65536 + ((b % 65536) << 16));
}

#[test]
fn digest_confines_both_halves() {
    let rs = RollingSum { r1: 0x0003_0001, r2: 0x0005_0002, l: 0 };
    assert_eq!(rs.digest(), 0x0002_0001);
}

#[test]
fn roll_equals_fresh_checksum_of_shifted_window() {
    let data: Vec<u8> = (0..200u32).map(|i| (i * 37 + 11) as u8).collect();
    for k in [1usize, 2, 3, 8, 64] {
        let mut rs = RollingSum::new();
        rs.update(&data[..k]);
        for start in 0..data.len() - k {
            rs.roll_fw(data[start], Some(data[start + k]));
            let mut fresh = RollingSum::new();
            fresh.update(&data[start + 1..start + 1 + k]);
            assert_eq!((rs.r1, rs.r2, rs.l), (fresh.r1, fresh.r2, fresh.l));
            assert_eq!(rs.digest(), chunk_rollsum(&data[start + 1..start + 1 + k]));
        }
    }
}

#[test]
fn roll_wraps_below_zero() {
    // r1 = 0 - 200 + 1 wraps to 65337; r2 = 0 - 3 * 200 + 65337 wraps to 64737
    let mut rs = RollingSum { r1: 0, r2: 0, l: 3 };
    rs.roll_fw(200, Some(1));
    assert_eq!((rs.r1, rs.r2, rs.l), (65337, 64737, 3));
}

#[test]
fn roll_without_next_shrinks_the_window() {
    // window [4, 5, 6]: r1 = 15, r2 = 4 * 3 + 5 * 2 + 6 = 28
    let mut rs = RollingSum::new();
    rs.update(&[4, 5, 6]);
    rs.roll_fw(4, None);
    // r1 = 15 - 4 = 11, r2 = 28 - 3 * 4 + 11 = 27
    assert_eq!((rs.r1, rs.r2, rs.l), (11, 27, 2));
}

#[test]
fn roll_without_next_on_empty_window_wraps_length() {
    let mut rs = RollingSum::new();
    rs.roll_fw(0, None);
    assert_eq!((rs.r1, rs.r2, rs.l), (0, 0, u32::MAX));
}
