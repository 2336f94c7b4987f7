use gvint::codec::GVInt;

const WORD: usize = std::mem::size_of::<usize>();

fn filled(values: &[u32]) -> GVInt {
    let mut g = GVInt::new();
    for &x in values {
        g.add(x);
    }
    g
}

#[test]
fn nothing_added() {
    let g = GVInt::new();
    assert_eq!(g.size(), 0);
    assert_eq!(g.decode(), Vec::<u32>::new());
    assert!(g.headers().is_empty());
    assert!(g.packed().is_empty());
    assert!(g.staging().is_empty());
}

#[test]
fn one_value_stays_staged() {
    let g = filled(&[5]);
    assert_eq!(g.decode(), vec![5]);
    assert!(g.headers().is_empty());
    assert!(g.packed().is_empty());
    assert_eq!(g.staging(), &[5]);
    assert_eq!(g.size(), 1);
}

#[test]
fn four_values_are_not_committed_yet() {
    let g = filled(&[5, 300, 70000, 16777300]);
    assert!(g.headers().is_empty());
    assert!(g.packed().is_empty());
    assert_eq!(g.staging(), &[5, 300, 70000, 16777300]);
    assert_eq!(g.decode(), vec![5, 300, 70000, 16777300]);
    assert_eq!(g.size(), 4);
}

#[test]
fn fifth_value_commits_the_first_four() {
    let g = filled(&[5, 300, 70000, 16777300, 42]);
    assert_eq!(g.headers(), &[0x1B]);
    assert_eq!(g.packed(), &[0x05, 0x01, 0x2C, 0x01, 0x11, 0x70, 0x01, 0x00, 0x00, 0x54]);
    assert_eq!(g.staging(), &[42]);
    assert_eq!(g.decode(), vec![5, 300, 70000, 16777300, 42]);
    assert_eq!(g.size(), 5);
}

#[test]
fn fifth_value_of_any_width_commits_the_first_four() {
    for &x5 in [0u32, 255, 256, 65536, 16777216, u32::MAX].iter() {
        let g = filled(&[5, 300, 70000, 16777300, x5]);
        assert_eq!(g.headers(), &[0x1B]);
        assert_eq!(g.packed(), &[0x05, 0x01, 0x2C, 0x01, 0x11, 0x70, 0x01, 0x00, 0x00, 0x54]);
        assert_eq!(g.staging(), &[x5]);
        assert_eq!(g.decode(), vec![5, 300, 70000, 16777300, x5]);
    }
}

#[test]
fn header_fields_run_from_the_high_bits_down() {
    let g = filled(&[16777216, 0, 0, 0, 0]);
    assert_eq!(g.headers(), &[0b11_00_00_00]);
    assert_eq!(g.packed(), &[1, 0, 0, 0, 0, 0, 0]);
    let g = filled(&[0, 65536, 0, 0, 0]);
    assert_eq!(g.headers(), &[0b00_10_00_00]);
    assert_eq!(g.packed(), &[0, 1, 0, 0, 0, 0]);
    let g = filled(&[0, 0, 256, 0, 0]);
    assert_eq!(g.headers(), &[0b00_00_01_00]);
    assert_eq!(g.packed(), &[0, 0, 1, 0, 0]);
    let g = filled(&[0, 0, 0, 0xFFFF_FFFF, 0]);
    assert_eq!(g.headers(), &[0b00_00_00_11]);
    assert_eq!(g.packed(), &[0, 0, 0, 0xFF, 0xFF, 0xFF, 0xFF]);
}

#[test]
fn narrowest_and_widest_groups() {
    let g = filled(&[0, 0, 0, 0, 7]);
    assert_eq!(g.headers(), &[0x00]);
    assert_eq!(g.packed(), &[0, 0, 0, 0]);
    let g = filled(&[u32::MAX, u32::MAX, u32::MAX, u32::MAX, 7]);
    assert_eq!(g.headers(), &[0xFF]);
    assert_eq!(g.packed(), &[0xFF; 16]);
    assert_eq!(g.decode(), vec![u32::MAX, u32::MAX, u32::MAX, u32::MAX, 7]);
}

#[test]
fn bytes_are_big_endian() {
    let g = filled(&[0x0102, 0x030405, 0x06070809, 0x0A, 0]);
    assert_eq!(g.headers(), &[0b01_10_11_00]);
    assert_eq!(g.packed(), &[1, 2, 3, 4, 5, 6, 7, 8, 9, 10]);
    assert_eq!(g.decode(), vec![0x0102, 0x030405, 0x06070809, 0x0A, 0]);
}

#[test]
fn eighth_value_commits_nothing_and_the_ninth_a_second_group() {
    let values: Vec<u32> = vec![1, 256, 65536, 16777216, 2, 3, 4, 5, 6];
    let g = filled(&values[..8]);
    assert_eq!(g.headers(), &[0x1B]);
    assert_eq!(g.staging(), &[2, 3, 4, 5]);
    assert_eq!(g.decode(), values[..8].to_vec());
    let g = filled(&values);
    assert_eq!(g.headers(), &[0x1B, 0x00]);
    assert_eq!(g.packed(), &[1, 1, 0, 1, 0, 0, 1, 0, 0, 0, 2, 3, 4, 5]);
    assert_eq!(g.staging(), &[6]);
    assert_eq!(g.decode(), values);
}

#[test]
fn round_trip_at_every_length() {
    let pool: [u32; 9] = [0, 0xFF, 0x100, 0xFFFF, 0x10000, 0xFFFFFF, 0x1000000, 0xFFFFFFFF, 77];
    for n in 0..40usize {
        let values: Vec<u32> = (0..n).map(|i| pool[(i * 7 + n) % pool.len()]).collect();
        let g = filled(&values);
        assert_eq!(g.decode(), values);
        assert_eq!(g.size(), n);
    }
}

#[test]
fn count_is_four_per_header_plus_staged_after_every_add() {
    let mut g = GVInt::new();
    assert_eq!(g.size(), 4 * g.headers().len() + g.staging().len());
    for i in 0..50u32 {
        g.add(i.wrapping_mul(2654435761));
        assert_eq!(g.size(), (i + 1) as usize);
        assert_eq!(g.size(), 4 * g.headers().len() + g.staging().len());
        assert!(g.staging().len() >= 1 && g.staging().len() <= 4);
    }
}

#[test]
fn committed_groups_lag_by_one_value() {
    let mut g = GVInt::new();
    assert_eq!(g.headers().len(), 0);
    for n in 1..=33usize {
        g.add(n as u32);
        assert_eq!(g.headers().len(), (n - 1) / 4);
    }
}

#[test]
fn payload_is_as_long_as_the_widths_add_up_to() {
    let g = filled(&[5, 300, 70000, 16777300, 0, 0, 0, 0, 65535, 65536, 1, 2, 3]);
    assert_eq!(g.headers().len(), 3);
    assert_eq!(g.packed().len(), (1 + 2 + 3 + 4) + (1 + 1 + 1 + 1) + (2 + 3 + 1 + 1));
}

#[test]
fn footprint_adds_up() {
    let g = GVInt::new();
    assert_eq!(g.byte_size(), WORD);
    let g = filled(&[5]);
    assert_eq!(g.byte_size(), WORD + 4);
    let g = filled(&[5, 300, 70000, 16777300]);
    assert_eq!(g.byte_size(), WORD + 16);
    let g = filled(&[5, 300, 70000, 16777300, 42]);
    assert_eq!(g.byte_size(), WORD + 10 + 1 + 4);
    let g = filled(&[5, 300, 70000, 16777300, 42, 43, 44, 45, 46]);
    assert_eq!(g.byte_size(), WORD + 14 + 2 + 4);
}

#[test]
fn footprint_is_overhead_payload_headers_and_staging() {
    let mut g = GVInt::new();
    for i in 0..30u32 {
        g.add(i.wrapping_mul(40503).wrapping_mul(i));
        assert_eq!(
            g.byte_size(),
            WORD + g.packed().len() + g.headers().len() + 4 * g.staging().len()
        );
    }
}

#[test]
fn from_values_is_adding_in_order() {
    let values: Vec<u32> = vec![9, 8, 70000, 6, 5, 4, 300, 2, 1, 0];
    let built = GVInt::from_values(&values);
    let added = filled(&values);
    assert_eq!(built.size(), 10);
    assert_eq!(built.headers(), added.headers());
    assert_eq!(built.packed(), added.packed());
    assert_eq!(built.staging(), added.staging());
    assert_eq!(built.decode(), values);
    assert_eq!(GVInt::from_values(&[]).decode(), Vec::<u32>::new());
}

#[test]
fn decode_leaves_the_run_as_it_was() {
    let mut g = filled(&[1, 2, 3, 4, 5, 6]);
    assert_eq!(g.decode(), vec![1, 2, 3, 4, 5, 6]);
    assert_eq!(g.decode(), vec![1, 2, 3, 4, 5, 6]);
    g.add(7);
    assert_eq!(g.decode(), vec![1, 2, 3, 4, 5, 6, 7]);
}

#[test]
fn one_value_read_at_each_size() {
    let g = GVInt::new();
    let xs: [u8; 6] = [0xAA, 0x01, 0x02, 0x03, 0x04, 0xBB];
    assert_eq!(g._decode_one(&xs, 1, 1), 0x01);
    assert_eq!(g._decode_one(&xs, 1, 2), 0x0102);
    assert_eq!(g._decode_one(&xs, 1, 3), 0x010203);
    assert_eq!(g._decode_one(&xs, 1, 4), 0x01020304);
    assert_eq!(g._decode_one(&xs, 0, 4), 0xAA010203);
    assert_eq!(g._decode_one(&xs, 2, 4), 0x020304BB);
    assert_eq!(g._decode_one(&xs, 5, 1), 0xBB);
}

#[test]
fn one_value_of_another_size_is_zero() {
    let g = GVInt::new();
    let xs: [u8; 4] = [1, 2, 3, 4];
    assert_eq!(g._decode_one(&xs, 0, 0), 0);
    assert_eq!(g._decode_one(&xs, 0, 5), 0);
    assert_eq!(g._decode_one(&xs, 3, 8), 0);
}
