use hashsort::codec::{digest_of_index, int_to_serial_number};

#[test]
fn serial_of_zero_is_padded_zeros() {
    let s = int_to_serial_number(0);
    assert_eq!(&s[..], b"0000000000000000\n");
}

#[test]
fn serial_of_max_is_all_f() {
    let s = int_to_serial_number(u64::MAX);
    assert_eq!(&s[..], b"ffffffffffffffff\n");
}

#[test]
fn serial_of_value_is_lower_hex() {
    let s = int_to_serial_number(0xdead_beef);
    assert_eq!(&s[..], b"00000000deadbeef\n");
}

#[test]
fn serial_shape_on_sample() {
    let sample: [u64; 8] = [0, 1, 15, 16, 255, 4096, 1 << 32, u64::MAX];
    for &i in sample.iter() {
        let s = int_to_serial_number(i);
        assert_eq!(s.len(), 17);
        assert_eq!(s[16], b'\n');
        for k in 0..16 {
            let b = s[k];
            assert!(b.is_ascii_digit() || (b'a'..=b'f').contains(&b));
        }
    }
}

#[test]
fn serial_matches_formatting() {
    for &i in [0u64, 7, 0xff, 0x1234_5678_9abc_def0, u64::MAX].iter() {
        let s = int_to_serial_number(i);
        let expected = format!("{:0>16x}\n", i);
        assert_eq!(&s[..], expected.as_bytes());
    }
}

#[test]
fn digest_of_zero_exact_bytes() {
    let d = digest_of_index(0);
    assert_eq!(
        d.0,
        [159, 154, 109, 185, 226, 179, 192, 165, 192, 57, 132, 238, 209, 173, 249, 246]
    );
}

#[test]
fn digest_of_max_exact_bytes() {
    let d = digest_of_index(u64::MAX);
    assert_eq!(
        d.0,
        [26, 193, 142, 202, 9, 194, 119, 184, 31, 45, 155, 245, 72, 57, 234, 248]
    );
}

#[test]
fn digest_matches_hash_of_encoding() {
    for &i in [1u64, 7, 1000, 1 << 40].iter() {
        let s = int_to_serial_number(i);
        let expected = md5::compute(&s[..]).0;
        assert_eq!(digest_of_index(i).0, expected);
    }
}

#[test]
fn key_reads_trailing_bytes_big_endian() {
    let d = digest_of_index(0);
    assert_eq!(d.key(), 146_161_254_922_742);
    let mut expected: u64 = 0;
    for k in 10..16 {
        expected = (expected << 8) | d.0[k] as u64;
    }
    assert_eq!(d.key(), expected);
}
