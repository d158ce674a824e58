use order_invert::codec;
use order_invert::unmap;
use order_invert::Error;

#[test]
fn empty_input_is_one_filler_block() {
    assert_eq!(order_invert::map(b""), vec![0xff, 0xff, 0xff, 0xff, 0xff, 0xff, 0xff, 0xff, 9]);
}

#[test]
fn single_byte_is_complemented_and_padded() {
    assert_eq!(order_invert::map(b"a"), vec![0x9e, 0xff, 0xff, 0xff, 0xff, 0xff, 0xff, 0xff, 8]);
}

#[test]
fn full_block_ends_with_marker_one() {
    let out = order_invert::map(&[0, 1, 2, 3, 4, 5, 6, 7]);
    assert_eq!(out, vec![0xff, 0xfe, 0xfd, 0xfc, 0xfb, 0xfa, 0xf9, 0xf8, 1]);
}

#[test]
fn blocks_are_separated_by_zero() {
    let out = codec::map::<2>(&[1, 2, 3]);
    assert_eq!(out, vec![0xfe, 0xfd, 0, 0xfc, 0xff, 2]);
    assert_eq!(codec::unmap::<2>(&out).unwrap(), vec![1, 2, 3]);
}

#[test]
fn length_formula() {
    for len in 0..40usize {
        let blocks = (std::cmp::max(len, 1) + 8 - 1) / 8;
        assert_eq!(order_invert::map(&vec![7u8; len]).len(), blocks * 9);
        let blocks3 = (std::cmp::max(len, 1) + 3 - 1) / 3;
        assert_eq!(codec::map::<3>(&vec![7u8; len]).len(), blocks3 * 4);
    }
    assert_eq!(codec::map::<3>(&[1, 2, 3, 4, 5, 6, 7]).len(), 12);
    assert_eq!(codec::map::<254>(&[]).len(), 255);
}

#[test]
fn order_is_inverted_for_other_group_sizes() {
    let inputs: &[&[u8]] = &[b"", b"\x00", b"\x00\x00", b"a", b"aa", b"ab", b"abc", b"b", b"ba"];
    for a in inputs {
        for b in inputs {
            if a < b {
                assert!(codec::map::<1>(a) > codec::map::<1>(b));
                assert!(codec::map::<3>(a) > codec::map::<3>(b));
                assert!(codec::map::<254>(a) > codec::map::<254>(b));
            }
        }
    }
}

#[test]
fn round_trip_for_other_group_sizes() {
    let data: Vec<u8> = (0..=255u8).collect();
    for len in [0usize, 1, 2, 3, 4, 6, 100, 254, 256] {
        let x = &data[..std::cmp::min(len, data.len())];
        assert_eq!(codec::unmap::<1>(&codec::map::<1>(x)).unwrap(), x);
        assert_eq!(codec::unmap::<3>(&codec::map::<3>(x)).unwrap(), x);
        assert_eq!(codec::unmap::<254>(&codec::map::<254>(x)).unwrap(), x);
    }
}

#[test]
fn ending_zero_is_rejected() {
    assert_eq!(unmap(&[0; 9]), Err(Error::InvalidEnding { val: 0 }));
}

#[test]
fn length_error_reports_group_size() {
    assert_eq!(
        codec::unmap::<3>(&[0xff, 0xff, 0xff, 4, 0]),
        Err(Error::InvalidLength { len: 5, n: 3 })
    );
}

#[test]
fn delimiter_error_reports_first_bad_block() {
    let mut framed = order_invert::map(&[9u8; 20]);
    framed[17] = 5;
    framed[8] = 3;
    assert_eq!(unmap(&framed), Err(Error::InvalidDelimiter { pos: 8, val: 3 }));
}

#[test]
fn padding_error_past_data() {
    let mut framed = order_invert::map(b"abc");
    framed[5] = 0x10;
    assert_eq!(unmap(&framed), Err(Error::InvalidPadding { pos: 5, val: 0x10 }));
}

#[test]
fn last_control_byte_is_not_a_delimiter() {
    assert_eq!(unmap(&[0xfe, 0xff, 0xff, 0xff, 0xff, 0xff, 0xff, 0xff, 8]), Ok(vec![1]));
}
