use order_invert::unmap;
use order_invert::Error;

#[test]
fn test_map() {
    assert!(order_invert::map(b"") > order_invert::map(b" "));
    assert!(order_invert::map(b"a") > order_invert::map(b"b"));
    assert!(order_invert::map(b"a") > order_invert::map(b"aa"));
    assert!(order_invert::map(b"aa") > order_invert::map(b"abb"));

    for i in 0..0xff {
        assert!(order_invert::map(&[]) > order_invert::map(&vec![i as u8; i + 1]));
        for v in 0..0xff {
            assert!(order_invert::map(&vec![v; i + 0]) > order_invert::map(&vec![v; i + 1]));
            assert!(order_invert::map(&vec![v; i + 1]) > order_invert::map(&vec![v + 1; i + 1]));
            assert!(order_invert::map(&vec![v; i + 1]) > order_invert::map(&vec![v + 1; i + 2]));
            assert!(order_invert::map(&vec![v; i + 2]) > order_invert::map(&vec![v + 1; i + 1]));
        }
    }
}

#[test]
fn test_unmap() {
    let bytes_list: &[&[u8]] = &[b"", b"A", b"hello", b"hello world!", b"7268"];
    for bytes in bytes_list {
        assert_eq!(unmap(&order_invert::map(*bytes)).unwrap(), *bytes);
    }

    for i in 0..0xff {
        for v in 0..=0xff {
            let bytes = vec![v; i];
            let mapped = order_invert::map(&bytes);
            let unmapped = unmap(&mapped).unwrap();
            assert_eq!(bytes, unmapped);
        }
    }
}

#[test]
fn test_invalid_unmap() {
    assert!(matches!(unmap(b"").unwrap_err(), Error::EmptyBytes));
    assert!(matches!(
        unmap(b"xxxxxxxx").unwrap_err(),
        Error::InvalidLength { len: 8, n: 8 }
    ));
    assert!(matches!(
        unmap(&[1; 18]).unwrap_err(),
        Error::InvalidDelimiter { pos: 8, val: 1 }
    ));
    assert!(matches!(
        unmap(&[2; 9]).unwrap_err(),
        Error::InvalidPadding { pos: 7, val: 2 }
    ));
    assert!(matches!(
        unmap(&[10; 9]).unwrap_err(),
        Error::InvalidEnding { val: 10 }
    ));
}
