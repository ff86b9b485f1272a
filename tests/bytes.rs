use quack::bytes::{get_range_dynamic, read_u64, write_range, write_u64};
use quack::val;

#[test]
fn u64_is_big_endian() {
    let mut buf = vec![0u8; 10];
    write_u64(&mut buf, 1, 0x0102030405060708).unwrap();
    assert_eq!(buf, vec![0, 1, 2, 3, 4, 5, 6, 7, 8, 0]);
    assert_eq!(read_u64(&buf, 1).unwrap(), 0x0102030405060708);
    assert_eq!(read_u64(&buf, 2).unwrap(), 0x0203040506070800);
}

#[test]
fn u64_out_of_bounds() {
    let mut buf = vec![9u8; 10];
    assert!(read_u64(&buf, 3).is_err());
    assert!(read_u64(&buf, u64::MAX).is_err());
    assert!(write_u64(&mut buf, 3, 1).is_err());
    assert!(write_u64(&mut buf, u64::MAX - 2, 1).is_err());
    assert_eq!(buf, vec![9u8; 10]);
}

#[test]
fn ranges() {
    let mut buf = vec![0u8; 6];
    write_range(&mut buf, 2, b"abc").unwrap();
    assert_eq!(buf, b"\0\0abc\0".to_vec());
    assert_eq!(get_range_dynamic(&buf, 2, 3).unwrap(), b"abc");
    assert_eq!(get_range_dynamic(&buf, 6, 0).unwrap(), b"");
    assert!(get_range_dynamic(&buf, 4, 3).is_err());
    assert!(get_range_dynamic(&buf, 1, u64::MAX).is_err());
    assert!(write_range(&mut buf, 5, b"xy").is_err());
    assert_eq!(buf, b"\0\0abc\0".to_vec());
}

#[test]
fn node_layout() {
    let mut buf = vec![0u8; 20];
    val::write(&mut buf, 1, 7, b"hi").unwrap();
    assert_eq!(&buf[1..9], &[0, 0, 0, 0, 0, 0, 0, 7]);
    assert_eq!(&buf[9..17], &[0, 0, 0, 0, 0, 0, 0, 2]);
    assert_eq!(&buf[17..19], b"hi");
    assert!(val::write(&mut buf, 3, 7, b"hi").is_err());
    assert_eq!(&buf[17..19], b"hi");
    assert_eq!(buf[19], 0);
}
