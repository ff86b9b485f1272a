use quack::stor::{read_slot, read_store_len, store_start, write_num_slots, write_slot, write_store_len};
use quack::{Quack, Sequence};

fn items<'a>(mut s: Sequence<'a>) -> Vec<&'a [u8]> {
    let mut out = Vec::new();
    while let Some(x) = s.next() {
        out.push(x);
    }
    out
}

#[test]
fn single_key() {
    let mut buf = vec![0u8; 112];
    write_num_slots(&mut buf, 4).unwrap();
    write_store_len(&mut buf, 0).unwrap();

    let mut quack = Quack::new(buf);

    quack.write(0, b"hello").unwrap();
    quack.write(0, b"world").unwrap();

    let items = items(quack.read(0).unwrap());
    assert_eq!(&items[..], &[b"world", b"hello"]);
}

#[test]
fn multiple_keys() {
    let mut buf = vec![0u8; 128];
    write_num_slots(&mut buf, 4).unwrap();
    write_store_len(&mut buf, 0).unwrap();

    let mut quack = Quack::new(buf);
    quack.write(0, b"hello").unwrap();
    quack.write(1, b"world").unwrap();
    quack.write(2, b"quack").unwrap();

    assert_eq!(&items(quack.read(0).unwrap()), &[b"hello"]);
    assert_eq!(&items(quack.read(1).unwrap()), &[b"world"]);
    assert_eq!(&items(quack.read(2).unwrap()), &[b"quack"]);
}

#[test]
fn miss() {
    let mut buf = vec![0u8; 69];
    write_num_slots(&mut buf, 4).unwrap();
    write_store_len(&mut buf, 0).unwrap();

    let mut quack = Quack::new(buf);

    println!("quack: {:?}", quack.data());
    quack.write(0, b"hello").unwrap();

    assert!(quack.read(1).unwrap().next().is_none());
}

#[test]
fn unwritten_bucket_reads_empty() {
    let mut quack = Quack::initialize_assume_zeroed(vec![0u8; 128], 4).unwrap();
    quack.write(0, b"hello").unwrap();
    quack.write(1, b"world").unwrap();
    quack.write(2, b"quack").unwrap();
    assert!(items(quack.read(3).unwrap()).is_empty());
    let mut s = quack.read(3).unwrap();
    assert_eq!(s.try_next().unwrap(), None);
}

#[test]
fn colliding_keys_share_a_bucket() {
    let mut quack = Quack::initialize_assume_zeroed(vec![0u8; 200], 4).unwrap();
    quack.write(1, b"a").unwrap();
    quack.write(5, b"b").unwrap();
    quack.write(2, b"c").unwrap();
    quack.write(9, b"d").unwrap();
    let expected: Vec<&[u8]> = vec![b"d", b"b", b"a"];
    assert_eq!(items(quack.read(1).unwrap()), expected);
    assert_eq!(items(quack.read(5).unwrap()), expected);
    assert_eq!(items(quack.read(2).unwrap()), vec![&b"c"[..]]);
}

#[test]
fn empty_payload_round_trips() {
    let mut quack = Quack::initialize_assume_zeroed(vec![0u8; 64], 1).unwrap();
    quack.write(7, b"").unwrap();
    quack.write(7, b"x").unwrap();
    let expected: Vec<&[u8]> = vec![b"x", b""];
    assert_eq!(items(quack.read(0).unwrap()), expected);
}

#[test]
fn initialize_writes_header() {
    let quack = Quack::initialize_assume_zeroed(vec![0u8; 48], 4).unwrap();
    let data = quack.data();
    assert_eq!(&data[0..8], &[0, 0, 0, 0, 0, 0, 0, 4]);
    assert_eq!(&data[8..16], &[0u8; 8]);
    assert_eq!(read_store_len(data).unwrap(), 0);
}

#[test]
fn initialize_rejects_short_buffer() {
    assert!(Quack::initialize_assume_zeroed(vec![0u8; 47], 4).is_err());
    assert!(Quack::initialize_assume_zeroed(vec![0u8; 100], u64::MAX).is_err());
    assert!(Quack::initialize_assume_zeroed(vec![0u8; 15], 0).is_err());
}

#[test]
fn zero_slots_read_empty_write_fails() {
    let mut quack = Quack::initialize_assume_zeroed(vec![0u8; 64], 0).unwrap();
    assert!(items(quack.read(5).unwrap()).is_empty());
    assert!(quack.write(5, b"hello").is_err());
    assert_eq!(quack.data(), &[0u8; 64][..]);
}

#[test]
fn capacity_exhaustion_changes_nothing() {
    let mut quack = Quack::initialize_assume_zeroed(vec![0u8; 69], 4).unwrap();
    quack.write(0, b"hello").unwrap();
    let before = quack.data().to_vec();
    assert!(quack.write(1, b"").is_err());
    assert!(quack.write(0, b"x").is_err());
    assert_eq!(quack.data(), &before[..]);
    assert_eq!(read_store_len(quack.data()).unwrap(), 21);
    assert_eq!(items(quack.read(0).unwrap()), vec![&b"hello"[..]]);
}

#[test]
fn write_layout_is_exact() {
    let mut quack = Quack::initialize_assume_zeroed(vec![0u8; 42], 1).unwrap();
    assert!(quack.write(3, b"abc").is_err());
    quack.write(3, b"ab").unwrap();
    let data = quack.into_data();
    // slot 0 points at the node at offset 24
    assert_eq!(read_slot(&data, 0).unwrap(), 24);
    assert_eq!(read_store_len(&data).unwrap(), 18);
    assert_eq!(&data[24..32], &[0u8; 8]);
    assert_eq!(&data[32..40], &[0, 0, 0, 0, 0, 0, 0, 2]);
    assert_eq!(&data[40..42], b"ab");
}

#[test]
fn optimize_reverses_each_bucket() {
    let mut quack = Quack::initialize_assume_zeroed(vec![0u8; 200], 4).unwrap();
    quack.write(0, b"hello").unwrap();
    quack.write(0, b"world").unwrap();
    quack.write(1, b"quack").unwrap();
    assert_eq!(items(quack.read(0).unwrap()), vec![&b"world"[..], &b"hello"[..]]);
    let opt = quack.optimize(vec![0u8; 200]).unwrap();
    assert_eq!(items(opt.read(0).unwrap()), vec![&b"hello"[..], &b"world"[..]]);
    assert_eq!(items(opt.read(1).unwrap()), vec![&b"quack"[..]]);
    assert!(items(opt.read(2).unwrap()).is_empty());
    assert_eq!(read_store_len(opt.data()).unwrap(), read_store_len(quack.data()).unwrap());
}

#[test]
fn optimize_needs_room() {
    let mut quack = Quack::initialize_assume_zeroed(vec![0u8; 200], 4).unwrap();
    quack.write(0, b"hello").unwrap();
    quack.write(2, b"world").unwrap();
    // header and slots take 48 bytes, the two nodes 42
    assert!(quack.optimize(vec![0u8; 89]).is_err());
    assert!(quack.optimize(vec![0u8; 90]).is_ok());
}

#[test]
fn corrupt_pointer_is_an_error() {
    let mut buf = vec![0u8; 64];
    write_num_slots(&mut buf, 2).unwrap();
    write_slot(&mut buf, 1, 60).unwrap();
    let quack = Quack::new(buf);
    let mut s = quack.read(1).unwrap();
    assert!(s.try_next().is_err());
    assert!(s.try_next().is_err());
    assert!(s.next().is_none());
}

#[test]
fn huge_header_values_fail_without_wrapping() {
    let mut buf = vec![0u8; 128];
    write_num_slots(&mut buf, u64::MAX).unwrap();
    let mut quack = Quack::new(buf.clone());
    assert!(quack.write(3, b"x").is_err());
    assert!(quack.read(u64::MAX - 1).is_err());

    write_num_slots(&mut buf, 2).unwrap();
    write_store_len(&mut buf, u64::MAX - 10).unwrap();
    let mut quack = Quack::new(buf.clone());
    assert!(quack.write(0, b"").is_err());
    assert_eq!(quack.data(), &buf[..]);

    let mut buf = vec![0u8; 64];
    write_num_slots(&mut buf, 1).unwrap();
    write_slot(&mut buf, 0, u64::MAX - 3).unwrap();
    let quack = Quack::new(buf);
    assert!(quack.read(0).unwrap().try_next().is_err());
}

#[test]
fn short_buffer_read_fails() {
    let quack = Quack::new(vec![0u8; 7]);
    assert!(quack.read(0).is_err());
    let mut quack = Quack::new(vec![0u8; 12]);
    assert!(quack.write(0, b"a").is_err());
}

#[test]
fn store_size_formula() {
    assert_eq!(quack::calculate_store_size(4, &[5, 5]).unwrap(), 90);
    assert_eq!(quack::calculate_store_size(0, &[]).unwrap(), 16);
    assert_eq!(quack::calculate_store_size(3, &[0]).unwrap(), 56);
    assert!(quack::calculate_store_size(u64::MAX, &[]).is_err());
    assert!(quack::calculate_store_size(0, &[u64::MAX - 16]).is_err());
    assert_eq!(quack::calculate_store_size(0, &[u64::MAX - 32]).unwrap(), u64::MAX);
}

#[test]
fn store_size_fits_the_writes() {
    let size = quack::calculate_store_size(4, &[5, 5, 5]).unwrap() as usize;
    let mut quack = Quack::initialize_assume_zeroed(vec![0u8; size], 4).unwrap();
    quack.write(0, b"hello").unwrap();
    quack.write(1, b"world").unwrap();
    quack.write(2, b"quack").unwrap();
    assert!(quack.write(3, b"").is_err());
}

#[test]
fn slot_accessors() {
    let mut buf = vec![0u8; 40];
    write_slot(&mut buf, 2, 0x0102).unwrap();
    assert_eq!(&buf[32..40], &[0, 0, 0, 0, 0, 0, 1, 2]);
    assert_eq!(read_slot(&buf, 2).unwrap(), 0x0102);
    assert!(read_slot(&buf, 3).is_err());
    assert!(write_slot(&mut buf, 3, 1).is_err());
    assert!(read_slot(&buf, u64::MAX).is_err());
    assert_eq!(store_start(4).unwrap(), 48);
    assert!(store_start(u64::MAX / 8).is_err());
}

#[test]
fn many_writes_round_trip_per_bucket() {
    let writes: Vec<(u64, Vec<u8>)> = (0..20u64).map(|i| (i * 7 % 11, vec![i as u8; (i % 4) as usize])).collect();
    let sizes: Vec<u64> = writes.iter().map(|(_, v)| v.len() as u64).collect();
    let size = quack::calculate_store_size(3, &sizes).unwrap() as usize;
    let mut quack = Quack::initialize_assume_zeroed(vec![0u8; size], 3).unwrap();
    for (k, v) in &writes {
        quack.write(*k, v).unwrap();
    }
    assert_eq!(read_store_len(quack.data()).unwrap() as usize, size - 40);
    for k in 0..11u64 {
        let expected: Vec<&[u8]> = writes.iter().rev().filter(|(k2, _)| k2 % 3 == k % 3).map(|(_, v)| &v[..]).collect();
        assert_eq!(items(quack.read(k).unwrap()), expected);
    }
    let opt = quack.optimize(vec![0u8; size]).unwrap();
    for k in 0..3u64 {
        let mut before = items(quack.read(k).unwrap());
        let after = items(opt.read(k).unwrap());
        before.reverse();
        assert_eq!(after, before);
    }
}
