use fs_timeline::endian::{append_bytes, copy_range, get_be64, put_be64};
use fs_timeline::record::{WireRecord, FIELD_COUNT};

#[test]
fn big_endian_words() {
    let mut buf = vec![0xaa];
    put_be64(&mut buf, 0x0102_0304_0506_0708);
    put_be64(&mut buf, 0);
    put_be64(&mut buf, u64::MAX);
    put_be64(&mut buf, 258);
    assert_eq!(
        buf,
        vec![
            0xaa, 1, 2, 3, 4, 5, 6, 7, 8, 0, 0, 0, 0, 0, 0, 0, 0, 0xff, 0xff, 0xff, 0xff, 0xff,
            0xff, 0xff, 0xff, 0, 0, 0, 0, 0, 0, 1, 2
        ]
    );
    assert_eq!(get_be64(&buf, 1), 0x0102_0304_0506_0708);
    assert_eq!(get_be64(&buf, 9), 0);
    assert_eq!(get_be64(&buf, 17), u64::MAX);
    assert_eq!(get_be64(&buf, 25), 258);
    assert_eq!(get_be64(&buf, 0), 0xaa01_0203_0405_0607);
}

#[test]
fn bytes_are_copied_as_they_are() {
    let mut buf = vec![1, 2];
    append_bytes(&mut buf, &[3, 4, 5]);
    append_bytes(&mut buf, &[]);
    assert_eq!(buf, vec![1, 2, 3, 4, 5]);
    assert_eq!(copy_range(&buf, 1, 4), vec![2, 3, 4]);
    assert_eq!(copy_range(&buf, 5, 5), Vec::<u8>::new());
    assert_eq!(copy_range(&buf, 0, 5), buf);
}

#[test]
fn canonical_form_of_a_small_record() {
    let mut r = WireRecord::new(b"a".to_vec());
    r.size = Some(9);
    let mut expected = vec![0, 0, 0, 0, 0, 0, 0, 1, b'a'];
    expected.extend_from_slice(&[1, 0, 0, 0, 0, 0, 0, 0, 9]);
    expected.extend_from_slice(&[0; 9]);
    assert_eq!(r.to_bytes(), expected);
    assert_eq!(WireRecord::from_bytes(&expected), Some(r));
}

#[test]
fn canonical_form_of_a_full_record() {
    let r = WireRecord {
        path: vec![0xff, 0x00, b'/'],
        size: Some(1),
        mode: Some(-1),
        ino: Some(u64::MAX),
        dev: Some(i64::MIN),
        uid: Some(i64::MAX),
        gid: Some(0),
        atime_ns: Some(0x0102),
        mtime_ns: Some(-2),
        ctime_ns: Some(3),
        btime_ns: Some(-256),
    };
    let mut expected = vec![0, 0, 0, 0, 0, 0, 0, 3, 0xff, 0x00, b'/'];
    expected.extend_from_slice(&[1, 0, 0, 0, 0, 0, 0, 0, 1]);
    expected.extend_from_slice(&[1, 0xff, 0xff, 0xff, 0xff, 0xff, 0xff, 0xff, 0xff]);
    expected.extend_from_slice(&[1, 0xff, 0xff, 0xff, 0xff, 0xff, 0xff, 0xff, 0xff]);
    expected.extend_from_slice(&[1, 0x80, 0, 0, 0, 0, 0, 0, 0]);
    expected.extend_from_slice(&[1, 0x7f, 0xff, 0xff, 0xff, 0xff, 0xff, 0xff, 0xff]);
    expected.extend_from_slice(&[1, 0, 0, 0, 0, 0, 0, 0, 0]);
    expected.extend_from_slice(&[1, 0, 0, 0, 0, 0, 0, 1, 2]);
    expected.extend_from_slice(&[1, 0xff, 0xff, 0xff, 0xff, 0xff, 0xff, 0xff, 0xfe]);
    expected.extend_from_slice(&[1, 0, 0, 0, 0, 0, 0, 0, 3]);
    expected.extend_from_slice(&[1, 0xff, 0xff, 0xff, 0xff, 0xff, 0xff, 0xff, 0x00]);
    assert_eq!(expected.len(), 8 + 3 + 9 * FIELD_COUNT);
    assert_eq!(r.to_bytes(), expected);
    assert_eq!(WireRecord::from_bytes(&expected), Some(r.clone()));

    let mut buf = vec![7, 7];
    r.write_to(&mut buf);
    assert_eq!(&buf[..2], &[7, 7]);
    assert_eq!(&buf[2..], expected.as_slice());
}

#[test]
fn new_record_holds_the_path_and_nothing_else() {
    let r = WireRecord::new(b"/x".to_vec());
    assert_eq!(r.path, b"/x".to_vec());
    assert_eq!(r.size, None);
    assert_eq!(r.mode, None);
    assert_eq!(r.ino, None);
    assert_eq!(r.dev, None);
    assert_eq!(r.uid, None);
    assert_eq!(r.gid, None);
    assert_eq!(r.atime_ns, None);
    assert_eq!(r.mtime_ns, None);
    assert_eq!(r.ctime_ns, None);
    assert_eq!(r.btime_ns, None);
    assert_eq!(r.to_bytes().len(), 8 + 2 + FIELD_COUNT);
}

#[test]
fn only_the_canonical_form_is_a_record() {
    let mut r = WireRecord::new(b"path".to_vec());
    r.ino = Some(5);
    let good = r.to_bytes();
    assert_eq!(WireRecord::from_bytes(&good), Some(r));

    // Too short for the length of the path.
    assert_eq!(WireRecord::from_bytes(&[]), None);
    assert_eq!(WireRecord::from_bytes(&good[..7]), None);
    // The path is longer than what is there.
    let mut long = good.clone();
    long[7] = 200;
    assert_eq!(WireRecord::from_bytes(&long), None);
    long[0] = 0x80;
    assert_eq!(WireRecord::from_bytes(&long), None);
    // A field is cut short, or missing.
    assert_eq!(WireRecord::from_bytes(&good[..good.len() - 1]), None);
    assert_eq!(WireRecord::from_bytes(&good[..12]), None);
    // Something follows the last field.
    let mut trailing = good.clone();
    trailing.push(0);
    assert_eq!(WireRecord::from_bytes(&trailing), None);
    // A presence byte is neither 0 nor 1.
    let mut marked = good.clone();
    marked[12] = 2;
    assert_eq!(WireRecord::from_bytes(&marked), None);
    let n = good.len();
    let mut cut = good.clone();
    cut[n - 1] = 1;
    assert_eq!(WireRecord::from_bytes(&cut), None);
}

#[test]
fn every_accepted_form_is_written_back_unchanged() {
    let mut bytes = vec![0, 0, 0, 0, 0, 0, 0, 2, b'h', b'i'];
    for i in 0..FIELD_COUNT {
        if i % 2 == 0 {
            bytes.push(1);
            bytes.extend_from_slice(&[0xf0 + i as u8, 1, 2, 3, 4, 5, 6, i as u8]);
        } else {
            bytes.push(0);
        }
    }
    let r = WireRecord::from_bytes(&bytes).unwrap();
    assert_eq!(r.path, b"hi".to_vec());
    assert_eq!(r.size, Some(0xf001_0203_0405_0600));
    assert_eq!(r.mode, None);
    assert_eq!(r.ino, Some(0xf201_0203_0405_0602));
    assert_eq!(r.uid, Some(0xf401_0203_0405_0604u64 as i64));
    assert_eq!(r.to_bytes(), bytes);
}
