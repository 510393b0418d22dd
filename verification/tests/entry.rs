use fs_timeline::digest::digest;
use fs_timeline::entry::{nanos, Entry, EntryKind, Metadata, Timestamp, UnixMetadata, NANOS_PER_SEC};
use fs_timeline::export::Item;
use fs_timeline::record::WireRecord;

fn at(secs: u64, nanos: u32) -> Timestamp {
    Timestamp { before_epoch: false, secs, nanos }
}

#[test]
fn nanoseconds_since_the_epoch() {
    assert_eq!(NANOS_PER_SEC, 1_000_000_000);
    assert_eq!(nanos(at(0, 0)), Some(0));
    assert_eq!(nanos(at(1, 5)), Some(1_000_000_005));
    assert_eq!(nanos(at(1_600_000_000, 123_456_789)), Some(1_600_000_000_123_456_789));
    assert_eq!(nanos(at(0, 999_999_999)), Some(999_999_999));
    assert_eq!(nanos(at(0, u32::MAX)), Some(4_294_967_295));
}

#[test]
fn timestamps_out_of_range_have_no_nanoseconds() {
    // i64::MAX is 9_223_372_036 s and 854_775_807 ns.
    assert_eq!(nanos(at(9_223_372_036, 854_775_807)), Some(i64::MAX));
    assert_eq!(nanos(at(9_223_372_036, 854_775_808)), None);
    assert_eq!(nanos(at(9_223_372_037, 0)), None);
    assert_eq!(nanos(at(18_446_744_073, 709_551_615)), None);
    assert_eq!(nanos(at(18_446_744_074, 0)), None);
    assert_eq!(nanos(at(u64::MAX, 0)), None);
    assert_eq!(nanos(at(u64::MAX, u32::MAX)), None);
}

#[test]
fn timestamps_before_the_epoch_have_no_nanoseconds() {
    assert_eq!(nanos(Timestamp { before_epoch: true, secs: 1, nanos: 0 }), None);
    assert_eq!(nanos(Timestamp { before_epoch: true, secs: 0, nanos: 1 }), None);
}

#[test]
fn posix_times_become_distances_from_the_epoch() {
    let t = |before_epoch, secs, nanos| Timestamp { before_epoch, secs, nanos };
    assert_eq!(Timestamp::from_unix(0, 0), t(false, 0, 0));
    assert_eq!(Timestamp::from_unix(1, 5), t(false, 1, 5));
    assert_eq!(Timestamp::from_unix(5, -1), t(false, 4, 999_999_999));
    assert_eq!(Timestamp::from_unix(0, 2_000_000_001), t(false, 2, 1));
    assert_eq!(Timestamp::from_unix(-1, 0), t(true, 1, 0));
    assert_eq!(Timestamp::from_unix(-1, 500_000_000), t(true, 0, 500_000_000));
    assert_eq!(Timestamp::from_unix(-1, 1_000_000_000), t(false, 0, 0));
    assert_eq!(Timestamp::from_unix(0, -1), t(true, 0, 1));
    assert_eq!(Timestamp::from_unix(i64::MIN, 0), t(true, 9_223_372_036_854_775_808, 0));
    assert_eq!(
        Timestamp::from_unix(i64::MAX, 999_999_999),
        t(false, 9_223_372_036_854_775_807, 999_999_999)
    );
    assert_eq!(Timestamp::from_unix(0, i64::MAX), t(false, 9_223_372_036, 854_775_807));
    assert_eq!(Timestamp::from_unix(0, i64::MIN), t(true, 9_223_372_036, 854_775_808));
    assert_eq!(nanos(Timestamp::from_unix(1_600_000_000, 7)), Some(1_600_000_000_000_000_007));
    assert_eq!(nanos(Timestamp::from_unix(-1, 999_999_999)), None);
}

#[test]
fn symbolic_link_is_a_kind_of_its_own() {
    assert_eq!(EntryKind::classify(true, false, false), EntryKind::Symlink);
    assert_eq!(EntryKind::classify(true, true, false), EntryKind::Symlink);
    assert_eq!(EntryKind::classify(true, true, true), EntryKind::Symlink);
    assert_eq!(EntryKind::classify(false, true, false), EntryKind::Directory);
    assert_eq!(EntryKind::classify(false, true, true), EntryKind::Directory);
    assert_eq!(EntryKind::classify(false, false, true), EntryKind::File);
    assert_eq!(EntryKind::classify(false, false, false), EntryKind::Other);
}

#[test]
fn posix_entry_becomes_a_full_record() {
    let entry = Entry {
        path: vec![b'/', 0xfe, b'a'],
        metadata: Metadata {
            kind: EntryKind::File,
            len: 9,
            accessed: Some(at(10, 1)),
            modified: Some(at(20, 2)),
            created: Some(at(30, 3)),
            unix: Some(UnixMetadata {
                mode: 0o100755,
                ino: 77,
                dev: 2050,
                uid: u32::MAX,
                gid: 5,
                changed: at(40, 4),
            }),
        },
    };
    let expected = WireRecord {
        path: vec![b'/', 0xfe, b'a'],
        size: Some(9),
        mode: Some(0o100755),
        ino: Some(77),
        dev: Some(2050),
        uid: Some(4_294_967_295),
        gid: Some(5),
        atime_ns: Some(10_000_000_001),
        mtime_ns: Some(20_000_000_002),
        ctime_ns: Some(40_000_000_004),
        btime_ns: Some(30_000_000_003),
    };
    assert_eq!(WireRecord::from_lossy(entry), expected);
}

#[test]
fn entry_without_posix_attributes_has_none_in_its_record() {
    let entry = Entry {
        path: b"C:\\x".to_vec(),
        metadata: Metadata {
            kind: EntryKind::Directory,
            len: 0,
            accessed: None,
            modified: Some(at(1, 0)),
            created: Some(at(2, 0)),
            unix: None,
        },
    };
    let mut expected = WireRecord::new(b"C:\\x".to_vec());
    expected.size = Some(0);
    expected.mtime_ns = Some(1_000_000_000);
    expected.btime_ns = Some(2_000_000_000);
    assert_eq!(WireRecord::from_lossy(entry), expected);
}

#[test]
fn what_does_not_fit_is_left_out_and_the_rest_kept() {
    let entry = Entry {
        path: b"/p".to_vec(),
        metadata: Metadata {
            kind: EntryKind::Other,
            len: u64::MAX,
            accessed: Some(Timestamp { before_epoch: true, secs: 5, nanos: 0 }),
            modified: Some(at(u64::MAX, 0)),
            created: Some(at(3, 7)),
            unix: Some(UnixMetadata {
                mode: u32::MAX,
                ino: u64::MAX,
                dev: 0x8000_0000_0000_0000,
                uid: 0,
                gid: 0,
                changed: at(9_223_372_037, 0),
            }),
        },
    };
    let r = WireRecord::from_lossy(entry);
    assert_eq!(r.size, Some(u64::MAX));
    assert_eq!(r.atime_ns, None);
    assert_eq!(r.mtime_ns, None);
    assert_eq!(r.btime_ns, Some(3_000_000_007));
    assert_eq!(r.mode, Some(4_294_967_295));
    assert_eq!(r.ino, Some(u64::MAX));
    assert_eq!(r.dev, None);
    assert_eq!(r.uid, Some(0));
    assert_eq!(r.gid, Some(0));
    assert_eq!(r.ctime_ns, None);

    let mut largest = Entry {
        path: Vec::new(),
        metadata: Metadata {
            kind: EntryKind::File,
            len: 0,
            accessed: None,
            modified: None,
            created: None,
            unix: Some(UnixMetadata {
                mode: 0,
                ino: 0,
                dev: 0x7fff_ffff_ffff_ffff,
                uid: 0,
                gid: 0,
                changed: at(0, 0),
            }),
        },
    };
    assert_eq!(WireRecord::from_lossy(largest.clone()).dev, Some(i64::MAX));
    largest.metadata.unix = None;
    assert_eq!(WireRecord::from_lossy(largest).dev, None);
}

fn hex(bytes: &[u8]) -> String {
    bytes.iter().map(|b| format!("{:02x}", b)).collect()
}

#[test]
fn digest_is_sha_256() {
    assert_eq!(
        hex(&digest(b"")),
        "e3b0c44298fc1c149afbf4c8996fb92427ae41e4649b934ca495991b7852b855"
    );
    assert_eq!(
        hex(&digest(b"abc")),
        "ba7816bf8f01cfea414140de5dae2223b00361a396177a9cb410ff61f20015ad"
    );
    assert_eq!(Item::of_blob(b"abc").blob_sha256(), digest(b"abc"));
}

#[test]
fn same_bytes_same_digest_and_one_bit_changes_it() {
    let blob: Vec<u8> = (0..1000u32).map(|i| (i * 31 % 251) as u8).collect();
    assert_eq!(digest(&blob), digest(&blob.clone()));
    for at in [0usize, 1, 499, 999] {
        for bit in 0..8 {
            let mut other = blob.clone();
            other[at] ^= 1 << bit;
            assert_ne!(digest(&other), digest(&blob));
        }
    }
}
