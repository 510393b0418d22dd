use fs_timeline::batch::{pack, Batcher};
use fs_timeline::codec::{
    batch_from, compress, decode, decode_batch, decompress, encode, round_trip,
};
use fs_timeline::error::EncodeError;
use fs_timeline::error::DecodeError;
use fs_timeline::frame::{unpack, write_frame};
use fs_timeline::record::WireRecord;

fn record(i: u64) -> WireRecord {
    let mut r = WireRecord::new(format!("/some/dir/entry-{}", i).into_bytes());
    r.size = Some(i * 7);
    r.mode = Some(0o100644);
    r.ino = if i % 2 == 0 { Some(i) } else { None };
    r.dev = Some(2049);
    r.uid = Some(0);
    r.gid = if i % 3 == 0 { Some(0) } else { None };
    r.atime_ns = Some(1_600_000_000_000_000_000 + i as i64);
    r.mtime_ns = Some(-(i as i64));
    r.ctime_ns = None;
    r.btime_ns = Some(i64::MIN + i as i64);
    r
}

fn records(n: u64) -> Vec<WireRecord> {
    (0..n).map(record).collect()
}

fn frame_len(r: &WireRecord) -> usize {
    let mut buf = Vec::new();
    write_frame(r, &mut buf);
    buf.len()
}

fn batches(records: &Vec<WireRecord>, bound: usize) -> Vec<Vec<u8>> {
    encode(records, bound).into_iter().map(Result::unwrap).collect()
}

fn decoded(batches: &Vec<Vec<u8>>) -> Vec<WireRecord> {
    decode(batches).into_iter().map(Result::unwrap).collect()
}

#[test]
fn decode_of_encode_is_the_input_for_every_bound() {
    let input = records(57);
    for bound in [0usize, 1, 2, 25, 26, 27, 100, 101, 500, 4096, 1 << 20, usize::MAX] {
        let batches = batches(&input, bound);
        assert_eq!(decoded(&batches), input, "bound {}", bound);
    }
}

#[test]
fn round_trip_reads_back_what_went_in() {
    let input = records(33);
    for bound in [0usize, 1, 99, 100, 1000, usize::MAX] {
        let back = round_trip(&input, bound).unwrap();
        let expected: Vec<Result<WireRecord, DecodeError>> = input.iter().cloned().map(Ok).collect();
        assert_eq!(back, expected, "bound {}", bound);
    }
    assert_eq!(round_trip(&Vec::new(), 10), Some(Vec::new()));
}

#[test]
fn every_payload_has_its_batch() {
    let input = records(25);
    for bound in [1usize, 200, 5000] {
        let payloads = pack(&input, bound);
        let outcomes = encode(&input, bound);
        assert_eq!(outcomes.len(), payloads.len());
        for (outcome, payload) in outcomes.iter().zip(payloads.iter()) {
            assert_eq!(outcome, &compress(payload));
            assert_eq!(decompress(outcome.as_ref().unwrap()), Ok(payload.clone()));
        }
    }
}

#[test]
fn empty_input_gives_no_batch_and_no_batch_gives_no_record() {
    assert!(encode(&Vec::new(), 100).is_empty());
    assert!(encode(&Vec::new(), 0).is_empty());
    assert!(pack(&Vec::new(), 100).is_empty());
    assert!(decode(&Vec::new()).is_empty());
}

#[test]
fn every_payload_but_the_last_reaches_the_bound_and_no_sooner() {
    let input = records(40);
    for bound in [1usize, 30, 64, 200, 1000] {
        let payloads = pack(&input, bound);
        let mut seen = 0;
        for (i, payload) in payloads.iter().enumerate() {
            let inside: Vec<WireRecord> = unpack(payload).into_iter().map(Result::unwrap).collect();
            assert!(!inside.is_empty());
            assert_eq!(inside.as_slice(), &input[seen..seen + inside.len()]);
            seen += inside.len();
            let last = frame_len(inside.last().unwrap());
            if i + 1 < payloads.len() {
                assert!(payload.len() >= bound);
            }
            assert!(payload.len() - last < bound || inside.len() == 1);
        }
        assert_eq!(seen, input.len());
    }
}

#[test]
fn exact_cut_points() {
    // Each of these records takes 8 + 8 + 1 + 9 + 9 = 35 bytes as a frame.
    let input: Vec<WireRecord> = (0..5u64)
        .map(|i| {
            let mut r = WireRecord::new(vec![b'a' + i as u8]);
            r.size = Some(i);
            r
        })
        .collect();
    assert_eq!(frame_len(&input[0]), 35);
    let sizes = |bound: usize| -> Vec<usize> {
        pack(&input, bound).iter().map(|p| p.len()).collect()
    };
    assert_eq!(sizes(0), vec![35, 35, 35, 35, 35]);
    assert_eq!(sizes(35), vec![35, 35, 35, 35, 35]);
    assert_eq!(sizes(36), vec![70, 70, 35]);
    assert_eq!(sizes(70), vec![70, 70, 35]);
    assert_eq!(sizes(71), vec![105, 70]);
    assert_eq!(sizes(175), vec![175]);
    assert_eq!(sizes(176), vec![175]);
}

#[test]
fn oversized_record_travels_alone_and_whole() {
    let mut big = WireRecord::new(vec![b'x'; 5000]);
    big.size = Some(1);
    let input = vec![record(1), big.clone(), record(2)];
    assert_eq!(frame_len(&record(1)), 99);
    let payloads = pack(&input, 99);
    assert_eq!(payloads.len(), 3);
    assert_eq!(payloads[1].len(), frame_len(&big));
    assert!(payloads[1].len() > 5000);
    let batches = batches(&input, 99);
    assert_eq!(batches.len(), 3);
    assert_eq!(decode_batch(&batches[1]), vec![Ok(big.clone())]);
    assert_eq!(decoded(&batches), input);

    // Behind records that are held back it fills their payload, uncut.
    let payloads = pack(&input, 100);
    assert_eq!(payloads.len(), 2);
    assert_eq!(payloads[0].len(), 99 + frame_len(&big));
    assert_eq!(unpack(&payloads[0]), vec![Ok(record(1)), Ok(big)]);
}

#[test]
fn batcher_seals_at_the_bound_and_flushes_the_rest() {
    let mut batcher = Batcher::new(55);
    assert_eq!(batcher.pending(), 0);
    assert_eq!(batcher.flush(), None);
    let a = WireRecord::new(b"a".to_vec());
    let b = WireRecord::new(b"bb".to_vec());
    assert_eq!(batcher.push(&a), None);
    assert_eq!(batcher.pending(), 27);
    let sealed = batcher.push(&b).unwrap();
    assert_eq!(sealed.len(), 27 + 28);
    assert_eq!(batcher.pending(), 0);
    assert_eq!(unpack(&sealed), vec![Ok(a.clone()), Ok(b)]);
    assert_eq!(batcher.push(&a), None);
    let rest = batcher.flush().unwrap();
    assert_eq!(unpack(&rest), vec![Ok(a)]);
    assert_eq!(batcher.flush(), None);
}

#[test]
fn a_batch_is_a_gzip_stream_of_its_payload() {
    let payload = pack(&records(20), usize::MAX).remove(0);
    let batch = compress(&payload).unwrap();
    assert_eq!(&batch[..3], &[0x1f, 0x8b, 0x08]);
    assert_ne!(batch, payload);
    assert!(batch.len() < payload.len());
    assert_eq!(decompress(&batch), Ok(payload.clone()));
    assert_eq!(compress(&payload).unwrap(), batch);
    assert_eq!(decompress(&compress(&[]).unwrap()), Ok(vec![]));
}

#[test]
fn the_report_of_the_compressor_becomes_the_batch_or_the_error() {
    assert_eq!(batch_from(Ok(vec![0x1f, 0x8b, 7])), Ok(vec![0x1f, 0x8b, 7]));
    assert_eq!(batch_from(Ok(Vec::new())), Ok(Vec::new()));
    let failure = std::io::Error::new(std::io::ErrorKind::InvalidInput, "corrupt deflate stream");
    assert_eq!(batch_from(Err(failure)), Err(EncodeError::Compression));
    let failure = std::io::Error::from(std::io::ErrorKind::WriteZero);
    assert_eq!(batch_from(Err(failure)), Err(EncodeError::Compression));
}

#[test]
fn decompress_reads_a_stream_made_elsewhere() {
    // `printf hello | gzip -n`, with the header's flag bytes zeroed.
    let stream: [u8; 25] = [
        0x1f, 0x8b, 0x08, 0x00, 0x00, 0x00, 0x00, 0x00, 0x00, 0x03, 0xcb, 0x48, 0xcd, 0xc9, 0xc9,
        0x07, 0x00, 0x86, 0xa6, 0x10, 0x36, 0x05, 0x00, 0x00, 0x00,
    ];
    assert_eq!(decompress(&stream), Ok(b"hello".to_vec()));
}

#[test]
fn what_is_no_gzip_stream_is_corrupt() {
    assert_eq!(decompress(&[]), Err(DecodeError::Corrupt));
    assert_eq!(decompress(b"plainly not compressed"), Err(DecodeError::Corrupt));
    let batch = compress(b"some payload").unwrap();
    assert_eq!(decompress(&batch[..batch.len() - 1]), Err(DecodeError::Corrupt));
    assert_eq!(decode_batch(&batch[..10]), vec![Err(DecodeError::Corrupt)]);
}

#[test]
fn a_damaged_batch_costs_its_own_records_only() {
    let input = records(9);
    let mut batches = batches(&input, 150);
    assert!(batches.len() >= 3);
    let per_batch: Vec<usize> = batches.iter().map(|b| decode_batch(b).len()).collect();
    batches[1].truncate(12);
    let out = decode(&batches);
    let mut expected: Vec<Result<WireRecord, DecodeError>> = Vec::new();
    let mut seen = 0;
    for (i, n) in per_batch.iter().enumerate() {
        if i == 1 {
            expected.push(Err(DecodeError::Corrupt));
        } else {
            expected.extend(input[seen..seen + n].iter().cloned().map(Ok));
        }
        seen += n;
    }
    assert_eq!(out, expected);
}

#[test]
fn a_fault_inside_a_payload_ends_the_reading_of_that_payload() {
    let a = record(1);
    let b = record(2);
    let c = record(3);
    let mut payload = Vec::new();
    write_frame(&a, &mut payload);
    let first = payload.len();
    write_frame(&b, &mut payload);
    let second = payload.len();
    write_frame(&c, &mut payload);
    assert_eq!(unpack(&payload), vec![Ok(a.clone()), Ok(b.clone()), Ok(c.clone())]);

    // Fewer than eight bytes where a prefix must stand.
    assert_eq!(
        unpack(&payload[..second + 5]),
        vec![Ok(a.clone()), Ok(b.clone()), Err(DecodeError::TruncatedPrefix)]
    );
    // A prefix that reads past the end.
    assert_eq!(
        unpack(&payload[..payload.len() - 1]),
        vec![Ok(a.clone()), Ok(b.clone()), Err(DecodeError::LengthOverrun)]
    );
    let mut long = payload.clone();
    long[first] = 0xff;
    assert_eq!(unpack(&long), vec![Ok(a.clone()), Err(DecodeError::LengthOverrun)]);
    // A prefix that marks off something that is no record: the third record
    // stays unread although its frame is whole.
    let mut bad = payload.clone();
    bad[first + 8 + 8 + b.path.len()] = 2;
    assert_eq!(unpack(&bad), vec![Ok(a.clone()), Err(DecodeError::MalformedRecord)]);
    // The same through a batch, with a whole batch behind it.
    let batches = vec![compress(&bad).unwrap(), compress(&payload[..first]).unwrap()];
    assert_eq!(
        decode(&batches),
        vec![Ok(a.clone()), Err(DecodeError::MalformedRecord), Ok(a)]
    );
}

#[test]
fn empty_payload_holds_no_record() {
    assert_eq!(unpack(&[]), vec![]);
    assert_eq!(decode_batch(&compress(&[]).unwrap()), vec![]);
    assert_eq!(unpack(&[0]), vec![Err(DecodeError::TruncatedPrefix)]);
    assert_eq!(unpack(&[0; 8]), vec![Err(DecodeError::MalformedRecord)]);
}

#[test]
fn absent_is_not_zero() {
    let mut zero = WireRecord::new(Vec::new());
    zero.size = Some(0);
    zero.uid = Some(0);
    zero.mtime_ns = Some(0);
    let absent = WireRecord::new(Vec::new());
    let out = decoded(&batches(&vec![zero.clone(), absent.clone()], 1 << 20));
    assert_eq!(out, vec![zero.clone(), absent.clone()]);
    assert_eq!(out[0].size, Some(0));
    assert_eq!(out[1].size, None);
    assert_ne!(zero.to_bytes(), absent.to_bytes());
}
