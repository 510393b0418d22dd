//! Wire records and their canonical binary form.
//!
//! A record is written as the length of its path in eight big-endian bytes,
//! the path, and then its ten optional numbers in a fixed order. An absent
//! number is the single byte 0; a present one is the byte 1 followed by its
//! eight big-endian bytes (two's complement for the signed ones). Every record
//! has exactly one such form and nothing else is accepted as a record, so a
//! present zero and an absent field never read alike.

use crate::endian::{
    append_bytes, be64, be64_value, copy_range, get_be64, lemma_be64_of_be64_value,
    lemma_be64_value_of_be64, put_be64,
};
use vstd::prelude::*;

verus! {

/// What is shipped for one filesystem entry. Only the path is always there.
#[derive(Debug, Clone, PartialEq, Eq)]
pub struct WireRecord {
    /// The path, byte for byte as the operating system gave it.
    pub path: Vec<u8>,
    /// Size in bytes.
    pub size: Option<u64>,
    /// File type and permission bits.
    pub mode: Option<i64>,
    /// Inode number.
    pub ino: Option<u64>,
    /// Number of the device that holds the entry.
    pub dev: Option<i64>,
    /// Owning user.
    pub uid: Option<i64>,
    /// Owning group.
    pub gid: Option<i64>,
    /// Last access, in nanoseconds since the epoch.
    pub atime_ns: Option<i64>,
    /// Last modification, in nanoseconds since the epoch.
    pub mtime_ns: Option<i64>,
    /// Last status change, in nanoseconds since the epoch.
    pub ctime_ns: Option<i64>,
    /// Creation, in nanoseconds since the epoch.
    pub btime_ns: Option<i64>,
}

/// The mathematical value of a [`WireRecord`].
pub struct RecordView {
    pub path: Seq<u8>,
    pub size: Option<u64>,
    pub mode: Option<i64>,
    pub ino: Option<u64>,
    pub dev: Option<i64>,
    pub uid: Option<i64>,
    pub gid: Option<i64>,
    pub atime_ns: Option<i64>,
    pub mtime_ns: Option<i64>,
    pub ctime_ns: Option<i64>,
    pub btime_ns: Option<i64>,
}

impl View for WireRecord {
    type V = RecordView;

    open spec fn view(&self) -> RecordView {
        RecordView {
            path: self.path@,
            size: self.size,
            mode: self.mode,
            ino: self.ino,
            dev: self.dev,
            uid: self.uid,
            gid: self.gid,
            atime_ns: self.atime_ns,
            mtime_ns: self.mtime_ns,
            ctime_ns: self.ctime_ns,
            btime_ns: self.btime_ns,
        }
    }
}

/// How many optional numbers follow the path.
pub const FIELD_COUNT: usize = 10;

/// The 64 bits of `v` in two's complement, read as an unsigned number.
pub open spec fn i64_bits(v: i64) -> u64 {
    if v >= 0 {
        v as u64
    } else {
        (v + 0x1_0000_0000_0000_0000) as u64
    }
}

/// The signed number whose two's complement bits are `u`.
pub open spec fn bits_i64(u: u64) -> i64 {
    if u < 0x8000_0000_0000_0000 {
        u as i64
    } else {
        (u - 0x1_0000_0000_0000_0000) as i64
    }
}

pub open spec fn signed_bits(o: Option<i64>) -> Option<u64> {
    match o {
        None => None,
        Some(v) => Some(i64_bits(v)),
    }
}

pub open spec fn bits_signed(o: Option<u64>) -> Option<i64> {
    match o {
        None => None,
        Some(u) => Some(bits_i64(u)),
    }
}

impl RecordView {
    /// A record can be written if the length of its path fits the prefix.
    pub open spec fn wf(self) -> bool {
        self.path.len() <= u64::MAX
    }

    /// The optional numbers in the order in which they are written.
    pub open spec fn fields(self) -> Seq<Option<u64>> {
        seq![
            self.size,
            signed_bits(self.mode),
            self.ino,
            signed_bits(self.dev),
            signed_bits(self.uid),
            signed_bits(self.gid),
            signed_bits(self.atime_ns),
            signed_bits(self.mtime_ns),
            signed_bits(self.ctime_ns),
            signed_bits(self.btime_ns),
        ]
    }

    /// The record with the given path and numbers; inverse of [`Self::fields`].
    pub open spec fn from_parts(path: Seq<u8>, fs: Seq<Option<u64>>) -> RecordView
        recommends
            fs.len() == FIELD_COUNT,
    {
        RecordView {
            path,
            size: fs[0],
            mode: bits_signed(fs[1]),
            ino: fs[2],
            dev: bits_signed(fs[3]),
            uid: bits_signed(fs[4]),
            gid: bits_signed(fs[5]),
            atime_ns: bits_signed(fs[6]),
            mtime_ns: bits_signed(fs[7]),
            ctime_ns: bits_signed(fs[8]),
            btime_ns: bits_signed(fs[9]),
        }
    }
}

/// One optional number on the wire.
pub open spec fn optional_bytes(o: Option<u64>) -> Seq<u8> {
    match o {
        None => seq![0u8],
        Some(v) => seq![1u8] + be64(v),
    }
}

/// Several optional numbers on the wire, one after the other.
pub open spec fn fields_bytes(fs: Seq<Option<u64>>) -> Seq<u8>
    decreases fs.len(),
{
    if fs.len() == 0 {
        Seq::empty()
    } else {
        fields_bytes(fs.drop_last()) + optional_bytes(fs.last())
    }
}

/// The canonical binary form of a record.
pub open spec fn record_bytes(r: RecordView) -> Seq<u8> {
    be64(r.path.len() as u64) + r.path + fields_bytes(r.fields())
}

/// Reads one optional number at `pos`: the number and the position behind
/// it, or `None` where the bytes at `pos` are no optional number.
pub open spec fn parse_optional(b: Seq<u8>, pos: int) -> Option<(Option<u64>, int)> {
    if pos < 0 || pos >= b.len() {
        None
    } else if b[pos] == 0 {
        Some((None, pos + 1))
    } else if b[pos] == 1 && pos + 9 <= b.len() {
        Some((Some(be64_value(b.subrange(pos + 1, pos + 9)) as u64), pos + 9))
    } else {
        None
    }
}

/// Reads `n` optional numbers from `pos` on.
pub open spec fn parse_fields(b: Seq<u8>, pos: int, n: nat) -> Option<(Seq<Option<u64>>, int)>
    decreases n,
{
    if n == 0 {
        Some((Seq::empty(), pos))
    } else {
        match parse_fields(b, pos, (n - 1) as nat) {
            None => None,
            Some((fs, p)) => match parse_optional(b, p) {
                None => None,
                Some((f, q)) => Some((fs.push(f), q)),
            },
        }
    }
}

/// Reads a record that fills `b` from the first byte to the last.
pub open spec fn parse_record(b: Seq<u8>) -> Option<RecordView> {
    if b.len() < 8 {
        None
    } else {
        let n = be64_value(b.subrange(0, 8));
        if n > b.len() - 8 {
            None
        } else {
            match parse_fields(b, 8 + n, FIELD_COUNT as nat) {
                None => None,
                Some((fs, end)) => if end == b.len() {
                    Some(RecordView::from_parts(b.subrange(8, 8 + n), fs))
                } else {
                    None
                },
            }
        }
    }
}

pub proof fn lemma_bits_round_trip(v: i64, u: u64)
    ensures
        bits_i64(i64_bits(v)) == v,
        i64_bits(bits_i64(u)) == u,
{
}

/// Written fields take between one and nine bytes each.
pub proof fn lemma_fields_bytes_len(fs: Seq<Option<u64>>)
    ensures
        fs.len() <= fields_bytes(fs).len() <= 9 * fs.len(),
    decreases fs.len(),
{
    if fs.len() > 0 {
        lemma_fields_bytes_len(fs.drop_last());
    }
}

/// A record takes at least eight bytes plus one per field.
pub proof fn lemma_record_bytes_len(r: RecordView)
    ensures
        record_bytes(r).len() == 8 + r.path.len() + fields_bytes(r.fields()).len(),
        8 + r.path.len() + FIELD_COUNT <= record_bytes(r).len() <= 8 + r.path.len() + 9
            * FIELD_COUNT,
{
    lemma_fields_bytes_len(r.fields());
}

/// Reading an optional number where one was written gives it back, whatever
/// stands before and behind.
pub proof fn lemma_parse_optional_of_bytes(pre: Seq<u8>, o: Option<u64>, post: Seq<u8>)
    ensures
        parse_optional(pre + optional_bytes(o) + post, pre.len() as int) == Some(
            (o, (pre.len() + optional_bytes(o).len()) as int),
        ),
{
    let b = pre + optional_bytes(o) + post;
    let pos = pre.len() as int;
    match o {
        None => {
            assert(b[pos] == 0u8);
        },
        Some(v) => {
            assert(b[pos] == 1u8);
            assert(b.subrange(pos + 1, pos + 9) =~= be64(v));
            lemma_be64_value_of_be64(v);
        },
    }
}

/// Reading as many optional numbers as were written gives them back.
pub proof fn lemma_parse_fields_of_bytes(pre: Seq<u8>, fs: Seq<Option<u64>>, post: Seq<u8>)
    ensures
        parse_fields(pre + fields_bytes(fs) + post, pre.len() as int, fs.len()) == Some(
            (fs, (pre.len() + fields_bytes(fs).len()) as int),
        ),
    decreases fs.len(),
{
    let b = pre + fields_bytes(fs) + post;
    if fs.len() == 0 {
        assert(parse_fields(b, pre.len() as int, 0).unwrap().0 =~= fs);
    } else {
        let init = fs.drop_last();
        let last = optional_bytes(fs.last());
        assert(b =~= pre + fields_bytes(init) + (last + post));
        lemma_parse_fields_of_bytes(pre, init, last + post);
        let mid = pre + fields_bytes(init);
        assert(b =~= mid + last + post);
        lemma_parse_optional_of_bytes(mid, fs.last(), post);
        assert(init.push(fs.last()) =~= fs);
    }
}

/// Reading the canonical form of a record gives the record back.
pub proof fn lemma_parse_of_record_bytes(r: RecordView)
    requires
        r.wf(),
    ensures
        parse_record(record_bytes(r)) == Some(r),
{
    let b = record_bytes(r);
    let head = be64(r.path.len() as u64);
    lemma_be64_value_of_be64(r.path.len() as u64);
    assert(b.subrange(0, 8) =~= head);
    let n = r.path.len() as int;
    assert(b.subrange(8, 8 + n) =~= r.path);
    assert((head + r.path).len() == 8 + n);
    assert(b =~= (head + r.path) + fields_bytes(r.fields()) + Seq::<u8>::empty());
    lemma_parse_fields_of_bytes(head + r.path, r.fields(), Seq::empty());
    lemma_fields_bytes_len(r.fields());
    let fs = r.fields();
    assert(bits_signed(fs[1]) == r.mode);
    assert(bits_signed(fs[3]) == r.dev);
    assert(bits_signed(fs[4]) == r.uid);
    assert(bits_signed(fs[5]) == r.gid);
    assert(bits_signed(fs[6]) == r.atime_ns);
    assert(bits_signed(fs[7]) == r.mtime_ns);
    assert(bits_signed(fs[8]) == r.ctime_ns);
    assert(bits_signed(fs[9]) == r.btime_ns);
}

/// What [`parse_optional`] accepts is the written form of what it returns.
pub proof fn lemma_optional_bytes_of_parse(b: Seq<u8>, pos: int)
    requires
        parse_optional(b, pos) is Some,
    ensures
        ({
            let (o, q) = parse_optional(b, pos).unwrap();
            0 <= pos < q <= b.len() && b.subrange(pos, q) == optional_bytes(o)
        }),
{
    let (o, q) = parse_optional(b, pos).unwrap();
    if b[pos] == 0 {
        assert(b.subrange(pos, q) =~= optional_bytes(o));
    } else {
        let word = b.subrange(pos + 1, pos + 9);
        lemma_be64_of_be64_value(word);
        assert(b.subrange(pos, q) =~= seq![1u8] + word);
    }
}

/// What [`parse_fields`] accepts is the written form of what it returns.
pub proof fn lemma_fields_bytes_of_parse(b: Seq<u8>, pos: int, n: nat)
    requires
        0 <= pos <= b.len(),
        parse_fields(b, pos, n) is Some,
    ensures
        ({
            let (fs, end) = parse_fields(b, pos, n).unwrap();
            pos <= end <= b.len() && fs.len() == n && b.subrange(pos, end) == fields_bytes(fs)
        }),
    decreases n,
{
    let (fs, end) = parse_fields(b, pos, n).unwrap();
    if n == 0 {
        assert(b.subrange(pos, end) =~= fields_bytes(fs));
    } else {
        lemma_fields_bytes_of_parse(b, pos, (n - 1) as nat);
        let (init, p) = parse_fields(b, pos, (n - 1) as nat).unwrap();
        lemma_optional_bytes_of_parse(b, p);
        assert(fs.drop_last() =~= init);
        assert(b.subrange(pos, end) =~= b.subrange(pos, p) + b.subrange(p, end));
    }
}

/// Only canonical forms are read as records: what [`parse_record`] accepts
/// is the written form of the record that it returns.
pub proof fn lemma_record_bytes_of_parse(b: Seq<u8>)
    requires
        parse_record(b) is Some,
    ensures
        parse_record(b).unwrap().wf(),
        record_bytes(parse_record(b).unwrap()) == b,
{
    let r = parse_record(b).unwrap();
    let head = b.subrange(0, 8);
    let n = be64_value(head);
    lemma_be64_of_be64_value(head);
    lemma_fields_bytes_of_parse(b, 8 + n, FIELD_COUNT as nat);
    let (fs, end) = parse_fields(b, 8 + n, FIELD_COUNT as nat).unwrap();
    assert forall|i: int| 0 <= i < 10 implies #[trigger] r.fields()[i] == fs[i] by {
        lemma_bits_round_trip(0, fs[i].unwrap_or(0));
    }
    assert(r.fields() =~= fs);
    assert(b =~= head + b.subrange(8, 8 + n) + b.subrange(8 + n, end));
}

pub(crate) fn to_bits(v: i64) -> (u: u64)
    ensures
        u == i64_bits(v),
{
    if v >= 0 {
        v as u64
    } else {
        (((v + i64::MAX) + 1) as u64) + 0x8000_0000_0000_0000
    }
}

fn from_bits(u: u64) -> (v: i64)
    ensures
        v == bits_i64(u),
{
    if u < 0x8000_0000_0000_0000 {
        u as i64
    } else {
        ((u - 0x8000_0000_0000_0000) as i64) + i64::MIN
    }
}

fn optional_to_bits(o: Option<i64>) -> (r: Option<u64>)
    ensures
        r == signed_bits(o),
{
    match o {
        None => None,
        Some(v) => Some(to_bits(v)),
    }
}

fn optional_from_bits(o: Option<u64>) -> (r: Option<i64>)
    ensures
        r == bits_signed(o),
{
    match o {
        None => None,
        Some(u) => Some(from_bits(u)),
    }
}

fn put_optional(buf: &mut Vec<u8>, o: Option<u64>)
    ensures
        final(buf)@ == old(buf)@ + optional_bytes(o),
{
    match o {
        None => {
            buf.push(0);
            assert(buf@ =~= old(buf)@ + optional_bytes(o));
        },
        Some(v) => {
            buf.push(1);
            put_be64(buf, v);
            assert(buf@ =~= old(buf)@ + optional_bytes(o));
        },
    }
}

fn get_optional(data: &[u8], pos: usize) -> (r: Option<(Option<u64>, usize)>)
    requires
        pos <= data@.len(),
    ensures
        match r {
            Some((o, q)) => parse_optional(data@, pos as int) == Some((o, q as int)),
            None => parse_optional(data@, pos as int) is None,
        },
{
    if pos >= data.len() {
        None
    } else if data[pos] == 0 {
        Some((None, pos + 1))
    } else if data[pos] == 1 && data.len() - pos >= 9 {
        let v: u64 = get_be64(data, pos + 1);
        Some((Some(v), pos + 9))
    } else {
        None
    }
}

impl WireRecord {
    /// A record that holds the path and nothing else.
    pub fn new(path: Vec<u8>) -> (r: WireRecord)
        ensures
            r@ == RecordView::from_parts(path@, Seq::new(FIELD_COUNT as nat, |i: int| None)),
    {
        WireRecord {
            path,
            size: None,
            mode: None,
            ino: None,
            dev: None,
            uid: None,
            gid: None,
            atime_ns: None,
            mtime_ns: None,
            ctime_ns: None,
            btime_ns: None,
        }
    }

    fn fields(&self) -> (fs: Vec<Option<u64>>)
        ensures
            fs@ == self@.fields(),
    {
        let mut fs: Vec<Option<u64>> = Vec::new();
        fs.push(self.size);
        fs.push(optional_to_bits(self.mode));
        fs.push(self.ino);
        fs.push(optional_to_bits(self.dev));
        fs.push(optional_to_bits(self.uid));
        fs.push(optional_to_bits(self.gid));
        fs.push(optional_to_bits(self.atime_ns));
        fs.push(optional_to_bits(self.mtime_ns));
        fs.push(optional_to_bits(self.ctime_ns));
        fs.push(optional_to_bits(self.btime_ns));
        assert(fs@ =~= self@.fields());
        fs
    }

    /// Appends the canonical form of the record to `buf`.
    pub fn write_to(&self, buf: &mut Vec<u8>)
        ensures
            final(buf)@ == old(buf)@ + record_bytes(self@),
    {
        put_be64(buf, self.path.len() as u64);
        append_bytes(buf, self.path.as_slice());
        let fs = self.fields();
        let ghost base = buf@;
        let mut i: usize = 0;
        while i < fs.len()
            invariant
                i <= fs@.len(),
                buf@ == base + fields_bytes(fs@.take(i as int)),
            decreases fs@.len() - i,
        {
            put_optional(buf, fs[i]);
            proof {
                assert(fs@.take(i + 1).drop_last() =~= fs@.take(i as int));
                assert(buf@ =~= base + fields_bytes(fs@.take(i + 1)));
            }
            i += 1;
        }
        proof {
            assert(fs@.take(fs@.len() as int) =~= fs@);
            assert(buf@ =~= old(buf)@ + record_bytes(self@));
        }
    }

    /// The canonical form of the record.
    pub fn to_bytes(&self) -> (out: Vec<u8>)
        ensures
            out@ == record_bytes(self@),
    {
        let mut out: Vec<u8> = Vec::new();
        self.write_to(&mut out);
        assert(out@ =~= record_bytes(self@));
        out
    }

    /// Reads a record that fills `data` from the first byte to the last.
    /// Anything but the canonical form of a record is turned down.
    pub fn from_bytes(data: &[u8]) -> (r: Option<WireRecord>)
        ensures
            match r {
                Some(record) => parse_record(data@) == Some(record@),
                None => parse_record(data@) is None,
            },
    {
        if data.len() < 8 {
            return None;
        }
        let n: u64 = get_be64(data, 0);
        if n > (data.len() - 8) as u64 {
            return None;
        }
        let start: usize = 8 + n as usize;
        let path = copy_range(data, 8, start);
        let mut fs: Vec<Option<u64>> = Vec::new();
        let mut pos: usize = start;
        let mut i: usize = 0;
        while i < FIELD_COUNT
            invariant
                i <= FIELD_COUNT,
                fs@.len() == i,
                data@.len() >= 8,
                start == 8 + be64_value(data@.subrange(0, 8)),
                start <= pos <= data@.len(),
                parse_fields(data@, start as int, i as nat) == Some((fs@, pos as int)),
            decreases FIELD_COUNT - i,
        {
            match get_optional(data, pos) {
                None => {
                    proof {
                        lemma_parse_fields_fails_on(data@, start as int, i as nat, FIELD_COUNT as nat);
                    }
                    return None;
                },
                Some((o, q)) => {
                    proof {
                        lemma_optional_bytes_of_parse(data@, pos as int);
                    }
                    fs.push(o);
                    pos = q;
                },
            }
            i += 1;
        }
        if pos != data.len() {
            return None;
        }
        let record = WireRecord {
            path,
            size: fs[0],
            mode: optional_from_bits(fs[1]),
            ino: fs[2],
            dev: optional_from_bits(fs[3]),
            uid: optional_from_bits(fs[4]),
            gid: optional_from_bits(fs[5]),
            atime_ns: optional_from_bits(fs[6]),
            mtime_ns: optional_from_bits(fs[7]),
            ctime_ns: optional_from_bits(fs[8]),
            btime_ns: optional_from_bits(fs[9]),
        };
        Some(record)
    }
}

/// Once reading has failed within the first `k + 1` numbers, it fails for any
/// larger count.
proof fn lemma_parse_fields_fails_on(b: Seq<u8>, pos: int, k: nat, n: nat)
    requires
        k < n,
        parse_fields(b, pos, k) is Some,
        parse_optional(b, parse_fields(b, pos, k).unwrap().1) is None,
    ensures
        parse_fields(b, pos, n) is None,
    decreases n,
{
    if n > k + 1 {
        lemma_parse_fields_fails_on(b, pos, k, (n - 1) as nat);
    }
}

} // verus!
