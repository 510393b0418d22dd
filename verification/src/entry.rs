//! Filesystem entries as the walker meets them, and their projection onto
//! wire records.
//!
//! The projection is lossy and total: what the platform does not report, or
//! what does not fit the wire, is left out of the record, and no entry is ever
//! turned down for it.

use crate::record::{RecordView, WireRecord};
use vstd::prelude::*;

verus! {

/// What kind of object an entry is. A symbolic link is a kind of its own,
/// whatever it points to.
#[derive(Debug, Clone, Copy, PartialEq, Eq)]
pub enum EntryKind {
    File,
    Directory,
    Symlink,
    Other,
}

/// A point in time, given by its distance from the epoch.
#[derive(Debug, Clone, Copy, PartialEq, Eq)]
pub struct Timestamp {
    /// Whether the point lies before the epoch.
    pub before_epoch: bool,
    /// Whole seconds of the distance.
    pub secs: u64,
    /// Nanoseconds on top of the whole seconds.
    pub nanos: u32,
}

/// What only POSIX-like systems report.
#[derive(Debug, Clone, Copy, PartialEq, Eq)]
pub struct UnixMetadata {
    pub mode: u32,
    pub ino: u64,
    pub dev: u64,
    pub uid: u32,
    pub gid: u32,
    /// Time of the last status change.
    pub changed: Timestamp,
}

/// The attributes of an entry, as one `stat` call gave them.
#[derive(Debug, Clone, Copy, PartialEq, Eq)]
pub struct Metadata {
    pub kind: EntryKind,
    /// Size in bytes.
    pub len: u64,
    /// Last access, where the platform reports it.
    pub accessed: Option<Timestamp>,
    /// Last modification, where the platform reports it.
    pub modified: Option<Timestamp>,
    /// Creation, where the platform reports it.
    pub created: Option<Timestamp>,
    /// The POSIX attributes; `None` on every other platform.
    pub unix: Option<UnixMetadata>,
}

/// One filesystem object met during a walk.
#[derive(Debug, Clone, PartialEq, Eq)]
pub struct Entry {
    /// The path, byte for byte.
    pub path: Vec<u8>,
    pub metadata: Metadata,
}

/// The mathematical value of an [`Entry`].
pub struct EntryView {
    pub path: Seq<u8>,
    pub metadata: Metadata,
}

impl View for Entry {
    type V = EntryView;

    open spec fn view(&self) -> EntryView {
        EntryView { path: self.path@, metadata: self.metadata }
    }
}

pub const NANOS_PER_SEC: u64 = 1_000_000_000;

/// The point in time as nanoseconds since the epoch, where a signed 64-bit
/// number can hold it and the point does not lie before the epoch.
pub open spec fn nanos_since_epoch(t: Timestamp) -> Option<i64> {
    if !t.before_epoch && t.secs * NANOS_PER_SEC + t.nanos <= i64::MAX {
        Some((t.secs * NANOS_PER_SEC + t.nanos) as i64)
    } else {
        None
    }
}

pub open spec fn optional_nanos(t: Option<Timestamp>) -> Option<i64> {
    match t {
        Some(t) => nanos_since_epoch(t),
        None => None,
    }
}

/// The device number as a signed number, where it fits.
pub open spec fn signed_dev(dev: u64) -> Option<i64> {
    if dev <= i64::MAX {
        Some(dev as i64)
    } else {
        None
    }
}

/// The wire record of an entry.
pub open spec fn record_of(e: EntryView) -> RecordView {
    let m = e.metadata;
    RecordView {
        path: e.path,
        size: Some(m.len),
        mode: match m.unix {
            Some(u) => Some(u.mode as i64),
            None => None,
        },
        ino: match m.unix {
            Some(u) => Some(u.ino),
            None => None,
        },
        dev: match m.unix {
            Some(u) => signed_dev(u.dev),
            None => None,
        },
        uid: match m.unix {
            Some(u) => Some(u.uid as i64),
            None => None,
        },
        gid: match m.unix {
            Some(u) => Some(u.gid as i64),
            None => None,
        },
        atime_ns: optional_nanos(m.accessed),
        mtime_ns: optional_nanos(m.modified),
        ctime_ns: match m.unix {
            Some(u) => nanos_since_epoch(u.changed),
            None => None,
        },
        btime_ns: optional_nanos(m.created),
    }
}

/// The point in time as a signed number of nanoseconds since the epoch.
pub open spec fn signed_nanos(t: Timestamp) -> int {
    if t.before_epoch {
        -(t.secs * NANOS_PER_SEC + t.nanos)
    } else {
        t.secs * NANOS_PER_SEC + t.nanos
    }
}

impl EntryKind {
    /// The kind of an object by what is known of it: a symbolic link is a
    /// symbolic link whatever else holds of it, and in particular where it
    /// points to a directory.
    pub fn classify(is_symlink: bool, is_dir: bool, is_file: bool) -> (kind: EntryKind)
        ensures
            kind == if is_symlink {
                EntryKind::Symlink
            } else if is_dir {
                EntryKind::Directory
            } else if is_file {
                EntryKind::File
            } else {
                EntryKind::Other
            },
    {
        if is_symlink {
            EntryKind::Symlink
        } else if is_dir {
            EntryKind::Directory
        } else if is_file {
            EntryKind::File
        } else {
            EntryKind::Other
        }
    }
}

impl Timestamp {
    /// The point in time that lies `secs` seconds and `nsec` nanoseconds after
    /// the epoch, either of which may be negative, as POSIX systems report
    /// their times.
    pub fn from_unix(secs: i64, nsec: i64) -> (t: Timestamp)
        ensures
            signed_nanos(t) == secs * NANOS_PER_SEC + nsec,
            t.nanos < NANOS_PER_SEC,
            t.before_epoch <==> secs * NANOS_PER_SEC + nsec < 0,
    {
        let total: i128 = (secs as i128) * 1_000_000_000 + (nsec as i128);
        let before_epoch = total < 0;
        let distance: u128 = if before_epoch {
            (0 - total) as u128
        } else {
            total as u128
        };
        let whole: u128 = distance / 1_000_000_000;
        let part: u128 = distance % 1_000_000_000;
        Timestamp { before_epoch, secs: whole as u64, nanos: part as u32 }
    }
}

/// Nanoseconds since the epoch, or `None` where the point in time lies before
/// the epoch or beyond what a signed 64-bit number holds.
pub fn nanos(t: Timestamp) -> (r: Option<i64>)
    ensures
        r == nanos_since_epoch(t),
{
    if t.before_epoch {
        return None;
    }
    match t.secs.checked_mul(NANOS_PER_SEC) {
        None => None,
        Some(whole) => match whole.checked_add(t.nanos as u64) {
            None => None,
            Some(total) => if total <= 0x7fff_ffff_ffff_ffff {
                Some(total as i64)
            } else {
                None
            },
        },
    }
}

fn nanos_of(t: Option<Timestamp>) -> (r: Option<i64>)
    ensures
        r == optional_nanos(t),
{
    match t {
        Some(t) => nanos(t),
        None => None,
    }
}

impl WireRecord {
    /// Projects an entry onto its wire record. The path and the size are
    /// always kept. A timestamp is kept where [`nanos`] has a value for it,
    /// the POSIX attributes where the platform reported them, and the device
    /// number where it fits a signed number.
    pub fn from_lossy(entry: Entry) -> (r: WireRecord)
        ensures
            r@ == record_of(entry@),
    {
        let m = entry.metadata;
        let mut record = WireRecord::new(entry.path);
        record.size = Some(m.len);
        record.atime_ns = nanos_of(m.accessed);
        record.mtime_ns = nanos_of(m.modified);
        record.btime_ns = nanos_of(m.created);
        match m.unix {
            Some(u) => {
                record.mode = Some(u.mode as i64);
                record.ino = Some(u.ino);
                if u.dev <= 0x7fff_ffff_ffff_ffff {
                    record.dev = Some(u.dev as i64);
                }
                record.uid = Some(u.uid as i64);
                record.gid = Some(u.gid as i64);
                record.ctime_ns = nanos(u.changed);
            },
            None => {},
        }
        record
    }
}

} // verus!
