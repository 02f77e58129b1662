//! Writing to the log: which file a record is appended to, and when the next segment begins.

use std::path::PathBuf;
use vstd::prelude::*;

use crate::dir::{names_segment, segment_path, SegmentId, ShardDir, ShardOffset};
use crate::line::line_text;
use crate::record::{Record, NEWLINE};

verus! {

/// How many bytes a segment of a running shard holds before the next one begins.
pub const MAX_SEGMENT_SIZE: u64 = 100;

/// How many threads serve the requests to a shard.
pub const WORKERS: usize = 8;

/// Bytes that are to be appended to a file, which is created if it is not there.
#[derive(Debug)]
pub struct Append {
    pub path: PathBuf,
    pub bytes: Vec<u8>,
}

/// Where a writer stands in the log.
pub struct WriterState {
    pub dir: ShardDir,
    /// The segment that is written to.
    pub segment: int,
    /// How many bytes the segment holds.
    pub offset: int,
    /// A segment that holds more than this is done.
    pub max_segment_size: int,
}

impl WriterState {
    /// The position in the log at which the next byte is written.
    pub open spec fn position(self) -> int {
        self.segment + self.offset
    }

    /// Whether the segment is done once it holds `written` more bytes.
    pub open spec fn rolls(self, written: int) -> bool {
        self.offset + written > self.max_segment_size
    }

    /// Whether the writer can go on once `written` more bytes are in the segment's file: its
    /// offset fits in 64 bits, and the next segment's number is at most `max_segment_id`.
    pub open spec fn can_take(self, written: int, max_segment_id: int) -> bool {
        &&& self.offset + written <= u64::MAX
        &&& self.rolls(written) ==> self.segment + self.offset + written <= max_segment_id
    }

    /// Where the writer stands once `written` more bytes are in the segment's file. If that makes
    /// the segment too large, the next one begins behind it.
    pub open spec fn advanced(self, written: int) -> WriterState {
        if self.rolls(written) {
            WriterState { segment: self.segment + self.offset + written, offset: 0, ..self }
        } else {
            WriterState { offset: self.offset + written, ..self }
        }
    }
}

/// A writer to the log of a shard.
///
/// To write a record, `write` says what to append to which file. Once that is done, `wrote` is
/// told how many of the bytes reached the file. After a failure it is not called, and the writer
/// stands where it stood.
pub trait ShaW {
    /// Where the writer stands.
    spec fn state(&self) -> WriterState;

    /// The greatest number that a segment can have.
    spec fn max_segment_id() -> int;

    /// What has to be appended, and to which file, to write `record`.
    fn write(&self, record: Record) -> (append: Append)
        ensures
            names_segment(
                append.path,
                self.state().dir.mount_dir,
                self.state().segment as SegmentId,
            ),
            line_text(append.bytes@) == record@,
            append.bytes@.len() == record@.len() + 1,
            append.path == segment_path(self.state().dir, self.state().segment),
            append.bytes@ == record@.push(NEWLINE),
    ;

    /// Whether the writer can go on once `written` more bytes are in the file.
    fn has_room(&self, written: usize) -> (room: bool)
        ensures
            room == self.state().can_take(written as int, Self::max_segment_id()),
    ;

    /// Takes note that `written` bytes reached the file.
    fn wrote(&mut self, written: usize)
        requires
            old(self).state().can_take(written as int, Self::max_segment_id()),
        ensures
            final(self).state() == old(self).state().advanced(written as int),
    ;
}

/// A writer whose segment is made known to the readers.
#[derive(Debug)]
pub struct ShardWriter {
    pub latest_segment: usize,
    pub shard_dir: ShardDir,
    pub offset: ShardOffset,
    pub max_segment_size: u64,
}

/// A writer whose segment nobody else looks at.
#[derive(Debug)]
pub struct ShardWriter2 {
    pub latest_segment: u64,
    pub shard_dir: ShardDir,
    pub offset: ShardOffset,
    pub max_segment_size: u64,
}

impl ShaW for ShardWriter {
    open spec fn state(&self) -> WriterState {
        WriterState {
            dir: self.shard_dir,
            segment: self.latest_segment as int,
            offset: self.offset as int,
            max_segment_size: self.max_segment_size as int,
        }
    }

    open spec fn max_segment_id() -> int {
        usize::MAX as int
    }

    fn write(&self, record: Record) -> (append: Append) {
        Append {
            path: self.shard_dir.path_to_segment(self.latest_segment as u64),
            bytes: record.serialized(),
        }
    }

    fn has_room(&self, written: usize) -> (room: bool) {
        match self.offset.checked_add(written as u64) {
            Some(offset) => offset <= self.max_segment_size || offset <= (usize::MAX
                - self.latest_segment) as u64,
            None => false,
        }
    }

    fn wrote(&mut self, written: usize) {
        self.offset = self.offset + written as u64;
        if self.offset > self.max_segment_size {
            self.latest_segment = self.offset as usize + self.latest_segment;
            self.offset = 0;
        }
    }
}

impl ShaW for ShardWriter2 {
    open spec fn state(&self) -> WriterState {
        WriterState {
            dir: self.shard_dir,
            segment: self.latest_segment as int,
            offset: self.offset as int,
            max_segment_size: self.max_segment_size as int,
        }
    }

    open spec fn max_segment_id() -> int {
        u64::MAX as int
    }

    fn write(&self, record: Record) -> (append: Append) {
        Append {
            path: self.shard_dir.path_to_segment(self.latest_segment),
            bytes: record.serialized(),
        }
    }

    fn has_room(&self, written: usize) -> (room: bool) {
        match self.offset.checked_add(written as u64) {
            Some(offset) => offset <= self.max_segment_size || offset <= u64::MAX
                - self.latest_segment,
            None => false,
        }
    }

    fn wrote(&mut self, written: usize) {
        self.offset = self.offset + written as u64;
        if self.offset > self.max_segment_size {
            self.latest_segment = self.latest_segment + self.offset;
            self.offset = 0;
        }
    }
}

/// The writer of a shard whose latest segment is `latest_shard`, which holds
/// `latest_shard_offset` bytes. `WORKERS` threads are to share it. The segment's number is cut to
/// the machine's word.
pub fn start_shard_workers(
    shard_dir: ShardDir,
    latest_shard: SegmentId,
    latest_shard_offset: ShardOffset,
) -> (writer: ShardWriter)
    ensures
        writer == (ShardWriter {
            latest_segment: latest_shard as usize,
            shard_dir,
            offset: latest_shard_offset,
            max_segment_size: MAX_SEGMENT_SIZE,
        }),
        latest_shard <= usize::MAX ==> writer.state().segment == latest_shard,
        latest_shard <= usize::MAX ==> writer.state().position() == latest_shard
            + latest_shard_offset,
{
    ShardWriter {
        latest_segment: latest_shard as usize,
        shard_dir,
        offset: latest_shard_offset,
        max_segment_size: MAX_SEGMENT_SIZE,
    }
}

/// What is written moves the writer forward by as many bytes, whether a new segment begins or
/// not. A new one begins exactly if the segment holds more than the limit then, and it begins empty
/// where that one ends. A segment's number never falls, and once something was written no segment
/// is too large.
pub proof fn law_writer_advances(state: WriterState, written: nat)
    requires
        state.offset >= 0,
        state.max_segment_size >= 0,
    ensures
        state.position() == state.segment + state.offset,
        state.advanced(written as int).position() == state.position() + written,
        state.rolls(written as int) <==> state.offset + written > state.max_segment_size,
        state.offset + written > state.max_segment_size ==> state.advanced(written as int).offset
            == 0,
        state.offset + written <= state.max_segment_size ==> state.advanced(written as int).segment
            == state.segment,
        state.advanced(written as int).segment >= state.segment,
        0 <= state.advanced(written as int).offset <= state.max_segment_size,
        state.advanced(written as int).dir == state.dir,
        state.advanced(written as int).max_segment_size == state.max_segment_size,
{
}

/// A writer can go on if, and only if, the bytes in its segment can be counted in 64 bits and the
/// number of the segment that it would write to next is not over the greatest one.
pub proof fn law_room(state: WriterState, written: nat, max_segment_id: int)
    requires
        state.segment <= max_segment_id,
    ensures
        state.can_take(written as int, max_segment_id) <==> state.offset + written <= u64::MAX
            && state.advanced(written as int).segment <= max_segment_id,
{
}

/// Both writers stand where their fields say: in the segment that they write to, as far in it as
/// their offset, and at one limit. With the same fields they stand at the same place and go on to
/// the same one.
pub proof fn law_writers_agree(a: ShardWriter, b: ShardWriter2, written: nat)
    requires
        a.latest_segment == b.latest_segment,
        a.offset == b.offset,
        a.max_segment_size == b.max_segment_size,
        a.shard_dir == b.shard_dir,
    ensures
        a.state() == b.state(),
        a.state().position() == a.latest_segment + a.offset,
        a.state().dir == a.shard_dir,
        a.state().rolls(written as int) <==> a.offset + written > a.max_segment_size,
        a.state().advanced(written as int).segment == if a.offset + written > a.max_segment_size {
            a.latest_segment + a.offset + written
        } else {
            a.latest_segment as int
        },
        a.state().advanced(written as int).offset == if a.offset + written > a.max_segment_size {
            0
        } else {
            a.offset + written
        },
        ShardWriter::max_segment_id() == usize::MAX,
        ShardWriter2::max_segment_id() == u64::MAX,
{
}

} // verus!
