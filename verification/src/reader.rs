//! Reading from the log: which lines of which files make up the records of one chunk.

use std::path::PathBuf;
use vstd::prelude::*;
use vstd::slice::*;
use vstd::utf8::*;

use crate::dir::{names_segment, segment_path, SegmentId, ShardDir, ShardOffset};
use crate::line::{
    law_lines, law_total_len, lemma_line_len, lemma_total_len_take, line_end, line_text, line_texts,
    lines, total_len,
};
use crate::record::{is_utf8, Record, NEWLINE};

verus! {

/// A reader of the records that follow a position in the log.
#[derive(Debug)]
pub struct ShardReader {
    /// The segment in which the reader began.
    pub segment_id: SegmentId,
    /// Where in the log to stop: the reader is done behind the first record with which it is at or
    /// behind this position. At the end of a file it goes on with the next one only if it began
    /// before this position.
    pub latest_log_offset: usize,
    /// How far behind the start of the segment the reader is.
    pub offset: ShardOffset,
    /// How many records one chunk has at most.
    pub chunk_size: usize,
    pub shard_dir: ShardDir,
}

/// What comes after the lines of one file were read.
#[derive(Debug)]
pub enum ReadStep {
    /// Nothing: the chunk is complete.
    Finished,
    /// Open this file and read on from its beginning.
    Roll(PathBuf),
}

/// A line in a segment file is not UTF-8 text.
#[derive(Debug, Clone, Copy, PartialEq, Eq, Structural)]
pub struct NotUtf8;

/// The bytes of each record.
pub open spec fn record_bytes(records: Seq<Record>) -> Seq<Seq<u8>> {
    records.map_values(|record: Record| record@)
}

/// Why a reader takes no more lines of a file.
#[derive(Debug, Clone, Copy, PartialEq, Eq, Structural)]
pub(crate) enum ScanEnd {
    /// It stops behind the last line that it took.
    Stops,
    /// The line that comes next is not text.
    NotText,
    /// There are no more lines.
    FileEnds,
}

/// What a reader takes of a file.
#[derive(Debug, Clone, Copy, PartialEq, Eq, Structural)]
pub(crate) struct Scan {
    /// How many lines.
    pub taken: usize,
    /// How many bytes these have.
    pub bytes: usize,
    /// How many bytes these have but for the last.
    pub bytes_before: usize,
    /// Why it takes no more.
    pub end: ScanEnd,
}

impl ShardReader {
    /// Whether the reader stops once it is at `offset` and has `count` records.
    pub open spec fn stops(self, offset: int, count: int) -> bool {
        count >= self.chunk_size || offset + self.segment_id >= self.latest_log_offset
    }

    /// How many of `lines` a reader takes that is at `offset` and has `count` records: all up to
    /// the one behind which it stops, or before the first that is not text.
    pub open spec fn lines_taken(self, lines: Seq<Seq<u8>>, offset: int, count: int) -> nat
        decreases lines.len(),
    {
        if lines.len() == 0 || !valid_utf8(lines[0]) {
            0
        } else if self.stops(offset + lines[0].len(), count + 1) {
            1
        } else {
            1 + self.lines_taken(lines.drop_first(), offset + lines[0].len(), count + 1)
        }
    }

    /// How many lines the reader takes of a file whose rest is `rest`, if it has `count` records.
    pub open spec fn taken(self, rest: Seq<u8>, count: int) -> nat {
        self.lines_taken(lines(rest), self.offset as int, count)
    }

    /// The offset at which the reader is after it took `k` lines of `rest`.
    pub open spec fn offset_after(self, rest: Seq<u8>, k: int) -> int {
        self.offset + total_len(lines(rest).take(k))
    }

    /// What comes after the reader took what it takes of `rest`. It is done where it stops. At
    /// the end of a file that is not the latest segment's it goes on with the file that begins
    /// where it is.
    pub open spec fn step_after(self, rest: Seq<u8>, count: int) -> Result<ReadStep, NotUtf8> {
        let k = self.taken(rest, count) as int;
        let offset = self.offset_after(rest, k);
        if k > 0 && self.stops(offset, count + k) {
            Ok(ReadStep::Finished)
        } else if k < lines(rest).len() {
            Err(NotUtf8)
        } else if self.segment_id < self.latest_log_offset {
            Ok(ReadStep::Roll(segment_path(self.shard_dir, self.segment_id + offset)))
        } else {
            Ok(ReadStep::Finished)
        }
    }

    /// Whether the reader can take what it takes of `rest`: its offset fits in 64 bits, and so does
    /// its position in the log wherever it looks at that. It does so behind each line, unless the
    /// chunk is full, and where it goes on with another file.
    pub open spec fn can_read(self, rest: Seq<u8>, count: int) -> bool {
        let k = self.taken(rest, count) as int;
        let j = if k > 0 && count + k >= self.chunk_size {
            k - 1
        } else {
            k
        };
        &&& self.offset_after(rest, k) <= u64::MAX
        &&& (j > 0 || (self.step_after(rest, count) matches Ok(ReadStep::Roll(_))))
            ==> self.segment_id + self.offset_after(rest, j) <= u64::MAX
    }

    /// The file to read first, and where in it to begin.
    pub fn start(&self) -> (begin: (PathBuf, ShardOffset))
        ensures
            names_segment(begin.0, self.shard_dir.mount_dir, self.segment_id),
            begin.0 == segment_path(self.shard_dir, self.segment_id as int),
            begin.1 == self.offset,
    {
        (self.shard_dir.path_to_segment(self.segment_id), self.offset)
    }

    /// Adds the records in `rest` to `records`. `rest` is what the open file holds from the place
    /// on where the reader is.
    pub fn read(&mut self, rest: &[u8], records: &mut Vec<Record>) -> (step: Result<
        ReadStep,
        NotUtf8,
    >)
        requires
            old(self).can_read(rest@, old(records)@.len() as int),
        ensures
            ({
                let count = old(records)@.len() as int;
                let k = old(self).taken(rest@, count) as int;
                &&& record_bytes(final(records)@) == record_bytes(old(records)@) + line_texts(
                    lines(rest@).take(k),
                )
                &&& final(self).offset == old(self).offset_after(rest@, k)
                &&& step == old(self).step_after(rest@, count)
            }),
            final(self).segment_id == old(self).segment_id,
            final(self).latest_log_offset == old(self).latest_log_offset,
            final(self).chunk_size == old(self).chunk_size,
            final(self).shard_dir == old(self).shard_dir,
    {
        let ghost before = *self;
        let ghost had = records@;
        let ghost ls = lines(rest@);
        let ghost all_taken = before.taken(rest@, had.len() as int) as int;
        let ghost mut k: int = 0;
        let mut start: usize = 0;
        proof {
            before.lemma_taken(ls, before.offset as int, had.len() as int);
            assert(rest@.skip(0) =~= rest@);
            assert(ls.skip(0) =~= ls);
            assert(ls.take(0) =~= Seq::<Seq<u8>>::empty());
            assert(record_bytes(had) =~= record_bytes(had) + line_texts(ls.take(0)));
        }
        while start < rest.len()
            invariant
                start <= rest@.len(),
                before == *old(self),
                had == old(records)@,
                ls == lines(rest@),
                0 <= k <= all_taken <= ls.len(),
                ls.skip(k) == lines(rest@.skip(start as int)),
                all_taken == before.taken(rest@, had.len() as int),
                all_taken == k + before.lines_taken(
                    ls.skip(k),
                    self.offset as int,
                    records@.len() as int,
                ),
                before.can_read(rest@, had.len() as int),
                k > 0 ==> !before.stops(self.offset as int, records@.len() as int),
                self.offset == before.offset_after(rest@, k),
                self.segment_id == before.segment_id,
                self.latest_log_offset == before.latest_log_offset,
                self.chunk_size == before.chunk_size,
                self.shard_dir == before.shard_dir,
                records@.len() == had.len() + k,
                record_bytes(records@) == record_bytes(had) + line_texts(ls.take(k)),
            decreases rest@.len() - start,
        {
            let end = line_end(rest, start);
            let ghost here = rest@.skip(start as int);
            let ghost line = here.take((end - start) as int);
            proof {
                lemma_line_len(here);
                assert(ls.skip(k)[0] == line);
                assert(ls[k] == line);
                assert(rest@.subrange(start as int, end as int) =~= line);
            }
            if !is_utf8(slice_subrange(rest, start, end)) {
                return Err(NotUtf8);
            }
            proof {
                assert(ls.take(k + 1).drop_last() =~= ls.take(k));
                assert(ls.take(k + 1).last() == line);
                lemma_total_len_take(ls, k + 1, all_taken);
                assert(here.skip((end - start) as int) =~= rest@.skip(end as int));
                assert(ls.skip(k).drop_first() =~= ls.skip(k + 1));
                assert(ls.skip(k).drop_first() =~= lines(rest@.skip(end as int)));
            }
            self.offset = self.offset + (end - start) as u64;
            let text_end: usize = if rest[end - 1] == NEWLINE {
                end - 1
            } else {
                end
            };
            let record = Record(slice_to_vec(slice_subrange(rest, start, text_end)));
            proof {
                assert(record@ =~= line_text(line));
                assert(line_texts(ls.take(k + 1)) =~= line_texts(ls.take(k)).push(record@));
                assert(record_bytes(records@.push(record)) =~= record_bytes(records@).push(
                    record@,
                ));
                assert(record_bytes(records@.push(record)) =~= record_bytes(had) + line_texts(
                    ls.take(k + 1),
                ));
                k = k + 1;
            }
            records.push(record);
            start = end;
            if records.len() >= self.chunk_size {
                return Ok(ReadStep::Finished);
            }
            proof {
                lemma_total_len_take(
                    ls,
                    k,
                    if had.len() + all_taken >= before.chunk_size {
                        all_taken - 1
                    } else {
                        all_taken
                    },
                );
            }
            if self.offset + self.segment_id >= self.latest_log_offset as u64 {
                return Ok(ReadStep::Finished);
            }
        }
        assert(rest@.skip(start as int) =~= Seq::<u8>::empty());
        if self.segment_id < self.latest_log_offset as u64 {
            return Ok(
                ReadStep::Roll(self.shard_dir.path_to_segment(self.segment_id + self.offset)),
            );
        }
        Ok(ReadStep::Finished)
    }

    /// Whether the reader goes on with another file at the end of one.
    pub(crate) fn rolls(&self) -> (rolls: bool)
        ensures
            rolls == (self.segment_id < self.latest_log_offset),
    {
        self.segment_id < self.latest_log_offset as u64
    }

    /// Whether `scan` says what the reader takes of `rest` if it has `count` records.
    pub(crate) open spec fn is_scan(self, rest: Seq<u8>, count: int, scan: Scan) -> bool {
        let k = self.taken(rest, count) as int;
        let ls = lines(rest);
        &&& scan.taken == k
        &&& k <= ls.len()
        &&& scan.bytes == total_len(ls.take(k))
        &&& k > 0 ==> scan.bytes_before == total_len(ls.take(k - 1))
        &&& match scan.end {
            ScanEnd::Stops => k > 0 && self.stops(self.offset_after(rest, k), count + k),
            ScanEnd::NotText => k < ls.len() && !(k > 0 && self.stops(
                self.offset_after(rest, k),
                count + k,
            )),
            ScanEnd::FileEnds => k == ls.len() && !(k > 0 && self.stops(
                self.offset_after(rest, k),
                count + k,
            )),
        }
    }

    /// What the reader takes of `rest` if it has `count` records.
    pub(crate) fn scan(&self, rest: &[u8], count: usize) -> (scan: Scan)
        ensures
            self.is_scan(rest@, count as int, scan),
    {
        let ghost ls = lines(rest@);
        let ghost all_taken = self.taken(rest@, count as int) as int;
        let mut k: usize = 0;
        let mut start: usize = 0;
        let mut before: usize = 0;
        proof {
            self.lemma_taken(ls, self.offset as int, count as int);
            assert(rest@.skip(0) =~= rest@);
            assert(ls.skip(0) =~= ls);
            assert(ls.take(0) =~= Seq::<Seq<u8>>::empty());
        }
        while start < rest.len()
            invariant
                ls == lines(rest@),
                all_taken == self.taken(rest@, count as int),
                0 <= k <= all_taken <= ls.len(),
                k <= start <= rest@.len(),
                ls.skip(k as int) == lines(rest@.skip(start as int)),
                all_taken == k + self.lines_taken(
                    ls.skip(k as int),
                    self.offset + start,
                    count + k,
                ),
                start == total_len(ls.take(k as int)),
                k > 0 ==> before == total_len(ls.take(k - 1)),
                k > 0 ==> !self.stops(self.offset + start, count + k),
            decreases rest@.len() - start,
        {
            let end = line_end(rest, start);
            let ghost here = rest@.skip(start as int);
            let ghost line = here.take((end - start) as int);
            proof {
                lemma_line_len(here);
                assert(ls.skip(k as int)[0] == line);
                assert(ls[k as int] == line);
                assert(rest@.subrange(start as int, end as int) =~= line);
            }
            if !is_utf8(slice_subrange(rest, start, end)) {
                return Scan {
                    taken: k,
                    bytes: start,
                    bytes_before: before,
                    end: ScanEnd::NotText,
                };
            }
            proof {
                assert(ls.take(k + 1).drop_last() =~= ls.take(k as int));
                assert(ls.take(k + 1).last() == line);
                assert(here.skip((end - start) as int) =~= rest@.skip(end as int));
                assert(ls.skip(k as int).drop_first() =~= ls.skip(k + 1));
                assert(ls.skip(k as int).drop_first() =~= lines(rest@.skip(end as int)));
            }
            before = start;
            start = end;
            k = k + 1;
            if count as u128 + k as u128 >= self.chunk_size as u128 || self.offset as u128
                + start as u128 + self.segment_id as u128 >= self.latest_log_offset as u128 {
                return Scan {
                    taken: k,
                    bytes: start,
                    bytes_before: before,
                    end: ScanEnd::Stops,
                };
            }
        }
        assert(rest@.skip(start as int) =~= Seq::<u8>::empty());
        Scan { taken: k, bytes: start, bytes_before: before, end: ScanEnd::FileEnds }
    }

    /// Whether the reader can take what `scan` says that it takes.
    pub(crate) fn check_scan(&self, rest: &[u8], count: usize, scan: &Scan) -> (fine: bool)
        requires
            self.is_scan(rest@, count as int, *scan),
        ensures
            fine == self.can_read(rest@, count as int),
    {
        let position = self.segment_id as u128 + self.offset as u128;
        let full = scan.taken > 0 && count as u128 + scan.taken as u128 >= self.chunk_size as u128;
        let looked: usize = if full {
            scan.taken - 1
        } else {
            scan.taken
        };
        let looked_bytes: usize = if full {
            scan.bytes_before
        } else {
            scan.bytes
        };
        let rolls = match scan.end {
            ScanEnd::FileEnds => self.rolls(),
            _ => false,
        };
        self.offset as u128 + scan.bytes as u128 <= u64::MAX as u128 && (!(looked > 0 || rolls)
            || position + looked_bytes as u128 <= u64::MAX as u128)
    }

    /// Whether the reader can take what it takes of `rest` if it has these records.
    pub fn check_read(&self, rest: &[u8], records: &Vec<Record>) -> (fine: bool)
        ensures
            fine == self.can_read(rest@, records@.len() as int),
    {
        let scan = self.scan(rest, records.len());
        self.check_scan(rest, records.len(), &scan)
    }

    /// A reader takes no more lines than there are, and they are text.
    pub proof fn lemma_taken(self, lines: Seq<Seq<u8>>, offset: int, count: int)
        ensures
            self.lines_taken(lines, offset, count) <= lines.len(),
            forall|i: int|
                0 <= i < self.lines_taken(lines, offset, count) ==> valid_utf8(
                    #[trigger] lines[i],
                ),
        decreases lines.len(),
    {
        if lines.len() > 0 && valid_utf8(lines[0]) && !self.stops(
            offset + lines[0].len(),
            count + 1,
        ) {
            let rest = lines.drop_first();
            self.lemma_taken(rest, offset + lines[0].len(), count + 1);
            assert forall|i: int| 0 <= i < self.lines_taken(lines, offset, count) implies
                valid_utf8(#[trigger] lines[i]) by {
                if i > 0 {
                    assert(lines[i] == rest[i - 1]);
                }
            }
        }
    }

    /// A reader takes lines that are text, up to and with the first behind which the chunk is full
    /// or the position to stop at is reached, and leaves none before that but what is not text or
    /// is not there. Where it is then is as many bytes further as these lines have.
    pub proof fn law_lines_taken(self, rest: Seq<u8>, count: int)
        ensures
            ({
                let ls = lines(rest);
                let k = self.taken(rest, count) as int;
                &&& k <= ls.len()
                &&& forall|i: int| 0 <= i < k ==> valid_utf8(#[trigger] ls[i])
                &&& k > 1 ==> count + k - 1 < self.chunk_size
                &&& forall|i: int|
                    0 < i < k ==> self.segment_id + self.offset + (#[trigger] ls.take(
                        i,
                    )).flatten().len() < self.latest_log_offset
                &&& k < ls.len() && valid_utf8(ls[k]) ==> k > 0 && (count + k >= self.chunk_size
                    || self.segment_id + self.offset + ls.take(k).flatten().len()
                    >= self.latest_log_offset)
                &&& self.offset_after(rest, k) == self.offset + ls.take(k).flatten().len()
            }),
    {
        let ls = lines(rest);
        let k = self.taken(rest, count) as int;
        self.lemma_taken(ls, self.offset as int, count);
        self.lemma_taken_until(ls, self.offset as int, count);
        assert forall|i: int| 0 <= i <= ls.len() implies total_len(#[trigger] ls.take(i))
            == ls.take(i).flatten().len() by {
            law_total_len(ls.take(i));
        }
        assert forall|i: int| 0 < i < k implies self.segment_id + self.offset + (
        #[trigger] ls.take(i)).flatten().len() < self.latest_log_offset by {
            assert(!self.stops(self.offset + total_len(ls.take(i)), count + i));
        }
        if k > 1 {
            assert(!self.stops(self.offset + total_len(ls.take(k - 1)), count + (k - 1)));
        }
        assert(total_len(ls.take(k)) == ls.take(k).flatten().len());
    }

    /// What comes after the lines of a file goes by them: the chunk is complete where it is full or
    /// the position to stop at is reached. Otherwise a line that is not text is an error, and
    /// behind the last line the reader goes on with the file of the segment that begins where it
    /// is, if it began before the position to stop at.
    pub proof fn law_step(self, rest: Seq<u8>, count: int)
        ensures
            ({
                let ls = lines(rest);
                let k = self.taken(rest, count) as int;
                let position = self.segment_id + self.offset + ls.take(k).flatten().len();
                let complete = k > 0 && (count + k >= self.chunk_size || position
                    >= self.latest_log_offset);
                match self.step_after(rest, count) {
                    Ok(ReadStep::Finished) => complete || (k == ls.len() && self.segment_id
                        >= self.latest_log_offset),
                    Ok(ReadStep::Roll(path)) => !complete && k == ls.len() && self.segment_id
                        < self.latest_log_offset && path == segment_path(self.shard_dir, position),
                    Err(_) => !complete && k < ls.len() && !valid_utf8(ls[k]),
                }
            }),
    {
        self.law_lines_taken(rest, count);
    }

    /// A reader can take what it takes exactly if its offset behind that fits in 64 bits, and so
    /// does its position behind each line that does not fill the chunk, and where it goes on with
    /// another file. That is so wherever the end of the file fits as a position in the log.
    pub proof fn law_can_read(self, rest: Seq<u8>, count: int)
        ensures
            ({
                let ls = lines(rest);
                let k = self.taken(rest, count) as int;
                self.can_read(rest, count) <==> {
                    &&& self.offset + ls.take(k).flatten().len() <= u64::MAX
                    &&& forall|i: int|
                        0 < i <= k && count + i < self.chunk_size ==> self.segment_id + self.offset
                            + (#[trigger] ls.take(i)).flatten().len() <= u64::MAX
                    &&& self.step_after(rest, count) matches Ok(ReadStep::Roll(_))
                        ==> self.segment_id + self.offset + ls.take(k).flatten().len() <= u64::MAX
                }
            }),
            self.segment_id + self.offset + rest.len() <= u64::MAX ==> self.can_read(rest, count),
    {
        let ls = lines(rest);
        let k = self.taken(rest, count) as int;
        let j = if k > 0 && count + k >= self.chunk_size {
            k - 1
        } else {
            k
        };
        self.law_lines_taken(rest, count);
        law_lines(rest);
        assert(ls.take(ls.len() as int) =~= ls);
        lemma_total_len_take(ls, k, ls.len() as int);
        lemma_total_len_take(ls, j, k);
        assert forall|i: int| 0 <= i <= ls.len() implies total_len(#[trigger] ls.take(i))
            == ls.take(i).flatten().len() by {
            law_total_len(ls.take(i));
        }
        assert(total_len(ls.take(k)) == ls.take(k).flatten().len());
        assert(total_len(ls.take(j)) == ls.take(j).flatten().len());
        if self.can_read(rest, count) {
            assert forall|i: int| 0 < i <= k && count + i < self.chunk_size implies self.segment_id
                + self.offset + (#[trigger] ls.take(i)).flatten().len() <= u64::MAX by {
                lemma_total_len_take(ls, i, j);
            }
        }
    }

    proof fn lemma_taken_until(self, lines: Seq<Seq<u8>>, offset: int, count: int)
        ensures
            ({
                let t = self.lines_taken(lines, offset, count) as int;
                &&& forall|i: int|
                    0 < i < t ==> !self.stops(
                        offset + total_len(#[trigger] lines.take(i)),
                        count + i,
                    )
                &&& t < lines.len() && valid_utf8(lines[t]) ==> t > 0 && self.stops(
                    offset + total_len(lines.take(t)),
                    count + t,
                )
            }),
        decreases lines.len(),
    {
        if lines.len() > 0 && valid_utf8(lines[0]) {
            let rest = lines.drop_first();
            let next = offset + lines[0].len();
            let t = self.lines_taken(lines, offset, count) as int;
            self.lemma_taken(lines, offset, count);
            self.lemma_taken_until(rest, next, count + 1);
            self.lemma_taken(rest, next, count + 1);
            assert forall|i: int| 0 < i <= lines.len() implies total_len(#[trigger] lines.take(i))
                == lines[0].len() + total_len(rest.take(i - 1)) by {
                law_total_len(lines.take(i));
                law_total_len(rest.take(i - 1));
                assert(lines.take(i).drop_first() =~= rest.take(i - 1));
                assert(lines.take(i).flatten() == lines[0] + rest.take(i - 1).flatten());
            }
            assert(rest.take(0) =~= Seq::<Seq<u8>>::empty());
            assert(total_len(rest.take(0)) == 0);
            if !self.stops(next, count + 1) {
                assert forall|i: int| 0 < i < t implies !self.stops(
                    offset + total_len(#[trigger] lines.take(i)),
                    count + i,
                ) by {
                    if i > 1 {
                        assert(!self.stops(
                            next + total_len(rest.take(i - 1)),
                            count + 1 + (i - 1),
                        ));
                    }
                }
                assert(t < lines.len() ==> lines[t] == rest[t - 1]);
                assert(total_len(lines.take(t)) == lines[0].len() + total_len(rest.take(t - 1)));
            } else {
                assert(t == 1);
                assert(total_len(lines.take(1)) == lines[0].len() + total_len(rest.take(0)));
            }
        }
    }

    /// What a reader takes depends on where it began, where it stops and its chunk size alone.
    pub proof fn lemma_same_limits(
        self,
        other: ShardReader,
        lines: Seq<Seq<u8>>,
        offset: int,
        count: int,
    )
        requires
            self.segment_id == other.segment_id,
            self.latest_log_offset == other.latest_log_offset,
            self.chunk_size == other.chunk_size,
        ensures
            self.lines_taken(lines, offset, count) == other.lines_taken(lines, offset, count),
        decreases lines.len(),
    {
        if lines.len() > 0 {
            self.lemma_same_limits(
                other,
                lines.drop_first(),
                offset + lines[0].len(),
                count + 1,
            );
        }
    }
}

} // verus!
