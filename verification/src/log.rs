//! The log as a whole: what its files hold, and that what was written to it is what is read.

use vstd::prelude::*;
use vstd::utf8::*;

use crate::dir::{
    can_locate, latest_listed, law_latest_and_oldest, law_located, located, oldest_listed,
    segment_names, segment_path, SegmentId, ShardDir,
};
use crate::line::{lemma_total_len_take, line_len, line_text, line_texts, lines, total_len};
use crate::reader::{record_bytes, ReadStep, ShardReader};
use crate::record::{is_line_text, NEWLINE};
use crate::request::{records_reader, RecordsRead, CHUNK_SIZE};
use crate::writer::WriterState;

verus! {

/// The records as they stand in a file, one behind the other.
pub open spec fn stored(records: Seq<Seq<u8>>) -> Seq<u8>
    decreases records.len(),
{
    if records.len() == 0 {
        Seq::empty()
    } else {
        records[0].push(NEWLINE) + stored(records.drop_first())
    }
}

/// The lines that the records make.
pub open spec fn stored_lines(records: Seq<Seq<u8>>) -> Seq<Seq<u8>> {
    records.map_values(|record: Seq<u8>| record.push(NEWLINE))
}

/// All records of a log that is cut into `segments`.
pub open spec fn log_records(segments: Seq<Seq<Seq<u8>>>) -> Seq<Seq<u8>>
    decreases segments.len(),
{
    if segments.len() == 0 {
        Seq::empty()
    } else {
        segments[0] + log_records(segments.drop_first())
    }
}

/// The position in the log at which the record `j` begins, or at which the log ends.
pub open spec fn record_position(segments: Seq<Seq<Seq<u8>>>, j: int) -> int {
    stored(log_records(segments).take(j)).len() as int
}

/// The position in the log at which the segment `k` begins.
pub open spec fn segment_start(segments: Seq<Seq<Seq<u8>>>, k: int) -> int {
    stored(log_records(segments.take(k))).len() as int
}

/// Whether the segment `k` is sure to have a file. The first one has from the beginning on, any
/// other as soon as it has a record.
pub open spec fn needs_file(segments: Seq<Seq<Seq<u8>>>, k: int) -> bool {
    0 <= k < segments.len() && (k == 0 || segments[k].len() > 0)
}

/// Whether `segments` is how a writer cuts a log: there is a segment, and none but the last is
/// empty. Records can be any bytes.
pub open spec fn is_log(segments: Seq<Seq<Seq<u8>>>) -> bool {
    &&& segments.len() > 0
    &&& forall|k: int| 0 <= k < segments.len() - 1 ==> (#[trigger] segments[k]).len() > 0
}

/// Whether each record from `j` on is a line of text.
pub open spec fn text_from(segments: Seq<Seq<Seq<u8>>>, j: int) -> bool {
    forall|q: int|
        j <= q < log_records(segments).len() ==> is_line_text(#[trigger] log_records(segments)[q])
}

/// Whether `files`, by the numbers that are their names, hold the log: one file for each segment,
/// with the segment's records in it, and no other file. The last segment may be without a file as
/// long as it has no records.
pub open spec fn files_hold(files: Map<int, Seq<u8>>, segments: Seq<Seq<Seq<u8>>>) -> bool {
    &&& forall|k: int| #[trigger]
        needs_file(segments, k) ==> files.contains_key(segment_start(segments, k))
    &&& forall|k: int|
        0 <= k < segments.len() && files.contains_key(#[trigger] segment_start(segments, k))
            ==> files[segment_start(segments, k)] == stored(segments[k])
    &&& forall|id: int| #[trigger]
        files.contains_key(id) ==> exists|k: int|
            0 <= k < segments.len() && id == #[trigger] segment_start(segments, k)
}

/// Whether a writer stands at the end of the log.
pub open spec fn at_end(state: WriterState, segments: Seq<Seq<Seq<u8>>>) -> bool {
    &&& state.segment == segment_start(segments, segments.len() - 1)
    &&& state.offset == stored(segments.last()).len()
    &&& state.max_segment_size >= 0
}

proof fn lemma_stored_concat(a: Seq<Seq<u8>>, b: Seq<Seq<u8>>)
    ensures
        stored(a + b) == stored(a) + stored(b),
    decreases a.len(),
{
    if a.len() == 0 {
        assert(a + b =~= b);
        assert(stored(a) + stored(b) =~= stored(b));
    } else {
        assert((a + b).drop_first() =~= a.drop_first() + b);
        lemma_stored_concat(a.drop_first(), b);
        assert(stored(a + b) =~= stored(a) + stored(b));
    }
}

proof fn lemma_stored_one(record: Seq<u8>)
    ensures
        stored(seq![record]) == record.push(NEWLINE),
{
    let one = seq![record];
    assert(one.drop_first() =~= Seq::<Seq<u8>>::empty());
    assert(stored(one.drop_first()) =~= Seq::<u8>::empty());
    assert(stored(one) =~= record.push(NEWLINE));
}

proof fn lemma_stored_len(records: Seq<Seq<u8>>)
    ensures
        stored(records).len() >= records.len(),
        stored(records).len() == total_len(stored_lines(records)),
    decreases records.len(),
{
    if records.len() > 0 {
        let init = records.drop_last();
        assert(records =~= init + seq![records.last()]);
        lemma_stored_len(init);
        lemma_stored_concat(init, seq![records.last()]);
        lemma_stored_one(records.last());
        assert(stored_lines(records).drop_last() =~= stored_lines(init));
    }
}

proof fn lemma_log_records_concat(a: Seq<Seq<Seq<u8>>>, b: Seq<Seq<Seq<u8>>>)
    ensures
        log_records(a + b) == log_records(a) + log_records(b),
    decreases a.len(),
{
    if a.len() == 0 {
        assert(a + b =~= b);
        assert(log_records(a) + log_records(b) =~= log_records(b));
    } else {
        assert((a + b).drop_first() =~= a.drop_first() + b);
        lemma_log_records_concat(a.drop_first(), b);
        assert(log_records(a + b) =~= log_records(a) + log_records(b));
    }
}

proof fn lemma_log_records_one(segment: Seq<Seq<u8>>)
    ensures
        log_records(seq![segment]) == segment,
{
    let one = seq![segment];
    assert(one.drop_first() =~= Seq::<Seq<Seq<u8>>>::empty());
    assert(log_records(one.drop_first()) =~= Seq::<Seq<u8>>::empty());
    assert(log_records(one) =~= segment);
}

/// A segment begins where the one before it ends.
proof fn lemma_segment_start_next(segments: Seq<Seq<Seq<u8>>>, k: int)
    requires
        0 <= k < segments.len(),
    ensures
        log_records(segments.take(k + 1)) == log_records(segments.take(k)) + segments[k],
        segment_start(segments, k + 1) == segment_start(segments, k) + stored(segments[k]).len(),
{
    assert(segments.take(k + 1) =~= segments.take(k) + seq![segments[k]]);
    lemma_log_records_concat(segments.take(k), seq![segments[k]]);
    lemma_log_records_one(segments[k]);
    lemma_stored_concat(log_records(segments.take(k)), segments[k]);
}

/// Later segments begin later, if those between have records.
proof fn lemma_segment_starts_rise(segments: Seq<Seq<Seq<u8>>>, a: int, b: int)
    requires
        is_log(segments),
        0 <= a <= b < segments.len(),
    ensures
        segment_start(segments, a) <= segment_start(segments, b),
        a < b ==> segment_start(segments, a) + stored(segments[a]).len() <= segment_start(
            segments,
            b,
        ),
        a < b ==> segment_start(segments, a) < segment_start(segments, b),
    decreases b,
{
    if a < b {
        lemma_segment_starts_rise(segments, a, b - 1);
        lemma_segment_start_next(segments, b - 1);
        lemma_stored_len(segments[b - 1]);
    }
}

/// The line that a record makes is text, and its text is the record.
pub proof fn law_line_is_record(record: Seq<u8>)
    requires
        is_line_text(record),
    ensures
        valid_utf8(record.push(NEWLINE)),
        line_text(record.push(NEWLINE)) == record,
{
    let end = seq![NEWLINE];
    assert(valid_utf8(end)) by {
        reveal_with_fuel(valid_utf8, 2);
        assert(pop_first_scalar(end) =~= Seq::<u8>::empty());
    }
    valid_utf8_concat(record, end);
    assert(record + end =~= record.push(NEWLINE));
    assert(line_text(record.push(NEWLINE)) =~= record);
}

proof fn lemma_line_len_of_record(record: Seq<u8>, rest: Seq<u8>)
    requires
        forall|i: int| 0 <= i < record.len() ==> #[trigger] record[i] != NEWLINE,
    ensures
        line_len(record.push(NEWLINE) + rest) == record.len() + 1,
    decreases record.len(),
{
    let bytes = record.push(NEWLINE) + rest;
    if record.len() > 0 {
        assert(bytes[0] == record[0]);
        assert(bytes.drop_first() =~= record.drop_first().push(NEWLINE) + rest);
        assert forall|i: int| 0 <= i < record.drop_first().len() implies
            #[trigger] record.drop_first()[i] != NEWLINE by {
            assert(record[i + 1] != NEWLINE);
        }
        lemma_line_len_of_record(record.drop_first(), rest);
    } else {
        assert(bytes[0] == NEWLINE);
    }
}

/// The lines of a file in which records were stored are these records, each with its newline,
/// in their order.
pub proof fn law_stored_lines(records: Seq<Seq<u8>>)
    requires
        forall|i: int| 0 <= i < records.len() ==> is_line_text(#[trigger] records[i]),
    ensures
        lines(stored(records)) == stored_lines(records),
        line_texts(lines(stored(records))) == records,
    decreases records.len(),
{
    if records.len() == 0 {
        assert(lines(stored(records)) =~= stored_lines(records));
        assert(line_texts(lines(stored(records))) =~= records);
    } else {
        let first = records[0];
        let rest = records.drop_first();
        assert forall|i: int| 0 <= i < rest.len() implies is_line_text(#[trigger] rest[i]) by {
            assert(records[i + 1] == rest[i]);
        }
        law_stored_lines(rest);
        lemma_line_len_of_record(first, stored(rest));
        let n = first.len() + 1;
        assert(stored(records).take(n as int) =~= first.push(NEWLINE));
        assert(stored(records).skip(n as int) =~= stored(rest));
        assert(lines(stored(records)) =~= stored_lines(records));
        assert forall|i: int| 0 <= i < records.len() implies line_text(
            #[trigger] stored_lines(records)[i],
        ) == records[i] by {
            law_line_is_record(records[i]);
        }
        assert(line_texts(lines(stored(records))) =~= records);
    }
}

/// The files after `bytes` were appended to the one with the name `id`, which was created if it
/// was not there.
pub open spec fn appended(files: Map<int, Seq<u8>>, id: int, bytes: Seq<u8>) -> Map<int, Seq<u8>> {
    let before = if files.contains_key(id) {
        files[id]
    } else {
        Seq::empty()
    };
    files.insert(id, before + bytes)
}

/// The segments after a writer that stands at `state`, at their end, wrote a record.
pub open spec fn segments_after(
    segments: Seq<Seq<Seq<u8>>>,
    state: WriterState,
    record: Seq<u8>,
) -> Seq<Seq<Seq<u8>>> {
    let grown = segments.drop_last().push(segments.last().push(record));
    if state.rolls(record.len() as int + 1) {
        grown.push(Seq::empty())
    } else {
        grown
    }
}

/// The log of a new directory is empty. It is held by the file that is created there, and a writer
/// that begins with that file stands at its end.
pub proof fn law_log_begins(state: WriterState)
    requires
        state.segment == 0,
        state.offset == 0,
        state.max_segment_size >= 0,
    ensures
        is_log(seq![Seq::empty()]),
        files_hold(map![0int => Seq::empty()], seq![Seq::empty()]),
        at_end(state, seq![Seq::empty()]),
        log_records(seq![Seq::empty()]) == Seq::<Seq<u8>>::empty(),
{
    let segments = seq![Seq::<Seq<u8>>::empty()];
    lemma_log_records_one(segments[0]);
    assert(segments.take(0) =~= Seq::empty());
    assert(segment_start(segments, 0) == 0);
    assert(segments.last() == segments[0]);
    assert(needs_file(segments, 0));
}

/// Where segments begin depends on those before them alone.
proof fn lemma_same_start(a: Seq<Seq<Seq<u8>>>, b: Seq<Seq<Seq<u8>>>, k: int)
    requires
        0 <= k <= a.len(),
        k <= b.len(),
        forall|i: int| 0 <= i < k ==> #[trigger] a[i] == b[i],
    ensures
        segment_start(a, k) == segment_start(b, k),
{
    assert(a.take(k) =~= b.take(k));
}

/// To write a record, which can be any bytes, keeps the log in order: the record comes behind those
/// that were there, which stay as they were, the files hold the new log, and the writer stands at
/// its end.
pub proof fn law_write_extends_log(
    segments: Seq<Seq<Seq<u8>>>,
    files: Map<int, Seq<u8>>,
    state: WriterState,
    record: Seq<u8>,
)
    requires
        is_log(segments),
        files_hold(files, segments),
        at_end(state, segments),
    ensures
        ({
            let next = segments_after(segments, state, record);
            &&& is_log(next)
            &&& files_hold(appended(files, state.segment, record.push(NEWLINE)), next)
            &&& at_end(state.advanced(record.len() as int + 1), next)
            &&& log_records(next) == log_records(segments).push(record)
        }),
{
    let n = segments.len() as int;
    let last = segments.last();
    let grown = segments.drop_last().push(last.push(record));
    let next = segments_after(segments, state, record);
    let now = appended(files, state.segment, record.push(NEWLINE));
    let end = segment_start(segments, n - 1);
    assert(last == segments[n - 1]);

    // The records.
    assert(segments =~= segments.drop_last() + seq![last]);
    assert(grown =~= segments.drop_last() + seq![last.push(record)]);
    lemma_log_records_concat(segments.drop_last(), seq![last]);
    lemma_log_records_concat(segments.drop_last(), seq![last.push(record)]);
    lemma_log_records_one(last);
    lemma_log_records_one(last.push(record));
    assert(log_records(grown) =~= log_records(segments).push(record));
    lemma_log_records_concat(grown, seq![Seq::empty()]);
    lemma_log_records_one(Seq::empty());
    assert(grown.push(Seq::empty()) =~= grown + seq![Seq::empty()]);
    assert(log_records(grown) + Seq::<Seq<u8>>::empty() =~= log_records(grown));
    assert forall|k: int| 0 <= k < next.len() - 1 implies (#[trigger] next[k]).len() > 0 by {
        if k < n - 1 {
            assert(next[k] == segments[k]);
        }
    }

    // The file of the last segment.
    assert(last.push(record) =~= last + seq![record]);
    lemma_stored_concat(last, seq![record]);
    lemma_stored_one(record);
    if files.contains_key(end) {
        assert(files[end] == stored(last));
    } else {
        assert(!needs_file(segments, n - 1));
        assert(stored(last) =~= Seq::<u8>::empty());
    }
    assert(now[end] =~= stored(last.push(record)));

    // The writer.
    lemma_same_start(segments, next, n - 1);
    lemma_segment_start_next(next, n - 1);
    assert(next[n - 1] == last.push(record));
    assert(at_end(state.advanced(record.len() as int + 1), next));

    // The files.
    assert forall|k: int| 0 <= k < n - 1 implies #[trigger] segment_start(next, k)
        == segment_start(segments, k) && segment_start(segments, k) < end by {
        lemma_same_start(segments, next, k);
        lemma_segment_starts_rise(segments, k, n - 1);
    }
    assert forall|k: int| #[trigger] needs_file(next, k) implies now.contains_key(
        segment_start(next, k),
    ) by {
        if k < n - 1 {
            assert(needs_file(segments, k));
        }
    }
    assert forall|k: int|
        0 <= k < next.len() && now.contains_key(
            #[trigger] segment_start(next, k),
        ) implies now[segment_start(next, k)] == stored(next[k]) by {
        if k < n - 1 {
            assert(next[k] == segments[k]);
            assert(files.contains_key(segment_start(segments, k)));
        } else if k == n {
            lemma_stored_len(next[n - 1]);
            if files.contains_key(segment_start(next, n)) {
                let other = choose|other: int|
                    0 <= other < n && segment_start(next, n) == #[trigger] segment_start(
                        segments,
                        other,
                    );
                lemma_segment_starts_rise(segments, other, n - 1);
            }
        }
    }
    assert forall|id: int| #[trigger] now.contains_key(id) implies exists|k: int|
        0 <= k < next.len() && id == #[trigger] segment_start(next, k) by {
        if id == end {
            assert(id == segment_start(next, n - 1));
        } else {
            assert(files.contains_key(id));
            let k = choose|k: int|
                0 <= k < n && id == #[trigger] segment_start(segments, k);
            assert(id == segment_start(next, k));
        }
    }
}

/// A write that fails once the file was opened leaves the log as it was, though the file of a
/// segment that has no records may be there after that. The writer stands where it stood.
pub proof fn law_failed_write(
    segments: Seq<Seq<Seq<u8>>>,
    files: Map<int, Seq<u8>>,
    state: WriterState,
)
    requires
        is_log(segments),
        files_hold(files, segments),
        at_end(state, segments),
    ensures
        files_hold(appended(files, state.segment, Seq::empty()), segments),
        appended(files, state.segment, Seq::empty()).contains_key(state.segment),
{
    let n = segments.len() as int;
    let now = appended(files, state.segment, Seq::empty());
    let end = segment_start(segments, n - 1);
    assert(segments.last() == segments[n - 1]);
    if files.contains_key(end) {
        assert(files[end] == stored(segments[n - 1]));
        assert(now[end] =~= files[end]);
    } else {
        assert(!needs_file(segments, n - 1));
        assert(now[end] =~= stored(segments[n - 1]));
    }
    assert forall|k: int| #[trigger] needs_file(segments, k) implies now.contains_key(
        segment_start(segments, k),
    ) by {
        assert(files.contains_key(segment_start(segments, k)));
    }
    assert forall|k: int|
        0 <= k < n && now.contains_key(
            #[trigger] segment_start(segments, k),
        ) implies now[segment_start(segments, k)] == stored(segments[k]) by {
        if k < n - 1 {
            lemma_segment_starts_rise(segments, k, n - 1);
        }
    }
}

/// Whether the log is cut where a writer with this limit cuts it: each segment but the newest holds
/// more bytes than that.
pub open spec fn cut_at(segments: Seq<Seq<Seq<u8>>>, max_segment_size: int) -> bool {
    forall|k: int|
        0 <= k < segments.len() - 1 ==> stored(#[trigger] segments[k]).len() > max_segment_size
}

/// To write a record keeps each segment but the newest larger than the writer's limit, and leaves
/// the newest no larger than that. A record is in one segment as a whole, and no segment that was
/// done changes.
pub proof fn law_write_cuts_log(
    segments: Seq<Seq<Seq<u8>>>,
    state: WriterState,
    record: Seq<u8>,
)
    requires
        is_log(segments),
        at_end(state, segments),
        cut_at(segments, state.max_segment_size),
    ensures
        ({
            let next = segments_after(segments, state, record);
            let n = segments.len() as int;
            &&& cut_at(next, state.max_segment_size)
            &&& stored(next.last()).len() <= state.max_segment_size
            &&& next.take(n - 1) == segments.take(n - 1)
            &&& next[n - 1] == segments[n - 1].push(record)
            &&& next.skip(n) == if state.rolls(record.len() as int + 1) {
                seq![Seq::<Seq<u8>>::empty()]
            } else {
                Seq::empty()
            }
        }),
{
    let n = segments.len() as int;
    let last = segments.last();
    let next = segments_after(segments, state, record);
    assert(last.push(record) =~= last + seq![record]);
    lemma_stored_concat(last, seq![record]);
    lemma_stored_one(record);
    assert(next[n - 1] == last.push(record));
    assert forall|k: int| 0 <= k < next.len() - 1 implies stored(#[trigger] next[k]).len()
        > state.max_segment_size by {
        if k < n - 1 {
            assert(next[k] == segments[k]);
        }
    }
    assert(next.take(n - 1) =~= segments.take(n - 1));
    assert(next.last() == next[next.len() - 1]);
}

/// What the files of the first `k` segments hold, one behind the other.
pub open spec fn joined(
    files: Map<int, Seq<u8>>,
    segments: Seq<Seq<Seq<u8>>>,
    k: int,
) -> Seq<u8>
    decreases k,
{
    if k <= 0 {
        Seq::empty()
    } else {
        joined(files, segments, k - 1) + if files.contains_key(segment_start(segments, k - 1)) {
            files[segment_start(segments, k - 1)]
        } else {
            Seq::empty()
        }
    }
}

/// The files, one behind the other in the order of their numbers, hold the records of the log, each
/// with a newline. A file's number is the number of bytes in those before it.
pub proof fn law_files_joined(files: Map<int, Seq<u8>>, segments: Seq<Seq<Seq<u8>>>, k: int)
    requires
        is_log(segments),
        files_hold(files, segments),
        0 <= k <= segments.len(),
    ensures
        joined(files, segments, k) == stored(log_records(segments.take(k))),
        joined(files, segments, k).len() == segment_start(segments, k),
        joined(files, segments, segments.len() as int) == stored(log_records(segments)),
        forall|a: int, b: int|
            0 <= a < b < segments.len() ==> #[trigger] segment_start(segments, a)
                < #[trigger] segment_start(segments, b),
{
    lemma_files_joined(files, segments, k);
    lemma_files_joined(files, segments, segments.len() as int);
    assert(segments.take(segments.len() as int) =~= segments);
    assert forall|a: int, b: int| 0 <= a < b < segments.len() implies #[trigger] segment_start(
        segments,
        a,
    ) < #[trigger] segment_start(segments, b) by {
        lemma_segment_starts_rise(segments, a, b);
    }
}

proof fn lemma_files_joined(files: Map<int, Seq<u8>>, segments: Seq<Seq<Seq<u8>>>, k: int)
    requires
        files_hold(files, segments),
        0 <= k <= segments.len(),
    ensures
        joined(files, segments, k) == stored(log_records(segments.take(k))),
    decreases k,
{
    if k == 0 {
        assert(segments.take(0) =~= Seq::<Seq<Seq<u8>>>::empty());
        assert(joined(files, segments, 0) =~= stored(log_records(segments.take(0))));
    } else {
        lemma_files_joined(files, segments, k - 1);
        lemma_segment_start_next(segments, k - 1);
        lemma_stored_concat(log_records(segments.take(k - 1)), segments[k - 1]);
        if files.contains_key(segment_start(segments, k - 1)) {
            assert(files[segment_start(segments, k - 1)] == stored(segments[k - 1]));
        } else {
            assert(!needs_file(segments, k - 1));
            assert(stored(segments[k - 1]) =~= Seq::<u8>::empty());
        }
    }
}

/// Whether `later` is what `segments` can become by writing: the newest of them may have more
/// records, and others may follow it.
pub open spec fn extends(later: Seq<Seq<Seq<u8>>>, segments: Seq<Seq<Seq<u8>>>) -> bool {
    let n = segments.len() as int;
    &&& 0 < n <= later.len()
    &&& later.take(n - 1) == segments.take(n - 1)
    &&& segments[n - 1].is_prefix_of(later[n - 1])
}

proof fn lemma_extends_further(
    last: Seq<Seq<Seq<u8>>>,
    later: Seq<Seq<Seq<u8>>>,
    segments: Seq<Seq<Seq<u8>>>,
)
    requires
        extends(last, later),
        extends(later, segments),
    ensures
        extends(last, segments),
{
    let n = segments.len() as int;
    let m = later.len() as int;
    assert forall|k: int| 0 <= k < n - 1 implies last[k] == segments[k] by {
        assert(last.take(m - 1)[k] == later.take(m - 1)[k]);
        assert(later.take(n - 1)[k] == segments.take(n - 1)[k]);
    }
    assert(last.take(n - 1) =~= segments.take(n - 1));
    if n < m {
        assert(last.take(m - 1)[n - 1] == later.take(m - 1)[n - 1]);
    }
}

/// A log with its files and its writer.
pub struct Log {
    pub segments: Seq<Seq<Seq<u8>>>,
    pub files: Map<int, Seq<u8>>,
    pub state: WriterState,
}

impl Log {
    /// The log of a new directory, with a writer that begins with its file.
    pub open spec fn new(dir: ShardDir, max_segment_size: u64) -> Log {
        Log {
            segments: seq![Seq::empty()],
            files: map![0int => Seq::empty()],
            state: WriterState {
                dir,
                segment: 0,
                offset: 0,
                max_segment_size: max_segment_size as int,
            },
        }
    }

    /// Whether the files hold the log, the writer stands at its end, and the log is cut where the
    /// writer cuts it.
    pub open spec fn in_order(self) -> bool {
        &&& is_log(self.segments)
        &&& files_hold(self.files, self.segments)
        &&& at_end(self.state, self.segments)
        &&& cut_at(self.segments, self.state.max_segment_size)
    }

    /// The log after the writer wrote `records`, one after the other.
    pub open spec fn wrote(self, records: Seq<Seq<u8>>) -> Log
        decreases records.len(),
    {
        if records.len() == 0 {
            self
        } else {
            let before = self.wrote(records.drop_last());
            let record = records.last();
            Log {
                segments: segments_after(before.segments, before.state, record),
                files: appended(before.files, before.state.segment, record.push(NEWLINE)),
                state: before.state.advanced(record.len() as int + 1),
            }
        }
    }
}

/// However many records a writer writes, and whatever bytes these are, the log is in order after
/// them. Its records are those that it had and the written ones behind them, in the order in which
/// they were written.
pub proof fn law_writes_in_order(log: Log, records: Seq<Seq<u8>>)
    requires
        log.in_order(),
    ensures
        log.wrote(records).in_order(),
        log_records(log.wrote(records).segments) == log_records(log.segments) + records,
        log.wrote(records).state.max_segment_size == log.state.max_segment_size,
        log.wrote(records).state.dir == log.state.dir,
        log.wrote(records).segments.len() <= log.segments.len() + records.len(),
        extends(log.wrote(records).segments, log.segments),
    decreases records.len(),
{
    if records.len() == 0 {
        assert(log_records(log.segments) + records =~= log_records(log.segments));
    } else {
        let earlier = records.drop_last();
        let record = records.last();
        law_writes_in_order(log, earlier);
        let before = log.wrote(earlier);
        law_write_extends_log(before.segments, before.files, before.state, record);
        law_write_cuts_log(before.segments, before.state, record);
        lemma_extends_further(log.wrote(records).segments, before.segments, log.segments);
        assert(log_records(log.wrote(records).segments) =~= log_records(log.segments) + records);
    }
}

/// A new log is in order and has no records.
pub proof fn law_new_log(dir: ShardDir, max_segment_size: u64)
    ensures
        Log::new(dir, max_segment_size).in_order(),
        log_records(Log::new(dir, max_segment_size).segments) == Seq::<Seq<u8>>::empty(),
{
    let log = Log::new(dir, max_segment_size);
    law_log_begins(log.state);
}

/// The segments as they are found by their files: a last one that was begun but has no file is not
/// there.
pub open spec fn segments_found(
    segments: Seq<Seq<Seq<u8>>>,
    files: Map<int, Seq<u8>>,
) -> Seq<Seq<Seq<u8>>> {
    if files.contains_key(segment_start(segments, segments.len() - 1)) {
        segments
    } else {
        segments.drop_last()
    }
}

/// Whether `ids` lists the files, in any order.
pub open spec fn lists(ids: Seq<SegmentId>, files: Map<int, Seq<u8>>) -> bool {
    &&& forall|i: int| 0 <= i < ids.len() ==> files.contains_key(#[trigger] ids[i] as int)
    &&& forall|id: int| #[trigger]
        files.contains_key(id) ==> 0 <= id <= u64::MAX && ids.contains(id as u64)
}

/// The segments that are found are a log, with the same records and the same files.
proof fn lemma_segments_found(segments: Seq<Seq<Seq<u8>>>, files: Map<int, Seq<u8>>)
    requires
        is_log(segments),
        files_hold(files, segments),
    ensures
        ({
            let found = segments_found(segments, files);
            &&& is_log(found)
            &&& files.contains_key(segment_start(found, found.len() - 1))
            &&& forall|k: int| 0 <= k < found.len() ==> found[k] == #[trigger] segments[k]
            &&& files_hold(files, found)
            &&& log_records(found) == log_records(segments)
        }),
{
    let n = segments.len() as int;
    let found = segments_found(segments, files);
    let m = found.len() as int;
    assert(needs_file(segments, 0));
    assert(segments.last() == segments[n - 1]);
    if m < n {
        assert(!needs_file(segments, n - 1));
        assert(needs_file(segments, n - 2));
        assert(segments =~= found + seq![segments.last()]);
        lemma_log_records_concat(found, seq![segments.last()]);
        lemma_log_records_one(segments.last());
        assert(log_records(found) + segments.last() =~= log_records(found));
    }
    assert forall|k: int| 0 <= k < m implies #[trigger] segment_start(found, k) == segment_start(
        segments,
        k,
    ) by {
        lemma_same_start(found, segments, k);
    }
    assert(files.contains_key(segment_start(segments, m - 1)));
    assert forall|k: int| #[trigger] needs_file(found, k) implies files.contains_key(
        segment_start(found, k),
    ) by {
        assert(needs_file(segments, k));
    }
    assert forall|k: int|
        0 <= k < m && files.contains_key(
            #[trigger] segment_start(found, k),
        ) implies files[segment_start(found, k)] == stored(found[k]) by {
        assert(files[segment_start(segments, k)] == stored(segments[k]));
    }
    assert forall|id: int| #[trigger] files.contains_key(id) implies exists|k: int|
        0 <= k < m && id == #[trigger] segment_start(found, k) by {
        let k = choose|k: int| 0 <= k < n && id == #[trigger] segment_start(segments, k);
        assert(id == segment_start(found, k));
    }
}

/// The oldest segment of a log begins with its first record, and the latest is the last one that
/// has a file. A reading can begin at both. This holds as long as the files' names
/// have eight digits.
pub proof fn law_iterators(
    segments: Seq<Seq<Seq<u8>>>,
    files: Map<int, Seq<u8>>,
    ids: Seq<SegmentId>,
)
    requires
        is_log(segments),
        files_hold(files, segments),
        lists(ids, files),
        forall|i: int| 0 <= i < ids.len() ==> #[trigger] ids[i] < 100_000_000,
    ensures
        oldest_listed(segment_names(ids)) == Some(0u64),
        record_position(segments, 0) == 0,
        latest_listed(segment_names(ids)) matches Some(latest) && {
            let found = segments_found(segments, files);
            let j = log_records(found.take(found.len() - 1)).len() as int;
            &&& files.contains_key(latest as int)
            &&& latest == segment_start(found, found.len() - 1)
            &&& 0 <= j <= log_records(segments).len()
            &&& latest == record_position(segments, j)
        },
{
    let found = segments_found(segments, files);
    let m = found.len() as int;
    lemma_segments_found(segments, files);
    assert(log_records(segments).take(0) =~= Seq::<Seq<u8>>::empty());
    assert(found.take(0) =~= Seq::<Seq<Seq<u8>>>::empty());
    assert(segment_start(found, 0) == 0);
    assert(needs_file(found, 0));
    assert(files.contains_key(0));
    let end = segment_start(found, m - 1);
    assert(files.contains_key(end));
    law_latest_and_oldest(ids);
    let latest = latest_listed(segment_names(ids)).unwrap();
    let g = choose|g: int| 0 <= g < ids.len() && ids[g] == latest;
    assert(files.contains_key(ids[g] as int));
    let k = choose|k: int| 0 <= k < m && latest == #[trigger] segment_start(found, k);
    lemma_segment_starts_rise(found, k, m - 1);
    let e = choose|e: int| 0 <= e < ids.len() && ids[e] == end as u64;
    assert(ids[e] <= latest);
    let z = choose|z: int| 0 <= z < ids.len() && ids[z] == 0u64;
    assert(ids[z] == 0);
    lemma_segment_start_next(found, m - 1);
    assert(found.take(m) =~= found);
    let before = log_records(found.take(m - 1));
    assert(log_records(segments).take(before.len() as int) =~= before);
}

/// A log that is opened again has all its records. The file with the last name is the one to
/// write to: a writer that begins at its end stands at the end of the log, and the log is cut where
/// it was. This holds as long as the files' names have eight digits.
pub proof fn law_log_reopened(
    segments: Seq<Seq<Seq<u8>>>,
    files: Map<int, Seq<u8>>,
    ids: Seq<SegmentId>,
    state: WriterState,
)
    requires
        is_log(segments),
        files_hold(files, segments),
        lists(ids, files),
        forall|i: int| 0 <= i < ids.len() ==> #[trigger] ids[i] < 100_000_000,
        latest_listed(segment_names(ids)) matches Some(latest) && state.segment == latest
            && state.offset == files[latest as int].len(),
        state.max_segment_size >= 0,
    ensures
        is_log(segments_found(segments, files)),
        files_hold(files, segments_found(segments, files)),
        at_end(state, segments_found(segments, files)),
        log_records(segments_found(segments, files)) == log_records(segments),
        cut_at(segments, state.max_segment_size) ==> cut_at(
            segments_found(segments, files),
            state.max_segment_size,
        ),
        files.contains_key(state.segment),
{
    let found = segments_found(segments, files);
    lemma_segments_found(segments, files);
    law_iterators(segments, files, ids);
    assert(found.last() == found[found.len() - 1]);
}

/// What a file holds from the place `offset` on.
pub open spec fn rest_of(file: Seq<u8>, offset: int) -> Seq<u8> {
    if offset <= file.len() {
        file.skip(offset)
    } else {
        Seq::empty()
    }
}

/// What a reader has read in the end, and the offset it is at then, if it has `records` and goes
/// on with `rest`, which is what is left of a file, and after that with `more_files` files at most.
/// None if a position does not fit in 64 bits, a line is not text or a file is not there.
pub open spec fn read_through(
    files: Map<int, Seq<u8>>,
    reader: ShardReader,
    rest: Seq<u8>,
    records: Seq<Seq<u8>>,
    more_files: nat,
) -> Option<(Seq<Seq<u8>>, int)>
    decreases more_files,
{
    let count = records.len() as int;
    let k = reader.taken(rest, count) as int;
    let read = records + line_texts(lines(rest).take(k));
    let offset = reader.offset_after(rest, k);
    if !reader.can_read(rest, count) || reader.segment_id + offset > u64::MAX {
        None
    } else {
        match reader.step_after(rest, count) {
            Err(_) => None,
            Ok(ReadStep::Finished) => Some((read, offset)),
            Ok(ReadStep::Roll(_)) => {
                let id = reader.segment_id + offset;
                if more_files > 0 && files.contains_key(id) {
                    read_through(
                        files,
                        ShardReader { offset: offset as u64, ..reader },
                        files[id],
                        read,
                        (more_files - 1) as nat,
                    )
                } else {
                    None
                }
            },
        }
    }
}

proof fn lemma_total_len_concat(a: Seq<Seq<u8>>, b: Seq<Seq<u8>>)
    ensures
        total_len(a + b) == total_len(a) + total_len(b),
    decreases b.len(),
{
    if b.len() == 0 {
        assert(a + b =~= a);
    } else {
        assert((a + b).drop_last() =~= a + b.drop_last());
        lemma_total_len_concat(a, b.drop_last());
    }
}

proof fn lemma_total_len_first(lines: Seq<Seq<u8>>, k: int)
    requires
        0 < k <= lines.len(),
    ensures
        total_len(lines.take(k)) == lines[0].len() + total_len(lines.drop_first().take(k - 1)),
{
    let one = seq![lines[0]];
    assert(lines.take(k) =~= one + lines.drop_first().take(k - 1));
    lemma_total_len_concat(one, lines.drop_first().take(k - 1));
    assert(one.drop_last() =~= Seq::<Seq<u8>>::empty());
    assert(total_len(one.drop_last()) == 0);
    assert(total_len(one) == lines[0].len());
}

/// Of lines that are text a reader takes those up to the first behind which it stops.
proof fn lemma_taken_exactly(reader: ShardReader, lines: Seq<Seq<u8>>, offset: int, count: int)
    requires
        forall|i: int| 0 <= i < lines.len() ==> valid_utf8(#[trigger] lines[i]),
    ensures
        ({
            let t = reader.lines_taken(lines, offset, count) as int;
            &&& t <= lines.len()
            &&& lines.len() > 0 ==> t > 0
            &&& forall|i: int|
                0 < i < t ==> !reader.stops(
                    offset + total_len(#[trigger] lines.take(i)),
                    count + i,
                )
            &&& t < lines.len() ==> reader.stops(offset + total_len(lines.take(t)), count + t)
        }),
    decreases lines.len(),
{
    if lines.len() > 0 {
        lemma_total_len_first(lines, 1);
        assert(lines.drop_first().take(0) =~= Seq::<Seq<u8>>::empty());
        let next = offset + lines[0].len();
        if !reader.stops(next, count + 1) {
            let rest = lines.drop_first();
            assert forall|i: int| 0 <= i < rest.len() implies valid_utf8(#[trigger] rest[i]) by {
                assert(rest[i] == lines[i + 1]);
            }
            lemma_taken_exactly(reader, rest, next, count + 1);
            let t = reader.lines_taken(lines, offset, count) as int;
            assert forall|i: int| 0 < i < t implies !reader.stops(
                offset + total_len(#[trigger] lines.take(i)),
                count + i,
            ) by {
                lemma_total_len_first(lines, i);
                if i > 1 {
                    assert(!reader.stops(next + total_len(rest.take(i - 1)), count + 1 + (i - 1)));
                }
            }
            lemma_total_len_first(lines, t);
        }
    }
}

/// A reader that does not stop among some lines goes on with those that follow, as if there were
/// no cut between them.
proof fn lemma_taken_concat(
    reader: ShardReader,
    a: Seq<Seq<u8>>,
    b: Seq<Seq<u8>>,
    offset: int,
    count: int,
)
    requires
        forall|i: int| 0 <= i < a.len() ==> valid_utf8(#[trigger] a[i]),
    ensures
        ({
            let t = reader.lines_taken(a, offset, count) as int;
            if t > 0 && reader.stops(offset + total_len(a.take(t)), count + t) {
                reader.lines_taken(a + b, offset, count) == t
            } else {
                &&& t == a.len()
                &&& reader.lines_taken(a + b, offset, count) == t + reader.lines_taken(
                    b,
                    offset + total_len(a),
                    count + t,
                )
            }
        }),
    decreases a.len(),
{
    if a.len() == 0 {
        assert(a + b =~= b);
    } else {
        let rest = a.drop_first();
        let next = offset + a[0].len();
        assert((a + b).drop_first() =~= rest + b);
        assert((a + b)[0] == a[0]);
        lemma_total_len_first(a, 1);
        assert(rest.take(0) =~= Seq::<Seq<u8>>::empty());
        if !reader.stops(next, count + 1) {
            assert forall|i: int| 0 <= i < rest.len() implies valid_utf8(#[trigger] rest[i]) by {
                assert(rest[i] == a[i + 1]);
            }
            lemma_taken_concat(reader, rest, b, next, count + 1);
            lemma_taken_exactly(reader, rest, next, count + 1);
            let t = reader.lines_taken(a, offset, count) as int;
            lemma_total_len_first(a, t);
            lemma_total_len_first(a, a.len() as int);
            assert(a.take(a.len() as int) =~= a);
            assert(rest.take(rest.len() as int) =~= rest);
        }
    }
}

/// How the records of a reading relate to the lines: taking lines of stored records is taking
/// records.
proof fn lemma_take_stored(records: Seq<Seq<u8>>, t: int)
    requires
        0 <= t <= records.len(),
        forall|i: int| 0 <= i < records.len() ==> is_line_text(#[trigger] records[i]),
    ensures
        lines(stored(records)) == stored_lines(records),
        line_texts(lines(stored(records)).take(t)) == records.take(t),
        total_len(stored_lines(records).take(t)) == stored(records.take(t)).len(),
        forall|i: int|
            0 <= i < records.len() ==> valid_utf8(#[trigger] stored_lines(records)[i]),
{
    law_stored_lines(records);
    lemma_stored_len(records.take(t));
    assert(stored_lines(records).take(t) =~= stored_lines(records.take(t)));
    assert forall|i: int| 0 <= i < records.len() implies line_text(
        #[trigger] stored_lines(records)[i],
    ) == records[i] && valid_utf8(stored_lines(records)[i]) by {
        law_line_is_record(records[i]);
    }
    assert(line_texts(lines(stored(records)).take(t)) =~= records.take(t));
}

/// What a reader takes of a file whose rest is `here`, if `later` follows: all up to where it
/// stops, and if it does not stop, it goes on with `later` as if there were no cut.
proof fn lemma_taken_here(
    reader: ShardReader,
    here: Seq<Seq<u8>>,
    later: Seq<Seq<u8>>,
    count: int,
)
    requires
        forall|i: int| 0 <= i < here.len() ==> is_line_text(#[trigger] here[i]),
        reader.segment_id + reader.offset + stored(here).len() <= u64::MAX,
    ensures
        ({
            let rest = stored(here);
            let t = reader.taken(rest, count) as int;
            let offset = reader.offset_after(rest, t);
            let todo = reader.lines_taken(
                stored_lines(here + later),
                reader.offset as int,
                count,
            );
            &&& t <= here.len()
            &&& lines(rest).len() == here.len()
            &&& line_texts(lines(rest).take(t)) == here.take(t)
            &&& offset == reader.offset + stored(here.take(t)).len()
            &&& reader.segment_id + offset <= u64::MAX
            &&& reader.can_read(rest, count)
            &&& here.len() > 0 ==> t > 0
            &&& if t > 0 && reader.stops(offset, count + t) {
                todo == t
            } else {
                &&& t == here.len()
                &&& here.take(t) == here
                &&& todo == t + reader.lines_taken(stored_lines(later), offset, count + t)
            }
        }),
{
    let rest = stored(here);
    let t = reader.taken(rest, count) as int;
    let a = stored_lines(here);
    let b = stored_lines(later);
    lemma_take_stored(here, here.len() as int);
    assert(stored_lines(here + later) =~= a + b);
    lemma_taken_concat(reader, a, b, reader.offset as int, count);
    lemma_taken_exactly(reader, a, reader.offset as int, count);
    lemma_take_stored(here, t);
    assert(a.take(a.len() as int) =~= a);
    assert(here.take(here.len() as int) =~= here);
    lemma_total_len_take(a, t, a.len() as int);
    if t > 0 {
        lemma_total_len_take(a, t - 1, t);
    }
}

/// A reader that is at the record `i` of the segment `k` reads on as if the log were one file.
#[verifier::spinoff_prover]
#[verifier::rlimit(40)]
proof fn lemma_read_through(
    segments: Seq<Seq<Seq<u8>>>,
    files: Map<int, Seq<u8>>,
    reader: ShardReader,
    k: int,
    i: int,
    records: Seq<Seq<u8>>,
    more_files: nat,
)
    requires
        is_log(segments),
        forall|x: int|
            0 <= x < segments[k].skip(i).len() + log_records(segments.skip(k + 1)).len()
                ==> is_line_text(
                #[trigger] (segments[k].skip(i) + log_records(segments.skip(k + 1)))[x],
            ),
        files_hold(files, segments),
        segment_start(segments, segments.len() as int) <= u64::MAX,
        0 <= k < segments.len(),
        0 <= i <= segments[k].len(),
        if i < segments[k].len() {
            ||| reader.latest_log_offset <= segment_start(segments, segments.len() as int)
            ||| reader.chunk_size <= records.len() + segments[k].skip(i).len() + log_records(
                segments.skip(k + 1),
            ).len()
        } else {
            &&& k == segments.len() - 1
            &&& reader.latest_log_offset <= reader.segment_id
        },
        reader.segment_id <= segment_start(segments, k),
        reader.segment_id + reader.offset == segment_start(segments, k) + stored(
            segments[k].take(i),
        ).len(),
        more_files >= segments.len() - k - 1,
    ensures
        ({
            let todo = segments[k].skip(i) + log_records(segments.skip(k + 1));
            let t = reader.lines_taken(
                stored_lines(todo),
                reader.offset as int,
                records.len() as int,
            ) as int;
            &&& t <= todo.len()
            &&& read_through(files, reader, stored(segments[k].skip(i)), records, more_files)
                == Some((records + todo.take(t), reader.offset + stored(todo.take(t)).len()))
        }),
    decreases segments.len() - k,
{
    let n = segments.len() as int;
    let here = segments[k].skip(i);
    let later = log_records(segments.skip(k + 1));
    let todo = here + later;
    let rest = stored(here);
    let offset = reader.offset as int;
    let count = records.len() as int;
    assert forall|x: int| 0 <= x < here.len() implies is_line_text(#[trigger] here[x]) by {
        assert(todo[x] == here[x]);
    }
    assert(segments[k] =~= segments[k].take(i) + here);
    lemma_stored_concat(segments[k].take(i), here);
    lemma_segment_start_next(segments, k);
    lemma_segment_starts_rise(segments, k, n - 1);
    lemma_segment_start_next(segments, n - 1);
    lemma_taken_here(reader, here, later, count);
    let t = reader.taken(rest, count) as int;
    if t > 0 && reader.stops(reader.offset_after(rest, t), count + t) {
        assert(todo.take(t) =~= here.take(t));
    } else if k == n - 1 {
        // Behind the last line of the log the reader stops, so there was no line.
        assert(segments.skip(k + 1) =~= Seq::<Seq<Seq<u8>>>::empty());
        assert(later =~= Seq::<Seq<u8>>::empty());
        assert(t == 0);
        assert(todo.take(0) =~= here.take(0));
    } else {
        // All of this segment was read, and the reader did not stop: so another record follows,
        // and the segment that it is in has a file.
        assert(t == here.len() && t > 0);
        if k + 1 == n - 1 {
            assert(segments.skip(k + 1) =~= seq![segments[k + 1]]);
            lemma_log_records_one(segments[k + 1]);
            assert(segments[k + 1].len() > 0);
        }
        assert(needs_file(segments, k + 1));
        assert(files.contains_key(segment_start(segments, k + 1)));
        let read = records + here;
        let next_offset = offset + stored(here).len();
        let next = ShardReader { offset: next_offset as u64, ..reader };
        assert(segments[k + 1].take(0) =~= Seq::<Seq<u8>>::empty());
        assert(segments[k + 1].skip(0) =~= segments[k + 1]);
        assert(segments.skip(k + 1).drop_first() =~= segments.skip(k + 2));
        assert(later =~= segments[k + 1] + log_records(segments.skip(k + 2)));
        assert forall|x: int| 0 <= x < later.len() implies is_line_text(#[trigger] later[x]) by {
            assert(todo[here.len() + x] == later[x]);
        }
        lemma_read_through(segments, files, next, k + 1, 0, read, (more_files - 1) as nat);
        let ls = stored_lines(later);
        next.lemma_same_limits(reader, ls, next_offset as int, read.len() as int);
        let u = next.lines_taken(ls, next_offset as int, read.len() as int) as int;
        assert(todo.take(t + u) =~= here + later.take(u));
        lemma_stored_concat(here, later.take(u));
        assert(read + later.take(u) =~= records + todo.take(t + u));
    }
}

/// The segment that holds the record `j`, and which of its records that is. The search begins
/// with the segment `k`.
proof fn lemma_find_record(segments: Seq<Seq<Seq<u8>>>, j: int, k: int) -> (found: (int, int))
    requires
        is_log(segments),
        0 <= j <= log_records(segments).len(),
        0 <= k < segments.len(),
        k == segments.len() - 1 || j < log_records(segments.take(k + 1)).len(),
    ensures
        ({
            let (k, i) = found;
            &&& 0 <= k < segments.len()
            &&& 0 <= i <= segments[k].len()
            &&& i < segments[k].len() || k == segments.len() - 1
            &&& record_position(segments, j) == segment_start(segments, k) + stored(
                segments[k].take(i),
            ).len()
            &&& log_records(segments).skip(j) == segments[k].skip(i) + log_records(
                segments.skip(k + 1),
            )
        }),
    decreases k,
{
    let before = log_records(segments.take(k));
    lemma_segment_start_next(segments, k);
    if j < before.len() {
        assert(k > 0) by {
            if k == 0 {
                assert(segments.take(0) =~= Seq::<Seq<Seq<u8>>>::empty());
            }
        }
        lemma_find_record(segments, j, k - 1)
    } else {
        let i = j - before.len();
        assert(segments =~= segments.take(k + 1) + segments.skip(k + 1));
        lemma_log_records_concat(segments.take(k + 1), segments.skip(k + 1));
        let all = log_records(segments);
        let later = log_records(segments.skip(k + 1));
        if k == segments.len() - 1 {
            assert(segments.skip(k + 1) =~= Seq::<Seq<Seq<u8>>>::empty());
            assert(later =~= Seq::<Seq<u8>>::empty());
        }
        assert(all.take(j) =~= before + segments[k].take(i));
        assert(all.skip(j) =~= segments[k].skip(i) + later);
        lemma_stored_concat(before, segments[k].take(i));
        (k, i)
    }
}

/// A position that is a record's is found in the file that holds the record.
proof fn lemma_record_located(
    segments: Seq<Seq<Seq<u8>>>,
    files: Map<int, Seq<u8>>,
    ids: Seq<SegmentId>,
    k: int,
    i: int,
)
    requires
        is_log(segments),
        files_hold(files, segments),
        lists(ids, files),
        segment_start(segments, segments.len() as int) <= i64::MAX,
        0 <= k < segments.len(),
        files.contains_key(segment_start(segments, k)),
        0 <= i <= segments[k].len(),
        i < segments[k].len() || k == segments.len() - 1,
    ensures
        ({
            let offset = stored(segments[k].take(i)).len();
            let position = (segment_start(segments, k) + offset) as u64;
            &&& can_locate(segment_names(ids), position)
            &&& located(segment_names(ids), position) == (segment_start(segments, k), offset as int)
            &&& rest_of(stored(segments[k]), offset as int) == stored(segments[k].skip(i))
        }),
{
    let n = segments.len() as int;
    let start = segment_start(segments, k);
    let offset = stored(segments[k].take(i)).len();
    let position = start + offset;
    assert(segments[k] =~= segments[k].take(i) + segments[k].skip(i));
    lemma_stored_concat(segments[k].take(i), segments[k].skip(i));
    lemma_stored_len(segments[k].skip(i));
    assert(rest_of(stored(segments[k]), offset as int) =~= stored(segments[k].skip(i)));
    lemma_segment_start_next(segments, k);
    lemma_segment_starts_rise(segments, k, n - 1);
    lemma_segment_start_next(segments, n - 1);
    assert(start + stored(segments[k]).len() <= segment_start(segments, n));
    assert forall|x: int| 0 <= x < ids.len() implies #[trigger] ids[x] <= i64::MAX && (ids[x]
        <= position ==> ids[x] <= start) by {
        assert(files.contains_key(ids[x] as int));
        let other = choose|other: int|
            0 <= other < n && ids[x] == #[trigger] segment_start(segments, other);
        lemma_segment_starts_rise(segments, other, n - 1);
        if other > k {
            lemma_segment_starts_rise(segments, k, other);
        } else {
            lemma_segment_starts_rise(segments, other, k);
        }
    }
    assert(files.contains_key(start));
    let own = choose|own: int| 0 <= own < ids.len() && ids[own] == start as u64;
    assert(ids[own] <= position);
    law_located(ids, position as u64);
    let (id, _) = located(segment_names(ids), position as u64);
    let w = choose|w: int| 0 <= w < ids.len() && ids[w] == id as u64;
    assert(ids[w] <= start);
}

/// A listing need not be of the moment. The position of a record stays as it is while more is
/// written, and where it is found by a listing that was made before is where it is found by one
/// that is made after that.
pub proof fn law_listing_stays_good(
    segments: Seq<Seq<Seq<u8>>>,
    files: Map<int, Seq<u8>>,
    ids: Seq<SegmentId>,
    later: Seq<Seq<Seq<u8>>>,
    later_files: Map<int, Seq<u8>>,
    later_ids: Seq<SegmentId>,
    j: int,
)
    requires
        is_log(segments),
        files_hold(files, segments),
        lists(ids, files),
        is_log(later),
        files_hold(later_files, later),
        lists(later_ids, later_files),
        segment_start(segments, segments.len() as int) <= i64::MAX,
        segment_start(later, later.len() as int) <= i64::MAX,
        extends(later, segments),
        0 <= j < log_records(segments).len(),
    ensures
        j < log_records(later).len(),
        log_records(later)[j] == log_records(segments)[j],
        record_position(later, j) == record_position(segments, j),
        located(segment_names(ids), record_position(segments, j) as u64) == located(
            segment_names(later_ids),
            record_position(later, j) as u64,
        ),
{
    let n = segments.len() as int;
    let all = log_records(segments);
    let more = later[n - 1].skip(segments[n - 1].len() as int);

    // The records that were there stay in front.
    assert(later.take(n) =~= segments.take(n - 1) + seq![later[n - 1]]);
    assert(segments =~= segments.take(n - 1) + seq![segments[n - 1]]);
    assert(later =~= later.take(n) + later.skip(n));
    lemma_log_records_concat(later.take(n), later.skip(n));
    lemma_log_records_concat(segments.take(n - 1), seq![later[n - 1]]);
    lemma_log_records_concat(segments.take(n - 1), seq![segments[n - 1]]);
    lemma_log_records_one(later[n - 1]);
    lemma_log_records_one(segments[n - 1]);
    assert(later[n - 1] =~= segments[n - 1] + more);
    assert(log_records(later) =~= all + (more + log_records(later.skip(n))));
    assert(log_records(later).take(j) =~= all.take(j));

    // The record is in the same segment.
    let (k, i) = lemma_find_record(segments, j, n - 1);
    if i == segments[k].len() {
        assert(segments.skip(k + 1) =~= Seq::<Seq<Seq<u8>>>::empty());
        assert(all.skip(j).len() == 0);
    }
    assert forall|x: int| 0 <= x < k implies #[trigger] segments[x] == later[x] by {
        assert(later.take(n - 1)[x] == segments.take(n - 1)[x]);
    }
    lemma_same_start(segments, later, k);
    if k < n - 1 {
        assert(later.take(n - 1)[k] == segments.take(n - 1)[k]);
    }
    assert(segments[k].take(i) =~= later[k].take(i));
    assert(needs_file(segments, k));
    assert(needs_file(later, k));
    lemma_record_located(segments, files, ids, k, i);
    lemma_record_located(later, later_files, later_ids, k, i);
}

/// A reading from the record `j` begins in the segment and at the record in it that come back. Its
/// position is found there, and that segment has a file.
proof fn lemma_reading_begins(
    segments: Seq<Seq<Seq<u8>>>,
    files: Map<int, Seq<u8>>,
    ids: Seq<SegmentId>,
    j: int,
) -> (begin: (int, int))
    requires
        is_log(segments),
        files_hold(files, segments),
        lists(ids, files),
        segment_start(segments, segments.len() as int) <= i64::MAX,
        0 <= j <= log_records(segments).len(),
    ensures
        ({
            let found = segments_found(segments, files);
            let n = found.len() as int;
            let (k, i) = begin;
            let start = segment_start(found, k);
            let offset = stored(found[k].take(i)).len() as int;
            let position = record_position(segments, j);
            let todo = log_records(segments).skip(j);
            &&& is_log(found)
            &&& n <= segments.len()
            &&& files_hold(files, found)
            &&& files.contains_key(segment_start(found, n - 1))
            &&& segment_start(found, n) == segment_start(segments, segments.len() as int)
            &&& 0 <= k < n
            &&& 0 <= i <= found[k].len()
            &&& if j < log_records(segments).len() {
                i < found[k].len()
            } else {
                k == n - 1 && i == found[k].len()
            }
            &&& todo == found[k].skip(i) + log_records(found.skip(k + 1))
            &&& position == start + offset
            &&& 0 <= start <= segment_start(found, n)
            &&& position <= segment_start(found, n)
            &&& can_locate(segment_names(ids), position as u64)
            &&& located(segment_names(ids), position as u64) == (start, offset)
            &&& files.contains_key(start)
            &&& rest_of(files[start], offset) == stored(found[k].skip(i))
        }),
{
    let found = segments_found(segments, files);
    let n = found.len() as int;
    lemma_segments_found(segments, files);
    assert(found.take(n) =~= found);
    assert(segments.take(segments.len() as int) =~= segments);
    let (k, i) = lemma_find_record(found, j, n - 1);
    assert(k < n - 1 ==> needs_file(found, k));
    assert(files[segment_start(found, k)] == stored(found[k]));
    lemma_record_located(found, files, ids, k, i);
    if k == n - 1 {
        assert(found.skip(n) =~= Seq::<Seq<Seq<u8>>>::empty());
    }
    let all = log_records(segments);
    assert(all =~= all.take(j) + all.skip(j));
    lemma_stored_concat(all.take(j), all.skip(j));
    (k, i)
}

/// Whether a reading that begins with the record `j`, or at the end of the log, comes to an end.
/// One that has records before it does if the reader stops at the end of the log at the latest, or
/// finds all that it takes before that. One that begins at the end does if the reader stops where
/// the last file begins. `law_read_came_to_end` says that no other does.
pub open spec fn comes_to_end(
    segments: Seq<Seq<Seq<u8>>>,
    files: Map<int, Seq<u8>>,
    reader: ShardReader,
    j: int,
) -> bool {
    let found = segments_found(segments, files);
    if j < log_records(segments).len() {
        ||| reader.latest_log_offset <= segment_start(segments, segments.len() as int)
        ||| j + reader.chunk_size <= log_records(segments).len()
    } else {
        reader.latest_log_offset <= segment_start(found, found.len() - 1)
    }
}

/// What was written is what is read. A reading that begins at the position of a record, or at the
/// end of the log, is located in a file that is there and gives the records from that one on, in
/// their order and unchanged, no matter how the log is cut into files, in which order these are
/// listed and where the reader is told to stop, as long as it comes to an end. It gives one record
/// at least if there is one. It ends where it has `chunk_size` records or has reached
/// `latest_log_offset`, and not before that or the end of the log. Where it ends is the position of
/// the record that comes next.
#[verifier::spinoff_prover]
#[verifier::rlimit(40)]
pub proof fn law_written_is_read(
    segments: Seq<Seq<Seq<u8>>>,
    files: Map<int, Seq<u8>>,
    ids: Seq<SegmentId>,
    j: int,
    reader: ShardReader,
    more_files: nat,
)
    requires
        is_log(segments),
        files_hold(files, segments),
        lists(ids, files),
        0 <= j <= log_records(segments).len(),
        text_from(segments, j),
        segment_start(segments, segments.len() as int) <= i64::MAX,
        (reader.segment_id as int, reader.offset as int) == located(
            segment_names(ids),
            record_position(segments, j) as u64,
        ),
        comes_to_end(segments, files, reader, j),
        more_files >= segments.len(),
    ensures
        can_locate(segment_names(ids), record_position(segments, j) as u64),
        files.contains_key(reader.segment_id as int),
        read_through(
            files,
            reader,
            rest_of(files[reader.segment_id as int], reader.offset as int),
            Seq::empty(),
            more_files,
        ) matches Some((read, offset)) && {
            let m = read.len() as int;
            &&& j + m <= log_records(segments).len()
            &&& read == log_records(segments).subrange(j, j + m)
            &&& offset == reader.offset + stored(read).len()
            &&& reader.segment_id + offset == record_position(segments, j + m)
            &&& j < log_records(segments).len() ==> m > 0
            &&& m <= reader.chunk_size || m <= 1
            &&& forall|q: int|
                j < q < j + m ==> #[trigger] record_position(segments, q)
                    < reader.latest_log_offset
            &&& j + m < log_records(segments).len() ==> m >= reader.chunk_size
                || record_position(segments, j + m) >= reader.latest_log_offset
        },
{
    let found = segments_found(segments, files);
    let (k, i) = lemma_reading_begins(segments, files, ids, j);
    let todo = log_records(segments).skip(j);
    assert forall|x: int| 0 <= x < todo.len() implies is_line_text(#[trigger] todo[x]) by {
        assert(todo[x] == log_records(segments)[j + x]);
    }
    assert(todo.len() == log_records(segments).len() - j);
    assert(todo.len() == found[k].skip(i).len() + log_records(found.skip(k + 1)).len());
    assert(reader.segment_id == segment_start(found, k));
    lemma_read_through(found, files, reader, k, i, Seq::empty(), more_files);
    lemma_records_taken(segments, j, reader);
}

/// How many records a reader takes that is at the record `j`, and where it is then.
proof fn lemma_records_taken(segments: Seq<Seq<Seq<u8>>>, j: int, reader: ShardReader)
    requires
        0 <= j <= log_records(segments).len(),
        text_from(segments, j),
        reader.segment_id + reader.offset == record_position(segments, j),
    ensures
        ({
            let all = log_records(segments);
            let todo = all.skip(j);
            let m = reader.lines_taken(stored_lines(todo), reader.offset as int, 0) as int;
            let read = Seq::<Seq<u8>>::empty() + todo.take(m);
            &&& read.len() == m
            &&& j + m <= all.len()
            &&& read == all.subrange(j, j + m)
            &&& read == todo.take(m)
            &&& reader.segment_id + reader.offset + stored(read).len() == record_position(
                segments,
                j + m,
            )
            &&& j < all.len() ==> m > 0
            &&& m <= reader.chunk_size || m <= 1
            &&& forall|q: int|
                j < q < j + m ==> #[trigger] record_position(segments, q)
                    < reader.latest_log_offset
            &&& j + m < all.len() ==> m >= reader.chunk_size || record_position(segments, j + m)
                >= reader.latest_log_offset
        }),
{
    let all = log_records(segments);
    let todo = all.skip(j);
    let ls = stored_lines(todo);
    let m = reader.lines_taken(ls, reader.offset as int, 0) as int;
    assert forall|x: int| 0 <= x < todo.len() implies is_line_text(#[trigger] todo[x]) by {
        assert(todo[x] == all[j + x]);
    }
    reader.lemma_taken(ls, reader.offset as int, 0);
    lemma_take_stored(todo, m);
    lemma_taken_exactly(reader, ls, reader.offset as int, 0);
    assert(todo.take(m) =~= all.subrange(j, j + m));
    assert(Seq::<Seq<u8>>::empty() + todo.take(m) =~= todo.take(m));
    assert forall|q: int| j <= q <= all.len() implies #[trigger] record_position(segments, q)
        == record_position(segments, j) + total_len(ls.take(q - j)) by {
        lemma_take_stored(todo, q - j);
        lemma_stored_concat(all.take(j), todo.take(q - j));
        assert(all.take(q) =~= all.take(j) + todo.take(q - j));
    }
    assert(record_position(segments, j + m) == record_position(segments, j) + total_len(
        ls.take(m),
    ));
    assert forall|q: int| j < q < j + m implies #[trigger] record_position(segments, q)
        < reader.latest_log_offset by {
        assert(!reader.stops(reader.offset + total_len(ls.take(q - j)), 0 + (q - j)));
    }
    if m > 1 {
        assert(!reader.stops(reader.offset + total_len(ls.take(m - 1)), 0 + (m - 1)));
    }
}

/// A reader that finds too few records before the end of the log, and is not told to stop there,
/// does not come to an end. It looks for a file behind the end of the log, or looks again and again
/// into the one that is begun there.
#[verifier::spinoff_prover]
#[verifier::rlimit(40)]
proof fn lemma_no_end(
    segments: Seq<Seq<Seq<u8>>>,
    files: Map<int, Seq<u8>>,
    reader: ShardReader,
    k: int,
    i: int,
    records: Seq<Seq<u8>>,
    more_files: nat,
)
    requires
        is_log(segments),
        forall|x: int|
            0 <= x < segments[k].skip(i).len() + log_records(segments.skip(k + 1)).len()
                ==> is_line_text(
                #[trigger] (segments[k].skip(i) + log_records(segments.skip(k + 1)))[x],
            ),
        files_hold(files, segments),
        files.contains_key(segment_start(segments, segments.len() - 1)),
        segment_start(segments, segments.len() as int) <= u64::MAX,
        0 <= k < segments.len(),
        0 <= i <= segments[k].len(),
        i < segments[k].len() || k == segments.len() - 1,
        reader.latest_log_offset > reader.segment_id,
        i < segments[k].len() ==> reader.latest_log_offset > segment_start(
            segments,
            segments.len() as int,
        ) && reader.chunk_size > records.len() + segments[k].skip(i).len() + log_records(
            segments.skip(k + 1),
        ).len(),
        reader.segment_id + reader.offset == segment_start(segments, k) + stored(
            segments[k].take(i),
        ).len(),
    ensures
        read_through(files, reader, stored(segments[k].skip(i)), records, more_files) is None,
    decreases more_files,
{
    let n = segments.len() as int;
    let here = segments[k].skip(i);
    let later = log_records(segments.skip(k + 1));
    let todo = here + later;
    let rest = stored(here);
    let count = records.len() as int;
    assert forall|x: int| 0 <= x < here.len() implies is_line_text(#[trigger] here[x]) by {
        assert(todo[x] == here[x]);
    }
    assert(segments[k] =~= segments[k].take(i) + here);
    lemma_stored_concat(segments[k].take(i), here);
    lemma_segment_start_next(segments, k);
    lemma_segment_starts_rise(segments, k, n - 1);
    lemma_segment_start_next(segments, n - 1);
    lemma_stored_len(here);
    lemma_taken_here(reader, here, later, count);
    let t = reader.taken(rest, count) as int;
    assert(here =~= here.take(t) + here.skip(t));
    lemma_stored_concat(here.take(t), here.skip(t));
    assert(t == here.len());
    assert(here.take(t) =~= here);
    let id = reader.segment_id + reader.offset_after(rest, t);
    assert(id == segment_start(segments, k + 1));
    assert(reader.step_after(rest, count) matches Ok(ReadStep::Roll(_)));
    let next = ShardReader { offset: reader.offset_after(rest, t) as u64, ..reader };
    let read = records + here;
    if more_files > 0 && files.contains_key(id) {
        if k < n - 1 {
            assert(segments[k + 1].take(0) =~= Seq::<Seq<u8>>::empty());
            assert(segments[k + 1].skip(0) =~= segments[k + 1]);
            assert(segments.skip(k + 1).drop_first() =~= segments.skip(k + 2));
            assert(later =~= segments[k + 1] + log_records(segments.skip(k + 2)));
            assert forall|x: int| 0 <= x < later.len() implies is_line_text(
                #[trigger] later[x],
            ) by {
                assert(todo[here.len() + x] == later[x]);
            }
            lemma_no_end(segments, files, next, k + 1, 0, read, (more_files - 1) as nat);
        } else {
            // There is a file where the log ends: that of the last segment, which is empty.
            let other = choose|other: int|
                0 <= other < n && id == #[trigger] segment_start(segments, other);
            lemma_segment_starts_rise(segments, other, n - 1);
            lemma_stored_len(segments[n - 1]);
            assert(segments[n - 1].len() == 0);
            assert(here =~= segments[n - 1]);
            assert(next == reader);
            assert(read =~= records);
            lemma_no_end(segments, files, reader, k, i, records, (more_files - 1) as nat);
        }
    }
}

/// A reading that returned is one that comes to an end, whatever it found: no other does.
pub proof fn law_read_came_to_end(
    segments: Seq<Seq<Seq<u8>>>,
    files: Map<int, Seq<u8>>,
    ids: Seq<SegmentId>,
    j: int,
    reader: ShardReader,
    more_files: nat,
)
    requires
        is_log(segments),
        files_hold(files, segments),
        lists(ids, files),
        0 <= j <= log_records(segments).len(),
        text_from(segments, j),
        segment_start(segments, segments.len() as int) <= i64::MAX,
        (reader.segment_id as int, reader.offset as int) == located(
            segment_names(ids),
            record_position(segments, j) as u64,
        ),
    ensures
        read_through(
            files,
            reader,
            rest_of(files[reader.segment_id as int], reader.offset as int),
            Seq::empty(),
            more_files,
        ) is Some ==> comes_to_end(segments, files, reader, j),
{
    let found = segments_found(segments, files);
    let (k, i) = lemma_reading_begins(segments, files, ids, j);
    let todo = log_records(segments).skip(j);
    assert forall|x: int| 0 <= x < todo.len() implies is_line_text(#[trigger] todo[x]) by {
        assert(todo[x] == log_records(segments)[j + x]);
    }
    assert(todo.len() == log_records(segments).len() - j);
    assert(todo.len() == found[k].skip(i).len() + log_records(found.skip(k + 1)).len());
    assert(reader.segment_id == segment_start(found, k));
    if !comes_to_end(segments, files, reader, j) {
        lemma_no_end(found, files, reader, k, i, Seq::empty(), more_files);
    }
}

/// A reading that comes to an end with some files does so with more.
proof fn lemma_more_files(
    files: Map<int, Seq<u8>>,
    reader: ShardReader,
    rest: Seq<u8>,
    records: Seq<Seq<u8>>,
    few: nat,
    many: nat,
)
    requires
        read_through(files, reader, rest, records, few) is Some,
        few <= many,
    ensures
        read_through(files, reader, rest, records, many) == read_through(
            files,
            reader,
            rest,
            records,
            few,
        ),
    decreases few,
{
    let count = records.len() as int;
    let k = reader.taken(rest, count) as int;
    let offset = reader.offset_after(rest, k);
    if reader.step_after(rest, count) matches Ok(ReadStep::Roll(_)) {
        lemma_more_files(
            files,
            ShardReader { offset: offset as u64, ..reader },
            files[reader.segment_id + offset],
            records + line_texts(lines(rest).take(k)),
            (few - 1) as nat,
            (many - 1) as nat,
        );
    }
}

/// A record that was written is what is read from the position at which the writer stood, if the
/// reader stops at the end of the log at the latest or takes one record.
pub proof fn law_write_then_read(
    segments: Seq<Seq<Seq<u8>>>,
    files: Map<int, Seq<u8>>,
    state: WriterState,
    record: Seq<u8>,
    ids: Seq<SegmentId>,
    reader: ShardReader,
    more_files: nat,
)
    requires
        is_log(segments),
        files_hold(files, segments),
        at_end(state, segments),
        is_line_text(record),
        state.position() + record.len() + 1 <= i64::MAX,
        lists(ids, appended(files, state.segment, record.push(NEWLINE))),
        (reader.segment_id as int, reader.offset as int) == located(
            segment_names(ids),
            state.position() as u64,
        ),
        reader.latest_log_offset <= state.position() + record.len() + 1 || reader.chunk_size <= 1,
        more_files >= segments.len() + 1,
    ensures
        ({
            let now = appended(files, state.segment, record.push(NEWLINE));
            &&& now.contains_key(reader.segment_id as int)
            &&& read_through(
                now,
                reader,
                rest_of(now[reader.segment_id as int], reader.offset as int),
                Seq::empty(),
                more_files,
            ) matches Some((read, offset)) && read == seq![record] && reader.segment_id + offset
                == state.position() + record.len() + 1
        }),
{
    let next = segments_after(segments, state, record);
    let now = appended(files, state.segment, record.push(NEWLINE));
    let all = log_records(segments);
    let j = all.len() as int;
    law_write_extends_log(segments, files, state, record);
    let n = segments.len() as int;
    lemma_segment_start_next(segments, n - 1);
    assert(segments.take(n) =~= segments);
    assert(segments.last() == segments[n - 1]);
    assert(log_records(next).take(j) =~= all);
    assert(log_records(next) =~= all + seq![record]);
    lemma_stored_concat(all, seq![record]);
    lemma_stored_one(record);
    assert(next.take(next.len() as int) =~= next);
    assert(text_from(next, j));
    law_written_is_read(next, now, ids, j, reader, more_files);
    let read = read_through(
        now,
        reader,
        rest_of(now[reader.segment_id as int], reader.offset as int),
        Seq::empty(),
        more_files,
    ).unwrap().0;
    assert(log_records(next).take(j + 1) =~= log_records(next));
    assert(read =~= seq![record]);
}

/// A reading of as many records as there are that stops at the end of the log gives all of them,
/// from the one on with which it begins, and ends at the end of the log.
pub proof fn law_all_is_read(
    segments: Seq<Seq<Seq<u8>>>,
    files: Map<int, Seq<u8>>,
    ids: Seq<SegmentId>,
    j: int,
    reader: ShardReader,
    more_files: nat,
)
    requires
        is_log(segments),
        files_hold(files, segments),
        lists(ids, files),
        0 <= j <= log_records(segments).len(),
        text_from(segments, j),
        segment_start(segments, segments.len() as int) <= i64::MAX,
        (reader.segment_id as int, reader.offset as int) == located(
            segment_names(ids),
            record_position(segments, j) as u64,
        ),
        reader.latest_log_offset == segment_start(segments, segments.len() as int),
        j + reader.chunk_size >= log_records(segments).len(),
        comes_to_end(segments, files, reader, j),
        more_files >= segments.len(),
    ensures
        files.contains_key(reader.segment_id as int),
        read_through(
            files,
            reader,
            rest_of(files[reader.segment_id as int], reader.offset as int),
            Seq::empty(),
            more_files,
        ) matches Some((read, offset)) && read == log_records(segments).skip(j)
            && reader.segment_id + offset == segment_start(segments, segments.len() as int),
{
    let all = log_records(segments);
    let n = segments.len() as int;
    assert(segments.take(n) =~= segments);
    assert(all.take(all.len() as int) =~= all);
    law_written_is_read(segments, files, ids, j, reader, more_files);
    let read = read_through(
        files,
        reader,
        rest_of(files[reader.segment_id as int], reader.offset as int),
        Seq::empty(),
        more_files,
    ).unwrap().0;
    let m = read.len() as int;
    if j + m < all.len() {
        lemma_before_end(all, j + m);
    }
    assert(read =~= all.skip(j));
}

/// Before the last record the log has not ended.
proof fn lemma_before_end(records: Seq<Seq<u8>>, t: int)
    requires
        0 <= t < records.len(),
    ensures
        stored(records.take(t)).len() < stored(records).len(),
{
    assert(records =~= records.take(t) + records.skip(t));
    lemma_stored_concat(records.take(t), records.skip(t));
    lemma_stored_len(records.skip(t));
}

/// What a writer wrote to a new directory is read back: a reader that begins with the first file,
/// stops at the end of the log and takes enough records gives all of them, in the order in which
/// they were written, whatever the writer's limit is, and is at the end of the log then.
pub proof fn law_round_trip(
    dir: ShardDir,
    max_segment_size: u64,
    records: Seq<Seq<u8>>,
    reader: ShardReader,
    more_files: nat,
)
    requires
        forall|i: int| 0 <= i < records.len() ==> is_line_text(#[trigger] records[i]),
        reader.segment_id == 0,
        reader.offset == 0,
        reader.latest_log_offset == stored(records).len(),
        reader.chunk_size >= records.len(),
        more_files >= records.len(),
    ensures
        ({
            let files = Log::new(dir, max_segment_size).wrote(records).files;
            &&& files.contains_key(0)
            &&& read_through(files, reader, files[0], Seq::empty(), more_files) == Some(
                (records, stored(records).len() as int),
            )
        }),
{
    let log = Log::new(dir, max_segment_size);
    let now = log.wrote(records);
    let segments = now.segments;
    let n = segments.len() as int;
    law_new_log(dir, max_segment_size);
    law_writes_in_order(log, records);
    assert(log_records(segments) =~= records);
    assert(segments.take(n) =~= segments);
    assert(segments.take(0) =~= Seq::<Seq<Seq<u8>>>::empty());
    assert(segment_start(segments, 0) == 0);
    assert(needs_file(segments, 0));
    assert(now.files.contains_key(segment_start(segments, 0)));
    assert(segments[0].skip(0) =~= segments[0]);
    assert(segments[0].take(0) =~= Seq::<Seq<u8>>::empty());
    assert(segments.skip(1) =~= segments.drop_first());
    assert(segments[0] + log_records(segments.skip(1)) == records);
    if segments[0].len() == 0 {
        assert(n == 1);
        assert(records =~= Seq::<Seq<u8>>::empty());
    }
    lemma_read_through(segments, now.files, reader, 0, 0, Seq::empty(), more_files);
    let t = reader.lines_taken(stored_lines(records), 0, 0) as int;
    lemma_take_stored(records, t);
    lemma_taken_exactly(reader, stored_lines(records), 0, 0);
    if t < records.len() {
        lemma_before_end(records, t);
    }
    assert(Seq::<Seq<u8>>::empty() + records.take(t) =~= records);
    assert(records.take(t) =~= records);
}

/// Successive requests for records skip nothing and repeat nothing. A request for the position of
/// a record that is answered gives one record at least and as many as a reply holds at most: the
/// one there and those that follow, and not fewer than a reply holds before the latest segment or
/// the end of the log. The position that it names to go on from is as many bytes
/// further as these records and their newlines have. A later request for that position that is
/// answered goes on with the record that comes next, also if more records were written in the
/// meantime.
#[verifier::spinoff_prover]
#[verifier::rlimit(40)]
pub proof fn law_requests_go_on(
    segments: Seq<Seq<Seq<u8>>>,
    files: Map<int, Seq<u8>>,
    ids: Seq<SegmentId>,
    latest_segment: usize,
    later: Seq<Seq<Seq<u8>>>,
    later_files: Map<int, Seq<u8>>,
    later_ids: Seq<SegmentId>,
    later_latest_segment: usize,
    j: int,
    shard_dir: ShardDir,
    more_files: nat,
)
    requires
        is_log(segments),
        files_hold(files, segments),
        lists(ids, files),
        segment_start(segments, segments.len() as int) <= i64::MAX,
        is_log(later),
        files_hold(later_files, later),
        lists(later_ids, later_files),
        segment_start(later, later.len() as int) <= i64::MAX,
        log_records(segments).is_prefix_of(log_records(later)),
        0 <= j < log_records(segments).len(),
        text_from(later, j),
    ensures
        ({
            let first = records_reader(
                shard_dir,
                segment_names(ids),
                record_position(segments, j) as u64,
                latest_segment,
            );
            &&& files.contains_key(first.segment_id as int)
            &&& read_through(
                files,
                first,
                rest_of(files[first.segment_id as int], first.offset as int),
                Seq::empty(),
                more_files,
            ) matches Some((read, offset)) ==> {
                let m = read.len() as int;
                let position = first.segment_id + offset;
                let second = records_reader(
                    shard_dir,
                    segment_names(later_ids),
                    position as u64,
                    later_latest_segment,
                );
                &&& 1 <= m <= CHUNK_SIZE
                &&& j + m < log_records(segments).len() ==> m == CHUNK_SIZE || position
                    >= latest_segment
                &&& j + m <= log_records(segments).len()
                &&& read == log_records(segments).subrange(j, j + m)
                &&& position == record_position(segments, j) + stored(read).len()
                &&& later_files.contains_key(second.segment_id as int)
                &&& read_through(
                    later_files,
                    second,
                    rest_of(later_files[second.segment_id as int], second.offset as int),
                    Seq::empty(),
                    more_files,
                ) matches Some((more, _)) ==> {
                    &&& j + m + more.len() <= log_records(later).len()
                    &&& read + more == log_records(later).subrange(j, j + m + more.len())
                    &&& j + m < log_records(later).len() ==> more.len() > 0
                }
            }
        }),
{
    let all = log_records(segments);
    let later_all = log_records(later);
    let first = records_reader(
        shard_dir,
        segment_names(ids),
        record_position(segments, j) as u64,
        latest_segment,
    );
    assert forall|q: int| j <= q < all.len() implies is_line_text(#[trigger] all[q]) by {
        assert(all[q] == later_all[q]);
    }
    lemma_reading_begins(segments, files, ids, j);
    let rest = rest_of(files[first.segment_id as int], first.offset as int);
    if let Some((read, offset)) = read_through(files, first, rest, Seq::empty(), more_files) {
        lemma_returned(segments, files, ids, j, first, more_files);
        let m = read.len() as int;
        let position = first.segment_id + offset;
        let second = records_reader(
            shard_dir,
            segment_names(later_ids),
            position as u64,
            later_latest_segment,
        );
        assert(all.take(j + m) =~= later_all.take(j + m));
        assert(position == record_position(later, j + m));
        lemma_reading_begins(later, later_files, later_ids, j + m);
        let next = rest_of(later_files[second.segment_id as int], second.offset as int);
        if let Some((more, _)) = read_through(
            later_files,
            second,
            next,
            Seq::empty(),
            more_files,
        ) {
            lemma_returned(later, later_files, later_ids, j + m, second, more_files);
            assert(all.subrange(j, j + m) =~= later_all.subrange(j, j + m));
            assert(read + more =~= later_all.subrange(j, j + m + more.len()));
        }
    }
}

/// What a reading gave that returned.
proof fn lemma_returned(
    segments: Seq<Seq<Seq<u8>>>,
    files: Map<int, Seq<u8>>,
    ids: Seq<SegmentId>,
    j: int,
    reader: ShardReader,
    more_files: nat,
)
    requires
        is_log(segments),
        files_hold(files, segments),
        lists(ids, files),
        0 <= j <= log_records(segments).len(),
        text_from(segments, j),
        segment_start(segments, segments.len() as int) <= i64::MAX,
        (reader.segment_id as int, reader.offset as int) == located(
            segment_names(ids),
            record_position(segments, j) as u64,
        ),
        read_through(
            files,
            reader,
            rest_of(files[reader.segment_id as int], reader.offset as int),
            Seq::empty(),
            more_files,
        ) is Some,
    ensures
        read_through(
            files,
            reader,
            rest_of(files[reader.segment_id as int], reader.offset as int),
            Seq::empty(),
            more_files,
        ) matches Some((read, offset)) && {
            let m = read.len() as int;
            &&& j + m <= log_records(segments).len()
            &&& read == log_records(segments).subrange(j, j + m)
            &&& offset == reader.offset + stored(read).len()
            &&& reader.segment_id + offset == record_position(segments, j + m)
            &&& j < log_records(segments).len() ==> m > 0
            &&& m <= reader.chunk_size || m <= 1
            &&& j + m < log_records(segments).len() ==> m >= reader.chunk_size || record_position(
                segments,
                j + m,
            ) >= reader.latest_log_offset
        },
{
    let rest = rest_of(files[reader.segment_id as int], reader.offset as int);
    let many = more_files + segments.len();
    law_read_came_to_end(segments, files, ids, j, reader, more_files);
    lemma_more_files(files, reader, rest, Seq::empty(), more_files, many);
    law_written_is_read(segments, files, ids, j, reader, many);
}

/// A request for records is answered with what a reading through the files gives. Where such a
/// reading comes to an end, `RecordsRead::resume` can be called; where that replies, it replies
/// with what was read, and where it goes on with `next` and the file that is wanted there, what
/// is read in the end is the same.
pub proof fn law_resume_reads_through(
    files: Map<int, Seq<u8>>,
    current: RecordsRead,
    rest: Seq<u8>,
    next: RecordsRead,
    more_files: nat,
)
    requires
        read_through(
            files,
            current.reader,
            rest,
            record_bytes(current.records@),
            more_files,
        ) is Some,
        current.reader.step_after(rest, current.records@.len() as int) matches Ok(
            ReadStep::Roll(_),
        ) ==> next.reader == (ShardReader {
            offset: current.offset_after(rest) as u64,
            ..current.reader
        }) && record_bytes(next.records@) == current.records_after(rest),
    ensures
        current.can_resume(rest),
        match current.reader.step_after(rest, current.records@.len() as int) {
            Ok(ReadStep::Finished) => read_through(
                files,
                current.reader,
                rest,
                record_bytes(current.records@),
                more_files,
            ) == Some((current.records_after(rest), current.offset_after(rest))),
            Ok(ReadStep::Roll(path)) => {
                let id = current.reader.segment_id + current.offset_after(rest);
                &&& path == segment_path(current.reader.shard_dir, id)
                &&& files.contains_key(id)
                &&& more_files > 0
                &&& read_through(
                    files,
                    current.reader,
                    rest,
                    record_bytes(current.records@),
                    more_files,
                ) == read_through(
                    files,
                    next.reader,
                    files[id],
                    record_bytes(next.records@),
                    (more_files - 1) as nat,
                )
            },
            Err(_) => false,
        },
{
}

} // verus!
