//! Requests to a shard. A request is answered in steps: each step says what has to be done
//! outside, and what came of that leads to the next one.

use std::path::PathBuf;
use vstd::prelude::*;
use vstd::string::*;
use vstd::utf8::*;

use crate::dir::{
    can_locate, latest_listed, law_latest_and_oldest, law_located, located, oldest_listed,
    segment_names, segment_path, SegmentId, ShardDir, ShardOffset,
};
use crate::line::{lemma_line_text_valid, line_text, line_texts, lines};
use crate::number::{decimal, decimal_text, is_numeral, law_one_numeral, number_u64};
use crate::order::{text_le, texts};
use crate::reader::{record_bytes, NotUtf8, ReadStep, ScanEnd, ShardReader};
use crate::record::{
    assert_recordable, base64_decoded, is_line_text, law_recordable, record_verdict, Base64Error,
    Record, RecordError,
};

verus! {

/// How many records a reply holds at most.
pub const CHUNK_SIZE: usize = 10;

/// Which end of the log an iterator is wanted for.
#[derive(Debug, Clone, Copy, PartialEq, Eq, Structural)]
pub enum ShardIteratorType {
    Latest,
    Oldest,
}

/// What a client asks for.
#[derive(Debug)]
pub enum Request {
    /// The records that follow this position.
    GetRecords(u64),
    /// A position to read from.
    GetShardIterator(ShardIteratorType),
    /// To add this record to the log.
    PutRecords(Vec<u8>),
}

/// What a client is told.
#[derive(Debug)]
pub struct Response(pub String);

/// What the names of the segment files are wanted for.
#[derive(Debug, Clone, Copy, PartialEq, Eq, Structural)]
pub enum Lookup {
    /// To find the segment that this position belongs to.
    Records(u64),
    /// To find the latest segment.
    Latest,
    /// To find the oldest segment.
    Oldest,
}

/// Records that are being read.
#[derive(Debug)]
pub struct RecordsRead {
    pub reader: ShardReader,
    /// The records read so far.
    pub records: Vec<Record>,
    /// The file to read next.
    pub path: PathBuf,
    /// Where in that file to begin.
    pub start: ShardOffset,
}

/// What has to be done next for a request.
#[derive(Debug)]
pub enum Step {
    /// List the names in the shard's directory, and hand them to the lookup.
    ListSegments(Lookup),
    /// Read what a file holds from some place on, and hand it to the reading.
    ReadSegment(RecordsRead),
    /// Have the shard's writer write the record, and hand what came of it to `record_appended`.
    AppendRecord(Record),
    /// Send this reply.
    Reply(Response),
    /// Turn the request down.
    Refuse(RecordError),
}

/// How `{:?}` shows a text: in quotes, with escapes where it takes them.
pub uninterp spec fn quoted(text: Seq<char>) -> Seq<char>;

/// Formats `text` by its `Debug` implementation. What that writes depends on the text alone and
/// is named `quoted`.
#[verifier::external_body]
fn quote(text: &str) -> (shown: String)
    ensures
        shown@ == quoted(text@),
{
    format!("{:?}", text)
}

/// The texts with commas between them.
pub open spec fn separated(items: Seq<Seq<char>>) -> Seq<char>
    decreases items.len(),
{
    if items.len() == 0 {
        Seq::empty()
    } else if items.len() == 1 {
        items[0]
    } else {
        separated(items.drop_last()) + ", "@ + items.last()
    }
}

/// The texts with commas between them, in brackets.
pub open spec fn bracketed(items: Seq<Seq<char>>) -> Seq<char> {
    "["@ + separated(items) + "]"@
}

/// Where the text `i` begins if there are two characters between each two.
pub open spec fn place(items: Seq<Seq<char>>, i: int) -> int
    decreases i,
{
    if i <= 0 {
        0
    } else {
        place(items, i - 1) + items[i - 1].len() + 2
    }
}

/// Whether `list` shows the texts: each stands at its place, whole and in their order, with a comma
/// and a space before each but the first, and there is nothing else.
pub open spec fn shows(list: Seq<char>, items: Seq<Seq<char>>) -> bool {
    &&& forall|i: int|
        0 <= i < items.len() ==> {
            &&& place(items, i) + items[i].len() <= list.len()
            &&& list.subrange(#[trigger] place(items, i), place(items, i) + items[i].len())
                == items[i]
        }
    &&& forall|i: int|
        0 < i < items.len() ==> {
            &&& list[#[trigger] place(items, i) - 2] == ','
            &&& list[place(items, i) - 1] == ' '
        }
    &&& list.len() == if items.len() == 0 {
        0
    } else {
        place(items, items.len() - 1) + items.last().len()
    }
}

proof fn lemma_place(items: Seq<Seq<char>>, i: int, k: int)
    requires
        0 <= i <= k < items.len(),
    ensures
        0 <= place(items, i) <= place(items, k),
        i < k ==> place(items, i) + items[i].len() + 2 <= place(items, k),
        i < k ==> place(items.drop_last(), i) == place(items, i),
    decreases k, i,
{
    if i < k {
        lemma_place(items, i, k - 1);
        if i > 0 {
            lemma_place(items, i - 1, k);
        }
    } else if i > 0 {
        lemma_place(items, i - 1, i - 1);
    }
}

/// Texts with commas between them show each of them, in their order and as it is.
pub proof fn law_separated(items: Seq<Seq<char>>)
    ensures
        shows(separated(items), items),
    decreases items.len(),
{
    let list = separated(items);
    let n = items.len() as int;
    if n == 1 {
        assert(list.subrange(0, list.len() as int) =~= items[0]);
        assert forall|i: int| 0 <= i < n implies {
            &&& place(items, i) + items[i].len() <= list.len()
            &&& list.subrange(#[trigger] place(items, i), place(items, i) + items[i].len())
                == items[i]
        } by {}
    } else if n > 1 {
        let init = items.drop_last();
        let before = separated(init);
        law_separated(init);
        reveal_strlit(", ");
        lemma_place(items, n - 2, n - 1);
        lemma_place(items, n - 2, n - 2);
        assert(init.last() == items[n - 2]);
        assert(place(init, n - 2) == place(items, n - 2));
        assert(before.len() + 2 == place(items, n - 1));
        assert forall|i: int| 0 <= i < n implies {
            &&& place(items, i) + items[i].len() <= list.len()
            &&& list.subrange(#[trigger] place(items, i), place(items, i) + items[i].len())
                == items[i]
        } by {
            lemma_place(items, i, n - 1);
            if i < n - 1 {
                let at = place(init, i);
                assert(init[i] == items[i]);
                assert(before.subrange(at, at + init[i].len()) == init[i]);
                assert(list.subrange(at, at + items[i].len()) =~= before.subrange(
                    at,
                    at + items[i].len(),
                ));
            } else {
                assert(list.subrange(place(items, i), place(items, i) + items[i].len())
                    =~= items[i]);
            }
        }
        assert forall|i: int| 0 < i < n implies {
            &&& list[#[trigger] place(items, i) - 2] == ','
            &&& list[place(items, i) - 1] == ' '
        } by {
            lemma_place(items, i, n - 1);
            lemma_place(items, i - 1, i);
            lemma_place(items, 0, i - 1);
            if i < n - 1 {
                let at = place(init, i);
                assert(before[at - 2] == ',');
                assert(list[at - 2] == before[at - 2]);
                assert(list[at - 1] == before[at - 1]);
            }
        }
    }
}

/// The texts with commas between them, in brackets.
pub fn bracketed_list(items: &Vec<String>) -> (list: String)
    ensures
        list@ == bracketed(texts(items@)),
        exists|shown: Seq<char>| #[trigger]
            shows(shown, texts(items@)) && list@ == "["@ + shown + "]"@,
{
    proof {
        law_separated(texts(items@));
    }
    let ghost all = texts(items@);
    let mut list = String::new();
    list.append("[");
    let mut i: usize = 0;
    assert(all.take(0) =~= Seq::<Seq<char>>::empty());
    assert(list@ =~= "["@ + separated(all.take(0)));
    while i < items.len()
        invariant
            i <= items@.len(),
            all == texts(items@),
            list@ == "["@ + separated(all.take(i as int)),
        decreases items@.len() - i,
    {
        let ghost next = all.take(i + 1);
        assert(next.drop_last() =~= all.take(i as int));
        assert(next.last() == items@[i as int]@);
        if i > 0 {
            list.append(", ");
        }
        list.append(items[i].as_str());
        assert(list@ =~= "["@ + separated(next));
        i = i + 1;
    }
    list.append("]");
    assert(all.take(i as int) =~= all);
    list
}

/// The text of each record.
pub open spec fn record_texts(records: Seq<Seq<u8>>) -> Seq<Seq<char>> {
    records.map_values(|bytes: Seq<u8>| decode_utf8(bytes))
}

/// Whether each record is text.
pub open spec fn all_text(records: Seq<Seq<u8>>) -> bool {
    forall|i: int| 0 <= i < records.len() ==> valid_utf8(#[trigger] records[i])
}

/// The reply that names the position `id`.
pub open spec fn iterator_reply(id: int) -> Seq<char> {
    "shard iterator: "@ + decimal(id as nat)
}

/// The records as `{:?}` shows their texts.
pub open spec fn shown_records(records: Seq<Seq<u8>>) -> Seq<Seq<char>> {
    record_texts(records).map_values(|text: Seq<char>| quoted(text))
}

/// The reply to a request for records, of which those that `shown` shows were read: these, and the
/// position to go on from. Where there is none, it names the place in the segment that was
/// reached.
pub open spec fn shown_reply(segment_id: int, offset: int, shown: Seq<Seq<char>>) -> Seq<char> {
    if shown.len() == 0 {
        "no more records remaining. offset was: "@ + decimal(offset as nat)
    } else {
        "next shard iterator: "@ + decimal((offset + segment_id) as nat) + ", records: "@
            + bracketed(shown)
    }
}

/// The reply to a request for records.
pub open spec fn records_reply(segment_id: int, offset: int, records: Seq<Seq<u8>>) -> Seq<char> {
    shown_reply(segment_id, offset, shown_records(records))
}

/// Whether `reply` is how a client is told of the records that `shown` shows and that end at
/// `position`: that numeral is in it, and behind it each of them, in their order.
pub open spec fn tells_records(
    reply: Seq<char>,
    position: int,
    shown: Seq<Seq<char>>,
) -> bool {
    exists|numeral: Seq<char>, list: Seq<char>|
        {
            &&& #[trigger] is_numeral(numeral, position)
            &&& #[trigger] shows(list, shown)
            &&& reply == "next shard iterator: "@ + numeral + ", records: "@ + "["@ + list + "]"@
        }
}

/// Whether `reply` is how a client is told that there are no more records at `offset`.
pub open spec fn tells_no_records(reply: Seq<char>, offset: int) -> bool {
    exists|numeral: Seq<char>| #[trigger]
        is_numeral(numeral, offset) && reply == "no more records remaining. offset was: "@
            + numeral
}

/// A reply to a request for records that read any, be it one, names the position behind the last
/// of them and shows each of them, in their order. Only one that read none says that there are no
/// more.
pub proof fn law_shown_reply(segment_id: u64, offset: u64, shown: Seq<Seq<char>>)
    requires
        shown.len() > 0 ==> segment_id + offset <= u64::MAX,
    ensures
        ({
            let reply = shown_reply(segment_id as int, offset as int, shown);
            &&& shown.len() > 0 ==> tells_records(reply, segment_id + offset, shown)
            &&& shown.len() == 0 ==> tells_no_records(reply, offset as int)
        }),
{
    let reply = shown_reply(segment_id as int, offset as int, shown);
    if shown.len() > 0 {
        let numeral = decimal((segment_id + offset) as nat);
        law_one_numeral((segment_id + offset) as u64, numeral);
        law_separated(shown);
        assert(is_numeral(numeral, segment_id + offset));
        assert(shows(separated(shown), shown));
        assert(reply =~= "next shard iterator: "@ + numeral + ", records: "@ + "["@ + separated(
            shown,
        ) + "]"@);
    } else {
        let numeral = decimal(offset as nat);
        law_one_numeral(offset, numeral);
        assert(is_numeral(numeral, offset as int));
    }
}

/// A reply to a request for records shows the text of each record that was read as `{:?}` shows
/// texts, one for one.
pub proof fn law_records_reply(segment_id: u64, offset: u64, records: Seq<Seq<u8>>)
    requires
        records.len() > 0 ==> segment_id + offset <= u64::MAX,
    ensures
        ({
            let reply = records_reply(segment_id as int, offset as int, records);
            let shown = shown_records(records);
            &&& shown.len() == records.len()
            &&& forall|i: int|
                0 <= i < records.len() ==> #[trigger] shown[i] == quoted(decode_utf8(records[i]))
            &&& records.len() > 0 ==> tells_records(reply, segment_id + offset, shown)
            &&& records.len() == 0 ==> tells_no_records(reply, offset as int)
        }),
{
    law_shown_reply(segment_id, offset, shown_records(records));
}

/// Whether `reply` is how a client is told of the position `id`: by its numeral.
pub open spec fn tells_iterator(reply: Seq<char>, id: int) -> bool {
    exists|numeral: Seq<char>| #[trigger]
        is_numeral(numeral, id) && reply == "shard iterator: "@ + numeral
}

/// Whether `step` is to tell a client of the position `id`.
pub open spec fn answers_with(step: Step, id: SegmentId) -> bool {
    step matches Step::Reply(reply) && tells_iterator(reply.0@, id as int)
}

/// The number in the reply that names a position reads back as that position, whichever it is.
pub proof fn law_iterator_reply(id: u64)
    ensures
        tells_iterator(iterator_reply(id as int), id as int),
        iterator_reply(id as int).take(16) == "shard iterator: "@,
        number_u64(encode_utf8(iterator_reply(id as int).skip(16))) == Some(id),
{
    let numeral = decimal(id as nat);
    law_one_numeral(id, numeral);
    reveal_strlit("shard iterator: ");
    let reply = iterator_reply(id as int);
    assert(is_numeral(numeral, id as int));
    assert(reply =~= "shard iterator: "@ + numeral);
    assert(reply.take(16) =~= "shard iterator: "@);
    assert(reply.skip(16) =~= numeral);
}

/// Who asks for the latest position is told the greatest number of a listing, and who asks for the
/// oldest the least, as long as the numbers have eight digits at most.
pub proof fn law_iterators_told(ids: Seq<SegmentId>)
    requires
        ids.len() > 0,
        forall|i: int| 0 <= i < ids.len() ==> #[trigger] ids[i] < 100_000_000,
    ensures
        Lookup::Latest.can_use(segment_names(ids)),
        Lookup::Oldest.can_use(segment_names(ids)),
        exists|latest: SegmentId|
            {
                &&& #[trigger] ids.contains(latest)
                &&& forall|i: int| 0 <= i < ids.len() ==> #[trigger] ids[i] <= latest
                &&& tells_iterator(
                    iterator_reply(latest_listed(segment_names(ids)).unwrap() as int),
                    latest as int,
                )
            },
        exists|oldest: SegmentId|
            {
                &&& #[trigger] ids.contains(oldest)
                &&& forall|i: int| 0 <= i < ids.len() ==> oldest <= #[trigger] ids[i]
                &&& tells_iterator(
                    iterator_reply(oldest_listed(segment_names(ids)).unwrap() as int),
                    oldest as int,
                )
            },
{
    law_latest_and_oldest(ids);
    let latest = latest_listed(segment_names(ids)).unwrap();
    let oldest = oldest_listed(segment_names(ids)).unwrap();
    law_iterator_reply(latest);
    law_iterator_reply(oldest);
    assert(ids.contains(latest));
    assert(ids.contains(oldest));
}

/// Shows the text of each record.
fn show_records(records: &Vec<Record>) -> (shown: Vec<String>)
    requires
        all_text(record_bytes(records@)),
    ensures
        texts(shown@) == shown_records(record_bytes(records@)),
{
    let mut shown: Vec<String> = Vec::new();
    let mut i: usize = 0;
    while i < records.len()
        invariant
            i <= records@.len(),
            all_text(record_bytes(records@)),
            texts(shown@) == shown_records(record_bytes(records@)).take(i as int),
        decreases records@.len() - i,
    {
        let ghost all = shown_records(record_bytes(records@));
        let ghost before = shown@;
        assert(valid_utf8(record_bytes(records@)[i as int]));
        let text = quote(records[i].as_string().as_str());
        shown.push(text);
        assert(texts(shown@) =~= texts(before).push(text@));
        assert(all.take(i + 1) =~= all.take(i as int).push(all[i as int]));
        i = i + 1;
    }
    assert(texts(shown@) =~= shown_records(record_bytes(records@)));
    shown
}

/// The reply to a request for records, of which those that `shown` shows were read by a reader
/// that began in the segment `segment_id` and reached `offset`.
pub fn reply_with_shown(segment_id: u64, offset: u64, shown: &Vec<String>) -> (reply: Response)
    requires
        shown@.len() > 0 ==> offset + segment_id <= u64::MAX,
    ensures
        reply.0@ == shown_reply(segment_id as int, offset as int, texts(shown@)),
        shown@.len() > 0 ==> tells_records(reply.0@, segment_id + offset, texts(shown@)),
        shown@.len() == 0 ==> tells_no_records(reply.0@, offset as int),
{
    proof {
        law_shown_reply(segment_id, offset, texts(shown@));
    }
    if shown.len() == 0 {
        let mut text = "no more records remaining. offset was: ".to_owned();
        text.append(decimal_text(offset).as_str());
        Response(text)
    } else {
        let mut text = "next shard iterator: ".to_owned();
        text.append(decimal_text(offset + segment_id).as_str());
        text.append(", records: ");
        text.append(bracketed_list(shown).as_str());
        Response(text)
    }
}

/// The reply to a request for records, of which `records` were read by a reader that began in
/// the segment `segment_id` and reached `offset`.
pub fn reply_with_records(segment_id: u64, offset: u64, records: &Vec<Record>) -> (reply: Response)
    requires
        all_text(record_bytes(records@)),
        records@.len() > 0 ==> offset + segment_id <= u64::MAX,
    ensures
        reply.0@ == records_reply(segment_id as int, offset as int, record_bytes(records@)),
        records@.len() > 0 ==> tells_records(
            reply.0@,
            segment_id + offset,
            shown_records(record_bytes(records@)),
        ),
        records@.len() == 0 ==> tells_no_records(reply.0@, offset as int),
{
    let shown = show_records(records);
    assert(texts(shown@).len() == records@.len());
    reply_with_shown(segment_id, offset, &shown)
}

/// The reply that names the position `id`.
pub fn reply_with_iterator(id: u64) -> (reply: Response)
    ensures
        reply.0@ == iterator_reply(id as int),
        tells_iterator(reply.0@, id as int),
{
    proof {
        law_iterator_reply(id);
    }
    let mut text = "shard iterator: ".to_owned();
    text.append(decimal_text(id).as_str());
    Response(text)
}

/// The reply that a record was written.
pub fn reply_written() -> (reply: Response)
    ensures
        reply.0@ == "data was written!!!"@,
{
    Response("data was written!!!".to_owned())
}

/// The step that follows once the writer was to write a record, by what came of that: the reply
/// that it was written, or the writer's error.
pub fn record_appended<E>(outcome: Result<(), E>) -> (step: Result<Step, E>)
    ensures
        step is Ok <==> outcome is Ok,
        match outcome {
            Ok(_) => step matches Ok(Step::Reply(reply)) && reply.0@ == "data was written!!!"@,
            Err(error) => step matches Err(e) && e == error,
        },
{
    match outcome {
        Ok(_) => Ok(Step::Reply(reply_written())),
        Err(error) => Err(error),
    }
}

/// The first step of a request to add a record, by the verdict on its bytes.
pub open spec fn put_step(data: Vec<u8>, verdict: Result<(), RecordError>) -> Step {
    match verdict {
        Ok(_) => Step::AppendRecord(Record(data)),
        Err(error) => Step::Refuse(error),
    }
}

/// A request to add a record is followed by adding it, with exactly its bytes, if and only if these
/// are UTF-8 and decode as Base64, however many they are. Otherwise it is turned down: with the
/// decoder's error if they are text, and for not being text if they are not.
pub proof fn law_put(data: Vec<u8>, decoded: Result<Seq<u8>, Base64Error>)
    ensures
        ({
            let step = put_step(data, record_verdict(data@, decoded));
            &&& step is AppendRecord <==> valid_utf8(data@) && decoded is Ok
            &&& step matches Step::AppendRecord(record) ==> record.0 == data && record@ == data@
            &&& step is Refuse <==> !valid_utf8(data@) || decoded is Err
            &&& valid_utf8(data@) ==> (decoded matches Err(error) ==> step == Step::Refuse(
                RecordError::Base64(error),
            ))
            &&& !valid_utf8(data@) ==> (step matches Step::Refuse(error) && error is Utf8)
        }),
        forall|error: RecordError| #[trigger]
            put_step(data, Err(error)) == Step::Refuse(error),
{
    assert(data@.len() == data.len());
    law_recordable(data@, decoded);
}

/// The first step of a request to add a record, by the verdict on its bytes.
pub fn put_records(data: Vec<u8>, verdict: Result<(), RecordError>) -> (step: Step)
    ensures
        match verdict {
            Ok(_) => step == Step::AppendRecord(Record(data)),
            Err(error) => step == Step::Refuse(error),
        },
        step == put_step(data, verdict),
{
    match verdict {
        Ok(_) => Step::AppendRecord(Record(data)),
        Err(error) => Step::Refuse(error),
    }
}

/// The first step of a request. Records that are asked to be added are turned down unless they
/// are text and Base64; what is added is one line of text.
pub fn handle_request(request: Request) -> (step: Step)
    requires
        request matches Request::PutRecords(data) ==> valid_utf8(data@) ==> data@.len()
            <= usize::MAX / 4,
    ensures
        step == (match request {
            Request::GetRecords(position) => Step::ListSegments(Lookup::Records(position)),
            Request::GetShardIterator(ShardIteratorType::Latest) => Step::ListSegments(
                Lookup::Latest,
            ),
            Request::GetShardIterator(ShardIteratorType::Oldest) => Step::ListSegments(
                Lookup::Oldest,
            ),
            Request::PutRecords(data) => put_step(
                data,
                record_verdict(data@, base64_decoded(data@)),
            ),
        }),
        step matches Step::AppendRecord(record) ==> is_line_text(record@),
        request matches Request::GetRecords(position) ==> (step matches Step::ListSegments(
            Lookup::Records(wanted),
        ) && wanted == position),
        step == Step::ListSegments(Lookup::Latest) <==> request == Request::GetShardIterator(
            ShardIteratorType::Latest,
        ),
        step == Step::ListSegments(Lookup::Oldest) <==> request == Request::GetShardIterator(
            ShardIteratorType::Oldest,
        ),
        request matches Request::PutRecords(data) ==> {
            let decoded = base64_decoded(data@);
            &&& step is AppendRecord <==> valid_utf8(data@) && decoded is Ok
            &&& step matches Step::AppendRecord(record) ==> record@ == data@
            &&& valid_utf8(data@) ==> (decoded matches Err(error) ==> step == Step::Refuse(
                RecordError::Base64(error),
            ))
            &&& !valid_utf8(data@) ==> (step matches Step::Refuse(error) && error is Utf8)
        },
{
    match request {
        Request::GetRecords(position) => Step::ListSegments(Lookup::Records(position)),
        Request::GetShardIterator(ShardIteratorType::Latest) => Step::ListSegments(Lookup::Latest),
        Request::GetShardIterator(ShardIteratorType::Oldest) => Step::ListSegments(Lookup::Oldest),
        Request::PutRecords(data) => {
            let verdict = assert_recordable(data.as_slice());
            put_records(data, verdict)
        },
    }
}

/// The reader of the records that follow `position`, if the segment files have these names.
pub open spec fn records_reader(
    shard_dir: ShardDir,
    names: Seq<Seq<char>>,
    position: u64,
    latest_segment: usize,
) -> ShardReader {
    let (segment_id, offset) = located(names, position);
    ShardReader {
        segment_id: segment_id as u64,
        offset: offset as u64,
        chunk_size: CHUNK_SIZE,
        shard_dir,
        latest_log_offset: latest_segment,
    }
}

/// A request for records is given to a reader that begins at the position asked for, stops where
/// the latest segment begins and takes ten records at most. It begins in the listed segment with
/// the greatest number that is not over the position.
pub proof fn law_records_reader(
    shard_dir: ShardDir,
    ids: Seq<SegmentId>,
    position: u64,
    latest_segment: usize,
)
    requires
        position <= i64::MAX,
        forall|i: int| 0 <= i < ids.len() ==> #[trigger] ids[i] <= i64::MAX,
        exists|i: int| 0 <= i < ids.len() && #[trigger] ids[i] <= position,
    ensures
        Lookup::Records(position).can_use(segment_names(ids)),
        ({
            let reader = records_reader(shard_dir, segment_names(ids), position, latest_segment);
            &&& reader.segment_id + reader.offset == position
            &&& ids.contains(reader.segment_id)
            &&& forall|i: int|
                0 <= i < ids.len() && #[trigger] ids[i] <= position ==> ids[i] <= reader.segment_id
            &&& reader.latest_log_offset == latest_segment
            &&& reader.chunk_size == 10
            &&& reader.shard_dir == shard_dir
        }),
{
    law_located(ids, position);
}

impl Lookup {
    /// Whether `names` are the names of segment files as far as this lookup looks at them.
    pub open spec fn can_use(self, names: Seq<Seq<char>>) -> bool {
        match self {
            Lookup::Records(position) => can_locate(names, position),
            Lookup::Latest => latest_listed(names) is Some,
            Lookup::Oldest => oldest_listed(names) is Some,
        }
    }

    /// The next step, given the names of the segment files and the latest segment.
    pub fn listed(
        self,
        shard_dir: &ShardDir,
        names: &Vec<String>,
        latest_segment: usize,
    ) -> (step: Step)
        requires
            self.can_use(texts(names@)),
        ensures
            self is Latest ==> (exists|k: int, id: SegmentId|
                {
                    &&& 0 <= k < names@.len()
                    &&& number_u64(#[trigger] encode_utf8(texts(names@)[k])) == Some(id)
                    &&& forall|i: int|
                        0 <= i < names@.len() ==> #[trigger] text_le(
                            texts(names@)[i],
                            texts(names@)[k],
                        )
                    &&& #[trigger] answers_with(step, id)
                }),
            self is Oldest ==> (exists|k: int, id: SegmentId|
                {
                    &&& 0 <= k < names@.len()
                    &&& number_u64(#[trigger] encode_utf8(texts(names@)[k])) == Some(id)
                    &&& forall|i: int|
                        0 <= i < names@.len() ==> #[trigger] text_le(
                            texts(names@)[k],
                            texts(names@)[i],
                        )
                    &&& #[trigger] answers_with(step, id)
                }),
            match self {
                Lookup::Records(position) => step matches Step::ReadSegment(read) && {
                    let (segment_id, offset) = located(texts(names@), position);
                    &&& read.reader == records_reader(
                        *shard_dir,
                        texts(names@),
                        position,
                        latest_segment,
                    )
                    &&& read.records@ == Seq::<Record>::empty()
                    &&& read.path == segment_path(*shard_dir, segment_id)
                    &&& read.start == offset
                },
                Lookup::Latest => step matches Step::Reply(reply) && reply.0@ == iterator_reply(
                    latest_listed(texts(names@)).unwrap() as int,
                ),
                Lookup::Oldest => step matches Step::Reply(reply) && reply.0@ == iterator_reply(
                    oldest_listed(texts(names@)).unwrap() as int,
                ),
            },
    {
        match self {
            Lookup::Records(position) => {
                let (segment_id, offset) = shard_dir.find_belonging_segment(names, position);
                let reader = ShardReader {
                    segment_id,
                    offset,
                    chunk_size: CHUNK_SIZE,
                    shard_dir: shard_dir.clone(),
                    latest_log_offset: latest_segment,
                };
                let (path, start) = reader.start();
                Step::ReadSegment(RecordsRead { reader, records: Vec::new(), path, start })
            },
            Lookup::Latest => {
                let id = shard_dir.get_latest_segment(names);
                let step = Step::Reply(reply_with_iterator(id));
                assert(answers_with(step, id));
                step
            },
            Lookup::Oldest => {
                let id = shard_dir.get_oldest_segment(names);
                let step = Step::Reply(reply_with_iterator(id));
                assert(answers_with(step, id));
                step
            },
        }
    }
}

impl RecordsRead {
    /// The records so far are text.
    pub open spec fn well_formed(self) -> bool {
        all_text(record_bytes(self.records@))
    }

    /// How many lines are taken of a file whose rest is `rest`.
    pub open spec fn taken(self, rest: Seq<u8>) -> int {
        self.reader.taken(rest, self.records@.len() as int) as int
    }

    /// The records once those in `rest` were read.
    pub open spec fn records_after(self, rest: Seq<u8>) -> Seq<Seq<u8>> {
        record_bytes(self.records@) + line_texts(lines(rest).take(self.taken(rest)))
    }

    /// The offset once the records in `rest` were read.
    pub open spec fn offset_after(self, rest: Seq<u8>) -> int {
        self.reader.offset_after(rest, self.taken(rest))
    }

    /// Whether the positions in the log that are looked at, for `rest` and for the reply, fit in 64
    /// bits.
    pub open spec fn can_resume(self, rest: Seq<u8>) -> bool {
        let count = self.records@.len() as int;
        &&& self.reader.can_read(rest, count)
        &&& (self.reader.step_after(rest, count) == Ok::<ReadStep, NotUtf8>(ReadStep::Finished)
            && self.records_after(rest).len() > 0) ==> self.reader.segment_id
            + self.offset_after(rest) <= u64::MAX
    }

    /// Whether the positions that are looked at fit in 64 bits.
    pub fn check_resume(&self, rest: &[u8]) -> (fine: bool)
        ensures
            fine == self.can_resume(rest@),
    {
        let scan = self.reader.scan(rest, self.records.len());
        let ghost k = self.taken(rest@);
        assert(self.records_after(rest@).len() == self.records@.len() + k) by {
            self.reader.lemma_taken(
                lines(rest@),
                self.reader.offset as int,
                self.records@.len() as int,
            );
        }
        if !self.reader.check_scan(rest, self.records.len(), &scan) {
            return false;
        }
        let finished = match scan.end {
            ScanEnd::Stops => true,
            ScanEnd::NotText => false,
            ScanEnd::FileEnds => !self.reader.rolls(),
        };
        !finished || (self.records.len() == 0 && scan.taken == 0) || self.reader.segment_id as u128
            + self.reader.offset as u128 + scan.bytes as u128 <= u64::MAX as u128
    }

    /// The next step, given what the file holds from the wanted place on.
    pub fn resume(self, rest: &[u8]) -> (step: Result<Step, NotUtf8>)
        requires
            self.well_formed(),
            self.can_resume(rest@),
        ensures
            step matches Ok(Step::Reply(reply)) ==> {
                let read = self.records_after(rest@);
                &&& read.len() > 0 ==> tells_records(
                    reply.0@,
                    self.reader.segment_id + self.offset_after(rest@),
                    shown_records(read),
                )
                &&& read.len() == 0 ==> tells_no_records(reply.0@, self.offset_after(rest@))
            },
            match self.reader.step_after(rest@, self.records@.len() as int) {
                Err(error) => step matches Err(e) && e == error,
                Ok(ReadStep::Roll(path)) => step matches Ok(Step::ReadSegment(read)) && {
                    &&& read.reader == (ShardReader {
                        offset: self.offset_after(rest@) as u64,
                        ..self.reader
                    })
                    &&& record_bytes(read.records@) == self.records_after(rest@)
                    &&& read.path == path
                    &&& read.start == 0
                    &&& read.well_formed()
                },
                Ok(ReadStep::Finished) => step matches Ok(Step::Reply(reply)) && reply.0@
                    == records_reply(
                    self.reader.segment_id as int,
                    self.offset_after(rest@),
                    self.records_after(rest@),
                ),
            },
    {
        let mut reader = self.reader;
        let mut records = self.records;
        let outcome = reader.read(rest, &mut records);
        proof {
            self.lemma_records_after_text(rest@);
        }
        match outcome {
            Err(error) => Err(error),
            Ok(ReadStep::Roll(path)) => Ok(
                Step::ReadSegment(RecordsRead { reader, records, path, start: 0 }),
            ),
            Ok(ReadStep::Finished) => Ok(
                Step::Reply(reply_with_records(reader.segment_id, reader.offset, &records)),
            ),
        }
    }

    /// Reading on adds the texts of the lines that the reader takes behind the records that were
    /// there, one for one, and moves the offset by the bytes of these lines.
    pub proof fn law_records_after(self, rest: Seq<u8>)
        ensures
            ({
                let k = self.reader.taken(rest, self.records@.len() as int) as int;
                let n = self.records@.len() as int;
                let after = self.records_after(rest);
                &&& after.len() == n + k
                &&& forall|i: int| 0 <= i < n ==> #[trigger] after[i] == self.records@[i]@
                &&& forall|i: int| n <= i < n + k ==> #[trigger] after[i] == line_text(
                    lines(rest)[i - n],
                )
                &&& self.offset_after(rest) == self.reader.offset + lines(rest).take(
                    k,
                ).flatten().len()
            }),
    {
        self.reader.law_lines_taken(rest, self.records@.len() as int);
    }

    /// What is read is text.
    proof fn lemma_records_after_text(self, rest: Seq<u8>)
        requires
            self.well_formed(),
        ensures
            all_text(self.records_after(rest)),
    {
        let k = self.taken(rest);
        let ls = lines(rest);
        let count = self.records@.len() as int;
        self.reader.lemma_taken(ls, self.reader.offset as int, count);
        assert forall|i: int| 0 <= i < self.records_after(rest).len() implies valid_utf8(
            #[trigger] self.records_after(rest)[i],
        ) by {
            if i < self.records@.len() {
                assert(valid_utf8(record_bytes(self.records@)[i]));
            } else {
                let line = ls[i - self.records@.len()];
                lemma_line_text_valid(line);
                assert(self.records_after(rest)[i] == line_text(line));
            }
        }
    }
}

} // verus!
