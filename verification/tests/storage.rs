//! A shard on a disk that is kept in memory.

use std::collections::BTreeMap;
use std::path::PathBuf;

use shards::dir::{MountStep, SegmentId, ShardDir};
use shards::reader::{ReadStep, ShardReader};
use shards::record::{Record, RecordError, Utf8Failure};
use shards::request::{
    handle_request, record_appended, RecordsRead, Request, Response, ShardIteratorType, Step,
};
use shards::writer::{start_shard_workers, ShaW, ShardWriter, ShardWriter2, WORKERS};

/// The directory of a shard, if it exists, with its files by their paths.
struct Disk {
    dir: Option<BTreeMap<PathBuf, Vec<u8>>>,
}

impl Disk {
    fn new() -> Disk {
        Disk { dir: None }
    }

    fn with_dir() -> Disk {
        Disk { dir: Some(BTreeMap::new()) }
    }

    fn is_there(&self) -> bool {
        self.dir.is_some()
    }

    fn files(&mut self) -> &mut BTreeMap<PathBuf, Vec<u8>> {
        self.dir.as_mut().unwrap()
    }

    fn names(&mut self) -> Vec<String> {
        let paths: Vec<PathBuf> = self.files().keys().cloned().collect();
        // Not in their order.
        paths
            .iter()
            .rev()
            .map(|p| p.file_name().unwrap().to_str().unwrap().to_string())
            .collect()
    }

    fn mount(&mut self, shard_dir: &ShardDir) {
        match shard_dir.assert_mount_path(self.is_there(), self.is_there()) {
            MountStep::NotADirectory => panic!("mount path exists and is not a directory"),
            MountStep::CreateDir => self.dir = Some(BTreeMap::new()),
            MountStep::ListDir => (),
        }
        let entries = self.files().len();
        if let Some(path) = shard_dir.missing_segment(entries) {
            self.files().insert(path, Vec::new());
        }
    }

    fn latest(&mut self, shard_dir: &ShardDir) -> SegmentId {
        let names = self.names();
        shard_dir.get_latest_segment(&names)
    }

    fn oldest(&mut self, shard_dir: &ShardDir) -> SegmentId {
        let names = self.names();
        shard_dir.get_oldest_segment(&names)
    }

    fn end_offset(&mut self, shard_dir: &ShardDir, id: SegmentId) -> u64 {
        let path = shard_dir.path_to_segment(id);
        self.files()[&path].len() as u64
    }

    fn write<W: ShaW>(&mut self, writer: &mut W, record: Record) {
        let append = writer.write(record);
        let written = append.bytes.len();
        self.files().entry(append.path).or_default().extend(append.bytes);
        writer.wrote(written);
    }

    fn rest(&mut self, path: &PathBuf, start: u64) -> Vec<u8> {
        let file = self.files().get(path).expect("no such file");
        file.iter().skip(start as usize).cloned().collect()
    }

    fn read(&mut self, reader: &mut ShardReader) -> Result<Vec<Record>, shards::reader::NotUtf8> {
        let mut records = Vec::new();
        let (mut path, mut start) = reader.start();
        loop {
            let rest = self.rest(&path, start);
            assert!(reader.check_read(&rest, &records));
            match reader.read(&rest, &mut records)? {
                ReadStep::Finished => return Ok(records),
                ReadStep::Roll(next) => {
                    path = next;
                    start = 0;
                }
            }
        }
    }

    fn serve(
        &mut self,
        shard_dir: &ShardDir,
        writer: &mut ShardWriter,
        request: Request,
    ) -> Result<Response, RecordError> {
        let mut step = handle_request(request);
        loop {
            step = match step {
                Step::ListSegments(lookup) => {
                    let names = self.names();
                    lookup.listed(shard_dir, &names, writer.latest_segment)
                }
                Step::ReadSegment(read) => {
                    let rest = self.rest(&read.path, read.start);
                    assert!(read.check_resume(&rest));
                    read.resume(&rest).unwrap()
                }
                Step::AppendRecord(record) => {
                    self.write(writer, record);
                    record_appended::<RecordError>(Ok(())).unwrap()
                }
                Step::Reply(reply) => return Ok(reply),
                Step::Refuse(error) => return Err(error),
            }
        }
    }
}

fn shard_dir() -> ShardDir {
    ShardDir { mount_dir: PathBuf::from("to_mount-test") }
}

fn open_writer(disk: &mut Disk, shard_dir: &ShardDir, max_segment_size: u64) -> ShardWriter {
    let latest_segment = disk.latest(shard_dir);
    let offset = disk.end_offset(shard_dir, latest_segment);
    ShardWriter {
        latest_segment: latest_segment as usize,
        shard_dir: shard_dir.clone(),
        offset,
        max_segment_size,
    }
}

#[test]
fn shard_dir_creates_dir() {
    let mut disk = Disk::new();
    assert!(!disk.is_there());
    disk.mount(&shard_dir());
    assert!(disk.is_there());
}

#[test]
fn shard_dir_does_not_delete_existing_dir() {
    let mut disk = Disk::with_dir();
    disk.mount(&shard_dir());
    assert!(disk.is_there());
}

#[test]
fn shard_dir_gives_a_0_segment_on_new_dir() {
    let mut disk = Disk::with_dir();
    disk.mount(&shard_dir());
    let latest_segment = disk.latest(&shard_dir());
    assert_eq!(latest_segment, 0);
}

#[test]
fn shard_writer2_writes_to_shard() {
    let shard_dir = shard_dir();
    let mut disk = Disk::new();
    disk.mount(&shard_dir);
    let mut shard_writer = open_writer(&mut disk, &shard_dir, 1000000);
    let string_data = base64::encode("meucu_tem_oculos".as_bytes());
    let record = Record(string_data.clone().into_bytes());

    disk.write(&mut shard_writer, record);

    let path = shard_dir.path_to_segment(shard_writer.latest_segment as u64);
    let expected = format!("{}\n", &string_data);
    let res = String::from_utf8(disk.rest(&path, 0)).unwrap();
    let string_data_size_in_bytes = string_data.into_bytes().len() as u64;
    let new_offset = shard_writer.offset;
    assert_eq!(res, expected);
    assert_eq!(new_offset, string_data_size_in_bytes + 1)
}

#[test]
fn shard_writer2_writes_to_shard_rolls() {
    let shard_dir = shard_dir();
    let mut disk = Disk::new();
    disk.mount(&shard_dir);
    let original_latest_segment = disk.latest(&shard_dir);
    let mut shard_writer = open_writer(&mut disk, &shard_dir, 10);
    let string_data = base64::encode("meucu_tem_oculos".as_bytes());
    let record = Record(string_data.clone().into_bytes());

    disk.write(&mut shard_writer, record.clone());
    disk.write(&mut shard_writer, record.clone());

    let new_latest_segment = disk.latest(&shard_dir);
    assert!(original_latest_segment < new_latest_segment);
    let string_data_size_in_bytes = string_data.into_bytes().len() as u64;
    assert_eq!(new_latest_segment, string_data_size_in_bytes + 1); // \n is 1 byte long
}

#[test]
fn shard_reader_read_empty() {
    let shard_dir = shard_dir();
    let mut disk = Disk::new();
    disk.mount(&shard_dir);
    let mut shard_reader = ShardReader {
        segment_id: disk.latest(&shard_dir),
        latest_log_offset: disk.latest(&shard_dir) as usize,
        offset: 0,
        chunk_size: 10,
        shard_dir,
    };
    let res = disk.read(&mut shard_reader);
    assert!(res.is_ok());
    assert_eq!(res.unwrap().len(), 0);
}

#[test]
fn shard_reader_read_containing() {
    let shard_dir = shard_dir();
    let mut disk = Disk::new();
    disk.mount(&shard_dir);
    let mut shard_writer = open_writer(&mut disk, &shard_dir, 100);
    let string_data_1 = base64::encode("meucu_tem_oculos_1".as_bytes());
    let record_1 = Record(string_data_1.clone().into_bytes());

    let _string_data_2 = base64::encode("meucu_tem_oculos_2".as_bytes());
    let record_2 = Record(string_data_1.clone().into_bytes());

    disk.write(&mut shard_writer, record_1.clone());
    disk.write(&mut shard_writer, record_2.clone());

    let segment_id = disk.oldest(&shard_dir);
    let latest = disk.latest(&shard_dir);
    let latest_log_offset = disk.end_offset(&shard_dir, latest) as usize;
    let offset = disk.oldest(&shard_dir);
    let mut shard_reader =
        ShardReader { segment_id, latest_log_offset, offset, chunk_size: 10, shard_dir };

    let res = disk.read(&mut shard_reader);
    assert!(res.is_ok());
    assert_eq!(res.unwrap(), vec![record_1.clone(), record_2.clone()])
}

fn text(i: usize) -> String {
    base64::encode(format!("record number {:03}", i).as_bytes())
}

/// A shard with `n` records in it.
fn filled(n: usize, max_segment_size: u64) -> (Disk, ShardDir, ShardWriter) {
    let shard_dir = shard_dir();
    let mut disk = Disk::new();
    disk.mount(&shard_dir);
    let mut writer = open_writer(&mut disk, &shard_dir, max_segment_size);
    for i in 0..n {
        let reply = disk.serve(&shard_dir, &mut writer, Request::PutRecords(text(i).into_bytes()));
        assert_eq!(reply.unwrap().0, "data was written!!!");
    }
    (disk, shard_dir, writer)
}

/// The records that are read from `position` on, and the position behind them.
fn read_from(
    disk: &mut Disk,
    shard_dir: &ShardDir,
    writer: &ShardWriter,
    position: u64,
    chunk_size: usize,
) -> (Vec<String>, u64) {
    let names = disk.names();
    let (segment_id, offset) = shard_dir.find_belonging_segment(&names, position);
    let mut reader = ShardReader {
        segment_id,
        latest_log_offset: writer.latest_segment,
        offset,
        chunk_size,
        shard_dir: shard_dir.clone(),
    };
    let records = disk.read(&mut reader).unwrap();
    let texts = records.iter().map(|r| r.as_string()).collect();
    (texts, reader.segment_id + reader.offset)
}

#[test]
fn written_is_read_across_segments() {
    // A record takes 25 bytes.
    for max_segment_size in [0, 24, 25, 60, 100, 1000] {
        for chunk_size in [1, 3, 10, 100] {
            let (mut disk, shard_dir, writer) = filled(24, max_segment_size);
            let end = writer.latest_segment as u64 + writer.offset;
            let mut position = 0;
            let mut seen = Vec::new();
            while position < end {
                let (read, next) =
                    read_from(&mut disk, &shard_dir, &writer, position, chunk_size);
                assert!(read.len() > 0);
                assert!(read.len() <= chunk_size);
                assert!(next > position);
                seen.extend(read);
                position = next;
            }
            let expected: Vec<String> = (0..24).map(text).collect();
            assert_eq!(seen, expected);
            assert_eq!(position, end);
        }
    }
}

#[test]
fn reading_stops_at_the_latest_segment() {
    let (mut disk, shard_dir, writer) = filled(6, 60);
    let size = text(0).len() as u64 + 1;
    assert_eq!(size, 25);
    assert_eq!(writer.latest_segment, 150);
    assert_eq!(writer.offset, 0);
    let (read, next) = read_from(&mut disk, &shard_dir, &writer, 25, 10);
    assert_eq!(read, (1..6).map(text).collect::<Vec<String>>());
    assert_eq!(next, 150);

    let (mut disk, shard_dir, writer) = filled(5, 60);
    assert_eq!(writer.latest_segment, 75);
    assert_eq!(writer.offset, 50);
    let (read, next) = read_from(&mut disk, &shard_dir, &writer, 25, 10);
    assert_eq!(read, vec![text(1), text(2)]);
    assert_eq!(next, 75);
    // In the latest segment, one record at a time.
    let (read, next) = read_from(&mut disk, &shard_dir, &writer, 75, 10);
    assert_eq!(read, vec![text(3)]);
    assert_eq!(next, 100);
    let (read, next) = read_from(&mut disk, &shard_dir, &writer, 125, 10);
    assert_eq!(read.len(), 0);
    assert_eq!(next, 125);
}

#[test]
fn write_then_read_gives_the_record() {
    let (mut disk, shard_dir, mut writer) = filled(4, 60);
    let position = writer.latest_segment as u64 + writer.offset;
    disk.write(&mut writer, Record(b"bmV3".to_vec()));
    let (read, next) = read_from(&mut disk, &shard_dir, &writer, position, 10);
    assert_eq!(read, vec!["bmV3".to_string()]);
    assert_eq!(next, position + 5);
}

#[test]
fn reopened_log_goes_on_at_its_end() {
    // A segment that was begun but not written to is not found again.
    let (mut disk, shard_dir, writer) = filled(3, 60);
    assert_eq!((writer.latest_segment, writer.offset), (75, 0));
    let latest = disk.latest(&shard_dir);
    let end = disk.end_offset(&shard_dir, latest);
    let mut again = start_shard_workers(shard_dir.clone(), latest, end);
    assert_eq!((again.latest_segment, again.offset, again.max_segment_size), (0, 75, 100));
    assert_eq!(WORKERS, 8);
    disk.write(&mut again, Record(text(3).into_bytes()));
    assert_eq!((again.latest_segment, again.offset), (0, 100));
    disk.write(&mut again, Record(text(4).into_bytes()));
    assert_eq!((again.latest_segment, again.offset), (125, 0));
    let (read, next) = read_from(&mut disk, &shard_dir, &again, 0, 10);
    assert_eq!(read, (0..5).map(text).collect::<Vec<String>>());
    assert_eq!(next, 125);
}

#[test]
fn both_writers_move_alike() {
    let mut a = ShardWriter {
        latest_segment: 40,
        shard_dir: shard_dir(),
        offset: 3,
        max_segment_size: 10,
    };
    let mut b = ShardWriter2 {
        latest_segment: 40,
        shard_dir: shard_dir(),
        offset: 3,
        max_segment_size: 10,
    };
    for written in [0, 7, 0, 1, 4, 6, 1, 30] {
        a.wrote(written);
        b.wrote(written);
        assert_eq!((a.latest_segment as u64, a.offset), (b.latest_segment, b.offset));
    }
    assert_eq!((b.latest_segment, b.offset), (92, 0));
    let append = b.write(Record(b"abc".to_vec()));
    assert_eq!(append.path, PathBuf::from("to_mount-test").join("00000092"));
    assert_eq!(append.bytes, b"abc\n".to_vec());
    assert_eq!(a.write(Record(Vec::new())).bytes, b"\n".to_vec());
}

#[test]
fn writers_know_their_limits() {
    let mut writer = ShardWriter2 {
        latest_segment: u64::MAX - 20,
        shard_dir: shard_dir(),
        offset: 5,
        max_segment_size: 10,
    };
    assert!(writer.has_room(5));
    assert!(writer.has_room(15));
    assert!(!writer.has_room(16));
    writer.max_segment_size = u64::MAX;
    assert!(writer.has_room(16));
    writer.offset = u64::MAX;
    assert!(writer.has_room(0));
    assert!(!writer.has_room(1));
    let mut writer = ShardWriter {
        latest_segment: usize::MAX - 20,
        shard_dir: shard_dir(),
        offset: 5,
        max_segment_size: 10,
    };
    assert!(writer.has_room(5));
    assert!(writer.has_room(15));
    assert!(!writer.has_room(16));
    writer.wrote(15);
    assert_eq!((writer.latest_segment, writer.offset), (usize::MAX, 0));
}

#[test]
fn reader_keeps_a_last_line_without_newline() {
    let mut reader = ShardReader {
        segment_id: 0,
        latest_log_offset: 0,
        offset: 0,
        chunk_size: 10,
        shard_dir: shard_dir(),
    };
    let mut records = Vec::new();
    assert!(matches!(reader.read(b"partly", &mut records), Ok(ReadStep::Finished)));
    assert_eq!(records, vec![Record(b"partly".to_vec())]);
    assert_eq!(reader.offset, 6);
}

#[test]
fn reader_rolls_to_the_file_that_follows() {
    let mut reader = ShardReader {
        segment_id: 100,
        latest_log_offset: 1000,
        offset: 7,
        chunk_size: 10,
        shard_dir: shard_dir(),
    };
    let (path, start) = reader.start();
    assert_eq!(path, PathBuf::from("to_mount-test").join("00000100"));
    assert_eq!(start, 7);
    let mut records = Vec::new();
    match reader.read(b"one\n\nthree\n", &mut records) {
        Ok(ReadStep::Roll(path)) => {
            assert_eq!(path, PathBuf::from("to_mount-test").join("00000118"))
        }
        _ => panic!("no roll"),
    }
    assert_eq!(
        records,
        vec![Record(b"one".to_vec()), Record(Vec::new()), Record(b"three".to_vec())]
    );
    assert_eq!(reader.offset, 18);
}

#[test]
fn reader_stops_at_a_line_that_is_not_text() {
    let mut reader = ShardReader {
        segment_id: 0,
        latest_log_offset: 1000,
        offset: 0,
        chunk_size: 10,
        shard_dir: shard_dir(),
    };
    let mut records = Vec::new();
    assert!(reader.read(b"good\nb\xffd\nmore\n", &mut records).is_err());
    assert_eq!(records, vec![Record(b"good".to_vec())]);
    assert_eq!(reader.offset, 5);
}

#[test]
fn requests_are_answered() {
    let (mut disk, shard_dir, mut writer) = filled(12, 60);
    let reply = disk
        .serve(&shard_dir, &mut writer, Request::GetShardIterator(ShardIteratorType::Latest))
        .unwrap();
    assert_eq!(reply.0, "shard iterator: 225");
    let reply = disk
        .serve(&shard_dir, &mut writer, Request::GetShardIterator(ShardIteratorType::Oldest))
        .unwrap();
    assert_eq!(reply.0, "shard iterator: 0");

    let expected: Vec<String> = (0..10).map(text).collect();
    let reply = disk.serve(&shard_dir, &mut writer, Request::GetRecords(0)).unwrap();
    assert_eq!(reply.0, format!("next shard iterator: 250, records: {:?}", expected));

    let reply = disk.serve(&shard_dir, &mut writer, Request::GetRecords(250)).unwrap();
    let expected = vec![text(10), text(11)];
    assert_eq!(reply.0, format!("next shard iterator: 300, records: {:?}", expected));

    let (mut disk, shard_dir, mut writer) = filled(2, 60);
    let reply = disk.serve(&shard_dir, &mut writer, Request::GetRecords(50)).unwrap();
    assert_eq!(reply.0, "no more records remaining. offset was: 50");
}

#[test]
fn replies_escape_what_is_not_plain_text() {
    let (mut disk, shard_dir, mut writer) = filled(0, 60);
    let lines = ["say \"hi\"", "tab\there", "back\\slash", "\u{e9}\u{7f}", "it's"];
    for line in lines {
        let path = shard_dir.path_to_segment(0);
        disk.files().get_mut(&path).unwrap().extend(format!("{}\n", line).into_bytes());
    }
    writer.latest_segment = 1000;
    let names = disk.names();
    let mut reader = ShardReader {
        segment_id: shard_dir.find_belonging_segment(&names, 0).0,
        latest_log_offset: 1000,
        offset: 0,
        chunk_size: 5,
        shard_dir: shard_dir.clone(),
    };
    let records = disk.read(&mut reader).unwrap();
    let reply = shards::request::reply_with_records(0, reader.offset, &records);
    assert_eq!(
        reply.0,
        format!("next shard iterator: {}, records: {:?}", reader.offset, lines.to_vec())
    );
}

#[test]
fn refused_records_are_not_written() {
    let (mut disk, shard_dir, mut writer) = filled(1, 60);
    let before = disk.files().clone();
    let refused = disk.serve(&shard_dir, &mut writer, Request::PutRecords(b"not base64!".to_vec()));
    assert!(matches!(refused, Err(RecordError::Base64(_))));
    let refused = disk.serve(&shard_dir, &mut writer, Request::PutRecords(b"Zm9v\nZm9v".to_vec()));
    assert!(matches!(refused, Err(RecordError::Base64(_))));
    let refused = disk.serve(&shard_dir, &mut writer, Request::PutRecords(vec![b'a', 0xff]));
    let failure = Utf8Failure { valid_up_to: 1, error_len: Some(1) };
    assert!(matches!(refused, Err(RecordError::Utf8(f)) if f == failure));
    assert_eq!(*disk.files(), before);
    assert_eq!((writer.latest_segment, writer.offset), (0, 25));
}

#[test]
fn all_is_read_up_to_the_end() {
    for max_segment_size in [0, 24, 25, 60, 100, 1000] {
        for n in 0..9 {
            let (mut disk, shard_dir, _) = filled(n, max_segment_size);
            let mut reader = ShardReader {
                segment_id: 0,
                latest_log_offset: 25 * n,
                offset: 0,
                chunk_size: n,
                shard_dir,
            };
            let records = disk.read(&mut reader).unwrap();
            let read: Vec<String> = records.iter().map(|r| r.as_string()).collect();
            assert_eq!(read, (0..n).map(text).collect::<Vec<String>>());
            assert_eq!(reader.offset, 25 * n as u64);
        }
    }
}

#[test]
fn reading_ends_wherever_it_is_told_to_stop() {
    let (mut disk, shard_dir, _) = filled(7, 60);
    for latest_log_offset in 0..=175 {
        let mut reader = ShardReader {
            segment_id: 0,
            latest_log_offset,
            offset: 25,
            chunk_size: 10,
            shard_dir: shard_dir.clone(),
        };
        let records = disk.read(&mut reader).unwrap();
        let read: Vec<String> = records.iter().map(|r| r.as_string()).collect();
        let end = std::cmp::max(2, (latest_log_offset + 24) / 25);
        assert_eq!(read, (1..end).map(text).collect::<Vec<String>>());
        assert_eq!(reader.offset, 25 * end as u64);
    }
    // A full chunk ends before the end of the log is missed.
    let mut reader = ShardReader {
        segment_id: 0,
        latest_log_offset: 1000,
        offset: 0,
        chunk_size: 7,
        shard_dir,
    };
    assert_eq!(disk.read(&mut reader).unwrap().len(), 7);
}

#[test]
fn a_reader_at_the_end_may_be_behind_the_writer() {
    // The latest segment was begun, but has no file. A reader that was told of the one before it
    // finds nothing more.
    let (mut disk, shard_dir, writer) = filled(6, 60);
    assert_eq!((writer.latest_segment, writer.offset), (150, 0));
    let names = disk.names();
    let (segment_id, offset) = shard_dir.find_belonging_segment(&names, 150);
    assert_eq!((segment_id, offset), (75, 75));
    let mut reader =
        ShardReader { segment_id, latest_log_offset: 75, offset, chunk_size: 10, shard_dir };
    assert_eq!(disk.read(&mut reader).unwrap(), Vec::new());
    assert_eq!(reader.offset, 75);
}

#[test]
fn segments_are_cut_where_they_are_full() {
    for max_segment_size in [0, 24, 25, 60, 100] {
        let (mut disk, shard_dir, _) = filled(9, max_segment_size);
        let mut all = Vec::new();
        let files: Vec<(PathBuf, Vec<u8>)> =
            disk.files().iter().map(|(p, f)| (p.clone(), f.clone())).collect();
        for (i, (path, file)) in files.iter().enumerate() {
            assert_eq!(*path, shard_dir.path_to_segment(all.len() as u64));
            assert!(i + 1 == files.len() || file.len() as u64 > max_segment_size);
            assert_eq!(file.last(), Some(&b'\n'));
            all.extend(file.clone());
        }
        let expected: String = (0..9).map(|i| format!("{}\n", text(i))).collect();
        assert_eq!(all, expected.into_bytes());
    }
}

#[test]
fn requests_go_on_where_the_last_one_ended() {
    let (mut disk, shard_dir, mut writer) = filled(12, 60);
    let reply = disk.serve(&shard_dir, &mut writer, Request::GetRecords(50)).unwrap();
    let expected: Vec<String> = (2..12).map(text).collect();
    assert_eq!(reply.0, format!("next shard iterator: 300, records: {:?}", expected));
    for i in 12..15 {
        let put = Request::PutRecords(text(i).into_bytes());
        disk.serve(&shard_dir, &mut writer, put).unwrap();
    }
    let reply = disk.serve(&shard_dir, &mut writer, Request::GetRecords(300)).unwrap();
    let expected: Vec<String> = (12..15).map(text).collect();
    assert_eq!(reply.0, format!("next shard iterator: 375, records: {:?}", expected));
}

#[test]
fn readers_know_their_limits() {
    let mut reader = ShardReader {
        segment_id: u64::MAX - 10,
        latest_log_offset: usize::MAX,
        offset: 0,
        chunk_size: 3,
        shard_dir: shard_dir(),
    };
    let none = Vec::new();
    assert!(reader.check_read(b"", &none));
    assert!(reader.check_read(b"1234\n6789\n", &none));
    assert!(!reader.check_read(b"1234\n67890\n", &none));
    assert!(reader.check_read(b"12345678901234567890\xff", &none));
    // With a full chunk the position behind the last line is not looked at.
    let two = vec![Record(Vec::new()), Record(Vec::new())];
    assert!(reader.check_read(b"12345678901234567890\n", &two));
    assert!(!reader.check_read(b"12345678901234567890\n", &none));
    // But it is told in the reply.
    let read = RecordsRead {
        reader: ShardReader { chunk_size: 1, shard_dir: shard_dir(), ..reader },
        records: Vec::new(),
        path: PathBuf::new(),
        start: 0,
    };
    assert!(read.check_resume(b"1234567890"));
    assert!(!read.check_resume(b"12345678901"));
    assert!(read.check_resume(b""));

    // A reader that is past the position at which to stop does not look for another file.
    reader = ShardReader {
        segment_id: u64::MAX,
        latest_log_offset: 0,
        offset: 1,
        chunk_size: 3,
        shard_dir: shard_dir(),
    };
    assert!(reader.check_read(b"", &none));
    assert!(!reader.check_read(b"\n", &none));
    reader.offset = u64::MAX;
    assert!(!reader.check_read(b"\n", &two));
    assert!(reader.check_read(b"", &two));
}

#[test]
fn a_listing_stays_good_while_more_is_written() {
    let (mut disk, shard_dir, mut writer) = filled(5, 60);
    let before = disk.names();
    for i in 5..20 {
        disk.write(&mut writer, Record(text(i).into_bytes()));
    }
    let after = disk.names();
    assert!(after.len() > before.len());
    for j in 0..5 {
        let found = shard_dir.find_belonging_segment(&before, 25 * j);
        assert_eq!(found, shard_dir.find_belonging_segment(&after, 25 * j));
    }
}

#[test]
fn a_write_that_fails_leaves_the_log_as_it_was() {
    // The segment that was begun has a file, but nothing reached it.
    let (mut disk, shard_dir, mut writer) = filled(6, 60);
    assert_eq!((writer.latest_segment, writer.offset), (150, 0));
    let append = writer.write(Record(text(6).into_bytes()));
    disk.files().insert(append.path, Vec::new());
    assert_eq!(disk.latest(&shard_dir), 150);

    let (read, next) = read_from(&mut disk, &shard_dir, &writer, 75, 10);
    assert_eq!(read, (3..6).map(text).collect::<Vec<String>>());
    assert_eq!(next, 150);
    let (read, next) = read_from(&mut disk, &shard_dir, &writer, 150, 10);
    assert_eq!(read.len(), 0);
    assert_eq!(next, 150);

    // It is found when the log is opened again, and the next record goes there.
    let end = disk.end_offset(&shard_dir, 150);
    let again = start_shard_workers(shard_dir.clone(), 150, end);
    assert_eq!((again.latest_segment, again.offset), (150, 0));
    disk.write(&mut writer, Record(text(6).into_bytes()));
    let (read, next) = read_from(&mut disk, &shard_dir, &writer, 125, 10);
    assert_eq!(read, vec![text(5)]);
    assert_eq!(next, 150);
    let (read, next) = read_from(&mut disk, &shard_dir, &writer, 150, 10);
    assert_eq!(read, vec![text(6)]);
    assert_eq!(next, 175);
}

#[test]
fn any_bytes_can_be_written() {
    let (mut disk, shard_dir, mut writer) = filled(0, 4);
    let records: [&[u8]; 4] = [b"\xff\xfe", b"a\nb", b"", b"\n\n\n\n"];
    let mut all = Vec::new();
    for record in records {
        assert_eq!(writer.latest_segment as u64 + writer.offset, all.len() as u64);
        disk.write(&mut writer, Record(record.to_vec()));
        all.extend(record);
        all.push(b'\n');
    }
    let mut joined: Vec<u8> = Vec::new();
    let files = disk.files().clone();
    for (path, file) in files {
        assert_eq!(path, shard_dir.path_to_segment(joined.len() as u64));
        joined.extend(file);
    }
    assert_eq!(joined, all);
    assert_eq!(writer.latest_segment as u64 + writer.offset, all.len() as u64);
}

#[test]
fn a_reader_that_does_not_stop_looks_behind_the_end() {
    let (mut disk, shard_dir, _) = filled(2, 60);
    let mut reader = ShardReader {
        segment_id: 0,
        latest_log_offset: 51,
        offset: 0,
        chunk_size: 3,
        shard_dir: shard_dir.clone(),
    };
    let (path, start) = reader.start();
    let rest = disk.rest(&path, start);
    let mut records = Vec::new();
    match reader.read(&rest, &mut records) {
        Ok(ReadStep::Roll(next)) => assert!(!disk.files().contains_key(&next)),
        _ => panic!("no roll"),
    }
    // Where a file is begun there, it is looked into again and again.
    let end = shard_dir.path_to_segment(50);
    match reader.read(b"", &mut records) {
        Ok(ReadStep::Roll(next)) => assert_eq!(next, end),
        _ => panic!("no roll"),
    }
    assert_eq!((records.len(), reader.offset), (2, 50));
}
