//! The parts of a shard, one by one.

use std::path::PathBuf;

use shards::dir::{check_locate, parse_segment_id, MountStep, ShardDir};
use shards::line::line_end;
use shards::number::{decimal_text, parse_i64, parse_u64, zero_padded_text};
use shards::order::{greatest_name, least_name};
use shards::record::{
    assert_recordable, is_utf8, judge_decoded, judge_text, Base64Error, Record, RecordError,
    Utf8Failure,
};
use shards::request::{
    bracketed_list, put_records, record_appended, reply_with_iterator, reply_with_records,
    reply_with_shown, Step,
};

fn names(of: &[&str]) -> Vec<String> {
    of.iter().map(|s| s.to_string()).collect()
}

fn dir() -> ShardDir {
    ShardDir { mount_dir: PathBuf::from("mnt") }
}

#[test]
fn numbers_are_written_in_decimal() {
    for n in [0, 7, 10, 99, 100, 12345678, 123456789, u64::MAX] {
        assert_eq!(decimal_text(n), format!("{}", n));
        assert_eq!(zero_padded_text(n, 8), format!("{:08}", n));
        assert_eq!(zero_padded_text(n, 0), format!("{}", n));
    }
}

#[test]
fn numbers_are_read_back() {
    for n in [0, 1, 42, 99999999, 100000000, i64::MAX as u64, u64::MAX] {
        let name = zero_padded_text(n, 8);
        assert_eq!(parse_segment_id(&name), Some(n));
        assert_eq!(parse_i64(name.as_bytes()), name.parse::<i64>().ok());
    }
}

#[test]
fn texts_are_read_as_numbers_as_std_reads_them() {
    let texts = [
        "", "+", "-", "0", "-0", "+0", "00000000", "+12", "-12", "12a", " 1", "1 ", "1_0", "++1",
        "--1", "+-1", "9223372036854775807", "9223372036854775808", "-9223372036854775808",
        "-9223372036854775809", "18446744073709551615", "18446744073709551616",
        "00000000000000000000000000000001", "99999999999999999999", "\u{661}",
    ];
    for text in texts {
        assert_eq!(parse_u64(text.as_bytes()), text.parse::<u64>().ok(), "{}", text);
        assert_eq!(parse_i64(text.as_bytes()), text.parse::<i64>().ok(), "{}", text);
    }
}

#[test]
fn names_are_ordered_as_std_orders_them() {
    let lists = [
        names(&["00000000"]),
        names(&["00000025", "00000000", "00000125"]),
        names(&["99999999", "100000000"]),
        names(&["b", "a", "ab", "", "\u{e9}"]),
        names(&["same", "same"]),
    ];
    for list in &lists {
        assert_eq!(greatest_name(list), list.iter().max());
        assert_eq!(least_name(list), list.iter().min());
    }
    assert_eq!(greatest_name(&Vec::new()), None);
    assert_eq!(least_name(&Vec::new()), None);
}

#[test]
fn latest_and_oldest_go_by_name() {
    let listed = names(&["00000025", "00000000", "00000125"]);
    assert_eq!(dir().get_latest_segment(&listed), 125);
    assert_eq!(dir().get_oldest_segment(&listed), 0);
    // Names of different length are not ordered as their numbers are.
    let listed = names(&["99999999", "100000000"]);
    assert_eq!(dir().get_latest_segment(&listed), 99999999);
    assert_eq!(dir().get_oldest_segment(&listed), 100000000);
}

#[test]
fn positions_belong_to_the_segment_before_them() {
    let listed = names(&["00000125", "00000000", "00000025"]);
    assert_eq!(dir().find_belonging_segment(&listed, 0), (0, 0));
    assert_eq!(dir().find_belonging_segment(&listed, 24), (0, 24));
    assert_eq!(dir().find_belonging_segment(&listed, 25), (25, 0));
    assert_eq!(dir().find_belonging_segment(&listed, 124), (25, 99));
    assert_eq!(dir().find_belonging_segment(&listed, 5000), (125, 4875));
    let none = (0, i64::MAX as u64);
    assert_eq!(dir().find_belonging_segment(&names(&["00000025"]), 24), none);
    assert_eq!(dir().find_belonging_segment(&Vec::new(), 24), none);
    assert_eq!(dir().find_belonging_segment(&listed, u64::MAX), none);
    let listed = names(&["-5", "3"]);
    assert_eq!(dir().find_belonging_segment(&listed, u64::MAX - 2), (u64::MAX - 4, 2));
}

#[test]
fn a_lookup_needs_numbers() {
    assert!(check_locate(&names(&["00000000", "-7"]), 10));
    assert!(!check_locate(&names(&["00000000", "README"]), 10));
    assert!(!check_locate(&names(&["-1"]), i64::MAX as u64));
    assert!(check_locate(&names(&["-1"]), i64::MAX as u64 - 1));
    assert!(!check_locate(&names(&["00000002"]), i64::MAX as u64 + 2));
    assert!(check_locate(&names(&["00000002"]), i64::MAX as u64 + 3));
}

#[test]
fn segments_are_files_in_the_directory() {
    assert_eq!(dir().path_to_segment(0), PathBuf::from("mnt").join("00000000"));
    assert_eq!(dir().path_to_segment(1234), PathBuf::from("mnt").join("00001234"));
    assert_eq!(dir().path_to_segment(123456789), PathBuf::from("mnt").join("123456789"));
    assert_eq!(dir().create_first_segment(), dir().path_to_segment(0));
    assert_eq!(dir().clone().mount_dir, dir().mount_dir);
}

#[test]
fn directories_are_mounted() {
    assert_eq!(dir().assert_mount_path(true, true), MountStep::ListDir);
    assert_eq!(dir().assert_mount_path(false, false), MountStep::CreateDir);
    assert_eq!(dir().assert_mount_path(true, false), MountStep::NotADirectory);
    assert_eq!(dir().missing_segment(0), Some(dir().path_to_segment(0)));
    assert_eq!(dir().missing_segment(1), None);
}

#[test]
fn records_are_lines() {
    assert_eq!(Record(b"abc".to_vec()).serialized(), b"abc\n".to_vec());
    assert_eq!(Record(Vec::new()).serialized(), b"\n".to_vec());
    assert_eq!(Record("h\u{e9}".as_bytes().to_vec()).as_string(), "h\u{e9}");
    assert_eq!(line_end(b"a\nbc\nd", 0), 2);
    assert_eq!(line_end(b"a\nbc\nd", 2), 5);
    assert_eq!(line_end(b"a\nbc\nd", 5), 6);
}

#[test]
fn base64_text_becomes_a_record() {
    let text = base64::encode("some data".as_bytes());
    let record = Record::from_string(text.clone()).unwrap();
    assert_eq!(record, Record(text.clone().into_bytes()));
    assert_eq!(record.as_string(), text);
    assert_eq!(Record::from_string(String::new()).unwrap(), Record(Vec::new()));
}

#[test]
fn other_text_does_not() {
    let error = |text: &str| Record::from_string(text.to_string()).unwrap_err();
    assert_eq!(error("Zm9v*m9v"), RecordError::Base64(Base64Error::InvalidByte(4, b'*')));
    assert_eq!(error("Zm9v\n"), RecordError::Base64(Base64Error::InvalidLength));
    assert_eq!(error("Zm9v\nm9v"), RecordError::Base64(Base64Error::InvalidByte(4, b'\n')));
    assert_eq!(error("Zh=="), RecordError::Base64(Base64Error::InvalidLastSymbol(1, b'h')));
}

#[test]
fn bytes_are_judged() {
    assert_eq!(assert_recordable(b"Zm9v"), Ok(()));
    assert_eq!(assert_recordable(b""), Ok(()));
    assert_eq!(
        assert_recordable(b"Zm8"),
        Ok(()),
        "padding is not asked for"
    );
    assert_eq!(
        assert_recordable(b"Zm9v "),
        Err(RecordError::Base64(Base64Error::InvalidLength))
    );
    assert_eq!(
        assert_recordable(b"Zm9vZm\xff"),
        Err(RecordError::Utf8(Utf8Failure { valid_up_to: 6, error_len: Some(1) }))
    );
    // The first two bytes of a character of three.
    assert_eq!(
        assert_recordable(b"Zm9v\xe2\x82"),
        Err(RecordError::Utf8(Utf8Failure { valid_up_to: 4, error_len: None }))
    );
    assert_eq!(
        assert_recordable(b"Zm9v\xe2\x82Z"),
        Err(RecordError::Utf8(Utf8Failure { valid_up_to: 4, error_len: Some(2) }))
    );
    assert!(is_utf8("\u{20ac}".as_bytes()));
    assert!(!is_utf8(b"\xe2\x82"));
}

#[test]
fn verdicts_follow_from_decoding() {
    assert_eq!(judge_decoded(Ok(vec![1, 2])), Ok(()));
    let error = Base64Error::InvalidByte(3, 7);
    assert_eq!(judge_decoded(Err(error)), Err(RecordError::Base64(error)));
    assert_eq!(
        Record::from_decoded("xyz".to_string(), Ok(Vec::new())),
        Ok(Record(b"xyz".to_vec()))
    );
    assert_eq!(
        Record::from_decoded("xyz".to_string(), Err(error)),
        Err(RecordError::Base64(error))
    );
    assert!(matches!(
        put_records(b"xyz".to_vec(), Ok(())),
        Step::AppendRecord(Record(data)) if data == b"xyz".to_vec()
    ));
    let failure = Utf8Failure { valid_up_to: 2, error_len: Some(3) };
    assert_eq!(judge_text(Ok("xyz")), Ok("xyz"));
    assert_eq!(judge_text(Err(failure)), Err(RecordError::Utf8(failure)));
    assert!(matches!(
        put_records(b"xyz".to_vec(), Err(RecordError::Utf8(failure))),
        Step::Refuse(RecordError::Utf8(Utf8Failure { valid_up_to: 2, error_len: Some(3) }))
    ));
}

#[test]
fn an_iterator_is_named() {
    assert_eq!(reply_with_iterator(1234).0, "shard iterator: 1234");
}

#[test]
fn refusals_are_told_as_std_tells_them() {
    let inputs: [&[u8]; 8] = [
        b"\xff",
        b"a\xc0\x80",
        b"ab\xe0\x80",
        b"abc\xed\xa0\x80",
        b"\xf0\x90\x80",
        b"\xf0\x90\x80Z",
        b"\xf4\x90",
        b"\xc3",
    ];
    for input in inputs {
        let error = std::str::from_utf8(input).unwrap_err();
        let failure =
            Utf8Failure { valid_up_to: error.valid_up_to(), error_len: error.error_len() };
        assert_eq!(assert_recordable(input), Err(RecordError::Utf8(failure)));
    }
}

#[test]
fn lists_are_shown_in_brackets() {
    assert_eq!(bracketed_list(&names(&[])), "[]");
    assert_eq!(bracketed_list(&names(&["a"])), "[a]");
    assert_eq!(bracketed_list(&names(&["a", "", "c d"])), "[a, , c d]");
}

#[test]
fn replies_name_the_position_to_go_on_from() {
    assert_eq!(
        reply_with_shown(100, 7, &names(&["<x>", "<y>"])).0,
        "next shard iterator: 107, records: [<x>, <y>]"
    );
    assert_eq!(
        reply_with_shown(100, 7, &names(&[])).0,
        "no more records remaining. offset was: 7"
    );
    assert_eq!(
        reply_with_records(100, 7, &vec![Record(b"x".to_vec()), Record(b"y".to_vec())]).0,
        "next shard iterator: 107, records: [\"x\", \"y\"]"
    );
}

#[test]
fn what_came_of_an_append_is_told() {
    match record_appended::<String>(Ok(())) {
        Ok(Step::Reply(reply)) => assert_eq!(reply.0, "data was written!!!"),
        _ => panic!("no reply"),
    }
    match record_appended(Err("disk full".to_string())) {
        Err(error) => assert_eq!(error, "disk full"),
        _ => panic!("no error"),
    }
}
