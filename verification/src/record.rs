//! Records, and which bytes may become one.

use vstd::pervasive::unreached;
use vstd::prelude::*;
use vstd::slice::*;
use vstd::string::*;
use vstd::utf8::*;

use crate::line::{law_line_text, line_text};

verus! {

/// The byte that ends a record in a segment file.
pub const NEWLINE: u8 = 10;

/// One entry of the log: a line of text, without the newline that ends it in a segment file.
#[derive(Debug, Clone, PartialEq)]
pub struct Record(pub Vec<u8>);

impl View for Record {
    type V = Seq<u8>;

    open spec fn view(&self) -> Seq<u8> {
        self.0@
    }
}

/// Why text is not Base64.
#[derive(Debug, Clone, Copy, PartialEq, Eq, Structural)]
pub enum Base64Error {
    /// The byte at this index does not belong there.
    InvalidByte(usize, u8),
    /// No Base64 text has this length.
    InvalidLength,
    /// The last symbol, at this index, stands for bits that no byte takes up.
    InvalidLastSymbol(usize, u8),
}

/// Where and how bytes are not UTF-8.
#[derive(Debug, Clone, Copy, PartialEq, Eq, Structural)]
pub struct Utf8Failure {
    /// This many of them, and no more, form UTF-8 text.
    pub valid_up_to: usize,
    /// How many of those that follow belong together and are wrong, or None if the bytes end
    /// within a character.
    pub error_len: Option<usize>,
}

/// Why bytes cannot become a record.
#[derive(Debug, Clone, Copy, PartialEq, Eq, Structural)]
pub enum RecordError {
    /// They are not UTF-8.
    Utf8(Utf8Failure),
    /// They are text, but not Base64.
    Base64(Base64Error),
}

/// What decoding Base64 in the standard alphabet gives for `input`.
pub uninterp spec fn base64_decoded(input: Seq<u8>) -> Result<Seq<u8>, Base64Error>;

/// A decoder's outcome as a mathematical value.
pub open spec fn decoded_view(decoded: Result<Vec<u8>, Base64Error>) -> Result<
    Seq<u8>,
    Base64Error,
> {
    match decoded {
        Ok(bytes) => Ok(bytes@),
        Err(error) => Err(error),
    }
}

/// Whether `b` is in the standard Base64 alphabet or is the padding sign.
pub open spec fn is_base64_byte(b: u8) -> bool {
    ||| 'A' as u8 <= b <= 'Z' as u8
    ||| 'a' as u8 <= b <= 'z' as u8
    ||| '0' as u8 <= b <= '9' as u8
    ||| b == '+' as u8
    ||| b == '/' as u8
    ||| b == '=' as u8
}

/// Calls `base64::decode`. Its outcome depends on the input alone and is named
/// `base64_decoded`. It succeeds only where each byte of the input is looked up in the standard
/// alphabet's table or is a `=`. It sizes a buffer by four times the input's length, which must
/// not overflow.
#[verifier::external_body]
fn decode_base64(input: &[u8]) -> (decoded: Result<Vec<u8>, Base64Error>)
    requires
        input@.len() <= usize::MAX / 4,
    ensures
        decoded_view(decoded) == base64_decoded(input@),
        decoded is Ok ==> forall|i: int|
            0 <= i < input@.len() ==> is_base64_byte(#[trigger] input@[i]),
{
    match base64::decode(input) {
        Ok(bytes) => Ok(bytes),
        Err(base64::DecodeError::InvalidByte(at, byte)) => Err(Base64Error::InvalidByte(at, byte)),
        Err(base64::DecodeError::InvalidLength) => Err(Base64Error::InvalidLength),
        Err(base64::DecodeError::InvalidLastSymbol(at, byte)) => Err(
            Base64Error::InvalidLastSymbol(at, byte),
        ),
    }
}

/// The greatest number of leading bytes, `n` at most, that form UTF-8 text.
pub open spec fn valid_prefix_len(bytes: Seq<u8>, n: nat) -> nat
    decreases n,
{
    if n == 0 || valid_utf8(bytes.take(n as int)) {
        n
    } else {
        valid_prefix_len(bytes, (n - 1) as nat)
    }
}

/// Whether the first `n` bytes form UTF-8 text and no more of them do.
pub open spec fn valid_exactly_up_to(bytes: Seq<u8>, n: int) -> bool {
    &&& 0 <= n < bytes.len()
    &&& valid_utf8(bytes.take(n))
    &&& forall|m: int| n < m <= bytes.len() ==> !valid_utf8(#[trigger] bytes.take(m))
}

proof fn lemma_valid_prefix_len(bytes: Seq<u8>, n: int, m: nat)
    requires
        valid_exactly_up_to(bytes, n),
        n <= m <= bytes.len(),
    ensures
        valid_prefix_len(bytes, m) == n,
    decreases m,
{
    if m > n {
        lemma_valid_prefix_len(bytes, n, (m - 1) as nat);
    }
}

/// What `Utf8Error::error_len` gives for bytes that are not UTF-8.
pub uninterp spec fn utf8_error_len(bytes: Seq<u8>) -> Option<usize>;

/// Whether there are as many bytes behind the first `n` as `error_len` speaks of: that many, or one
/// to three that end within a character.
pub open spec fn fits_behind(bytes: Seq<u8>, n: int, error_len: Option<usize>) -> bool {
    match error_len {
        Some(len) => 0 < len <= bytes.len() - n,
        None => 0 < bytes.len() - n <= 3,
    }
}

/// Calls `std::str::from_utf8`. Bytes that are UTF-8 come back as the text that they encode. For
/// others the error's `valid_up_to` is the greatest index up to which they are UTF-8. Its
/// `error_len` depends on the bytes alone and is named `utf8_error_len`: it is the length of the
/// wrong bytes that begin at that index, or None if one to three bytes are left there, with which
/// the input ends too early. How many wrong bytes are counted as one sequence is not stated.
#[verifier::external_body]
fn utf8_text(bytes: &[u8]) -> (text: Result<&str, Utf8Failure>)
    ensures
        text matches Ok(s) ==> encode_utf8(s@) == bytes@,
        text matches Err(failure) ==> valid_exactly_up_to(bytes@, failure.valid_up_to as int),
        text matches Err(failure) ==> failure.error_len == utf8_error_len(bytes@),
        text matches Err(failure) ==> fits_behind(
            bytes@,
            failure.valid_up_to as int,
            failure.error_len,
        ),
{
    match std::str::from_utf8(bytes) {
        Ok(text) => Ok(text),
        Err(error) => Err(
            Utf8Failure { valid_up_to: error.valid_up_to(), error_len: error.error_len() },
        ),
    }
}

/// Whether `bytes` are UTF-8 text.
pub fn is_utf8(bytes: &[u8]) -> (valid: bool)
    ensures
        valid == valid_utf8(bytes@),
{
    match utf8_text(bytes) {
        Ok(text) => {
            proof {
                encode_utf8_valid_utf8(text@);
            }
            true
        },
        Err(_) => {
            assert(bytes@.take(bytes@.len() as int) =~= bytes@);
            false
        },
    }
}

/// Whether `bytes` can be one line of a segment file: text without a newline.
pub open spec fn is_line_text(bytes: Seq<u8>) -> bool {
    &&& valid_utf8(bytes)
    &&& forall|i: int| 0 <= i < bytes.len() ==> #[trigger] bytes[i] != NEWLINE
}

/// What follows for `bytes` from what decoding them gave: they may become a record if they are
/// UTF-8 text and Base64.
pub open spec fn record_verdict(
    bytes: Seq<u8>,
    decoded: Result<Seq<u8>, Base64Error>,
) -> Result<(), RecordError> {
    if !valid_utf8(bytes) {
        Err(
            RecordError::Utf8(
                Utf8Failure {
                    valid_up_to: valid_prefix_len(bytes, bytes.len()) as usize,
                    error_len: utf8_error_len(bytes),
                },
            ),
        )
    } else {
        base64_verdict(decoded)
    }
}

/// What follows for text from what decoding it gave.
pub open spec fn base64_verdict(decoded: Result<Seq<u8>, Base64Error>) -> Result<(), RecordError> {
    match decoded {
        Ok(_) => Ok(()),
        Err(error) => Err(RecordError::Base64(error)),
    }
}

/// What cannot be text is valid up to an index, and up to no later one.
pub proof fn law_valid_prefix(bytes: Seq<u8>)
    requires
        !valid_utf8(bytes),
    ensures
        ({
            let n = valid_prefix_len(bytes, bytes.len()) as int;
            &&& n < bytes.len()
            &&& valid_utf8(bytes.take(n))
            &&& forall|m: int| n < m <= bytes.len() ==> !valid_utf8(#[trigger] bytes.take(m))
        }),
{
    lemma_valid_prefix_bound(bytes, bytes.len());
    assert(bytes.take(bytes.len() as int) =~= bytes);
}

proof fn lemma_valid_prefix_bound(bytes: Seq<u8>, n: nat)
    requires
        n <= bytes.len(),
    ensures
        ({
            let k = valid_prefix_len(bytes, n) as int;
            &&& k <= n
            &&& valid_utf8(bytes.take(k))
            &&& forall|m: int| k < m <= n ==> !valid_utf8(#[trigger] bytes.take(m))
        }),
    decreases n,
{
    if n == 0 {
        assert(bytes.take(0) =~= Seq::<u8>::empty());
        assert(valid_utf8(bytes.take(0)));
    } else if !valid_utf8(bytes.take(n as int)) {
        lemma_valid_prefix_bound(bytes, (n - 1) as nat);
    }
}

/// Bytes become a record if and only if they are UTF-8 and decode as Base64, whatever they decode
/// to and however many they are. What is not UTF-8 is refused for that, by the index up to which it
/// is; what does not decode is refused with the decoder's error, and nothing else is.
pub proof fn law_recordable(bytes: Seq<u8>, decoded: Result<Seq<u8>, Base64Error>)
    requires
        bytes.len() <= usize::MAX,
    ensures
        record_verdict(bytes, decoded) is Ok <==> valid_utf8(bytes) && decoded is Ok,
        valid_utf8(bytes) ==> (decoded matches Err(error) ==> record_verdict(bytes, decoded)
            == Err::<(), RecordError>(RecordError::Base64(error))),
        record_verdict(bytes, decoded) matches Err(RecordError::Base64(error)) ==> valid_utf8(bytes)
            && decoded == Err::<Seq<u8>, Base64Error>(error),
        record_verdict(bytes, decoded) matches Err(RecordError::Utf8(failure)) ==> {
            &&& !valid_utf8(bytes)
            &&& valid_exactly_up_to(bytes, failure.valid_up_to as int)
            &&& failure.error_len == utf8_error_len(bytes)
        },
        base64_verdict(decoded) is Ok <==> decoded is Ok,
        decoded matches Err(error) ==> base64_verdict(decoded) == Err::<(), RecordError>(
            RecordError::Base64(error),
        ),
{
    if !valid_utf8(bytes) {
        law_valid_prefix(bytes);
    }
}

/// Judges bytes by what reading them as text gave.
pub fn judge_text(text: Result<&str, Utf8Failure>) -> (verdict: Result<&str, RecordError>)
    ensures
        verdict == (match text {
            Ok(text) => Ok::<&str, RecordError>(text),
            Err(failure) => Err::<&str, RecordError>(RecordError::Utf8(failure)),
        }),
{
    match text {
        Ok(text) => Ok(text),
        Err(failure) => Err(RecordError::Utf8(failure)),
    }
}

/// Judges text by what decoding it gave.
pub fn judge_decoded(decoded: Result<Vec<u8>, Base64Error>) -> (verdict: Result<(), RecordError>)
    ensures
        verdict is Ok <==> decoded is Ok,
        decoded matches Err(error) ==> verdict == Err::<(), RecordError>(
            RecordError::Base64(error),
        ),
        verdict == base64_verdict(decoded_view(decoded)),
{
    match decoded {
        Ok(_) => Ok(()),
        Err(error) => Err(RecordError::Base64(error)),
    }
}

/// Whether `data` may become a record: it has to be UTF-8 text and Base64. What passes is one
/// line of text.
pub fn assert_recordable(data: &[u8]) -> (verdict: Result<(), RecordError>)
    requires
        valid_utf8(data@) ==> data@.len() <= usize::MAX / 4,
    ensures
        verdict == record_verdict(data@, base64_decoded(data@)),
        verdict is Ok <==> valid_utf8(data@) && base64_decoded(data@) is Ok,
        valid_utf8(data@) ==> (base64_decoded(data@) matches Err(error) ==> verdict == Err::<
            (),
            RecordError,
        >(RecordError::Base64(error))),
        !valid_utf8(data@) ==> (verdict matches Err(RecordError::Utf8(failure))
            && valid_exactly_up_to(data@, failure.valid_up_to as int)),
        verdict is Ok ==> is_line_text(data@),
        verdict matches Err(RecordError::Utf8(failure)) ==> fits_behind(
            data@,
            failure.valid_up_to as int,
            failure.error_len,
        ),
{
    let text = utf8_text(data);
    proof {
        match text {
            Ok(s) => {
                encode_utf8_valid_utf8(s@);
            },
            Err(failure) => {
                assert(data@.take(data@.len() as int) =~= data@);
                lemma_valid_prefix_len(data@, failure.valid_up_to as int, data@.len());
            },
        }
    }
    match judge_text(text) {
        Ok(text) => judge_decoded(decode_base64(text.as_bytes())),
        Err(error) => Err(error),
    }
}

impl Record {
    /// The record as it stands in a segment file: with a newline at its end.
    pub fn serialized(self) -> (line: Vec<u8>)
        ensures
            line_text(line@) == self@,
            line@.len() == self@.len() + 1,
            line@ == self@.push(NEWLINE),
    {
        proof {
            law_line_text(self@, 0);
        }
        let mut line = self.0;
        line.push(NEWLINE);
        line
    }

    /// The record as text.
    pub fn as_string(&self) -> (text: String)
        requires
            valid_utf8(self@),
        ensures
            encode_utf8(text@) == self@,
            text@ == decode_utf8(self@),
    {
        match utf8_text(self.0.as_slice()) {
            Ok(text) => {
                proof {
                    encode_utf8_decode_utf8(text@);
                }
                text.to_owned()
            },
            Err(_) => {
                assert(self@.take(self@.len() as int) =~= self@);
                unreached()
            },
        }
    }

    /// The record that holds the text `s`, if that is Base64.
    pub fn from_string(s: String) -> (record: Result<Record, RecordError>)
        requires
            encode_utf8(s@).len() <= usize::MAX / 4,
        ensures
            match base64_verdict(base64_decoded(encode_utf8(s@))) {
                Ok(_) => record matches Ok(r) && r@ == encode_utf8(s@),
                Err(error) => record matches Err(e) && e == error,
            },
            match base64_decoded(encode_utf8(s@)) {
                Ok(_) => record matches Ok(r) && r@ == encode_utf8(s@),
                Err(error) => record matches Err(RecordError::Base64(e)) && e == error,
            },
            record matches Ok(r) ==> is_line_text(r@),
    {
        proof {
            encode_utf8_valid_utf8(s@);
        }
        let decoded = decode_base64(s.as_str().as_bytes());
        Record::from_decoded(s, decoded)
    }

    /// The record that holds the text `s`, if decoding it, which gave `decoded`, succeeded.
    pub fn from_decoded(s: String, decoded: Result<Vec<u8>, Base64Error>) -> (record: Result<
        Record,
        RecordError,
    >)
        ensures
            match base64_verdict(decoded_view(decoded)) {
                Ok(_) => record matches Ok(r) && r@ == encode_utf8(s@),
                Err(error) => record matches Err(e) && e == error,
            },
            match decoded {
                Ok(_) => record matches Ok(r) && r@ == encode_utf8(s@),
                Err(error) => record matches Err(RecordError::Base64(e)) && e == error,
            },
    {
        match judge_decoded(decoded) {
            Ok(_) => Ok(Record(slice_to_vec(s.as_str().as_bytes()))),
            Err(error) => Err(error),
        }
    }
}

} // verus!
