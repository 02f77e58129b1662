//! The directory of a shard: how its segment files are named, and which of them holds what.

use std::path::PathBuf;
use vstd::arithmetic::power::{lemma_pow1, pow};
use vstd::pervasive::unreached;
use vstd::prelude::*;
use vstd::string::*;
use vstd::utf8::*;

use crate::number::{
    decimal, digit, is_numeral, law_number_read_back, law_one_numeral, law_padding,
    lemma_digit_bytes, lemma_digits_only, number_i64, number_u64, parse_i64, parse_u64, zero_padded,
    zero_padded_text, NAME_WIDTH,
};
use crate::order::{
    greatest_name, greatest_text, law_greatest_text, law_least_text, least_name, least_text,
    lemma_bytes_le_at, lemma_bytes_le_reflexive, text_le, texts,
};

verus! {

/// The position in the log of a segment's first byte. It is the segment's name.
pub type SegmentId = u64;

/// A position inside a segment, or behind its end.
pub type ShardOffset = u64;

/// `std::path::PathBuf`, whose value is only carried along.
#[verifier::external_type_specification]
#[verifier::external_body]
pub struct ExPathBuf(std::path::PathBuf);

/// `PathBuf::clone` duplicates the path.
pub assume_specification[ <PathBuf as Clone>::clone ](path: &PathBuf) -> (copy: PathBuf)
    ensures
        copy == *path,
;

/// The path that `Path::join` makes of a directory and a name in it.
pub uninterp spec fn joined_path(dir: PathBuf, name: Seq<char>) -> PathBuf;

/// Calls `Path::join`. What it returns depends on its two arguments alone and is named
/// `joined_path`.
#[verifier::external_body]
fn join_path(dir: &PathBuf, name: &str) -> (path: PathBuf)
    ensures
        path == joined_path(*dir, name@),
{
    dir.join(name)
}

/// The directory that holds the segment files of a shard.
#[derive(Debug)]
pub struct ShardDir {
    pub mount_dir: PathBuf,
}

impl Clone for ShardDir {
    fn clone(&self) -> (copy: Self)
        ensures
            copy == *self,
    {
        ShardDir { mount_dir: self.mount_dir.clone() }
    }
}

/// The name of the file that holds the segment `id`.
pub open spec fn segment_name(id: int) -> Seq<char> {
    zero_padded(id as nat, NAME_WIDTH as nat)
}

/// The path of the file that holds the segment `id`.
pub open spec fn segment_path(dir: ShardDir, id: int) -> PathBuf {
    joined_path(dir.mount_dir, segment_name(id))
}

/// Whether `path` is that of a file in the directory whose name reads as `id`: the number's
/// numeral, with zeros before it that make it eight characters long if it is not.
pub open spec fn names_segment(path: PathBuf, mount_dir: PathBuf, id: SegmentId) -> bool {
    exists|name: Seq<char>, numeral: Seq<char>|
        {
            &&& path == #[trigger] joined_path(mount_dir, name)
            &&& number_u64(encode_utf8(name)) == Some(id)
            &&& #[trigger] is_numeral(numeral, id as int)
            &&& name.len() == if numeral.len() < 8 {
                8
            } else {
                numeral.len()
            }
            &&& name.skip(name.len() - numeral.len()) == numeral
        }
}

/// The segment that the last of `names` stands for.
pub open spec fn latest_listed(names: Seq<Seq<char>>) -> Option<SegmentId> {
    if names.len() == 0 {
        None
    } else {
        number_u64(encode_utf8(greatest_text(names)))
    }
}

/// The segment that the first of `names` stands for.
pub open spec fn oldest_listed(names: Seq<Seq<char>>) -> Option<SegmentId> {
    if names.len() == 0 {
        None
    } else {
        number_u64(encode_utf8(least_text(names)))
    }
}

/// The number that each of `names` stands for.
pub open spec fn listed_numbers(names: Seq<Seq<char>>) -> Seq<int> {
    names.map_values(|name: Seq<char>| number_i64(encode_utf8(name)).unwrap() as int)
}

/// `n` as the `i64` with the same bits.
pub open spec fn as_signed(n: u64) -> int {
    if n <= i64::MAX {
        n as int
    } else {
        n - 0x1_0000_0000_0000_0000
    }
}

/// `n` as the `u64` with the same bits.
pub open spec fn as_unsigned(n: int) -> int {
    if n >= 0 {
        n
    } else {
        n + 0x1_0000_0000_0000_0000
    }
}

/// The greatest of `numbers` that is not over `limit`.
pub open spec fn floor_of(numbers: Seq<int>, limit: int) -> Option<int>
    decreases numbers.len(),
{
    if numbers.len() == 0 {
        None
    } else {
        let n = numbers.last();
        let rest = floor_of(numbers.drop_last(), limit);
        if n > limit {
            rest
        } else {
            match rest {
                Some(best) if best > n => Some(best),
                _ => Some(n),
            }
        }
    }
}

/// Whether `position` can be looked up among `names`: each name is a number, and the distance
/// from each to the position can be computed.
pub open spec fn can_locate(names: Seq<Seq<char>>, position: u64) -> bool {
    forall|i: int|
        0 <= i < names.len() ==> {
            &&& number_i64(#[trigger] encode_utf8(names[i])) is Some
            &&& i64::MIN <= as_signed(position) - number_i64(encode_utf8(names[i])).unwrap()
                <= i64::MAX
        }
}

/// The segment that `position` belongs to, and where in it: the segment with the greatest number
/// that is not over the position. Where there is none, it is the segment 0, at
/// a place that no file reaches.
pub open spec fn located(names: Seq<Seq<char>>, position: u64) -> (int, int) {
    match floor_of(listed_numbers(names), as_signed(position)) {
        Some(n) => (as_unsigned(n), as_signed(position) - n),
        None => (0, i64::MAX as int),
    }
}

/// What has to be done about the directory before its entries can be listed.
#[derive(Debug, Clone, Copy, PartialEq, Eq, Structural)]
pub enum MountStep {
    /// Give up: what is there is not a directory.
    NotADirectory,
    /// Create the directory, then list it.
    CreateDir,
    /// List the directory.
    ListDir,
}

/// Reads a file name as a segment's number.
pub fn parse_segment_id(name: &String) -> (id: Option<SegmentId>)
    ensures
        id == number_u64(encode_utf8(name@)),
{
    parse_u64(name.as_str().as_bytes())
}

/// Casts `n` to the `i64` with the same bits.
fn to_signed(n: u64) -> (signed: i64)
    ensures
        signed == as_signed(n),
{
    if n <= 0x7fff_ffff_ffff_ffff {
        n as i64
    } else {
        -1 - ((u64::MAX - n) as i64)
    }
}

/// Casts `n` to the `u64` with the same bits.
fn to_unsigned(n: i64) -> (unsigned: u64)
    ensures
        unsigned == as_unsigned(n as int),
{
    if n >= 0 {
        n as u64
    } else {
        u64::MAX - ((-1 - n) as u64)
    }
}

/// Whether `position` can be looked up among `names`.
pub fn check_locate(names: &Vec<String>, position: u64) -> (fine: bool)
    ensures
        fine == can_locate(texts(names@), position),
{
    let mut i: usize = 0;
    while i < names.len()
        invariant
            i <= names@.len(),
            forall|j: int|
                0 <= j < i ==> {
                    &&& number_i64(#[trigger] encode_utf8(texts(names@)[j])) is Some
                    &&& i64::MIN <= as_signed(position) - number_i64(
                        encode_utf8(texts(names@)[j]),
                    ).unwrap() <= i64::MAX
                },
        decreases names@.len() - i,
    {
        let ghost bytes = encode_utf8(texts(names@)[i as int]);
        match parse_i64(names[i].as_str().as_bytes()) {
            Some(n) => {
                if to_signed(position).checked_sub(n).is_none() {
                    assert(number_i64(bytes) == Some(n));
                    return false;
                }
            },
            None => {
                assert(number_i64(bytes) is None);
                return false;
            },
        }
        i = i + 1;
    }
    true
}

impl ShardDir {
    /// The path of the file that holds the segment `shard_id`.
    pub fn path_to_segment(&self, shard_id: SegmentId) -> (path: PathBuf)
        ensures
            path == segment_path(*self, shard_id as int),
            names_segment(path, self.mount_dir, shard_id),
    {
        proof {
            law_segment_path(*self, shard_id);
        }
        let name = zero_padded_text(shard_id, NAME_WIDTH);
        join_path(&self.mount_dir, name.as_str())
    }

    /// The segment that is written to, of those that `names` lists: the one whose name is last.
    pub fn get_latest_segment(&self, names: &Vec<String>) -> (id: SegmentId)
        requires
            latest_listed(texts(names@)) is Some,
        ensures
            exists|k: int|
                {
                    &&& 0 <= k < names@.len()
                    &&& number_u64(#[trigger] encode_utf8(texts(names@)[k])) == Some(id)
                    &&& forall|i: int|
                        0 <= i < names@.len() ==> #[trigger] text_le(
                            texts(names@)[i],
                            texts(names@)[k],
                        )
                },
            Some(id) == latest_listed(texts(names@)),
    {
        proof {
            law_ends_listed(texts(names@));
        }
        match greatest_name(names) {
            Some(name) => match parse_segment_id(name) {
                Some(id) => id,
                None => unreached(),
            },
            None => unreached(),
        }
    }

    /// The segment that the log begins with, of those that `names` lists: the one whose name is
    /// first.
    pub fn get_oldest_segment(&self, names: &Vec<String>) -> (id: SegmentId)
        requires
            oldest_listed(texts(names@)) is Some,
        ensures
            exists|k: int|
                {
                    &&& 0 <= k < names@.len()
                    &&& number_u64(#[trigger] encode_utf8(texts(names@)[k])) == Some(id)
                    &&& forall|i: int|
                        0 <= i < names@.len() ==> #[trigger] text_le(
                            texts(names@)[k],
                            texts(names@)[i],
                        )
                },
            Some(id) == oldest_listed(texts(names@)),
    {
        proof {
            law_ends_listed(texts(names@));
        }
        match least_name(names) {
            Some(name) => match parse_segment_id(name) {
                Some(id) => id,
                None => unreached(),
            },
            None => unreached(),
        }
    }

    /// The segment, of those that `names` lists, that `position` belongs to, and where in it.
    pub fn find_belonging_segment(&self, names: &Vec<String>, position: u64) -> (found: (
        SegmentId,
        ShardOffset,
    ))
        requires
            can_locate(texts(names@), position),
        ensures
            (found.0 as int, found.1 as int) == located(texts(names@), position),
    {
        let target = to_signed(position);
        let mut candidate_shard_id: u64 = 0;
        let mut candidate_shard_id_offset: i64 = i64::MAX;
        let ghost all = listed_numbers(texts(names@));
        let mut i: usize = 0;
        while i < names.len()
            invariant
                i <= names@.len(),
                all == listed_numbers(texts(names@)),
                can_locate(texts(names@), position),
                target == as_signed(position),
                0 <= candidate_shard_id_offset,
                match floor_of(all.take(i as int), target as int) {
                    Some(n) => candidate_shard_id == as_unsigned(n) && candidate_shard_id_offset
                        == target - n,
                    None => candidate_shard_id == 0 && candidate_shard_id_offset == i64::MAX,
                },
            decreases names@.len() - i,
        {
            assert(number_i64(encode_utf8(texts(names@)[i as int])) is Some);
            match parse_i64(names[i].as_str().as_bytes()) {
                Some(n) => {
                    let ghost next = all.take(i + 1);
                    assert(next.drop_last() =~= all.take(i as int));
                    assert(next.last() == n);
                    let diff: i64 = target - n;
                    if diff >= 0 && diff <= candidate_shard_id_offset {
                        candidate_shard_id = to_unsigned(n);
                        candidate_shard_id_offset = diff;
                    }
                },
                None => unreached(),
            }
            i = i + 1;
        }
        assert(all.take(i as int) =~= all);
        (candidate_shard_id, candidate_shard_id_offset as u64)
    }

    /// The path of the file that the log of a new directory begins with. It is to be created.
    pub fn create_first_segment(&self) -> (path: PathBuf)
        ensures
            path == segment_path(*self, 0),
            names_segment(path, self.mount_dir, 0),
    {
        self.path_to_segment(0)
    }

    /// What has to be done first, given whether something is at the directory's path and whether
    /// it is a directory.
    pub fn assert_mount_path(&self, exists: bool, is_dir: bool) -> (step: MountStep)
        ensures
            step == (if exists && !is_dir {
                MountStep::NotADirectory
            } else if !exists {
                MountStep::CreateDir
            } else {
                MountStep::ListDir
            }),
            step == MountStep::NotADirectory <==> exists && !is_dir,
            step == MountStep::CreateDir <==> !exists,
            step == MountStep::ListDir <==> exists && is_dir,
    {
        if exists && !is_dir {
            return MountStep::NotADirectory;
        }
        if !exists {
            return MountStep::CreateDir;
        }
        MountStep::ListDir
    }

    /// The file that has to be created, given how many entries the directory has: the first
    /// segment's, if it has none.
    pub fn missing_segment(&self, entries: usize) -> (path: Option<PathBuf>)
        ensures
            path == (if entries == 0 {
                Some(segment_path(*self, 0))
            } else {
                None
            }),
            path is Some <==> entries == 0,
            path matches Some(p) ==> names_segment(p, self.mount_dir, 0),
    {
        match entries {
            0 => Some(self.create_first_segment()),
            _ => None,
        }
    }
}

/// The path of a segment leads to a file in its directory, under a name that reads as the segment's
/// own number, and that is the name under which the file is listed.
pub proof fn law_segment_path(dir: ShardDir, id: SegmentId)
    ensures
        names_segment(segment_path(dir, id as int), dir.mount_dir, id),
        segment_path(dir, id as int) == joined_path(dir.mount_dir, segment_names(seq![id])[0]),
        number_u64(encode_utf8(segment_names(seq![id])[0])) == Some(id),
{
    let name = segment_name(id as int);
    let numeral = decimal(id as nat);
    law_number_read_back(id, NAME_WIDTH as nat);
    law_one_numeral(id, numeral);
    law_padding(id, NAME_WIDTH as nat, numeral);
    assert(segment_path(dir, id as int) == joined_path(dir.mount_dir, name));
    assert(is_numeral(numeral, id as int));
}

/// A listing names each file after its own segment, in the order of the files.
pub proof fn law_segment_names(ids: Seq<SegmentId>)
    ensures
        segment_names(ids).len() == ids.len(),
        forall|i: int|
            0 <= i < ids.len() ==> number_u64(
                #[trigger] encode_utf8(segment_names(ids)[i]),
            ) == Some(ids[i]),
{
    assert forall|i: int| 0 <= i < ids.len() implies number_u64(
        #[trigger] encode_utf8(segment_names(ids)[i]),
    ) == Some(ids[i]) by {
        law_number_read_back(ids[i], NAME_WIDTH as nat);
    }
}

/// The latest segment is what the name reads as that no other name stands behind, and the oldest
/// what the name reads as that no other stands before, whatever the names are. Without names there
/// is neither.
pub proof fn law_ends_listed(names: Seq<Seq<char>>)
    ensures
        names.len() == 0 ==> latest_listed(names) is None && oldest_listed(names) is None,
        names.len() > 0 ==> (exists|k: int|
            0 <= k < names.len() && latest_listed(names) == number_u64(
                #[trigger] encode_utf8(names[k]),
            ) && forall|i: int| 0 <= i < names.len() ==> #[trigger] text_le(names[i], names[k])),
        names.len() > 0 ==> (exists|k: int|
            0 <= k < names.len() && oldest_listed(names) == number_u64(
                #[trigger] encode_utf8(names[k]),
            ) && forall|i: int| 0 <= i < names.len() ==> #[trigger] text_le(names[k], names[i])),
{
    if names.len() > 0 {
        law_greatest_text(names);
        law_least_text(names);
        let g = choose|g: int| 0 <= g < names.len() && names[g] == greatest_text(names);
        let l = choose|l: int| 0 <= l < names.len() && names[l] == least_text(names);
        assert(latest_listed(names) == number_u64(encode_utf8(names[g])));
        assert(oldest_listed(names) == number_u64(encode_utf8(names[l])));
    }
}

/// A number and its cast have the same bits: they are in the range of their types and differ by
/// nothing or by all values that 64 bits have.
pub proof fn law_casts(n: u64, signed: i64)
    ensures
        i64::MIN <= as_signed(n) <= i64::MAX,
        as_signed(n) == n || as_signed(n) == n - u64::MAX - 1,
        0 <= as_unsigned(signed as int) <= u64::MAX,
        as_unsigned(signed as int) == signed || as_unsigned(signed as int) == signed + u64::MAX + 1,
        as_signed(as_unsigned(signed as int) as u64) == signed,
        as_unsigned(as_signed(n)) == n,
{
}

/// A listing can be searched if each of its names can be on its own: if it is a number, and the
/// position's distance from it is one that an `i64` holds.
pub proof fn law_can_locate(a: Seq<Seq<char>>, b: Seq<Seq<char>>, name: Seq<char>, position: u64)
    ensures
        can_locate(Seq::empty(), position),
        can_locate(a + b, position) <==> can_locate(a, position) && can_locate(b, position),
        can_locate(seq![name], position) <==> (number_i64(encode_utf8(name)) matches Some(n)
            && i64::MIN <= as_signed(position) - n <= i64::MAX),
{
    let all = a + b;
    if can_locate(all, position) {
        assert forall|i: int| 0 <= i < a.len() implies {
            &&& number_i64(#[trigger] encode_utf8(a[i])) is Some
            &&& i64::MIN <= as_signed(position) - number_i64(encode_utf8(a[i])).unwrap() <= i64::MAX
        } by {
            assert(encode_utf8(all[i]) == encode_utf8(a[i]));
        }
        assert forall|i: int| 0 <= i < b.len() implies {
            &&& number_i64(#[trigger] encode_utf8(b[i])) is Some
            &&& i64::MIN <= as_signed(position) - number_i64(encode_utf8(b[i])).unwrap() <= i64::MAX
        } by {
            assert(encode_utf8(all[a.len() + i]) == encode_utf8(b[i]));
        }
    }
    if can_locate(a, position) && can_locate(b, position) {
        assert forall|i: int| 0 <= i < all.len() implies {
            &&& number_i64(#[trigger] encode_utf8(all[i])) is Some
            &&& i64::MIN <= as_signed(position) - number_i64(encode_utf8(all[i])).unwrap()
                <= i64::MAX
        } by {
            if i < a.len() {
                assert(encode_utf8(all[i]) == encode_utf8(a[i]));
            } else {
                assert(encode_utf8(all[i]) == encode_utf8(b[i - a.len()]));
            }
        }
    }
    let one = seq![name];
    assert(encode_utf8(one[0]) == encode_utf8(name));
}

/// Any position is found at the greatest number of the listing that is not over it, at its distance
/// from that. If all numbers are over it, the segment 0 comes back, with an offset that no file
/// reaches.
pub proof fn law_located_anywhere(names: Seq<Seq<char>>, position: u64)
    requires
        can_locate(names, position),
    ensures
        ({
            let p = as_signed(position);
            let (id, offset) = located(names, position);
            ||| exists|k: int|
                {
                    &&& 0 <= k < names.len()
                    &&& number_i64(#[trigger] encode_utf8(names[k])) matches Some(n) && {
                        &&& n <= p
                        &&& id == as_unsigned(n as int)
                        &&& offset == p - n
                        &&& forall|i: int|
                            0 <= i < names.len() ==> (number_i64(
                                #[trigger] encode_utf8(names[i]),
                            ) matches Some(other) && (other <= p ==> other <= n))
                    }
                }
            ||| {
                &&& id == 0
                &&& offset == i64::MAX
                &&& forall|i: int|
                    0 <= i < names.len() ==> (number_i64(
                        #[trigger] encode_utf8(names[i]),
                    ) matches Some(other) && other > p)
            }
        }),
{
    let p = as_signed(position);
    let numbers = listed_numbers(names);
    lemma_floor_of(numbers, p);
    assert forall|i: int| 0 <= i < names.len() implies number_i64(
        #[trigger] encode_utf8(names[i]),
    ) == Some(numbers[i] as i64) && numbers[i] == numbers[i] as i64 by {}
    match floor_of(numbers, p) {
        Some(n) => {
            let k = choose|k: int| 0 <= k < numbers.len() && numbers[k] == n;
            assert(number_i64(encode_utf8(names[k])) == Some(n as i64));
            assert forall|i: int| 0 <= i < names.len() implies (number_i64(
                #[trigger] encode_utf8(names[i]),
            ) matches Some(other) && (other <= p ==> other <= n)) by {
                assert(numbers[i] <= p ==> numbers[i] <= n);
            }
        },
        None => {
            assert forall|i: int| 0 <= i < names.len() implies (number_i64(
                #[trigger] encode_utf8(names[i]),
            ) matches Some(other) && other > p) by {
                assert(numbers[i] > p);
            }
        },
    }
}

/// Different segments have different names.
pub proof fn law_segment_names_differ(a: SegmentId, b: SegmentId)
    requires
        a != b,
    ensures
        segment_name(a as int) != segment_name(b as int),
{
    law_number_read_back(a, NAME_WIDTH as nat);
    law_number_read_back(b, NAME_WIDTH as nat);
}

/// Padding to a width that the number does not exceed adds the last digit last.
proof fn lemma_padded_step(n: nat, width: nat)
    requires
        width >= 1,
        n < pow(10, width),
    ensures
        zero_padded(n, width).len() == width,
        width >= 2 ==> n / 10 < pow(10, (width - 1) as nat),
        width >= 2 ==> zero_padded(n, width) == zero_padded(n / 10, (width - 1) as nat).push(
            digit(n as int % 10),
        ),
    decreases width,
{
    if width == 1 {
        lemma_pow1(10);
    } else {
        reveal(pow);
        assert(pow(10, width) == 10 * pow(10, (width - 1) as nat));
        lemma_padded_step(n / 10, (width - 1) as nat);
        let rest = zero_padded(n / 10, (width - 1) as nat);
        assert(decimal(0) =~= seq!['0']);
        assert(zero_padded(n, width) =~= rest.push(digit(n as int % 10)));
    }
}

/// Of two numbers of at most `width` digits, the texts first differ at the returned index, and
/// there the lesser number has the lesser digit.
proof fn lemma_padded_order(a: nat, b: nat, width: nat) -> (k: int)
    requires
        width >= 1,
        a < b < pow(10, width),
    ensures
        zero_padded(a, width).len() == width,
        zero_padded(b, width).len() == width,
        0 <= k < width,
        forall|i: int| 0 <= i < k ==> #[trigger] zero_padded(a, width)[i] == zero_padded(
            b,
            width,
        )[i],
        zero_padded(a, width)[k] < zero_padded(b, width)[k],
    decreases width,
{
    lemma_padded_step(a, width);
    lemma_padded_step(b, width);
    if width == 1 {
        lemma_pow1(10);
        0
    } else if a / 10 == b / 10 {
        width - 1
    } else {
        lemma_padded_order(a / 10, b / 10, (width - 1) as nat)
    }
}

/// Names are ordered as the numbers of their segments are, as long as these have eight digits at
/// most.
pub proof fn law_segment_name_order(a: SegmentId, b: SegmentId)
    requires
        a < 100_000_000,
        b < 100_000_000,
    ensures
        text_le(segment_name(a as int), segment_name(b as int)) <==> a <= b,
{
    assert(pow(10, 8) == 100_000_000) by {
        reveal_with_fuel(pow, 9);
    }
    if a == b {
        lemma_bytes_le_reflexive(encode_utf8(segment_name(a as int)));
    } else {
        let (low, high) = if a < b {
            (a, b)
        } else {
            (b, a)
        };
        let k = lemma_padded_order(low as nat, high as nat, 8);
        let low_name = segment_name(low as int);
        let high_name = segment_name(high as int);
        lemma_digits_only(low as nat, NAME_WIDTH as nat);
        lemma_digits_only(high as nat, NAME_WIDTH as nat);
        lemma_digit_bytes(low_name);
        lemma_digit_bytes(high_name);
        assert forall|i: int| 0 <= i < k implies #[trigger] encode_utf8(low_name)[i]
            == encode_utf8(high_name)[i] by {
            assert(low_name[i] == high_name[i]);
        }
        lemma_bytes_le_at(encode_utf8(low_name), encode_utf8(high_name), k);
    }
}

/// The names of the files of the segments `ids`.
pub open spec fn segment_names(ids: Seq<SegmentId>) -> Seq<Seq<char>> {
    ids.map_values(|id: SegmentId| segment_name(id as int))
}

/// The latest segment of a listing is the one with the greatest number, and the oldest the one
/// with the least, as long as the numbers have eight digits at most.
pub proof fn law_latest_and_oldest(ids: Seq<SegmentId>)
    requires
        ids.len() > 0,
        forall|i: int| 0 <= i < ids.len() ==> #[trigger] ids[i] < 100_000_000,
    ensures
        latest_listed(segment_names(ids)) matches Some(latest) && ids.contains(latest)
            && forall|i: int| 0 <= i < ids.len() ==> #[trigger] ids[i] <= latest,
        oldest_listed(segment_names(ids)) matches Some(oldest) && ids.contains(oldest)
            && forall|i: int| 0 <= i < ids.len() ==> oldest <= #[trigger] ids[i],
{
    let names = segment_names(ids);
    law_greatest_text(names);
    law_least_text(names);
    let g = choose|g: int| 0 <= g < names.len() && names[g] == greatest_text(names);
    let l = choose|l: int| 0 <= l < names.len() && names[l] == least_text(names);
    assert(names[g] == segment_name(ids[g] as int));
    assert(names[l] == segment_name(ids[l] as int));
    law_number_read_back(ids[g], NAME_WIDTH as nat);
    law_number_read_back(ids[l], NAME_WIDTH as nat);
    assert forall|i: int| 0 <= i < ids.len() implies ids[l] <= #[trigger] ids[i] <= ids[g] by {
        assert(text_le(names[i], names[g]));
        assert(text_le(names[l], names[i]));
        law_segment_name_order(ids[i], ids[g]);
        law_segment_name_order(ids[l], ids[i]);
    }
}

/// `floor_of` is one of the numbers, is not over the limit, and none between the two is left.
pub proof fn lemma_floor_of(numbers: Seq<int>, limit: int)
    ensures
        match floor_of(numbers, limit) {
            Some(n) => n <= limit && numbers.contains(n) && forall|i: int|
                0 <= i < numbers.len() && #[trigger] numbers[i] <= limit ==> numbers[i] <= n,
            None => forall|i: int| 0 <= i < numbers.len() ==> #[trigger] numbers[i] > limit,
        },
    decreases numbers.len(),
{
    if numbers.len() > 0 {
        let init = numbers.drop_last();
        lemma_floor_of(init, limit);
        assert forall|i: int| 0 <= i < init.len() implies init[i] == #[trigger] numbers[i] by {}
        match floor_of(init, limit) {
            Some(best) => {
                let k = choose|k: int| 0 <= k < init.len() && init[k] == best;
                assert(numbers[k] == best);
            },
            None => {},
        }
        assert(numbers[numbers.len() - 1] == numbers.last());
    }
}

/// A position is found in the segment with the greatest number that is not over it, at its
/// distance from the segment's start, whatever the order in which the segments are listed.
pub proof fn law_located(ids: Seq<SegmentId>, position: u64)
    requires
        position <= i64::MAX,
        forall|i: int| 0 <= i < ids.len() ==> #[trigger] ids[i] <= i64::MAX,
        exists|i: int| 0 <= i < ids.len() && #[trigger] ids[i] <= position,
    ensures
        can_locate(segment_names(ids), position),
        ({
            let (id, offset) = located(segment_names(ids), position);
            &&& 0 <= id <= u64::MAX && ids.contains(id as u64)
            &&& 0 <= offset && id + offset == position
            &&& forall|i: int| 0 <= i < ids.len() && #[trigger] ids[i] <= position ==> ids[i] <= id
        }),
{
    let names = segment_names(ids);
    assert forall|i: int| 0 <= i < ids.len() implies number_i64(#[trigger] encode_utf8(names[i]))
        == Some(ids[i] as i64) by {
        law_number_read_back(ids[i], NAME_WIDTH as nat);
    }
    let numbers = listed_numbers(names);
    assert forall|i: int| 0 <= i < ids.len() implies #[trigger] numbers[i] == ids[i] by {
        assert(number_i64(encode_utf8(names[i])) == Some(ids[i] as i64));
    }
    lemma_floor_of(numbers, position as int);
    let w = choose|i: int| 0 <= i < ids.len() && #[trigger] ids[i] <= position;
    assert(numbers[w] <= position);
    let n = floor_of(numbers, position as int).unwrap();
    let k = choose|k: int| 0 <= k < numbers.len() && numbers[k] == n;
    assert(ids[k] == n);
    assert forall|i: int|
        0 <= i < ids.len() && #[trigger] ids[i] <= position implies ids[i] <= n by {
        assert(numbers[i] <= position);
    }
}

} // verus!
