//! Lines of text in a sequence of bytes.

use vstd::prelude::*;
use vstd::utf8::*;

use crate::record::NEWLINE;

verus! {

/// The length of the first line of `bytes`, with the newline that ends it, if one does.
pub open spec fn line_len(bytes: Seq<u8>) -> nat
    decreases bytes.len(),
{
    if bytes.len() == 0 {
        0
    } else if bytes[0] == NEWLINE {
        1
    } else {
        1 + line_len(bytes.drop_first())
    }
}

pub proof fn lemma_line_len(bytes: Seq<u8>)
    ensures
        line_len(bytes) <= bytes.len(),
        bytes.len() > 0 ==> line_len(bytes) > 0,
    decreases bytes.len(),
{
    if bytes.len() > 0 && bytes[0] != NEWLINE {
        lemma_line_len(bytes.drop_first());
    }
}

/// The lines of `bytes`, each with the newline that ends it. The last one may lack it.
pub open spec fn lines(bytes: Seq<u8>) -> Seq<Seq<u8>>
    decreases bytes.len(),
{
    if bytes.len() == 0 {
        Seq::empty()
    } else {
        let n = line_len(bytes) as int;
        proof {
            lemma_line_len(bytes);
        }
        seq![bytes.take(n)] + lines(bytes.skip(n))
    }
}

/// A line without the newline that ends it.
pub open spec fn line_text(line: Seq<u8>) -> Seq<u8> {
    if line.len() > 0 && line.last() == NEWLINE {
        line.drop_last()
    } else {
        line
    }
}

/// The lines, each without the newline that ends it.
pub open spec fn line_texts(lines: Seq<Seq<u8>>) -> Seq<Seq<u8>> {
    lines.map_values(|line: Seq<u8>| line_text(line))
}

/// How many bytes the lines have.
pub open spec fn total_len(lines: Seq<Seq<u8>>) -> nat
    decreases lines.len(),
{
    if lines.len() == 0 {
        0
    } else {
        total_len(lines.drop_last()) + lines.last().len()
    }
}

pub proof fn lemma_total_len_take(lines: Seq<Seq<u8>>, a: int, b: int)
    requires
        0 <= a <= b <= lines.len(),
    ensures
        total_len(lines.take(a)) <= total_len(lines.take(b)),
    decreases b,
{
    if a < b {
        assert(lines.take(b).drop_last() =~= lines.take(b - 1));
        lemma_total_len_take(lines, a, b - 1);
    }
}

/// The first line ends behind the first newline, or with the bytes if there is none.
pub proof fn law_first_line(bytes: Seq<u8>)
    requires
        bytes.len() > 0,
    ensures
        0 < line_len(bytes) <= bytes.len(),
        forall|i: int| 0 <= i < line_len(bytes) - 1 ==> #[trigger] bytes[i] != NEWLINE,
        bytes[line_len(bytes) - 1] == NEWLINE || line_len(bytes) == bytes.len(),
    decreases bytes.len(),
{
    if bytes[0] != NEWLINE {
        let rest = bytes.drop_first();
        if rest.len() > 0 {
            law_first_line(rest);
            assert forall|i: int| 0 <= i < line_len(bytes) - 1 implies #[trigger] bytes[i]
                != NEWLINE by {
                if i > 0 {
                    assert(rest[i - 1] == bytes[i]);
                }
            }
            assert(rest[line_len(rest) - 1] == bytes[line_len(bytes) - 1]);
        }
    }
}

/// The lines of some bytes are these bytes, cut behind each newline and nowhere else. No line is
/// empty, and their lengths add up to that of the bytes.
pub proof fn law_lines(bytes: Seq<u8>)
    ensures
        lines(bytes).flatten() == bytes,
        total_len(lines(bytes)) == bytes.len(),
        forall|k: int| 0 <= k < lines(bytes).len() ==> (#[trigger] lines(bytes)[k]).len() > 0,
        forall|k: int, i: int|
            0 <= k < lines(bytes).len() && 0 <= i < lines(bytes)[k].len() - 1
                ==> #[trigger] lines(bytes)[k][i] != NEWLINE,
        forall|k: int|
            0 <= k < lines(bytes).len() - 1 ==> (#[trigger] lines(bytes)[k]).last() == NEWLINE,
    decreases bytes.len(),
{
    if bytes.len() == 0 {
        assert(lines(bytes).flatten() =~= bytes);
    } else {
        lemma_line_len(bytes);
        law_first_line(bytes);
        let n = line_len(bytes) as int;
        let rest = bytes.skip(n);
        law_lines(rest);
        let all = lines(bytes);
        assert(all[0] =~= bytes.take(n));
        assert(all.drop_first() =~= lines(rest));
        assert(all.flatten() == all[0] + all.drop_first().flatten());
        assert(bytes =~= bytes.take(n) + rest);
        lemma_total_len_one(all);
        assert forall|k: int| 0 <= k < all.len() implies (#[trigger] all[k]).len() > 0 by {
            if k > 0 {
                assert(all[k] == lines(rest)[k - 1]);
            }
        }
        assert forall|k: int, i: int|
            0 <= k < all.len() && 0 <= i < all[k].len() - 1 implies #[trigger] all[k][i]
            != NEWLINE by {
            if k > 0 {
                assert(all[k][i] == lines(rest)[k - 1][i]);
            } else {
                assert(all[0][i] == bytes[i]);
            }
        }
        assert forall|k: int| 0 <= k < all.len() - 1 implies (#[trigger] all[k]).last()
            == NEWLINE by {
            if k > 0 {
                assert(all[k] == lines(rest)[k - 1]);
            } else {
                assert(rest.len() > 0);
                assert(all[0].last() == bytes[n - 1]);
            }
        }
    }
}

proof fn lemma_total_len_one(lines: Seq<Seq<u8>>)
    requires
        lines.len() > 0,
    ensures
        total_len(lines) == lines[0].len() + total_len(lines.drop_first()),
    decreases lines.len(),
{
    if lines.len() == 1 {
        assert(lines.drop_last() =~= Seq::<Seq<u8>>::empty());
        assert(lines.drop_first() =~= Seq::<Seq<u8>>::empty());
        assert(total_len(lines.drop_last()) == 0);
        assert(total_len(lines.drop_first()) == 0);
    } else {
        lemma_total_len_one(lines.drop_last());
        assert(lines.drop_last().drop_first() =~= lines.drop_first().drop_last());
    }
}

/// The number of bytes that lines have is that of the bytes that they make.
pub proof fn law_total_len(lines: Seq<Seq<u8>>)
    ensures
        total_len(lines) == lines.flatten().len(),
    decreases lines.len(),
{
    if lines.len() > 0 {
        lemma_total_len_one(lines);
        law_total_len(lines.drop_first());
        assert(lines.flatten() == lines[0] + lines.drop_first().flatten());
    }
}

/// One newline, and nothing else, is taken off the end of a line.
pub proof fn law_line_text(text: Seq<u8>, last: u8)
    requires
        last != NEWLINE,
    ensures
        line_text(text.push(NEWLINE)) == text,
        line_text(text.push(last)) == text.push(last),
        line_text(Seq::empty()) == Seq::<u8>::empty(),
{
    assert(text.push(NEWLINE).drop_last() =~= text);
}

/// The texts of lines are theirs, one for one.
pub proof fn law_line_texts(lines: Seq<Seq<u8>>)
    ensures
        line_texts(lines).len() == lines.len(),
        forall|k: int|
            0 <= k < lines.len() ==> #[trigger] line_texts(lines)[k] == line_text(lines[k]),
{
}

/// The index behind the first line of `bytes[start..]`.
pub fn line_end(bytes: &[u8], start: usize) -> (end: usize)
    requires
        start < bytes@.len(),
    ensures
        start < end <= bytes@.len(),
        end - start == line_len(bytes@.skip(start as int)),
        forall|i: int| start <= i < end - 1 ==> #[trigger] bytes@[i] != NEWLINE,
        bytes@[end - 1] == NEWLINE || end == bytes@.len(),
{
    let mut i: usize = start;
    while i < bytes.len()
        invariant
            start <= i <= bytes@.len(),
            line_len(bytes@.skip(start as int)) == (i - start) + line_len(bytes@.skip(i as int)),
            forall|j: int| start <= j < i ==> #[trigger] bytes@[j] != NEWLINE,
        decreases bytes@.len() - i,
    {
        assert(bytes@.skip(i as int).drop_first() =~= bytes@.skip(i + 1));
        if bytes[i] == NEWLINE {
            return i + 1;
        }
        i = i + 1;
    }
    i
}

/// A line that is UTF-8 text stays so without its newline.
pub proof fn lemma_line_text_valid(line: Seq<u8>)
    requires
        valid_utf8(line),
    ensures
        valid_utf8(line_text(line)),
{
    if line.len() > 0 && line.last() == NEWLINE {
        let n = line.len() - 1;
        is_char_boundary_iff_not_is_continuation_byte(line, n);
        valid_utf8_split(line, n);
        assert(line.subrange(0, n) =~= line.drop_last());
    }
}

} // verus!
