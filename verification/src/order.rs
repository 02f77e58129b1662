//! Byte-wise order of texts, and the first and last of some names in it.

use vstd::prelude::*;
use vstd::string::*;
use vstd::utf8::*;

verus! {

/// Whether `a` stands before `b` or is equal to it, in the order of their first differing byte.
pub open spec fn bytes_le(a: Seq<u8>, b: Seq<u8>) -> bool
    decreases a.len(),
{
    if a.len() == 0 {
        true
    } else if b.len() == 0 {
        false
    } else if a[0] == b[0] {
        bytes_le(a.drop_first(), b.drop_first())
    } else {
        a[0] < b[0]
    }
}

/// Whether the text `a` stands before the text `b` or is equal to it.
pub open spec fn text_le(a: Seq<char>, b: Seq<char>) -> bool {
    bytes_le(encode_utf8(a), encode_utf8(b))
}

pub proof fn lemma_bytes_le_reflexive(a: Seq<u8>)
    ensures
        bytes_le(a, a),
    decreases a.len(),
{
    if a.len() > 0 {
        lemma_bytes_le_reflexive(a.drop_first());
    }
}

pub proof fn lemma_bytes_le_total(a: Seq<u8>, b: Seq<u8>)
    ensures
        bytes_le(a, b) || bytes_le(b, a),
    decreases a.len(),
{
    if a.len() > 0 && b.len() > 0 && a[0] == b[0] {
        lemma_bytes_le_total(a.drop_first(), b.drop_first());
    }
}

pub proof fn lemma_bytes_le_transitive(a: Seq<u8>, b: Seq<u8>, c: Seq<u8>)
    requires
        bytes_le(a, b),
        bytes_le(b, c),
    ensures
        bytes_le(a, c),
    decreases a.len(),
{
    if a.len() > 0 && b.len() > 0 && c.len() > 0 && a[0] == b[0] && b[0] == c[0] {
        lemma_bytes_le_transitive(a.drop_first(), b.drop_first(), c.drop_first());
    }
}

/// Texts of equal length are ordered by their first difference.
pub proof fn lemma_bytes_le_at(a: Seq<u8>, b: Seq<u8>, k: int)
    requires
        0 <= k < a.len(),
        k < b.len(),
        forall|i: int| 0 <= i < k ==> #[trigger] a[i] == b[i],
        a[k] < b[k],
    ensures
        bytes_le(a, b),
        !bytes_le(b, a),
    decreases k,
{
    if k > 0 {
        assert forall|i: int| 0 <= i < k - 1 implies #[trigger] a.drop_first()[i]
            == b.drop_first()[i] by {
            assert(a[i + 1] == b[i + 1]);
        }
        assert(a[0] == b[0]);
        lemma_bytes_le_at(a.drop_first(), b.drop_first(), k - 1);
    }
}

/// A text that goes on where another one ends stands behind that.
proof fn lemma_bytes_le_prefix(a: Seq<u8>, b: Seq<u8>)
    requires
        a.len() <= b.len(),
        forall|i: int| 0 <= i < a.len() ==> #[trigger] a[i] == b[i],
    ensures
        bytes_le(a, b),
        a.len() < b.len() ==> !bytes_le(b, a),
    decreases a.len(),
{
    if a.len() > 0 {
        assert(a[0] == b[0]);
        assert forall|i: int| 0 <= i < a.len() - 1 implies #[trigger] a.drop_first()[i]
            == b.drop_first()[i] by {
            assert(a[i + 1] == b[i + 1]);
        }
        lemma_bytes_le_prefix(a.drop_first(), b.drop_first());
    }
}

/// The first byte in which two texts differ decides how they are ordered. Where there is none, the
/// shorter one stands first.
pub proof fn law_text_order(a: Seq<char>, b: Seq<char>, k: int)
    requires
        0 <= k <= encode_utf8(a).len(),
        k <= encode_utf8(b).len(),
        forall|i: int| 0 <= i < k ==> #[trigger] encode_utf8(a)[i] == encode_utf8(b)[i],
    ensures
        k < encode_utf8(a).len() && k < encode_utf8(b).len() && encode_utf8(a)[k] < encode_utf8(
            b,
        )[k] ==> text_le(a, b) && !text_le(b, a),
        k == encode_utf8(a).len() ==> text_le(a, b),
        k == encode_utf8(a).len() && k < encode_utf8(b).len() ==> !text_le(b, a),
{
    let (x, y) = (encode_utf8(a), encode_utf8(b));
    if k == x.len() {
        lemma_bytes_le_prefix(x, y);
    } else if k < y.len() && x[k] < y[k] {
        lemma_bytes_le_at(x, y, k);
    }
}

/// Compares `a` and `b` byte by byte.
fn bytes_in_order(a: &[u8], b: &[u8]) -> (in_order: bool)
    ensures
        in_order == bytes_le(a@, b@),
{
    let mut i: usize = 0;
    assert(a@.skip(0) =~= a@);
    assert(b@.skip(0) =~= b@);
    while i < a.len() && i < b.len()
        invariant
            i <= a@.len(),
            i <= b@.len(),
            bytes_le(a@, b@) == bytes_le(a@.skip(i as int), b@.skip(i as int)),
        decreases a@.len() - i,
    {
        if a[i] != b[i] {
            return a[i] < b[i];
        }
        assert(a@.skip(i as int).drop_first() =~= a@.skip(i + 1));
        assert(b@.skip(i as int).drop_first() =~= b@.skip(i + 1));
        i = i + 1;
    }
    i == a.len()
}

/// The names, each as a text.
pub open spec fn texts(names: Seq<String>) -> Seq<Seq<char>> {
    names.map_values(|name: String| name@)
}

/// The texts of names are theirs, one for one.
pub proof fn law_texts(names: Seq<String>)
    ensures
        texts(names).len() == names.len(),
        forall|i: int| 0 <= i < names.len() ==> #[trigger] texts(names)[i] == names[i]@,
{
}

/// The last of `names` in byte-wise order.
pub open spec fn greatest_text(names: Seq<Seq<char>>) -> Seq<char>
    recommends
        names.len() > 0,
    decreases names.len(),
{
    if names.len() <= 1 {
        names[0]
    } else {
        let rest = greatest_text(names.drop_last());
        if text_le(rest, names.last()) {
            names.last()
        } else {
            rest
        }
    }
}

/// The first of `names` in byte-wise order.
pub open spec fn least_text(names: Seq<Seq<char>>) -> Seq<char>
    recommends
        names.len() > 0,
    decreases names.len(),
{
    if names.len() <= 1 {
        names[0]
    } else {
        let rest = least_text(names.drop_last());
        if text_le(rest, names.last()) {
            rest
        } else {
            names.last()
        }
    }
}

/// The greatest of some names is one of them, and none of them is greater.
pub proof fn law_greatest_text(names: Seq<Seq<char>>)
    requires
        names.len() > 0,
    ensures
        names.contains(greatest_text(names)),
        forall|i: int|
            0 <= i < names.len() ==> text_le(#[trigger] names[i], greatest_text(names)),
    decreases names.len(),
{
    let top = greatest_text(names);
    if names.len() == 1 {
        lemma_bytes_le_reflexive(encode_utf8(names[0]));
    } else {
        let init = names.drop_last();
        law_greatest_text(init);
        let rest = greatest_text(init);
        let k = choose|k: int| 0 <= k < init.len() && init[k] == rest;
        assert(names[k] == rest);
        lemma_bytes_le_reflexive(encode_utf8(names.last()));
        lemma_bytes_le_total(encode_utf8(rest), encode_utf8(names.last()));
        assert forall|i: int| 0 <= i < names.len() implies text_le(#[trigger] names[i], top) by {
            if i < init.len() {
                assert(text_le(init[i], rest));
                if text_le(rest, names.last()) {
                    lemma_bytes_le_transitive(
                        encode_utf8(names[i]),
                        encode_utf8(rest),
                        encode_utf8(names.last()),
                    );
                }
            }
        }
    }
}

/// The least of some names is one of them, and none of them is less.
pub proof fn law_least_text(names: Seq<Seq<char>>)
    requires
        names.len() > 0,
    ensures
        names.contains(least_text(names)),
        forall|i: int| 0 <= i < names.len() ==> text_le(least_text(names), #[trigger] names[i]),
    decreases names.len(),
{
    let low = least_text(names);
    if names.len() == 1 {
        lemma_bytes_le_reflexive(encode_utf8(names[0]));
    } else {
        let init = names.drop_last();
        law_least_text(init);
        let rest = least_text(init);
        let k = choose|k: int| 0 <= k < init.len() && init[k] == rest;
        assert(names[k] == rest);
        lemma_bytes_le_reflexive(encode_utf8(names.last()));
        lemma_bytes_le_total(encode_utf8(rest), encode_utf8(names.last()));
        assert forall|i: int| 0 <= i < names.len() implies text_le(low, #[trigger] names[i]) by {
            if i < init.len() {
                assert(text_le(rest, init[i]));
                if !text_le(rest, names.last()) {
                    lemma_bytes_le_transitive(
                        encode_utf8(names.last()),
                        encode_utf8(rest),
                        encode_utf8(names[i]),
                    );
                }
            }
        }
    }
}

/// The last of `names` in byte-wise order, if there is any.
pub fn greatest_name(names: &Vec<String>) -> (name: Option<&String>)
    ensures
        match name {
            Some(s) => names@.len() > 0 && s@ == greatest_text(texts(names@)),
            None => names@.len() == 0,
        },
        name matches Some(s) ==> (exists|i: int|
            0 <= i < names@.len() && s@ == #[trigger] names@[i]@),
        name matches Some(s) ==> forall|i: int|
            0 <= i < names@.len() ==> #[trigger] text_le(names@[i]@, s@),
{
    if names.len() == 0 {
        return None;
    }
    let mut best: &String = &names[0];
    let mut i: usize = 1;
    assert(texts(names@).take(1)[0] == names@[0]@);
    while i < names.len()
        invariant
            1 <= i <= names@.len(),
            best@ == greatest_text(texts(names@).take(i as int)),
        decreases names@.len() - i,
    {
        let ghost next = texts(names@).take(i + 1);
        assert(next.drop_last() =~= texts(names@).take(i as int));
        assert(next.last() == names@[i as int]@);
        if bytes_in_order(best.as_str().as_bytes(), names[i].as_str().as_bytes()) {
            best = &names[i];
        }
        i = i + 1;
    }
    proof {
        let all = texts(names@);
        assert(all.take(i as int) =~= all);
        law_greatest_text(all);
        let k = choose|k: int| 0 <= k < all.len() && all[k] == greatest_text(all);
        assert(names@[k]@ == best@);
        assert forall|i: int| 0 <= i < names@.len() implies #[trigger] text_le(
            names@[i]@,
            best@,
        ) by {
            assert(all[i] == names@[i]@);
        }
    }
    Some(best)
}

/// The first of `names` in byte-wise order, if there is any.
pub fn least_name(names: &Vec<String>) -> (name: Option<&String>)
    ensures
        match name {
            Some(s) => names@.len() > 0 && s@ == least_text(texts(names@)),
            None => names@.len() == 0,
        },
        name matches Some(s) ==> (exists|i: int|
            0 <= i < names@.len() && s@ == #[trigger] names@[i]@),
        name matches Some(s) ==> forall|i: int|
            0 <= i < names@.len() ==> #[trigger] text_le(s@, names@[i]@),
{
    if names.len() == 0 {
        return None;
    }
    let mut best: &String = &names[0];
    let mut i: usize = 1;
    assert(texts(names@).take(1)[0] == names@[0]@);
    while i < names.len()
        invariant
            1 <= i <= names@.len(),
            best@ == least_text(texts(names@).take(i as int)),
        decreases names@.len() - i,
    {
        let ghost next = texts(names@).take(i + 1);
        assert(next.drop_last() =~= texts(names@).take(i as int));
        assert(next.last() == names@[i as int]@);
        if !bytes_in_order(best.as_str().as_bytes(), names[i].as_str().as_bytes()) {
            best = &names[i];
        }
        i = i + 1;
    }
    proof {
        let all = texts(names@);
        assert(all.take(i as int) =~= all);
        law_least_text(all);
        let k = choose|k: int| 0 <= k < all.len() && all[k] == least_text(all);
        assert(names@[k]@ == best@);
        assert forall|i: int| 0 <= i < names@.len() implies #[trigger] text_le(
            best@,
            names@[i]@,
        ) by {
            assert(all[i] == names@[i]@);
        }
    }
    Some(best)
}

} // verus!
