//! Places in a text, counted in the bytes of its UTF-8 form.

use crate::text::{byte_len, chars_of, stands_at, string_of, Text};
use vstd::prelude::*;
use vstd::utf8::{decode_utf8, encode_utf8, is_char_boundary};

verus! {

/// The bytes of two texts, one behind the other.
pub proof fn lemma_bytes_concat(a: Text, b: Text)
    ensures
        encode_utf8(a + b) == encode_utf8(a) + encode_utf8(b),
    decreases a.len(),
{
    if a.len() == 0 {
        assert(a + b =~= b);
        assert(encode_utf8(a) + encode_utf8(b) =~= encode_utf8(b));
    } else {
        assert((a + b).drop_first() =~= a.drop_first() + b);
        lemma_bytes_concat(a.drop_first(), b);
        assert(encode_utf8(a + b) =~= encode_utf8(a) + encode_utf8(b));
    }
}

/// A character begins, or the text ends, at byte `i`.
pub open spec fn boundary(s: Text, i: int) -> bool {
    is_char_boundary(encode_utf8(s), i)
}

/// Where a text ends and another begins, a character begins.
pub proof fn lemma_boundary(a: Text, b: Text)
    ensures
        boundary(a + b, byte_len(a) as int),
    decreases a.len(),
{
    let all = encode_utf8(a + b);
    vstd::utf8::encode_utf8_valid_utf8(a + b);
    if a.len() > 0 {
        lemma_boundary(a.drop_first(), b);
        lemma_bytes_concat(a, b);
        assert((a + b).drop_first() =~= a.drop_first() + b);
        vstd::utf8::encode_utf8_first_scalar(a + b);
        assert(vstd::utf8::pop_first_scalar(all) =~= encode_utf8(a.drop_first() + b));
    }
}

/// A boundary stays one when text follows, and what is before it stays too.
pub proof fn lemma_boundary_stays(a: Text, b: Text, i: int)
    requires
        boundary(a, i),
        0 <= i <= byte_len(a),
    ensures
        boundary(a + b, i),
        byte_len(a + b) == byte_len(a) + byte_len(b),
        forall|j: int| 0 <= j <= i ==> cut_text(a + b, j, i) == #[trigger] cut_text(a, j, i),
{
    lemma_bytes_concat(a, b);
    let bytes = encode_utf8(a);
    let all = encode_utf8(a + b);
    vstd::utf8::encode_utf8_valid_utf8(a);
    vstd::utf8::encode_utf8_valid_utf8(a + b);
    if i < bytes.len() {
        assert(all[i] == bytes[i]);
        vstd::utf8::is_char_boundary_iff_not_is_continuation_byte(bytes, i);
        vstd::utf8::is_char_boundary_iff_not_is_continuation_byte(all, i);
    } else {
        lemma_boundary(a, b);
    }
    assert forall|j: int| 0 <= j <= i implies cut_text(a + b, j, i) == #[trigger] cut_text(
        a,
        j,
        i,
    ) by {
        assert(all.subrange(j, i) =~= bytes.subrange(j, i));
    }
}

/// A text begins and ends at a boundary.
pub proof fn lemma_ends(s: Text)
    ensures
        boundary(s, 0),
        boundary(s, byte_len(s) as int),
{
    vstd::utf8::encode_utf8_valid_utf8(s);
    vstd::utf8::is_char_boundary_start_end_of_seq(encode_utf8(s));
}

/// The text between two places.
pub open spec fn cut_text(s: Text, from: int, to: int) -> Text {
    decode_utf8(encode_utf8(s).subrange(from, to))
}

/// The text between what is before and what is behind it.
pub proof fn lemma_cut(a: Text, b: Text, c: Text)
    ensures
        boundary(a + b + c, byte_len(a) as int),
        boundary(a + b + c, byte_len(a + b) as int),
        byte_len(a) <= byte_len(a + b) <= byte_len(a + b + c),
        cut_text(a + b + c, byte_len(a) as int, byte_len(a + b) as int) == b,
{
    lemma_boundary(a + b, c);
    lemma_boundary(a, b + c);
    assert(a + (b + c) =~= a + b + c);
    lemma_bytes_concat(a, b);
    lemma_bytes_concat(a + b, c);
    assert(encode_utf8(a + b + c).subrange(byte_len(a) as int, byte_len(a + b) as int)
        =~= encode_utf8(b));
    vstd::utf8::encode_utf8_decode_utf8(b);
}

/// Cutting in three loses nothing.
pub proof fn lemma_cut_joins(s: Text, from: int, to: int)
    requires
        boundary(s, from),
        boundary(s, to),
        0 <= from <= to <= byte_len(s),
    ensures
        cut_text(s, 0, from) + cut_text(s, from, to) == cut_text(s, 0, to),
        cut_text(s, 0, to) + cut_text(s, to, byte_len(s) as int) == s,
{
    let bytes = encode_utf8(s);
    vstd::utf8::encode_utf8_valid_utf8(s);
    vstd::utf8::encode_utf8_decode_utf8(s);
    vstd::utf8::decode_utf8_split(bytes, to);
    vstd::utf8::valid_utf8_split(bytes, to);
    lemma_boundary_in_head(bytes, from, to);
    let head = bytes.subrange(0, to);
    vstd::utf8::decode_utf8_split(head, from);
    assert(head.subrange(0, from) =~= bytes.subrange(0, from));
    assert(head.subrange(from, head.len() as int) =~= bytes.subrange(from, to));
}

/// What is cut takes the bytes between the places.
pub proof fn lemma_cut_len(s: Text, from: int, to: int)
    requires
        boundary(s, from),
        boundary(s, to),
        0 <= from <= to <= byte_len(s),
    ensures
        byte_len(cut_text(s, from, to)) == to - from,
{
    let bytes = encode_utf8(s);
    vstd::utf8::encode_utf8_valid_utf8(s);
    lemma_boundary_in_head(bytes, from, to);
    let head = bytes.subrange(0, to);
    vstd::utf8::valid_utf8_split(head, from);
    assert(head.subrange(from, head.len() as int) =~= bytes.subrange(from, to));
    vstd::utf8::decode_utf8_encode_utf8(bytes.subrange(from, to));
}

/// A boundary stays one in what is before another.
proof fn lemma_boundary_in_head(bytes: Seq<u8>, from: int, to: int)
    requires
        vstd::utf8::valid_utf8(bytes),
        is_char_boundary(bytes, from),
        is_char_boundary(bytes, to),
        0 <= from <= to <= bytes.len(),
    ensures
        vstd::utf8::valid_utf8(bytes.subrange(0, to)),
        is_char_boundary(bytes.subrange(0, to), from),
{
    let head = bytes.subrange(0, to);
    vstd::utf8::valid_utf8_split(bytes, to);
    if from < to {
        assert(head[from] == bytes[from]);
        vstd::utf8::is_char_boundary_iff_not_is_continuation_byte(bytes, from);
        vstd::utf8::is_char_boundary_iff_not_is_continuation_byte(head, from);
    } else {
        vstd::utf8::is_char_boundary_start_end_of_seq(head);
    }
}

/// Computes `cut_text`.
pub fn cut(s: &str, from: usize, to: usize) -> (r: String)
    requires
        boundary(s@, from as int),
        boundary(s@, to as int),
        from <= to <= byte_len(s@),
    ensures
        r@ == cut_text(s@, from as int, to as int),
{
    let ghost bytes = encode_utf8(s@);
    proof {
        vstd::utf8::encode_utf8_valid_utf8(s@);
        lemma_boundary_in_head(bytes, from as int, to as int);
    }
    let (head, _) = s.split_at(to);
    let (_, middle) = head.split_at(from);
    proof {
        assert(encode_utf8(middle@) =~= bytes.subrange(from as int, to as int));
        vstd::utf8::encode_utf8_decode_utf8(middle@);
    }
    middle.to_owned()
}

/// How many bytes a text takes.
pub fn len(s: &str) -> (r: usize)
    ensures
        r == byte_len(s@),
{
    s.as_bytes().len()
}

/// The first place at which `pattern` stands in `s` is `i`.
pub open spec fn first_at(s: Text, pattern: Text, i: int) -> bool {
    stands_at(s, pattern, i) && forall|j: int| 0 <= j < i ==> !stands_at(s, pattern, j)
}

/// What is before the first `pattern` in `s`, where there is one.
pub open spec fn text_before(s: Text, pattern: Text) -> Option<Text> {
    if exists|i: int| #[trigger] first_at(s, pattern, i) {
        Some(s.take(choose|i: int| #[trigger] first_at(s, pattern, i)))
    } else {
        None
    }
}

/// There is one first place at most.
proof fn lemma_first_at(s: Text, pattern: Text, i: int)
    requires
        first_at(s, pattern, i),
    ensures
        text_before(s, pattern) == Some(s.take(i)),
{
    let j = choose|j: int| #[trigger] first_at(s, pattern, j);
    assert(i == j);
}

/// What `text_before` gives is followed by the pattern.
pub proof fn lemma_text_before(s: Text, pattern: Text)
    requires
        text_before(s, pattern) is Some,
    ensures
        (text_before(s, pattern)->0 + pattern).is_prefix_of(s),
        s == text_before(s, pattern)->0 + pattern + s.skip(
            (text_before(s, pattern)->0.len() + pattern.len()) as int,
        ),
{
    let i = choose|i: int| #[trigger] first_at(s, pattern, i);
    assert(s.subrange(i, i + pattern.len()) == pattern);
    assert(s =~= s.take(i) + pattern + s.skip(i + pattern.len()));
    assert(s.take(i) + pattern =~= s.subrange(0, i + pattern.len()));
}

/// Computes `text_before`.
pub fn find_before(s: &str, pattern: &str) -> (r: Option<String>)
    ensures
        crate::text::maybe(r) == text_before(s@, pattern@),
{
    let v = chars_of(s);
    let p = chars_of(pattern);
    let mut i: usize = 0;
    loop
        invariant
            i <= v.len(),
            v@ == s@,
            p@ == pattern@,
            forall|k: int| 0 <= k < i ==> !stands_at(s@, pattern@, k),
        decreases v.len() - i,
    {
        if crate::text::stands(&v, &p, i) {
            proof {
                lemma_first_at(s@, pattern@, i as int);
            }
            let before = string_of(&v, 0, i);
            assert(before@ =~= s@.take(i as int));
            return Some(before);
        }
        if i == v.len() {
            assert forall|k: int| !#[trigger] first_at(s@, pattern@, k) by {
                if stands_at(s@, pattern@, k) {
                    assert(k <= v.len());
                }
            }
            return None;
        }
        i = i + 1;
    }
}

} // verus!
