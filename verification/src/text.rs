//! Text as sequences of characters, and the operations on it that the rest of
//! the library is built from.

use vstd::prelude::*;

verus! {

/// The characters of a string.
pub type Text = Seq<char>;

/// The characters of each string of a list.
pub open spec fn texts(v: Seq<String>) -> Seq<Text> {
    v.map_values(|s: String| s@)
}

/// `String::push` appends one character.
pub assume_specification[ String::push ](s: &mut String, c: char)
    ensures
        final(s)@ == old(s)@.push(c),
;

/// The characters of `s`, in order.
pub fn chars_of(s: &str) -> (r: Vec<char>)
    ensures
        r@ == s@,
{
    let mut r: Vec<char> = Vec::new();
    for c in it: s.chars()
        invariant
            r@ == s@.take(it.index() as int),
            it.seq() == s@,
    {
        proof {
            assert(s@.take(it.index() as int).push(c) =~= s@.take(it.index() + 1));
        }
        r.push(c);
    }
    assert(s@.take(s@.len() as int) =~= s@);
    r
}

/// The string made of the characters `v[from..to]`.
pub fn string_of(v: &Vec<char>, from: usize, to: usize) -> (r: String)
    requires
        from <= to <= v.len(),
    ensures
        r@ == v@.subrange(from as int, to as int),
{
    let mut r = String::new();
    let mut i: usize = from;
    while i < to
        invariant
            from <= i <= to <= v.len(),
            r@ == v@.subrange(from as int, i as int),
        decreases to - i,
    {
        assert(v@.subrange(from as int, i as int).push(v@[i as int]) =~= v@.subrange(
            from as int,
            i + 1,
        ));
        r.push(v[i]);
        i = i + 1;
    }
    r
}

/// `a` comes before `b` in the order of their code points, which is also the
/// order of their UTF-8 bytes.
pub open spec fn before(a: Text, b: Text) -> bool
    decreases a.len(),
{
    if b.len() == 0 {
        false
    } else if a.len() == 0 {
        true
    } else if a[0] == b[0] {
        before(a.drop_first(), b.drop_first())
    } else {
        (a[0] as u32) < (b[0] as u32)
    }
}

/// Decides `before`.
pub fn less(a: &str, b: &str) -> (r: bool)
    ensures
        r == before(a@, b@),
{
    let mut left = a.chars();
    let mut right = b.chars();
    loop
        invariant
            before(a@, b@) == before(
                vstd::std_specs::iter::IteratorSpec::remaining(&left),
                vstd::std_specs::iter::IteratorSpec::remaining(&right),
            ),
            vstd::std_specs::iter::IteratorSpec::decrease(&left) is Some,
        decreases vstd::std_specs::iter::IteratorSpec::decrease(&left)->0,
    {
        let y = right.next();
        let x = left.next();
        match y {
            None => {
                return false;
            },
            Some(d) => {
                match x {
                    None => {
                        return true;
                    },
                    Some(c) => {
                        if c != d {
                            return (c as u32) < (d as u32);
                        }
                    },
                }
            },
        }
    }
}

/// Whether two strings hold the same text.
pub fn same(a: &str, b: &str) -> (r: bool)
    ensures
        r == (a@ == b@),
{
    let mut left = a.chars();
    let mut right = b.chars();
    loop
        invariant
            (a@ == b@) == (vstd::std_specs::iter::IteratorSpec::remaining(&left)
                == vstd::std_specs::iter::IteratorSpec::remaining(&right)),
            vstd::std_specs::iter::IteratorSpec::decrease(&left) is Some,
        decreases vstd::std_specs::iter::IteratorSpec::decrease(&left)->0,
    {
        let ghost p = vstd::std_specs::iter::IteratorSpec::remaining(&left);
        let ghost q = vstd::std_specs::iter::IteratorSpec::remaining(&right);
        let x = left.next();
        let y = right.next();
        match x {
            None => {
                assert(p =~= Seq::<char>::empty());
                assert(y is None ==> q =~= Seq::<char>::empty());
                return y.is_none();
            },
            Some(c) => {
                match y {
                    None => {
                        return false;
                    },
                    Some(d) => {
                        if c != d {
                            return false;
                        }
                        assert(p =~= seq![c] + p.drop_first());
                        assert(q =~= seq![d] + q.drop_first());
                    },
                }
            },
        }
    }
}

/// `a` does not come after `b`.
pub open spec fn not_after(a: Text, b: Text) -> bool {
    !before(b, a)
}

proof fn lemma_before_irreflexive(a: Text)
    ensures
        !before(a, a),
    decreases a.len(),
{
    if a.len() > 0 {
        lemma_before_irreflexive(a.drop_first());
    }
}

proof fn lemma_before_asymmetric(a: Text, b: Text)
    ensures
        before(a, b) ==> !before(b, a),
    decreases a.len(),
{
    if a.len() > 0 && b.len() > 0 {
        lemma_before_asymmetric(a.drop_first(), b.drop_first());
    }
}

proof fn lemma_before_total(a: Text, b: Text)
    ensures
        a == b || before(a, b) || before(b, a),
    decreases a.len(),
{
    if a.len() > 0 && b.len() > 0 {
        lemma_before_total(a.drop_first(), b.drop_first());
        vstd::utf8::char_u32_cast(a[0], a[0] as u32);
        vstd::utf8::char_u32_cast(b[0], b[0] as u32);
        if a[0] == b[0] && a.drop_first() == b.drop_first() {
            assert(a =~= seq![a[0]] + a.drop_first());
            assert(b =~= seq![b[0]] + b.drop_first());
        }
    } else {
        assert(a.len() == 0 && b.len() == 0 ==> a =~= b);
    }
}

proof fn lemma_before_transitive(a: Text, b: Text, c: Text)
    requires
        before(a, b),
        before(b, c),
    ensures
        before(a, c),
    decreases a.len(),
{
    if a.len() > 0 && b.len() > 0 && c.len() > 0 && a[0] == b[0] && b[0] == c[0] {
        lemma_before_transitive(a.drop_first(), b.drop_first(), c.drop_first());
    }
}

/// The order of texts is total.
pub proof fn lemma_text_order()
    ensures
        vstd::relations::total_ordering(|a: Text, b: Text| not_after(a, b)),
{
    let leq = |a: Text, b: Text| not_after(a, b);
    assert forall|a: Text| #[trigger] leq(a, a) by {
        lemma_before_irreflexive(a);
    }
    assert forall|a: Text, b: Text| #[trigger] leq(a, b) && #[trigger] leq(b, a) implies a == b by {
        lemma_before_total(a, b);
    }
    assert forall|a: Text, b: Text| #[trigger] leq(a, b) || #[trigger] leq(b, a) by {
        lemma_before_asymmetric(a, b);
    }
    assert forall|a: Text, b: Text, c: Text| #[trigger] leq(a, b) && #[trigger] leq(b, c) implies leq(
        a,
        c,
    ) by {
        if before(c, a) {
            lemma_before_total(a, b);
            if a == b {
            } else {
                lemma_before_transitive(c, a, b);
            }
        }
    }
}

/// Characters with the Unicode property White_Space.
pub open spec fn is_space(c: char) -> bool {
    let n = c as u32;
    ||| 0x9 <= n <= 0xd
    ||| n == 0x20
    ||| n == 0x85
    ||| n == 0xa0
    ||| n == 0x1680
    ||| 0x2000 <= n <= 0x200a
    ||| n == 0x2028
    ||| n == 0x2029
    ||| n == 0x202f
    ||| n == 0x205f
    ||| n == 0x3000
}

/// Decides `is_space`.
pub fn space(c: char) -> (r: bool)
    ensures
        r == is_space(c),
{
    let n: u32 = c as u32;
    (0x9 <= n && n <= 0xd) || n == 0x20 || n == 0x85 || n == 0xa0 || n == 0x1680 || (0x2000 <= n
        && n <= 0x200a) || n == 0x2028 || n == 0x2029 || n == 0x202f || n == 0x205f || n == 0x3000
}

/// Control characters: the Unicode category Cc.
pub open spec fn is_control(c: char) -> bool {
    let n = c as u32;
    n <= 0x1f || 0x7f <= n <= 0x9f
}

/// Whether a text holds a control character.
pub fn has_control(s: &str) -> (r: bool)
    ensures
        r == exists|i: int| 0 <= i < s@.len() && is_control(#[trigger] s@[i]),
{
    for c in it: s.chars()
        invariant
            it.seq() == s@,
            forall|i: int| 0 <= i < it.index() ==> !is_control(#[trigger] s@[i]),
    {
        let n: u32 = c as u32;
        if n <= 0x1f || (0x7f <= n && n <= 0x9f) {
            assert(is_control(s@[it.index() as int]));
            return true;
        }
    }
    false
}

/// `s` without the white space at its end.
pub open spec fn trim_end(s: Text) -> Text
    decreases s.len(),
{
    if s.len() > 0 && is_space(s.last()) {
        trim_end(s.drop_last())
    } else {
        s
    }
}

/// `s` without the white space at its start.
pub open spec fn trim_start(s: Text) -> Text
    decreases s.len(),
{
    if s.len() > 0 && is_space(s[0]) {
        trim_start(s.drop_first())
    } else {
        s
    }
}

/// `s` without the white space at both ends.
pub open spec fn trim(s: Text) -> Text {
    trim_start(trim_end(s))
}

/// Where `trim_end` cuts `v`.
fn end_of(v: &Vec<char>) -> (r: usize)
    ensures
        r <= v.len(),
        trim_end(v@) == v@.take(r as int),
{
    let mut i: usize = v.len();
    assert(v@.take(v@.len() as int) =~= v@);
    while i > 0 && space(v[i - 1])
        invariant
            i <= v.len(),
            trim_end(v@) == trim_end(v@.take(i as int)),
        decreases i,
    {
        assert(v@.take(i as int).drop_last() =~= v@.take(i - 1));
        i = i - 1;
    }
    i
}

/// Computes `trim_end`.
pub fn trimmed_end(s: &str) -> (r: String)
    ensures
        r@ == trim_end(s@),
{
    let v = chars_of(s);
    let end = end_of(&v);
    string_of(&v, 0, end)
}

/// Computes `trim`.
pub fn trimmed(s: &str) -> (r: String)
    ensures
        r@ == trim(s@),
{
    let v = chars_of(s);
    let end = end_of(&v);
    let mut i: usize = 0;
    assert(v@.subrange(0, end as int) =~= v@.take(end as int));
    while i < end && space(v[i])
        invariant
            i <= end <= v.len(),
            trim_start(v@.take(end as int)) == trim_start(v@.subrange(i as int, end as int)),
        decreases end - i,
    {
        assert(v@.subrange(i as int, end as int).drop_first() =~= v@.subrange(i + 1, end as int));
        i = i + 1;
    }
    string_of(&v, i, end)
}

/// Whether `s` starts with `prefix`.
pub fn starts_with(s: &str, prefix: &str) -> (r: bool)
    ensures
        r == prefix@.is_prefix_of(s@),
{
    let v = chars_of(s);
    let p = chars_of(prefix);
    if p.len() > v.len() {
        return false;
    }
    let mut i: usize = 0;
    while i < p.len()
        invariant
            i <= p.len() <= v.len(),
            p@ == prefix@,
            v@ == s@,
            forall|j: int| 0 <= j < i ==> #[trigger] p@[j] == v@[j],
        decreases p.len() - i,
    {
        if p[i] != v[i] {
            assert(s@.subrange(0, p@.len() as int)[i as int] != p@[i as int]);
            return false;
        }
        i = i + 1;
    }
    assert(s@.subrange(0, p@.len() as int) =~= p@);
    true
}

/// What follows `prefix` in `s`, if `s` starts with it.
pub open spec fn without_prefix(s: Text, prefix: Text) -> Option<Text> {
    if prefix.is_prefix_of(s) {
        Some(s.skip(prefix.len() as int))
    } else {
        None
    }
}

/// The text of an optional string.
pub open spec fn maybe(s: Option<String>) -> Option<Text> {
    match s {
        Some(s) => Some(s@),
        None => None,
    }
}

/// What an option holds.
pub open spec fn seen<T: View>(o: Option<T>) -> Option<T::V> {
    match o {
        Some(value) => Some(value@),
        None => None,
    }
}

/// What a result holds.
pub open spec fn result_of<T: View>(r: Result<T, String>) -> Result<T::V, Text> {
    match r {
        Ok(value) => Ok(value@),
        Err(error) => Err(error@),
    }
}

/// A copy of an optional string.
pub fn copy_option(s: &Option<String>) -> (r: Option<String>)
    ensures
        maybe(r) == maybe(*s),
{
    match s {
        Some(s) => Some(s.clone()),
        None => None,
    }
}

/// Whether two optional strings hold the same.
pub fn same_option(a: &Option<String>, b: &Option<String>) -> (r: bool)
    ensures
        r == (maybe(*a) == maybe(*b)),
{
    match a {
        Some(a) => match b {
            Some(b) => same(a.as_str(), b.as_str()),
            None => false,
        },
        None => b.is_none(),
    }
}

/// Computes `without_prefix`.
pub fn strip_prefix(s: &str, prefix: &str) -> (r: Option<String>)
    ensures
        maybe(r) == without_prefix(s@, prefix@),
{
    if starts_with(s, prefix) {
        let v = chars_of(s);
        let n = chars_of(prefix).len();
        let r = string_of(&v, n, v.len());
        assert(r@ =~= s@.skip(prefix@.len() as int));
        Some(r)
    } else {
        None
    }
}

/// Whether `s` ends with `suffix`.
pub fn ends_with(s: &str, suffix: &str) -> (r: bool)
    ensures
        r == suffix@.is_suffix_of(s@),
{
    let v = chars_of(s);
    let p = chars_of(suffix);
    if p.len() > v.len() {
        return false;
    }
    let n = v.len() - p.len();
    let mut i: usize = 0;
    while i < p.len()
        invariant
            i <= p.len() <= v.len(),
            n == v.len() - p.len(),
            p@ == suffix@,
            v@ == s@,
            forall|j: int| 0 <= j < i ==> #[trigger] p@[j] == v@[n + j],
        decreases p.len() - i,
    {
        if p[i] != v[n + i] {
            assert(s@.subrange(n as int, s@.len() as int)[i as int] != p@[i as int]);
            return false;
        }
        i = i + 1;
    }
    assert(s@.subrange(n as int, s@.len() as int) =~= p@);
    true
}

/// `pattern` stands in `s` at `i`.
pub open spec fn stands_at(s: Text, pattern: Text, i: int) -> bool {
    0 <= i && i + pattern.len() <= s.len() && s.subrange(i, i + pattern.len()) == pattern
}

/// `pattern` stands somewhere in `s`.
pub open spec fn occurs(s: Text, pattern: Text) -> bool {
    exists|i: int| #[trigger] stands_at(s, pattern, i)
}

/// Whether `p` stands in `v` at `i`.
pub fn stands(v: &Vec<char>, p: &Vec<char>, i: usize) -> (r: bool)
    ensures
        r == stands_at(v@, p@, i as int),
{
    if i > v.len() || p.len() > v.len() - i {
        return false;
    }
    let mut j: usize = 0;
    while j < p.len()
        invariant
            i <= v.len(),
            p.len() <= v.len() - i,
            j <= p.len(),
            forall|k: int| 0 <= k < j ==> #[trigger] p@[k] == v@[i + k],
        decreases p.len() - j,
    {
        if p[j] != v[i + j] {
            assert(v@.subrange(i as int, i + p@.len())[j as int] != p@[j as int]);
            return false;
        }
        j = j + 1;
    }
    assert(v@.subrange(i as int, i + p@.len()) =~= p@);
    true
}

/// Decides `occurs`.
pub fn contains_text(s: &str, pattern: &str) -> (r: bool)
    ensures
        r == occurs(s@, pattern@),
{
    let v = chars_of(s);
    let p = chars_of(pattern);
    let mut i: usize = 0;
    loop
        invariant
            i <= v.len(),
            v@ == s@,
            p@ == pattern@,
            forall|k: int| 0 <= k < i ==> !stands_at(s@, pattern@, k),
        decreases v.len() - i,
    {
        if stands(&v, &p, i) {
            return true;
        }
        if i == v.len() {
            return false;
        }
        i = i + 1;
    }
}

/// The first `n` characters, or all where there are fewer.
pub open spec fn first_chars(s: Text, n: nat) -> Text {
    if s.len() <= n {
        s
    } else {
        s.take(n as int)
    }
}

/// Computes `first_chars`.
pub fn head_of_text(s: &str, n: usize) -> (r: String)
    ensures
        r@ == first_chars(s@, n as nat),
{
    let v = chars_of(s);
    let end: usize = if v.len() <= n {
        v.len()
    } else {
        n
    };
    let r = string_of(&v, 0, end);
    assert(r@ =~= first_chars(s@, n as nat));
    r
}

/// How many bytes a text takes.
pub open spec fn byte_len(s: Text) -> nat {
    vstd::utf8::encode_utf8(s).len()
}

/// Whether a text can be cut behind its first `n` bytes, or has no more than those.
pub open spec fn can_clip(s: Text, n: nat) -> bool {
    byte_len(s) <= n || vstd::utf8::is_char_boundary(vstd::utf8::encode_utf8(s), n as int)
}

/// The text of the first `n` bytes, or all where there are fewer.
pub open spec fn clipped(s: Text, n: nat) -> Text {
    if byte_len(s) <= n {
        s
    } else {
        vstd::utf8::decode_utf8(vstd::utf8::encode_utf8(s).subrange(0, n as int))
    }
}

/// Computes `clipped`.
pub fn clip(s: &str, n: usize) -> (r: String)
    requires
        can_clip(s@, n as nat),
    ensures
        r@ == clipped(s@, n as nat),
{
    let bytes = s.as_bytes().len();
    if bytes <= n {
        return s.to_owned();
    }
    let (head, _) = s.split_at(n);
    proof {
        vstd::utf8::encode_utf8_decode_utf8(head@);
    }
    head.to_owned()
}

/// A text without its last character.
pub open spec fn shortened(s: Text) -> Text {
    if s.len() == 0 {
        s
    } else {
        s.drop_last()
    }
}

/// Computes `shortened`.
pub fn shorten(s: &str) -> (r: String)
    ensures
        r@ == shortened(s@),
{
    let v = chars_of(s);
    if v.len() == 0 {
        return String::new();
    }
    let r = string_of(&v, 0, v.len() - 1);
    assert(r@ =~= s@.drop_last());
    r
}

/// How `{:?}` writes a text.
pub uninterp spec fn quoted_text(s: Seq<char>) -> Seq<char>;

/// The `Debug` form of `str`: the text in double quotes, with what could not be
/// read there escaped. Which characters are escaped is not stated.
#[verifier::external_body]
pub(crate) fn quoted(s: &str) -> (r: String)
    ensures
        r@ == quoted_text(s@),
{
    format!("{s:?}")
}

/// A text in lower case.
pub uninterp spec fn lower_text(s: Seq<char>) -> Seq<char>;

/// `str::to_lowercase`, by Unicode's rules and whatever the locale. Which character
/// becomes which is not stated.
#[verifier::external_body]
pub(crate) fn lowercase(s: &str) -> (r: String)
    ensures
        r@ == lower_text(s@),
{
    s.to_lowercase()
}

} // verus!
