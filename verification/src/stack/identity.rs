//! The identity that a commit's message holds.

use crate::split::{
    chain, content, lemma_chain_pieces, lemma_pieces_append, lemma_pieces_nonempty, lemma_pieces_one, lines, lines_of, pieces,
    split_inclusive,
};
use crate::stack::submit::IDENTITY_TRAILER;
use crate::text::{
    is_space, maybe, space, strip_prefix, texts, trim, trim_end, trim_start, trimmed, trimmed_end,
    without_prefix, Text,
};
use vstd::prelude::*;

verus! {

/// How a trailer starts.
pub open spec fn trailer_start() -> Text {
    IDENTITY_TRAILER@ + ":"@
}

/// Whether a text holds white space.
pub open spec fn has_space(s: Text) -> bool {
    exists|i: int| 0 <= i < s.len() && is_space(#[trigger] s[i])
}

/// The identity that a line gives.
pub open spec fn trailer_value(line: Text) -> Option<Text> {
    match without_prefix(line, trailer_start()) {
        Some(rest) => if trim(rest).len() > 0 && !has_space(trim(rest)) {
            Some(trim(rest))
        } else {
            None
        },
        None => None,
    }
}

/// The identities that lines give.
pub open spec fn trailer_values(lines: Seq<Text>) -> Seq<Text>
    decreases lines.len(),
{
    if lines.len() == 0 {
        Seq::empty()
    } else {
        match trailer_value(lines.last()) {
            Some(value) => trailer_values(lines.drop_last()).push(value),
            None => trailer_values(lines.drop_last()),
        }
    }
}

/// The identities that a message gives.
pub open spec fn identities(message: Text) -> Seq<Text> {
    trailer_values(lines_of(message))
}

/// The identity that a message gives, if it gives no more than one.
pub open spec fn identity(message: Text) -> Result<Option<Text>, Text> {
    let found = identities(message);
    if found.len() > 1 {
        Err("multiple "@ + IDENTITY_TRAILER@ + " trailers in one commit"@)
    } else if found.len() == 1 {
        Ok(Some(found[0]))
    } else {
        Ok(None)
    }
}

/// The message with an identity.
pub open spec fn tagged(message: Text, branch: Text) -> Result<Text, Text> {
    match identity(message) {
        Err(error) => Err(error),
        Ok(Some(_)) => Ok(message),
        Ok(None) => Ok(
            trim_end(message) + "\n\n"@ + IDENTITY_TRAILER@ + ": "@ + branch + "\n"@,
        ),
    }
}

/// Whether a text holds white space.
fn any_space(s: &str) -> (r: bool)
    ensures
        r == has_space(s@),
{
    for c in it: s.chars()
        invariant
            it.seq() == s@,
            forall|i: int| 0 <= i < it.index() ==> !is_space(#[trigger] s@[i]),
    {
        if space(c) {
            assert(is_space(s@[it.index() as int]));
            return true;
        }
    }
    false
}

/// The identity that a line gives.
pub fn identity_trailer_value(line: &str) -> (r: Option<String>)
    ensures
        maybe(r) == trailer_value(line@),
{
    let start = IDENTITY_TRAILER.to_owned().concat(":");
    match strip_prefix(line, start.as_str()) {
        None => None,
        Some(rest) => {
            let value = trimmed(rest.as_str());
            if value.as_str().unicode_len() > 0 && !any_space(value.as_str()) {
                Some(value)
            } else {
                None
            }
        },
    }
}

/// What a message's identity is.
pub open spec fn identity_result(r: Result<Option<String>, String>) -> Result<Option<Text>, Text> {
    match r {
        Ok(value) => Ok(maybe(value)),
        Err(error) => Err(error@),
    }
}

/// The identity that a message gives. More than one is an error.
pub fn identity_from_message(message: &str) -> (r: Result<Option<String>, String>)
    ensures
        identity_result(r) == identity(message@),
{
    let all = lines(message);
    let ghost ls = lines_of(message@);
    let mut found: Vec<String> = Vec::new();
    let mut i: usize = 0;
    assert(ls.take(0) =~= Seq::<Text>::empty());
    assert(texts(found@) =~= Seq::<Text>::empty());
    while i < all.len()
        invariant
            i <= all.len(),
            texts(all@) == ls,
            texts(found@) == trailer_values(ls.take(i as int)),
        decreases all.len() - i,
    {
        assert(ls.take(i + 1).drop_last() =~= ls.take(i as int));
        assert(ls[i as int] == all@[i as int]@);
        match identity_trailer_value(all[i].as_str()) {
            Some(value) => {
                let ghost was = texts(found@);
                found.push(value);
                assert(texts(found@) =~= was.push(value@));
            },
            None => {},
        }
        i = i + 1;
    }
    assert(ls.take(ls.len() as int) =~= ls);
    if found.len() > 1 {
        Err(
            "multiple ".to_owned().concat(IDENTITY_TRAILER).concat(" trailers in one commit"),
        )
    } else if found.len() == 1 {
        let value = found[0].clone();
        assert(texts(found@)[0] == value@);
        Ok(Some(value))
    } else {
        Ok(None)
    }
}

/// The text of a result.
pub open spec fn message_result(r: Result<String, String>) -> Result<Text, Text> {
    match r {
        Ok(s) => Ok(s@),
        Err(error) => Err(error@),
    }
}

/// The message with an identity; one that has an identity is left as it is.
pub fn add_identity(message: &str, branch: &str) -> (r: Result<String, String>)
    ensures
        message_result(r) == tagged(message@, branch@),
{
    match identity_from_message(message) {
        Err(error) => Err(error),
        Ok(Some(_)) => Ok(message.to_owned()),
        Ok(None) => Ok(
            trimmed_end(message).concat("\n\n").concat(IDENTITY_TRAILER).concat(": ").concat(
                branch,
            ).concat("\n"),
        ),
    }
}

/// A piece without its line feed.
pub open spec fn without_feed(piece: Text) -> Text {
    if piece.len() > 0 && piece.last() == '\n' {
        piece.drop_last()
    } else {
        piece
    }
}

/// A piece of a body; of one that gives an identity only the line feed is left.
pub open spec fn stripped(piece: Text) -> Text {
    if trailer_value(without_feed(piece)) is None {
        piece
    } else if piece.len() > 0 && piece.last() == '\n' {
        "\n"@
    } else {
        Seq::empty()
    }
}

/// The stripped pieces, one after the other.
pub open spec fn strip_all(parts: Seq<Text>) -> Text
    decreases parts.len(),
{
    if parts.len() == 0 {
        Seq::empty()
    } else {
        strip_all(parts.drop_last()) + stripped(parts.last())
    }
}

/// The body without the lines that give an identity and without the white space
/// at its end.
pub open spec fn untagged(body: Text) -> Text {
    trim_end(strip_all(pieces(body)))
}

/// The body without the lines that give an identity.
pub fn body_without_identity(body: &str) -> (r: String)
    ensures
        r@ == untagged(body@),
{
    let parts = split_inclusive(body);
    let ghost ps = pieces(body@);
    let mut rest = String::new();
    let mut i: usize = 0;
    assert(ps.take(0) =~= Seq::<Text>::empty());
    assert(rest@ =~= Seq::<char>::empty());
    while i < parts.len()
        invariant
            i <= parts.len(),
            texts(parts@) == ps,
            rest@ == strip_all(ps.take(i as int)),
        decreases parts.len() - i,
    {
        assert(ps.take(i + 1).drop_last() =~= ps.take(i as int));
        assert(ps[i as int] == parts@[i as int]@);
        let piece = parts[i].as_str();
        let v = crate::text::chars_of(piece);
        let n = v.len();
        let fed = n > 0 && v[n - 1] == '\n';
        let line = if fed {
            crate::text::string_of(&v, 0, n - 1)
        } else {
            parts[i].clone()
        };
        assert(line@ =~= without_feed(piece@));
        if identity_trailer_value(line.as_str()).is_some() {
            if fed {
                rest.append("\n");
            } else {
                assert(rest@ + Seq::<char>::empty() =~= rest@);
            }
        } else {
            rest.append(piece);
        }
        i = i + 1;
    }
    assert(ps.take(ps.len() as int) =~= ps);
    trimmed_end(rest.as_str())
}

proof fn lemma_trailer_start()
    ensures
        trailer_start().len() == 10,
        trailer_start().last() == ':',
        !trailer_start().contains('\n'),
{
    reveal_strlit("fs-branch");
    reveal_strlit(":");
    assert forall|i: int| 0 <= i < trailer_start().len() implies trailer_start()[i] != '\n' by {}
}

/// White space at the end of a line does not change the identity that it gives.
proof fn lemma_trailer_space(line: Text, c: char)
    requires
        is_space(c),
    ensures
        trailer_value(line.push(c)) == trailer_value(line),
{
    lemma_trailer_start();
    let start = trailer_start();
    let longer = line.push(c);
    if start.is_prefix_of(line) {
        assert(longer.subrange(0, start.len() as int) =~= line.subrange(0, start.len() as int));
        let rest = line.skip(start.len() as int);
        assert(longer.skip(start.len() as int) =~= rest.push(c));
        assert(rest.push(c).drop_last() =~= rest);
    } else if start.is_prefix_of(longer) {
        if start.len() <= line.len() {
            assert(longer.subrange(0, start.len() as int) =~= line.subrange(0, start.len() as int));
        } else {
            assert(longer.subrange(0, start.len() as int) =~= longer);
            assert(longer.last() == c);
        }
    }
}

/// Short lines give no identity.
proof fn lemma_trailer_short(line: Text)
    requires
        line.len() < 10,
    ensures
        trailer_value(line) is None,
{
    lemma_trailer_start();
}

/// The identity of a piece is that of its line.
proof fn lemma_content(piece: Text)
    ensures
        trailer_value(content(piece)) == trailer_value(without_feed(piece)),
{
    if piece.len() > 0 && piece.last() == '\n' {
        let line = piece.drop_last();
        if line.len() > 0 && line.last() == '\r' {
            assert(line =~= line.drop_last().push('\r'));
            lemma_trailer_space(line.drop_last(), '\r');
        }
    }
}

/// White space at the end of a message does not change its identities.
proof fn lemma_identities_space(message: Text)
    requires
        message.len() > 0,
        is_space(message.last()),
    ensures
        identities(message) == identities(message.drop_last()),
{
    let init = message.drop_last();
    let c = message.last();
    let done = pieces(init);
    let now = pieces(message);
    lemma_pieces_nonempty(init);
    if done.len() == 0 || done.last().last() == '\n' {
        assert(now == done.push(seq![c]));
        assert(lines_of(message) =~= lines_of(init).push(content(seq![c])));
        assert(content(seq![c]).len() <= 1);
        lemma_trailer_short(content(seq![c]));
        assert(lines_of(message).drop_last() =~= lines_of(init));
    } else {
        let p = done.last();
        assert(now == done.drop_last().push(p.push(c)));
        let head = lines_of(init).drop_last();
        assert(lines_of(message).drop_last() =~= head);
        assert(lines_of(message).last() == content(p.push(c)));
        assert(lines_of(init).last() == content(p));
        lemma_content(p);
        lemma_content(p.push(c));
        if c == '\n' {
            assert(p.push(c).drop_last() =~= p);
        } else {
            lemma_trailer_space(p, c);
        }
    }
}

pub proof fn lemma_identities_trimmed(message: Text)
    ensures
        identities(trim_end(message)) == identities(message),
    decreases message.len(),
{
    if message.len() > 0 && is_space(message.last()) {
        lemma_identities_space(message);
        lemma_identities_trimmed(message.drop_last());
    }
}

proof fn lemma_trailer_values_append(a: Seq<Text>, b: Seq<Text>)
    ensures
        trailer_values(a + b) == trailer_values(a) + trailer_values(b),
    decreases b.len(),
{
    if b.len() == 0 {
        assert(a + b =~= a);
        assert(trailer_values(a) + trailer_values(b) =~= trailer_values(a));
    } else {
        lemma_trailer_values_append(a, b.drop_last());
        assert((a + b).drop_last() =~= a + b.drop_last());
        assert(trailer_values(a + b) =~= trailer_values(a) + trailer_values(b));
    }
}

/// The identities of a message that is cut behind a line feed.
proof fn lemma_identities_append(a: Text, b: Text)
    requires
        a.len() > 0 ==> a.last() == '\n',
    ensures
        identities(a + b) == identities(a) + identities(b),
{
    lemma_pieces_append(a, b);
    assert(lines_of(a + b) =~= lines_of(a) + lines_of(b));
    lemma_trailer_values_append(lines_of(a), lines_of(b));
}

/// The line that `add_identity` appends gives its identity.
pub proof fn lemma_appended_line(branch: Text)
    requires
        branch.len() > 0,
        !has_space(branch),
    ensures
        identities(IDENTITY_TRAILER@ + ": "@ + branch + "\n"@) == seq![branch],
        pieces(IDENTITY_TRAILER@ + ": "@ + branch + "\n"@) == seq![
            IDENTITY_TRAILER@ + ": "@ + branch + "\n"@,
        ],
        stripped(IDENTITY_TRAILER@ + ": "@ + branch + "\n"@) == "\n"@,
{
    reveal_strlit("fs-branch");
    reveal_strlit(":");
    reveal_strlit(": ");
    reveal_strlit("\n");
    let line = IDENTITY_TRAILER@ + ": "@ + branch;
    let whole = line + "\n"@;
    assert(whole =~= line.push('\n'));
    assert(whole.drop_last() =~= line);
    assert forall|i: int| 0 <= i < line.len() implies line[i] != '\n' by {
        if i >= 11 {
            assert(line[i] == branch[i - 11]);
            assert(!is_space(branch[i - 11]));
        }
    }
    lemma_pieces_one(whole);
    assert(line.last() == branch.last());
    assert(!is_space(branch.last()));
    assert(content(whole) == line);
    assert(lines_of(whole) =~= seq![line]);
    lemma_trailer_start();
    let start = trailer_start();
    assert(line.subrange(0, 10) =~= start);
    let rest = line.skip(10);
    assert(rest =~= seq![' '] + branch);
    assert(rest.drop_first() =~= branch);
    assert(rest.last() == branch.last());
    assert(trim_end(rest) == rest);
    assert(!is_space(branch[0]));
    assert(trim_start(branch) == branch);
    assert(trim(rest) == branch);
    assert(trailer_value(line) == Some(branch));
    assert(seq![line].drop_last() =~= Seq::<Text>::empty());
    assert(trailer_values(seq![line].drop_last()) =~= Seq::<Text>::empty());
    assert(trailer_values(seq![line]) =~= seq![branch]);
}

/// A message that had no identity gives the one that was added to it.
pub proof fn law_added_identity_is_found(message: Text, branch: Text)
    requires
        identity(message) == Ok::<Option<Text>, Text>(None),
        branch.len() > 0,
        !has_space(branch),
    ensures
        tagged(message, branch) is Ok,
        identity(tagged(message, branch)->Ok_0) == Ok::<Option<Text>, Text>(Some(branch)),
{
    reveal_strlit("\n\n");
    let kept = trim_end(message);
    let one = kept.push('\n');
    let two = one.push('\n');
    let line = IDENTITY_TRAILER@ + ": "@ + branch + "\n"@;
    let whole = tagged(message, branch)->Ok_0;
    assert(kept + "\n\n"@ =~= two);
    assert(whole =~= two + line);
    lemma_identities_append(two, line);
    assert(two.drop_last() =~= one);
    assert(one.drop_last() =~= kept);
    lemma_identities_space(two);
    lemma_identities_space(one);
    lemma_identities_trimmed(message);
    lemma_appended_line(branch);
    assert(identities(message) =~= Seq::<Text>::empty());
    assert(identities(whole) =~= seq![branch]);
}

/// Adding an identity to a message that has one changes nothing; so does adding
/// one a second time.
pub proof fn law_identity_added_once(message: Text, branch: Text, other: Text)
    requires
        identity(message) is Ok,
        branch.len() > 0,
        !has_space(branch),
    ensures
        tagged(tagged(message, branch)->Ok_0, other) == tagged(message, branch),
{
    if identity(message) == Ok::<Option<Text>, Text>(None) {
        law_added_identity_is_found(message, branch);
    }
}

/// What `strip_all` leaves of whole lines is empty or ends with a line feed.
proof fn lemma_strip_ends(parts: Seq<Text>)
    requires
        forall|i: int| 0 <= i < parts.len() ==> (#[trigger] parts[i]).len() > 0 && parts[i].last()
            == '\n',
    ensures
        strip_all(parts).len() > 0 ==> strip_all(parts).last() == '\n',
    decreases parts.len(),
{
    reveal_strlit("\n");
    if parts.len() > 0 {
        let p = parts.last();
        assert(p == parts[parts.len() - 1]);
        assert(stripped(p).last() == '\n');
        assert(strip_all(parts).last() == stripped(p).last());
    }
}

proof fn lemma_strip_all(parts: Seq<Text>)
    requires
        forall|i: int|
            0 <= i < parts.len() ==> (#[trigger] parts[i]).len() > 0
                && !parts[i].drop_last().contains('\n'),
        forall|i: int| 0 <= i < parts.len() - 1 ==> (#[trigger] parts[i]).last() == '\n',
    ensures
        identities(strip_all(parts)).len() == 0,
    decreases parts.len(),
{
    reveal_strlit("\n");
    if parts.len() == 0 {
        assert(lines_of(strip_all(parts)) =~= Seq::<Text>::empty());
    } else {
        let init = parts.drop_last();
        let p = parts.last();
        assert(p == parts[parts.len() - 1]);
        assert forall|i: int| 0 <= i < init.len() implies (#[trigger] init[i]).len() > 0
            && !init[i].drop_last().contains('\n') && init[i].last() == '\n' by {
            assert(init[i] == parts[i]);
        }
        lemma_strip_all(init);
        lemma_strip_ends(init);
        lemma_identities_append(strip_all(init), stripped(p));
        let left = stripped(p);
        if left.len() == 0 {
            assert(lines_of(left) =~= Seq::<Text>::empty());
        } else {
            assert(left == "\n"@ ==> left.drop_last() =~= Seq::<char>::empty());
            lemma_pieces_one(left);
            assert(lines_of(left) =~= seq![content(left)]);
            assert(seq![content(left)].drop_last() =~= Seq::<Text>::empty());
            lemma_content(left);
            if trailer_value(without_feed(p)) is Some {
                assert(without_feed(left).len() == 0);
                lemma_trailer_short(without_feed(left));
            }
            assert(trailer_value(content(left)) is None);
            assert(seq![content(left)].last() == content(left));
            assert(trailer_values(seq![content(left)]) == trailer_values(Seq::<Text>::empty()));
            assert(trailer_values(Seq::<Text>::empty()).len() == 0);
        }
    }
}

/// A body without its identity gives none.
pub proof fn law_untagged_body_gives_no_identity(body: Text)
    ensures
        identity(untagged(body)) == Ok::<Option<Text>, Text>(None),
{
    crate::split::lemma_pieces_shape(body);
    lemma_strip_all(pieces(body));
    lemma_identities_trimmed(strip_all(pieces(body)));
}

/// The pieces of a text that gives no identities are left as they are.
proof fn lemma_strip_nothing(s: Text)
    requires
        identities(s).len() == 0,
    ensures
        strip_all(pieces(s)) == s,
    decreases s.len(),
{
    if s.len() == 0 {
        assert(strip_all(pieces(s)) =~= s);
    } else {
        lemma_no_trailer(lines_of(s));
        crate::split::lemma_pieces_shape(s);
        assert forall|i: int| 0 <= i < pieces(s).len() implies trailer_value(
            content(#[trigger] pieces(s)[i]),
        ) is None by {
            assert(lines_of(s)[i] == content(pieces(s)[i]));
        }
        lemma_kept(pieces(s));
        lemma_chain_pieces(s);
    }
}

proof fn lemma_no_trailer(ls: Seq<Text>)
    requires
        trailer_values(ls).len() == 0,
    ensures
        forall|i: int| 0 <= i < ls.len() ==> trailer_value(#[trigger] ls[i]) is None,
    decreases ls.len(),
{
    if ls.len() > 0 {
        lemma_no_trailer(ls.drop_last());
        assert forall|i: int| 0 <= i < ls.len() implies trailer_value(#[trigger] ls[i]) is None by {
            if i < ls.len() - 1 {
                assert(ls.drop_last()[i] == ls[i]);
            }
        }
    }
}

proof fn lemma_kept(parts: Seq<Text>)
    requires
        forall|i: int| 0 <= i < parts.len() ==> trailer_value(content(#[trigger] parts[i])) is None,
    ensures
        strip_all(parts) == chain(parts),
    decreases parts.len(),
{
    if parts.len() > 0 {
        assert forall|i: int| 0 <= i < parts.drop_last().len() implies trailer_value(
            content(#[trigger] parts.drop_last()[i]),
        ) is None by {
            assert(parts[i] == parts.drop_last()[i]);
        }
        lemma_kept(parts.drop_last());
        lemma_content(parts.last());
        assert(trailer_value(content(parts[parts.len() - 1])) is None);
    }
}

/// Of a body that gives no identity only the white space at the end is dropped.
pub proof fn law_body_without_identity_is_kept(body: Text)
    requires
        identity(body) == Ok::<Option<Text>, Text>(None),
    ensures
        untagged(body) == trim_end(body),
{
    lemma_strip_nothing(body);
}

/// Of a message that was given an identity what is left without it is the message, but
/// for the white space at its end.
pub proof fn law_identity_is_taken_out_again(message: Text, branch: Text)
    requires
        identity(message) == Ok::<Option<Text>, Text>(None),
        branch.len() > 0,
        !has_space(branch),
    ensures
        tagged(message, branch) is Ok,
        untagged(tagged(message, branch)->Ok_0) == trim_end(message),
{
    reveal_strlit("\n\n");
    reveal_strlit("\n");
    let kept = trim_end(message);
    let one = kept.push('\n');
    let two = one.push('\n');
    let line = IDENTITY_TRAILER@ + ": "@ + branch + "\n"@;
    let whole = tagged(message, branch)->Ok_0;
    assert(kept + "\n\n"@ =~= two);
    assert(whole =~= two + line);
    assert(two.drop_last() =~= one);
    assert(one.drop_last() =~= kept);
    lemma_identities_space(two);
    lemma_identities_space(one);
    lemma_identities_trimmed(message);
    lemma_strip_nothing(two);
    lemma_appended_line(branch);
    lemma_pieces_append(two, line);
    assert(pieces(whole) =~= pieces(two).push(line));
    assert(pieces(whole).drop_last() =~= pieces(two));
    let left = strip_all(pieces(whole));
    assert(left =~= two.push('\n'));
    assert(left.drop_last() =~= two);
    reveal_with_fuel(trim_end, 4);
    lemma_trimmed_end(message);
}

/// Nothing is left to trim behind what is trimmed.
proof fn lemma_trimmed_end(s: Text)
    ensures
        trim_end(trim_end(s)) == trim_end(s),
    decreases s.len(),
{
    if s.len() > 0 && is_space(s.last()) {
        lemma_trimmed_end(s.drop_last());
    }
}

} // verus!
