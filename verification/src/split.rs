//! Cutting text at separators, line ends and white space, and joining it again.

use crate::text::{is_space, space, texts, Text};
use vstd::prelude::*;

verus! {

/// The parts of `s` between the occurrences of `sep`: one more than there are
/// occurrences.
pub open spec fn split_on(s: Text, sep: char) -> Seq<Text>
    decreases s.len(),
{
    if s.len() == 0 {
        seq![Seq::<char>::empty()]
    } else {
        let parts = split_on(s.drop_last(), sep);
        if s.last() == sep {
            parts.push(Seq::<char>::empty())
        } else {
            parts.drop_last().push(parts.last().push(s.last()))
        }
    }
}

/// Computes `split_on`.
pub fn split(s: &str, sep: char) -> (r: Vec<String>)
    ensures
        texts(r@) == split_on(s@, sep),
{
    let mut parts: Vec<String> = Vec::new();
    let mut part = String::new();
    assert(s@.take(0) =~= Seq::<char>::empty());
    assert(texts(parts@).push(part@) =~= split_on(s@.take(0), sep));
    for c in it: s.chars()
        invariant
            it.seq() == s@,
            texts(parts@).push(part@) == split_on(s@.take(it.index() as int), sep),
    {
        let ghost n = it.index() as int;
        let ghost done = texts(parts@).push(part@);
        proof {
            assert(s@.take(n + 1).drop_last() =~= s@.take(n));
            assert(done.drop_last() =~= texts(parts@));
        }
        if c == sep {
            parts.push(part);
            part = String::new();
            assert(texts(parts@) =~= done);
            assert(part@ =~= Seq::<char>::empty());
        } else {
            part.push(c);
        }
    }
    let ghost done = texts(parts@).push(part@);
    parts.push(part);
    assert(texts(parts@) =~= done);
    assert(s@.take(s@.len() as int) =~= s@);
    parts
}

/// The pieces of `s` that end at its line feeds, each with its line feed; the
/// last piece may lack one.
pub open spec fn pieces(s: Text) -> Seq<Text>
    decreases s.len(),
{
    if s.len() == 0 {
        Seq::empty()
    } else {
        let done = pieces(s.drop_last());
        if done.len() == 0 || done.last().last() == '\n' {
            done.push(seq![s.last()])
        } else {
            done.drop_last().push(done.last().push(s.last()))
        }
    }
}

/// Every piece holds at least one character.
pub proof fn lemma_pieces_nonempty(s: Text)
    ensures
        forall|i: int| 0 <= i < pieces(s).len() ==> (#[trigger] pieces(s)[i]).len() > 0,
        s.len() > 0 ==> pieces(s).len() > 0 && pieces(s).last().last() == s.last(),
    decreases s.len(),
{
    if s.len() > 0 {
        let done = pieces(s.drop_last());
        lemma_pieces_nonempty(s.drop_last());
        assert forall|i: int| 0 <= i < pieces(s).len() implies (#[trigger] pieces(s)[i]).len()
            > 0 by {
            if i < done.len() {
                assert(done[i].len() > 0);
            }
        }
    }
}

/// What follows a line feed is cut on its own.
pub proof fn lemma_pieces_append(a: Text, b: Text)
    requires
        a.len() > 0 ==> a.last() == '\n',
    ensures
        pieces(a + b) == pieces(a) + pieces(b),
    decreases b.len(),
{
    if b.len() == 0 {
        assert(a + b =~= a);
        assert(pieces(a) + pieces(b) =~= pieces(a));
    } else {
        let init = b.drop_last();
        lemma_pieces_append(a, init);
        assert((a + b).drop_last() =~= a + init);
        lemma_pieces_nonempty(a);
        lemma_pieces_nonempty(init);
        let left = pieces(a);
        let done = pieces(init);
        if done.len() > 0 {
            assert((left + done).last() == done.last());
            assert((left + done).drop_last() =~= left + done.drop_last());
        } else {
            assert(init.len() == 0);
            assert(left + done =~= left);
        }
        assert(pieces(a + b) =~= left + pieces(b));
    }
}

/// A line feed is the end of its piece, and every piece but the last ends with
/// one.
pub proof fn lemma_pieces_shape(s: Text)
    ensures
        forall|i: int|
            0 <= i < pieces(s).len() ==> (#[trigger] pieces(s)[i]).len() > 0 && !pieces(
                s,
            )[i].drop_last().contains('\n'),
        forall|i: int| 0 <= i < pieces(s).len() - 1 ==> (#[trigger] pieces(s)[i]).last() == '\n',
    decreases s.len(),
{
    if s.len() > 0 {
        let done = pieces(s.drop_last());
        let now = pieces(s);
        lemma_pieces_shape(s.drop_last());
        assert forall|i: int| 0 <= i < now.len() implies (#[trigger] now[i]).len() > 0
            && !now[i].drop_last().contains('\n') by {
            if done.len() == 0 || done.last().last() == '\n' {
                if i < done.len() {
                    assert(now[i] == done[i]);
                } else {
                    assert(now[i].drop_last() =~= Seq::<char>::empty());
                }
            } else if i < done.len() - 1 {
                assert(now[i] == done[i]);
            } else {
                let p = done.last();
                assert(now[i] == p.push(s.last()));
                assert(now[i].drop_last() =~= p);
                assert(p =~= p.drop_last().push(p.last()));
                vstd::seq_lib::lemma_seq_contains_after_push(p.drop_last(), p.last(), '\n');
            }
        }
        assert forall|i: int| 0 <= i < now.len() - 1 implies (#[trigger] now[i]).last() == '\n' by {
            assert(now[i] == done[i]);
        }
    }
}

/// A text without line feeds is one piece.
pub proof fn lemma_pieces_one(a: Text)
    requires
        a.len() > 0,
        !a.drop_last().contains('\n'),
    ensures
        pieces(a) == seq![a],
    decreases a.len(),
{
    let init = a.drop_last();
    if init.len() > 0 {
        assert(init.drop_last() =~= a.take(a.len() - 2));
        assert forall|i: int| 0 <= i < init.drop_last().len() implies init.drop_last()[i] != '\n' by {
            assert(init[i] == init.drop_last()[i]);
            assert(init.contains(init[i]));
        }
        lemma_pieces_one(init);
        assert(init.contains(init.last()));
        assert(seq![init].drop_last() =~= Seq::<Text>::empty());
        assert(init.push(a.last()) =~= a);
        assert(pieces(a) =~= seq![a]);
    } else {
        assert(pieces(init) =~= Seq::<Text>::empty());
        assert(seq![a.last()] =~= a);
        assert(pieces(a) =~= seq![a]);
    }
}

/// Computes `pieces`.
pub fn split_inclusive(s: &str) -> (r: Vec<String>)
    ensures
        texts(r@) == pieces(s@),
{
    let mut parts: Vec<String> = Vec::new();
    let mut part = String::new();
    let mut open = false;
    assert(s@.take(0) =~= Seq::<char>::empty());
    assert(texts(parts@) =~= Seq::<Text>::empty());
    for c in it: s.chars()
        invariant
            it.seq() == s@,
            open == (part@.len() > 0),
            open ==> part@.last() != '\n',
            pieces(s@.take(it.index() as int)) == if open {
                texts(parts@).push(part@)
            } else {
                texts(parts@)
            },
            !open ==> it.index() == 0 || s@[it.index() - 1] == '\n',
    {
        let ghost n = it.index() as int;
        let ghost done = texts(parts@).push(part@);
        proof {
            assert(s@.take(n + 1).drop_last() =~= s@.take(n));
            assert(done.drop_last() =~= texts(parts@));
            lemma_pieces_nonempty(s@.take(n));
            assert(Seq::<char>::empty().push(c) =~= seq![c]);
            assert(!open ==> part@ =~= Seq::<char>::empty());
        }
        part.push(c);
        if c == '\n' {
            let ghost before = texts(parts@);
            parts.push(part);
            assert(texts(parts@) =~= before.push(part@));
            part = String::new();
            open = false;
        } else {
            open = true;
        }
    }
    assert(s@.take(s@.len() as int) =~= s@);
    if open {
        let ghost before = texts(parts@);
        parts.push(part);
        assert(texts(parts@) =~= before.push(part@));
    }
    parts
}

/// A piece without its line end: a line feed, or a carriage return and a line
/// feed.
pub open spec fn content(piece: Text) -> Text {
    if piece.len() > 0 && piece.last() == '\n' {
        let line = piece.drop_last();
        if line.len() > 0 && line.last() == '\r' {
            line.drop_last()
        } else {
            line
        }
    } else {
        piece
    }
}

/// The lines of `s`, without their line ends.
pub open spec fn lines_of(s: Text) -> Seq<Text> {
    pieces(s).map_values(|p: Text| content(p))
}

/// Computes `content`.
fn line_content(piece: &str) -> (r: String)
    ensures
        r@ == content(piece@),
{
    let v = crate::text::chars_of(piece);
    let n = v.len();
    let mut end: usize = n;
    if n > 0 && v[n - 1] == '\n' {
        end = n - 1;
        if end > 0 && v[end - 1] == '\r' {
            end = end - 1;
        }
    }
    let r = crate::text::string_of(&v, 0, end);
    assert(r@ =~= content(piece@));
    r
}

/// Computes `lines_of`.
pub fn lines(s: &str) -> (r: Vec<String>)
    ensures
        texts(r@) == lines_of(s@),
{
    let parts = split_inclusive(s);
    let mut r: Vec<String> = Vec::new();
    let mut i: usize = 0;
    while i < parts.len()
        invariant
            i <= parts.len(),
            i == r.len(),
            texts(parts@) == pieces(s@),
            forall|j: int| 0 <= j < i ==> (#[trigger] r@[j])@ == content(pieces(s@)[j]),
        decreases parts.len() - i,
    {
        assert(texts(parts@)[i as int] == parts@[i as int]@);
        r.push(line_content(parts[i].as_str()));
        i = i + 1;
    }
    assert(texts(r@) =~= lines_of(s@));
    r
}

/// The maximal runs of characters of `s` that are not white space.
pub open spec fn words_of(s: Text) -> Seq<Text>
    decreases s.len(),
{
    if s.len() == 0 {
        Seq::empty()
    } else {
        let done = words_of(s.drop_last());
        if is_space(s.last()) {
            done
        } else if s.len() >= 2 && !is_space(s[s.len() - 2]) {
            done.drop_last().push(done.last().push(s.last()))
        } else {
            done.push(seq![s.last()])
        }
    }
}

/// Computes `words_of`.
pub fn words(s: &str) -> (r: Vec<String>)
    ensures
        texts(r@) == words_of(s@),
{
    let mut done: Vec<String> = Vec::new();
    let mut word = String::new();
    let mut open = false;
    assert(s@.take(0) =~= Seq::<char>::empty());
    assert(texts(done@) =~= Seq::<Text>::empty());
    for c in it: s.chars()
        invariant
            it.seq() == s@,
            open == (it.index() > 0 && !is_space(s@[it.index() - 1])),
            !open ==> word@.len() == 0,
            words_of(s@.take(it.index() as int)) == if open {
                texts(done@).push(word@)
            } else {
                texts(done@)
            },
    {
        let ghost n = it.index() as int;
        proof {
            assert(s@.take(n + 1).drop_last() =~= s@.take(n));
            assert(texts(done@).push(word@).drop_last() =~= texts(done@));
            assert(Seq::<char>::empty().push(c) =~= seq![c]);
            assert(!open ==> word@ =~= Seq::<char>::empty());
        }
        if space(c) {
            if open {
                let ghost before = texts(done@);
                done.push(word);
                assert(texts(done@) =~= before.push(word@));
                word = String::new();
                open = false;
            }
        } else {
            word.push(c);
            open = true;
        }
    }
    assert(s@.take(s@.len() as int) =~= s@);
    if open {
        let ghost before = texts(done@);
        done.push(word);
        assert(texts(done@) =~= before.push(word@));
    }
    done
}

/// The parts put one after the other, with `sep` between neighbours.
pub open spec fn joined(parts: Seq<Text>, sep: Text) -> Text
    decreases parts.len(),
{
    if parts.len() == 0 {
        Seq::empty()
    } else if parts.len() == 1 {
        parts[0]
    } else {
        joined(parts.drop_last(), sep) + sep + parts.last()
    }
}

/// Computes `joined`.
pub fn join(parts: &Vec<String>, sep: &str) -> (r: String)
    ensures
        r@ == joined(texts(parts@), sep@),
{
    let mut r = String::new();
    let mut i: usize = 0;
    let ghost all = texts(parts@);
    assert(all.take(0) =~= Seq::<Text>::empty());
    while i < parts.len()
        invariant
            i <= parts.len(),
            all == texts(parts@),
            r@ == joined(all.take(i as int), sep@),
        decreases parts.len() - i,
    {
        assert(all.take(i + 1).drop_last() =~= all.take(i as int));
        assert(all.take(i + 1).last() == parts@[i as int]@);
        if i > 0 {
            r.append(sep);
            r.append(parts[i].as_str());
        } else {
            r.append(parts[i].as_str());
            assert(r@ =~= parts@[0]@);
        }
        i = i + 1;
    }
    assert(all.take(all.len() as int) =~= all);
    r
}

/// The pieces one after the other.
pub open spec fn chain(parts: Seq<Text>) -> Text
    decreases parts.len(),
{
    if parts.len() == 0 {
        Seq::empty()
    } else {
        chain(parts.drop_last()) + parts.last()
    }
}

/// The pieces of a text make it up.
pub proof fn lemma_chain_pieces(s: Text)
    ensures
        chain(pieces(s)) == s,
    decreases s.len(),
{
    if s.len() == 0 {
        assert(chain(pieces(s)) =~= s);
    } else {
        let done = pieces(s.drop_last());
        lemma_chain_pieces(s.drop_last());
        assert(s =~= s.drop_last().push(s.last()));
        if done.len() == 0 || done.last().last() == '\n' {
            assert(pieces(s).drop_last() =~= done);
            assert(chain(pieces(s)) =~= s);
        } else {
            assert(pieces(s).drop_last() =~= done.drop_last());
            assert(chain(pieces(s)) =~= s);
        }
    }
}

/// Puts strings one after the other.
pub fn concat_all(parts: &Vec<String>) -> (r: String)
    ensures
        r@ == chain(texts(parts@)),
{
    let ghost all = texts(parts@);
    let mut r = String::new();
    let mut i: usize = 0;
    assert(all.take(0) =~= Seq::<Text>::empty());
    assert(r@ =~= Seq::<char>::empty());
    while i < parts.len()
        invariant
            i <= parts.len(),
            all == texts(parts@),
            r@ == chain(all.take(i as int)),
        decreases parts.len() - i,
    {
        assert(all.take(i + 1).drop_last() =~= all.take(i as int));
        assert(all.take(i + 1).last() == parts@[i as int]@);
        r.append(parts[i].as_str());
        i = i + 1;
    }
    assert(all.take(all.len() as int) =~= all);
    r
}

} // verus!
