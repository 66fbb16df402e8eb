//! What holds of the parts of texts.

use crate::split::{joined, lines_of, split_on, words_of};
use crate::text::{is_space, trim, trim_end, trim_start, Text};
use crate::ui::log_laws::{is_word, lemma_split_joined, lemma_words_joined};
use crate::ui::todo_laws::lemma_lines_joined;
use vstd::prelude::*;

verus! {

/// A text of white space.
pub open spec fn is_blank(s: Text) -> bool {
    forall|i: int| 0 <= i < s.len() ==> is_space(#[trigger] s[i])
}

/// White space is taken off the end of a text, all of it and nothing else.
pub proof fn law_ends_are_trimmed(s: Text)
    ensures
        trim_end(s).is_prefix_of(s),
        is_blank(s.skip(trim_end(s).len() as int)),
        trim_end(s).len() > 0 ==> !is_space(trim_end(s).last()),
    decreases s.len(),
{
    if s.len() > 0 && is_space(s.last()) {
        let init = s.drop_last();
        law_ends_are_trimmed(init);
        let kept = trim_end(s);
        let n = kept.len() as int;
        assert(s.subrange(0, n) =~= init.subrange(0, n));
        assert forall|i: int| 0 <= i < s.skip(n).len() implies is_space(#[trigger] s.skip(n)[i]) by {
            if i < init.skip(n).len() {
                assert(s.skip(n)[i] == init.skip(n)[i]);
            } else {
                assert(s.skip(n)[i] == s.last());
            }
        }
    } else {
        assert(trim_end(s) == s);
        assert(s.subrange(0, s.len() as int) =~= s);
    }
}

/// White space is taken off the start of a text, all of it and nothing else.
pub proof fn law_starts_are_trimmed(s: Text)
    ensures
        trim_start(s).is_suffix_of(s),
        is_blank(s.take(s.len() - trim_start(s).len())),
        trim_start(s).len() > 0 ==> !is_space(trim_start(s)[0]),
    decreases s.len(),
{
    if s.len() > 0 && is_space(s[0]) {
        let rest = s.drop_first();
        law_starts_are_trimmed(rest);
        let kept = trim_start(s);
        let n = kept.len() as int;
        assert(s.subrange(s.len() - n, s.len() as int) =~= rest.subrange(
            rest.len() - n,
            rest.len() as int,
        ));
        let gone = s.take(s.len() - n);
        assert forall|i: int| 0 <= i < gone.len() implies is_space(#[trigger] gone[i]) by {
            if i > 0 {
                assert(gone[i] == rest.take(rest.len() - n)[i - 1]);
            } else {
                assert(gone[i] == s[0]);
            }
        }
    } else {
        assert(trim_start(s) == s);
        assert(s.subrange(0, s.len() as int) =~= s);
    }
}

/// A text without white space at its ends stays as it is when it is trimmed, with white
/// space behind it too.
pub proof fn law_trimming_undoes_padding(s: Text, end: Text)
    requires
        s.len() > 0,
        !is_space(s[0]),
        !is_space(s.last()),
        is_blank(end),
    ensures
        trim_end(s + end) == s,
        trim(s + end) == s,
        trim(s) == s,
    decreases end.len(),
{
    if end.len() > 0 {
        let init = end.drop_last();
        assert forall|i: int| 0 <= i < init.len() implies is_space(#[trigger] init[i]) by {
            assert(init[i] == end[i]);
        }
        law_trimming_undoes_padding(s, init);
        assert((s + end).drop_last() =~= s + init);
        assert((s + end).last() == end[end.len() - 1]);
        assert(trim_end(s + end) == trim_end(s + init));
        assert((s + end)[0] == s[0]);
        assert((s + init)[0] == s[0]);
    } else {
        assert(s + end =~= s);
    }
}

/// Lines that are put together, each with the end of a line behind it, are read back.
pub proof fn law_lines_are_read_back(lines: Seq<Text>)
    requires
        lines.len() > 0,
        forall|i: int|
            0 <= i < lines.len() ==> !(#[trigger] lines[i]).contains('\n') && !lines[i].contains(
                '\r',
            ),
    ensures
        lines_of(joined(lines, "\n"@) + "\n"@) == lines,
{
    lemma_lines_joined(lines);
}

/// Words that are put together with spaces between them are read back.
pub proof fn law_words_are_read_back(words: Seq<Text>)
    requires
        forall|i: int| 0 <= i < words.len() ==> is_word(#[trigger] words[i]),
    ensures
        words_of(joined(words, " "@)) == words,
{
    lemma_words_joined(words);
}

/// The parts of a text make it up again.
pub proof fn law_parts_make_the_text(s: Text, sep: char)
    ensures
        joined(split_on(s, sep), seq![sep]) == s,
{
    lemma_split_joined(s, sep);
}

} // verus!
