//! What branches, commits and identities can be named.

use crate::split::{lines_of, split_on};
use crate::stack::identity::{identities, identity, trailer_value, trailer_values};
use crate::stack::names::{is_branch_name, is_component, is_forbidden};
use crate::stack::object::object_id;
use crate::stack::plan_laws::{lemma_split_more, lemma_split_some};
use crate::text::{byte_len, occurs, stands_at, Text};
use crate::ui::log_laws::lemma_split_behind;
use vstd::prelude::*;

verus! {

proof fn lemma_occurs(a: Text, pattern: Text, b: Text)
    ensures
        occurs(a + pattern + b, pattern),
{
    let s = a + pattern + b;
    let i = a.len() as int;
    assert(s.subrange(i, i + pattern.len()) =~= pattern);
    assert(stands_at(s, pattern, i));
}

/// No branch has an empty name, or one that begins with a dash or a slash, ends with a slash
/// or a dot, or holds two dots, two slashes or an opening brace behind an at sign.
pub proof fn law_misplaced_signs_name_no_branch(a: Text, b: Text)
    ensures
        !is_branch_name(Seq::empty()),
        !is_branch_name("-"@ + a),
        !is_branch_name("/"@ + a),
        !is_branch_name(a + "/"@),
        !is_branch_name(a + "."@),
        !is_branch_name(a + ".."@ + b),
        !is_branch_name(a + "//"@ + b),
        !is_branch_name(a + "@{"@ + b),
{
    reveal_strlit("-");
    reveal_strlit("/");
    reveal_strlit(".");
    lemma_occurs(a, ".."@, b);
    lemma_occurs(a, "//"@, b);
    lemma_occurs(a, "@{"@, b);
    assert(("-"@ + a)[0] == '-');
    assert(("/"@ + a)[0] == '/');
    assert((a + "/"@).last() == '/');
    assert((a + "."@).last() == '.');
}

/// No branch name holds a space, a sign that Git keeps for itself, or a control character.
pub proof fn law_forbidden_signs_name_no_branch(a: Text, c: char, b: Text)
    requires
        c == ' ' || c == '~' || c == '^' || c == ':' || c == '?' || c == '*' || c == '[' || c
            == '\\' || (c as u32) < 32 || c as u32 == 127,
    ensures
        !is_branch_name(a + seq![c] + b),
{
    let s = a + seq![c] + b;
    assert(s[a.len() as int] == c);
    assert(is_forbidden(s[a.len() as int]));
}

/// No part of a branch name between slashes begins with a dot or ends with `.lock`.
pub proof fn law_hidden_and_locked_names_name_no_branch(a: Text, b: Text)
    requires
        !b.contains('/'),
    ensures
        !is_branch_name("."@ + a),
        !is_branch_name(a + "/"@ + ("."@ + b)),
        !is_branch_name(a + ".lock"@),
        !is_branch_name(a + ".lock"@ + "/"@ + b),
{
    reveal_strlit("/");
    reveal_strlit(".");
    assert("/"@ =~= seq!['/']);
    let none: Text = Seq::empty();
    lemma_first_component(none, "."@ + a);
    assert(none + ("."@ + a) =~= "."@ + a);
    lemma_first_component(a + "/"@, "."@ + b);
    assert(a + "/"@ + ("."@ + b) =~= a + seq!['/'] + ("."@ + b));
    lemma_last_component(a + ".lock"@);
    lemma_last_component_before(a + ".lock"@, b);
}

proof fn lemma_first_component(front: Text, rest: Text)
    requires
        front.len() == 0 || front.last() == '/',
        rest.len() > 0,
        rest[0] == '.',
    ensures
        !is_branch_name(front + rest),
{
    reveal_strlit(".");
    let parts = split_on(rest, '/');
    lemma_split_some(rest, '/');
    lemma_first_part(rest);
    assert(parts[0].len() > 0 && parts[0][0] == '.');
    assert("."@.is_prefix_of(parts[0])) by {
        assert(parts[0].subrange(0, 1) =~= "."@);
    }
    assert(!is_component(parts[0]));
    if front.len() > 0 {
        let a = front.drop_last();
        lemma_split_behind(a, rest, '/');
        assert(a + seq!['/'] + rest =~= front + rest);
        let all = split_on(front + rest, '/');
        assert(all[split_on(a, '/').len() as int] == parts[0]);
    } else {
        assert(front + rest =~= rest);
    }
}

proof fn lemma_first_part(s: Text)
    requires
        s.len() > 0,
        s[0] != '/',
    ensures
        split_on(s, '/').len() > 0,
        split_on(s, '/')[0].len() > 0,
        split_on(s, '/')[0][0] == s[0],
    decreases s.len(),
{
    reveal_with_fuel(split_on, 2);
    let init = s.drop_last();
    if init.len() > 0 {
        lemma_first_part(init);
        assert(init[0] == s[0]);
    } else {
        assert(init =~= Seq::empty());
    }
}

proof fn lemma_last_part(s: Text)
    requires
        ".lock"@.is_suffix_of(s),
    ensures
        split_on(s, '/').len() > 0,
        ".lock"@.is_suffix_of(split_on(s, '/').last()),
{
    reveal_strlit(".lock");
    let front = s.take(s.len() - 5);
    assert(s =~= front + ".lock"@);
    assert(!".lock"@.contains('/'));
    lemma_split_more(front, ".lock"@, '/');
    let last = split_on(s, '/').last();
    let before = split_on(front, '/').last();
    assert(last == before + ".lock"@);
    assert(last.subrange(last.len() - 5, last.len() as int) =~= ".lock"@);
}

proof fn lemma_last_component(s: Text)
    requires
        ".lock"@.is_suffix_of(s),
    ensures
        !is_branch_name(s),
{
    lemma_last_part(s);
    let parts = split_on(s, '/');
    assert(!is_component(parts[parts.len() - 1]));
}

proof fn lemma_last_component_before(s: Text, b: Text)
    requires
        ".lock"@.is_suffix_of(s),
    ensures
        !is_branch_name(s + "/"@ + b),
{
    reveal_strlit("/");
    assert("/"@ =~= seq!['/']);
    lemma_last_part(s);
    lemma_split_behind(s, b, '/');
    let parts = split_on(s, '/');
    let all = split_on(s + "/"@ + b, '/');
    assert(all[parts.len() - 1] == parts.last());
    assert(!is_component(all[parts.len() - 1]));
}

/// A digit of an id as Git writes it.
pub open spec fn is_digit(c: char) -> bool {
    '0' <= c <= '9' || 'a' <= c <= 'f'
}

/// A whole id as Git writes it stands for itself.
pub proof fn law_whole_ids_stand_for_themselves(s: Text)
    requires
        s.len() == 40,
        forall|i: int| 0 <= i < s.len() ==> is_digit(#[trigger] s[i]),
    ensures
        object_id(s) == Ok::<Text, Text>(s),
{
    assert forall|i: int| 0 <= i < s.len() implies '\0' <= #[trigger] s[i] <= '\u{7f}' by {
        assert(is_digit(s[i]));
    }
    assert(vstd::utf8::is_ascii_chars(s));
    vstd::utf8::is_ascii_chars_encode_utf8(s);
    assert(byte_len(s) == 40);
    assert(object_id(s)->Ok_0 =~= s);
}

/// An id that is too long, or holds anything but digits, is refused.
pub proof fn law_other_texts_are_no_ids(s: Text, i: int)
    ensures
        object_id(Seq::empty()) is Err,
        byte_len(s) > 40 ==> object_id(s) is Err,
        0 <= i < s.len() && (s[i] as u32) > 102 ==> object_id(s) is Err,
        0 <= i < s.len() && (s[i] as u32) < 48 ==> object_id(s) is Err,
        object_id(s) is Ok ==> object_id(s)->Ok_0.len() == 40,
{
}

proof fn lemma_values(lines: Seq<Text>, i: int)
    requires
        0 <= i < lines.len(),
        trailer_value(lines[i]) is Some,
    ensures
        trailer_values(lines).contains(trailer_value(lines[i])->0),
    decreases lines.len(),
{
    let init = lines.drop_last();
    let before = trailer_values(init);
    let value = trailer_value(lines[i])->0;
    if i < init.len() {
        lemma_values(init, i);
        if trailer_value(lines.last()) is Some {
            let more = trailer_value(lines.last())->0;
            vstd::seq_lib::lemma_seq_contains_after_push(before, more, value);
        }
    } else {
        vstd::seq_lib::lemma_seq_contains_after_push(before, value, value);
    }
}

proof fn lemma_value_count(lines: Seq<Text>, i: int, j: int)
    requires
        0 <= i < j < lines.len(),
        trailer_value(lines[i]) is Some,
        trailer_value(lines[j]) is Some,
    ensures
        trailer_values(lines).len() > 1,
    decreases lines.len(),
{
    let init = lines.drop_last();
    if j < init.len() {
        lemma_value_count(init, i, j);
    } else {
        lemma_values(init, i);
        assert(trailer_values(init).len() > 0);
    }
}

proof fn lemma_no_values(lines: Seq<Text>)
    requires
        forall|i: int| 0 <= i < lines.len() ==> trailer_value(#[trigger] lines[i]) is None,
    ensures
        trailer_values(lines).len() == 0,
    decreases lines.len(),
{
    if lines.len() > 0 {
        assert(trailer_value(lines[lines.len() - 1]) is None);
        assert forall|i: int| 0 <= i < lines.drop_last().len() implies trailer_value(
            #[trigger] lines.drop_last()[i],
        ) is None by {
            assert(lines.drop_last()[i] == lines[i]);
        }
        lemma_no_values(lines.drop_last());
    }
}

/// A message of which two lines give an identity is refused, one of which none does has no
/// identity, and what is found is given by a line.
pub proof fn law_messages_give_one_identity(message: Text, i: int, j: int)
    ensures
        ({
            let lines = lines_of(message);
            &&& 0 <= i < j < lines.len() && trailer_value(lines[i]) is Some && trailer_value(
                lines[j],
            ) is Some ==> identity(message) is Err
            &&& (forall|k: int|
                0 <= k < lines.len() ==> trailer_value(#[trigger] lines[k]) is None)
                ==> identity(message) == Ok::<Option<Text>, Text>(None)
            &&& 0 <= i < lines.len() && trailer_value(lines[i]) is Some && identity(message) is Ok
                ==> identity(message) == Ok::<Option<Text>, Text>(trailer_value(lines[i]))
        }),
{
    let lines = lines_of(message);
    if 0 <= i < j < lines.len() && trailer_value(lines[i]) is Some && trailer_value(
        lines[j],
    ) is Some {
        lemma_value_count(lines, i, j);
    }
    if forall|k: int| 0 <= k < lines.len() ==> trailer_value(#[trigger] lines[k]) is None {
        lemma_no_values(lines);
    }
    if 0 <= i < lines.len() && trailer_value(lines[i]) is Some && identity(message) is Ok {
        lemma_values(lines, i);
        assert(identities(message).len() == 1);
    }
}

} // verus!
