//! The names of repositories and branches.

use crate::split::{split, split_on};
use crate::text::{
    chars_of, contains_text, ends_with, maybe, occurs, starts_with, string_of, trim, trimmed, Text,
};
use vstd::prelude::*;

verus! {

/// `s` without `.git` at its end, however often it stands there.
pub open spec fn without_git(s: Text) -> Text
    decreases s.len(),
{
    if ".git"@.len() > 0 && ".git"@.is_suffix_of(s) {
        without_git(s.take(s.len() - ".git"@.len()))
    } else {
        s
    }
}

/// What separates the parts of a remote's address.
pub open spec fn is_separator(c: char) -> bool {
    c == ':' || c == '/'
}

/// Where the last separator of `s` is, or -1.
pub open spec fn last_separator(s: Text) -> int
    decreases s.len(),
{
    if s.len() == 0 {
        -1
    } else if is_separator(s.last()) {
        s.len() - 1
    } else {
        last_separator(s.drop_last())
    }
}

/// The owner and the name at the end of a remote's address.
pub open spec fn owner_and_name(url: Text) -> Option<Text> {
    let address = without_git(trim(url));
    let end = last_separator(address);
    if end < 0 {
        None
    } else {
        let name = address.skip(end + 1);
        let before = address.take(end);
        let owner = before.skip(last_separator(before) + 1);
        if owner.len() > 0 && name.len() > 0 {
            Some(owner + "/"@ + name)
        } else {
            None
        }
    }
}

/// How many characters `v[..end]` has before its last separator, if it has one.
fn find_separator(v: &Vec<char>, end: usize) -> (r: Option<usize>)
    requires
        end <= v.len(),
    ensures
        match r {
            Some(i) => i < end && last_separator(v@.take(end as int)) == i,
            None => last_separator(v@.take(end as int)) == -1,
        },
{
    let mut i: usize = end;
    while i > 0
        invariant
            i <= end <= v.len(),
            last_separator(v@.take(end as int)) == last_separator(v@.take(i as int)),
        decreases i,
    {
        assert(v@.take(i as int).drop_last() =~= v@.take(i - 1));
        let c = v[i - 1];
        if c == ':' || c == '/' {
            return Some(i - 1);
        }
        i = i - 1;
    }
    None
}

/// The owner and the name at the end of a remote's address.
pub fn parse_owner_repo(url: &str) -> (r: Option<String>)
    ensures
        maybe(r) == owner_and_name(url@),
{
    let mut address = trimmed(url);
    proof {
        reveal_strlit(".git");
    }
    while ends_with(address.as_str(), ".git")
        invariant
            ".git"@.len() == 4,
            without_git(trim(url@)) == without_git(address@),
        decreases address@.len(),
    {
        let v = chars_of(address.as_str());
        let ghost was = address@;
        address = string_of(&v, 0, v.len() - 4);
        assert(address@ =~= was.take(was.len() - 4));
    }
    let v = chars_of(address.as_str());
    let n = v.len();
    assert(v@.take(n as int) =~= address@);
    match find_separator(&v, n) {
        None => None,
        Some(end) => {
            let name = string_of(&v, end + 1, n);
            let start: usize = match find_separator(&v, end) {
                Some(i) => i + 1,
                None => 0,
            };
            let owner = string_of(&v, start, end);
            assert(name@ =~= address@.skip(end + 1));
            assert(address@.take(end as int) =~= v@.take(end as int));
            assert(owner@ =~= address@.take(end as int).skip(start as int));
            if owner.as_str().unicode_len() > 0 && name.as_str().unicode_len() > 0 {
                Some(owner.concat("/").concat(name.as_str()))
            } else {
                None
            }
        },
    }
}

/// A character that no branch name holds.
pub open spec fn is_forbidden(c: char) -> bool {
    let n = c as u32;
    n < 0x20 || n == 0x7f || c == ' ' || c == '~' || c == '^' || c == ':' || c == '?' || c == '*'
        || c == '[' || c == '\\'
}

/// A part of a branch name between slashes.
pub open spec fn is_component(s: Text) -> bool {
    !"."@.is_prefix_of(s) && !".lock"@.is_suffix_of(s)
}

/// A text that can be the name of a branch.
pub open spec fn is_branch_name(s: Text) -> bool {
    &&& s.len() > 0
    &&& s[0] != '-' && s[0] != '/'
    &&& s.last() != '/' && s.last() != '.'
    &&& !occurs(s, ".."@)
    &&& !occurs(s, "@{"@)
    &&& !occurs(s, "//"@)
    &&& forall|i: int| 0 <= i < s.len() ==> !is_forbidden(#[trigger] s[i])
    &&& forall|i: int|
        0 <= i < split_on(s, '/').len() ==> is_component(#[trigger] split_on(s, '/')[i])
}

/// Whether a text holds a character that no branch name holds.
fn any_forbidden(v: &Vec<char>) -> (r: bool)
    ensures
        r == exists|i: int| 0 <= i < v.len() && is_forbidden(#[trigger] v@[i]),
{
    let mut i: usize = 0;
    while i < v.len()
        invariant
            i <= v.len(),
            forall|j: int| 0 <= j < i ==> !is_forbidden(#[trigger] v@[j]),
        decreases v.len() - i,
    {
        let c = v[i];
        let n: u32 = c as u32;
        if n < 0x20 || n == 0x7f || c == ' ' || c == '~' || c == '^' || c == ':' || c == '?' || c
            == '*' || c == '[' || c == '\\' {
            assert(is_forbidden(v@[i as int]));
            return true;
        }
        i = i + 1;
    }
    false
}

/// Whether every part of a branch name can be one.
fn all_components(parts: &Vec<String>) -> (r: bool)
    ensures
        r == forall|i: int| 0 <= i < parts.len() ==> is_component((#[trigger] parts@[i])@),
{
    let mut i: usize = 0;
    while i < parts.len()
        invariant
            i <= parts.len(),
            forall|j: int| 0 <= j < i ==> is_component((#[trigger] parts@[j])@),
        decreases parts.len() - i,
    {
        if starts_with(parts[i].as_str(), ".") || ends_with(parts[i].as_str(), ".lock") {
            assert(!is_component(parts@[i as int]@));
            return false;
        }
        i = i + 1;
    }
    true
}

/// Whether a text can be the name of a branch.
pub fn valid_branch_name(branch: &str) -> (r: bool)
    ensures
        r == is_branch_name(branch@),
{
    let v = chars_of(branch);
    let n = v.len();
    if n == 0 || v[0] == '-' || v[0] == '/' || v[n - 1] == '/' || v[n - 1] == '.' {
        return false;
    }
    if contains_text(branch, "..") || contains_text(branch, "@{") || contains_text(branch, "//")
        || any_forbidden(&v) {
        return false;
    }
    let parts = split(branch, '/');
    let r = all_components(&parts);
    proof {
        let ps = split_on(branch@, '/');
        if r {
            assert forall|i: int| 0 <= i < ps.len() implies is_component(#[trigger] ps[i]) by {
                assert(ps[i] == parts@[i]@);
            }
        } else {
            let i = choose|i: int| 0 <= i < parts.len() && !is_component((#[trigger] parts@[i])@);
            assert(ps[i] == parts@[i]@);
        }
    }
    r
}

} // verus!
