//! Showing the history of a repository in a pager.

use crate::number::{signed_decimal, to_signed_decimal};
use crate::order::copy;
use crate::split::{split, split_on};
use crate::text::{texts, Text};
use vstd::prelude::*;

verus! {

/// The exit status with which the pager asks for the history again.
pub const REFRESH_STATUS: i32 = 82;

/// The key of the pager that asks for the history again.
pub const LESSKEY: &'static str = "#command\nR quit R\n";

/// What clears the terminal.
pub const CLEAR: &'static str = "\x1b[H\x1b[2J";

/// Which part of the history is shown.
#[derive(Debug, PartialEq, Eq)]
pub struct LogSpec {
    pub remotes: Vec<String>,
    pub tags: bool,
    pub max_count: Option<i64>,
    pub git_args: Vec<String>,
}

/// What a `LogSpec` holds.
#[verifier::ext_equal]
pub struct LogView {
    pub remotes: Seq<Text>,
    pub tags: bool,
    pub max_count: Option<i64>,
    pub git_args: Seq<Text>,
}

impl View for LogSpec {
    type V = LogView;

    open spec fn view(&self) -> LogView {
        LogView {
            remotes: texts(self.remotes@),
            tags: self.tags,
            max_count: self.max_count,
            git_args: texts(self.git_args@),
        }
    }
}

impl Clone for LogSpec {
    fn clone(&self) -> (r: Self)
        ensures
            r@ == self@,
    {
        LogSpec {
            remotes: copy(&self.remotes),
            tags: self.tags,
            max_count: self.max_count,
            git_args: copy(&self.git_args),
        }
    }
}

/// Whether a text holds something.
pub open spec fn not_empty() -> spec_fn(Text) -> bool {
    |s: Text| s.len() > 0
}

/// The names that specs give, which may be several in one, with commas between.
pub open spec fn named(specs: Seq<Text>) -> Seq<Text>
    decreases specs.len(),
{
    if specs.len() == 0 {
        Seq::empty()
    } else {
        named(specs.drop_last()) + split_on(specs.last(), ',').filter(not_empty())
    }
}

/// The remotes that are shown: none, those that are named, or `origin`.
pub open spec fn shown_remotes(specs: Seq<Text>, no_remotes: bool) -> Seq<Text> {
    if no_remotes {
        Seq::empty()
    } else if named(specs).len() == 0 {
        seq!["origin"@]
    } else {
        named(specs)
    }
}

/// The names in one spec.
fn names_in(spec_text: &str) -> (r: Vec<String>)
    ensures
        texts(r@) == split_on(spec_text@, ',').filter(not_empty()),
{
    let parts = split(spec_text, ',');
    let ghost all = texts(parts@);
    let mut r: Vec<String> = Vec::new();
    let mut i: usize = 0;
    proof {
        reveal(Seq::filter);
        assert(all.take(0).filter(not_empty()) =~= texts(r@));
    }
    while i < parts.len()
        invariant
            i <= parts.len(),
            all == texts(parts@),
            texts(r@) == all.take(i as int).filter(not_empty()),
        decreases parts.len() - i,
    {
        proof {
            crate::order::lemma_filter_step(all, i as int, not_empty());
        }
        let ghost was = texts(r@);
        if !parts[i].as_str().is_empty() {
            r.push(parts[i].clone());
            assert(texts(r@) =~= was.push(all[i as int]));
        }
        i = i + 1;
    }
    assert(all.take(all.len() as int) =~= all);
    r
}

/// The remotes that are shown.
pub fn normalize_remotes(specs: &Vec<String>, no_remotes: bool) -> (r: Vec<String>)
    ensures
        texts(r@) == shown_remotes(texts(specs@), no_remotes),
{
    let ghost all = texts(specs@);
    let mut r: Vec<String> = Vec::new();
    assert(texts(r@) =~= Seq::<Text>::empty());
    if no_remotes {
        return r;
    }
    let mut i: usize = 0;
    assert(all.take(0) =~= Seq::<Text>::empty());
    while i < specs.len()
        invariant
            i <= specs.len(),
            all == texts(specs@),
            texts(r@) == named(all.take(i as int)),
        decreases specs.len() - i,
    {
        assert(all.take(i + 1).drop_last() =~= all.take(i as int));
        assert(all.take(i + 1).last() == specs@[i as int]@);
        let mut more = names_in(specs[i].as_str());
        let ghost parts = (texts(r@), texts(more@));
        r.append(&mut more);
        assert(texts(r@) =~= parts.0 + parts.1);
        i = i + 1;
    }
    assert(all.take(all.len() as int) =~= all);
    if r.len() == 0 {
        r.push("origin".to_owned());
        assert(texts(r@) =~= seq!["origin"@]);
    }
    r
}

/// Where remotes are shown, each has a name.
pub proof fn law_remotes_are_named(specs: Seq<Text>, no_remotes: bool)
    ensures
        forall|i: int|
            0 <= i < shown_remotes(specs, no_remotes).len() ==> (#[trigger] shown_remotes(
                specs,
                no_remotes,
            )[i]).len() > 0,
        !no_remotes ==> shown_remotes(specs, no_remotes).len() > 0,
{
    reveal_strlit("origin");
    lemma_named(specs);
}

proof fn lemma_named(specs: Seq<Text>)
    ensures
        forall|i: int| 0 <= i < named(specs).len() ==> (#[trigger] named(specs)[i]).len() > 0,
    decreases specs.len(),
{
    if specs.len() > 0 {
        let before = named(specs.drop_last());
        let parts = split_on(specs.last(), ',');
        lemma_named(specs.drop_last());
        assert forall|i: int| 0 <= i < named(specs).len() implies (#[trigger] named(specs)[i]).len()
            > 0 by {
            if i < before.len() {
                assert(named(specs)[i] == before[i]);
            } else {
                let j = i - before.len();
                parts.lemma_filter_pred(not_empty(), j);
                assert(named(specs)[i] == parts.filter(not_empty())[j]);
            }
        }
    }
}

/// The refs that are shown.
pub open spec fn decorations(log: LogView) -> Seq<Text> {
    let refs = seq!["refs/heads/*"@, "HEAD"@] + log.remotes.map_values(
        |remote: Text| "refs/remotes/"@ + remote + "/*"@,
    );
    if log.tags {
        refs.push("refs/tags/*"@)
    } else {
        refs
    }
}

/// The arguments with which Git shows the history.
pub open spec fn log_args(log: LogView, color: bool) -> Seq<Text> {
    (if color {
        seq!["log"@, "--color=always"@]
    } else {
        seq!["log"@]
    }) + seq!["--graph"@, "--oneline"@, "--decorate"@, "--branches"@, "HEAD"@]
        + log.remotes.map_values(|remote: Text| "--glob=refs/remotes/"@ + remote + "/*"@) + (
    if log.tags {
        seq!["--tags"@]
    } else {
        Seq::empty()
    }) + decorations(log).map_values(|name: Text| "--decorate-refs="@ + name) + (
    match log.max_count {
        Some(count) => if count != 0 {
            seq!["-"@ + signed_decimal(count as int)]
        } else {
            Seq::empty()
        },
        None => Seq::empty(),
    }) + log.git_args
}

/// Appends `before + name + after` for each of the names.
fn push_each(args: &mut Vec<String>, before: &str, names: &Vec<String>, after: &str)
    ensures
        texts(final(args)@) == texts(old(args)@) + texts(names@).map_values(
            |name: Text| before@ + name + after@,
        ),
{
    let ghost was = texts(args@);
    let ghost new = texts(names@).map_values(|name: Text| before@ + name + after@);
    let mut i: usize = 0;
    assert(was + new.take(0) =~= was);
    while i < names.len()
        invariant
            i <= names.len(),
            new == texts(names@).map_values(|name: Text| before@ + name + after@),
            texts(args@) == was + new.take(i as int),
        decreases names.len() - i,
    {
        let ghost now = texts(args@);
        args.push(before.to_owned().concat(names[i].as_str()).concat(after));
        assert(texts(args@) =~= now.push(new[i as int]));
        assert(texts(args@) =~= was + new.take(i + 1));
        i = i + 1;
    }
    assert(new.take(new.len() as int) =~= new);
}

/// Appends one argument.
fn push_arg(args: &mut Vec<String>, arg: &str)
    ensures
        texts(final(args)@) == texts(old(args)@) + seq![arg@],
{
    let ghost was = texts(args@);
    args.push(arg.to_owned());
    assert(texts(args@) =~= was + seq![arg@]);
}

/// The refs that are shown.
fn decoration_refs(log: &LogSpec) -> (r: Vec<String>)
    ensures
        texts(r@) == decorations(log@),
{
    let ghost f = |remote: Text| "refs/remotes/"@ + remote + "/*"@;
    let mut r: Vec<String> = Vec::new();
    r.push("refs/heads/*".to_owned());
    r.push("HEAD".to_owned());
    assert(texts(r@) =~= seq!["refs/heads/*"@, "HEAD"@]);
    push_each(&mut r, "refs/remotes/", &log.remotes, "/*");
    assert(texts(r@) == seq!["refs/heads/*"@, "HEAD"@] + log@.remotes.map_values(f));
    if log.tags {
        let ghost was = texts(r@);
        r.push("refs/tags/*".to_owned());
        assert(texts(r@) =~= was.push("refs/tags/*"@));
    }
    r
}

/// The arguments with which Git shows the history.
pub fn git_log_args(log: &LogSpec, color: bool) -> (r: Vec<String>)
    ensures
        texts(r@) == log_args(log@, color),
{
    let mut args: Vec<String> = Vec::new();
    args.push("log".to_owned());
    if color {
        args.push("--color=always".to_owned());
    }
    let ghost first = if color {
        seq!["log"@, "--color=always"@]
    } else {
        seq!["log"@]
    };
    assert(texts(args@) =~= first);
    args.push("--graph".to_owned());
    args.push("--oneline".to_owned());
    args.push("--decorate".to_owned());
    args.push("--branches".to_owned());
    args.push("HEAD".to_owned());
    assert(texts(args@) =~= first + seq![
        "--graph"@,
        "--oneline"@,
        "--decorate"@,
        "--branches"@,
        "HEAD"@,
    ]);
    push_each(&mut args, "--glob=refs/remotes/", &log.remotes, "/*");
    let ghost globs = texts(args@);
    if log.tags {
        push_arg(&mut args, "--tags");
    } else {
        assert(globs + Seq::<Text>::empty() =~= globs);
    }
    let names = decoration_refs(log);
    let ghost tagged = texts(args@);
    push_each(&mut args, "--decorate-refs=", &names, "");
    proof {
        reveal_strlit("");
        assert forall|i: int| 0 <= i < texts(names@).len() implies "--decorate-refs="@ + texts(
            names@,
        )[i] + ""@ == "--decorate-refs="@ + texts(names@)[i] by {
            assert("--decorate-refs="@ + texts(names@)[i] + ""@ =~= "--decorate-refs="@ + texts(
                names@,
            )[i]);
        }
        assert(texts(args@) =~= tagged + decorations(log@).map_values(
            |name: Text| "--decorate-refs="@ + name,
        ));
    }
    let ghost decorated = texts(args@);
    match log.max_count {
        Some(count) => {
            if count != 0 {
                push_arg(
                    &mut args,
                    "-".to_owned().concat(to_signed_decimal(count).as_str()).as_str(),
                );
            } else {
                assert(decorated + Seq::<Text>::empty() =~= decorated);
            }
        },
        None => {
            assert(decorated + Seq::<Text>::empty() =~= decorated);
        },
    }
    let ghost counted = texts(args@);
    let mut more = copy(&log.git_args);
    args.append(&mut more);
    assert(texts(args@) =~= counted + log@.git_args);
    args
}

/// The arguments of the pager.
pub fn less_args() -> (r: Vec<String>)
    ensures
        texts(r@) == seq![
            "-R"@,
            "-S"@,
            "-+F"@,
            "-X"@,
            "-Ps?e(END)  .[R] refresh   [q] quit"@,
        ],
{
    let mut r: Vec<String> = Vec::new();
    r.push("-R".to_owned());
    r.push("-S".to_owned());
    r.push("-+F".to_owned());
    r.push("-X".to_owned());
    r.push("-Ps?e(END)  .[R] refresh   [q] quit".to_owned());
    assert(texts(r@) =~= seq![
        "-R"@,
        "-S"@,
        "-+F"@,
        "-X"@,
        "-Ps?e(END)  .[R] refresh   [q] quit"@,
    ]);
    r
}

/// Whether the pager asks for the history again, by its exit status.
pub fn asks_refresh(status: Option<i32>) -> (r: bool)
    ensures
        r == (status == Some(REFRESH_STATUS)),
{
    match status {
        Some(code) => code == REFRESH_STATUS,
        None => false,
    }
}

} // verus!
