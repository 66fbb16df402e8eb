//! What the history is shown with.

use crate::integrations::github::link_args;
use crate::integrations::log::{decorations, log_args, named, not_empty, shown_remotes, LogView};
use crate::number::decimal;
use crate::split::split_on;
use crate::text::Text;
use vstd::prelude::*;

verus! {

/// The history starts from all local branches and from what is checked out, and from the
/// branches of every remote that is shown and the tags where those are; these are the refs
/// that it shows. What is given for Git stands behind all that.
pub proof fn law_logs_show_what_is_asked_for(log: LogView, color: bool, remote: Text)
    ensures
        ({
            let args = log_args(log, color);
            let n = args.len() as int;
            &&& args[0] == "log"@
            &&& args.contains("--graph"@)
            &&& args.contains("--oneline"@)
            &&& args.contains("--branches"@)
            &&& args.contains("HEAD"@)
            &&& color ==> args[1] == "--color=always"@
            &&& !color ==> args[1] == "--graph"@
            &&& log.remotes.contains(remote) ==> args.contains(
                "--glob=refs/remotes/"@ + remote + "/*"@,
            ) && args.contains("--decorate-refs="@ + ("refs/remotes/"@ + remote + "/*"@))
            &&& args.contains("--decorate-refs="@ + "refs/heads/*"@)
            &&& args.contains("--decorate-refs="@ + "HEAD"@)
            &&& log.tags ==> args.contains("--tags"@) && args.contains(
                "--decorate-refs="@ + "refs/tags/*"@,
            )
            &&& log.git_args.len() <= n
            &&& args.skip(n - log.git_args.len()) == log.git_args
            &&& log.max_count matches Some(count) ==> {
                &&& count > 0 ==> args[n - log.git_args.len() - 1] == "-"@ + decimal(count as nat)
            }
        }),
{
    let args = log_args(log, color);
    let n = args.len() as int;
    let first = if color {
        2int
    } else {
        1
    };
    let globs = log.remotes.len() as int;
    let tags = if log.tags {
        1int
    } else {
        0
    };
    let refs = decorations(log);
    let shown = first + 5 + globs + tags;
    assert(args[first] == "--graph"@ && args[first + 1] == "--oneline"@);
    assert(args[first + 3] == "--branches"@ && args[first + 4] == "HEAD"@);
    if log.remotes.contains(remote) {
        let i = log.remotes.index_of(remote);
        assert(args[first + 5 + i] == "--glob=refs/remotes/"@ + remote + "/*"@);
        assert(refs[2 + i] == "refs/remotes/"@ + remote + "/*"@);
        assert(args[shown + 2 + i] == "--decorate-refs="@ + refs[2 + i]);
    }
    assert(refs[0] == "refs/heads/*"@ && refs[1] == "HEAD"@);
    assert(args[shown] == "--decorate-refs="@ + refs[0]);
    assert(args[shown + 1] == "--decorate-refs="@ + refs[1]);
    if log.tags {
        assert(args[first + 5 + globs] == "--tags"@);
        assert(refs[2 + globs] == "refs/tags/*"@);
        assert(args[shown + 2 + globs] == "--decorate-refs="@ + refs[2 + globs]);
    }
    assert(args.skip(n - log.git_args.len()) =~= log.git_args);
}

/// Each remote that is shown was named, alone or with others behind commas, and each that
/// was named is shown. Where none was named it is `origin`, and where none is wanted none
/// is shown.
pub proof fn law_named_remotes_are_shown(specs: Seq<Text>, name: Text)
    ensures
        shown_remotes(specs, true).len() == 0,
        name.len() > 0 && names_it(specs, name) ==> shown_remotes(specs, false).contains(name),
        shown_remotes(specs, false).contains(name) && name != "origin"@ ==> names_it(specs, name),
        !names_any(specs) ==> shown_remotes(specs, false) == seq!["origin"@],
{
    lemma_named_remote(specs, name);
    if !names_any(specs) && named(specs).len() > 0 {
        let first = named(specs)[0];
        lemma_named_remote(specs, first);
        assert(named(specs).contains(first));
        assert(names_any(specs));
    }
    if named(specs).contains(name) {
        assert(named(specs).len() > 0);
    }
    if shown_remotes(specs, false) == seq!["origin"@] && shown_remotes(specs, false).contains(name) {
        assert(named(specs).len() == 0 ==> name == "origin"@);
    }
}

/// A name is one of those in a list with commas between.
pub open spec fn names_it(specs: Seq<Text>, name: Text) -> bool {
    exists|i: int| 0 <= i < specs.len() && split_on(#[trigger] specs[i], ',').contains(name)
}

/// Some list has a name in it.
pub open spec fn names_any(specs: Seq<Text>) -> bool {
    exists|name: Text| name.len() > 0 && #[trigger] names_it(specs, name)
}

proof fn lemma_named_remote(specs: Seq<Text>, name: Text)
    ensures
        named(specs).contains(name) <==> name.len() > 0 && names_it(specs, name),
    decreases specs.len(),
{
    if specs.len() > 0 {
        let init = specs.drop_last();
        let last = specs[specs.len() - 1];
        let parts = split_on(last, ',');
        let kept = parts.filter(not_empty());
        lemma_named_remote(init, name);
        vstd::seq_lib::lemma_seq_concat_contains_all_elements(named(init), kept, name);
        if kept.contains(name) {
            let i = kept.index_of(name);
            parts.lemma_filter_pred(not_empty(), i);
            parts.lemma_filter_contains_rev(not_empty(), name);
        }
        if parts.contains(name) && name.len() > 0 {
            let i = parts.index_of(name);
            parts.lemma_filter_contains(not_empty(), i);
        }
        if names_it(init, name) {
            let i = choose|i: int|
                0 <= i < init.len() && split_on(#[trigger] init[i], ',').contains(name);
            assert(specs[i] == init[i]);
        }
        if names_it(specs, name) {
            let i = choose|i: int|
                0 <= i < specs.len() && split_on(#[trigger] specs[i], ',').contains(name);
            if i < init.len() {
                assert(init[i] == specs[i]);
            }
        }
    }
}

/// Where open pull requests are shown is asked of the fork for one branch, with their
/// numbers and the branches that they are opened from.
pub proof fn law_links_are_asked_for(fork: Text, branch: Text)
    ensures
        link_args(fork, branch) == seq![
            "pr"@,
            "list"@,
            "--repo"@,
            fork,
            "--head"@,
            branch,
            "--state"@,
            "open"@,
            "--json"@,
            "number,headRefName,url"@,
        ],
{
    assert(link_args(fork, branch) =~= seq![
        "pr"@,
        "list"@,
        "--repo"@,
        fork,
        "--head"@,
        branch,
        "--state"@,
        "open"@,
        "--json"@,
        "number,headRefName,url"@,
    ]);
}

} // verus!
