//! Planning the rearrangement of a stack.

use crate::order::{
    contains, equal, keep_prefixed, least, lemma_filter_step, position, smallest, sort, sorted,
    starting_with, views,
};
use crate::text::{same, starts_with, texts, Text};
use crate::ui::history::{
    list_result, only_parent, reaches, segment, text_result,
};
use crate::ui::model::{CommitView, Graph, GraphView, MovePlan, MoveView};
use vstd::prelude::*;

verus! {

/// The prefix of the branches that hold the commits of a stack.
pub open spec fn layer_prefix() -> Text {
    "fs-head/"@
}

/// The branches of a commit that hold it as part of a stack.
pub open spec fn layer_refs(commit: CommitView) -> Seq<Text> {
    starting_with(commit.local_refs, layer_prefix())
}

/// The ids of the commits that are part of a stack and lead back to `from`.
pub open spec fn layers(commits: Map<Text, CommitView>, from: Text) -> Set<Text> {
    Set::new(
        |id: Text|
            reaches(commits, id, from) && exists|k: Text| #[trigger]
                commits.contains_key(k) && commits[k].id == id && layer_refs(commits[k]).len() > 0,
    )
}

/// The branches that hold the commit `id` as part of a stack.
pub open spec fn layer_names(commits: Map<Text, CommitView>, id: Text) -> Set<Text> {
    Set::new(
        |name: Text|
            exists|k: Text| #[trigger]
                commits.contains_key(k) && commits[k].id == id && layer_refs(commits[k]).contains(
                    name,
                ),
    )
}

/// The layers above `from` that no other layer above `from` leads back to.
pub open spec fn tips(commits: Map<Text, CommitView>, from: Text) -> Set<Text> {
    Set::new(
        |id: Text|
            layers(commits, from).contains(id) && !exists|other: Text| #[trigger]
                layers(commits, from).contains(other) && other != id && reaches(
                    commits,
                    other,
                    id,
                ),
    )
}

/// Where the checked-out stack ends: a branch, a commit, and whether the branch
/// is one of a stack's layers.
pub open spec fn tip_of(g: GraphView, selected: Text) -> Result<(Text, Text, bool), Text> {
    if !reaches(g.commits, g.head, selected) {
        Err("the selected commit is not in the checked-out stack"@)
    } else {
        match g.branch {
            None => Err("check out a local branch before rewriting it"@),
            Some(branch) => {
                let ends = tips(g.commits, g.head);
                if !layer_prefix().is_prefix_of(branch) {
                    Ok((branch, g.head, false))
                } else if ends.is_empty() {
                    Ok((branch, g.head, true))
                } else if ends.is_singleton() {
                    let id = ends.choose();
                    let names = layer_names(g.commits, id);
                    if names.contains(branch) {
                        Ok((branch, id, true))
                    } else {
                        Ok((least(names), id, true))
                    }
                } else {
                    Err(
                        "the checked-out layer has multiple descendant stack tips; check out the desired stack tip"@,
                    )
                }
            },
        }
    }
}

/// Where the stack that `destination` is part of ends: a branch, or the id of
/// `destination`, and a commit.
pub open spec fn destination_tip(commits: Map<Text, CommitView>, destination: Text) -> Result<
    (Text, Text),
    Text,
> {
    let ends = tips(commits, destination);
    if ends.is_empty() {
        Ok((destination, destination))
    } else if ends.is_singleton() {
        let id = ends.choose();
        Ok((least(layer_names(commits, id)), id))
    } else {
        Err(
            "the destination has multiple descendant stack tips; check out or choose an unambiguous destination"@,
        )
    }
}

/// The branches at each of `ids`, each with the commit it is at.
pub open spec fn refs_at(commits: Map<Text, CommitView>, ids: Seq<Text>) -> Seq<(Text, Text)>
    decreases ids.len(),
{
    if ids.len() == 0 {
        Seq::empty()
    } else {
        let id = ids.last();
        refs_at(commits, ids.drop_last()) + if commits.contains_key(id) {
            commits[id].local_refs.map_values(|name: Text| (id, name))
        } else {
            Seq::empty()
        }
    }
}

/// The branches at `ids`, in the order of the commits' ids.
pub open spec fn moved_refs(commits: Map<Text, CommitView>, ids: Seq<Text>) -> Seq<(Text, Text)> {
    sorted::<(String, String)>(refs_at(commits, ids))
}

/// The branch to check out once `ids` have been replayed.
pub open spec fn branch_to_check_out(
    commits: Map<Text, CommitView>,
    ids: Seq<Text>,
    tip: Text,
    detach: bool,
) -> Result<Text, Text> {
    if !detach {
        Ok(tip)
    } else if ids.len() == 0 {
        Err("move has no commits"@)
    } else if !commits.contains_key(ids.last()) {
        Err("unknown commit "@ + ids.last())
    } else {
        let names = layer_refs(commits[ids.last()]);
        if names.contains(tip) {
            Ok(tip)
        } else if names.len() == 0 {
            Err("the resulting Forkstack tip has no fs-head branch; pick up its substack instead"@)
        } else {
            Ok(least(names.to_set()))
        }
    }
}

/// The rearrangement that moves a commit and what is above it in its stack.
pub open spec fn substack_move(
    g: GraphView,
    selected: Text,
    destination: Text,
    tip: (Text, Text, bool),
    parent: Text,
) -> Result<MoveView, Text> {
    if destination == parent {
        Err("that move would not change the stack"@)
    } else {
        match segment(g.commits, parent, tip.1) {
            Err(error) => Err(error),
            Ok(carried) => if reaches(g.commits, destination, selected) {
                Err("the destination is inside the selected substack"@)
            } else {
                match destination_tip(g.commits, destination) {
                    Err(error) => Err(error),
                    Ok(end) => match segment(g.commits, destination, end.1) {
                        Err(error) => Err(error),
                        Ok(above) => if exists|id: Text| #[trigger]
                            carried.contains(id) && above.contains(id) {
                            Err("the destination descendant chain overlaps the selected substack"@)
                        } else {
                            let ids = carried + above;
                            let name = if above.len() == 0 {
                                tip.0
                            } else {
                                end.0
                            };
                            if ids.len() == 0 {
                                Err("move has no commits"@)
                            } else {
                                match branch_to_check_out(g.commits, ids, name, tip.2) {
                                    Err(error) => Err(error),
                                    Ok(branch) => Ok(
                                        MoveView {
                                            selected,
                                            destination,
                                            include_descendants: true,
                                            base: destination,
                                            source_base: parent,
                                            carried_count: carried.len(),
                                            tip: name,
                                            tip_commit: ids.last(),
                                            detach_for_rewrite: tip.2,
                                            checkout_branch: branch,
                                            ref_updates: moved_refs(g.commits, ids),
                                            commits: ids,
                                        },
                                    ),
                                }
                            }
                        },
                    },
                }
            },
        }
    }
}

/// Whether an id is not `selected`.
pub open spec fn other_than(selected: Text) -> spec_fn(Text) -> bool {
    |id: Text| id != selected
}

/// `all` with `selected` taken out and put behind `destination`, or in front
/// where there is no destination.
pub open spec fn shifted(all: Seq<Text>, selected: Text, destination: Option<Text>) -> Option<
    Seq<Text>,
> {
    let rest = all.filter(other_than(selected));
    match destination {
        None => Some(rest.insert(0, selected)),
        Some(place) => if rest.contains(place) {
            Some(rest.insert(rest.index_of_first(place)->0 + 1, selected))
        } else {
            None
        },
    }
}

/// The rearrangement that moves a single commit within its stack.
pub open spec fn commit_move(
    g: GraphView,
    selected: Text,
    destination: Text,
    tip: (Text, Text, bool),
    parent: Text,
) -> Result<MoveView, Text> {
    if !reaches(g.commits, tip.1, destination) {
        Err(
            "a single commit can only move within the checked-out stack; pick up its substack to move it elsewhere"@,
        )
    } else {
        let later = reaches(g.commits, destination, selected);
        let base = if later {
            parent
        } else {
            destination
        };
        match segment(g.commits, base, tip.1) {
            Err(error) => Err(error),
            Ok(all) => match shifted(
                all,
                selected,
                if later {
                    Some(destination)
                } else {
                    None
                },
            ) {
                None => Err("destination is not in the linear stack"@),
                Some(ids) => if ids == all {
                    Err("that move would not change the stack"@)
                } else {
                    match branch_to_check_out(g.commits, ids, tip.0, tip.2) {
                        Err(error) => Err(error),
                        Ok(branch) => Ok(
                            MoveView {
                                selected,
                                destination,
                                include_descendants: false,
                                base,
                                source_base: parent,
                                carried_count: 1,
                                tip: tip.0,
                                tip_commit: tip.1,
                                detach_for_rewrite: tip.2,
                                checkout_branch: branch,
                                ref_updates: moved_refs(g.commits, ids),
                                commits: ids,
                            },
                        ),
                    }
                },
            },
        }
    }
}

/// The rearrangement that puts `selected` behind `destination`.
pub open spec fn planned(
    g: GraphView,
    selected: Text,
    destination: Text,
    include_descendants: bool,
) -> Result<MoveView, Text> {
    if selected == destination {
        Err("a commit cannot be dropped onto itself"@)
    } else {
        match tip_of(g, selected) {
            Err(error) => Err(error),
            Ok(tip) => match only_parent(g.commits, selected) {
                Err(error) => Err(error),
                Ok(parent) => if include_descendants {
                    substack_move(g, selected, destination, tip, parent)
                } else {
                    commit_move(g, selected, destination, tip, parent)
                },
            },
        }
    }
}

/// What the result of planning a move holds.
pub open spec fn move_result(r: Result<MovePlan, String>) -> Result<MoveView, Text> {
    match r {
        Ok(plan) => Ok(plan@),
        Err(error) => Err(error@),
    }
}

/// What a tip holds.
pub open spec fn tip_result(r: Result<(String, String, bool), String>) -> Result<
    (Text, Text, bool),
    Text,
> {
    match r {
        Ok(tip) => Ok((tip.0@, tip.1@, tip.2)),
        Err(error) => Err(error@),
    }
}

/// What the tip of a destination holds.
pub open spec fn end_result(r: Result<(String, String), String>) -> Result<(Text, Text), Text> {
    match r {
        Ok(tip) => Ok((tip.0@, tip.1@)),
        Err(error) => Err(error@),
    }
}

/// The commits that moving `selected` with its substack carries along.
pub open spec fn carried(g: GraphView, selected: Text) -> Result<Seq<Text>, Text> {
    match tip_of(g, selected) {
        Err(error) => Err(error),
        Ok(tip) => match only_parent(g.commits, selected) {
            Err(error) => Err(error),
            Ok(parent) => segment(g.commits, parent, tip.1),
        },
    }
}

/// A list without repeats is as long as the set of its members.
proof fn lemma_count(v: Seq<Text>)
    requires
        v.no_duplicates(),
    ensures
        v.len() == 0 <==> v.to_set().is_empty(),
        v.len() == 1 <==> v.to_set().is_singleton(),
        v.len() == 1 ==> v.to_set().choose() == v[0],
{
    let s = v.to_set();
    v.unique_seq_to_set();
    if v.len() == 0 {
        assert(s =~= Set::empty());
    } else {
        assert(s.contains(v[0]));
        if v.len() == 1 {
            assert forall|x: Text, y: Text| s.contains(x) && s.contains(y) implies x == y by {}
            assert(s.contains(s.choose()));
        } else {
            assert(s.contains(v[1]));
            assert(v[0] != v[1]);
        }
    }
}

impl Graph {
    /// The ids of `layers`, each once.
    fn layer_ids(&self, from: &str) -> (r: Vec<String>)
        ensures
            texts(r@).no_duplicates(),
            texts(r@).to_set() == layers(self@.commits, from@),
    {
        let ghost commits = self@.commits;
        let mut r: Vec<String> = Vec::new();
        let n = self.commits.len();
        let ghost names = self.commits.names();
        let mut i: usize = 0;
        while i < n
            invariant
                i <= n,
                n == names.len(),
                names == self.commits.names(),
                commits == self@.commits,
                forall|k: Text| #[trigger] self.commits.raw().contains_key(k) <==> names.contains(k),
                texts(r@).no_duplicates(),
                forall|id: Text| #[trigger]
                    texts(r@).contains(id) ==> layers(commits, from@).contains(id),
                forall|j: int|
                    0 <= j < i && layer_refs(commits[#[trigger] names[j]]).len() > 0 && reaches(
                        commits,
                        commits[names[j]].id,
                        from@,
                    ) ==> texts(r@).contains(commits[names[j]].id),
            decreases n - i,
        {
            let commit = self.commits.value(i);
            let ghost k = names[i as int];
            let ghost was = texts(r@);
            assert(commits.contains_key(k) && commit@ == commits[k]);
            let found = keep_prefixed(&commit.local_refs, "fs-head/");
            if found.len() > 0 && !contains(&r, commit.id.as_str()) && self.is_ancestor(
                from,
                commit.id.as_str(),
            ) {
                r.push(commit.id.clone());
                proof {
                    let now = texts(r@);
                    assert(now =~= was.push(commit.id@));
                    assert forall|x: Text| now.contains(x) == (was.contains(x) || x
                        == commit.id@) by {
                        vstd::seq_lib::lemma_seq_contains_after_push(was, commit.id@, x);
                    }
                    assert(layers(commits, from@).contains(commit.id@));
                }
            }
            i = i + 1;
        }
        proof {
            let s = texts(r@).to_set();
            assert forall|id: Text| layers(commits, from@).contains(id) implies s.contains(id) by {
                let k = choose|k: Text| #[trigger]
                    commits.contains_key(k) && commits[k].id == id && layer_refs(commits[k]).len() > 0;
                assert(self.commits.raw().contains_key(k));
                let j = names.index_of(k);
                assert(names[j] == k);
                assert(texts(r@).contains(id));
            }
            assert(s =~= layers(commits, from@));
        }
        r
    }

    /// Whether none of the other layers above `from` leads back to `ids[i]`.
    fn is_tip(&self, from: &str, ids: &Vec<String>, i: usize) -> (r: bool)
        requires
            i < ids.len(),
            texts(ids@).no_duplicates(),
            texts(ids@).to_set() == layers(self@.commits, from@),
        ensures
            r == tips(self@.commits, from@).contains(ids@[i as int]@),
    {
        let ghost commits = self@.commits;
        let ghost all = texts(ids@);
        let ghost id = all[i as int];
        let mut j: usize = 0;
        assert(all.to_set().contains(id));
        while j < ids.len()
            invariant
                i < ids.len(),
                j <= ids.len(),
                commits == self@.commits,
                all == texts(ids@),
                all.no_duplicates(),
                all.to_set() == layers(commits, from@),
                id == all[i as int],
                forall|m: int| 0 <= m < j && m != i ==> !reaches(commits, #[trigger] all[m], id),
            decreases ids.len() - j,
        {
            if j != i && self.is_ancestor(ids[i].as_str(), ids[j].as_str()) {
                proof {
                    let other = all[j as int];
                    assert(all.to_set().contains(other));
                    assert(layers(commits, from@).contains(other));
                    assert(other != id);
                }
                return false;
            }
            j = j + 1;
        }
        proof {
            assert forall|other: Text| #[trigger]
                layers(commits, from@).contains(other) && other != id implies !reaches(
                commits,
                other,
                id,
            ) by {
                assert(all.to_set().contains(other));
                let m = all.index_of(other);
                assert(all[m] == other);
            }
        }
        true
    }

    /// The ids of `tips`, each once.
    fn tip_ids(&self, from: &str) -> (r: Vec<String>)
        ensures
            texts(r@).no_duplicates(),
            texts(r@).to_set() == tips(self@.commits, from@),
    {
        let ghost ends = tips(self@.commits, from@);
        let ids = self.layer_ids(from);
        let ghost all = texts(ids@);
        let mut r: Vec<String> = Vec::new();
        let mut i: usize = 0;
        while i < ids.len()
            invariant
                i <= ids.len(),
                ends == tips(self@.commits, from@),
                all == texts(ids@),
                all.no_duplicates(),
                all.to_set() == layers(self@.commits, from@),
                texts(r@).no_duplicates(),
                forall|id: Text| #[trigger]
                    texts(r@).contains(id) ==> all.take(i as int).contains(id) && ends.contains(id),
                forall|j: int|
                    0 <= j < i && ends.contains(#[trigger] all[j]) ==> texts(r@).contains(all[j]),
            decreases ids.len() - i,
        {
            let ghost id = all[i as int];
            let ghost was = texts(r@);
            let ghost before = all.take(i as int);
            proof {
                assert(all.take(i + 1) =~= before.push(id));
                assert(!before.contains(id));
                assert forall|x: Text| #[trigger] before.contains(x) implies all.take(
                    i + 1,
                ).contains(x) by {
                    vstd::seq_lib::lemma_seq_contains_after_push(before, id, x);
                }
                vstd::seq_lib::lemma_seq_contains_after_push(before, id, id);
            }
            if self.is_tip(from, &ids, i) {
                r.push(ids[i].clone());
                proof {
                    assert(texts(r@) =~= was.push(id));
                    assert(!was.contains(id));
                    assert forall|x: Text| #[trigger] texts(r@).contains(x) == (was.contains(x) || x
                        == id) by {
                        vstd::seq_lib::lemma_seq_contains_after_push(was, id, x);
                    }
                    assert forall|j: int|
                        0 <= j < i + 1 && ends.contains(#[trigger] all[j]) implies texts(
                        r@,
                    ).contains(all[j]) by {
                        assert(j < i ==> was.contains(all[j]));
                    }
                }
            }
            i = i + 1;
        }
        proof {
            assert forall|id: Text| ends.contains(id) implies texts(r@).to_set().contains(id) by {
                assert(all.to_set().contains(id));
                let j = all.index_of(id);
                assert(all[j] == id);
            }
            assert(texts(r@).to_set() =~= ends);
        }
        r
    }

    /// The branches of `layer_names`.
    fn names_of_layer(&self, id: &str) -> (r: Vec<String>)
        ensures
            texts(r@).to_set() == layer_names(self@.commits, id@),
    {
        let ghost commits = self@.commits;
        let mut r: Vec<String> = Vec::new();
        let n = self.commits.len();
        let ghost names = self.commits.names();
        let mut i: usize = 0;
        while i < n
            invariant
                i <= n,
                n == names.len(),
                names == self.commits.names(),
                commits == self@.commits,
                forall|k: Text| #[trigger] self.commits.raw().contains_key(k) <==> names.contains(k),
                forall|x: Text| #[trigger]
                    texts(r@).contains(x) ==> layer_names(commits, id@).contains(x),
                forall|j: int, x: Text|
                    0 <= j < i && commits[#[trigger] names[j]].id == id@ && #[trigger] layer_refs(
                        commits[names[j]],
                    ).contains(x) ==> texts(r@).contains(x),
            decreases n - i,
        {
            let commit = self.commits.value(i);
            let ghost k = names[i as int];
            assert(commits.contains_key(k) && commit@ == commits[k]);
            if same(commit.id.as_str(), id) {
                let ghost was = texts(r@);
                let mut found = keep_prefixed(&commit.local_refs, "fs-head/");
                let ghost new = texts(found@);
                r.append(&mut found);
                proof {
                    assert(texts(r@) =~= was + new);
                    assert forall|x: Text| texts(r@).contains(x) == (was.contains(x) || new.contains(
                        x,
                    )) by {
                        vstd::seq_lib::lemma_seq_concat_contains_all_elements(was, new, x);
                    }
                }
            }
            i = i + 1;
        }
        proof {
            let s = texts(r@).to_set();
            assert forall|x: Text| layer_names(commits, id@).contains(x) implies s.contains(x) by {
                let k = choose|k: Text| #[trigger]
                    commits.contains_key(k) && commits[k].id == id@ && layer_refs(
                        commits[k],
                    ).contains(x);
                assert(self.commits.raw().contains_key(k));
                let j = names.index_of(k);
                assert(names[j] == k);
                assert(texts(r@).contains(x));
            }
            assert(s =~= layer_names(commits, id@));
        }
        r
    }

    /// A layer has a branch.
    proof fn lemma_layer_named(commits: Map<Text, CommitView>, from: Text, id: Text)
        requires
            layers(commits, from).contains(id),
        ensures
            exists|name: Text| #[trigger] layer_names(commits, id).contains(name),
    {
        let k = choose|k: Text| #[trigger]
            commits.contains_key(k) && commits[k].id == id && layer_refs(commits[k]).len() > 0;
        let name = layer_refs(commits[k])[0];
        assert(layer_refs(commits[k]).contains(name));
        assert(layer_names(commits, id).contains(name));
    }

    /// Where the checked-out stack ends.
    pub fn stack_tip(&self, selected: &str) -> (r: Result<(String, String, bool), String>)
        ensures
            tip_result(r) == tip_of(self@, selected@),
    {
        if !self.is_ancestor(selected, self.head.as_str()) {
            return Err("the selected commit is not in the checked-out stack".to_owned());
        }
        match &self.branch {
            None => Err("check out a local branch before rewriting it".to_owned()),
            Some(branch) => {
                if !starts_with(branch.as_str(), "fs-head/") {
                    return Ok((branch.clone(), self.head.clone(), false));
                }
                let ends = self.tip_ids(self.head.as_str());
                proof {
                    lemma_count(texts(ends@));
                }
                if ends.len() == 0 {
                    Ok((branch.clone(), self.head.clone(), true))
                } else if ends.len() == 1 {
                    let id = ends[0].clone();
                    let names = self.names_of_layer(id.as_str());
                    proof {
                        assert(texts(ends@).to_set().contains(texts(ends@)[0]));
                        Self::lemma_layer_named(self@.commits, self.head@, id@);
                        assert(texts(ends@)[0] == id@);
                    }
                    if contains(&names, branch.as_str()) {
                        assert(texts(names@).to_set().contains(branch@));
                        Ok((branch.clone(), id, true))
                    } else {
                        Ok((smallest(&names), id, true))
                    }
                } else {
                    Err(
                        "the checked-out layer has multiple descendant stack tips; check out the desired stack tip".to_owned(),
                    )
                }
            },
        }
    }

    /// The commits that moving `selected` with its substack carries along,
    /// oldest first.
    pub fn carried_substack(&self, selected: &str) -> (r: Result<Vec<String>, String>)
        ensures
            list_result(r) == carried(self@, selected@),
    {
        let (_, tip_commit, _) = match self.stack_tip(selected) {
            Ok(tip) => tip,
            Err(error) => {
                return Err(error);
            },
        };
        let parent = match self.first_parent(selected) {
            Ok(parent) => parent,
            Err(error) => {
                return Err(error);
            },
        };
        self.linear_segment(parent.as_str(), tip_commit.as_str())
    }

    /// Where the stack that `destination` is part of ends.
    pub fn descendant_stack_tip(&self, destination: &str) -> (r: Result<(String, String), String>)
        ensures
            end_result(r) == destination_tip(self@.commits, destination@),
    {
        let ends = self.tip_ids(destination);
        proof {
            lemma_count(texts(ends@));
        }
        if ends.len() == 0 {
            Ok((destination.to_owned(), destination.to_owned()))
        } else if ends.len() == 1 {
            let id = ends[0].clone();
            let names = self.names_of_layer(id.as_str());
            proof {
                assert(texts(ends@).to_set().contains(texts(ends@)[0]));
                Self::lemma_layer_named(self@.commits, destination@, id@);
                assert(texts(ends@)[0] == id@);
            }
            Ok((smallest(&names), id))
        } else {
            Err(
                "the destination has multiple descendant stack tips; check out or choose an unambiguous destination".to_owned(),
            )
        }
    }

    /// The branches at `ids`, each with the commit it is at, in order.
    pub fn ref_updates(&self, ids: &Vec<String>) -> (r: Vec<(String, String)>)
        ensures
            views(r@) == moved_refs(self@.commits, texts(ids@)),
    {
        let ghost commits = self@.commits;
        let ghost all = texts(ids@);
        let mut r: Vec<(String, String)> = Vec::new();
        let mut i: usize = 0;
        assert(all.take(0) =~= Seq::<Text>::empty());
        assert(views(r@) =~= refs_at(commits, all.take(0)));
        while i < ids.len()
            invariant
                i <= ids.len(),
                commits == self@.commits,
                all == texts(ids@),
                views(r@) == refs_at(commits, all.take(i as int)),
            decreases ids.len() - i,
        {
            let ghost id = all[i as int];
            let ghost was = views(r@);
            assert(all.take(i + 1).drop_last() =~= all.take(i as int));
            match self.commits.get(ids[i].as_str()) {
                Some(commit) => {
                    let ghost refs = texts(commit.local_refs@).map_values(|name: Text| (id, name));
                    let mut j: usize = 0;
                    while j < commit.local_refs.len()
                        invariant
                            i < ids.len(),
                            j <= commit.local_refs.len(),
                            all == texts(ids@),
                            id == all[i as int],
                            refs == texts(commit.local_refs@).map_values(|name: Text| (id, name)),
                            views(r@) == was + refs.take(j as int),
                        decreases commit.local_refs.len() - j,
                    {
                        let ghost now = views(r@);
                        r.push((ids[i].clone(), commit.local_refs[j].clone()));
                        assert(views(r@) =~= now.push(refs[j as int]));
                        assert(views(r@) =~= was + refs.take(j + 1));
                        j = j + 1;
                    }
                    assert(refs.take(refs.len() as int) =~= refs);
                },
                None => {
                    assert(was + Seq::<(Text, Text)>::empty() =~= was);
                },
            }
            i = i + 1;
        }
        assert(all.take(all.len() as int) =~= all);
        sort(r)
    }

    /// The branch to check out once `ids` have been replayed.
    pub fn checkout_branch(&self, ids: &Vec<String>, tip: &str, detach_for_rewrite: bool) -> (r:
        Result<String, String>)
        ensures
            text_result(r) == branch_to_check_out(
                self@.commits,
                texts(ids@),
                tip@,
                detach_for_rewrite,
            ),
    {
        if !detach_for_rewrite {
            return Ok(tip.to_owned());
        }
        if ids.len() == 0 {
            return Err("move has no commits".to_owned());
        }
        let last = &ids[ids.len() - 1];
        assert(texts(ids@).last() == last@);
        match self.commits.get(last.as_str()) {
            None => Err("unknown commit ".to_owned().concat(last.as_str())),
            Some(commit) => {
                let names = keep_prefixed(&commit.local_refs, "fs-head/");
                if contains(&names, tip) {
                    Ok(tip.to_owned())
                } else if names.len() == 0 {
                    Err(
                        "the resulting Forkstack tip has no fs-head branch; pick up its substack instead".to_owned(),
                    )
                } else {
                    Ok(smallest(&names))
                }
            },
        }
    }
}

/// The strings other than `selected`.
fn all_but(all: &Vec<String>, selected: &str) -> (r: Vec<String>)
    ensures
        texts(r@) == texts(all@).filter(other_than(selected@)),
{
    let ghost p = other_than(selected@);
    let ghost ids = texts(all@);
    let mut r: Vec<String> = Vec::new();
    let mut i: usize = 0;
    proof {
        reveal(Seq::filter);
        assert(ids.take(0).filter(p) =~= texts(r@));
    }
    while i < all.len()
        invariant
            i <= all.len(),
            ids == texts(all@),
            p == other_than(selected@),
            texts(r@) == ids.take(i as int).filter(p),
        decreases all.len() - i,
    {
        proof {
            lemma_filter_step(ids, i as int, p);
        }
        let ghost was = texts(r@);
        if !same(all[i].as_str(), selected) {
            r.push(all[i].clone());
            assert(texts(r@) =~= was.push(ids[i as int]));
        }
        i = i + 1;
    }
    assert(ids.take(ids.len() as int) =~= ids);
    r
}

/// Computes `shifted`.
fn shift(all: &Vec<String>, selected: &str, destination: Option<&str>) -> (r: Option<Vec<String>>)
    ensures
        match r {
            Some(ids) => shifted(
                texts(all@),
                selected@,
                match destination {
                    Some(place) => Some(place@),
                    None => None,
                },
            ) == Some(texts(ids@)),
            None => shifted(
                texts(all@),
                selected@,
                match destination {
                    Some(place) => Some(place@),
                    None => None,
                },
            ) is None,
        },
{
    let mut ids = all_but(all, selected);
    let ghost rest = texts(ids@);
    let insertion: usize = match destination {
        None => 0,
        Some(place) => match position(&ids, place) {
            None => {
                return None;
            },
            Some(i) => {
                proof {
                    rest.index_of_first_ensures(place@);
                    let first = rest.index_of_first(place@)->0;
                    assert(rest[i as int] == place@);
                    assert(rest.contains(place@));
                    if first < i {
                        assert(ids@[first]@ == rest[first]);
                    }
                    assert(first == i);
                }
                i + 1
            },
        },
    };
    ids.insert(insertion, selected.to_owned());
    assert(texts(ids@) =~= rest.insert(insertion as int, selected@));
    Some(ids)
}

/// Whether two lists have a string in common.
fn overlap(a: &Vec<String>, b: &Vec<String>) -> (r: bool)
    ensures
        r == exists|id: Text| #[trigger] texts(a@).contains(id) && texts(b@).contains(id),
{
    let mut i: usize = 0;
    while i < a.len()
        invariant
            i <= a.len(),
            forall|j: int| 0 <= j < i ==> !texts(b@).contains((#[trigger] a@[j])@),
        decreases a.len() - i,
    {
        if contains(b, a[i].as_str()) {
            assert(texts(a@)[i as int] == a@[i as int]@);
            assert(texts(a@).contains(a@[i as int]@));
            return true;
        }
        i = i + 1;
    }
    proof {
        assert forall|id: Text| #[trigger] texts(a@).contains(id) implies !texts(b@).contains(
            id,
        ) by {
            let j = texts(a@).index_of(id);
            assert(a@[j]@ == id);
        }
    }
    false
}

impl Graph {
    /// Plans to move `selected` and what is above it in its stack.
    fn plan_substack(
        &self,
        selected: &str,
        destination: &str,
        tip: (String, String, bool),
        parent: String,
    ) -> (r: Result<MovePlan, String>)
        ensures
            move_result(r) == substack_move(
                self@,
                selected@,
                destination@,
                (tip.0@, tip.1@, tip.2),
                parent@,
            ),
    {
        if same(destination, parent.as_str()) {
            return Err("that move would not change the stack".to_owned());
        }
        let carried = match self.linear_segment(parent.as_str(), tip.1.as_str()) {
            Ok(carried) => carried,
            Err(error) => {
                return Err(error);
            },
        };
        if self.is_ancestor(selected, destination) {
            return Err("the destination is inside the selected substack".to_owned());
        }
        let (end_name, end_commit) = match self.descendant_stack_tip(destination) {
            Ok(end) => end,
            Err(error) => {
                return Err(error);
            },
        };
        let mut above = match self.linear_segment(destination, end_commit.as_str()) {
            Ok(above) => above,
            Err(error) => {
                return Err(error);
            },
        };
        if overlap(&carried, &above) {
            return Err(
                "the destination descendant chain overlaps the selected substack".to_owned(),
            );
        }
        let carried_count: usize = carried.len();
        let name = if above.len() == 0 {
            tip.0
        } else {
            end_name
        };
        let mut commits = carried;
        let ghost parts = (texts(commits@), texts(above@));
        commits.append(&mut above);
        assert(texts(commits@) =~= parts.0 + parts.1);
        if commits.len() == 0 {
            return Err("move has no commits".to_owned());
        }
        let tip_commit = commits[commits.len() - 1].clone();
        let checkout_branch = match self.checkout_branch(&commits, name.as_str(), tip.2) {
            Ok(branch) => branch,
            Err(error) => {
                return Err(error);
            },
        };
        let ref_updates = self.ref_updates(&commits);
        let plan = MovePlan {
            selected: selected.to_owned(),
            destination: destination.to_owned(),
            include_descendants: true,
            base: destination.to_owned(),
            source_base: parent,
            carried_count,
            tip: name,
            tip_commit,
            detach_for_rewrite: tip.2,
            checkout_branch,
            ref_updates,
            commits,
        };
        assert(plan@.tip_commit == texts(plan.commits@).last());
        Ok(plan)
    }

    /// Plans to move a single commit within its stack.
    fn plan_commit(
        &self,
        selected: &str,
        destination: &str,
        tip: (String, String, bool),
        parent: String,
    ) -> (r: Result<MovePlan, String>)
        ensures
            move_result(r) == commit_move(
                self@,
                selected@,
                destination@,
                (tip.0@, tip.1@, tip.2),
                parent@,
            ),
    {
        if !self.is_ancestor(destination, tip.1.as_str()) {
            return Err(
                "a single commit can only move within the checked-out stack; pick up its substack to move it elsewhere".to_owned(),
            );
        }
        let later = self.is_ancestor(selected, destination);
        let base = if later {
            parent.clone()
        } else {
            destination.to_owned()
        };
        let original = match self.linear_segment(base.as_str(), tip.1.as_str()) {
            Ok(original) => original,
            Err(error) => {
                return Err(error);
            },
        };
        let place = if later {
            Some(destination)
        } else {
            None
        };
        let commits = match shift(&original, selected, place) {
            Some(commits) => commits,
            None => {
                return Err("destination is not in the linear stack".to_owned());
            },
        };
        if equal(&commits, &original) {
            return Err("that move would not change the stack".to_owned());
        }
        let checkout_branch = match self.checkout_branch(&commits, tip.0.as_str(), tip.2) {
            Ok(branch) => branch,
            Err(error) => {
                return Err(error);
            },
        };
        let ref_updates = self.ref_updates(&commits);
        Ok(
            MovePlan {
                selected: selected.to_owned(),
                destination: destination.to_owned(),
                include_descendants: false,
                base,
                source_base: parent,
                carried_count: 1,
                tip: tip.0,
                tip_commit: tip.1,
                detach_for_rewrite: tip.2,
                checkout_branch,
                ref_updates,
                commits,
            },
        )
    }

    /// Plans to put `selected`, alone or with what is above it in its stack,
    /// behind `destination`.
    pub fn plan_move(&self, selected: &str, destination: &str, include_descendants: bool) -> (r:
        Result<MovePlan, String>)
        ensures
            move_result(r) == planned(self@, selected@, destination@, include_descendants),
    {
        if same(selected, destination) {
            return Err("a commit cannot be dropped onto itself".to_owned());
        }
        let tip = match self.stack_tip(selected) {
            Ok(tip) => tip,
            Err(error) => {
                return Err(error);
            },
        };
        let parent = match self.first_parent(selected) {
            Ok(parent) => parent,
            Err(error) => {
                return Err(error);
            },
        };
        if include_descendants {
            self.plan_substack(selected, destination, tip, parent)
        } else {
            self.plan_commit(selected, destination, tip, parent)
        }
    }
}

} // verus!
