//! Which commits lead to which.

use crate::text::{same, texts, Text};
use crate::ui::model::{CommitView, Graph};
use vstd::hash_set::StringHashSet;
use vstd::prelude::*;

verus! {

/// `q` is a parent of `p`.
pub open spec fn is_parent(commits: Map<Text, CommitView>, p: Text, q: Text) -> bool {
    commits.contains_key(p) && commits[p].parents.contains(q)
}

/// A way from a commit to one of its ancestors, each a parent of the one before.
pub open spec fn is_path(commits: Map<Text, CommitView>, path: Seq<Text>) -> bool {
    &&& path.len() > 0
    &&& forall|i: int|
        0 <= i < path.len() - 1 ==> is_parent(commits, #[trigger] path[i], path[i + 1])
}

/// `ancestor` can be reached from `descendant` by going from commits to their
/// parents; each commit is its own ancestor.
pub open spec fn reaches(
    commits: Map<Text, CommitView>,
    descendant: Text,
    ancestor: Text,
) -> bool {
    exists|path: Seq<Text>|
        #[trigger] is_path(commits, path) && path[0] == descendant && path.last() == ancestor
}

/// Each commit is its own ancestor.
pub proof fn lemma_reaches_self(commits: Map<Text, CommitView>, id: Text)
    ensures
        reaches(commits, id, id),
{
    assert(is_path(commits, seq![id]));
}

/// The ancestors of a parent are ancestors.
pub proof fn lemma_reaches_step(commits: Map<Text, CommitView>, p: Text, q: Text, a: Text)
    requires
        is_parent(commits, p, q),
        reaches(commits, q, a),
    ensures
        reaches(commits, p, a),
{
    let path = choose|path: Seq<Text>|
        #[trigger] is_path(commits, path) && path[0] == q && path.last() == a;
    let longer = seq![p] + path;
    assert forall|i: int| 0 <= i < longer.len() - 1 implies is_parent(
        commits,
        #[trigger] longer[i],
        longer[i + 1],
    ) by {
        if i > 0 {
            assert(longer[i] == path[i - 1]);
            assert(longer[i + 1] == path[i]);
        }
    }
    assert(is_path(commits, longer));
    assert(longer.last() == a);
}

/// An ancestor of an ancestor is an ancestor.
pub proof fn lemma_reaches_transitive(
    commits: Map<Text, CommitView>,
    a: Text,
    b: Text,
    c: Text,
)
    requires
        reaches(commits, a, b),
        reaches(commits, b, c),
    ensures
        reaches(commits, a, c),
{
    let first = choose|path: Seq<Text>|
        #[trigger] is_path(commits, path) && path[0] == a && path.last() == b;
    let second = choose|path: Seq<Text>|
        #[trigger] is_path(commits, path) && path[0] == b && path.last() == c;
    let whole = first + second.drop_first();
    assert forall|i: int| 0 <= i < whole.len() - 1 implies is_parent(
        commits,
        #[trigger] whole[i],
        whole[i + 1],
    ) by {
        let n = first.len() as int;
        if i < n - 1 {
            assert(whole[i] == first[i] && whole[i + 1] == first[i + 1]);
        } else {
            assert(whole[i] == second[i - n + 1]);
            assert(whole[i + 1] == second[i - n + 2]);
        }
    }
    assert(is_path(commits, whole));
    assert(whole.last() == c);
}

/// A set that holds the parents of each of its members holds their ancestors.
pub proof fn lemma_closed(commits: Map<Text, CommitView>, closed: Set<Text>, from: Text, to: Text)
    requires
        closed.contains(from),
        forall|p: Text, q: Text|
            closed.contains(p) && #[trigger] is_parent(commits, p, q) ==> closed.contains(q),
        reaches(commits, from, to),
    ensures
        closed.contains(to),
{
    let path = choose|path: Seq<Text>|
        #[trigger] is_path(commits, path) && path[0] == from && path.last() == to;
    lemma_closed_path(commits, closed, path, path.len() - 1);
}

proof fn lemma_closed_path(commits: Map<Text, CommitView>, closed: Set<Text>, path: Seq<Text>, i: int)
    requires
        is_path(commits, path),
        0 <= i < path.len(),
        closed.contains(path[0]),
        forall|p: Text, q: Text|
            closed.contains(p) && #[trigger] is_parent(commits, p, q) ==> closed.contains(q),
    ensures
        closed.contains(path[i]),
    decreases i,
{
    if i > 0 {
        lemma_closed_path(commits, closed, path, i - 1);
        assert(is_parent(commits, path[i - 1], path[i - 1 + 1]));
    }
}

/// How many commits have not been seen.
pub open spec fn unseen(names: Seq<Text>, seen: Set<Text>) -> nat {
    names.filter(|x: Text| !seen.contains(x)).len()
}

proof fn lemma_unseen(names: Seq<Text>, seen: Set<Text>, id: Text)
    ensures
        unseen(names, seen.insert(id)) <= unseen(names, seen),
        names.contains(id) && !seen.contains(id) ==> unseen(names, seen.insert(id)) < unseen(
            names,
            seen,
        ),
    decreases names.len(),
{
    reveal(Seq::filter);
    if names.len() > 0 {
        lemma_unseen(names.drop_last(), seen, id);
        if names.contains(id) && names.last() != id {
            let i = names.index_of(id);
            assert(names.drop_last()[i] == id);
        }
    }
}

/// Everything that can be reached from `roots`.
pub open spec fn reached(commits: Map<Text, CommitView>, roots: Set<Text>) -> Set<Text> {
    Set::new(|id: Text| exists|root: Text| roots.contains(root) && reaches(commits, root, id))
}

impl Graph {
    /// Appends the parents of a commit to `pending`.
    fn push_parents(&self, id: &str, pending: &mut Vec<String>)
        ensures
            texts(final(pending)@) == texts(old(pending)@) + if self@.commits.contains_key(id@) {
                self@.commits[id@].parents
            } else {
                Seq::empty()
            },
    {
        match self.commits.get(id) {
            Some(commit) => {
                let ghost was = texts(pending@);
                let ghost parents = texts(commit.parents@);
                let mut i: usize = 0;
                while i < commit.parents.len()
                    invariant
                        i <= commit.parents.len(),
                        parents == texts(commit.parents@),
                        texts(pending@) == was + parents.take(i as int),
                    decreases commit.parents.len() - i,
                {
                    let ghost now = texts(pending@);
                    pending.push(commit.parents[i].clone());
                    assert(texts(pending@) =~= now.push(parents[i as int]));
                    assert(texts(pending@) =~= was + parents.take(i + 1));
                    i = i + 1;
                }
                assert(parents.take(parents.len() as int) =~= parents);
            },
            None => {
                assert(texts(pending@) + Seq::<Text>::empty() =~= texts(pending@));
            },
        }
    }

    /// Everything that can be reached from the ids in `roots`.
    pub(crate) fn reachable(&self, roots: Vec<String>) -> (r: StringHashSet)
        ensures
            r@ == reached(self@.commits, texts(roots@).to_set()),
    {
        let ghost commits = self@.commits;
        let ghost start = texts(roots@);
        let n = self.commits.len();
        let ghost names = self.commits.names();
        let mut pending = roots;
        let mut seen = StringHashSet::new();
        proof {
            assert forall|id: Text| #[trigger] start.contains(id) implies reached(
                commits,
                start.to_set(),
            ).contains(id) by {
                lemma_reaches_self(commits, id);
                assert(start.to_set().contains(id));
            }
        }
        while pending.len() > 0
            invariant
                commits == self@.commits,
                names == self.commits.names(),
                forall|id: Text| #[trigger] self.commits.raw().contains_key(id) <==> names.contains(id),
                forall|id: Text| #[trigger]
                    start.contains(id) ==> seen@.contains(id) || texts(pending@).contains(id),
                forall|id: Text| #[trigger]
                    seen@.contains(id) ==> reached(commits, start.to_set()).contains(id),
                forall|id: Text| #[trigger]
                    texts(pending@).contains(id) ==> reached(commits, start.to_set()).contains(id),
                forall|p: Text, q: Text|
                    seen@.contains(p) && #[trigger] is_parent(commits, p, q) ==> seen@.contains(q)
                        || texts(pending@).contains(q),
            decreases unseen(names, seen@), pending.len(),
        {
            let ghost before = texts(pending@);
            let ghost was = seen@;
            let id = pending.pop().unwrap();
            proof {
                assert(before =~= texts(pending@).push(id@));
                assert forall|x: Text|
                    #![trigger before.contains(x)]
                    #![trigger texts(pending@).contains(x)]
                    before.contains(x) == (texts(pending@).contains(x) || x == id@) by {
                    vstd::seq_lib::lemma_seq_contains_after_push(texts(pending@), id@, x);
                }
                assert(before.contains(id@));
                lemma_unseen(names, was, id@);
            }
            let fresh = seen.insert(id.clone());
            if fresh {
                let ghost rest = texts(pending@);
                self.push_parents(id.as_str(), &mut pending);
                proof {
                    let parents = if commits.contains_key(id@) {
                        commits[id@].parents
                    } else {
                        Seq::empty()
                    };
                    assert forall|x: Text| #[trigger] texts(pending@).contains(x) == (rest.contains(x)
                        || parents.contains(x)) by {
                        vstd::seq_lib::lemma_seq_concat_contains_all_elements(rest, parents, x);
                    }
                    assert(reached(commits, start.to_set()).contains(id@));
                    assert forall|x: Text| #[trigger] parents.contains(x) implies reached(
                        commits,
                        start.to_set(),
                    ).contains(x) by {
                        let root = choose|root: Text|
                            start.to_set().contains(root) && reaches(commits, root, id@);
                        lemma_reaches_self(commits, x);
                        assert(is_parent(commits, id@, x));
                        lemma_reaches_step(commits, id@, x, x);
                        lemma_reaches_transitive(commits, root, id@, x);
                    }
                    assert forall|p: Text, q: Text|
                        seen@.contains(p) && #[trigger] is_parent(
                            commits,
                            p,
                            q,
                        ) implies seen@.contains(q) || texts(pending@).contains(q) by {
                        if p == id@ {
                            assert(parents.contains(q));
                        } else {
                            assert(was.contains(p));
                        }
                    }
                    if !commits.contains_key(id@) {
                        assert(texts(pending@) =~= rest);
                    } else {
                        assert(self.commits.raw().contains_key(id@));
                    }
                }
            } else {
                assert(seen@ =~= was);
            }
        }
        proof {
            assert(texts(pending@) =~= Seq::<Text>::empty());
            assert forall|id: Text| reached(commits, start.to_set()).contains(
                id,
            ) implies seen@.contains(id) by {
                let root = choose|root: Text|
                    start.to_set().contains(root) && reaches(commits, root, id);
                assert(start.contains(root));
                lemma_closed(commits, seen@, root, id);
            }
            assert(seen@ =~= reached(commits, start.to_set()));
        }
        seen
    }

    /// Whether `ancestor` can be reached from `descendant` by going from commits
    /// to their parents.
    pub fn is_ancestor(&self, ancestor: &str, descendant: &str) -> (r: bool)
        ensures
            r == reaches(self@.commits, descendant@, ancestor@),
    {
        let mut roots: Vec<String> = Vec::new();
        roots.push(descendant.to_owned());
        let seen = self.reachable(roots);
        proof {
            let start = texts(roots@).to_set();
            assert(texts(roots@) =~= seq![descendant@]);
            assert(texts(roots@)[0] == descendant@);
            assert(start.contains(descendant@));
            assert forall|root: Text| #[trigger] start.contains(root) implies root == descendant@ by {}
        }
        seen.contains(ancestor)
    }
}

/// Why a walk along first parents stops without reaching its end.
pub open spec fn off_history(base: Text, tip: Text) -> Text {
    base + " is not on the first-parent history of "@ + tip
}

/// The commits from `at` back to the one after `base`, oldest first, where each
/// has a single parent. The walk gives up after `fuel` steps.
pub open spec fn walk(
    commits: Map<Text, CommitView>,
    base: Text,
    tip: Text,
    at: Text,
    fuel: nat,
) -> Result<Seq<Text>, Text>
    decreases fuel,
{
    if at == base {
        Ok(Seq::empty())
    } else if !commits.contains_key(at) {
        Err(off_history(base, tip))
    } else if commits[at].parents.len() != 1 {
        Err("moves across merge commits are not supported"@)
    } else if fuel == 0 {
        Err("the commit history loops back on itself"@)
    } else {
        match walk(commits, base, tip, commits[at].parents[0], (fuel - 1) as nat) {
            Ok(older) => Ok(older.push(at)),
            Err(error) => Err(error),
        }
    }
}

/// The commits after `base` through `tip`, oldest first.
pub open spec fn segment(commits: Map<Text, CommitView>, base: Text, tip: Text) -> Result<
    Seq<Text>,
    Text,
> {
    walk(commits, base, tip, tip, commits.len())
}

/// The commits of a successful walk, with `newer` behind them.
pub open spec fn followed_by(older: Result<Seq<Text>, Text>, newer: Seq<Text>) -> Result<
    Seq<Text>,
    Text,
> {
    match older {
        Ok(older) => Ok(older + newer),
        Err(error) => Err(error),
    }
}

/// The single parent of a commit.
pub open spec fn only_parent(commits: Map<Text, CommitView>, id: Text) -> Result<Text, Text> {
    if !commits.contains_key(id) {
        Err("unknown commit "@ + id)
    } else if commits[id].parents.len() != 1 {
        Err("moves across merge commits or root commits are not supported"@)
    } else {
        Ok(commits[id].parents[0])
    }
}

/// The texts of a result.
pub open spec fn list_result(r: Result<Vec<String>, String>) -> Result<Seq<Text>, Text> {
    match r {
        Ok(v) => Ok(texts(v@)),
        Err(error) => Err(error@),
    }
}

/// The text of a result.
pub open spec fn text_result(r: Result<String, String>) -> Result<Text, Text> {
    match r {
        Ok(s) => Ok(s@),
        Err(error) => Err(error@),
    }
}

impl Graph {
    /// The single parent of a commit.
    pub fn first_parent(&self, id: &str) -> (r: Result<String, String>)
        ensures
            text_result(r) == only_parent(self@.commits, id@),
    {
        match self.commits.get(id) {
            None => Err("unknown commit ".to_owned().concat(id)),
            Some(commit) => {
                if commit.parents.len() != 1 {
                    Err(
                        "moves across merge commits or root commits are not supported".to_owned(),
                    )
                } else {
                    Ok(commit.parents[0].clone())
                }
            },
        }
    }

    /// The commits after `base` through `tip`, oldest first.
    pub fn linear_segment(&self, base: &str, tip: &str) -> (r: Result<Vec<String>, String>)
        ensures
            list_result(r) == segment(self@.commits, base@, tip@),
    {
        let ghost commits = self@.commits;
        let mut newest: Vec<String> = Vec::new();
        let mut current = tip.to_owned();
        let mut fuel: usize = self.commits.len();
        proof {
            let names = self.commits.names();
            assert(commits.dom() =~= names.to_set());
            names.unique_seq_to_set();
            assert(fuel == commits.len());
            assert(texts(newest@).reverse() =~= Seq::<Text>::empty());
            match segment(commits, base@, tip@) {
                Ok(all) => {
                    assert(all + Seq::<Text>::empty() =~= all);
                },
                Err(_) => {},
            }
        }
        while !same(current.as_str(), base)
            invariant
                commits == self@.commits,
                segment(commits, base@, tip@) == followed_by(
                    walk(commits, base@, tip@, current@, fuel as nat),
                    texts(newest@).reverse(),
                ),
            decreases fuel,
        {
            match self.commits.get(current.as_str()) {
                None => {
                    return Err(
                        base.to_owned().concat(" is not on the first-parent history of ").concat(
                            tip,
                        ),
                    );
                },
                Some(commit) => {
                    if commit.parents.len() != 1 {
                        return Err("moves across merge commits are not supported".to_owned());
                    }
                    if fuel == 0 {
                        return Err("the commit history loops back on itself".to_owned());
                    }
                    let ghost was = texts(newest@);
                    let ghost at = current@;
                    newest.push(current);
                    current = commit.parents[0].clone();
                    fuel = fuel - 1;
                    proof {
                        assert(texts(newest@) =~= was.push(at));
                        assert(texts(newest@).reverse() =~= seq![at] + was.reverse());
                        match walk(commits, base@, tip@, current@, fuel as nat) {
                            Ok(older) => {
                                assert(older.push(at) + was.reverse() =~= older + texts(
                                    newest@,
                                ).reverse());
                            },
                            Err(_) => {},
                        }
                    }
                },
            }
        }
        let mut r: Vec<String> = Vec::new();
        let ghost all = texts(newest@);
        let mut i: usize = newest.len();
        while i > 0
            invariant
                i <= newest.len(),
                all == texts(newest@),
                texts(r@) == all.reverse().take(newest.len() - i),
            decreases i,
        {
            i = i - 1;
            let ghost was = texts(r@);
            r.push(newest[i].clone());
            assert(texts(r@) =~= was.push(all[i as int]));
            assert(texts(r@) =~= all.reverse().take(newest.len() - i));
        }
        assert(texts(r@) =~= all.reverse());
        assert(Seq::<Text>::empty() + all.reverse() =~= all.reverse());
        Ok(r)
    }
}

/// The commit that is reached from `tip` by `n` steps to the single parent.
pub open spec fn back(commits: Map<Text, CommitView>, tip: Text, n: nat) -> Option<Text>
    decreases n,
{
    if n == 0 {
        Some(tip)
    } else {
        match back(commits, tip, (n - 1) as nat) {
            Some(id) => match only_parent(commits, id) {
                Ok(parent) => Some(parent),
                Err(_) => None,
            },
            None => None,
        }
    }
}

/// Going back in two stages.
proof fn lemma_back_add(commits: Map<Text, CommitView>, tip: Text, a: nat, b: nat)
    requires
        back(commits, tip, a) is Some,
    ensures
        back(commits, tip, a + b) == back(commits, back(commits, tip, a)->0, b),
    decreases b,
{
    if b > 0 {
        lemma_back_add(commits, tip, a, (b - 1) as nat);
    }
}

/// Each stage before one that is reached is reached.
proof fn lemma_back_before(commits: Map<Text, CommitView>, tip: Text, a: nat, b: nat)
    requires
        back(commits, tip, b) is Some,
        a <= b,
    ensures
        back(commits, tip, a) is Some,
    decreases b,
{
    if a < b {
        lemma_back_before(commits, tip, a, (b - 1) as nat);
    }
}

/// A walk that reaches `base` in `n` steps, and not before, finds the commits on
/// its way.
proof fn lemma_walk_found(
    commits: Map<Text, CommitView>,
    base: Text,
    tip: Text,
    at: Text,
    n: nat,
    fuel: nat,
)
    requires
        back(commits, at, n) == Some(base),
        forall|k: nat| k < n ==> #[trigger] back(commits, at, k) != Some(base),
        n <= fuel,
    ensures
        walk(commits, base, tip, at, fuel) is Ok,
        walk(commits, base, tip, at, fuel)->Ok_0.len() == n,
        forall|i: int|
            0 <= i < n ==> back(commits, at, (n - 1 - i) as nat) == Some(
                #[trigger] walk(commits, base, tip, at, fuel)->Ok_0[i],
            ),
    decreases n,
{
    assert(back(commits, at, 0) == Some(at));
    if n > 0 {
        lemma_back_before(commits, at, 1, n);
        assert(back(commits, at, 1) is Some) by {
            reveal_with_fuel(back, 2);
        }
        let parent = back(commits, at, 1)->0;
        assert(only_parent(commits, at) == Ok::<Text, Text>(parent)) by {
            reveal_with_fuel(back, 2);
        }
        lemma_back_add(commits, at, 1, (n - 1) as nat);
        assert forall|k: nat| k < n - 1 implies #[trigger] back(commits, parent, k) != Some(
            base,
        ) by {
            lemma_back_add(commits, at, 1, k);
            assert(back(commits, at, k + 1) != Some(base));
        }
        lemma_walk_found(commits, base, tip, parent, (n - 1) as nat, (fuel - 1) as nat);
        let older = walk(commits, base, tip, parent, (fuel - 1) as nat)->Ok_0;
        let all = walk(commits, base, tip, at, fuel)->Ok_0;
        assert(all == older.push(at));
        assert forall|i: int| 0 <= i < n implies back(commits, at, (n - 1 - i) as nat) == Some(
            #[trigger] all[i],
        ) by {
            if i < n - 1 {
                assert(all[i] == older[i]);
                lemma_back_add(commits, at, 1, (n - 2 - i) as nat);
            }
        }
    }
}

/// A commit that is met twice is met again and again: what is reached first
/// after `j` steps would have been reached sooner.
proof fn lemma_no_return(commits: Map<Text, CommitView>, tip: Text, base: Text, i: nat, j: nat, n: nat)
    requires
        i < j < n,
        back(commits, tip, n) == Some(base),
        forall|k: nat| k < n ==> #[trigger] back(commits, tip, k) != Some(base),
    ensures
        back(commits, tip, i) != back(commits, tip, j),
{
    if back(commits, tip, i) == back(commits, tip, j) {
        lemma_back_before(commits, tip, j, n);
        lemma_back_add(commits, tip, j, (n - j) as nat);
        lemma_back_add(commits, tip, i, (n - j) as nat);
        assert(back(commits, tip, (i + (n - j)) as nat) == Some(base));
    }
}

/// Whenever `base` is on the first-parent history of `tip`, with single parents
/// between, the segment between them is found, and holds each commit once.
pub proof fn lemma_segment_found(commits: Map<Text, CommitView>, base: Text, tip: Text, n: nat)
    requires
        commits.dom().finite(),
        back(commits, tip, n) == Some(base),
    ensures
        segment(commits, base, tip) is Ok,
        segment(commits, base, tip)->Ok_0.no_duplicates(),
    decreases n,
{
    if exists|k: nat| k < n && #[trigger] back(commits, tip, k) == Some(base) {
        let k = choose|k: nat| k < n && #[trigger] back(commits, tip, k) == Some(base);
        lemma_segment_found(commits, base, tip, k);
    } else {
        let met = Seq::new(n, |i: int| back(commits, tip, i as nat)->0);
        assert forall|i: int| 0 <= i < n implies commits.contains_key(#[trigger] met[i])
            && back(commits, tip, i as nat) == Some(met[i]) by {
            lemma_back_before(commits, tip, (i + 1) as nat, n);
            lemma_back_before(commits, tip, i as nat, n);
        }
        assert forall|i: int, j: int| 0 <= i < j < n implies met[i] != met[j] by {
            lemma_no_return(commits, tip, base, i as nat, j as nat, n);
            assert(back(commits, tip, i as nat) == Some(met[i]));
            assert(back(commits, tip, j as nat) == Some(met[j]));
        }
        assert(met.no_duplicates());
        met.unique_seq_to_set();
        assert(met.to_set().subset_of(commits.dom()));
        vstd::set_lib::lemma_len_subset(met.to_set(), commits.dom());
        lemma_walk_found(commits, base, tip, tip, n, commits.len());
        let all = segment(commits, base, tip)->Ok_0;
        assert forall|i: int, j: int| 0 <= i < j < all.len() implies all[i] != all[j] by {
            assert(back(commits, tip, (n - 1 - i) as nat) == Some(all[i]));
            assert(back(commits, tip, (n - 1 - j) as nat) == Some(all[j]));
            assert(met[n - 1 - i] == all[i] && met[n - 1 - j] == all[j]);
        }
    }
}

} // verus!
