//! How paths are called.

use crate::paths::{
    behind, called, called_below, file_name_of, is_step, path_below, rooted, step_places, steps,
};
use crate::split::{joined, split_on};
use crate::stack::plan_laws::lemma_split_some;
use crate::text::Text;
use crate::ui::log_laws::{lemma_split_behind, lemma_split_whole};
use vstd::prelude::*;

verus! {

/// A name of a file: it is not empty, has no slash and is neither a dot nor two.
pub open spec fn is_plain_name(name: Text) -> bool {
    name.len() > 0 && !name.contains('/') && name != "."@ && name != ".."@
}

proof fn lemma_places(parts: Seq<Text>, name: Text)
    requires
        parts.len() > 0,
        name.len() > 0,
        name != "."@,
    ensures
        step_places(parts.push(name)) == step_places(parts).push(parts.len() as int),
{
    let all = parts.push(name);
    let n = parts.len();
    let some = |i: int| is_step(parts, i);
    let more = |i: int| is_step(all, i);
    let before = Seq::new(n, |i: int| i);
    let places = Seq::new(n + 1, |i: int| i);
    assert(places.drop_last() =~= before);
    assert(places.last() == n);
    assert(more(n as int));
    lemma_same_filter(before, some, more);
    reveal(Seq::filter);
    assert(places.filter(more) == before.filter(more).push(n as int));
    assert(step_places(parts) == before.filter(some));
    assert(step_places(all) == places.filter(more));
}

proof fn lemma_same_filter(v: Seq<int>, p: spec_fn(int) -> bool, q: spec_fn(int) -> bool)
    requires
        forall|i: int| 0 <= i < v.len() ==> p(#[trigger] v[i]) == q(v[i]),
    ensures
        v.filter(p) == v.filter(q),
    decreases v.len(),
{
    reveal(Seq::filter);
    if v.len() > 0 {
        let init = v.drop_last();
        assert forall|i: int| 0 <= i < init.len() implies p(#[trigger] init[i]) == q(init[i]) by {
            assert(init[i] == v[i]);
        }
        lemma_same_filter(init, p, q);
        assert(p(v[v.len() - 1]) == q(v[v.len() - 1]));
    }
}

/// A path in a directory is called by its name there, and by itself a path is called by its
/// last step.
pub proof fn law_paths_are_called_by_their_names(root: Text, name: Text)
    requires
        root.len() > 0,
        is_plain_name(name),
    ensures
        called_below(root + "/"@ + name, root) == name,
        called(root + "/"@ + name) == name,
{
    reveal_strlit("/");
    let path = root + "/"@ + name;
    assert("/"@ =~= seq!['/']);
    lemma_split_behind(root, name, '/');
    lemma_split_whole(name, '/');
    lemma_split_some(root, '/');
    let parts = split_on(root, '/');
    let all = split_on(path, '/');
    assert(all =~= parts.push(name));
    lemma_places(parts, name);
    let places = step_places(parts);
    let found = step_places(all);
    let n = parts.len() as int;
    assert(found == places.push(n));
    assert(steps(path).len() == found.len());
    assert(steps(root).len() == places.len());
    assert(steps(path).last() == name);
    assert(called(path) == name);
    assert forall|i: int| 0 <= i < places.len() implies steps(path)[i] == #[trigger] steps(
        root,
    )[i] by {
        let at = places[i];
        let order = Seq::new(parts.len(), |j: int| j);
        order.lemma_filter_contains_rev(|j: int| is_step(parts, j), at);
        assert(order.contains(at));
        assert(all[at] == parts[at]);
    }
    assert(steps(root).is_prefix_of(steps(path))) by {
        assert(steps(path).subrange(0, places.len() as int) =~= steps(root));
    }
    assert(path[0] == root[0]);
    assert(rooted(path) == rooted(root)) by {
        if path[0] == '/' {
            assert(path.subrange(0, 1) =~= "/"@);
            assert(root.subrange(0, 1) =~= "/"@);
        } else {
            assert("/"@[0] == '/');
        }
    }
    let rest = all.subrange(n, n + 1);
    assert(rest =~= seq![name]);
    assert(behind(path, places.len() as int) == joined(rest, "/"@));
    assert(path_below(path, root) == Some(name));
}

/// A directory of which nothing is left below itself is called by its own name, and a path
/// that is not below another by the whole of it.
pub proof fn law_other_paths_are_called_by_themselves(path: Text, root: Text)
    requires
        path.len() > 0,
    ensures
        path_below(path, root) is None ==> called_below(path, root) == path,
        path_below(path, path) is Some ==> path_below(path, path)->0.len() == 0,
        file_name_of(path) is None ==> called(path) == path,
        called_below(path, path) == called(path),
{
    assert(steps(path).is_prefix_of(steps(path)));
}

} // verus!
