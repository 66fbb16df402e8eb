//! Paths, as texts whose parts are separated by slashes.

use crate::order::lemma_filter_step;
use crate::split::{join, joined, split, split_on};
use crate::text::{maybe, same, starts_with, texts, Text};
use vstd::prelude::*;

verus! {

/// Whether a path begins at the root.
pub open spec fn rooted(path: Text) -> bool {
    "/"@.is_prefix_of(path)
}

/// Whether a part of a path is a step. A part that is empty is none, and a dot is one only
/// where the path begins with it.
pub open spec fn is_step(parts: Seq<Text>, i: int) -> bool {
    parts[i].len() > 0 && (i == 0 || parts[i] != "."@)
}

/// Where the steps stand among the parts of a path.
pub open spec fn step_places(parts: Seq<Text>) -> Seq<int> {
    Seq::new(parts.len(), |i: int| i).filter(|i: int| is_step(parts, i))
}

/// The parts of a path at some places.
pub open spec fn parts_at(parts: Seq<Text>, places: Seq<int>) -> Seq<Text> {
    places.map_values(|i: int| parts[i])
}

/// The steps of a path.
pub open spec fn steps(path: Text) -> Seq<Text> {
    let parts = split_on(path, '/');
    parts_at(parts, step_places(parts))
}

/// Places as numbers.
spec fn places(found: Seq<usize>) -> Seq<int> {
    found.map_values(|i: usize| i as int)
}

/// Whether places stand in order below a length.
spec fn in_order(found: Seq<usize>, len: int) -> bool {
    &&& forall|j: int| 0 <= j < found.len() ==> #[trigger] found[j] < len
    &&& forall|j: int, k: int| 0 <= j < k < found.len() ==> found[j] < found[k]
}

/// Computes `step_places`.
fn find_steps(parts: &Vec<String>) -> (r: Vec<usize>)
    ensures
        places(r@) == step_places(texts(parts@)),
        in_order(r@, parts.len() as int),
{
    let ghost texts_of = texts(parts@);
    let ghost all = Seq::new(texts_of.len(), |i: int| i);
    let ghost keeps = |i: int| is_step(texts_of, i);
    let mut r: Vec<usize> = Vec::new();
    let mut i: usize = 0;
    assert(all.take(0) =~= Seq::<int>::empty());
    assert(places(r@) =~= all.take(0).filter(keeps)) by {
        reveal(Seq::filter);
    }
    while i < parts.len()
        invariant
            i <= parts.len(),
            texts_of == texts(parts@),
            all == Seq::new(texts_of.len(), |i: int| i),
            keeps == (|i: int| is_step(texts_of, i)),
            places(r@) == all.take(i as int).filter(keeps),
            in_order(r@, i as int),
        decreases parts.len() - i,
    {
        proof {
            lemma_filter_step(all, i as int, keeps);
        }
        assert(texts_of[i as int] == parts@[i as int]@);
        if !parts[i].as_str().is_empty() && (i == 0 || !same(parts[i].as_str(), ".")) {
            let ghost was = places(r@);
            r.push(i);
            assert(places(r@) =~= was.push(i as int));
        }
        i = i + 1;
    }
    assert(all.take(all.len() as int) =~= all);
    r
}

/// The parts at places that were found.
fn take_parts(parts: &Vec<String>, found: &Vec<usize>) -> (r: Vec<String>)
    requires
        in_order(found@, parts.len() as int),
    ensures
        texts(r@) == parts_at(texts(parts@), places(found@)),
{
    let ghost wanted = parts_at(texts(parts@), places(found@));
    let mut r: Vec<String> = Vec::new();
    let mut i: usize = 0;
    while i < found.len()
        invariant
            i <= found.len(),
            in_order(found@, parts.len() as int),
            wanted == parts_at(texts(parts@), places(found@)),
            r.len() == i,
            forall|j: int| 0 <= j < i ==> (#[trigger] r@[j])@ == wanted[j],
        decreases found.len() - i,
    {
        let place: usize = found[i];
        assert(found@[i as int] < parts.len());
        assert(texts(parts@)[place as int] == parts@[place as int]@);
        r.push(parts[place].clone());
        i = i + 1;
    }
    assert(texts(r@) =~= wanted);
    r
}

/// The parts from one place up to another, as the path has them.
fn join_parts(parts: &Vec<String>, from: usize, to: usize) -> (r: String)
    requires
        from <= to <= parts.len(),
    ensures
        r@ == joined(texts(parts@).subrange(from as int, to as int), "/"@),
{
    let mut some: Vec<String> = Vec::new();
    let mut i: usize = from;
    while i < to
        invariant
            from <= i <= to <= parts.len(),
            some.len() == i - from,
            forall|j: int|
                0 <= j < some.len() ==> (#[trigger] some@[j])@ == texts(parts@)[from + j],
        decreases to - i,
    {
        some.push(parts[i].clone());
        i = i + 1;
    }
    assert(texts(some@) =~= texts(parts@).subrange(from as int, to as int));
    join(&some, "/")
}

/// Computes `steps`.
pub fn path_steps(path: &str) -> (r: Vec<String>)
    ensures
        texts(r@) == steps(path@),
{
    let parts = split(path, '/');
    take_parts(&parts, &find_steps(&parts))
}

/// What is left of a path behind its first `n` steps: the rest of its text, from the next
/// step to the last one.
pub open spec fn behind(path: Text, n: int) -> Text {
    let parts = split_on(path, '/');
    let found = step_places(parts);
    if n < found.len() {
        joined(parts.subrange(found[n], found.last() + 1), "/"@)
    } else {
        Seq::empty()
    }
}

/// A path that begins at the root, without what follows its last step.
pub open spec fn ended(path: Text) -> Text {
    let parts = split_on(path, '/');
    let found = step_places(parts);
    if found.len() > 0 {
        joined(parts.take(found.last() + 1), "/"@)
    } else {
        "/"@
    }
}

/// What is left of a path below another. The empty path leaves all of it.
pub open spec fn path_below(path: Text, root: Text) -> Option<Text> {
    if rooted(path) && root.len() == 0 {
        Some(ended(path))
    } else if rooted(path) == rooted(root) && steps(root).is_prefix_of(steps(path)) {
        Some(behind(path, steps(root).len() as int))
    } else {
        None
    }
}

/// Whether the first steps are those of another path.
fn begins_with(all: &Vec<String>, first: &Vec<String>) -> (r: bool)
    ensures
        r == texts(first@).is_prefix_of(texts(all@)),
{
    let ghost a = texts(all@);
    let ghost f = texts(first@);
    assert(a.len() == all.len() && f.len() == first.len());
    if first.len() > all.len() {
        return false;
    }
    let mut i: usize = 0;
    while i < first.len()
        invariant
            i <= first.len() <= all.len(),
            a == texts(all@),
            f == texts(first@),
            forall|j: int| 0 <= j < i ==> #[trigger] a[j] == f[j],
        decreases first.len() - i,
    {
        assert(a[i as int] == all@[i as int]@ && f[i as int] == first@[i as int]@);
        if !same(all[i].as_str(), first[i].as_str()) {
            assert(a.subrange(0, f.len() as int)[i as int] != f[i as int]);
            return false;
        }
        i = i + 1;
    }
    assert(f =~= a.subrange(0, f.len() as int));
    true
}

/// Computes `path_below`.
pub fn below(path: &str, root: &str) -> (r: Option<String>)
    ensures
        maybe(r) == path_below(path@, root@),
{
    let parts = split(path, '/');
    let found = find_steps(&parts);
    let ghost all = step_places(texts(parts@));
    assert(all.len() == found.len());
    assert(forall|j: int| 0 <= j < all.len() ==> all[j] == #[trigger] found@[j]);
    let first = path_steps(root);
    assert(first.len() == steps(root@).len());
    if starts_with(path, "/") && root.is_empty() {
        if found.len() == 0 {
            return Some("/".to_owned());
        }
        let last: usize = found[found.len() - 1];
        return Some(join_parts(&parts, 0, last + 1));
    }
    if starts_with(path, "/") != starts_with(root, "/") {
        return None;
    }
    if !begins_with(&take_parts(&parts, &found), &first) {
        return None;
    }
    if first.len() < found.len() {
        let next: usize = found[first.len()];
        let last: usize = found[found.len() - 1];
        Some(join_parts(&parts, next, last + 1))
    } else {
        Some(String::new())
    }
}

/// The last step of a path, where it names something.
pub open spec fn file_name_of(path: Text) -> Option<Text> {
    let all = steps(path);
    if all.len() == 0 || all.last() == "."@ || all.last() == ".."@ {
        None
    } else {
        Some(all.last())
    }
}

/// How a path is called: by its last step, or as a whole where that names nothing.
pub open spec fn called(path: Text) -> Text {
    match file_name_of(path) {
        Some(name) => name,
        None => path,
    }
}

/// Computes `called`.
pub fn short_name(path: &str) -> (r: String)
    ensures
        r@ == called(path@),
{
    let all = path_steps(path);
    assert(steps(path@).len() == all.len());
    if all.len() == 0 {
        return path.to_owned();
    }
    let last = all[all.len() - 1].as_str();
    assert(steps(path@).last() == last@);
    if same(last, ".") || same(last, "..") {
        path.to_owned()
    } else {
        last.to_owned()
    }
}

/// How a path below another is called: by what is left of it there, or by its last step
/// where nothing is left.
pub open spec fn called_below(path: Text, root: Text) -> Text {
    match path_below(path, root) {
        None => if path.len() == 0 {
            called(path)
        } else {
            path
        },
        Some(rest) => if rest.len() == 0 {
            called(path)
        } else {
            rest
        },
    }
}

/// Computes `called_below`.
pub fn name_below(path: &str, root: &str) -> (r: String)
    ensures
        r@ == called_below(path@, root@),
{
    let relative = match below(path, root) {
        Some(rest) => rest,
        None => path.to_owned(),
    };
    if relative.as_str().is_empty() {
        short_name(path)
    } else {
        relative
    }
}

} // verus!
