//! The repositories that the interactive view offers. Finding them never reads history.

use crate::order::{copy, lemma_listed_members, list, listed};
use crate::text::{copy_option, ends_with, maybe, same, texts, Text};
use vstd::prelude::*;

verus! {

/// A directory and the repositories in it. A work tree is known by its own directory,
/// not by the Git directory that it may share.
#[derive(Debug, PartialEq, Eq)]
pub struct Workspace {
    pub root: String,
    pub repositories: Vec<String>,
    /// The repository to begin with.
    pub initial: Option<String>,
}

/// What a `Workspace` holds.
#[verifier::ext_equal]
pub struct WorkspaceView {
    pub root: Text,
    pub repositories: Seq<Text>,
    pub initial: Option<Text>,
}

impl View for Workspace {
    type V = WorkspaceView;

    open spec fn view(&self) -> WorkspaceView {
        WorkspaceView {
            root: self.root@,
            repositories: texts(self.repositories@),
            initial: maybe(self.initial),
        }
    }
}

impl Clone for Workspace {
    fn clone(&self) -> (r: Self)
        ensures
            r@ == self@,
    {
        Workspace {
            root: self.root.clone(),
            repositories: copy(&self.repositories),
            initial: copy_option(&self.initial),
        }
    }
}

/// The repository at a path, where its work tree is just there.
pub fn exact_repository(has_git: bool, workdir: &Option<String>, path: &Option<String>) -> (r:
    Option<String>)
    ensures
        maybe(r) == if has_git && workdir is Some && maybe(*workdir) == maybe(*path) {
            maybe(*workdir)
        } else {
            None
        },
{
    match (workdir, path) {
        (Some(root), Some(path)) => {
            if has_git && same(root.as_str(), path.as_str()) {
                Some(root.clone())
            } else {
                None
            }
        },
        _ => None,
    }
}

/// Why a directory cannot be searched.
pub fn cannot_read(root: &str, error: &str) -> (r: String)
    ensures
        r@ == "cannot read "@ + root@ + ": "@ + error@,
{
    "cannot read ".to_owned().concat(root).concat(": ").concat(error)
}

/// A path in a directory.
pub open spec fn child_path(root: Text, name: Text) -> Text {
    if "/"@.is_suffix_of(root) {
        root + name
    } else {
        root + "/"@ + name
    }
}

/// The repositories that are found in a directory: itself, and then its children by their
/// names.
pub open spec fn found(root: Text, is_repository: bool, children: Set<Text>) -> Seq<Text> {
    (if is_repository {
        seq![root]
    } else {
        Seq::empty()
    }) + listed(children).map_values(|name: Text| child_path(root, name))
}

/// The repositories of a directory. One that encloses the directory counts only where
/// there is none in it.
pub open spec fn workspace_of(
    root: Text,
    is_repository: bool,
    children: Set<Text>,
    enclosing: Option<Text>,
) -> WorkspaceView {
    let inside = found(root, is_repository, children);
    if inside.len() == 0 {
        WorkspaceView {
            root,
            repositories: match enclosing {
                Some(path) => seq![path],
                None => Seq::empty(),
            },
            initial: enclosing,
        }
    } else {
        WorkspaceView {
            root,
            repositories: inside,
            initial: if is_repository {
                Some(root)
            } else {
                None
            },
        }
    }
}

/// The repositories of a directory, from whether it is one itself, the names of its
/// children that are, and the repository that encloses it.
pub fn discover(
    root: &str,
    is_repository: bool,
    children: &Vec<String>,
    enclosing: &Option<String>,
) -> (r: Workspace)
    ensures
        r@ == workspace_of(
            root@,
            is_repository,
            texts(children@).to_set(),
            maybe(*enclosing),
        ),
{
    let ghost set = texts(children@).to_set();
    let ghost inside = found(root@, is_repository, set);
    let names = list(children);
    let ghost all = listed(set).map_values(|name: Text| child_path(root@, name));
    let mut repositories: Vec<String> = Vec::new();
    let ghost start = if is_repository {
        seq![root@]
    } else {
        Seq::<Text>::empty()
    };
    if is_repository {
        repositories.push(root.to_owned());
    }
    let slash = ends_with(root, "/");
    let mut i: usize = 0;
    assert(texts(repositories@) =~= start + all.take(0));
    while i < names.len()
        invariant
            i <= names.len(),
            texts(names@) == listed(set),
            all == listed(set).map_values(|name: Text| child_path(root@, name)),
            slash == "/"@.is_suffix_of(root@),
            texts(repositories@) == start + all.take(i as int),
        decreases names.len() - i,
    {
        let ghost was = texts(repositories@);
        let path = if slash {
            root.to_owned().concat(names[i].as_str())
        } else {
            root.to_owned().concat("/").concat(names[i].as_str())
        };
        assert(listed(set)[i as int] == names@[i as int]@);
        assert(all[i as int] == path@);
        repositories.push(path);
        assert(texts(repositories@) =~= was.push(all[i as int]));
        assert(texts(repositories@) =~= start + all.take(i + 1));
        i = i + 1;
    }
    assert(all.take(all.len() as int) =~= all);
    assert(texts(repositories@) == inside);
    assert(texts(repositories@).len() == repositories.len());
    if repositories.len() == 0 {
        match enclosing {
            Some(path) => {
                repositories.push(path.clone());
                assert(texts(repositories@) =~= seq![path@]);
            },
            None => {},
        }
        Workspace { root: root.to_owned(), repositories, initial: copy_option(enclosing) }
    } else {
        let initial = if is_repository {
            Some(root.to_owned())
        } else {
            None
        };
        Workspace { root: root.to_owned(), repositories, initial }
    }
}

/// The repository to begin with is among those that are offered, and each child that is a
/// repository is offered.
pub proof fn law_workspace(
    root: Text,
    is_repository: bool,
    children: Set<Text>,
    enclosing: Option<Text>,
)
    requires
        children.finite(),
    ensures
        ({
            let w = workspace_of(root, is_repository, children, enclosing);
            &&& w.initial is Some ==> w.repositories.contains(w.initial->0)
            &&& is_repository ==> w.initial == Some(root)
            &&& forall|name: Text| #[trigger]
                children.contains(name) ==> w.repositories.contains(child_path(root, name))
        }),
{
    let w = workspace_of(root, is_repository, children, enclosing);
    let inside = found(root, is_repository, children);
    let names = listed(children);
    lemma_listed_members(children);
    let n: int = if is_repository {
        1
    } else {
        0
    };
    assert forall|name: Text| #[trigger] children.contains(name) implies w.repositories.contains(
        child_path(root, name),
    ) by {
        assert(names.contains(name));
        let i = names.index_of(name);
        assert(inside[n + i] == child_path(root, name));
    }
    if is_repository {
        assert(inside[0] == root);
    } else if inside.len() == 0 && enclosing is Some {
        assert(w.repositories[0] == enclosing->0);
    }
}

/// A directory that is a repository comes first, and behind it its children that are, in
/// order. A repository that encloses the directory counts exactly where there is none of
/// these, and is then the one to begin with.
pub proof fn law_enclosing_repositories_come_last(
    root: Text,
    is_repository: bool,
    children: Set<Text>,
    enclosing: Option<Text>,
    path: Text,
)
    requires
        children.finite(),
    ensures
        ({
            let w = workspace_of(root, is_repository, children, enclosing);
            let empty = !is_repository && children.is_empty();
            &&& w.root == root
            &&& is_repository ==> w.repositories.len() == 1 + children.len() && w.repositories[0]
                == root
            &&& !is_repository && !children.is_empty() ==> w.repositories.len() == children.len()
                && w.initial is None
            &&& !empty ==> w == workspace_of(root, is_repository, children, None)
            &&& empty ==> w.initial == enclosing && (w.repositories.contains(path) <==> enclosing
                == Some(path))
        }),
        !"/"@.is_suffix_of(root) ==> child_path(root, path) == root + "/"@ + path,
        "/"@.is_suffix_of(root) ==> child_path(root, path) == root + path,
{
    let w = workspace_of(root, is_repository, children, enclosing);
    lemma_listed_members(children);
    let names = listed(children);
    names.unique_seq_to_set();
    assert(names.to_set() =~= children);
    if children.is_empty() {
        assert(children =~= Set::empty());
        assert(names.len() == 0);
    } else {
        let name = children.choose();
        assert(names.contains(name));
        assert(names.len() > 0);
    }
    if !is_repository && children.is_empty() && enclosing == Some(path) {
        assert(w.repositories[0] == path);
    }
}

} // verus!
