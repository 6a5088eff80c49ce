//! Switching to another project, and the list of those opened last.

use vstd::prelude::*;

use crate::ecs::world::{lemma_filter, lemma_filter_push};
use crate::paths::{join, same_path};

verus! {

/// How many projects are listed.
pub const MAX_RECENT_PROJECTS: usize = 10;

/// A switch to another project that the host is asked to make.
#[derive(Debug, PartialEq, Eq)]
pub struct ProjectRequest {
    /// The project's directory.
    pub root: String,
    /// Whether the project is to be created first.
    pub create: bool,
}

impl ProjectRequest {
    /// To open the project in the directory.
    pub fn open(root: &str) -> (request: ProjectRequest)
        ensures
            request.root@ == root@,
            !request.create,
    {
        ProjectRequest { root: root.to_owned(), create: false }
    }

    /// To create a project in the directory and open it.
    pub fn create(root: &str) -> (request: ProjectRequest)
        ensures
            request.root@ == root@,
            request.create,
    {
        ProjectRequest { root: root.to_owned(), create: true }
    }
}

/// The projects opened last, the newest first.
#[derive(Debug, PartialEq, Eq)]
pub struct RecentProjects {
    /// Their directories.
    pub paths: Vec<String>,
}

/// The texts of paths.
pub open spec fn texts(paths: Seq<String>) -> Seq<Seq<char>> {
    paths.map_values(|path: String| path@)
}

/// The paths without those that lead to the directory.
pub open spec fn without(paths: Seq<Seq<char>>, root: Seq<char>) -> Seq<Seq<char>> {
    paths.filter(|path: Seq<char>| !same_path(path, root))
}

/// The paths cut off at the limit.
pub open spec fn capped(paths: Seq<Seq<char>>) -> Seq<Seq<char>> {
    if paths.len() > MAX_RECENT_PROJECTS {
        paths.take(MAX_RECENT_PROJECTS as int)
    } else {
        paths
    }
}

/// The list after the directory was opened.
pub open spec fn pushed(paths: Seq<Seq<char>>, root: Seq<char>) -> Seq<Seq<char>> {
    capped(seq![root] + without(paths, root))
}

impl View for RecentProjects {
    type V = Seq<Seq<char>>;

    open spec fn view(&self) -> Seq<Seq<char>> {
        texts(self.paths@)
    }
}

impl Default for RecentProjects {
    fn default() -> (recent: RecentProjects)
        ensures
            recent@ == Seq::<Seq<char>>::empty(),
    {
        RecentProjects::new()
    }
}

impl RecentProjects {
    /// An empty list.
    pub fn new() -> (recent: RecentProjects)
        ensures
            recent@ == Seq::<Seq<char>>::empty(),
    {
        let recent = RecentProjects { paths: Vec::new() };
        assert(recent@ =~= Seq::<Seq<char>>::empty());
        recent
    }

    /// Takes the directory out of the list.
    pub fn remove(&mut self, root: &str)
        ensures
            final(self)@ == without(old(self)@, root@),
    {
        let ghost before = self@;
        let ghost keep = |path: Seq<char>| !same_path(path, root@);
        let mut rest: Vec<String> = Vec::new();
        proof {
            reveal(Seq::filter);
            assert(before.take(0) =~= Seq::empty());
            assert(texts(rest@) =~= Seq::empty());
        }
        for i in 0..self.paths.len()
            invariant
                before == texts(self.paths@),
                keep == (|path: Seq<char>| !same_path(path, root@)),
                texts(rest@) == before.take(i as int).filter(keep),
        {
            let ghost had = rest@;
            proof {
                assert(before.take(i + 1) =~= before.take(i as int).push(before[i as int]));
                crate::ecs::world::lemma_filter_push(before.take(i as int), before[i as int], keep);
            }
            if !crate::paths::same(&self.paths[i], root) {
                rest.push(self.paths[i].clone());
                assert(texts(rest@) =~= texts(had).push(before[i as int]));
            }
        }
        assert(before.take(before.len() as int) =~= before);
        self.paths = rest;
    }

    /// Puts the directory at the front of the list, which it is in only once, and
    /// cuts the list off at the limit.
    pub fn push(&mut self, root: &str)
        ensures
            final(self)@ == pushed(old(self)@, root@),
    {
        let ghost before = self@;
        self.remove(root);
        let ghost rest = self@;
        self.paths.insert(0, root.to_owned());
        assert(self@ =~= seq![root@] + rest);
        if self.paths.len() > MAX_RECENT_PROJECTS {
            let ghost all = self@;
            self.paths.truncate(MAX_RECENT_PROJECTS);
            assert(self@ =~= all.take(MAX_RECENT_PROJECTS as int));
        }
    }

    /// Where the list is stored: in the user's directory for settings. Nowhere,
    /// where the user has no home directory.
    pub fn default_path(home: Option<&str>, macos: bool) -> (path: Option<String>)
        ensures
            match (home, path) {
                (None, None) => true,
                (Some(home), Some(path)) => path@ == crate::paths::join_of(
                    crate::paths::join_of(
                        home@,
                        if macos {
                            "Library/Application Support/RustyEngine"@
                        } else {
                            ".config/rustyengine"@
                        },
                    ),
                    "recent-projects.ron"@,
                ),
                _ => false,
            },
    {
        match home {
            Some(home) => {
                let dir = if macos {
                    join(home, "Library/Application Support/RustyEngine")
                } else {
                    join(home, ".config/rustyengine")
                };
                Some(join(&dir, "recent-projects.ron"))
            },
            None => None,
        }
    }
}

/// Whether no directory is listed twice.
pub open spec fn listed_once(paths: Seq<Seq<char>>) -> bool {
    forall|i: int, j: int|
        #![trigger paths[i], paths[j]]
        0 <= i < j < paths.len() ==> !same_path(paths[i], paths[j])
}

proof fn lemma_without(paths: Seq<Seq<char>>, root: Seq<char>)
    ensures
        forall|i: int|
            0 <= i < without(paths, root).len() ==> !same_path(
                #[trigger] without(paths, root)[i],
                root,
            ),
        listed_once(paths) ==> listed_once(without(paths, root)),
        forall|i: int|
            0 <= i < without(paths, root).len() ==> paths.contains(
                #[trigger] without(paths, root)[i],
            ),
        (forall|i: int| 0 <= i < paths.len() ==> !same_path(#[trigger] paths[i], root))
            ==> without(paths, root) == paths,
    decreases paths.len(),
{
    reveal(Seq::filter);
    let keep = |path: Seq<char>| !same_path(path, root);
    if paths.len() > 0 {
        let rest = paths.drop_last();
        lemma_without(rest, root);
        assert(paths =~= rest.push(paths.last()));
        let all = without(paths, root);
        let some = without(rest, root);
        assert forall|i: int| 0 <= i < some.len() implies paths.contains(#[trigger] some[i]) by {
            let k = rest.index_of(some[i]);
            assert(paths[k] == some[i]);
        }
        if listed_once(paths) {
            assert forall|i: int, j: int|
                #![trigger rest[i], rest[j]]
                0 <= i < j < rest.len() implies !same_path(rest[i], rest[j]) by {
                assert(!same_path(paths[i], paths[j]));
            }
            assert forall|i: int, j: int|
                #![trigger all[i], all[j]]
                0 <= i < j < all.len() implies !same_path(all[i], all[j]) by {
                if j < some.len() {
                    assert(all[i] == some[i] && all[j] == some[j]);
                } else {
                    assert(all[i] == some[i]);
                    let k = rest.index_of(some[i]);
                    assert(!same_path(paths[k], paths[paths.len() - 1]));
                }
            }
        }
        if forall|i: int| 0 <= i < paths.len() ==> !same_path(#[trigger] paths[i], root) {
            assert forall|i: int| 0 <= i < rest.len() implies !same_path(
                #[trigger] rest[i],
                root,
            ) by {
                assert(rest[i] == paths[i]);
            }
        }
    }
}

/// The project opened last stands first; none is listed twice; there are never more
/// than the limit; and opening the same project again changes nothing.
pub proof fn law_recent_projects(paths: Seq<Seq<char>>, root: Seq<char>)
    requires
        listed_once(paths),
    ensures
        pushed(paths, root)[0] == root,
        listed_once(pushed(paths, root)),
        pushed(paths, root).len() <= MAX_RECENT_PROJECTS,
        pushed(pushed(paths, root), root) == pushed(paths, root),
        listed_once(without(paths, root)),
{
    lemma_without(paths, root);
    let rest = without(paths, root);
    let all = seq![root] + rest;
    let list = pushed(paths, root);
    assert forall|i: int, j: int| #![trigger all[i], all[j]] 0 <= i < j < all.len() implies
        !same_path(all[i], all[j]) by {
        if i == 0 {
            assert(all[j] == rest[j - 1]);
        } else {
            assert(all[i] == rest[i - 1] && all[j] == rest[j - 1]);
        }
    }
    assert forall|i: int, j: int| #![trigger list[i], list[j]] 0 <= i < j < list.len() implies
        !same_path(list[i], list[j]) by {
        assert(list[i] == all[i] && list[j] == all[j]);
    }
    let tail = list.skip(1);
    lemma_without(list, root);
    assert(without(list, root) == tail) by {
        reveal(Seq::filter);
        assert(list =~= seq![root] + tail);
        assert forall|i: int| 0 <= i < tail.len() implies !same_path(#[trigger] tail[i], root) by {
            assert(tail[i] == list[i + 1]);
            assert(!same_path(list[0], list[i + 1]));
        }
        lemma_without(tail, root);
        lemma_filter_front(root, tail, |path: Seq<char>| !same_path(path, root));
    }
    assert(seq![root] + tail =~= list);
}

proof fn lemma_filter_front(
    first: Seq<char>,
    rest: Seq<Seq<char>>,
    keep: spec_fn(Seq<char>) -> bool,
)
    requires
        !keep(first),
    ensures
        (seq![first] + rest).filter(keep) == rest.filter(keep),
    decreases rest.len(),
{
    reveal(Seq::filter);
    if rest.len() == 0 {
        assert(rest =~= Seq::empty());
        assert(seq![first] + rest =~= Seq::empty().push(first));
        crate::ecs::world::lemma_filter_push(Seq::empty(), first, keep);
    } else {
        lemma_filter_front(first, rest.drop_last(), keep);
        assert((seq![first] + rest).drop_last() =~= seq![first] + rest.drop_last());
    }
}

/// Opening a project puts it first; the others follow in the order they had, without the one
/// that was opened, and ten are listed at most. Taking one out leaves the others as they
/// were.
pub proof fn law_other_projects_keep_their_order(
    paths: Seq<Seq<char>>,
    root: Seq<char>,
    path: Seq<char>,
    i: int,
)
    ensures
        without(paths, root).contains(path) <==> paths.contains(path) && !same_path(path, root),
        pushed(paths, root)[0] == root,
        pushed(paths, root).len() == (if without(paths, root).len() < 9 {
            without(paths, root).len() + 1
        } else {
            10
        }),
        0 < i < pushed(paths, root).len() ==> pushed(paths, root)[i] == without(
            paths,
            root,
        )[i - 1],
        !same_path(path, root) ==> without(paths.push(path), root) == without(paths, root).push(
            path,
        ),
        same_path(path, root) ==> without(paths.push(path), root) == without(paths, root),
{
    let keep = |p: Seq<char>| !same_path(p, root);
    lemma_filter(paths, keep);
    lemma_filter_push(paths, path, keep);
}

} // verus!
