//! The assets of a project as a tree of directories.

use vstd::prelude::*;

use crate::editor::assets::AssetEntry;
use crate::order::{
    component_before, components_before, in_order, is_component_before, lemma_component_order,
    Ordered,
};
use crate::paths::{components, components_of, file_name_of, join, join_of};
use crate::text::{from_chars, same, views};

verus! {

/// One directory of the asset tree.
#[derive(Debug, PartialEq, Eq)]
pub struct AssetFolder {
    /// The directory's own name; empty for the root.
    pub name: String,
    /// The path relative to the assets directory; empty for the root.
    pub path: String,
    /// The directories in it, sorted by name where the entries were, or where they
    /// were made one by one.
    pub folders: Vec<AssetFolder>,
    /// The positions of the files that lie directly in it, among the entries.
    pub files: Vec<usize>,
}

/// What a directory of the asset tree holds.
#[verifier::ext_equal]
pub ghost struct FolderView {
    /// The directory's own name.
    pub name: Seq<char>,
    /// The path relative to the assets directory.
    pub path: Seq<char>,
    /// The directories in it.
    pub folders: Seq<FolderView>,
    /// The positions of the files that lie directly in it.
    pub files: Seq<usize>,
}

/// The views of the first `n` folders.
pub open spec fn folder_views(folders: Seq<AssetFolder>, n: nat) -> Seq<FolderView>
    decreases folders, n,
    when n <= folders.len()
{
    if n == 0 {
        Seq::empty()
    } else {
        folder_views(folders, (n - 1) as nat).push(folder_view(folders[n - 1]))
    }
}

/// What the folder holds.
pub open spec fn folder_view(folder: AssetFolder) -> FolderView
    decreases folder, 0nat,
{
    FolderView {
        name: folder.name@,
        path: folder.path@,
        folders: folder_views(folder.folders@, folder.folders@.len()),
        files: folder.files@,
    }
}

impl View for AssetFolder {
    type V = FolderView;

    open spec fn view(&self) -> FolderView {
        folder_view(*self)
    }
}

proof fn lemma_folder_views(folders: Seq<AssetFolder>, n: nat)
    requires
        n <= folders.len(),
    ensures
        folder_views(folders, n).len() == n,
        forall|i: int| 0 <= i < n ==> #[trigger] folder_views(folders, n)[i] == folders[i]@,
    decreases n,
{
    if n > 0 {
        lemma_folder_views(folders, (n - 1) as nat);
    }
}

/// A directory with nothing in it.
pub open spec fn empty_folder(name: Seq<char>, path: Seq<char>) -> FolderView {
    FolderView { name, path, folders: Seq::empty(), files: Seq::empty() }
}

/// The position of the first folder with the given name; the number of folders
/// where none has it.
pub open spec fn child_place(folders: Seq<FolderView>, name: Seq<char>) -> int
    decreases folders.len(),
{
    if folders.len() == 0 {
        0
    } else if folders[0].name == name {
        0
    } else {
        1 + child_place(folders.drop_first(), name)
    }
}

/// The position of the first folder whose name stands behind the given one; the
/// number of folders where none does.
pub open spec fn name_place(folders: Seq<FolderView>, name: Seq<char>) -> int
    decreases folders.len(),
{
    if folders.len() == 0 {
        0
    } else if component_before(name, folders[0].name) {
        0
    } else {
        1 + name_place(folders.drop_first(), name)
    }
}

/// Where a missing directory is put: behind the others if it is made for a file, since
/// files come in the order of their paths, and else where its name belongs.
pub open spec fn fresh_place(
    folders: Seq<FolderView>,
    name: Seq<char>,
    file: Option<usize>,
) -> int {
    if file is Some {
        folders.len() as int
    } else {
        name_place(folders, name)
    }
}

/// The folder after the directories on the way down `dirs` have been made where
/// they were missing, and a file put into the last of them.
pub open spec fn placed(
    folder: FolderView,
    dirs: Seq<Seq<char>>,
    file: Option<usize>,
) -> FolderView
    decreases dirs.len(),
{
    if dirs.len() == 0 {
        match file {
            Some(index) => FolderView { files: folder.files.push(index), ..folder },
            None => folder,
        }
    } else {
        let at = child_place(folder.folders, dirs[0]);
        if at < folder.folders.len() {
            FolderView {
                folders: folder.folders.update(
                    at,
                    placed(folder.folders[at], dirs.drop_first(), file),
                ),
                ..folder
            }
        } else {
            FolderView {
                folders: folder.folders.insert(
                    fresh_place(folder.folders, dirs[0], file),
                    placed(
                        empty_folder(dirs[0], join_of(folder.path, dirs[0])),
                        dirs.drop_first(),
                        file,
                    ),
                ),
                ..folder
            }
        }
    }
}

/// The number of files in the folder and in all the folders below it.
pub open spec fn files_in(folder: FolderView) -> nat
    decreases folder,
{
    folder.files.len() + files_in_all(folder.folders)
}

/// The number of files in the folders and in all the folders below them.
pub open spec fn files_in_all(folders: Seq<FolderView>) -> nat
    decreases folders,
{
    if folders.len() == 0 {
        0
    } else {
        files_in_all(folders.drop_last()) + files_in(folders.last())
    }
}

proof fn lemma_child_place(folders: Seq<FolderView>, name: Seq<char>)
    ensures
        0 <= child_place(folders, name) <= folders.len(),
        child_place(folders, name) < folders.len() ==> folders[child_place(folders, name)].name
            == name,
        forall|i: int|
            #![trigger folders[i]]
            0 <= i < child_place(folders, name) ==> folders[i].name != name,
    decreases folders.len(),
{
    if folders.len() > 0 && folders[0].name != name {
        lemma_child_place(folders.drop_first(), name);
        let at = child_place(folders.drop_first(), name);
        assert forall|i: int| #![trigger folders[i]] 0 <= i < at + 1 implies folders[i].name
            != name by {
            if i > 0 {
                assert(folders[i] == folders.drop_first()[i - 1]);
            }
        }
    }
}

proof fn lemma_child_place_is_unique(folders: Seq<FolderView>, name: Seq<char>, at: int)
    requires
        0 <= at <= folders.len(),
        at < folders.len() ==> folders[at].name == name,
        forall|i: int| #![trigger folders[i]] 0 <= i < at ==> folders[i].name != name,
    ensures
        child_place(folders, name) == at,
{
    lemma_child_place(folders, name);
    let other = child_place(folders, name);
    if other < at {
        assert(folders[other].name != name);
    } else if at < other {
        assert(folders[at].name != name);
    }
}

proof fn lemma_name_place(folders: Seq<FolderView>, name: Seq<char>)
    ensures
        0 <= name_place(folders, name) <= folders.len(),
        name_place(folders, name) < folders.len() ==> component_before(
            name,
            folders[name_place(folders, name)].name,
        ),
        forall|i: int|
            #![trigger folders[i]]
            0 <= i < name_place(folders, name) ==> !component_before(name, folders[i].name),
    decreases folders.len(),
{
    if folders.len() > 0 && !component_before(name, folders[0].name) {
        lemma_name_place(folders.drop_first(), name);
        let at = name_place(folders.drop_first(), name);
        assert forall|i: int| #![trigger folders[i]] 0 <= i < at + 1 implies !component_before(
            name,
            folders[i].name,
        ) by {
            if i > 0 {
                assert(folders[i] == folders.drop_first()[i - 1]);
            }
        }
    }
}

proof fn lemma_name_place_is_unique(folders: Seq<FolderView>, name: Seq<char>, at: int)
    requires
        0 <= at <= folders.len(),
        at < folders.len() ==> component_before(name, folders[at].name),
        forall|i: int|
            #![trigger folders[i]]
            0 <= i < at ==> !component_before(name, folders[i].name),
    ensures
        name_place(folders, name) == at,
{
    lemma_name_place(folders, name);
    let other = name_place(folders, name);
    if other < at {
        assert(!component_before(name, folders[other].name));
    } else if at < other {
        assert(!component_before(name, folders[at].name));
    }
}

/// The child that `name` leads to, or a new one.
spec fn child_or_fresh(folder: FolderView, name: Seq<char>) -> FolderView {
    let at = child_place(folder.folders, name);
    if at < folder.folders.len() {
        folder.folders[at]
    } else {
        empty_folder(name, join_of(folder.path, name))
    }
}

/// Where the child called `name` stands once it is there.
spec fn spot(folder: FolderView, name: Seq<char>, file: Option<usize>) -> int {
    let at = child_place(folder.folders, name);
    if at < folder.folders.len() {
        at
    } else {
        fresh_place(folder.folders, name, file)
    }
}

/// What one step down changes.
proof fn lemma_placed_step(folder: FolderView, dirs: Seq<Seq<char>>, file: Option<usize>)
    requires
        dirs.len() > 0,
    ensures
        ({
            let name = dirs[0];
            let after = placed(folder, dirs, file);
            let at = spot(folder, name, file);
            let held = child_place(folder.folders, name) < folder.folders.len();
            &&& 0 <= at < after.folders.len()
            &&& 0 <= at <= folder.folders.len()
            &&& after.folders[at] == placed(
                child_or_fresh(folder, name),
                dirs.drop_first(),
                file,
            )
            &&& after.folders[at].name == name
            &&& child_place(after.folders, name) == at
            &&& after.name == folder.name && after.path == folder.path && after.files
                == folder.files
            &&& after.folders.len() == folder.folders.len() + (if held {
                0int
            } else {
                1int
            })
            &&& forall|i: int|
                #![trigger after.folders[i]]
                0 <= i < after.folders.len() && i != at ==> after.folders[i]
                    == folder.folders[if held || i < at {
                    i
                } else {
                    i - 1
                }]
            &&& forall|i: int|
                #![trigger folder.folders[i]]
                0 <= i < folder.folders.len() && (i != at || !held) ==> folder.folders[i]
                    == after.folders[if held || i < at {
                    i
                } else {
                    i + 1
                }]
            &&& forall|i: int|
                #![trigger folder.folders[i]]
                0 <= i < folder.folders.len() && !held ==> folder.folders[i].name != name
        }),
{
    let name = dirs[0];
    let after = placed(folder, dirs, file);
    let at = spot(folder, name, file);
    lemma_child_place(folder.folders, name);
    lemma_name_place(folder.folders, name);
    lemma_placing_keeps_the_name(child_or_fresh(folder, name), dirs.drop_first(), file);
    assert forall|i: int| #![trigger after.folders[i]] 0 <= i < at implies after.folders[i].name
        != name by {
        assert(after.folders[i] == folder.folders[i]);
    }
    lemma_child_place_is_unique(after.folders, name, at);
}

/// Another child is found as before.
proof fn lemma_other_child(
    folder: FolderView,
    dirs: Seq<Seq<char>>,
    file: Option<usize>,
    other: Seq<char>,
)
    requires
        dirs.len() > 0,
        other != dirs[0],
    ensures
        ({
            let after = placed(folder, dirs, file);
            let p = child_place(folder.folders, other);
            let q = child_place(after.folders, other);
            &&& p < folder.folders.len() <==> q < after.folders.len()
            &&& p < folder.folders.len() ==> after.folders[q] == folder.folders[p]
        }),
{
    let after = placed(folder, dirs, file);
    let at = spot(folder, dirs[0], file);
    let held = child_place(folder.folders, dirs[0]) < folder.folders.len();
    lemma_placed_step(folder, dirs, file);
    lemma_child_place(folder.folders, other);
    let p = child_place(folder.folders, other);
    let q = if held || p < at {
        p
    } else {
        p + 1
    };
    assert forall|i: int| #![trigger after.folders[i]] 0 <= i < q implies after.folders[i].name
        != other by {
        if i != at {
            let was = if held || i < at {
                i
            } else {
                i - 1
            };
            assert(after.folders[i] == folder.folders[was]);
        }
    }
    lemma_child_place_is_unique(after.folders, other, q);
}

proof fn lemma_files_in_all_update(folders: Seq<FolderView>, at: int, new: FolderView)
    requires
        0 <= at < folders.len(),
    ensures
        files_in_all(folders.update(at, new)) == files_in_all(folders) - files_in(folders[at])
            + files_in(new),
    decreases folders.len(),
{
    let changed = folders.update(at, new);
    if at == folders.len() - 1 {
        assert(changed.drop_last() =~= folders.drop_last());
    } else {
        assert(changed.drop_last() =~= folders.drop_last().update(at, new));
        assert(changed.last() == folders.last());
        lemma_files_in_all_update(folders.drop_last(), at, new);
    }
}

proof fn lemma_files_in_all_insert(folders: Seq<FolderView>, at: int, new: FolderView)
    requires
        0 <= at <= folders.len(),
    ensures
        files_in_all(folders.insert(at, new)) == files_in_all(folders) + files_in(new),
    decreases folders.len(),
{
    let more = folders.insert(at, new);
    if at == folders.len() {
        assert(more.drop_last() =~= folders);
    } else {
        assert(more.drop_last() =~= folders.drop_last().insert(at, new));
        assert(more.last() == folders.last());
        lemma_files_in_all_insert(folders.drop_last(), at, new);
    }
}

/// Every file is counted once: putting a file somewhere into the tree adds one to
/// its count, and making directories adds nothing.
pub proof fn law_placing_counts_the_file_once(
    folder: FolderView,
    dirs: Seq<Seq<char>>,
    file: Option<usize>,
)
    ensures
        files_in(placed(folder, dirs, file)) == files_in(folder) + (if file is Some {
            1nat
        } else {
            0nat
        }),
    decreases dirs.len(),
{
    if dirs.len() > 0 {
        lemma_child_place(folder.folders, dirs[0]);
        let at = child_place(folder.folders, dirs[0]);
        if at < folder.folders.len() {
            law_placing_counts_the_file_once(folder.folders[at], dirs.drop_first(), file);
            lemma_files_in_all_update(
                folder.folders,
                at,
                placed(folder.folders[at], dirs.drop_first(), file),
            );
        } else {
            let fresh = empty_folder(dirs[0], join_of(folder.path, dirs[0]));
            law_placing_counts_the_file_once(fresh, dirs.drop_first(), file);
            lemma_name_place(folder.folders, dirs[0]);
            lemma_files_in_all_insert(
                folder.folders,
                fresh_place(folder.folders, dirs[0], file),
                placed(fresh, dirs.drop_first(), file),
            );
        }
    }
}

proof fn lemma_placing_keeps_the_name(folder: FolderView, dirs: Seq<Seq<char>>, file: Option<usize>)
    ensures
        placed(folder, dirs, file).name == folder.name,
        placed(folder, dirs, file).path == folder.path,
{
}

/// Making directories a second time changes nothing.
pub proof fn law_ensuring_twice_is_ensuring_once(folder: FolderView, dirs: Seq<Seq<char>>)
    ensures
        placed(placed(folder, dirs, None), dirs, None) == placed(folder, dirs, None),
    decreases dirs.len(),
{
    if dirs.len() > 0 {
        let once = placed(folder, dirs, None);
        let at = spot(folder, dirs[0], None);
        lemma_placed_step(folder, dirs, None);
        law_ensuring_twice_is_ensuring_once(child_or_fresh(folder, dirs[0]), dirs.drop_first());
        assert(placed(once, dirs, None).folders =~= once.folders);
    }
}

/// The folder that the path leads to, if there is one.
pub open spec fn folder_at(folder: FolderView, dirs: Seq<Seq<char>>) -> Option<FolderView>
    decreases dirs.len(),
{
    if dirs.len() == 0 {
        Some(folder)
    } else {
        let at = child_place(folder.folders, dirs[0]);
        if at < folder.folders.len() {
            folder_at(folder.folders[at], dirs.drop_first())
        } else {
            None
        }
    }
}

/// What is placed is there: the directories lead to a folder, whose last file is
/// the one that was put there, after the files that it held before.
pub proof fn law_placed_file_is_found(folder: FolderView, dirs: Seq<Seq<char>>, file: Option<usize>)
    ensures
        folder_at(placed(folder, dirs, file), dirs) matches Some(there) && {
            let before = match folder_at(folder, dirs) {
                Some(before) => before.files,
                None => Seq::empty(),
            };
            there.files == (match file {
                Some(index) => before.push(index),
                None => before,
            })
        },
    decreases dirs.len(),
{
    if dirs.len() > 0 {
        let child = child_or_fresh(folder, dirs[0]);
        lemma_placed_step(folder, dirs, file);
        law_placed_file_is_found(child, dirs.drop_first(), file);
        if child_place(folder.folders, dirs[0]) >= folder.folders.len() {
            lemma_nothing_in_an_empty_folder(child, dirs.drop_first());
        }
    }
}

proof fn lemma_nothing_in_an_empty_folder(folder: FolderView, dirs: Seq<Seq<char>>)
    requires
        folder.folders.len() == 0,
        folder.files.len() == 0,
    ensures
        match folder_at(folder, dirs) {
            Some(there) => there.files =~= Seq::<usize>::empty(),
            None => true,
        },
{
}

/// Whether no two directories in the same directory have the same name, all the
/// way down.
pub open spec fn names_differ(folder: FolderView) -> bool
    decreases folder,
{
    &&& forall|i: int, j: int|
        #![trigger folder.folders[i], folder.folders[j]]
        0 <= i < j < folder.folders.len() ==> folder.folders[i].name != folder.folders[j].name
    &&& forall|i: int|
        #![trigger folder.folders[i]]
        0 <= i < folder.folders.len() ==> names_differ(folder.folders[i])
}

/// A directory never appears twice: names stay different within each directory.
pub proof fn law_placing_keeps_names_different(
    folder: FolderView,
    dirs: Seq<Seq<char>>,
    file: Option<usize>,
)
    requires
        names_differ(folder),
    ensures
        names_differ(placed(folder, dirs, file)),
    decreases dirs.len(),
{
    if dirs.len() > 0 {
        let after = placed(folder, dirs, file);
        let at = spot(folder, dirs[0], file);
        let held = child_place(folder.folders, dirs[0]) < folder.folders.len();
        lemma_placed_step(folder, dirs, file);
        lemma_child_place(folder.folders, dirs[0]);
        law_placing_keeps_names_different(
            child_or_fresh(folder, dirs[0]),
            dirs.drop_first(),
            file,
        );
        assert forall|i: int, j: int|
            #![trigger after.folders[i], after.folders[j]]
            0 <= i < j < after.folders.len() implies after.folders[i].name
            != after.folders[j].name by {
            let x = if held || i < at {
                i
            } else {
                i - 1
            };
            let y = if held || j < at {
                j
            } else {
                j - 1
            };
            if i != at {
                assert(after.folders[i] == folder.folders[x]);
            }
            if j != at {
                assert(after.folders[j] == folder.folders[y]);
            }
            if held {
                assert(folder.folders[at].name == dirs[0]);
            }
        }
        assert forall|i: int|
            #![trigger after.folders[i]]
            0 <= i < after.folders.len() implies names_differ(after.folders[i]) by {
            if i != at {
                let x = if held || i < at {
                    i
                } else {
                    i - 1
                };
                assert(after.folders[i] == folder.folders[x]);
            }
        }
    }
}

impl Default for AssetFolder {
    /// A root with nothing in it.
    fn default() -> (folder: AssetFolder)
        ensures
            folder@ == empty_folder(Seq::empty(), Seq::empty()),
    {
        let folder = AssetFolder {
            name: String::new(),
            path: String::new(),
            folders: Vec::new(),
            files: Vec::new(),
        };
        assert(folder@ =~= empty_folder(Seq::empty(), Seq::empty()));
        folder
    }
}

impl AssetFolder {
    /// The number of files in this directory and in every directory below it.
    pub fn file_count(&self) -> (count: usize)
        requires
            files_in(self@) <= usize::MAX,
        ensures
            count == files_in(self@),
        decreases self,
    {
        let ghost children = self@.folders;
        proof {
            lemma_folder_views(self.folders@, self.folders@.len());
            assert(children.take(0) =~= Seq::empty());
            assert(children.take(children.len() as int) =~= children);
        }
        let mut below: usize = 0;
        for i in 0..self.folders.len()
            invariant
                children.len() == self.folders@.len(),
                forall|j: int|
                    0 <= j < children.len() ==> #[trigger] children[j] == self.folders@[j]@,
                below == files_in_all(children.take(i as int)),
                files_in_all(children) <= usize::MAX,
        {
            proof {
                lemma_files_in_part(children, i + 1);
                assert(children.take(i + 1).drop_last() =~= children.take(i as int));
                assert(children.take(i + 1).last() == self.folders@[i as int]@);
                assert(decreases_to!(self => self.folders));
                assert(decreases_to!(self.folders => self.folders@));
                assert(decreases_to!(self.folders@ => self.folders@[i as int]));
            }
            below = below + self.folders[i].file_count();
        }
        self.files.len() + below
    }

    /// Makes sure that the directory `relative` exists in the tree, creating
    /// empty folders down to it, each where its name belongs.
    pub fn ensure(&mut self, relative: &str)
        ensures
            final(self)@ == placed(old(self)@, components_of(relative@), None),
    {
        let parts = components(relative);
        assert(views(parts@).skip(0) =~= views(parts@));
        self.place(&parts, 0, parts.len(), None);
        assert(views(parts@).subrange(0, parts@.len() as int) =~= views(parts@));
    }

    /// Where a missing directory of the given name is put.
    fn fresh_spot(&self, name: &str, file: Option<usize>) -> (spot: usize)
        ensures
            spot == fresh_place(self@.folders, name@, file),
            spot <= self.folders@.len(),
    {
        proof {
            lemma_folder_views(self.folders@, self.folders@.len());
        }
        let count: usize = self.folders.len();
        if file.is_some() {
            return count;
        }
        let mut at: usize = 0;
        while at < count && !is_component_before(name, &self.folders[at].name)
            invariant
                count == self.folders@.len(),
                at <= count,
                forall|i: int|
                    #![trigger self.folders@[i]]
                    0 <= i < at ==> !component_before(name@, self.folders@[i].name@),
            decreases count - at,
        {
            at += 1;
        }
        proof {
            assert forall|i: int| #![trigger self@.folders[i]] 0 <= i < at implies
                !component_before(name@, self@.folders[i].name) by {
                assert(self@.folders[i] == self.folders@[i]@);
                assert(!component_before(name@, self.folders@[i].name@));
            }
            lemma_name_place_is_unique(self@.folders, name@, at as int);
        }
        at
    }

    /// Makes the directories `parts[from..to]` below this one and puts the file
    /// into the last of them.
    fn place(&mut self, parts: &Vec<Vec<char>>, from: usize, to: usize, file: Option<usize>)
        requires
            from <= to <= parts@.len(),
        ensures
            final(self)@ == placed(
                old(self)@,
                views(parts@).subrange(from as int, to as int),
                file,
            ),
        decreases to - from,
    {
        let ghost before = *self;
        let ghost dirs = views(parts@).subrange(from as int, to as int);
        if from == to {
            match file {
                Some(index) => {
                    self.files.push(index);
                },
                None => {},
            }
            return;
        }
        let name = from_chars(&parts[from]);
        let mut at: usize = 0;
        proof {
            assert(dirs[0] == name@);
            assert(dirs.drop_first() =~= views(parts@).subrange(from + 1, to as int));
            lemma_folder_views(before.folders@, before.folders@.len());
        }
        while at < self.folders.len() && !same(&self.folders[at].name, &name)
            invariant
                *self == before,
                at <= before.folders@.len(),
                forall|i: int|
                    #![trigger before.folders@[i]]
                    0 <= i < at ==> before.folders@[i].name@ != name@,
            decreases before.folders@.len() - at,
        {
            at += 1;
        }
        proof {
            assert forall|i: int| #![trigger before@.folders[i]] 0 <= i < at implies
                before@.folders[i].name != name@ by {
                assert(before@.folders[i] == before.folders@[i]@);
                assert(before.folders@[i].name@ != name@);
            }
            lemma_child_place_is_unique(before@.folders, name@, at as int);
        }
        if at < self.folders.len() {
            self.folders[at].place(parts, from + 1, to, file);
        } else {
            let path = join(&self.path, &name);
            let mut fresh = AssetFolder { name, path, folders: Vec::new(), files: Vec::new() };
            assert(fresh@ =~= empty_folder(dirs[0], join_of(before.path@, dirs[0])));
            fresh.place(parts, from + 1, to, file);
            let spot: usize = self.fresh_spot(&fresh.name, file);
            self.folders.insert(spot, fresh);
        }
        proof {
            lemma_folder_views(self.folders@, self.folders@.len());
            assert(self@.folders =~= placed(before@, dirs, file).folders);
        }
    }
}

proof fn lemma_files_in_part(folders: Seq<FolderView>, n: int)
    requires
        0 <= n <= folders.len(),
    ensures
        files_in_all(folders.take(n)) <= files_in_all(folders),
    decreases folders.len(),
{
    if n == folders.len() {
        assert(folders.take(n) =~= folders);
    } else {
        lemma_files_in_part(folders.drop_last(), n);
        assert(folders.drop_last().take(n) =~= folders.take(n));
    }
}

/// The tree of the first `n` entries.
pub open spec fn tree_of(entries: Seq<AssetEntry>, n: nat) -> FolderView
    decreases n,
{
    if n == 0 {
        empty_folder(Seq::empty(), Seq::empty())
    } else {
        let rest = tree_of(entries, (n - 1) as nat);
        let path = entries[n - 1].relative_path@;
        match file_name_of(path) {
            Some(_) => placed(rest, components_of(path).drop_last(), Some((n - 1) as usize)),
            None => rest,
        }
    }
}

/// How many of the first `n` entries name a file.
pub open spec fn named_files(entries: Seq<AssetEntry>, n: nat) -> nat
    decreases n,
{
    if n == 0 {
        0
    } else {
        named_files(entries, (n - 1) as nat) + (if file_name_of(
            entries[n - 1].relative_path@,
        ) is Some {
            1nat
        } else {
            0nat
        })
    }
}

/// The tree holds each entry that names a file once, and no directory twice.
pub proof fn law_tree_holds_every_file_once(entries: Seq<AssetEntry>, n: nat)
    requires
        n <= entries.len(),
    ensures
        files_in(tree_of(entries, n)) == named_files(entries, n),
        names_differ(tree_of(entries, n)),
    decreases n,
{
    if n > 0 {
        law_tree_holds_every_file_once(entries, (n - 1) as nat);
        let rest = tree_of(entries, (n - 1) as nat);
        let dirs = components_of(entries[n - 1].relative_path@).drop_last();
        law_placing_counts_the_file_once(rest, dirs, Some((n - 1) as usize));
        law_placing_keeps_names_different(rest, dirs, Some((n - 1) as usize));
    } else {
        assert(files_in_all(tree_of(entries, n).folders) == 0);
    }
}

/// Whether the directories stand in the order of their names, all the way down.
pub open spec fn folders_in_order(folder: FolderView) -> bool
    decreases folder,
{
    &&& forall|i: int, j: int|
        #![trigger folder.folders[i], folder.folders[j]]
        0 <= i < j < folder.folders.len() ==> component_before(
            folder.folders[i].name,
            folder.folders[j].name,
        )
    &&& forall|i: int|
        #![trigger folder.folders[i]]
        0 <= i < folder.folders.len() ==> folders_in_order(folder.folders[i])
}

/// Whether nothing in the tree stands behind the path.
spec fn reaches(path: Seq<Seq<char>>, folder: FolderView) -> bool
    decreases path.len(),
{
    if path.len() == 0 {
        folder.folders.len() == 0
    } else {
        let at = child_place(folder.folders, path[0]);
        &&& forall|i: int|
            #![trigger folder.folders[i]]
            0 <= i < folder.folders.len() ==> !component_before(path[0], folder.folders[i].name)
        &&& at < folder.folders.len() ==> reaches(path.drop_first(), folder.folders[at])
    }
}

proof fn lemma_reaches_on(p: Seq<Seq<char>>, q: Seq<Seq<char>>, folder: FolderView)
    requires
        reaches(p, folder),
        !components_before(q, p),
    ensures
        reaches(q, folder),
    decreases q.len(),
{
    if p.len() > 0 && q.len() > 0 {
        lemma_child_place(folder.folders, q[0]);
        let at = child_place(folder.folders, q[0]);
        if p[0] == q[0] {
            if at < folder.folders.len() {
                lemma_reaches_on(p.drop_first(), q.drop_first(), folder.folders[at]);
            }
        } else {
            lemma_component_order(p[0], q[0], q[0]);
            assert forall|i: int|
                #![trigger folder.folders[i]]
                0 <= i < folder.folders.len() implies component_before(
                folder.folders[i].name,
                q[0],
            ) && !component_before(q[0], folder.folders[i].name) && folder.folders[i].name
                != q[0] by {
                let name = folder.folders[i].name;
                lemma_component_order(name, p[0], q[0]);
                lemma_component_order(p[0], q[0], name);
                lemma_component_order(q[0], name, name);
                lemma_component_order(name, q[0], name);
            }
            if at < folder.folders.len() {
                assert(folder.folders[at].name != q[0]);
            }
        }
    }
}

proof fn lemma_placing_keeps_the_order(
    folder: FolderView,
    path: Seq<Seq<char>>,
    file: Option<usize>,
)
    requires
        path.len() > 0,
        file is Some,
        folders_in_order(folder),
        reaches(path, folder),
    ensures
        folders_in_order(placed(folder, path.drop_last(), file)),
        reaches(path, placed(folder, path.drop_last(), file)),
    decreases path.len(),
{
    let dirs = path.drop_last();
    let after = placed(folder, dirs, file);
    if path.len() > 1 {
        let name = path[0];
        let rest = path.drop_first();
        let at = child_place(folder.folders, name);
        lemma_child_place(folder.folders, name);
        let child = if at < folder.folders.len() {
            folder.folders[at]
        } else {
            empty_folder(name, join_of(folder.path, name))
        };
        assert(dirs.drop_first() =~= rest.drop_last());
        lemma_placing_keeps_the_name(child, rest.drop_last(), file);
        lemma_placing_keeps_the_order(child, rest, file);
        assert(after.folders[at] == placed(child, rest.drop_last(), file));
        assert forall|i: int, j: int|
            #![trigger after.folders[i], after.folders[j]]
            0 <= i < j < after.folders.len() implies component_before(
            after.folders[i].name,
            after.folders[j].name,
        ) by {
            assert(i != at ==> after.folders[i] == folder.folders[i]);
            assert(j != at ==> after.folders[j] == folder.folders[j]);
            if j == folder.folders.len() {
                lemma_component_order(folder.folders[i].name, name, name);
            }
        }
        assert forall|i: int|
            #![trigger after.folders[i]]
            0 <= i < after.folders.len() implies folders_in_order(after.folders[i])
            && !component_before(name, after.folders[i].name) by {
            assert(i != at ==> after.folders[i] == folder.folders[i]);
            lemma_component_order(name, name, name);
        }
        assert forall|i: int| #![trigger after.folders[i]] 0 <= i < at implies
            after.folders[i].name != name by {
            assert(after.folders[i] == folder.folders[i]);
        }
        lemma_child_place_is_unique(after.folders, name, at);
    }
}

proof fn lemma_tree_is_in_order(entries: Seq<AssetEntry>, n: nat)
    requires
        n <= entries.len(),
        in_order(entries),
    ensures
        folders_in_order(tree_of(entries, n)),
        forall|m: int|
            #![trigger entries[m]]
            n <= m < entries.len() ==> reaches(
                components_of(entries[m].relative_path@),
                tree_of(entries, n),
            ),
    decreases n,
{
    if n > 0 {
        lemma_tree_is_in_order(entries, (n - 1) as nat);
        let rest = tree_of(entries, (n - 1) as nat);
        let path = components_of(entries[n - 1].relative_path@);
        if file_name_of(entries[n - 1].relative_path@) is Some {
            lemma_placing_keeps_the_order(rest, path, Some((n - 1) as usize));
            assert forall|m: int| #![trigger entries[m]] n <= m < entries.len() implies reaches(
                components_of(entries[m].relative_path@),
                tree_of(entries, n),
            ) by {
                assert(!entries[m].before(&entries[n - 1]));
                lemma_reaches_on(
                    path,
                    components_of(entries[m].relative_path@),
                    tree_of(entries, n),
                );
            }
        }
    }
}

/// Entries in the order of their paths, as a scan gives them, make a tree whose
/// directories stand in the order of their names.
pub proof fn law_scanned_tree_is_sorted(entries: Seq<AssetEntry>)
    requires
        in_order(entries),
    ensures
        folders_in_order(tree_of(entries, entries.len())),
{
    lemma_tree_is_in_order(entries, entries.len());
}

proof fn lemma_prefix_of_rest(path: Seq<Seq<char>>, dirs: Seq<Seq<char>>)
    requires
        path.len() > 0,
        dirs.len() > 0,
        path[0] == dirs[0],
    ensures
        path.is_prefix_of(dirs) <==> path.drop_first().is_prefix_of(dirs.drop_first()),
{
    let rest = path.drop_first();
    if path.is_prefix_of(dirs) {
        assert forall|i: int| 0 <= i < rest.len() implies rest[i] == dirs.drop_first()[i] by {
            assert(rest[i] == path[i + 1]);
            assert(path[i + 1] == dirs.subrange(0, path.len() as int)[i + 1]);
        }
        assert(rest =~= dirs.drop_first().subrange(0, rest.len() as int));
    }
    if rest.is_prefix_of(dirs.drop_first()) {
        assert forall|i: int| 0 <= i < path.len() implies path[i] == dirs[i] by {
            if i > 0 {
                assert(path[i] == rest[i - 1]);
                assert(rest[i - 1] == dirs.drop_first().subrange(0, rest.len() as int)[i - 1]);
            }
        }
        assert(path =~= dirs.subrange(0, path.len() as int));
    }
}

/// Making directories keeps the order of names: where the directories stand in the
/// order of their names, they do so after.
pub proof fn law_ensuring_keeps_the_order(folder: FolderView, dirs: Seq<Seq<char>>)
    requires
        folders_in_order(folder),
    ensures
        folders_in_order(placed(folder, dirs, None)),
    decreases dirs.len(),
{
    if dirs.len() > 0 {
        let name = dirs[0];
        let after = placed(folder, dirs, None);
        let at = spot(folder, name, None);
        let held = child_place(folder.folders, name) < folder.folders.len();
        lemma_placed_step(folder, dirs, None);
        lemma_name_place(folder.folders, name);
        lemma_child_place(folder.folders, name);
        law_ensuring_keeps_the_order(child_or_fresh(folder, name), dirs.drop_first());
        assert forall|i: int, j: int|
            #![trigger after.folders[i], after.folders[j]]
            0 <= i < j < after.folders.len() implies component_before(
            after.folders[i].name,
            after.folders[j].name,
        ) by {
            let x = if held || i < at {
                i
            } else {
                i - 1
            };
            let y = if held || j < at {
                j
            } else {
                j - 1
            };
            if i != at {
                assert(after.folders[i] == folder.folders[x]);
            }
            if j != at {
                assert(after.folders[j] == folder.folders[y]);
            }
            if held {
                assert(folder.folders[at].name == name);
            } else if j == at {
                lemma_component_order(name, folder.folders[x].name, name);
            } else if i == at {
                let next = folder.folders[at].name;
                lemma_component_order(name, next, folder.folders[y].name);
            }
        }
        assert forall|i: int|
            #![trigger after.folders[i]]
            0 <= i < after.folders.len() implies folders_in_order(after.folders[i]) by {
            if i != at {
                let x = if held || i < at {
                    i
                } else {
                    i - 1
                };
                assert(after.folders[i] == folder.folders[x]);
            }
        }
    }
}

/// What placing does to the folder that `path` leads to. Every folder that was there
/// is still there, under its name and path, with the files it held; a folder is new
/// exactly if it lies on the way; and the placed file comes last in the folder at the
/// end of the way, in no other.
pub proof fn law_placing_leaves_other_folders(
    folder: FolderView,
    dirs: Seq<Seq<char>>,
    file: Option<usize>,
    path: Seq<Seq<char>>,
)
    ensures
        ({
            let was = folder_at(folder, path);
            let now = folder_at(placed(folder, dirs, file), path);
            let held = match was {
                Some(was) => was.files,
                None => Seq::empty(),
            };
            &&& now is Some <==> was is Some || path.is_prefix_of(dirs)
            &&& now matches Some(now) ==> now.files == (if path == dirs && file is Some {
                held.push(file->0)
            } else {
                held
            })
            &&& was matches Some(was) ==> now matches Some(now) && now.name == was.name && now.path
                == was.path
        }),
    decreases dirs.len(),
{
    let after = placed(folder, dirs, file);
    if dirs.len() == 0 {
        if path.len() == 0 {
            assert(path =~= dirs);
        } else {
            let at = child_place(folder.folders, path[0]);
            assert(folder_at(after, path) == folder_at(folder, path));
            assert(!path.is_prefix_of(dirs));
        }
    } else {
        lemma_placed_step(folder, dirs, file);
        if path.len() == 0 {
            assert(path != dirs);
            assert(path.is_prefix_of(dirs));
        } else if path[0] == dirs[0] {
            let child = child_or_fresh(folder, dirs[0]);
            let rest = path.drop_first();
            law_placing_leaves_other_folders(child, dirs.drop_first(), file, rest);
            assert(path =~= seq![path[0]] + rest);
            assert(dirs =~= seq![dirs[0]] + dirs.drop_first());
            assert(path == dirs <==> rest == dirs.drop_first());
            lemma_prefix_of_rest(path, dirs);
            if child_place(folder.folders, dirs[0]) >= folder.folders.len() {
                lemma_nothing_in_an_empty_folder(child, rest);
                lemma_only_itself_in_an_empty_folder(child, rest);
                if rest.len() == 0 {
                    assert(rest.is_prefix_of(dirs.drop_first()));
                }
            }
        } else {
            lemma_other_child(folder, dirs, file, path[0]);
            assert(!path.is_prefix_of(dirs)) by {
                if path.is_prefix_of(dirs) {
                    assert(path[0] == dirs.subrange(0, path.len() as int)[0]);
                }
            }
        }
    }
}

proof fn lemma_only_itself_in_an_empty_folder(folder: FolderView, path: Seq<Seq<char>>)
    requires
        folder.folders.len() == 0,
    ensures
        folder_at(folder, path) is Some <==> path.len() == 0,
{
    if path.len() > 0 {
        lemma_child_place(folder.folders, path[0]);
    }
}

/// Whether every directory lies, by its path, in the directory that holds it, all the
/// way down.
pub open spec fn paths_fit(folder: FolderView) -> bool
    decreases folder,
{
    forall|i: int|
        #![trigger folder.folders[i]]
        0 <= i < folder.folders.len() ==> folder.folders[i].path == join_of(
            folder.path,
            folder.folders[i].name,
        ) && paths_fit(folder.folders[i])
}

/// The path that leads down `dirs` from `path`.
pub open spec fn path_along(path: Seq<char>, dirs: Seq<Seq<char>>) -> Seq<char>
    decreases dirs.len(),
{
    if dirs.len() == 0 {
        path
    } else {
        path_along(join_of(path, dirs[0]), dirs.drop_first())
    }
}

/// Paths that fit still fit after something was placed.
pub proof fn law_placing_keeps_paths_fitting(
    folder: FolderView,
    dirs: Seq<Seq<char>>,
    file: Option<usize>,
)
    requires
        paths_fit(folder),
    ensures
        paths_fit(placed(folder, dirs, file)),
    decreases dirs.len(),
{
    if dirs.len() > 0 {
        let after = placed(folder, dirs, file);
        let at = spot(folder, dirs[0], file);
        let held = child_place(folder.folders, dirs[0]) < folder.folders.len();
        let child = child_or_fresh(folder, dirs[0]);
        lemma_placed_step(folder, dirs, file);
        lemma_child_place(folder.folders, dirs[0]);
        lemma_placing_keeps_the_name(child, dirs.drop_first(), file);
        law_placing_keeps_paths_fitting(child, dirs.drop_first(), file);
        assert forall|i: int|
            #![trigger after.folders[i]]
            0 <= i < after.folders.len() implies after.folders[i].path == join_of(
            after.path,
            after.folders[i].name,
        ) && paths_fit(after.folders[i]) by {
            if i != at {
                let x = if held || i < at {
                    i
                } else {
                    i - 1
                };
                assert(after.folders[i] == folder.folders[x]);
            }
        }
    }
}

/// Where paths fit, the folder that the way leads to has the name of the way's last
/// part and the path along the way.
pub proof fn law_folder_has_its_name_and_path(folder: FolderView, dirs: Seq<Seq<char>>)
    requires
        paths_fit(folder),
    ensures
        folder_at(folder, dirs) matches Some(there) ==> {
            &&& there.path == path_along(folder.path, dirs)
            &&& dirs.len() > 0 ==> there.name == dirs.last()
        },
    decreases dirs.len(),
{
    if dirs.len() > 0 {
        let at = child_place(folder.folders, dirs[0]);
        lemma_child_place(folder.folders, dirs[0]);
        if at < folder.folders.len() {
            law_folder_has_its_name_and_path(folder.folders[at], dirs.drop_first());
            if dirs.len() > 1 {
                assert(dirs.drop_first().last() == dirs.last());
            }
        }
    }
}

/// After a directory was ensured, there is a folder for it and for every directory on
/// the way, each under its own name and path.
pub proof fn law_ensured_directories_are_there(folder: FolderView, dirs: Seq<Seq<char>>, k: int)
    requires
        paths_fit(folder),
        0 <= k <= dirs.len(),
    ensures
        folder_at(placed(folder, dirs, None), dirs.take(k)) matches Some(there) && {
            &&& there.path == path_along(folder.path, dirs.take(k))
            &&& k > 0 ==> there.name == dirs[k - 1]
        },
{
    law_placing_leaves_other_folders(folder, dirs, None, dirs.take(k));
    assert(dirs.take(k).is_prefix_of(dirs)) by {
        assert(dirs.take(k) =~= dirs.subrange(0, k));
    }
    law_placing_keeps_paths_fitting(folder, dirs, None);
    lemma_placing_keeps_the_name(folder, dirs, None);
    law_folder_has_its_name_and_path(placed(folder, dirs, None), dirs.take(k));
    if k > 0 {
        assert(dirs.take(k).last() == dirs[k - 1]);
    }
}

/// The number of files in the folder that the path leads to and below it; none where
/// there is no such folder.
pub open spec fn count_at(folder: FolderView, path: Seq<Seq<char>>) -> nat {
    match folder_at(folder, path) {
        Some(there) => files_in(there),
        None => 0,
    }
}

proof fn lemma_placing_counts_below(
    folder: FolderView,
    dirs: Seq<Seq<char>>,
    file: usize,
    path: Seq<Seq<char>>,
)
    ensures
        count_at(placed(folder, dirs, Some(file)), path) == count_at(folder, path)
            + (if path.is_prefix_of(dirs) {
            1nat
        } else {
            0nat
        }),
    decreases dirs.len(),
{
    let after = placed(folder, dirs, Some(file));
    if path.len() == 0 {
        law_placing_counts_the_file_once(folder, dirs, Some(file));
        assert(path.is_prefix_of(dirs));
    } else if dirs.len() == 0 {
        assert(folder_at(after, path) == folder_at(folder, path));
        assert(!path.is_prefix_of(dirs));
    } else if path[0] == dirs[0] {
        let child = child_or_fresh(folder, dirs[0]);
        let rest = path.drop_first();
        lemma_placed_step(folder, dirs, Some(file));
        lemma_placing_counts_below(child, dirs.drop_first(), file, rest);
        lemma_prefix_of_rest(path, dirs);
        if child_place(folder.folders, dirs[0]) >= folder.folders.len() {
            lemma_only_itself_in_an_empty_folder(child, rest);
            assert(files_in_all(child.folders) == 0);
        }
    } else {
        lemma_placed_step(folder, dirs, Some(file));
        lemma_other_child(folder, dirs, Some(file), path[0]);
        assert(!path.is_prefix_of(dirs)) by {
            if path.is_prefix_of(dirs) {
                assert(path[0] == dirs.subrange(0, path.len() as int)[0]);
            }
        }
    }
}

/// How many of the first `n` entries name a file somewhere below the directory.
pub open spec fn entries_below(entries: Seq<AssetEntry>, n: nat, path: Seq<Seq<char>>) -> nat
    decreases n,
{
    if n == 0 {
        0
    } else {
        let last = entries[n - 1].relative_path@;
        entries_below(entries, (n - 1) as nat, path) + (if file_name_of(last) is Some
            && path.is_prefix_of(components_of(last).drop_last()) {
            1nat
        } else {
            0nat
        })
    }
}

/// The tree counts in each of its folders the entries whose files lie below it, at any
/// depth, and each folder lies by its path where it is.
pub proof fn law_folders_count_what_lies_below(
    entries: Seq<AssetEntry>,
    n: nat,
    path: Seq<Seq<char>>,
)
    requires
        n <= entries.len(),
    ensures
        count_at(tree_of(entries, n), path) == entries_below(entries, n, path),
        paths_fit(tree_of(entries, n)),
    decreases n,
{
    if n > 0 {
        law_folders_count_what_lies_below(entries, (n - 1) as nat, path);
        let rest = tree_of(entries, (n - 1) as nat);
        let dirs = components_of(entries[n - 1].relative_path@).drop_last();
        lemma_placing_counts_below(rest, dirs, (n - 1) as usize, path);
        law_placing_keeps_paths_fitting(rest, dirs, Some((n - 1) as usize));
    } else {
        let root = tree_of(entries, n);
        lemma_only_itself_in_an_empty_folder(root, path);
        assert(files_in_all(root.folders) == 0);
    }
}

/// Builds the directory tree of the entries. An entry whose path names no file is
/// left out.
pub fn build_tree(entries: &[AssetEntry]) -> (root: AssetFolder)
    ensures
        root@ == tree_of(entries@, entries@.len()),
{
    let mut root = AssetFolder::default();
    for i in 0..entries.len()
        invariant
            root@ == tree_of(entries@, i as nat),
    {
        let path = &entries[i].relative_path;
        let parts = components(path);
        if crate::paths::file_name(path).is_some() {
            proof {
                assert(views(parts@).len() == parts@.len());
                assert(views(parts@).subrange(0, parts@.len() - 1) =~= components_of(
                    path@,
                ).drop_last());
            }
            root.place(&parts, 0, parts.len() - 1, Some(i));
        }
    }
    root
}

} // verus!
