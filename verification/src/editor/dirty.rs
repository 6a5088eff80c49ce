//! What has changes that are not saved.

use vstd::prelude::*;

use crate::order::{is_path_before, lemma_path_order, path_before};
use crate::paths::same_path;
use crate::text::{decimal, decimal_text, join2, join3};

verus! {

/// Which of the things that can be saved have changes that are not.
#[derive(Debug)]
pub struct DirtyState {
    scene: bool,
    settings: bool,
    documents: Vec<String>,
}

/// What has changes that are not saved.
#[verifier::ext_equal]
pub ghost struct DirtyView {
    /// Whether the scene has.
    pub scene: bool,
    /// Whether the settings have.
    pub settings: bool,
    /// The documents that have.
    pub documents: Seq<Seq<char>>,
}

/// How many of the documents stand before the path, counted from the front.
pub open spec fn place_of(documents: Seq<Seq<char>>, path: Seq<char>) -> int
    decreases documents.len(),
{
    if documents.len() == 0 || !path_before(documents[0], path) {
        0
    } else {
        1 + place_of(documents.drop_first(), path)
    }
}

/// Whether one of the documents is the one at the path.
pub open spec fn holds(documents: Seq<Seq<char>>, path: Seq<char>) -> bool {
    exists|i: int| 0 <= i < documents.len() && same_path(#[trigger] documents[i], path)
}

/// Whether the documents stand in the order of their paths, each once.
pub open spec fn in_path_order(documents: Seq<Seq<char>>) -> bool {
    forall|i: int, j: int|
        #![trigger documents[i], documents[j]]
        0 <= i < j < documents.len() ==> path_before(documents[i], documents[j])
}

/// The documents with one more, put where it belongs, unless it is there already.
pub open spec fn with_document(documents: Seq<Seq<char>>, path: Seq<char>) -> Seq<Seq<char>> {
    let at = place_of(documents, path);
    if at < documents.len() && same_path(documents[at], path) {
        documents
    } else {
        documents.insert(at, path)
    }
}

/// The documents without the one at the path.
pub open spec fn without_document(documents: Seq<Seq<char>>, path: Seq<char>) -> Seq<Seq<char>> {
    let at = place_of(documents, path);
    if at < documents.len() && same_path(documents[at], path) {
        documents.remove(at)
    } else {
        documents
    }
}

proof fn lemma_place(documents: Seq<Seq<char>>, path: Seq<char>)
    ensures
        0 <= place_of(documents, path) <= documents.len(),
        forall|i: int|
            #![trigger documents[i]]
            0 <= i < place_of(documents, path) ==> path_before(documents[i], path),
        place_of(documents, path) < documents.len() ==> !path_before(
            documents[place_of(documents, path)],
            path,
        ),
    decreases documents.len(),
{
    if documents.len() > 0 && path_before(documents[0], path) {
        let rest = documents.drop_first();
        lemma_place(rest, path);
        assert forall|i: int|
            #![trigger documents[i]]
            0 <= i < place_of(documents, path) implies path_before(documents[i], path) by {
            if i > 0 {
                assert(documents[i] == rest[i - 1]);
            }
        }
    }
}

proof fn lemma_place_is_unique(documents: Seq<Seq<char>>, path: Seq<char>, at: int)
    requires
        0 <= at <= documents.len(),
        forall|i: int|
            #![trigger documents[i]]
            0 <= i < at ==> path_before(documents[i], path),
        at < documents.len() ==> !path_before(documents[at], path),
    ensures
        place_of(documents, path) == at,
{
    lemma_place(documents, path);
    let found = place_of(documents, path);
    if found < at {
        assert(path_before(documents[found], path));
    } else if at < found {
        assert(path_before(documents[at], path));
    }
}

proof fn lemma_held_at_place(documents: Seq<Seq<char>>, path: Seq<char>)
    requires
        in_path_order(documents),
    ensures
        holds(documents, path) <==> place_of(documents, path) < documents.len() && same_path(
            documents[place_of(documents, path)],
            path,
        ),
{
    lemma_place(documents, path);
    let at = place_of(documents, path);
    if holds(documents, path) {
        let i = choose|i: int| 0 <= i < documents.len() && same_path(#[trigger] documents[i], path);
        lemma_path_order(documents[i], path, path);
        if i < at {
            assert(path_before(documents[i], path));
            assert(path_before(path, path));
        }
        if at < i {
            assert(path_before(documents[at], documents[i]));
            assert(path_before(documents[at], path));
        }
    }
}

/// Documents stay in the order of their paths, each once.
pub proof fn law_documents_stay_in_order(documents: Seq<Seq<char>>, path: Seq<char>)
    requires
        in_path_order(documents),
    ensures
        in_path_order(with_document(documents, path)),
        in_path_order(without_document(documents, path)),
{
    lemma_place(documents, path);
    let at = place_of(documents, path);
    let with = with_document(documents, path);
    if at == documents.len() || !same_path(documents[at], path) {
        assert forall|i: int, j: int|
            #![trigger with[i], with[j]]
            0 <= i < j < with.len() implies path_before(with[i], with[j]) by {
            if j == at {
                assert(path_before(documents[i], path));
            } else if i == at {
                lemma_path_order(documents[at], path, path);
                assert(path_before(path, documents[at]));
                if j - 1 > at {
                    assert(path_before(documents[at], documents[j - 1]));
                    lemma_path_order(path, documents[at], documents[j - 1]);
                }
            } else {
                let a = if i < at {
                    i
                } else {
                    i - 1
                };
                let b = if j < at {
                    j
                } else {
                    j - 1
                };
                assert(path_before(documents[a], documents[b]));
            }
        }
    }
}

/// A marked document is held and a cleared one is not; marking or clearing one again
/// changes nothing, and neither does marking one that was not held and clearing it.
pub proof fn law_marking_and_clearing(documents: Seq<Seq<char>>, path: Seq<char>)
    requires
        in_path_order(documents),
    ensures
        holds(with_document(documents, path), path),
        !holds(without_document(documents, path), path),
        with_document(with_document(documents, path), path) == with_document(documents, path),
        without_document(without_document(documents, path), path) == without_document(
            documents,
            path,
        ),
        !holds(documents, path) ==> without_document(with_document(documents, path), path)
            == documents,
{
    lemma_place(documents, path);
    lemma_held_at_place(documents, path);
    law_documents_stay_in_order(documents, path);
    lemma_path_order(path, path, path);
    let at = place_of(documents, path);
    let with = with_document(documents, path);
    let without = without_document(documents, path);
    if holds(documents, path) {
        assert(same_path(with[at], path));
        assert forall|i: int| 0 <= i < without.len() implies !same_path(
            #[trigger] without[i],
            path,
        ) by {
            let k = if i < at {
                i
            } else {
                i + 1
            };
            assert(without[i] == documents[k]);
            lemma_path_order(documents[k], path, path);
            if k < at {
                assert(path_before(documents[k], path));
            } else {
                assert(path_before(documents[at], documents[k]));
            }
        }
        lemma_place(without, path);
    } else {
        assert(with[at] == path);
        assert forall|i: int| #![trigger with[i]] 0 <= i < at implies path_before(with[i], path) by {
            assert(with[i] == documents[i]);
        }
        lemma_place_is_unique(with, path, at);
        assert(with.remove(at) =~= documents);
    }
}

/// Marking or clearing a document touches no other.
pub proof fn law_other_documents_stay(
    documents: Seq<Seq<char>>,
    path: Seq<char>,
    other: Seq<char>,
)
    requires
        in_path_order(documents),
        !same_path(path, other),
    ensures
        holds(with_document(documents, path), other) == holds(documents, other),
        holds(without_document(documents, path), other) == holds(documents, other),
{
    lemma_place(documents, path);
    lemma_held_at_place(documents, path);
    let at = place_of(documents, path);
    let with = with_document(documents, path);
    let without = without_document(documents, path);
    if holds(documents, path) {
        if holds(documents, other) {
            let i = choose|i: int|
                0 <= i < documents.len() && same_path(#[trigger] documents[i], other);
            assert(i != at);
            assert(without[if i < at {
                i
            } else {
                i - 1
            }] == documents[i]);
        }
        if holds(without, other) {
            let i = choose|i: int| 0 <= i < without.len() && same_path(#[trigger] without[i], other);
            assert(without[i] == documents[if i < at {
                i
            } else {
                i + 1
            }]);
        }
    } else {
        assert(with[at] == path);
        if holds(documents, other) {
            let i = choose|i: int|
                0 <= i < documents.len() && same_path(#[trigger] documents[i], other);
            assert(with[if i < at {
                i
            } else {
                i + 1
            }] == documents[i]);
        }
        if holds(with, other) {
            let i = choose|i: int| 0 <= i < with.len() && same_path(#[trigger] with[i], other);
            assert(i != at);
            assert(with[i] == documents[if i < at {
                i
            } else {
                i - 1
            }]);
        }
    }
}

/// The texts of strings.
pub open spec fn texts(documents: Seq<String>) -> Seq<Seq<char>> {
    documents.map_values(|path: String| path@)
}

impl View for DirtyState {
    type V = DirtyView;

    closed spec fn view(&self) -> DirtyView {
        DirtyView {
            scene: self.scene,
            settings: self.settings,
            documents: texts(self.documents@),
        }
    }
}

/// What is not saved, in words: its parts with a plus sign between.
pub open spec fn unsaved_text(dirty: DirtyView) -> Seq<char> {
    let count = dirty.documents.len();
    let surfaces = if dirty.scene && dirty.settings {
        "scene + settings"@
    } else if dirty.scene {
        "scene"@
    } else {
        "settings"@
    };
    let files = decimal_text(count) + (if count == 1 {
        " file"@
    } else {
        " files"@
    });
    if count == 0 {
        surfaces
    } else if dirty.scene || dirty.settings {
        surfaces + " + "@ + files
    } else {
        files
    }
}

impl Default for DirtyState {
    fn default() -> (dirty: DirtyState)
        ensures
            dirty@ == (DirtyView { scene: false, settings: false, documents: Seq::empty() }),
    {
        let dirty = DirtyState { scene: false, settings: false, documents: Vec::new() };
        assert(dirty@.documents =~= Seq::empty());
        dirty
    }
}

impl DirtyView {
    /// Whether anything has changes that are not saved.
    pub open spec fn anything(self) -> bool {
        self.scene || self.settings || self.documents.len() > 0
    }
}

impl DirtyState {
    /// The documents stand in the order of their paths, each once.
    #[verifier::type_invariant]
    spec fn ordered(&self) -> bool {
        in_path_order(texts(self.documents@))
    }

    /// Whether anything has changes that are not saved.
    pub fn any(&self) -> (answer: bool)
        ensures
            answer == self@.anything(),
    {
        self.scene || self.settings || self.documents.len() > 0
    }

    /// Whether the scene has.
    pub fn scene(&self) -> (answer: bool)
        ensures
            answer == self@.scene,
    {
        self.scene
    }

    /// Whether the settings have.
    pub fn settings(&self) -> (answer: bool)
        ensures
            answer == self@.settings,
    {
        self.settings
    }

    /// Marks the scene.
    pub fn mark_scene(&mut self)
        ensures
            final(self)@ == (DirtyView { scene: true, ..old(self)@ }),
    {
        proof {
            use_type_invariant(&*self);
        }
        self.scene = true;
    }

    /// Clears the scene's mark, after it was saved or loaded.
    pub fn clear_scene(&mut self)
        ensures
            final(self)@ == (DirtyView { scene: false, ..old(self)@ }),
    {
        proof {
            use_type_invariant(&*self);
        }
        self.scene = false;
    }

    /// Marks the settings.
    pub fn mark_settings(&mut self)
        ensures
            final(self)@ == (DirtyView { settings: true, ..old(self)@ }),
    {
        proof {
            use_type_invariant(&*self);
        }
        self.settings = true;
    }

    /// Clears the settings' mark.
    pub fn clear_settings(&mut self)
        ensures
            final(self)@ == (DirtyView { settings: false, ..old(self)@ }),
    {
        proof {
            use_type_invariant(&*self);
        }
        self.settings = false;
    }

    /// The first document that does not stand before the path.
    fn position(&self, path: &str) -> (at: usize)
        ensures
            at == place_of(self@.documents, path@),
            at <= self.documents@.len(),
    {
        let mut at: usize = 0;
        while at < self.documents.len() && is_path_before(&self.documents[at], path)
            invariant
                at <= self.documents@.len(),
                forall|i: int|
                    #![trigger self.documents@[i]]
                    0 <= i < at ==> path_before(self.documents@[i]@, path@),
            decreases self.documents@.len() - at,
        {
            at += 1;
        }
        proof {
            let documents = self@.documents;
            assert forall|i: int| #![trigger documents[i]] 0 <= i < at implies path_before(
                documents[i],
                path@,
            ) by {
                assert(documents[i] == self.documents@[i]@);
            }
            lemma_place_is_unique(documents, path@, at as int);
        }
        at
    }

    /// Marks the document.
    pub fn mark_document(&mut self, path: &str)
        ensures
            final(self)@ == (DirtyView {
                documents: with_document(old(self)@.documents, path@),
                ..old(self)@
            }),
    {
        let ghost before = self@;
        proof {
            use_type_invariant(&*self);
            law_documents_stay_in_order(before.documents, path@);
        }
        let at: usize = self.position(path);
        if at == self.documents.len() || !crate::paths::same(&self.documents[at], path) {
            let mut documents: Vec<String> = Vec::new();
            std::mem::swap(&mut self.documents, &mut documents);
            documents.insert(at, path.to_owned());
            assert(texts(documents@) =~= before.documents.insert(at as int, path@));
            self.documents = documents;
        }
    }

    /// Clears the document's mark, after it was saved or closed.
    pub fn clear_document(&mut self, path: &str)
        ensures
            final(self)@ == (DirtyView {
                documents: without_document(old(self)@.documents, path@),
                ..old(self)@
            }),
    {
        let ghost before = self@;
        proof {
            use_type_invariant(&*self);
            law_documents_stay_in_order(before.documents, path@);
        }
        let at: usize = self.position(path);
        if at < self.documents.len() && crate::paths::same(&self.documents[at], path) {
            let mut documents: Vec<String> = Vec::new();
            std::mem::swap(&mut self.documents, &mut documents);
            let _ = documents.remove(at);
            assert(texts(documents@) =~= before.documents.remove(at as int));
            self.documents = documents;
        }
    }

    /// The documents that have changes that are not saved, in the order of their paths
    /// and each once.
    pub fn dirty_documents(&self) -> (documents: &Vec<String>)
        ensures
            texts(documents@) == self@.documents,
            in_path_order(texts(documents@)),
    {
        proof {
            use_type_invariant(self);
        }
        &self.documents
    }

    /// What is not saved, in words; `None` when everything is.
    pub fn summary(&self) -> (summary: Option<String>)
        ensures
            match summary {
                Some(text) => self@.anything() && text@ == unsaved_text(self@),
                None => !self@.anything(),
            },
    {
        if !self.any() {
            return None;
        }
        let surfaces = if self.scene && self.settings {
            "scene + settings"
        } else if self.scene {
            "scene"
        } else {
            "settings"
        };
        let count: usize = self.documents.len();
        assert(count == self@.documents.len());
        if count == 0 {
            return Some(surfaces.to_owned());
        }
        let ending = if count == 1 {
            " file"
        } else {
            " files"
        };
        let files = join2(&decimal(count as u64), ending);
        if self.scene || self.settings {
            Some(join3(surfaces, " + ", &files))
        } else {
            Some(files)
        }
    }
}

/// An action that waits until it is clear what becomes of unsaved changes.
#[derive(Debug, PartialEq, Eq)]
pub enum PendingAction {
    /// Close the editor.
    Quit,
    /// Start an empty scene.
    NewScene,
    /// Load the scene anew.
    RevertScene,
    /// Open the project in the directory.
    OpenProject(String),
    /// Create a project in the directory and open it.
    NewProject(String),
}

impl Clone for PendingAction {
    fn clone(&self) -> (copy: PendingAction)
        ensures
            copy == *self,
    {
        match self {
            PendingAction::Quit => PendingAction::Quit,
            PendingAction::NewScene => PendingAction::NewScene,
            PendingAction::RevertScene => PendingAction::RevertScene,
            PendingAction::OpenProject(path) => PendingAction::OpenProject(path.clone()),
            PendingAction::NewProject(path) => PendingAction::NewProject(path.clone()),
        }
    }
}

impl PendingAction {
    /// The actions that carry no path.
    pub const ALL: [PendingAction; 3] = [
        PendingAction::Quit,
        PendingAction::NewScene,
        PendingAction::RevertScene,
    ];

    /// The action as it is named in the question whether to save before it.
    pub open spec fn phrase(self) -> Seq<char> {
        match self {
            PendingAction::Quit => "closing"@,
            PendingAction::NewScene => "starting a new scene"@,
            PendingAction::RevertScene => "reverting the scene"@,
            PendingAction::OpenProject(_) => "opening another project"@,
            PendingAction::NewProject(_) => "creating a new project"@,
        }
    }

    /// The action as it is named in the question whether to save before it.
    pub fn verb(&self) -> (verb: &'static str)
        ensures
            verb@ == self.phrase(),
    {
        match self {
            PendingAction::Quit => "closing",
            PendingAction::NewScene => "starting a new scene",
            PendingAction::RevertScene => "reverting the scene",
            PendingAction::OpenProject(_) => "opening another project",
            PendingAction::NewProject(_) => "creating a new project",
        }
    }
}

/// The summary names every surface with unsaved changes, and counts the documents: one is a
/// file, more are files. Surfaces and files are joined by a plus sign.
pub proof fn law_summary_names_what_is_unsaved(dirty: DirtyView)
    ensures
        dirty.anything() <==> dirty.scene || dirty.settings || dirty.documents.len() != 0,
        ({
            let count = dirty.documents.len();
            let files = if count == 1 {
                decimal_text(1) + " file"@
            } else {
                decimal_text(count) + " files"@
            };
            let text = unsaved_text(dirty);
            &&& count == 0 && dirty.scene && dirty.settings ==> text == "scene + settings"@
            &&& count == 0 && dirty.scene && !dirty.settings ==> text == "scene"@
            &&& count == 0 && !dirty.scene && dirty.settings ==> text == "settings"@
            &&& count > 0 && !dirty.scene && !dirty.settings ==> text == files
            &&& count > 0 && dirty.scene && dirty.settings ==> text == "scene + settings"@ + " + "@
                + files
            &&& count > 0 && dirty.scene && !dirty.settings ==> text == "scene"@ + " + "@ + files
            &&& count > 0 && !dirty.scene && dirty.settings ==> text == "settings"@ + " + "@
                + files
        }),
{
}

/// A document is marked in its place: all the documents before it come before its path, and
/// all behind it after. Clearing takes out the document of that path alone.
pub proof fn law_documents_are_kept_by_path(documents: Seq<Seq<char>>, path: Seq<char>, i: int)
    requires
        in_path_order(documents),
    ensures
        ({
            let marked = with_document(documents, path);
            let cleared = without_document(documents, path);
            let known = exists|k: int|
                0 <= k < documents.len() && same_path(#[trigger] documents[k], path);
            &&& known ==> marked == documents && cleared.len() == documents.len() - 1
            &&& !known ==> marked.len() == documents.len() + 1 && cleared == documents
            &&& 0 <= i < documents.len() ==> marked.contains(documents[i])
            &&& 0 <= i < documents.len() && !same_path(documents[i], path) ==> cleared.contains(
                documents[i],
            )
            &&& 0 <= i < cleared.len() ==> documents.contains(cleared[i])
            &&& !known ==> marked.contains(path)
        }),
{
    lemma_place(documents, path);
    lemma_held_at_place(documents, path);
    let at = place_of(documents, path);
    let marked = with_document(documents, path);
    let cleared = without_document(documents, path);
    let there = at < documents.len() && same_path(documents[at], path);
    assert forall|k: int| 0 <= k < documents.len() && same_path(
        #[trigger] documents[k],
        path,
    ) implies there by {
        assert(holds(documents, path));
    }
    if 0 <= i < documents.len() {
        if there {
            assert(marked[i] == documents[i]);
            if i < at {
                assert(cleared[i] == documents[i]);
            } else if i > at {
                assert(cleared[i - 1] == documents[i]);
            }
        } else {
            assert(cleared[i] == documents[i]);
            if i < at {
                assert(marked[i] == documents[i]);
            } else {
                assert(marked[i + 1] == documents[i]);
            }
        }
    }
    if 0 <= i < cleared.len() {
        if there && i >= at {
            assert(documents[i + 1] == cleared[i]);
        } else {
            assert(documents[i] == cleared[i]);
        }
    }
    if !there {
        assert(marked[at] == path);
    }
}

proof fn lemma_same_only_at_place(documents: Seq<Seq<char>>, path: Seq<char>, i: int)
    requires
        in_path_order(documents),
        0 <= i < documents.len(),
        i != place_of(documents, path),
    ensures
        !same_path(documents[i], path),
{
    if same_path(documents[i], path) {
        lemma_place(documents, path);
        lemma_held_at_place(documents, path);
        let at = place_of(documents, path);
        lemma_path_order(documents[i], path, path);
        lemma_path_order(documents[at], path, path);
        lemma_path_order(documents[i], path, documents[at]);
        lemma_path_order(documents[at], path, documents[i]);
        lemma_path_order(documents[i], documents[at], path);
        lemma_path_order(documents[at], documents[i], path);
    }
}

/// How the question about unsaved changes speaks of what it waits for.
pub proof fn law_actions_are_phrased(choice: PendingAction)
    ensures
        choice is Quit ==> choice.phrase() == "closing"@,
        choice is NewScene ==> choice.phrase() == "starting a new scene"@,
        choice is RevertScene ==> choice.phrase() == "reverting the scene"@,
        choice is OpenProject ==> choice.phrase() == "opening another project"@,
        choice is NewProject ==> choice.phrase() == "creating a new project"@,
{
}

} // verus!
