//! Bringing files from elsewhere into a project.
//!
//! Files are copied, never referred to where they lie, and an import never takes
//! the name of a file that is already there.

use vstd::prelude::*;

use crate::editor::assets::{kind_of_path, AssetKind};
use crate::editor::prefab::said;
use crate::paths::{extension, extension_of, file_name, file_name_of, file_stem, file_stem_of};
use crate::paths::{join, join_of};
use crate::text::{ascii_lowercase_of, decimal, decimal_text, join2, join3, same};

verus! {

/// How many names are tried before an import gives up looking for a free one.
pub const MAX_ATTEMPTS: u32 = 9_999;

/// What happened to one file that was to be imported.
#[derive(Debug, PartialEq, Eq)]
pub enum ImportOutcome {
    /// It was copied.
    Copied {
        /// Where it lies now, relative to the directory imported into.
        destination: String,
        /// Whether it got another name because its own was taken.
        renamed: bool,
    },
    /// There is no importer for files like this.
    Unsupported {
        /// The file.
        source: String,
    },
    /// It could not be copied.
    Failed {
        /// The file.
        source: String,
        /// Why not.
        reason: String,
    },
}

impl ImportOutcome {
    /// The outcome in words.
    pub open spec fn text(self) -> Seq<char> {
        match self {
            ImportOutcome::Copied { destination, renamed } => if renamed {
                "imported as "@ + destination@ + " (that name was taken)"@
            } else {
                "imported "@ + destination@
            },
            ImportOutcome::Unsupported { source } => "skipped "@ + source@
                + ": no importer for this file type"@,
            ImportOutcome::Failed { source, reason } => "could not import "@ + source@ + ": "@
                + reason@,
        }
    }

    /// The outcome in one line.
    pub fn summary(&self) -> (text: String)
        ensures
            text@ == self.text(),
    {
        match self {
            ImportOutcome::Copied { destination, renamed } => if *renamed {
                join3("imported as ", destination, " (that name was taken)")
            } else {
                join2("imported ", destination)
            },
            ImportOutcome::Unsupported { source } => join3(
                "skipped ",
                source,
                ": no importer for this file type",
            ),
            ImportOutcome::Failed { source, reason } => {
                let head = join3("could not import ", source, ": ");
                join2(&head, reason)
            },
        }
    }

    /// Whether the outcome added a file to the project.
    pub fn succeeded(&self) -> (answer: bool)
        ensures
            answer == (self is Copied),
    {
        match self {
            ImportOutcome::Copied { .. } => true,
            ImportOutcome::Unsupported { .. } | ImportOutcome::Failed { .. } => false,
        }
    }
}

/// Whether the path is that of a file that can be imported. Scenes and prefabs are
/// the editor's own products and are not.
pub open spec fn importable(path: Seq<char>) -> bool {
    kind_of_path(path).referenceable()
}

/// Whether the path is that of a file that can be imported.
pub fn is_importable(path: &str) -> (answer: bool)
    ensures
        answer == importable(path@),
{
    match AssetKind::from_path(path) {
        AssetKind::Mesh | AssetKind::Texture | AssetKind::Audio => true,
        AssetKind::Scene | AssetKind::Prefab | AssetKind::Other => false,
    }
}

/// The extensions of the files that can be imported, as texts.
pub open spec fn importable_extension_texts() -> Seq<Seq<char>> {
    IMPORTABLE_EXTENSIONS@.map_values(|text: &str| text@)
}

/// The extensions of the files that can be imported, for the filter of the file
/// dialog.
pub const IMPORTABLE_EXTENSIONS: [&'static str; 6] = ["gltf", "glb", "png", "jpg", "jpeg", "wav"];

/// A file can be imported exactly if its extension, in any letter case, is one of
/// those listed.
pub proof fn law_listed_extensions_are_the_importable_ones(path: Seq<char>)
    ensures
        importable(path) <==> (extension_of(path) matches Some(extension)
            && importable_extension_texts().contains(ascii_lowercase_of(extension))),
{
    let listed = importable_extension_texts();
    if extension_of(path) is Some {
        let lower = ascii_lowercase_of(extension_of(path)->0);
        if importable(path) {
            let at: int = if lower == "gltf"@ {
                0
            } else if lower == "glb"@ {
                1
            } else if lower == "png"@ {
                2
            } else if lower == "jpg"@ {
                3
            } else if lower == "jpeg"@ {
                4
            } else {
                5
            };
            assert(listed[at] == lower);
        } else if listed.contains(lower) {
            let at = listed.index_of(lower);
            assert(listed[at] == lower);
        }
    }
}

/// The stem that numbered names are made of.
pub open spec fn numbered_stem(file_name: Seq<char>) -> Seq<char> {
    match file_stem_of(file_name) {
        Some(stem) => stem,
        None => "asset"@,
    }
}

/// The name that is tried as number `n`: the file's own first, then its stem with a
/// number and its extension.
pub open spec fn tried_name(file_name: Seq<char>, n: nat) -> Seq<char> {
    if n == 0 {
        file_name
    } else {
        let numbered = numbered_stem(file_name) + "_"@ + decimal_text(n);
        match extension_of(file_name) {
            Some(extension) => numbered + "."@ + extension,
            None => numbered,
        }
    }
}

fn name_to_try(file_name: &str, n: u32) -> (name: String)
    ensures
        name@ == tried_name(file_name@, n as nat),
{
    if n == 0 {
        return file_name.to_owned();
    }
    let stem: String = match file_stem(file_name) {
        Some(stem) => stem,
        None => "asset".to_owned(),
    };
    let numbered = join3(&stem, "_", &decimal(n as u64));
    match extension(file_name) {
        Some(extension) => join3(&numbered, ".", &extension),
        None => numbered,
    }
}

/// Whether `name` is the one that an import into the directory takes: the first
/// that is free, and where none is free, the last.
pub open spec fn chosen_name<F: Fn(&str) -> bool>(
    directory: Seq<char>,
    file_name: Seq<char>,
    name: Seq<char>,
    taken: &F,
) -> bool {
    exists|n: nat|
        {
            &&& n <= MAX_ATTEMPTS
            &&& name == #[trigger] tried_name(file_name, n)
            &&& said(taken, join_of(directory, name), false) || (n == MAX_ATTEMPTS && said(
                taken,
                join_of(directory, name),
                true,
            ))
            &&& forall|k: nat|
                k < n ==> said(taken, join_of(directory, #[trigger] tried_name(file_name, k)), true)
        }
}

/// An import takes a free name, unless the host said of every name tried that it is
/// taken.
pub proof fn law_import_takes_a_free_name<F: Fn(&str) -> bool>(
    directory: Seq<char>,
    file_name: Seq<char>,
    name: Seq<char>,
    taken: &F,
)
    requires
        chosen_name(directory, file_name, name, taken),
    ensures
        said(taken, join_of(directory, name), false) || forall|k: nat|
            k <= MAX_ATTEMPTS ==> said(
                taken,
                join_of(directory, #[trigger] tried_name(file_name, k)),
                true,
            ),
{
}

/// The name that a file takes in the directory, so that nothing is overwritten.
/// `taken` says whether a file exists.
pub fn unique_name<F: Fn(&str) -> bool>(
    directory: &str,
    file_name: &str,
    taken: &F,
) -> (name: String)
    requires
        forall|text: &str| taken.requires((text,)),
    ensures
        chosen_name(directory@, file_name@, name@, taken),
{
    let mut n: u32 = 0;
    loop
        invariant
            n <= MAX_ATTEMPTS,
            forall|text: &str| taken.requires((text,)),
            forall|k: nat|
                k < n ==> said(
                    taken,
                    join_of(directory@, #[trigger] tried_name(file_name@, k)),
                    true,
                ),
        decreases MAX_ATTEMPTS - n,
    {
        let name = name_to_try(file_name, n);
        let path = join(directory, &name);
        let occupied: bool = taken(&path);
        assert(said(taken, join_of(directory@, name@), occupied));
        assert(name@ == tried_name(file_name@, n as nat));
        if !occupied || n == MAX_ATTEMPTS {
            return name;
        }
        n += 1;
    }
}

/// A free path in the directory for a file with the given name. After a large
/// number of attempts the last one is taken.
pub fn unique_destination<F: Fn(&str) -> bool>(
    directory: &str,
    file_name: &str,
    taken: &F,
) -> (path: String)
    requires
        forall|text: &str| taken.requires((text,)),
    ensures
        exists|name: Seq<char>|
            path@ == join_of(directory@, name) && #[trigger] chosen_name(
                directory@,
                file_name@,
                name,
                taken,
            ),
{
    let name = unique_name(directory, file_name, taken);
    join(directory, &name)
}

/// The side file of an asset.
pub open spec fn sidecar_of(asset: Seq<char>) -> Seq<char> {
    asset + ".meta"@
}

/// The path of the side file of an asset.
pub fn sidecar_path(asset: &str) -> (path: String)
    ensures
        path@ == sidecar_of(asset@),
{
    join2(asset, ".meta")
}

/// One copy that an import asks for.
#[derive(Debug)]
pub struct CopyOrder {
    /// The file to copy.
    pub source: String,
    /// Where to.
    pub destination: String,
    /// The side file to copy too, if there is one.
    pub source_sidecar: String,
    /// Where to.
    pub destination_sidecar: String,
}

/// Whether the order is to copy `source` to `destination`, each with its side
/// file.
pub open spec fn orders(order: CopyOrder, source: Seq<char>, destination: Seq<char>) -> bool {
    &&& order.source@ == source
    &&& order.destination@ == destination
    &&& order.source_sidecar@ == sidecar_of(source)
    &&& order.destination_sidecar@ == sidecar_of(destination)
}

/// Whether the outcome is right for the file, given what the host may have
/// answered: to the making of the directory, to whether a name is taken, and to
/// the copy.
pub open spec fn import_done<
    M: Fn(&str) -> Result<(), String>,
    F: Fn(&str) -> bool,
    C: Fn(&CopyOrder) -> Result<(), String>,
>(
    directory: Seq<char>,
    source: Seq<char>,
    outcome: ImportOutcome,
    make_dir: &M,
    taken: &F,
    copy: &C,
) -> bool {
    if !importable(source) {
        outcome matches ImportOutcome::Unsupported { source: file } && file@ == source
    } else {
        match outcome {
            ImportOutcome::Unsupported { .. } => false,
            ImportOutcome::Failed { source: file, reason } => file@ == source && (no_directory(
                directory,
                reason@,
                make_dir,
            ) || (made(directory, make_dir) && not_copied(
                directory,
                source,
                reason,
                taken,
                copy,
            ))),
            ImportOutcome::Copied { destination, renamed } => {
                &&& made(directory, make_dir)
                &&& file_name_of(source) matches Some(name) && {
                    &&& chosen_name(directory, name, destination@, taken)
                    &&& renamed == (destination@ != name)
                    &&& exists|order: &CopyOrder, result: Result<(), String>| #[trigger]
                        copy.ensures((order,), result) && result is Ok && orders(
                            *order,
                            source,
                            join_of(directory, destination@),
                        )
                }
            },
        }
    }
}

/// Whether the directory was made, or was there.
pub open spec fn made<M: Fn(&str) -> Result<(), String>>(
    directory: Seq<char>,
    make_dir: &M,
) -> bool {
    exists|path: &str, outcome: Result<(), String>| #[trigger]
        make_dir.ensures((path,), outcome) && outcome is Ok && path@ == directory
}

/// Whether the directory could not be made, for the given reason.
pub open spec fn no_directory<M: Fn(&str) -> Result<(), String>>(
    directory: Seq<char>,
    reason: Seq<char>,
    make_dir: &M,
) -> bool {
    exists|path: &str, message: String|
        {
            &&& #[trigger] make_dir.ensures((path,), Err(message))
            &&& path@ == directory
            &&& reason == "could not create the assets directory: "@ + message@
        }
}

/// Whether the copy failed, for the given reason.
pub open spec fn not_copied<F: Fn(&str) -> bool, C: Fn(&CopyOrder) -> Result<(), String>>(
    directory: Seq<char>,
    source: Seq<char>,
    reason: String,
    taken: &F,
    copy: &C,
) -> bool {
    file_name_of(source) matches Some(name) && exists|order: &CopyOrder, chosen: Seq<char>|
        {
            &&& #[trigger] copy.ensures((order,), Err(reason))
            &&& #[trigger] chosen_name(directory, name, chosen, taken)
            &&& orders(*order, source, join_of(directory, chosen))
        }
}

/// Imports one file.
pub fn import_file<
    M: Fn(&str) -> Result<(), String>,
    F: Fn(&str) -> bool,
    C: Fn(&CopyOrder) -> Result<(), String>,
>(directory: &str, source: &str, make_dir: &M, taken: &F, copy: &C) -> (outcome: ImportOutcome)
    requires
        forall|path: &str| make_dir.requires((path,)),
        forall|path: &str| taken.requires((path,)),
        forall|order: &CopyOrder| copy.requires((order,)),
    ensures
        import_done(directory@, source@, outcome, make_dir, taken, copy),
{
    if !is_importable(source) {
        return ImportOutcome::Unsupported { source: source.to_owned() };
    }
    let outcome: Result<(), String> = make_dir(directory);
    assert(make_dir.ensures((directory,), outcome));
    match outcome {
        Ok(()) => {},
        Err(message) => {
            let reason = join2("could not create the assets directory: ", &message);
            assert(no_directory(directory@, reason@, make_dir));
            return ImportOutcome::Failed { source: source.to_owned(), reason };
        },
    }
    let name = match file_name(source) {
        Some(name) => name,
        None => {
            return ImportOutcome::Failed {
                source: source.to_owned(),
                reason: "path has no file name".to_owned(),
            };
        },
    };
    let chosen = unique_name(directory, &name, taken);
    let renamed: bool = !same(&chosen, &name);
    let destination = join(directory, &chosen);
    let order = CopyOrder {
        source: source.to_owned(),
        source_sidecar: sidecar_path(source),
        destination_sidecar: sidecar_path(&destination),
        destination,
    };
    match copy(&order) {
        Ok(()) => {
            assert(orders(order, source@, join_of(directory@, chosen@)));
            ImportOutcome::Copied { destination: chosen, renamed }
        },
        Err(reason) => {
            assert(not_copied(directory@, source@, reason, taken, copy)) by {
                assert(orders(order, source@, join_of(directory@, chosen@)));
                assert(chosen_name(directory@, name@, chosen@, taken));
            }
            ImportOutcome::Failed { source: source.to_owned(), reason }
        },
    }
}

/// Imports the files into the directory: one outcome for each, in their order. A
/// file that cannot be copied is reported, and the rest are imported all the same.
pub fn import_files<
    M: Fn(&str) -> Result<(), String>,
    F: Fn(&str) -> bool,
    C: Fn(&CopyOrder) -> Result<(), String>,
>(
    directory: &str,
    sources: &[String],
    make_dir: &M,
    taken: &F,
    copy: &C,
) -> (outcomes: Vec<ImportOutcome>)
    requires
        forall|path: &str| make_dir.requires((path,)),
        forall|path: &str| taken.requires((path,)),
        forall|order: &CopyOrder| copy.requires((order,)),
    ensures
        outcomes@.len() == sources@.len(),
        forall|i: int|
            #![trigger outcomes@[i]]
            0 <= i < outcomes@.len() ==> import_done(
                directory@,
                sources@[i]@,
                outcomes@[i],
                make_dir,
                taken,
                copy,
            ),
{
    let mut outcomes: Vec<ImportOutcome> = Vec::new();
    for i in 0..sources.len()
        invariant
            forall|path: &str| make_dir.requires((path,)),
            forall|path: &str| taken.requires((path,)),
            forall|order: &CopyOrder| copy.requires((order,)),
            outcomes@.len() == i,
            forall|j: int|
                #![trigger outcomes@[j]]
                0 <= j < i ==> import_done(
                    directory@,
                    sources@[j]@,
                    outcomes@[j],
                    make_dir,
                    taken,
                    copy,
                ),
    {
        outcomes.push(import_file(directory, &sources[i], make_dir, taken, copy));
    }
    outcomes
}

/// The names that are tried for a file: its own, and where that is taken the part before its
/// extension, an underscore, a number counted from one, and the extension.
pub proof fn law_tried_names_are_numbered(file_name: Seq<char>, n: nat)
    requires
        n > 0,
    ensures
        tried_name(file_name, 0) == file_name,
        ({
            let stem = if file_stem_of(file_name) is Some {
                file_stem_of(file_name)->0
            } else {
                "asset"@
            };
            &&& extension_of(file_name) is Some ==> tried_name(file_name, n) == (stem.push('_')
                + decimal_text(n)).push('.') + extension_of(file_name)->0
            &&& extension_of(file_name) is None ==> tried_name(file_name, n) == stem.push('_')
                + decimal_text(n)
        }),
{
    reveal_strlit("_");
    reveal_strlit(".");
    let stem = numbered_stem(file_name);
    assert(stem + "_"@ =~= stem.push('_'));
    let numbered = stem.push('_') + decimal_text(n);
    assert(numbered + "."@ =~= numbered.push('.'));
}

/// The name that a file gets is the first of the tried ones that is not taken; after nine
/// thousand nine hundred and ninety-nine numbers the last one is used in any case.
pub proof fn law_first_free_name_is_used<F: Fn(&str) -> bool>(
    directory: Seq<char>,
    file_name: Seq<char>,
    name: Seq<char>,
    taken: &F,
    go: spec_fn(Seq<char>) -> bool,
) -> (n: nat)
    requires
        chosen_name(directory, file_name, name, taken),
        forall|path: &str, answer: bool| #[trigger]
            taken.ensures((path,), answer) ==> answer == go(path@),
    ensures
        n <= 9_999,
        name == tried_name(file_name, n),
        forall|k: nat| k < n ==> go(join_of(directory, #[trigger] tried_name(file_name, k))),
        n < 9_999 ==> !go(join_of(directory, name)),
{
    let n = choose|n: nat|
        {
            &&& n <= MAX_ATTEMPTS
            &&& name == #[trigger] tried_name(file_name, n)
            &&& said(taken, join_of(directory, name), false) || (n == MAX_ATTEMPTS && said(
                taken,
                join_of(directory, name),
                true,
            ))
            &&& forall|k: nat|
                k < n ==> said(taken, join_of(directory, #[trigger] tried_name(file_name, k)), true)
        };
    n
}

/// What becomes of an imported file. One of a kind that cannot be imported is passed over.
/// Any other is copied into the directory under a free name, which is called another one
/// exactly if it is not the file's own; its side file goes with it under the same name.
pub proof fn law_imported_files_take_their_side_file<
    M: Fn(&str) -> Result<(), String>,
    F: Fn(&str) -> bool,
    C: Fn(&CopyOrder) -> Result<(), String>,
>(
    directory: Seq<char>,
    source: Seq<char>,
    outcome: ImportOutcome,
    make_dir: &M,
    taken: &F,
    copy: &C,
)
    requires
        import_done(directory, source, outcome, make_dir, taken, copy),
    ensures
        ({
            let kind = kind_of_path(source);
            let fits = kind is Mesh || kind is Texture || kind is Audio;
            outcome is Unsupported <==> !fits
        }),
        outcome matches ImportOutcome::Unsupported { source: file } ==> file@ == source,
        outcome matches ImportOutcome::Failed { source: file, reason } ==> file@ == source,
        outcome matches ImportOutcome::Copied { destination, renamed } ==> {
            &&& file_name_of(source) is Some
            &&& renamed <==> destination@ != file_name_of(source)->0
            &&& exists|order: &CopyOrder, result: Result<(), String>|
                {
                    let meta = seq!['.', 'm', 'e', 't', 'a'];
                    &&& #[trigger] copy.ensures((order,), result)
                    &&& result is Ok
                    &&& order.source@ == source
                    &&& order.destination@ == join_of(directory, destination@)
                    &&& order.source_sidecar@ == source + meta
                    &&& order.destination_sidecar@ == join_of(directory, destination@) + meta
                }
        },
{
    reveal_strlit(".meta");
    assert(".meta"@ =~= seq!['.', 'm', 'e', 't', 'a']);
    if let ImportOutcome::Copied { destination, renamed } = outcome {
        let (order, result) = choose|order: &CopyOrder, result: Result<(), String>| #[trigger]
            copy.ensures((order,), result) && result is Ok && orders(
                *order,
                source,
                join_of(directory, destination@),
            );
        assert(copy.ensures((order,), result));
    }
}

/// What is said of an imported file: where it went and whether it got another name, that it
/// was passed over, or why it could not be imported.
pub proof fn law_outcomes_say_what_became_of_the_file(outcome: ImportOutcome)
    ensures
        outcome matches ImportOutcome::Copied { destination, renamed } ==> (renamed
            ==> outcome.text() == "imported as "@ + destination@ + " (that name was taken)"@) && (
        !renamed ==> outcome.text() == "imported "@ + destination@),
        outcome matches ImportOutcome::Unsupported { source } ==> outcome.text() == "skipped "@
            + source@ + ": no importer for this file type"@,
        outcome matches ImportOutcome::Failed { source, reason } ==> outcome.text()
            == "could not import "@ + source@ + ": "@ + reason@,
{
}

/// Why a file could not be imported: the directory could not be made, or the file could not
/// be copied. Nothing is copied where there is no directory.
pub proof fn law_failed_imports_say_why<
    M: Fn(&str) -> Result<(), String>,
    F: Fn(&str) -> bool,
    C: Fn(&CopyOrder) -> Result<(), String>,
>(
    directory: Seq<char>,
    source: Seq<char>,
    outcome: ImportOutcome,
    make_dir: &M,
    taken: &F,
    copy: &C,
    made_there: spec_fn(Seq<char>) -> Result<(), String>,
)
    requires
        import_done(directory, source, outcome, make_dir, taken, copy),
        forall|path: &str, result: Result<(), String>| #[trigger]
            make_dir.ensures((path,), result) ==> result == made_there(path@),
        !(outcome is Unsupported),
    ensures
        made_there(directory) is Err ==> outcome is Failed && outcome->reason@
            == "could not create the assets directory: "@ + (made_there(directory)->Err_0)@,
        outcome is Copied ==> made_there(directory) is Ok,
        made_there(directory) is Ok && outcome is Failed ==> file_name_of(source) is Some
            && exists|order: &CopyOrder, name: Seq<char>|
            {
                &&& #[trigger] copy.ensures((order,), Err(outcome->reason))
                &&& #[trigger] chosen_name(directory, file_name_of(source)->0, name, taken)
                &&& order.source@ == source
                &&& order.destination@ == join_of(directory, name)
            },
{
}

} // verus!
