//! The import pass: decoding the assets that changed, and forgetting those that
//! are gone.

use std::collections::HashMap;
use vstd::prelude::*;

use crate::asset_id::AssetId;
use crate::editor::assets::{referable_file, AssetEntry, AssetIndex, AssetKind};
use crate::paths::{components_of, join, join_of};

verus! {

broadcast use vstd::std_specs::hash::group_hash_axioms;

/// What happened to one asset in a pass.
#[derive(Debug, PartialEq, Eq)]
pub enum ImportOutcome {
    /// It was decoded: it is new, or its file changed.
    Imported,
    /// Its file is as it was, and it is decoded already.
    Cached,
    /// It could not be read or decoded.
    Failed(String),
}

/// One asset of a pass.
#[derive(Debug, PartialEq, Eq)]
pub struct ImportRecord {
    /// Its stable identifier; none where its side file could not be read or
    /// written.
    pub id: Option<AssetId>,
    /// Its path relative to the assets directory.
    pub relative_path: String,
    /// Its kind.
    pub kind: AssetKind,
    /// What happened to it.
    pub outcome: ImportOutcome,
}

/// The counts of a pass.
#[derive(Debug, Clone, Copy, PartialEq, Eq, Structural)]
pub struct ImportStats {
    /// How many assets there were.
    pub total: usize,
    /// How many were decoded.
    pub imported: usize,
    /// How many were decoded already.
    pub cached: usize,
    /// How many failed.
    pub failed: usize,
}

impl Default for ImportStats {
    fn default() -> (stats: ImportStats)
        ensures
            stats == (ImportStats { total: 0, imported: 0, cached: 0, failed: 0 }),
    {
        ImportStats { total: 0, imported: 0, cached: 0, failed: 0 }
    }
}

/// Where a pass stands.
#[verifier::ext_equal]
pub ghost struct PassView<A> {
    /// The decoded assets, by the value of their identifiers.
    pub imported: Map<u128, A>,
    /// The identifiers met in the pass.
    pub seen: Set<u128>,
    /// The records so far.
    pub records: Seq<ImportRecord>,
    /// The identifiers of the entries so far.
    pub ids: Seq<Option<AssetId>>,
    /// The path of each identifier.
    pub paths: Map<AssetId, Seq<char>>,
    /// The identifier of each path.
    pub by_path: Map<Seq<Seq<char>>, AssetId>,
}

/// What the host had to say of one entry.
pub ghost enum Answer<A> {
    /// Nothing: entities cannot refer to it.
    Skipped,
    /// That its side file could not be read or written.
    Broken(String),
    /// Its identifier; it is decoded and has not changed.
    Held {
        /// The identifier.
        id: AssetId,
    },
    /// Its identifier and what it was decoded to.
    Taken {
        /// The identifier.
        id: AssetId,
        /// Whether its file changed.
        changed: bool,
        /// What it was decoded to.
        asset: A,
    },
    /// Its identifier and why it could not be decoded.
    Refused {
        /// The identifier.
        id: AssetId,
        /// Whether its file changed.
        changed: bool,
        /// Why it could not be decoded.
        message: String,
    },
}

impl<A> PassView<A> {
    /// The pass after an entry with the identifier was met.
    pub open spec fn met(self, entry: AssetEntry, id: AssetId, outcome: ImportOutcome) -> PassView<
        A,
    > {
        PassView {
            imported: self.imported,
            seen: self.seen.insert(id.value),
            records: self.records.push(
                ImportRecord {
                    id: Some(id),
                    relative_path: entry.relative_path,
                    kind: entry.kind,
                    outcome,
                },
            ),
            ids: self.ids.push(Some(id)),
            paths: self.paths.insert(id, entry.relative_path@),
            by_path: self.by_path.insert(components_of(entry.relative_path@), id),
        }
    }

    /// The pass after one more entry. What could not be decoded is not held any
    /// longer.
    pub open spec fn stepped(self, entry: AssetEntry, answer: Answer<A>) -> PassView<A> {
        match answer {
            Answer::Skipped => PassView { ids: self.ids.push(entry.id), ..self },
            Answer::Broken(message) => PassView {
                records: self.records.push(
                    ImportRecord {
                        id: None,
                        relative_path: entry.relative_path,
                        kind: entry.kind,
                        outcome: ImportOutcome::Failed(message),
                    },
                ),
                ids: self.ids.push(entry.id),
                ..self
            },
            Answer::Held { id } => self.met(entry, id, ImportOutcome::Cached),
            Answer::Taken { id, changed, asset } => PassView {
                imported: self.imported.insert(id.value, asset),
                ..self.met(entry, id, ImportOutcome::Imported)
            },
            Answer::Refused { id, changed, message } => PassView {
                imported: self.imported.remove(id.value),
                ..self.met(entry, id, ImportOutcome::Failed(message))
            },
        }
    }
}

/// Whether the host may answer `result` when asked for the identifier of the file.
pub open spec fn ensured<E: Fn(&str) -> Result<(AssetId, bool), String>>(
    ensure: &E,
    path: Seq<char>,
    result: Result<(AssetId, bool), String>,
) -> bool {
    exists|text: &str| #[trigger] ensure.ensures((text,), result) && text@ == path
}

/// Whether the host may answer `result` when asked to decode the file.
pub open spec fn decoded<A, I: Fn(AssetKind, &str) -> Result<A, String>>(
    import: &I,
    kind: AssetKind,
    path: Seq<char>,
    result: Result<A, String>,
) -> bool {
    exists|text: &str| #[trigger] import.ensures((kind, text), result) && text@ == path
}

/// Whether the answer is one that the host may give for the entry. It is asked to
/// decode only what changed or is not held.
pub open spec fn answered<
    A,
    E: Fn(&str) -> Result<(AssetId, bool), String>,
    I: Fn(AssetKind, &str) -> Result<A, String>,
>(
    pass: PassView<A>,
    root: Seq<char>,
    entry: AssetEntry,
    answer: Answer<A>,
    ensure: &E,
    import: &I,
) -> bool {
    let path = join_of(root, entry.relative_path@);
    match answer {
        Answer::Skipped => !entry.kind.referenceable(),
        Answer::Broken(message) => entry.kind.referenceable() && ensured(
            ensure,
            path,
            Err(message),
        ),
        Answer::Held { id } => {
            &&& entry.kind.referenceable()
            &&& ensured(ensure, path, Ok((id, false)))
            &&& pass.imported.contains_key(id.value)
        },
        Answer::Taken { id, changed, asset } => {
            &&& entry.kind.referenceable()
            &&& ensured(ensure, path, Ok((id, changed)))
            &&& changed || !pass.imported.contains_key(id.value)
            &&& decoded(import, entry.kind, path, Ok(asset))
        },
        Answer::Refused { id, changed, message } => {
            &&& entry.kind.referenceable()
            &&& ensured(ensure, path, Ok((id, changed)))
            &&& changed || !pass.imported.contains_key(id.value)
            &&& decoded::<A, I>(import, entry.kind, path, Err(message))
        },
    }
}

/// A pass before its first entry.
pub open spec fn pass_begun<A>(imported: Map<u128, A>) -> PassView<A> {
    PassView {
        imported,
        seen: Set::empty(),
        records: Seq::empty(),
        ids: Seq::empty(),
        paths: Map::empty(),
        by_path: Map::empty(),
    }
}

/// The pass after the first `n` entries.
pub open spec fn passed<A>(
    imported: Map<u128, A>,
    entries: Seq<AssetEntry>,
    answers: Seq<Answer<A>>,
    n: nat,
) -> PassView<A>
    decreases n,
{
    if n == 0 {
        pass_begun(imported)
    } else {
        passed(imported, entries, answers, (n - 1) as nat).stepped(entries[n - 1], answers[n - 1])
    }
}

/// Whether the first `n` answers are ones that the host may give.
pub open spec fn all_answered<
    A,
    E: Fn(&str) -> Result<(AssetId, bool), String>,
    I: Fn(AssetKind, &str) -> Result<A, String>,
>(
    imported: Map<u128, A>,
    root: Seq<char>,
    entries: Seq<AssetEntry>,
    answers: Seq<Answer<A>>,
    n: nat,
    ensure: &E,
    import: &I,
) -> bool {
    &&& answers.len() >= n
    &&& forall|i: int|
        #![trigger answers[i]]
        0 <= i < n ==> answered(
            passed(imported, entries, answers, i as nat),
            root,
            entries[i],
            answers[i],
            ensure,
            import,
        )
}

proof fn lemma_passed_depends_on_a_prefix<A>(
    imported: Map<u128, A>,
    entries: Seq<AssetEntry>,
    a: Seq<Answer<A>>,
    b: Seq<Answer<A>>,
    n: nat,
)
    requires
        n <= a.len(),
        n <= b.len(),
        forall|i: int| #![trigger a[i]] 0 <= i < n ==> a[i] == b[i],
    ensures
        passed(imported, entries, a, n) == passed(imported, entries, b, n),
    decreases n,
{
    if n > 0 {
        lemma_passed_depends_on_a_prefix(imported, entries, a, b, (n - 1) as nat);
        assert(a[n - 1] == b[n - 1]);
    }
}

/// The decoded assets, and what happened in the last pass.
pub struct AssetImporter<A> {
    imported: HashMap<u128, A>,
    records: Vec<ImportRecord>,
    pass_id: u64,
}

impl<A> Default for AssetImporter<A> {
    fn default() -> (importer: AssetImporter<A>)
        ensures
            importer.held() == Map::<u128, A>::empty(),
            importer.log().len() == 0,
            importer.passes() == 0,
    {
        AssetImporter::new()
    }
}

impl<A> AssetImporter<A> {
    /// The decoded assets, by the value of their identifiers.
    pub closed spec fn held(&self) -> Map<u128, A> {
        self.imported@
    }

    /// The records of the last pass.
    pub closed spec fn log(&self) -> Seq<ImportRecord> {
        self.records@
    }

    /// The number of passes so far.
    pub closed spec fn passes(&self) -> u64 {
        self.pass_id
    }

    /// An importer that has decoded nothing yet.
    pub fn new() -> (importer: AssetImporter<A>)
        ensures
            importer.held() == Map::<u128, A>::empty(),
            importer.log().len() == 0,
            importer.passes() == 0,
    {
        AssetImporter { imported: HashMap::new(), records: Vec::new(), pass_id: 0 }
    }

    /// Runs a pass over the entries: every asset that entities can refer to gets
    /// its identifier, is decoded if its file changed or it is not held yet, and is
    /// recorded. What is not met in the pass is forgotten. `ensure` gives a file's
    /// identifier and whether the file changed; `import` decodes one. Neither is asked
    /// for a file that entities cannot refer to.
    ///
    /// A failure concerns one asset only.
    pub fn run<
        E: Fn(&str) -> Result<(AssetId, bool), String>,
        I: Fn(AssetKind, &str) -> Result<A, String>,
    >(&mut self, root: &str, entries: &mut Vec<AssetEntry>, ensure: &E, import: &I) -> (index:
        AssetIndex)
        requires
            forall|path: &str|
                referable_file(root@, old(entries)@, path@) ==> #[trigger] ensure.requires((path,)),
            forall|kind: AssetKind, path: &str|
                referable_file(root@, old(entries)@, path@) ==> #[trigger] import.requires(
                    (kind, path),
                ),
        ensures
            exists|answers: Seq<Answer<A>>|
                {
                    let n = old(entries)@.len();
                    let pass = passed(old(self).held(), old(entries)@, answers, n);
                    &&& #[trigger] all_answered(
                        old(self).held(),
                        root@,
                        old(entries)@,
                        answers,
                        old(entries)@.len(),
                        ensure,
                        import,
                    )
                    &&& final(self).held() == pass.imported.restrict(pass.seen)
                    &&& final(self).log() == pass.records
                    &&& index.paths() == pass.paths
                    &&& index.ids() == pass.by_path
                    &&& final(entries)@.len() == n
                    &&& forall|i: int|
                        #![trigger final(entries)@[i]]
                        0 <= i < n ==> final(entries)@[i] == (AssetEntry {
                            id: pass.ids[i],
                            ..old(entries)@[i]
                        })
                },
            forall|value: u128| #[trigger]
                final(self).held().contains_key(value) <==> kept_by(final(self).log(), value),
            distinct_paths(old(entries)@, old(entries)@.len()) ==> indexed(
                final(self).log(),
                index.ids(),
            ),
            paths_of_records(final(self).log()) == paths_of_entries(referable(old(entries)@)),
            forall|k: int|
                #![trigger final(self).log()[k]]
                0 <= k < final(self).log().len() ==> is_entered(
                    final(self).log()[k],
                    final(entries)@,
                ),
            forall|i: int|
                #![trigger final(entries)@[i]]
                0 <= i < old(entries)@.len() && !old(entries)@[i].kind.referenceable()
                    ==> final(entries)@[i] == old(entries)@[i],
            final(self).passes() == (if old(self).passes() == u64::MAX {
                0
            } else {
                (old(self).passes() + 1) as u64
            }),
    {
        let ghost before = self.held();
        let ghost given = entries@;
        let ghost mut answers: Seq<Answer<A>> = Seq::empty();
        let mut index = AssetIndex::new();
        self.records.clear();
        self.pass_id = self.pass_id.wrapping_add(1);
        let ghost pass_id = self.pass_id;
        let mut seen: Vec<u128> = Vec::new();
        let count: usize = entries.len();
        assert(seen@.to_set() =~= Set::<u128>::empty());
        for i in 0..count
            invariant
                forall|path: &str|
                    referable_file(root@, given, path@) ==> #[trigger] ensure.requires((path,)),
                forall|kind: AssetKind, path: &str|
                    referable_file(root@, given, path@) ==> #[trigger] import.requires(
                        (kind, path),
                    ),
                self.pass_id == pass_id,
                count == given.len(),
                entries@.len() == count,
                answers.len() == i,
                all_answered(before, root@, given, answers, i as nat, ensure, import),
                ({
                    let pass = passed(before, given, answers, i as nat);
                    &&& self.imported@ == pass.imported
                    &&& self.records@ == pass.records
                    &&& seen@.to_set() == pass.seen
                    &&& index.paths() == pass.paths
                    &&& index.ids() == pass.by_path
                    &&& pass.ids.len() == i
                    &&& forall|j: int|
                        #![trigger entries@[j]]
                        0 <= j < i ==> entries@[j] == (AssetEntry { id: pass.ids[j], ..given[j] })
                }),
                forall|j: int| #![trigger entries@[j]] i <= j < count ==> entries@[j] == given[j],
        {
            let ghost pass = passed(before, given, answers, i as nat);
            let ghost earlier = answers;
            let ghost entry = given[i as int];
            let ghost mut answer: Answer<A> = Answer::Skipped;
            let kind = entries[i].kind;
            if kind.is_referenceable() {
                let relative = entries[i].relative_path.clone();
                let absolute = join(root, &relative);
                assert(referable_file(root@, given, absolute@)) by {
                    assert(given[i as int].kind.referenceable());
                }
                match ensure(&absolute) {
                    Err(message) => {
                        proof {
                            answer = Answer::Broken(message);
                            assert(ensured(ensure, absolute@, Err(message)));
                        }
                        self.records.push(
                            ImportRecord {
                                id: None,
                                relative_path: relative,
                                kind,
                                outcome: ImportOutcome::Failed(message),
                            },
                        );
                    },
                    Ok((id, changed)) => {
                        assert(ensured(ensure, absolute@, Ok((id, changed))));
                        index.insert(id, &relative);
                        let ghost met = seen@;
                        seen.push(id.value);
                        proof {
                            assert(seen@.to_set() =~= met.to_set().insert(id.value)) by {
                                assert(seen@[met.len() as int] == id.value);
                                assert forall|v: u128| met.contains(v) implies seen@.contains(v) by {
                                    let at = met.index_of(v);
                                    assert(seen@[at] == v);
                                }
                            }
                        }
                        let held: bool = self.imported.contains_key(&id.value);
                        let outcome: ImportOutcome = if changed || !held {
                            match import(kind, &absolute) {
                                Ok(asset) => {
                                    proof {
                                        answer = Answer::Taken { id, changed, asset };
                                        assert(decoded(import, kind, absolute@, Ok(asset)));
                                    }
                                    self.imported.insert(id.value, asset);
                                    ImportOutcome::Imported
                                },
                                Err(message) => {
                                    proof {
                                        answer = Answer::Refused { id, changed, message };
                                        assert(decoded::<A, I>(
                                            import,
                                            kind,
                                            absolute@,
                                            Err(message),
                                        ));
                                    }
                                    self.imported.remove(&id.value);
                                    ImportOutcome::Failed(message)
                                },
                            }
                        } else {
                            proof {
                                answer = Answer::Held { id };
                            }
                            ImportOutcome::Cached
                        };
                        entries[i] = AssetEntry {
                            relative_path: relative.clone(),
                            kind,
                            id: Some(id),
                        };
                        self.records.push(
                            ImportRecord { id: Some(id), relative_path: relative, kind, outcome },
                        );
                    },
                }
            }
            proof {
                answers = earlier.push(answer);
                assert forall|j: int| #![trigger answers[j]] 0 <= j < i + 1 implies answered(
                    passed(before, given, answers, j as nat),
                    root@,
                    given[j],
                    answers[j],
                    ensure,
                    import,
                ) by {
                    lemma_passed_depends_on_a_prefix(before, given, answers, earlier, j as nat);
                    if j < i {
                        assert(answers[j] == earlier[j]);
                    }
                }
                lemma_passed_depends_on_a_prefix(before, given, answers, earlier, i as nat);
                assert(passed(before, given, answers, (i + 1) as nat) == pass.stepped(
                    entry,
                    answer,
                ));
            }
        }
        let ghost pass = passed(before, given, answers, count as nat);
        let mut fresh: HashMap<u128, A> = HashMap::new();
        for i in 0..seen.len()
            invariant
                seen@.to_set() == pass.seen,
                fresh@ == pass.imported.restrict(seen@.take(i as int).to_set()),
                self.imported@ == pass.imported.remove_keys(seen@.take(i as int).to_set()),
                self.records@ == pass.records,
                self.pass_id == pass_id,
        {
            let value: u128 = seen[i];
            let ghost done = seen@.take(i as int);
            proof {
                assert(seen@.take(i + 1) =~= done.push(value));
                assert(done.push(value).to_set() =~= done.to_set().insert(value)) by {
                    assert(done.push(value)[done.len() as int] == value);
                    assert forall|v: u128| done.contains(v) implies done.push(value).contains(v) by {
                        let at = done.index_of(v);
                        assert(done.push(value)[at] == v);
                    }
                }
            }
            match self.imported.remove(&value) {
                Some(asset) => {
                    fresh.insert(value, asset);
                },
                None => {},
            }
            assert(fresh@ =~= pass.imported.restrict(done.to_set().insert(value)));
            assert(self.imported@ =~= pass.imported.remove_keys(done.to_set().insert(value)));
        }
        assert(seen@.take(seen@.len() as int) =~= seen@);
        self.imported = fresh;
        proof {
            assert forall|value: u128| #[trigger]
                self.held().contains_key(value) <==> kept_by(self.log(), value) by {
                law_held_is_what_the_records_keep(
                    before,
                    root@,
                    given,
                    answers,
                    count as nat,
                    ensure,
                    import,
                    value,
                );
            }
            if distinct_paths(given, given.len()) {
                law_recorded_assets_are_indexed(before, given, answers, count as nat);
            }
            law_pass_records_each_asset_once(before, given, answers, count as nat);
            assert(given.take(count as int) =~= given);
            assert forall|k: int|
                #![trigger self.log()[k]]
                0 <= k < self.log().len() implies is_entered(self.log()[k], entries@) by {
                lemma_records_come_from_entries(before, given, answers, count as nat, k);
                let j = choose|j: int|
                    #![trigger given[j]]
                    0 <= j < count && is_entry_of(pass.records[k], given[j], pass.ids[j]);
                assert(entries@[j] == (AssetEntry { id: pass.ids[j], ..given[j] }));
            }
            assert forall|i: int|
                #![trigger entries@[i]]
                0 <= i < count && !given[i].kind.referenceable() implies entries@[i] == given[i] by {
                assert(answers[i] is Skipped);
                lemma_skipped_entries_stay(before, given, answers, count as nat, i);
            }
        }
        index
    }

    /// What the asset was decoded to, if a pass has decoded it and it did not fail
    /// since.
    pub fn get(&self, id: AssetId) -> (asset: Option<&A>)
        ensures
            match asset {
                Some(asset) => self.held().contains_key(id.value) && *asset
                    == self.held()[id.value],
                None => !self.held().contains_key(id.value),
            },
    {
        self.imported.get(&id.value)
    }

    /// The records of the last pass.
    pub fn records(&self) -> (records: &Vec<ImportRecord>)
        ensures
            records@ == self.log(),
    {
        &self.records
    }

    /// How many assets are held.
    pub fn imported_count(&self) -> (count: usize)
        ensures
            count == self.held().dom().len(),
    {
        self.imported.len()
    }

    /// The number of the last pass.
    pub fn pass_id(&self) -> (id: u64)
        ensures
            id == self.passes(),
    {
        self.pass_id
    }

    /// The counts of the last pass.
    pub fn stats(&self) -> (stats: ImportStats)
        ensures
            stats.total == self.log().len(),
            stats.imported == outcomes_like(self.log(), ImportOutcome::Imported),
            stats.cached == outcomes_like(self.log(), ImportOutcome::Cached),
            stats.failed == failures(self.log()),
            stats.total == stats.imported + stats.cached + stats.failed,
    {
        let mut stats = ImportStats { total: self.records.len(), imported: 0, cached: 0, failed: 0 };
        let count: usize = self.records.len();
        assert(count == self.records@.len());
        for i in 0..count
            invariant
                count == self.records@.len(),
                stats.total == count,
                stats.imported == outcomes_like(
                    self.log().take(i as int),
                    ImportOutcome::Imported,
                ),
                stats.cached == outcomes_like(self.log().take(i as int), ImportOutcome::Cached),
                stats.failed == failures(self.log().take(i as int)),
                stats.imported + stats.cached + stats.failed == i,
        {
            proof {
                assert(self.log().take(i + 1).drop_last() =~= self.log().take(i as int));
                assert(self.log().take(i + 1).last() == self.records@[i as int]);
            }
            match &self.records[i].outcome {
                ImportOutcome::Imported => {
                    stats.imported += 1;
                },
                ImportOutcome::Cached => {
                    stats.cached += 1;
                },
                ImportOutcome::Failed(_) => {
                    stats.failed += 1;
                },
            }
        }
        assert(self.log().take(count as int) =~= self.log());
        stats
    }
}

/// How many records have the outcome.
pub open spec fn outcomes_like(records: Seq<ImportRecord>, outcome: ImportOutcome) -> nat
    decreases records.len(),
{
    if records.len() == 0 {
        0
    } else {
        outcomes_like(records.drop_last(), outcome) + (if records.last().outcome == outcome {
            1nat
        } else {
            0nat
        })
    }
}

/// How many records are failures.
pub open spec fn failures(records: Seq<ImportRecord>) -> nat
    decreases records.len(),
{
    if records.len() == 0 {
        0
    } else {
        failures(records.drop_last()) + (if records.last().outcome is Failed {
            1nat
        } else {
            0nat
        })
    }
}

/// The entries that entities can refer to.
pub open spec fn referable(entries: Seq<AssetEntry>) -> Seq<AssetEntry> {
    entries.filter(|entry: AssetEntry| entry.kind.referenceable())
}

/// The paths of the entries.
pub open spec fn paths_of_entries(entries: Seq<AssetEntry>) -> Seq<String> {
    entries.map_values(|entry: AssetEntry| entry.relative_path)
}

/// The paths of the records.
pub open spec fn paths_of_records(records: Seq<ImportRecord>) -> Seq<String> {
    records.map_values(|record: ImportRecord| record.relative_path)
}

/// Whether the record is of the entry, which has the identifier after the pass.
pub open spec fn is_entry_of(
    record: ImportRecord,
    entry: AssetEntry,
    id: Option<AssetId>,
) -> bool {
    &&& entry.relative_path == record.relative_path
    &&& entry.kind == record.kind
    &&& record.id is Some ==> id == record.id
}

/// Whether one of the entries is that of the record and has its identifier.
pub open spec fn is_entered(record: ImportRecord, entries: Seq<AssetEntry>) -> bool {
    exists|j: int|
        #![trigger entries[j]]
        0 <= j < entries.len() && is_entry_of(record, entries[j], entries[j].id)
}

/// Whether there is a record of the identifier, and the last one is no failure.
pub open spec fn kept_by(records: Seq<ImportRecord>, value: u128) -> bool
    decreases records.len(),
{
    &&& records.len() > 0
    &&& match records.last().id {
        Some(id) if id.value == value => records.last().outcome !is Failed,
        _ => kept_by(records.drop_last(), value),
    }
}

/// Whether there is a record of the identifier.
pub open spec fn recorded(records: Seq<ImportRecord>, value: u128) -> bool {
    exists|k: int|
        #![trigger records[k]]
        0 <= k < records.len() && records[k].id is Some && records[k].id->0.value == value
}

/// Whether no two of the first `n` entries have the same path.
pub open spec fn distinct_paths(entries: Seq<AssetEntry>, n: nat) -> bool {
    forall|i: int, j: int|
        #![trigger entries[i], entries[j]]
        0 <= i < j < n ==> components_of(entries[i].relative_path@) != components_of(
            entries[j].relative_path@,
        )
}

/// Whether the path of each record with an identifier is filed under it.
pub open spec fn indexed(
    records: Seq<ImportRecord>,
    by_path: Map<Seq<Seq<char>>, AssetId>,
) -> bool {
    forall|k: int|
        #![trigger records[k]]
        0 <= k < records.len() && records[k].id is Some ==> {
            let path = components_of(records[k].relative_path@);
            by_path.contains_key(path) && Some(by_path[path]) == records[k].id
        }
}

/// After a pass an asset is held exactly if the last record of its identifier is no
/// failure, whatever was held before: one without a record is forgotten, and so is one
/// that could not be decoded again.
pub proof fn law_held_is_what_the_records_keep<
    A,
    E: Fn(&str) -> Result<(AssetId, bool), String>,
    I: Fn(AssetKind, &str) -> Result<A, String>,
>(
    imported: Map<u128, A>,
    root: Seq<char>,
    entries: Seq<AssetEntry>,
    answers: Seq<Answer<A>>,
    n: nat,
    ensure: &E,
    import: &I,
    value: u128,
)
    requires
        all_answered(imported, root, entries, answers, n, ensure, import),
    ensures
        ({
            let pass = passed(imported, entries, answers, n);
            &&& pass.seen.contains(value) <==> recorded(pass.records, value)
            &&& pass.imported.restrict(pass.seen).contains_key(value) <==> kept_by(
                pass.records,
                value,
            )
            &&& kept_by(pass.records, value) ==> recorded(pass.records, value)
        }),
    decreases n,
{
    if n > 0 {
        let m = (n - 1) as nat;
        law_held_is_what_the_records_keep(
            imported,
            root,
            entries,
            answers,
            m,
            ensure,
            import,
            value,
        );
        let earlier = passed(imported, entries, answers, m);
        let pass = passed(imported, entries, answers, n);
        assert(answered(earlier, root, entries[m as int], answers[m as int], ensure, import));
        if answers[m as int] !is Skipped {
            assert(pass.records.drop_last() =~= earlier.records);
            let last = pass.records.last();
            assert(pass.records[earlier.records.len() as int] == last);
            if recorded(earlier.records, value) {
                let k = choose|k: int|
                    #![trigger earlier.records[k]]
                    0 <= k < earlier.records.len() && earlier.records[k].id is Some
                        && earlier.records[k].id->0.value == value;
                assert(pass.records[k] == earlier.records[k]);
            }
            if recorded(pass.records, value) && !(last.id is Some && last.id->0.value == value) {
                let k = choose|k: int|
                    #![trigger pass.records[k]]
                    0 <= k < pass.records.len() && pass.records[k].id is Some
                        && pass.records[k].id->0.value == value;
                assert(earlier.records[k] == pass.records[k]);
            }
        }
    }
}

/// Where no two entries have the same path, the index gives back, for the path of each
/// record with an identifier, that identifier.
pub proof fn law_recorded_assets_are_indexed<A>(
    imported: Map<u128, A>,
    entries: Seq<AssetEntry>,
    answers: Seq<Answer<A>>,
    n: nat,
)
    requires
        distinct_paths(entries, n),
    ensures
        ({
            let pass = passed(imported, entries, answers, n);
            indexed(pass.records, pass.by_path)
        }),
    decreases n,
{
    if n > 0 {
        let m = (n - 1) as nat;
        law_recorded_assets_are_indexed(imported, entries, answers, m);
        let earlier = passed(imported, entries, answers, m);
        let pass = passed(imported, entries, answers, n);
        assert forall|k: int|
            #![trigger pass.records[k]]
            0 <= k < pass.records.len() && pass.records[k].id is Some implies ({
            let path = components_of(pass.records[k].relative_path@);
            pass.by_path.contains_key(path) && Some(pass.by_path[path]) == pass.records[k].id
        }) by {
            if k < earlier.records.len() {
                assert(pass.records[k] == earlier.records[k]);
                lemma_records_come_from_entries(imported, entries, answers, m, k);
                let j = choose|j: int|
                    #![trigger entries[j]]
                    0 <= j < m && is_entry_of(earlier.records[k], entries[j], earlier.ids[j]);
                assert(components_of(entries[j].relative_path@) != components_of(
                    entries[m as int].relative_path@,
                ));
            }
        }
    }
}

proof fn lemma_records_come_from_entries<A>(
    imported: Map<u128, A>,
    entries: Seq<AssetEntry>,
    answers: Seq<Answer<A>>,
    n: nat,
    k: int,
)
    requires
        0 <= k < passed(imported, entries, answers, n).records.len(),
    ensures
        ({
            let pass = passed(imported, entries, answers, n);
            exists|j: int|
                #![trigger entries[j]]
                0 <= j < n && is_entry_of(pass.records[k], entries[j], pass.ids[j])
        }),
        passed(imported, entries, answers, n).ids.len() == n,
    decreases n,
{
    let pass = passed(imported, entries, answers, n);
    lemma_each_entry_has_its_place(imported, entries, answers, n);
    if n > 0 {
        let m = (n - 1) as nat;
        let earlier = passed(imported, entries, answers, m);
        lemma_each_entry_has_its_place(imported, entries, answers, m);
        if k < earlier.records.len() {
            lemma_records_come_from_entries(imported, entries, answers, m, k);
            let j = choose|j: int|
                #![trigger entries[j]]
                0 <= j < m && is_entry_of(earlier.records[k], entries[j], earlier.ids[j]);
            assert(is_entry_of(pass.records[k], entries[j], pass.ids[j]));
        } else {
            assert(is_entry_of(pass.records[k], entries[m as int], pass.ids[m as int]));
        }
    }
}

proof fn lemma_each_entry_has_its_place<A>(
    imported: Map<u128, A>,
    entries: Seq<AssetEntry>,
    answers: Seq<Answer<A>>,
    n: nat,
)
    ensures
        passed(imported, entries, answers, n).ids.len() == n,
    decreases n,
{
    if n > 0 {
        lemma_each_entry_has_its_place(imported, entries, answers, (n - 1) as nat);
    }
}

proof fn lemma_skipped_entries_stay<A>(
    imported: Map<u128, A>,
    entries: Seq<AssetEntry>,
    answers: Seq<Answer<A>>,
    n: nat,
    i: int,
)
    requires
        0 <= i < n,
        answers[i] is Skipped,
    ensures
        passed(imported, entries, answers, n).ids[i] == entries[i].id,
    decreases n,
{
    lemma_each_entry_has_its_place(imported, entries, answers, (n - 1) as nat);
    if i < n - 1 {
        lemma_skipped_entries_stay(imported, entries, answers, (n - 1) as nat, i);
    }
}

/// What the records keep is recorded: of an identifier without a record nothing is held.
pub proof fn law_kept_assets_are_recorded(records: Seq<ImportRecord>, value: u128)
    ensures
        kept_by(records, value) ==> recorded(records, value),
    decreases records.len(),
{
    if kept_by(records, value) {
        let last = records.last();
        if !(last.id is Some && last.id->0.value == value) {
            law_kept_assets_are_recorded(records.drop_last(), value);
            let k = choose|k: int|
                #![trigger records.drop_last()[k]]
                0 <= k < records.drop_last().len() && records.drop_last()[k].id is Some
                    && records.drop_last()[k].id->0.value == value;
            assert(records[k] == records.drop_last()[k]);
        }
    }
}

/// An asset that was decoded, or was held unchanged, is kept, and one that failed is not,
/// unless another record of the same identifier follows.
pub proof fn law_last_record_decides(records: Seq<ImportRecord>, k: int)
    requires
        0 <= k < records.len(),
        records[k].id is Some,
        forall|m: int| #![trigger records[m]] k < m < records.len() ==> records[m].id != records[k].id,
    ensures
        kept_by(records, records[k].id->0.value) <==> records[k].outcome !is Failed,
    decreases records.len(),
{
    if k < records.len() - 1 {
        let earlier = records.drop_last();
        assert(records[records.len() - 1].id != records[k].id);
        assert forall|m: int| #![trigger earlier[m]] k < m < earlier.len() implies earlier[m].id
            != earlier[k].id by {
            assert(earlier[m] == records[m]);
        }
        law_last_record_decides(earlier, k);
    }
}

/// What is held after a step is what was decoded: an asset that was decoded or was
/// held unchanged is held, one that could not be decoded is not, and no other asset
/// is touched.
pub proof fn law_step_holds_what_was_decoded<A>(
    pass: PassView<A>,
    entry: AssetEntry,
    answer: Answer<A>,
    other: u128,
)
    ensures
        match answer {
            Answer::Skipped => pass.stepped(entry, answer).imported == pass.imported,
            Answer::Broken(_) => pass.stepped(entry, answer).imported == pass.imported,
            Answer::Held { id } => pass.stepped(entry, answer).imported == pass.imported,
            Answer::Taken { id, changed, asset } => {
                let after = pass.stepped(entry, answer).imported;
                &&& after.contains_key(id.value) && after[id.value] == asset
                &&& other != id.value ==> {
                    &&& after.contains_key(other) == pass.imported.contains_key(other)
                    &&& after.contains_key(other) ==> after[other] == pass.imported[other]
                }
            },
            Answer::Refused { id, changed, message } => {
                let after = pass.stepped(entry, answer).imported;
                &&& !after.contains_key(id.value)
                &&& other != id.value ==> {
                    &&& after.contains_key(other) == pass.imported.contains_key(other)
                    &&& after.contains_key(other) ==> after[other] == pass.imported[other]
                }
            },
        },
{
}

/// A pass records each entry that entities can refer to, once and in order, and no
/// other.
pub proof fn law_pass_records_each_asset_once<A>(
    imported: Map<u128, A>,
    entries: Seq<AssetEntry>,
    answers: Seq<Answer<A>>,
    n: nat,
)
    requires
        n <= entries.len(),
        n <= answers.len(),
        forall|i: int|
            #![trigger answers[i]]
            0 <= i < n ==> (answers[i] is Skipped <==> !entries[i].kind.referenceable()),
    ensures
        paths_of_records(passed(imported, entries, answers, n).records) == paths_of_entries(
            referable(entries.take(n as int)),
        ),
    decreases n,
{
    let keep = |entry: AssetEntry| entry.kind.referenceable();
    let path = |entry: AssetEntry| entry.relative_path;
    let recorded = |record: ImportRecord| record.relative_path;
    reveal(Seq::filter);
    if n > 0 {
        law_pass_records_each_asset_once(imported, entries, answers, (n - 1) as nat);
        assert(entries.take(n as int).drop_last() =~= entries.take(n - 1));
        assert(answers[n - 1] is Skipped <==> !entries[n - 1].kind.referenceable());
        let earlier = passed(imported, entries, answers, (n - 1) as nat).records;
        let all = passed(imported, entries, answers, n).records;
        let kept = entries.take(n - 1).filter(keep);
        if entries[n - 1].kind.referenceable() {
            assert(all.map_values(recorded) =~= earlier.map_values(recorded).push(
                entries[n - 1].relative_path,
            ));
            assert(kept.push(entries[n - 1]).map_values(path) =~= kept.map_values(path).push(
                entries[n - 1].relative_path,
            ));
        }
    }
    assert(passed(imported, entries, answers, n).records.map_values(recorded) =~= entries.take(
        n as int,
    ).filter(keep).map_values(path));
}

/// What a pass notes of an entry: nothing of one that cannot be imported; of any other a
/// record with its path and kind, which says whether it was decoded, was decoded already, or
/// failed and why. What has an id is known by it, and found by its path.
pub proof fn law_pass_notes_every_answer<A>(
    pass: PassView<A>,
    entry: AssetEntry,
    answer: Answer<A>,
)
    ensures
        ({
            let now = pass.stepped(entry, answer);
            let note = now.records[now.records.len() - 1];
            let id = match answer {
                Answer::Held { id } => Some(id),
                Answer::Taken { id, .. } => Some(id),
                Answer::Refused { id, .. } => Some(id),
                _ => None,
            };
            &&& answer is Skipped ==> now.records == pass.records && now.seen == pass.seen
                && now.paths == pass.paths && now.by_path == pass.by_path
            &&& answer is Skipped || answer is Broken ==> now.ids == pass.ids.push(entry.id)
            &&& !(answer is Skipped) ==> now.records == pass.records.push(note)
                && note.relative_path == entry.relative_path && note.kind == entry.kind
                && note.id == id
            &&& answer is Held ==> note.outcome is Cached
            &&& answer is Taken ==> note.outcome is Imported
            &&& answer matches Answer::Refused { message, .. } ==> note.outcome
                == ImportOutcome::Failed(message)
            &&& answer matches Answer::Broken(message) ==> note.outcome == ImportOutcome::Failed(
                message,
            ) && now.seen == pass.seen && now.paths == pass.paths && now.by_path == pass.by_path
            &&& id is Some ==> {
                &&& now.seen == pass.seen.insert(id->0.value)
                &&& now.ids == pass.ids.push(id)
                &&& now.paths == pass.paths.insert(id->0, entry.relative_path@)
                &&& now.by_path == pass.by_path.insert(
                    components_of(entry.relative_path@),
                    id->0,
                )
            }
        }),
{
}

/// How a pass answers an entry: only models, images and sounds are imported, from their path
/// under the root. An asset whose file is as it was and that is held is not decoded again;
/// one that is new or changed is.
pub proof fn law_unchanged_assets_are_not_decoded_again<
    A,
    E: Fn(&str) -> Result<(AssetId, bool), String>,
    I: Fn(AssetKind, &str) -> Result<A, String>,
>(
    pass: PassView<A>,
    root: Seq<char>,
    entry: AssetEntry,
    answer: Answer<A>,
    ensure: &E,
    import: &I,
    go: spec_fn(Seq<char>) -> Result<(AssetId, bool), String>,
    decode: spec_fn(AssetKind, Seq<char>) -> Result<A, String>,
)
    requires
        answered(pass, root, entry, answer, ensure, import),
        forall|path: &str, result: Result<(AssetId, bool), String>| #[trigger]
            ensure.ensures((path,), result) ==> result == go(path@),
        forall|kind: AssetKind, path: &str, result: Result<A, String>| #[trigger]
            import.ensures((kind, path), result) ==> result == decode(kind, path@),
    ensures
        ({
            let path = join_of(root, entry.relative_path@);
            let fits = entry.kind is Mesh || entry.kind is Texture || entry.kind is Audio;
            let (id, changed) = go(path)->Ok_0;
            let fresh = changed || !pass.imported.contains_key(id.value);
            &&& answer is Skipped <==> !fits
            &&& fits && go(path) is Err ==> answer == Answer::<A>::Broken(go(path)->Err_0)
            &&& fits && go(path) is Ok && !fresh ==> answer == (Answer::<A>::Held { id })
            &&& fits && go(path) is Ok && fresh && decode(entry.kind, path) is Ok ==> answer == (
            Answer::<A>::Taken { id, changed, asset: decode(entry.kind, path)->Ok_0 })
            &&& fits && go(path) is Ok && fresh && decode(entry.kind, path) is Err ==> answer == (
            Answer::<A>::Refused { id, changed, message: decode(entry.kind, path)->Err_0 })
        }),
{
}

/// Each record counts once, under what came of it.
pub proof fn law_every_record_counts(records: Seq<ImportRecord>, record: ImportRecord)
    ensures
        outcomes_like(Seq::empty(), ImportOutcome::Imported) == 0,
        outcomes_like(Seq::empty(), ImportOutcome::Cached) == 0,
        failures(Seq::empty()) == 0,
        outcomes_like(records.push(record), ImportOutcome::Imported) == outcomes_like(
            records,
            ImportOutcome::Imported,
        ) + (if record.outcome is Imported {
            1nat
        } else {
            0nat
        }),
        outcomes_like(records.push(record), ImportOutcome::Cached) == outcomes_like(
            records,
            ImportOutcome::Cached,
        ) + (if record.outcome is Cached {
            1nat
        } else {
            0nat
        }),
        failures(records.push(record)) == failures(records) + (if record.outcome is Failed {
            1nat
        } else {
            0nat
        }),
{
    assert(records.push(record).drop_last() =~= records);
}

/// A record is that of an entry with the same path and kind and, if it has one, the same id.
pub proof fn law_records_belong_to_entries(
    record: ImportRecord,
    entries: Seq<AssetEntry>,
) -> (j: int)
    requires
        is_entered(record, entries),
    ensures
        0 <= j < entries.len(),
        entries[j].relative_path == record.relative_path,
        entries[j].kind == record.kind,
        record.id is Some ==> entries[j].id == record.id,
{
    choose|j: int|
        #![trigger entries[j]]
        0 <= j < entries.len() && is_entry_of(record, entries[j], entries[j].id)
}

} // verus!
