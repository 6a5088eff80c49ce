//! Searching the text of a project's source files.

use vstd::prelude::*;
use vstd::utf8::{decode_utf8, valid_utf8};

use crate::order::{
    component_before, components_before, is_path_before, lemma_path_order, lemma_sorted,
    lemma_sorted_is_a_permutation, path_before, sort, sorted, Ordered,
};
use crate::paths::{
    components_of, extension, extension_of, join, join_of, lemma_join, plain_name, same_path,
};
use crate::text::{
    alphanumeric, ascii_lowercase, ascii_lowercase_of, decimal, decimal_text, decode, from_chars,
    is_alphanumeric, is_whitespace, join2, join3, law_trimming_takes_the_white_space_at_the_ends,
    lines, lines_of, lowercase, occurs_at, pad_left, pad_right, padded_left, padded_right, same,
    slice, stands_at, to_chars, trim_start_of, unicode_lowercase, views, white_space,
};

verus! {

/// How deep the walk goes into subdirectories.
pub const MAX_SEARCH_DEPTH: u32 = 24;

/// The most matches that a search shows.
pub const MAX_TEXT_HITS: usize = 1000;

/// How many characters of a line are shown.
pub const PREVIEW_CHARS: usize = 200;

/// How many bytes of a file are looked at for a zero, which a text does not have.
pub const SNIFFED_BYTES: usize = 1024;

/// What is searched.
#[derive(Debug, Clone, Copy, PartialEq, Eq, Structural)]
pub enum SearchMode {
    /// The text of the source files.
    Text,
    /// The names that the language server knows.
    Symbols,
}

impl Default for SearchMode {
    fn default() -> (mode: SearchMode)
        ensures
            mode == SearchMode::Text,
    {
        SearchMode::Text
    }
}

/// What to look for.
#[derive(Debug, PartialEq, Eq)]
pub struct SearchQuery {
    /// The text.
    pub text: String,
    /// Whether letter case matters.
    pub case_sensitive: bool,
    /// Whether the match must be a whole word.
    pub whole_word: bool,
}

impl Default for SearchQuery {
    fn default() -> (query: SearchQuery)
        ensures
            query.text@.len() == 0,
            !query.case_sensitive,
            !query.whole_word,
    {
        SearchQuery { text: String::new(), case_sensitive: false, whole_word: false }
    }
}

/// One match.
#[derive(Debug, PartialEq, Eq)]
pub struct TextHit {
    /// The file, relative to the project.
    pub path: String,
    /// The line, counted from one.
    pub line: u32,
    /// The column in characters, counted from one.
    pub col: u32,
    /// The beginning of the line, without the white space in front.
    pub preview: String,
}

/// What one match says.
#[verifier::ext_equal]
pub ghost struct HitView {
    /// The file.
    pub path: Seq<char>,
    /// The line.
    pub line: u32,
    /// The column.
    pub col: u32,
    /// The beginning of the line.
    pub preview: Seq<char>,
}

impl View for TextHit {
    type V = HitView;

    open spec fn view(&self) -> HitView {
        HitView { path: self.path@, line: self.line, col: self.col, preview: self.preview@ }
    }
}

/// What a search found.
#[derive(Debug, PartialEq, Eq)]
pub struct TextResults {
    /// The matches, in the order of their files and lines.
    pub hits: Vec<TextHit>,
    /// Whether there were as many as allowed, so that some may be missing.
    pub truncated: bool,
}

/// What a search found.
#[verifier::ext_equal]
pub ghost struct ResultsView {
    /// The matches.
    pub hits: Seq<HitView>,
    /// Whether some may be missing.
    pub truncated: bool,
}

impl View for TextResults {
    type V = ResultsView;

    open spec fn view(&self) -> ResultsView {
        ResultsView {
            hits: self.hits@.map_values(|hit: TextHit| hit@),
            truncated: self.truncated,
        }
    }
}

/// Nothing found.
pub open spec fn nothing_found() -> ResultsView {
    ResultsView { hits: Seq::empty(), truncated: false }
}

impl Default for TextResults {
    fn default() -> (results: TextResults)
        ensures
            results@ == nothing_found(),
    {
        let results = TextResults { hits: Vec::new(), truncated: false };
        assert(results@ =~= nothing_found());
        results
    }
}

/// One name that the language server found.
#[derive(Debug, PartialEq, Eq)]
pub struct SymbolHit {
    /// The name.
    pub name: String,
    /// The kind, by the number that the language server protocol gives it.
    pub kind: u8,
    /// The module or type that it stands in.
    pub container: Option<String>,
    /// The file, relative to the project.
    pub path: String,
    /// The line, counted from one.
    pub line: u32,
    /// The column, counted from one.
    pub col: u32,
}

/// A place that the user wants to see.
#[derive(Debug, PartialEq, Eq)]
pub struct Jump {
    /// The file, relative to the project.
    pub path: String,
    /// The line, counted from one.
    pub line: u32,
    /// The column, counted from one.
    pub col: u32,
}

/// The state of the search tab.
#[derive(Debug)]
pub struct SearchState {
    /// What is searched.
    pub mode: SearchMode,
    /// What to look for.
    pub query: SearchQuery,
    /// What was found in the text.
    pub text_results: TextResults,
    /// What the language server found.
    pub symbol_results: Vec<SymbolHit>,
    /// Whether the host is asked to search the text.
    pub run_text_requested: bool,
    /// Whether the host is asked to ask the language server.
    pub symbol_query_dirty: bool,
    /// A result that was clicked.
    pub jump: Option<Jump>,
}

impl Default for SearchState {
    fn default() -> (state: SearchState)
        ensures
            state.mode == SearchMode::Text,
            state.query.text@.len() == 0,
            !state.query.case_sensitive,
            !state.query.whole_word,
            state.text_results@ == nothing_found(),
            state.symbol_results@.len() == 0,
            !state.run_text_requested,
            !state.symbol_query_dirty,
            state.jump is None,
    {
        SearchState {
            mode: SearchMode::Text,
            query: SearchQuery::default(),
            text_results: TextResults::default(),
            symbol_results: Vec::new(),
            run_text_requested: false,
            symbol_query_dirty: false,
            jump: None,
        }
    }
}

/// A short label for a kind of symbol.
pub open spec fn symbol_label_of(kind: u8) -> Seq<char> {
    if kind == 2 {
        "mod"@
    } else if kind == 5 {
        "class"@
    } else if kind == 6 {
        "method"@
    } else if kind == 7 {
        "property"@
    } else if kind == 8 {
        "field"@
    } else if kind == 9 {
        "ctor"@
    } else if kind == 10 {
        "enum"@
    } else if kind == 11 {
        "trait"@
    } else if kind == 12 {
        "fn"@
    } else if kind == 13 {
        "var"@
    } else if kind == 14 {
        "const"@
    } else if kind == 22 {
        "variant"@
    } else if kind == 23 {
        "struct"@
    } else if kind == 24 {
        "event"@
    } else if kind == 26 {
        "type"@
    } else {
        "symbol"@
    }
}

/// A short label for a kind of symbol, by its number.
pub fn symbol_kind_label(kind: u8) -> (label: &'static str)
    ensures
        label@ == symbol_label_of(kind),
{
    match kind {
        2 => "mod",
        5 => "class",
        6 => "method",
        7 => "property",
        8 => "field",
        9 => "ctor",
        10 => "enum",
        11 => "trait",
        12 => "fn",
        13 => "var",
        14 => "const",
        22 => "variant",
        23 => "struct",
        24 => "event",
        26 => "type",
        _ => "symbol",
    }
}

/// Whether the character can be part of a word.
pub open spec fn word_char(c: char) -> bool {
    alphanumeric(c) || c == '_'
}

/// Whether no part of a word stands right before `start` or right behind `end`.
pub open spec fn bounded(text: Seq<char>, start: int, end: int) -> bool {
    &&& start == 0 || !word_char(text[start - 1])
    &&& end >= text.len() || !word_char(text[end])
}

/// Whether the needle stands at the position, as a whole word where that is asked.
pub open spec fn hit_at(hay: Seq<char>, needle: Seq<char>, whole: bool, at: int) -> bool {
    occurs_at(hay, needle, at) && (whole ==> bounded(hay, at, at + needle.len()))
}

/// The text as it is compared.
pub open spec fn folded(text: Seq<char>, case_sensitive: bool) -> Seq<char> {
    if case_sensitive {
        text
    } else {
        unicode_lowercase(text)
    }
}

/// The first position from `from` on at which the needle is found.
pub open spec fn first_hit(hay: Seq<char>, needle: Seq<char>, whole: bool, from: int) -> Option<int>
    decreases hay.len() + 1 - from,
{
    if from > hay.len() {
        None
    } else if hit_at(hay, needle, whole, from) {
        Some(from)
    } else {
        first_hit(hay, needle, whole, from + 1)
    }
}

/// The position of the first match on the line.
pub open spec fn found_at(line: Seq<char>, query: SearchQuery) -> Option<int> {
    first_hit(
        folded(line, query.case_sensitive),
        folded(query.text@, query.case_sensitive),
        query.whole_word,
        0,
    )
}

fn is_word_char(c: char) -> (answer: bool)
    ensures
        answer == word_char(c),
{
    is_alphanumeric(c) || c == '_'
}

/// Whether no part of a word stands right before `start` or right behind `end`.
pub fn word_bounded(text: &[char], start: usize, end: usize) -> (answer: bool)
    requires
        start <= text@.len(),
    ensures
        answer == bounded(text@, start as int, end as int),
{
    let before: bool = start == 0 || !is_word_char(text[start - 1]);
    let behind: bool = end >= text.len() || !is_word_char(text[end]);
    before && behind
}

fn fold(text: &str, case_sensitive: bool) -> (result: Vec<char>)
    ensures
        result@ == folded(text@, case_sensitive),
{
    if case_sensitive {
        to_chars(text)
    } else {
        to_chars(&lowercase(text))
    }
}

/// The position of the first match of the query on the line. `needle` is the
/// query's text as it is compared.
fn match_line(line: &str, query: &SearchQuery, needle: &[char]) -> (found: Option<usize>)
    requires
        needle@ == folded(query.text@, query.case_sensitive),
    ensures
        match found {
            Some(at) => found_at(line@, *query) == Some(at as int),
            None => found_at(line@, *query) is None,
        },
{
    let hay = fold(line, query.case_sensitive);
    let whole: bool = query.whole_word;
    let mut at: usize = 0;
    loop
        invariant
            hay@ == folded(line@, query.case_sensitive),
            needle@ == folded(query.text@, query.case_sensitive),
            whole == query.whole_word,
            at <= hay@.len(),
            first_hit(hay@, needle@, whole, 0) == first_hit(hay@, needle@, whole, at as int),
        decreases hay@.len() - at,
    {
        if stands_at(&hay, needle, at) {
            if !whole || word_bounded(&hay, at, at + needle.len()) {
                return Some(at);
            }
        }
        if at == hay.len() {
            assert(first_hit(hay@, needle@, whole, at + 1) is None);
            return None;
        }
        at += 1;
    }
}

/// What is shown of a line.
pub open spec fn preview_of(line: Seq<char>) -> Seq<char> {
    let text = trim_start_of(line);
    if text.len() > PREVIEW_CHARS {
        text.take(PREVIEW_CHARS as int)
    } else {
        text
    }
}

fn preview(line: &[char]) -> (text: String)
    ensures
        text@ == preview_of(line@),
{
    let mut from: usize = 0;
    assert(line@.skip(0) =~= line@);
    while from < line.len() && is_whitespace(line[from])
        invariant
            from <= line@.len(),
            trim_start_of(line@) == trim_start_of(line@.skip(from as int)),
        decreases line@.len() - from,
    {
        assert(line@.skip(from as int).drop_first() =~= line@.skip(from + 1));
        from += 1;
    }
    let to: usize = if line.len() - from > PREVIEW_CHARS {
        from + PREVIEW_CHARS
    } else {
        line.len()
    };
    let part = slice(line, from, to);
    assert(trim_start_of(line@) == line@.skip(from as int));
    assert(part@ =~= preview_of(line@));
    from_chars(&part)
}

/// The results with one more line of a file looked at. Nothing is added once there
/// are as many matches as allowed.
pub open spec fn with_line(
    results: ResultsView,
    path: Seq<char>,
    number: int,
    line: Seq<char>,
    query: SearchQuery,
    limit: nat,
) -> ResultsView {
    match found_at(line, query) {
        Some(at) if !results.truncated => {
            let hit = HitView {
                path,
                line: number as u32,
                col: (at + 1) as u32,
                preview: preview_of(line),
            };
            let hits = if results.hits.len() < limit {
                results.hits.push(hit)
            } else {
                results.hits
            };
            ResultsView { hits, truncated: hits.len() >= limit }
        },
        _ => results,
    }
}

/// The results with the first `n` lines of a file looked at.
pub open spec fn with_lines(
    results: ResultsView,
    path: Seq<char>,
    lines: Seq<Seq<char>>,
    n: nat,
    query: SearchQuery,
    limit: nat,
) -> ResultsView
    decreases n,
{
    if n == 0 {
        results
    } else {
        with_line(
            with_lines(results, path, lines, (n - 1) as nat, query, limit),
            path,
            n as int,
            lines[n - 1],
            query,
            limit,
        )
    }
}

/// Whether a zero stands among the first bytes, so that the file is no text.
pub open spec fn binary(bytes: Seq<u8>) -> bool {
    exists|i: int| 0 <= i < bytes.len() && i < SNIFFED_BYTES && #[trigger] bytes[i] == 0
}

/// The results with a file looked at.
pub open spec fn with_file(
    results: ResultsView,
    path: Seq<char>,
    bytes: Seq<u8>,
    query: SearchQuery,
    limit: nat,
) -> ResultsView {
    if binary(bytes) || !valid_utf8(bytes) {
        results
    } else {
        let lines = lines_of(decode_utf8(bytes));
        with_lines(results, path, lines, lines.len(), query, limit)
    }
}

fn is_binary(bytes: &Vec<u8>) -> (answer: bool)
    ensures
        answer == binary(bytes@),
{
    let end: usize = if bytes.len() < SNIFFED_BYTES {
        bytes.len()
    } else {
        SNIFFED_BYTES
    };
    for i in 0..end
        invariant
            end <= bytes@.len(),
            end <= SNIFFED_BYTES,
            end == bytes@.len() || end == SNIFFED_BYTES,
            forall|j: int| 0 <= j < i ==> #[trigger] bytes@[j] != 0,
    {
        if bytes[i] == 0 {
            return true;
        }
    }
    false
}

proof fn lemma_nothing_after_the_limit(
    results: ResultsView,
    path: Seq<char>,
    lines: Seq<Seq<char>>,
    n: nat,
    m: nat,
    query: SearchQuery,
    limit: nat,
)
    requires
        n <= m,
        with_lines(results, path, lines, n, query, limit).truncated,
    ensures
        with_lines(results, path, lines, m, query, limit) == with_lines(
            results,
            path,
            lines,
            n,
            query,
            limit,
        ),
    decreases m,
{
    if n < m {
        lemma_nothing_after_the_limit(results, path, lines, n, (m - 1) as nat, query, limit);
    }
}

/// Searches one file.
pub fn search_file(
    results: &mut TextResults,
    path: &str,
    bytes: Vec<u8>,
    query: &SearchQuery,
    limit: usize,
)
    ensures
        final(results)@ == with_file(old(results)@, path@, bytes@, *query, limit as nat),
{
    if is_binary(&bytes) {
        return;
    }
    let text = match decode(bytes) {
        Some(text) => text,
        None => {
            return;
        },
    };
    let needle = fold(&query.text, query.case_sensitive);
    let all = lines(&text);
    let ghost before = results@;
    let ghost texts = views(all@);
    assert(texts.len() == all@.len());
    let ghost goal = with_file(before, path@, bytes@, *query, limit as nat);
    for i in 0..all.len()
        invariant
            texts == views(all@),
            goal == with_lines(before, path@, texts, texts.len(), *query, limit as nat),
            goal == with_file(old(results)@, path@, bytes@, *query, limit as nat),
            needle@ == folded(query.text@, query.case_sensitive),
            results@ == with_lines(before, path@, texts, i as nat, *query, limit as nat),
    {
        if results.truncated {
            proof {
                lemma_nothing_after_the_limit(
                    before,
                    path@,
                    texts,
                    i as nat,
                    texts.len(),
                    *query,
                    limit as nat,
                );
            }
            return;
        }
        let line = from_chars(&all[i]);
        match match_line(&line, query, &needle) {
            Some(at) => {
                let ghost had = results@;
                if results.hits.len() < limit {
                    results.hits.push(
                        TextHit {
                            path: path.to_owned(),
                            line: (i + 1) as u32,
                            col: (at as u128 + 1) as u32,
                            preview: preview(&all[i]),
                        },
                    );
                }
                if results.hits.len() >= limit {
                    results.truncated = true;
                }
                assert(results@ =~= with_line(
                    had,
                    path@,
                    i + 1,
                    line@,
                    *query,
                    limit as nat,
                ));
            },
            None => {},
        }
    }
}

/// One entry of a directory.
#[derive(Debug)]
pub struct SearchItem {
    /// Its name.
    pub name: String,
    /// Whether it is a directory.
    pub is_dir: bool,
}

impl Ordered for SearchItem {
    /// Entries are ordered by their names as paths.
    open spec fn before(&self, other: &SearchItem) -> bool {
        path_before(self.name@, other.name@)
    }

    proof fn before_is_asymmetric(a: &SearchItem, b: &SearchItem) {
        lemma_path_order(a.name@, b.name@, b.name@);
    }

    proof fn not_before_is_transitive(a: &SearchItem, b: &SearchItem, c: &SearchItem) {
        lemma_path_order(a.name@, b.name@, c.name@);
        lemma_path_order(b.name@, c.name@, a.name@);
        lemma_path_order(c.name@, a.name@, b.name@);
    }

    fn precedes(&self, other: &SearchItem) -> (answer: bool) {
        is_path_before(&self.name, &other.name)
    }
}

/// Whether directories with the name are never gone into.
pub open spec fn skipped_dir(name: Seq<char>) -> bool {
    name == "target"@ || name == ".git"@ || name == ".studio"@
}

/// Whether files with the name are looked into.
pub open spec fn searchable(name: Seq<char>) -> bool {
    extension_of(name) matches Some(extension) && ({
        let lower = ascii_lowercase_of(extension);
        lower == "rs"@ || lower == "toml"@ || lower == "ron"@ || lower == "wgsl"@ || lower
            == "glsl"@ || lower == "md"@ || lower == "txt"@ || lower == "json"@
    })
}

fn is_skipped_dir(name: &str) -> (answer: bool)
    ensures
        answer == skipped_dir(name@),
{
    same(name, "target") || same(name, ".git") || same(name, ".studio")
}

fn is_searchable(name: &str) -> (answer: bool)
    ensures
        answer == searchable(name@),
{
    match extension(name) {
        Some(extension) => {
            let lower = ascii_lowercase(&extension);
            same(&lower, "rs") || same(&lower, "toml") || same(&lower, "ron") || same(
                &lower,
                "wgsl",
            ) || same(&lower, "glsl") || same(&lower, "md") || same(&lower, "txt") || same(
                &lower,
                "json",
            )
        },
        None => false,
    }
}

/// Whether the host may say that the directory holds the items.
pub open spec fn lists<L: Fn(&str) -> Vec<SearchItem>>(
    list: &L,
    dir: Seq<char>,
    items: Seq<SearchItem>,
) -> bool {
    exists|path: &str, found: Vec<SearchItem>| #[trigger]
        list.ensures((path,), found) && path@ == dir && found@ == items
}

/// Whether the host may say that the file holds the bytes, or that it cannot be
/// read.
pub open spec fn reads<R: Fn(&str) -> Option<Vec<u8>>>(
    read: &R,
    file: Seq<char>,
    bytes: Option<Seq<u8>>,
) -> bool {
    exists|path: &str, found: Option<Vec<u8>>|
        {
            &&& #[trigger] read.ensures((path,), found)
            &&& path@ == file
            &&& bytes == (match found {
                Some(found) => Some(found@),
                None => None,
            })
        }
}

/// Whether the results go from `before` to `after`.
pub open spec fn leads(states: Seq<ResultsView>, before: ResultsView, after: ResultsView) -> bool {
    states.len() > 0 && states[0] == before && states.last() == after
}

/// Whether a walk through the directory may take the results from `before` to
/// `after`.
pub open spec fn walked<L: Fn(&str) -> Vec<SearchItem>, R: Fn(&str) -> Option<Vec<u8>>>(
    dir: Seq<char>,
    depth: nat,
    before: ResultsView,
    after: ResultsView,
    query: SearchQuery,
    limit: nat,
    list: &L,
    read: &R,
) -> bool
    decreases MAX_SEARCH_DEPTH - depth, 2nat,
{
    if before.truncated || depth >= MAX_SEARCH_DEPTH {
        after == before
    } else {
        exists|items: Seq<SearchItem>, states: Seq<ResultsView>|
            {
                &&& #[trigger] lists(list, dir, items)
                &&& #[trigger] leads(states, before, after)
                &&& visited(dir, depth, sorted(items), states, query, limit, list, read)
            }
    }
}

/// Whether looking at the items of the directory, one after the other, may take the
/// results from each of the states to the next.
pub open spec fn visited<L: Fn(&str) -> Vec<SearchItem>, R: Fn(&str) -> Option<Vec<u8>>>(
    dir: Seq<char>,
    depth: nat,
    items: Seq<SearchItem>,
    states: Seq<ResultsView>,
    query: SearchQuery,
    limit: nat,
    list: &L,
    read: &R,
) -> bool
    decreases MAX_SEARCH_DEPTH - depth, 1nat,
    when depth < MAX_SEARCH_DEPTH
{
    &&& states.len() == items.len() + 1
    &&& forall|i: int|
        #![trigger items[i]]
        0 <= i < items.len() ==> item_done(
            dir,
            depth,
            items[i],
            states[i],
            states[i + 1],
            query,
            limit,
            list,
            read,
        )
}

/// Whether looking at the item of the directory may take the results from `before`
/// to `after`.
pub open spec fn item_done<L: Fn(&str) -> Vec<SearchItem>, R: Fn(&str) -> Option<Vec<u8>>>(
    dir: Seq<char>,
    depth: nat,
    item: SearchItem,
    before: ResultsView,
    after: ResultsView,
    query: SearchQuery,
    limit: nat,
    list: &L,
    read: &R,
) -> bool
    decreases MAX_SEARCH_DEPTH - depth, 0nat,
    when depth < MAX_SEARCH_DEPTH
{
    let path = join_of(dir, item.name@);
    if before.truncated {
        after == before
    } else if item.is_dir {
        if skipped_dir(item.name@) {
            after == before
        } else {
            walked(path, depth + 1, before, after, query, limit, list, read)
        }
    } else if !searchable(item.name@) {
        after == before
    } else {
        file_done(path, before, after, query, limit, read)
    }
}

/// Whether looking at the file may take the results from `before` to `after`.
pub open spec fn file_done<R: Fn(&str) -> Option<Vec<u8>>>(
    path: Seq<char>,
    before: ResultsView,
    after: ResultsView,
    query: SearchQuery,
    limit: nat,
    read: &R,
) -> bool {
    exists|bytes: Option<Seq<u8>>| #[trigger]
        reads(read, path, bytes) && after == (match bytes {
            Some(bytes) => with_file(before, path, bytes, query, limit),
            None => before,
        })
}

fn walk<L: Fn(&str) -> Vec<SearchItem>, R: Fn(&str) -> Option<Vec<u8>>>(
    dir: &str,
    depth: u32,
    results: &mut TextResults,
    query: &SearchQuery,
    limit: usize,
    list: &L,
    read: &R,
)
    requires
        depth <= MAX_SEARCH_DEPTH,
        forall|path: &str| list.requires((path,)),
        forall|path: &str| read.requires((path,)),
    ensures
        walked(
            dir@,
            depth as nat,
            old(results)@,
            final(results)@,
            *query,
            limit as nat,
            list,
            read,
        ),
    decreases MAX_SEARCH_DEPTH - depth,
{
    if results.truncated || depth >= MAX_SEARCH_DEPTH {
        return;
    }
    let ghost before = results@;
    let found = list(dir);
    let ghost given = found@;
    let items = sort(found);
    assert(lists(list, dir@, given));
    let ghost mut states: Seq<ResultsView> = seq![before];
    for i in 0..items.len()
        invariant
            depth < MAX_SEARCH_DEPTH,
            forall|path: &str| list.requires((path,)),
            forall|path: &str| read.requires((path,)),
            states.len() == i + 1,
            states[0] == before,
            states.last() == results@,
            forall|j: int|
                #![trigger items@[j]]
                0 <= j < i ==> item_done(
                    dir@,
                    depth as nat,
                    items@[j],
                    states[j],
                    states[j + 1],
                    *query,
                    limit as nat,
                    list,
                    read,
                ),
    {
        let ghost middle = results@;
        if !results.truncated {
            let item = &items[i];
            let path = join(dir, &item.name);
            if item.is_dir {
                if !is_skipped_dir(&item.name) {
                    walk(&path, depth + 1, results, query, limit, list, read);
                }
            } else if is_searchable(&item.name) {
                match read(&path) {
                    Some(bytes) => {
                        assert(reads(read, path@, Some(bytes@)));
                        search_file(results, &path, bytes, query, limit);
                    },
                    None => {
                        assert(reads(read, path@, None));
                    },
                }
            }
        }
        proof {
            assert(item_done(
                dir@,
                depth as nat,
                items@[i as int],
                middle,
                results@,
                *query,
                limit as nat,
                list,
                read,
            ));
            states = states.push(results@);
        }
    }
    assert(leads(states, before, results@));
    assert(visited(dir@, depth as nat, items@, states, *query, limit as nat, list, read));
}

/// Searches every source file of the project and returns at most `limit` matches,
/// one for each line that matches. `list` says what a directory holds, and `read`
/// what a file holds; paths are relative to the project. Directories of build
/// products, of version control and of the editor are left out, and so is what is
/// no text. An empty query finds nothing.
pub fn run_text_search<L: Fn(&str) -> Vec<SearchItem>, R: Fn(&str) -> Option<Vec<u8>>>(
    query: &SearchQuery,
    limit: usize,
    list: &L,
    read: &R,
) -> (results: TextResults)
    requires
        forall|path: &str| list.requires((path,)),
        forall|path: &str| read.requires((path,)),
    ensures
        query.text@.len() == 0 ==> results@ == nothing_found(),
        query.text@.len() > 0 ==> walked(
            Seq::empty(),
            0,
            nothing_found(),
            results@,
            *query,
            limit as nat,
            list,
            read,
        ),
{
    let mut results = TextResults::default();
    if query.text.as_str().is_empty() {
        return results;
    }
    let root = String::new();
    assert(root@ =~= Seq::empty());
    walk(&root, 0, &mut results, query, limit, list, read);
    results
}

/// Whether the results hold no more matches than allowed, and say that some may be
/// missing exactly if there are as many as allowed; where none is allowed, they may say
/// either.
pub open spec fn within(results: ResultsView, limit: nat) -> bool {
    &&& results.hits.len() <= limit
    &&& results.truncated ==> results.hits.len() == limit
    &&& results.hits.len() == limit && limit > 0 ==> results.truncated
}

proof fn lemma_lines_within(
    results: ResultsView,
    path: Seq<char>,
    lines: Seq<Seq<char>>,
    n: nat,
    query: SearchQuery,
    limit: nat,
)
    requires
        within(results, limit),
    ensures
        within(with_lines(results, path, lines, n, query, limit), limit),
    decreases n,
{
    if n > 0 {
        lemma_lines_within(results, path, lines, (n - 1) as nat, query, limit);
    }
}

/// A search gives at most as many matches as allowed.
pub proof fn law_search_respects_the_limit<
    L: Fn(&str) -> Vec<SearchItem>,
    R: Fn(&str) -> Option<Vec<u8>>,
>(
    dir: Seq<char>,
    depth: nat,
    before: ResultsView,
    after: ResultsView,
    query: SearchQuery,
    limit: nat,
    list: &L,
    read: &R,
)
    requires
        walked(dir, depth, before, after, query, limit, list, read),
        within(before, limit),
    ensures
        within(after, limit),
    decreases MAX_SEARCH_DEPTH - depth, 1nat, 0nat,
{
    if !before.truncated && depth < MAX_SEARCH_DEPTH {
        let (items, states) = choose|items: Seq<SearchItem>, states: Seq<ResultsView>|
            {
                &&& #[trigger] lists(list, dir, items)
                &&& #[trigger] leads(states, before, after)
                &&& visited(dir, depth, sorted(items), states, query, limit, list, read)
            };
        lemma_items_within(
            dir,
            depth,
            sorted(items),
            states,
            sorted(items).len(),
            query,
            limit,
            list,
            read,
        );
    }
}

proof fn lemma_items_within<L: Fn(&str) -> Vec<SearchItem>, R: Fn(&str) -> Option<Vec<u8>>>(
    dir: Seq<char>,
    depth: nat,
    items: Seq<SearchItem>,
    states: Seq<ResultsView>,
    n: nat,
    query: SearchQuery,
    limit: nat,
    list: &L,
    read: &R,
)
    requires
        depth < MAX_SEARCH_DEPTH,
        visited(dir, depth, items, states, query, limit, list, read),
        n <= items.len(),
        within(states[0], limit),
    ensures
        within(states[n as int], limit),
    decreases MAX_SEARCH_DEPTH - depth, 0nat, n,
{
    if n > 0 {
        lemma_items_within(dir, depth, items, states, (n - 1) as nat, query, limit, list, read);
        let item = items[n - 1];
        let (before, after) = (states[n - 1], states[n as int]);
        let path = join_of(dir, item.name@);
        assert(item_done(dir, depth, item, before, after, query, limit, list, read));
        if before.truncated {
        } else if item.is_dir {
            if !skipped_dir(item.name@) {
                law_search_respects_the_limit(
                    path,
                    depth + 1,
                    before,
                    after,
                    query,
                    limit,
                    list,
                    read,
                );
            }
        } else if searchable(item.name@) {
            let bytes = choose|bytes: Option<Seq<u8>>| #[trigger]
                reads(read, path, bytes) && after == (match bytes {
                    Some(bytes) => with_file(before, path, bytes, query, limit),
                    None => before,
                });
            if bytes is Some {
                let lines = lines_of(decode_utf8(bytes->0));
                lemma_lines_within(before, path, lines, lines.len(), query, limit);
            }
        }
    }
}

/// Whether the match `a` stands in an earlier file than `b`, or on an earlier line of
/// the same file.
pub open spec fn hit_before(a: HitView, b: HitView) -> bool {
    path_before(a.path, b.path) || (same_path(a.path, b.path) && a.line < b.line)
}

/// Whether the host gives plain names that differ within each directory.
pub open spec fn tidy<L: Fn(&str) -> Vec<SearchItem>>(list: &L) -> bool {
    forall|dir: Seq<char>, items: Seq<SearchItem>| #[trigger]
        lists(list, dir, items) ==> names_fit(items)
}

/// Whether the names are plain and differ.
pub open spec fn names_fit(items: Seq<SearchItem>) -> bool {
    &&& forall|i: int| #![trigger items[i]] 0 <= i < items.len() ==> plain_name(items[i].name@)
    &&& forall|i: int, j: int|
        #![trigger items[i], items[j]]
        0 <= i < j < items.len() ==> items[i].name@ != items[j].name@
}

/// Whether no file of the host's has more lines than can be counted.
pub open spec fn short<R: Fn(&str) -> Option<Vec<u8>>>(read: &R) -> bool {
    forall|path: Seq<char>, bytes: Seq<u8>| #[trigger]
        reads(read, path, Some(bytes)) ==> lines_of(decode_utf8(bytes)).len() <= u32::MAX
}

/// Whether the path leads through the component `name` right below the directory
/// with the components `dir`.
spec fn below(path: Seq<char>, dir: Seq<Seq<char>>, name: Seq<char>) -> bool {
    let parts = components_of(path);
    parts.len() > dir.len() && parts.take(dir.len() as int) == dir && parts[dir.len() as int] == name
}

spec fn beneath(path: Seq<char>, dir: Seq<Seq<char>>) -> bool {
    components_of(path).len() > dir.len() && components_of(path).take(dir.len() as int) == dir
}

/// Whether the matches grew by some that stand in order.
spec fn grown(before: ResultsView, after: ResultsView) -> bool {
    &&& before.hits.len() <= after.hits.len()
    &&& forall|i: int|
        #![trigger after.hits[i]]
        0 <= i < before.hits.len() ==> after.hits[i] == before.hits[i]
    &&& forall|i: int, j: int|
        #![trigger after.hits[i], after.hits[j]]
        before.hits.len() <= i < j < after.hits.len() ==> hit_before(after.hits[i], after.hits[j])
}

proof fn lemma_lines_grow(
    results: ResultsView,
    path: Seq<char>,
    lines: Seq<Seq<char>>,
    n: nat,
    query: SearchQuery,
    limit: nat,
)
    requires
        n <= lines.len() <= u32::MAX,
    ensures
        ({
            let after = with_lines(results, path, lines, n, query, limit);
            &&& grown(results, after)
            &&& forall|i: int|
                #![trigger after.hits[i]]
                results.hits.len() <= i < after.hits.len() ==> after.hits[i].path == path
                    && after.hits[i].line <= n
        }),
    decreases n,
{
    if n > 0 {
        lemma_lines_grow(results, path, lines, (n - 1) as nat, query, limit);
        let middle = with_lines(results, path, lines, (n - 1) as nat, query, limit);
        let after = with_lines(results, path, lines, n, query, limit);
        assert forall|i: int|
            #![trigger after.hits[i]]
            0 <= i < middle.hits.len() implies after.hits[i] == middle.hits[i] by {}
        assert forall|i: int, j: int|
            #![trigger after.hits[i], after.hits[j]]
            results.hits.len() <= i < j < after.hits.len() implies hit_before(
            after.hits[i],
            after.hits[j],
        ) by {
            assert(after.hits[i] == middle.hits[i]);
            if j < middle.hits.len() {
                assert(after.hits[j] == middle.hits[j]);
            } else {
                assert(after.hits[j].line == n as u32);
            }
        }
    }
}

proof fn lemma_before_by_component(
    a: Seq<Seq<char>>,
    b: Seq<Seq<char>>,
    n: nat,
)
    requires
        n < a.len(),
        n < b.len(),
        a.take(n as int) == b.take(n as int),
        a[n as int] != b[n as int],
        component_before(a[n as int], b[n as int]),
    ensures
        components_before(a, b),
    decreases n,
{
    if n > 0 {
        assert(a.take(n as int)[0] == b.take(n as int)[0]);
        assert(a.drop_first().take(n - 1) =~= a.take(n as int).drop_first());
        assert(b.drop_first().take(n - 1) =~= b.take(n as int).drop_first());
        lemma_before_by_component(a.drop_first(), b.drop_first(), (n - 1) as nat);
    }
}

proof fn lemma_names_in_order(items: Seq<SearchItem>)
    requires
        names_fit(items),
    ensures
        names_fit(sorted(items)),
        forall|i: int, j: int|
            #![trigger sorted(items)[i], sorted(items)[j]]
            0 <= i < j < sorted(items).len() ==> component_before(
                sorted(items)[i].name@,
                sorted(items)[j].name@,
            ),
{
    let all = sorted(items);
    lemma_sorted(items);
    lemma_sorted_is_a_permutation(items);
    assert(items.no_duplicates());
    assert forall|i: int| #![trigger all[i]] 0 <= i < all.len() implies plain_name(all[i].name@) by {
        assert(all.contains(all[i]));
        let k = items.index_of(all[i]);
        assert(items[k] == all[i]);
    }
    assert forall|i: int, j: int| #![trigger all[i], all[j]] 0 <= i < j < all.len() implies
        all[i].name@ != all[j].name@ && component_before(all[i].name@, all[j].name@) by {
        assert(all.contains(all[i]) && all.contains(all[j]));
        let a = items.index_of(all[i]);
        let b = items.index_of(all[j]);
        assert(items[a] == all[i] && items[b] == all[j]);
        assert(all[i] != all[j]);
        assert(!all[j].before(&all[i]));
        let (x, y) = (all[i].name@, all[j].name@);
        lemma_join(Seq::empty(), x);
        lemma_join(Seq::empty(), y);
        lemma_path_order(x, y, y);
        assert(components_of(x)[0] == x && components_of(y)[0] == y);
        assert(path_before(x, y));
    }
}

proof fn lemma_walk_grows<L: Fn(&str) -> Vec<SearchItem>, R: Fn(&str) -> Option<Vec<u8>>>(
    dir: Seq<char>,
    depth: nat,
    before: ResultsView,
    after: ResultsView,
    query: SearchQuery,
    limit: nat,
    list: &L,
    read: &R,
)
    requires
        walked(dir, depth, before, after, query, limit, list, read),
        tidy(list),
        short(read),
    ensures
        grown(before, after),
        forall|i: int|
            #![trigger after.hits[i]]
            before.hits.len() <= i < after.hits.len() ==> beneath(
                after.hits[i].path,
                components_of(dir),
            ),
    decreases MAX_SEARCH_DEPTH - depth, 1nat, 0nat,
{
    if !before.truncated && depth < MAX_SEARCH_DEPTH {
        let (items, states) = choose|items: Seq<SearchItem>, states: Seq<ResultsView>|
            {
                &&& #[trigger] lists(list, dir, items)
                &&& #[trigger] leads(states, before, after)
                &&& visited(dir, depth, sorted(items), states, query, limit, list, read)
            };
        let all = sorted(items);
        lemma_names_in_order(items);
        lemma_items_grow(dir, depth, all, states, all.len(), query, limit, list, read);
        assert forall|i: int|
            #![trigger after.hits[i]]
            before.hits.len() <= i < after.hits.len() implies beneath(
            after.hits[i].path,
            components_of(dir),
        ) by {
            assert(comes_below(after.hits[i].path, components_of(dir), all, all.len()));
        }
    }
}

spec fn comes_below(
    path: Seq<char>,
    dir: Seq<Seq<char>>,
    items: Seq<SearchItem>,
    n: nat,
) -> bool {
    exists|k: int| #![trigger items[k]] 0 <= k < n && below(path, dir, items[k].name@)
}

proof fn lemma_items_grow<L: Fn(&str) -> Vec<SearchItem>, R: Fn(&str) -> Option<Vec<u8>>>(
    dir: Seq<char>,
    depth: nat,
    items: Seq<SearchItem>,
    states: Seq<ResultsView>,
    n: nat,
    query: SearchQuery,
    limit: nat,
    list: &L,
    read: &R,
)
    requires
        depth < MAX_SEARCH_DEPTH,
        visited(dir, depth, items, states, query, limit, list, read),
        n <= items.len(),
        tidy(list),
        short(read),
        names_fit(items),
        forall|i: int, j: int|
            #![trigger items[i], items[j]]
            0 <= i < j < items.len() ==> component_before(items[i].name@, items[j].name@),
    ensures
        grown(states[0], states[n as int]),
        forall|i: int|
            #![trigger states[n as int].hits[i]]
            states[0].hits.len() <= i < states[n as int].hits.len() ==> comes_below(
                states[n as int].hits[i].path,
                components_of(dir),
                items,
                n,
            ),
    decreases MAX_SEARCH_DEPTH - depth, 0nat, n,
{
    if n > 0 {
        lemma_items_grow(dir, depth, items, states, (n - 1) as nat, query, limit, list, read);
        let first = states[0];
        let (middle, after) = (states[n - 1], states[n as int]);
        let parts = components_of(dir);
        let item = items[n - 1];
        assert(item_done(dir, depth, item, middle, after, query, limit, list, read));
        lemma_item_grows(dir, depth, item, middle, after, query, limit, list, read);
        assert forall|i: int|
            #![trigger after.hits[i]]
            0 <= i < middle.hits.len() implies after.hits[i] == middle.hits[i] by {}
        assert forall|i: int|
            #![trigger after.hits[i]]
            first.hits.len() <= i < after.hits.len() implies comes_below(
            after.hits[i].path,
            parts,
            items,
            n,
        ) by {
            if i < middle.hits.len() {
                assert(after.hits[i] == middle.hits[i]);
                assert(comes_below(middle.hits[i].path, parts, items, (n - 1) as nat));
                let k = choose|k: int|
                    #![trigger items[k]]
                    0 <= k < n - 1 && below(middle.hits[i].path, parts, items[k].name@);
                assert(below(after.hits[i].path, parts, items[k].name@));
            } else {
                assert(below(after.hits[i].path, parts, items[n - 1].name@));
            }
        }
        assert forall|i: int, j: int|
            #![trigger after.hits[i], after.hits[j]]
            first.hits.len() <= i < j < after.hits.len() implies hit_before(
            after.hits[i],
            after.hits[j],
        ) by {
            if j < middle.hits.len() {
                assert(after.hits[i] == middle.hits[i] && after.hits[j] == middle.hits[j]);
            } else if i < middle.hits.len() {
                assert(after.hits[i] == middle.hits[i]);
                assert(comes_below(middle.hits[i].path, parts, items, (n - 1) as nat));
                let k = choose|k: int|
                    #![trigger items[k]]
                    0 <= k < n - 1 && below(middle.hits[i].path, parts, items[k].name@);
                assert(below(after.hits[j].path, parts, items[n - 1].name@));
                assert(component_before(items[k].name@, items[n - 1].name@));
                lemma_before_by_component(
                    components_of(after.hits[i].path),
                    components_of(after.hits[j].path),
                    parts.len(),
                );
            }
        }
    }
}

proof fn lemma_item_grows<L: Fn(&str) -> Vec<SearchItem>, R: Fn(&str) -> Option<Vec<u8>>>(
    dir: Seq<char>,
    depth: nat,
    item: SearchItem,
    before: ResultsView,
    after: ResultsView,
    query: SearchQuery,
    limit: nat,
    list: &L,
    read: &R,
)
    requires
        depth < MAX_SEARCH_DEPTH,
        item_done(dir, depth, item, before, after, query, limit, list, read),
        plain_name(item.name@),
        tidy(list),
        short(read),
    ensures
        grown(before, after),
        forall|i: int|
            #![trigger after.hits[i]]
            before.hits.len() <= i < after.hits.len() ==> below(
                after.hits[i].path,
                components_of(dir),
                item.name@,
            ),
    decreases MAX_SEARCH_DEPTH - depth, 0nat, 0nat,
{
    let path = join_of(dir, item.name@);
    let parts = components_of(dir);
    lemma_join(dir, item.name@);
    assert(components_of(path).take(parts.len() as int) =~= parts);
    if before.truncated {
    } else if item.is_dir {
        if !skipped_dir(item.name@) {
            lemma_walk_grows(path, depth + 1, before, after, query, limit, list, read);
            assert forall|i: int|
                #![trigger after.hits[i]]
                before.hits.len() <= i < after.hits.len() implies below(
                after.hits[i].path,
                parts,
                item.name@,
            ) by {
                let found = components_of(after.hits[i].path);
                assert(beneath(after.hits[i].path, components_of(path)));
                assert(found.take(parts.len() as int + 1)[parts.len() as int] == item.name@);
                assert(found.take(parts.len() as int) =~= found.take(parts.len() as int + 1).take(
                    parts.len() as int,
                ));
            }
        }
    } else if searchable(item.name@) {
        let bytes = choose|bytes: Option<Seq<u8>>| #[trigger]
            reads(read, path, bytes) && after == (match bytes {
                Some(bytes) => with_file(before, path, bytes, query, limit),
                None => before,
            });
        match bytes {
            Some(found) => {
                let lines = lines_of(decode_utf8(found));
                lemma_lines_grow(before, path, lines, lines.len(), query, limit);
            },
            None => {},
        }
    }
}

/// Matches come in the order of their files, and within a file in the order of their
/// lines.
pub proof fn law_hits_come_in_order<
    L: Fn(&str) -> Vec<SearchItem>,
    R: Fn(&str) -> Option<Vec<u8>>,
>(
    results: ResultsView,
    query: SearchQuery,
    limit: nat,
    list: &L,
    read: &R,
    i: int,
    j: int,
)
    requires
        walked(Seq::empty(), 0, nothing_found(), results, query, limit, list, read),
        tidy(list),
        short(read),
        0 <= i < j < results.hits.len(),
    ensures
        hit_before(results.hits[i], results.hits[j]),
{
    lemma_walk_grows(Seq::empty(), 0, nothing_found(), results, query, limit, list, read);
}

/// What a project holds, directory by directory and file by file.
pub ghost struct ProjectView {
    /// The entries of each directory.
    pub items: spec_fn(Seq<char>) -> Seq<SearchItem>,
    /// The bytes of each file; none where it cannot be read.
    pub bytes: spec_fn(Seq<char>) -> Option<Seq<u8>>,
}

/// Whether the host tells what the project holds.
pub open spec fn tells<L: Fn(&str) -> Vec<SearchItem>, R: Fn(&str) -> Option<Vec<u8>>>(
    project: ProjectView,
    list: &L,
    read: &R,
) -> bool {
    &&& forall|dir: Seq<char>, items: Seq<SearchItem>| #[trigger]
        lists(list, dir, items) ==> items == (project.items)(dir)
    &&& forall|file: Seq<char>, bytes: Option<Seq<u8>>| #[trigger]
        reads(read, file, bytes) ==> bytes == (project.bytes)(file)
}

/// Whether the path is that of a file that is looked into, in the directory or below it:
/// its name is that of a source file, no directory on the way to it is left out, and it
/// is not too deep.
pub open spec fn looked_into(
    project: ProjectView,
    dir: Seq<char>,
    depth: nat,
    path: Seq<char>,
) -> bool
    decreases MAX_SEARCH_DEPTH - depth, 1nat,
{
    depth < MAX_SEARCH_DEPTH && exists|item: SearchItem| #[trigger]
        (project.items)(dir).contains(item) && leads_to(project, dir, depth, item, path)
}

/// Whether the item of the directory is the file that is looked into, or holds it.
pub open spec fn leads_to(
    project: ProjectView,
    dir: Seq<char>,
    depth: nat,
    item: SearchItem,
    path: Seq<char>,
) -> bool
    decreases MAX_SEARCH_DEPTH - depth, 0nat,
    when depth < MAX_SEARCH_DEPTH
{
    let below = join_of(dir, item.name@);
    if item.is_dir {
        !skipped_dir(item.name@) && looked_into(project, below, depth + 1, path)
    } else {
        searchable(item.name@) && path == below
    }
}

/// Whether the match is what a line says: the line matches, and the match gives its file,
/// its number, the place of the first match on it, and its beginning.
pub open spec fn is_hit_of(
    hit: HitView,
    path: Seq<char>,
    number: int,
    line: Seq<char>,
    query: SearchQuery,
) -> bool {
    found_at(line, query) matches Some(at) && hit == (HitView {
        path,
        line: number as u32,
        col: (at + 1) as u32,
        preview: preview_of(line),
    })
}

/// Whether the match is that of one of the first `n` lines.
pub open spec fn is_hit_among(
    hit: HitView,
    path: Seq<char>,
    lines: Seq<Seq<char>>,
    n: nat,
    query: SearchQuery,
) -> bool {
    exists|k: int| 0 <= k < n && is_hit_of(hit, path, k + 1, #[trigger] lines[k], query)
}

/// Whether the match is that of a line of a file with the bytes; what is no text has none.
pub open spec fn is_hit_in(
    hit: HitView,
    path: Seq<char>,
    bytes: Option<Seq<u8>>,
    query: SearchQuery,
) -> bool {
    bytes matches Some(bytes) && !binary(bytes) && valid_utf8(bytes) && ({
        let lines = lines_of(decode_utf8(bytes));
        is_hit_among(hit, path, lines, lines.len(), query)
    })
}

/// Whether the match is that of a matching line of a file that is looked into.
pub open spec fn is_match(project: ProjectView, query: SearchQuery, hit: HitView) -> bool {
    looked_into(project, Seq::empty(), 0, hit.path) && is_hit_in(
        hit,
        hit.path,
        (project.bytes)(hit.path),
        query,
    )
}

/// Whether, from `before` to `after`, the match was added only if it was to be found, and,
/// unless the results were cut off, was added if it was.
spec fn accounts(before: ResultsView, after: ResultsView, hit: HitView, found: bool) -> bool {
    &&& after.hits.contains(hit) ==> before.hits.contains(hit) || found
    &&& !after.truncated ==> !before.truncated
    &&& !after.truncated && (before.hits.contains(hit) || found) ==> after.hits.contains(hit)
}

proof fn lemma_lines_account(
    results: ResultsView,
    path: Seq<char>,
    lines: Seq<Seq<char>>,
    n: nat,
    query: SearchQuery,
    limit: nat,
    hit: HitView,
)
    requires
        n <= lines.len(),
    ensures
        accounts(
            results,
            with_lines(results, path, lines, n, query, limit),
            hit,
            is_hit_among(hit, path, lines, n, query),
        ),
    decreases n,
{
    if n > 0 {
        let m = (n - 1) as nat;
        lemma_lines_account(results, path, lines, m, query, limit, hit);
        let middle = with_lines(results, path, lines, m, query, limit);
        let after = with_lines(results, path, lines, n, query, limit);
        let line = lines[m as int];
        if is_hit_among(hit, path, lines, m, query) {
            let k = choose|k: int|
                0 <= k < m && is_hit_of(hit, path, k + 1, #[trigger] lines[k], query);
            assert(is_hit_of(hit, path, k + 1, lines[k], query));
        }
        if is_hit_among(hit, path, lines, n, query) {
            let k = choose|k: int|
                0 <= k < n && is_hit_of(hit, path, k + 1, #[trigger] lines[k], query);
            if k < m {
                assert(is_hit_among(hit, path, lines, m, query));
            }
        }
        if after.hits.len() > middle.hits.len() {
            let added = after.hits.last();
            assert(after.hits =~= middle.hits.push(added));
            assert(is_hit_of(added, path, n as int, line, query));
            assert(after.hits[middle.hits.len() as int] == added);
            if middle.hits.contains(hit) {
                let at = middle.hits.index_of(hit);
                assert(after.hits[at] == hit);
            }
            if after.hits.contains(hit) {
                let at = after.hits.index_of(hit);
                if at < middle.hits.len() {
                    assert(middle.hits[at] == hit);
                } else {
                    assert(is_hit_of(hit, path, n as int, lines[m as int], query));
                }
            }
        }
    }
}

proof fn lemma_walk_accounts<L: Fn(&str) -> Vec<SearchItem>, R: Fn(&str) -> Option<Vec<u8>>>(
    project: ProjectView,
    dir: Seq<char>,
    depth: nat,
    before: ResultsView,
    after: ResultsView,
    query: SearchQuery,
    limit: nat,
    list: &L,
    read: &R,
    hit: HitView,
)
    requires
        walked(dir, depth, before, after, query, limit, list, read),
        tells(project, list, read),
    ensures
        accounts(
            before,
            after,
            hit,
            looked_into(project, dir, depth, hit.path) && is_hit_in(
                hit,
                hit.path,
                (project.bytes)(hit.path),
                query,
            ),
        ),
    decreases MAX_SEARCH_DEPTH - depth, 1nat, 0nat,
{
    if !before.truncated && depth < MAX_SEARCH_DEPTH {
        let (items, states) = choose|items: Seq<SearchItem>, states: Seq<ResultsView>|
            {
                &&& #[trigger] lists(list, dir, items)
                &&& #[trigger] leads(states, before, after)
                &&& visited(dir, depth, sorted(items), states, query, limit, list, read)
            };
        let listed = sorted(items);
        lemma_items_account(
            project,
            dir,
            depth,
            listed,
            states,
            listed.len(),
            query,
            limit,
            list,
            read,
            hit,
        );
        lemma_sorted_is_a_permutation(items);
        assert(looked_into(project, dir, depth, hit.path) <==> some_lead(
            project,
            dir,
            depth,
            listed,
            listed.len(),
            hit.path,
        )) by {
            if looked_into(project, dir, depth, hit.path) {
                let item = choose|item: SearchItem| #[trigger]
                    (project.items)(dir).contains(item) && leads_to(
                        project,
                        dir,
                        depth,
                        item,
                        hit.path,
                    );
                assert(listed.contains(item));
                let i = listed.index_of(item);
                assert(leads_to(project, dir, depth, listed[i], hit.path));
            }
            if some_lead(project, dir, depth, listed, listed.len(), hit.path) {
                let i = choose|i: int|
                    0 <= i < listed.len() && leads_to(
                        project,
                        dir,
                        depth,
                        #[trigger] listed[i],
                        hit.path,
                    );
                assert(listed.contains(listed[i]));
                assert((project.items)(dir).contains(listed[i]));
            }
        }
    }
}

/// Whether one of the first `n` items is the file that is looked into, or holds it.
spec fn some_lead(
    project: ProjectView,
    dir: Seq<char>,
    depth: nat,
    items: Seq<SearchItem>,
    n: nat,
    path: Seq<char>,
) -> bool {
    exists|i: int| 0 <= i < n && leads_to(project, dir, depth, #[trigger] items[i], path)
}

proof fn lemma_items_account<L: Fn(&str) -> Vec<SearchItem>, R: Fn(&str) -> Option<Vec<u8>>>(
    project: ProjectView,
    dir: Seq<char>,
    depth: nat,
    items: Seq<SearchItem>,
    states: Seq<ResultsView>,
    n: nat,
    query: SearchQuery,
    limit: nat,
    list: &L,
    read: &R,
    hit: HitView,
)
    requires
        depth < MAX_SEARCH_DEPTH,
        visited(dir, depth, items, states, query, limit, list, read),
        tells(project, list, read),
        n <= items.len(),
    ensures
        accounts(
            states[0],
            states[n as int],
            hit,
            some_lead(project, dir, depth, items, n, hit.path) && is_hit_in(
                hit,
                hit.path,
                (project.bytes)(hit.path),
                query,
            ),
        ),
    decreases MAX_SEARCH_DEPTH - depth, 0nat, n,
{
    if n > 0 {
        let m = (n - 1) as nat;
        lemma_items_account(project, dir, depth, items, states, m, query, limit, list, read, hit);
        let item = items[m as int];
        let (before, after) = (states[m as int], states[n as int]);
        let path = join_of(dir, item.name@);
        assert(item_done(dir, depth, item, before, after, query, limit, list, read));
        if before.truncated {
        } else if item.is_dir {
            if !skipped_dir(item.name@) {
                lemma_walk_accounts(
                    project,
                    path,
                    depth + 1,
                    before,
                    after,
                    query,
                    limit,
                    list,
                    read,
                    hit,
                );
            }
        } else if searchable(item.name@) {
            let bytes = choose|bytes: Option<Seq<u8>>| #[trigger]
                reads(read, path, bytes) && after == (match bytes {
                    Some(bytes) => with_file(before, path, bytes, query, limit),
                    None => before,
                });
            match bytes {
                Some(bytes) => {
                    let lines = lines_of(decode_utf8(bytes));
                    if !binary(bytes) && valid_utf8(bytes) {
                        lemma_lines_account(
                            before,
                            path,
                            lines,
                            lines.len(),
                            query,
                            limit,
                            hit,
                        );
                    }
                },
                None => {},
            }
        }
        let leads = leads_to(project, dir, depth, item, hit.path);
        let found = is_hit_in(hit, hit.path, (project.bytes)(hit.path), query);
        assert(accounts(before, after, hit, leads && found)) by {
            if !item.is_dir && searchable(item.name@) && !before.truncated {
                if is_hit_in(hit, path, (project.bytes)(path), query) {
                    assert(hit.path == path);
                }
            }
        }
        assert(some_lead(project, dir, depth, items, n, hit.path) <==> leads || some_lead(
            project,
            dir,
            depth,
            items,
            m,
            hit.path,
        )) by {
            if leads {
                assert(leads_to(project, dir, depth, items[m as int], hit.path));
            }
            if some_lead(project, dir, depth, items, m, hit.path) {
                let i = choose|i: int|
                    0 <= i < m && leads_to(project, dir, depth, #[trigger] items[i], hit.path);
                assert(leads_to(project, dir, depth, items[i], hit.path));
            }
        }
    }
}

/// What is found are matching lines of the files that are looked into, and results that
/// are not cut off hold every one of them.
pub proof fn law_search_finds_the_matching_lines<
    L: Fn(&str) -> Vec<SearchItem>,
    R: Fn(&str) -> Option<Vec<u8>>,
>(
    project: ProjectView,
    results: ResultsView,
    query: SearchQuery,
    limit: nat,
    list: &L,
    read: &R,
    hit: HitView,
)
    requires
        walked(Seq::empty(), 0, nothing_found(), results, query, limit, list, read),
        tells(project, list, read),
    ensures
        results.hits.contains(hit) ==> is_match(project, query, hit),
        !results.truncated ==> (results.hits.contains(hit) <==> is_match(project, query, hit)),
{
    lemma_walk_accounts(
        project,
        Seq::empty(),
        0,
        nothing_found(),
        results,
        query,
        limit,
        list,
        read,
        hit,
    );
}

/// What was entered in the search tab in one frame.
#[derive(Debug)]
pub struct SearchInput {
    /// The mode that is chosen.
    pub mode: SearchMode,
    /// The text in the query field.
    pub text: String,
    /// Whether that text changed in this frame.
    pub changed: bool,
    /// Whether the field was left with Enter.
    pub entered: bool,
    /// Whether the search button was clicked.
    pub clicked: bool,
    /// Whether letter case is ticked.
    pub case_sensitive: bool,
    /// Whether whole words are ticked.
    pub whole_word: bool,
}

/// Takes what was entered in the search tab. In the text mode a search is asked for
/// when the query is submitted; in the symbol mode also when the query changes. The
/// match options belong to the text mode.
pub fn search_input(state: &mut SearchState, input: SearchInput)
    ensures
        ({
            let text_mode = input.mode == SearchMode::Text;
            let submitted = input.entered || input.clicked;
            &&& final(state).mode == input.mode
            &&& final(state).query.text == input.text
            &&& final(state).query.case_sensitive == (if text_mode {
                input.case_sensitive
            } else {
                old(state).query.case_sensitive
            })
            &&& final(state).query.whole_word == (if text_mode {
                input.whole_word
            } else {
                old(state).query.whole_word
            })
            &&& final(state).run_text_requested == (old(state).run_text_requested || (text_mode
                && submitted))
            &&& final(state).symbol_query_dirty == (old(state).symbol_query_dirty || (!text_mode
                && (submitted || input.changed)))
            &&& final(state).text_results == old(state).text_results
            &&& final(state).symbol_results == old(state).symbol_results
            &&& final(state).jump == old(state).jump
        }),
{
    state.mode = input.mode;
    state.query.text = input.text;
    let submitted: bool = input.entered || input.clicked;
    match input.mode {
        SearchMode::Text => {
            state.query.case_sensitive = input.case_sensitive;
            state.query.whole_word = input.whole_word;
            if submitted {
                state.run_text_requested = true;
            }
        },
        SearchMode::Symbols => {
            if submitted || input.changed {
                state.symbol_query_dirty = true;
            }
        },
    }
}

/// Whether `jump` leads to the place.
pub open spec fn jumps_to(jump: Option<Jump>, path: Seq<char>, line: u32, col: u32) -> bool {
    jump matches Some(jump) && jump.path@ == path && jump.line == line && jump.col == col
}

/// Asks for the place of a match that was clicked.
pub fn text_hit_clicked(state: &mut SearchState, index: usize)
    requires
        index < old(state).text_results.hits@.len(),
    ensures
        ({
            let hit = old(state).text_results.hits@[index as int];
            &&& jumps_to(final(state).jump, hit.path@, hit.line, hit.col)
            &&& *final(state) == (SearchState { jump: final(state).jump, ..*old(state) })
        }),
{
    let hit = &state.text_results.hits[index];
    state.jump = Some(Jump { path: hit.path.clone(), line: hit.line, col: hit.col });
}

/// Asks for the place of a symbol that was clicked.
pub fn symbol_clicked(state: &mut SearchState, index: usize)
    requires
        index < old(state).symbol_results@.len(),
    ensures
        ({
            let symbol = old(state).symbol_results@[index as int];
            &&& jumps_to(final(state).jump, symbol.path@, symbol.line, symbol.col)
            &&& *final(state) == (SearchState { jump: final(state).jump, ..*old(state) })
        }),
{
    let symbol = &state.symbol_results[index];
    state.jump = Some(Jump { path: symbol.path.clone(), line: symbol.line, col: symbol.col });
}

/// Whether the file's name is shown above the match: it is the first match in its
/// file.
pub fn starts_file(results: &TextResults, index: usize) -> (answer: bool)
    requires
        index < results.hits@.len(),
    ensures
        answer == (index == 0 || !same_path(
            results.hits@[index - 1].path@,
            results.hits@[index as int].path@,
        )),
{
    index == 0 || !crate::paths::same(&results.hits[index - 1].path, &results.hits[index].path)
}

/// The row of a match: its line number and what is shown of the line.
pub fn text_row(hit: &TextHit) -> (text: String)
    ensures
        text@ == padded_left(decimal_text(hit.line as nat), 5) + "  "@ + hit.preview@,
{
    join3(&pad_left(&decimal(hit.line as u64), 5), "  ", &hit.preview)
}

/// The row of a symbol: its kind, its name, where it stands and its file.
pub open spec fn symbol_row_text(symbol: SymbolHit) -> Seq<char> {
    let head = padded_right(symbol_label_of(symbol.kind), 8) + " "@ + symbol.name@;
    let place = match symbol.container {
        Some(container) => if container@.len() > 0 {
            "   ("@ + container@ + ")"@
        } else {
            Seq::empty()
        },
        None => Seq::empty(),
    };
    head + place + ("   "@ + symbol.path@)
}

/// The row of a symbol.
pub fn symbol_row(symbol: &SymbolHit) -> (text: String)
    ensures
        text@ == symbol_row_text(*symbol),
{
    let kind = pad_right(symbol_kind_label(symbol.kind), 8);
    let head = join3(&kind, " ", &symbol.name);
    let place: String = match &symbol.container {
        Some(container) => if container.as_str().is_empty() {
            String::new()
        } else {
            join3("   (", container, ")")
        },
        None => String::new(),
    };
    let tail = join2("   ", &symbol.path);
    let text = join3(&head, &place, &tail);
    assert(text@ =~= symbol_row_text(*symbol));
    text
}

/// Where a line matches, told by the line as it is compared: in lowercase with the text
/// that is looked for, unless letter case counts. It matches exactly if that text stands
/// somewhere on it, and, where whole words are asked for, whatever becomes of letter case,
/// stands there with no letter, digit or underscore right before or right behind it. The
/// match is the first such place.
pub proof fn law_match_is_the_first_place_of_the_text(
    line: Seq<char>,
    query: SearchQuery,
    hay: Seq<char>,
    needle: Seq<char>,
    k: int,
)
    requires
        query.case_sensitive ==> hay == line && needle == query.text@,
        !query.case_sensitive ==> hay == unicode_lowercase(line) && needle == unicode_lowercase(
            query.text@,
        ),
    ensures
        ({
            let fits = |at: int|
                {
                    let end = at + needle.len();
                    &&& 0 <= at && end <= hay.len()
                    &&& hay.subrange(at, end) == needle
                    &&& query.whole_word ==> {
                        &&& at == 0 || !(alphanumeric(hay[at - 1]) || hay[at - 1] == '_')
                        &&& end == hay.len() || !(alphanumeric(hay[end]) || hay[end] == '_')
                    }
                };
            &&& fits(k) ==> found_at(line, query) is Some && found_at(line, query)->0 <= k
            &&& found_at(line, query) is Some ==> fits(found_at(line, query)->0)
        }),
{
    lemma_first_hit(hay, needle, query.whole_word, 0);
    if 0 <= k && k + needle.len() <= hay.len() && hay.subrange(k, k + needle.len()) =~= needle {
        assert(occurs_at(hay, needle, k));
        assert(hit_at(hay, needle, query.whole_word, k) == (query.whole_word ==> bounded(
            hay,
            k,
            k + needle.len(),
        )));
    }
}

proof fn lemma_first_hit(hay: Seq<char>, needle: Seq<char>, whole: bool, from: int)
    ensures
        match first_hit(hay, needle, whole, from) {
            Some(at) => from <= at && hit_at(hay, needle, whole, at) && forall|k: int|
                from <= k < at ==> !#[trigger] hit_at(hay, needle, whole, k),
            None => forall|k: int| from <= k ==> !#[trigger] hit_at(hay, needle, whole, k),
        },
    decreases hay.len() + 1 - from,
{
    if from <= hay.len() && !hit_at(hay, needle, whole, from) {
        lemma_first_hit(hay, needle, whole, from + 1);
    }
}

/// A match says where it is: the file, the number of the line counted from one, and the
/// place of the first match on it, also counted from one. What it shows is the line
/// without the white space in front, cut after two hundred characters.
pub proof fn law_hit_tells_where_it_is(
    hit: HitView,
    path: Seq<char>,
    number: int,
    line: Seq<char>,
    query: SearchQuery,
) -> (from: int)
    requires
        is_hit_of(hit, path, number, line, query),
        0 <= number <= u32::MAX,
        line.len() < u32::MAX,
        unicode_lowercase(line).len() < u32::MAX,
    ensures
        hit.path == path,
        hit.line == number,
        found_at(line, query) is Some,
        hit.col == found_at(line, query)->0 + 1,
        0 <= from <= line.len(),
        forall|i: int| #![trigger line[i]] 0 <= i < from ==> white_space(line[i]),
        from < line.len() ==> !white_space(line[from]),
        line.len() - from <= 200 ==> hit.preview == line.skip(from),
        line.len() - from > 200 ==> hit.preview == line.subrange(from, from + 200),
{
    let hay = folded(line, query.case_sensitive);
    let needle = folded(query.text@, query.case_sensitive);
    law_match_is_the_first_place_of_the_text(line, query, hay, needle, 0);
    let from = law_trimming_takes_the_white_space_at_the_ends(line);
    let start = trim_start_of(line);
    assert(start == line.skip(from));
    if start.len() > 200 {
        assert(start.take(200) =~= line.subrange(from, from + 200));
    }
    lemma_front_is_white(line, from);
    from
}

proof fn lemma_front_is_white(line: Seq<char>, from: int)
    requires
        0 <= from <= line.len(),
        trim_start_of(line) == line.skip(from),
    ensures
        forall|i: int| #![trigger line[i]] 0 <= i < from ==> white_space(line[i]),
        from < line.len() ==> !white_space(line[from]),
    decreases line.len(),
{
    if line.len() > 0 && white_space(line[0]) {
        let rest = line.drop_first();
        if from == 0 {
            lemma_trimmed_is_shorter(rest);
            assert(line.skip(0).len() == line.len());
        } else {
            assert(rest.skip(from - 1) =~= line.skip(from));
            lemma_front_is_white(rest, from - 1);
            assert forall|i: int| #![trigger line[i]] 0 <= i < from implies white_space(
                line[i],
            ) by {
                if i > 0 {
                    assert(rest[i - 1] == line[i]);
                }
            }
            if from < line.len() {
                assert(rest[from - 1] == line[from]);
            }
        }
    } else {
        assert(line.skip(from).len() == line.len() - from);
    }
}

proof fn lemma_trimmed_is_shorter(text: Seq<char>)
    ensures
        trim_start_of(text).len() <= text.len(),
    decreases text.len(),
{
    if text.len() > 0 && white_space(text[0]) {
        lemma_trimmed_is_shorter(text.drop_first());
    }
}

/// Which files are looked into: those whose extension, in whatever letter case, is one of
/// the source files'. Directories with build products, of version control and of the
/// editor are left out, and no others. What has a zero among its first bytes is no text.
pub proof fn law_source_files_are_looked_into(name: Seq<char>, bytes: Seq<u8>)
    ensures
        searchable(name) <==> extension_of(name) is Some && ({
            let kind = ascii_lowercase_of(extension_of(name)->0);
            ||| kind == "rs"@
            ||| kind == "toml"@
            ||| kind == "ron"@
            ||| kind == "wgsl"@
            ||| kind == "glsl"@
            ||| kind == "md"@
            ||| kind == "txt"@
            ||| kind == "json"@
        }),
        skipped_dir(name) <==> name == "target"@ || name == ".git"@ || name == ".studio"@,
        binary(bytes) <==> exists|i: int| 0 <= i < bytes.len() && i < 1024 && #[trigger] bytes[i] == 0,
{
}

/// What a directory holds is looked at down to twenty-four directories, one below the other,
/// and no further.
pub proof fn law_search_goes_so_deep(
    project: ProjectView,
    dir: Seq<char>,
    depth: nat,
    path: Seq<char>,
)
    ensures
        depth >= 24 ==> !looked_into(project, dir, depth, path),
        depth < 24 ==> (looked_into(project, dir, depth, path) <==> exists|item: SearchItem|
            {
                &&& #[trigger] (project.items)(dir).contains(item)
                &&& item.is_dir ==> !skipped_dir(item.name@) && looked_into(
                    project,
                    join_of(dir, item.name@),
                    depth + 1,
                    path,
                )
                &&& !item.is_dir ==> searchable(item.name@) && path == join_of(dir, item.name@)
            }),
{
    if depth < 24 {
        if looked_into(project, dir, depth, path) {
            let item = choose|item: SearchItem| #[trigger]
                (project.items)(dir).contains(item) && leads_to(project, dir, depth, item, path);
            assert((project.items)(dir).contains(item));
        }
    }
}

/// Where found lines come from, told by the files: a match is that of one of the lines of a
/// file that is looked into, that is text and has no zero among its first bytes. Lines and
/// columns are counted from one.
pub proof fn law_found_lines_are_lines_of_files<
    L: Fn(&str) -> Vec<SearchItem>,
    R: Fn(&str) -> Option<Vec<u8>>,
>(
    project: ProjectView,
    results: ResultsView,
    query: SearchQuery,
    limit: nat,
    list: &L,
    read: &R,
    hit: HitView,
) -> (k: int)
    requires
        walked(Seq::empty(), 0, nothing_found(), results, query, limit, list, read),
        tells(project, list, read),
        results.hits.contains(hit),
    ensures
        looked_into(project, Seq::empty(), 0, hit.path),
        (project.bytes)(hit.path) is Some,
        ({
            let bytes = (project.bytes)(hit.path)->0;
            let lines = lines_of(decode_utf8(bytes));
            &&& valid_utf8(bytes)
            &&& forall|i: int| 0 <= i < bytes.len() && i < 1024 ==> #[trigger] bytes[i] != 0
            &&& 0 <= k < lines.len()
            &&& hit.line == (k + 1) as u32
            &&& found_at(lines[k], query) is Some
            &&& hit.col == (found_at(lines[k], query)->0 + 1) as u32
        }),
{
    law_search_finds_the_matching_lines(project, results, query, limit, list, read, hit);
    let bytes = (project.bytes)(hit.path)->0;
    let lines = lines_of(decode_utf8(bytes));
    let k = choose|k: int|
        0 <= k < lines.len() && is_hit_of(hit, hit.path, k + 1, #[trigger] lines[k], query);
    k
}

/// Every matching line of a file that is looked into is found, unless there are too many.
pub proof fn law_every_matching_line_is_found<
    L: Fn(&str) -> Vec<SearchItem>,
    R: Fn(&str) -> Option<Vec<u8>>,
>(
    project: ProjectView,
    results: ResultsView,
    query: SearchQuery,
    limit: nat,
    list: &L,
    read: &R,
    path: Seq<char>,
    k: int,
) -> (at: int)
    requires
        walked(Seq::empty(), 0, nothing_found(), results, query, limit, list, read),
        tells(project, list, read),
        !results.truncated,
        looked_into(project, Seq::empty(), 0, path),
        (project.bytes)(path) is Some,
        valid_utf8((project.bytes)(path)->0),
        forall|i: int|
            0 <= i < (project.bytes)(path)->0.len() && i < 1024 ==> #[trigger] (project.bytes)(
                path,
            )->0[i] != 0,
        0 <= k < lines_of(decode_utf8((project.bytes)(path)->0)).len(),
        found_at(lines_of(decode_utf8((project.bytes)(path)->0))[k], query) is Some,
    ensures
        0 <= at < results.hits.len(),
        results.hits[at].path == path,
        results.hits[at].line == (k + 1) as u32,
{
    let lines = lines_of(decode_utf8((project.bytes)(path)->0));
    let hit = HitView {
        path,
        line: (k + 1) as u32,
        col: (found_at(lines[k], query)->0 + 1) as u32,
        preview: preview_of(lines[k]),
    };
    assert(is_hit_of(hit, path, k + 1, lines[k], query));
    law_search_finds_the_matching_lines(project, results, query, limit, list, read, hit);
    results.hits.index_of(hit)
}

/// What the kinds of symbols are called; a kind without a name of its own is a symbol.
pub proof fn law_symbols_are_labelled(kind: u8)
    ensures
        kind == 2 ==> symbol_label_of(kind) == "mod"@,
        kind == 5 ==> symbol_label_of(kind) == "class"@,
        kind == 6 ==> symbol_label_of(kind) == "method"@,
        kind == 7 ==> symbol_label_of(kind) == "property"@,
        kind == 8 ==> symbol_label_of(kind) == "field"@,
        kind == 9 ==> symbol_label_of(kind) == "ctor"@,
        kind == 10 ==> symbol_label_of(kind) == "enum"@,
        kind == 11 ==> symbol_label_of(kind) == "trait"@,
        kind == 12 ==> symbol_label_of(kind) == "fn"@,
        kind == 13 ==> symbol_label_of(kind) == "var"@,
        kind == 14 ==> symbol_label_of(kind) == "const"@,
        kind == 22 ==> symbol_label_of(kind) == "variant"@,
        kind == 23 ==> symbol_label_of(kind) == "struct"@,
        kind == 24 ==> symbol_label_of(kind) == "event"@,
        kind == 26 ==> symbol_label_of(kind) == "type"@,
        kind < 2 || kind == 3 || kind == 4 || 15 <= kind <= 21 || kind == 25 || kind > 26
            ==> symbol_label_of(kind) == "symbol"@,
{
}

/// A symbol is listed by its kind, padded to eight, its name, in brackets what holds it if
/// something does, and its path.
pub proof fn law_symbols_are_listed_by_name(symbol: SymbolHit)
    ensures
        ({
            let head = padded_right(symbol_label_of(symbol.kind), 8) + " "@ + symbol.name@;
            let held = symbol.container is Some && (symbol.container->0)@.len() > 0;
            &&& held ==> symbol_row_text(symbol) == head + "   ("@ + (symbol.container->0)@ + ")"@
                + "   "@ + symbol.path@
            &&& !held ==> symbol_row_text(symbol) == head + "   "@ + symbol.path@
        }),
{
    let head = padded_right(symbol_label_of(symbol.kind), 8) + " "@ + symbol.name@;
    if symbol.container is Some && (symbol.container->0)@.len() > 0 {
        assert(symbol_row_text(symbol) =~= head + "   ("@ + (symbol.container->0)@ + ")"@ + "   "@
            + symbol.path@);
    } else {
        assert(symbol_row_text(symbol) =~= head + "   "@ + symbol.path@);
    }
}

/// A click on a result leads to its file, line and column.
pub proof fn law_clicks_lead_to_the_place(jump: Option<Jump>, path: Seq<char>, line: u32, col: u32)
    requires
        jumps_to(jump, path, line, col),
    ensures
        jump is Some,
        jump->0.path@ == path,
        jump->0.line == line,
        jump->0.col == col,
{
}

/// Matches are listed file by file in the order of their paths, and those of a file in the
/// order of its lines.
pub proof fn law_hits_come_file_by_file<
    L: Fn(&str) -> Vec<SearchItem>,
    R: Fn(&str) -> Option<Vec<u8>>,
>(
    results: ResultsView,
    query: SearchQuery,
    limit: nat,
    list: &L,
    read: &R,
    i: int,
    j: int,
)
    requires
        walked(Seq::empty(), 0, nothing_found(), results, query, limit, list, read),
        tidy(list),
        short(read),
        0 <= i < j < results.hits.len(),
    ensures
        path_before(results.hits[i].path, results.hits[j].path) || same_path(
            results.hits[i].path,
            results.hits[j].path,
        ),
        same_path(results.hits[i].path, results.hits[j].path) ==> results.hits[i].line
            < results.hits[j].line,
{
    law_hits_come_in_order(results, query, limit, list, read, i, j);
    if same_path(results.hits[i].path, results.hits[j].path) {
        lemma_path_order(results.hits[i].path, results.hits[j].path, results.hits[j].path);
        lemma_path_order(results.hits[j].path, results.hits[i].path, results.hits[j].path);
        lemma_path_order(results.hits[i].path, results.hits[i].path, results.hits[j].path);
    }
}

/// A project is told as the host lists its directories and reads its files.
pub proof fn law_project_is_what_the_host_tells<
    L: Fn(&str) -> Vec<SearchItem>,
    R: Fn(&str) -> Option<Vec<u8>>,
>(
    project: ProjectView,
    list: &L,
    read: &R,
    path: &str,
    items: Vec<SearchItem>,
    bytes: Option<Vec<u8>>,
)
    requires
        tells(project, list, read),
    ensures
        list.ensures((path,), items) ==> (project.items)(path@) == items@,
        read.ensures((path,), bytes) && bytes is Some ==> (project.bytes)(path@) == Some(
            (bytes->0)@,
        ),
        read.ensures((path,), bytes) && bytes is None ==> (project.bytes)(path@) is None,
{
    if list.ensures((path,), items) {
        assert(lists(list, path@, items@));
    }
    if read.ensures((path,), bytes) {
        let told = match bytes {
            Some(found) => Some(found@),
            None => None,
        };
        assert(reads(read, path@, told));
    }
}

/// A search ends at its limit: it finds no more, and says so exactly then.
pub proof fn law_search_says_when_it_ends<
    L: Fn(&str) -> Vec<SearchItem>,
    R: Fn(&str) -> Option<Vec<u8>>,
>(results: ResultsView, query: SearchQuery, limit: nat, list: &L, read: &R)
    requires
        walked(Seq::empty(), 0, nothing_found(), results, query, limit, list, read),
        limit > 0,
    ensures
        results.hits.len() <= limit,
        results.truncated <==> results.hits.len() == limit,
{
    law_search_respects_the_limit(
        Seq::empty(),
        0,
        nothing_found(),
        results,
        query,
        limit,
        list,
        read,
    );
}

} // verus!
