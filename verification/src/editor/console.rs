//! The console: the newest log lines, and which of them are shown.

use std::collections::VecDeque;
use vstd::prelude::*;

use crate::recent::{keep, kept, law_newest_are_kept, newest};
use crate::text::{
    contains, contains_text, decimal, decimal_text, from_chars, join2, join3, joined_by, lowercase,
    same, to_chars, unicode_lowercase, views,
};

verus! {

/// How many lines are kept.
pub const MAX_LINES: usize = 500;

/// How serious a log line is.
#[derive(Debug, Clone, Copy, PartialEq, Eq, Structural)]
pub enum Level {
    /// An error.
    Error,
    /// A warning.
    Warn,
    /// Information.
    Info,
    /// For debugging.
    Debug,
    /// For tracing.
    Trace,
}

impl Level {
    /// Its place, the most serious first.
    pub open spec fn rank(self) -> int {
        match self {
            Level::Error => 0,
            Level::Warn => 1,
            Level::Info => 2,
            Level::Debug => 3,
            Level::Trace => 4,
        }
    }

    /// The level as it is written.
    pub open spec fn text(self) -> Seq<char> {
        match self {
            Level::Error => "ERROR"@,
            Level::Warn => "WARN"@,
            Level::Info => "INFO"@,
            Level::Debug => "DEBUG"@,
            Level::Trace => "TRACE"@,
        }
    }

    /// The level as it is written.
    pub fn name(self) -> (name: &'static str)
        ensures
            name@ == self.text(),
    {
        match self {
            Level::Error => "ERROR",
            Level::Warn => "WARN",
            Level::Info => "INFO",
            Level::Debug => "DEBUG",
            Level::Trace => "TRACE",
        }
    }

    /// The color in which the level is shown: red, green and blue.
    pub fn color(self) -> (rgb: (u8, u8, u8))
        ensures
            rgb == (match self {
                Level::Error => (220u8, 80u8, 80u8),
                Level::Warn => (220u8, 180u8, 80u8),
                Level::Info => (200u8, 200u8, 200u8),
                Level::Debug => (120u8, 160u8, 220u8),
                Level::Trace => (140u8, 140u8, 140u8),
            }),
    {
        match self {
            Level::Error => (220, 80, 80),
            Level::Warn => (220, 180, 80),
            Level::Info => (200, 200, 200),
            Level::Debug => (120, 160, 220),
            Level::Trace => (140, 140, 140),
        }
    }

    fn place(self) -> (place: u8)
        ensures
            place == self.rank(),
    {
        match self {
            Level::Error => 0,
            Level::Warn => 1,
            Level::Info => 2,
            Level::Debug => 3,
            Level::Trace => 4,
        }
    }
}

/// One log line.
#[derive(Debug, PartialEq, Eq)]
pub struct ConsoleLine {
    /// How serious it is.
    pub level: Level,
    /// Where it comes from.
    pub target: String,
    /// What it says.
    pub message: String,
}

impl Clone for ConsoleLine {
    fn clone(&self) -> (copy: ConsoleLine)
        ensures
            copy == *self,
    {
        ConsoleLine {
            level: self.level,
            target: self.target.clone(),
            message: self.message.clone(),
        }
    }
}

/// The least serious level that is shown.
#[derive(Debug, Clone, Copy, PartialEq, Eq, Structural)]
pub enum LevelFilter {
    /// Errors only.
    Error,
    /// Warnings and errors.
    Warn,
    /// Information and all that is more serious.
    Info,
    /// All but tracing.
    Debug,
    /// Everything.
    Trace,
}

impl Default for LevelFilter {
    fn default() -> (filter: LevelFilter)
        ensures
            filter == LevelFilter::Info,
    {
        LevelFilter::Info
    }
}

impl LevelFilter {
    /// All filters, the strictest first.
    pub const ALL: [LevelFilter; 5] = [
        LevelFilter::Error,
        LevelFilter::Warn,
        LevelFilter::Info,
        LevelFilter::Debug,
        LevelFilter::Trace,
    ];

    /// The label in the level picker.
    pub fn label(self) -> (label: &'static str)
        ensures
            label@ == (match self {
                LevelFilter::Error => "Error"@,
                LevelFilter::Warn => "Warn"@,
                LevelFilter::Info => "Info"@,
                LevelFilter::Debug => "Debug"@,
                LevelFilter::Trace => "Trace"@,
            }),
    {
        match self {
            LevelFilter::Error => "Error",
            LevelFilter::Warn => "Warn",
            LevelFilter::Info => "Info",
            LevelFilter::Debug => "Debug",
            LevelFilter::Trace => "Trace",
        }
    }

    /// The place of the least serious level that passes.
    pub open spec fn rank(self) -> int {
        match self {
            LevelFilter::Error => 0,
            LevelFilter::Warn => 1,
            LevelFilter::Info => 2,
            LevelFilter::Debug => 3,
            LevelFilter::Trace => 4,
        }
    }

    fn place(self) -> (place: u8)
        ensures
            place == self.rank(),
    {
        match self {
            LevelFilter::Error => 0,
            LevelFilter::Warn => 1,
            LevelFilter::Info => 2,
            LevelFilter::Debug => 3,
            LevelFilter::Trace => 4,
        }
    }

    /// Whether a line at the level passes.
    pub fn allows(self, level: Level) -> (answer: bool)
        ensures
            answer == (level.rank() <= self.rank()),
    {
        level.place() <= self.place()
    }
}

/// Which lines the console shows. The filter has no part in which lines are kept.
#[derive(Debug)]
pub struct ConsoleFilter {
    /// The least serious level that is shown.
    pub min_level: LevelFilter,
    /// What the message or the target must hold, in any letter case; empty for
    /// every line.
    pub search: String,
}

impl Default for ConsoleFilter {
    fn default() -> (filter: ConsoleFilter)
        ensures
            filter.min_level == LevelFilter::Info,
            filter.search@.len() == 0,
    {
        ConsoleFilter { min_level: LevelFilter::Info, search: String::new() }
    }
}

impl ConsoleFilter {
    /// Whether the line passes.
    pub open spec fn passes(self, line: ConsoleLine) -> bool {
        &&& line.level.rank() <= self.min_level.rank()
        &&& self.search@.len() == 0 || ({
            let needle = unicode_lowercase(self.search@);
            contains_text(unicode_lowercase(line.message@), needle) || contains_text(
                unicode_lowercase(line.target@),
                needle,
            )
        })
    }

    /// Whether the line is shown.
    pub fn matches(&self, line: &ConsoleLine) -> (answer: bool)
        ensures
            answer == self.passes(*line),
    {
        if !self.min_level.allows(line.level) {
            return false;
        }
        if self.search.as_str().is_empty() {
            return true;
        }
        let needle = lowercase(&self.search);
        contains(&lowercase(&line.message), &needle) || contains(&lowercase(&line.target), &needle)
    }
}

/// The newest log lines.
#[derive(Debug)]
pub struct ConsoleLog {
    lines: VecDeque<ConsoleLine>,
}

impl View for ConsoleLog {
    type V = Seq<ConsoleLine>;

    closed spec fn view(&self) -> Seq<ConsoleLine> {
        self.lines@
    }
}

impl Default for ConsoleLog {
    fn default() -> (log: ConsoleLog)
        ensures
            log@ == Seq::<ConsoleLine>::empty(),
    {
        ConsoleLog::new()
    }
}

impl ConsoleLog {
    /// No more lines are kept than allowed.
    #[verifier::type_invariant]
    spec fn bounded(&self) -> bool {
        self.lines@.len() <= MAX_LINES
    }

    /// An empty log.
    pub fn new() -> (log: ConsoleLog)
        ensures
            log@ == Seq::<ConsoleLine>::empty(),
    {
        ConsoleLog { lines: VecDeque::new() }
    }

    /// The lines, the oldest first.
    pub fn snapshot(&self) -> (lines: Vec<ConsoleLine>)
        ensures
            lines@ == self@,
            lines@.len() <= MAX_LINES,
    {
        proof {
            use_type_invariant(self);
        }
        let mut lines: Vec<ConsoleLine> = Vec::new();
        let count: usize = self.lines.len();
        for i in 0..count
            invariant
                count == self.lines@.len(),
                lines@ == self.lines@.take(i as int),
        {
            lines.push(self.lines[i].clone());
        }
        lines
    }

    /// Forgets every line.
    pub fn clear(&mut self)
        ensures
            final(self)@ == Seq::<ConsoleLine>::empty(),
    {
        self.lines = VecDeque::new();
    }

    /// Adds a line; the oldest is forgotten where there are too many.
    pub fn push(&mut self, line: ConsoleLine)
        ensures
            final(self)@ == kept(old(self)@, line, MAX_LINES as nat),
            final(self)@.len() <= MAX_LINES,
    {
        proof {
            use_type_invariant(&*self);
        }
        let mut lines: VecDeque<ConsoleLine> = VecDeque::new();
        std::mem::swap(&mut self.lines, &mut lines);
        keep(&mut lines, line, MAX_LINES);
        self.lines = lines;
    }
}

/// The console holds the newest lines of all that were logged since it was cleared.
pub proof fn law_console_holds_the_newest_lines(logged: Seq<ConsoleLine>, line: ConsoleLine)
    ensures
        kept(newest(logged, MAX_LINES as nat), line, MAX_LINES as nat) == newest(
            logged.push(line),
            MAX_LINES as nat,
        ),
        newest(logged, MAX_LINES as nat).len() <= MAX_LINES,
{
    law_newest_are_kept(logged, line, MAX_LINES as nat);
}

/// Appends to a log what it observes.
#[derive(Debug)]
pub struct ConsoleLayer {
    log: ConsoleLog,
}

impl ConsoleLayer {
    /// The lines observed.
    pub closed spec fn observed(&self) -> Seq<ConsoleLine> {
        self.log@
    }

    /// Appends to the log.
    pub fn new(log: ConsoleLog) -> (layer: ConsoleLayer)
        ensures
            layer.observed() == log@,
    {
        ConsoleLayer { log }
    }

    /// Appends one event.
    pub fn on_event(&mut self, level: Level, target: &str, parts: &MessageParts)
        ensures
            ({
                let line = final(self).observed().last();
                &&& line.level == level
                &&& line.target@ == target@
                &&& line.message@ == parts.joined()
                &&& final(self).observed() == kept(old(self).observed(), line, MAX_LINES as nat)
            }),
    {
        let line = ConsoleLine { level, target: target.to_owned(), message: parts.text() };
        self.log.push(line);
    }

    /// The log.
    pub fn log(&self) -> (log: &ConsoleLog)
        ensures
            log@ == self.observed(),
    {
        &self.log
    }

    /// Forgets every line.
    pub fn clear(&mut self)
        ensures
            final(self).observed() == Seq::<ConsoleLine>::empty(),
    {
        self.log.clear();
    }
}

/// The fields of an event, collected one after the other.
#[derive(Debug)]
pub struct MessageParts {
    /// The main text.
    pub message: String,
    /// The other fields.
    pub fields: String,
}

impl Default for MessageParts {
    fn default() -> (parts: MessageParts)
        ensures
            parts.message@.len() == 0,
            parts.fields@.len() == 0,
    {
        MessageParts { message: String::new(), fields: String::new() }
    }
}

/// Two texts with a space between, or the one that is not empty.
pub open spec fn spaced(a: Seq<char>, b: Seq<char>) -> Seq<char> {
    if a.len() == 0 {
        b
    } else if b.len() == 0 {
        a
    } else {
        a + " "@ + b
    }
}

fn join_spaced(a: &str, b: &str) -> (text: String)
    ensures
        text@ == spaced(a@, b@),
{
    if a.is_empty() {
        b.to_owned()
    } else if b.is_empty() {
        a.to_owned()
    } else {
        join3(a, " ", b)
    }
}

impl MessageParts {
    /// The main text followed by the other fields.
    pub open spec fn joined(self) -> Seq<char> {
        spaced(self.message@, self.fields@)
    }

    /// Takes one field: the one named `message` is the main text, any other is
    /// written as its name and its value.
    pub fn record(&mut self, name: &str, value: &str)
        ensures
            name@ == "message"@ ==> final(self).message@ == value@ && final(self).fields@ == old(
                self,
            ).fields@,
            name@ != "message"@ ==> final(self).message@ == old(self).message@
                && final(self).fields@ == spaced(old(self).fields@, name@ + "="@ + value@),
    {
        if same(name, "message") {
            self.message = value.to_owned();
        } else {
            let field = join3(name, "=", value);
            self.fields = join_spaced(&self.fields, &field);
        }
    }

    /// The main text followed by the other fields.
    pub fn text(&self) -> (text: String)
        ensures
            text@ == self.joined(),
    {
        join_spaced(&self.message, &self.fields)
    }
}

/// The lines that pass the filter, by their positions among the first `n`.
pub open spec fn shown_among(lines: Seq<ConsoleLine>, filter: ConsoleFilter, n: nat) -> Seq<usize>
    decreases n,
{
    if n == 0 {
        Seq::empty()
    } else {
        let rest = shown_among(lines, filter, (n - 1) as nat);
        if filter.passes(lines[n - 1]) {
            rest.push((n - 1) as usize)
        } else {
            rest
        }
    }
}

/// The lines that pass the filter, by their positions, in order.
pub fn shown(lines: &[ConsoleLine], filter: &ConsoleFilter) -> (rows: Vec<usize>)
    ensures
        rows@ == shown_among(lines@, *filter, lines@.len()),
{
    let mut rows: Vec<usize> = Vec::new();
    for i in 0..lines.len()
        invariant
            rows@ == shown_among(lines@, *filter, i as nat),
    {
        if filter.matches(&lines[i]) {
            rows.push(i);
        }
    }
    rows
}

/// How many lines are shown of how many.
pub fn count_text(shown: usize, total: usize) -> (text: String)
    ensures
        text@ == decimal_text(shown as nat) + " / "@ + decimal_text(total as nat),
{
    join3(&decimal(shown as u64), " / ", &decimal(total as u64))
}

/// A line as it is copied.
pub open spec fn copied_line(line: ConsoleLine) -> Seq<char> {
    "["@ + line.level.text() + "] "@ + (line.target@ + " "@ + line.message@)
}

/// The first `n` of the shown lines as they are copied, one below the other.
pub open spec fn copied_lines(lines: Seq<ConsoleLine>, rows: Seq<usize>, n: nat) -> Seq<char>
    decreases n,
{
    if n == 0 {
        Seq::empty()
    } else if n == 1 {
        copied_line(lines[rows[0] as int])
    } else {
        copied_lines(lines, rows, (n - 1) as nat) + "\n"@ + copied_line(
            lines[rows[n - 1] as int],
        )
    }
}

/// The shown lines as they are copied, one below the other.
pub fn copy_text(lines: &[ConsoleLine], rows: &[usize]) -> (text: String)
    requires
        forall|i: int| #![trigger rows@[i]] 0 <= i < rows@.len() ==> rows@[i] < lines@.len(),
    ensures
        text@ == copied_lines(lines@, rows@, rows@.len()),
{
    let mut text = String::new();
    assert(text@ =~= Seq::empty());
    for i in 0..rows.len()
        invariant
            forall|i: int| #![trigger rows@[i]] 0 <= i < rows@.len() ==> rows@[i] < lines@.len(),
            text@ == copied_lines(lines@, rows@, i as nat),
    {
        let line = &lines[rows[i]];
        let head = join3("[", line.level.name(), "] ");
        let tail = join3(&line.target, " ", &line.message);
        let row = join2(&head, &tail);
        text = if i == 0 {
            row
        } else {
            join3(&text, "\n", &row)
        };
    }
    text
}

/// The parts of a target between double colons.
pub open spec fn scope_parts(target: Seq<char>) -> Seq<Seq<char>>
    decreases target.len(),
{
    if target.len() < 2 {
        seq![target]
    } else if target[0] == ':' && target[1] == ':' {
        seq![Seq::<char>::empty()] + scope_parts(target.skip(2))
    } else {
        let rest = scope_parts(target.skip(1));
        rest.update(0, seq![target[0]] + rest[0])
    }
}

proof fn lemma_scope_parts(target: Seq<char>)
    ensures
        scope_parts(target).len() > 0,
    decreases target.len(),
{
    if target.len() >= 2 {
        if target[0] == ':' && target[1] == ':' {
            lemma_scope_parts(target.skip(2));
        } else {
            lemma_scope_parts(target.skip(1));
        }
    }
}

/// The last two parts of a target, or the whole of it where it has no more.
pub open spec fn short_form(target: Seq<char>) -> Seq<char> {
    let parts = scope_parts(target);
    if parts.len() <= 2 {
        target
    } else {
        parts[parts.len() - 2] + "::"@ + parts.last()
    }
}

spec fn continued(done: Seq<Seq<char>>, part: Seq<char>, rest: Seq<Seq<char>>) -> Seq<Seq<char>> {
    done + rest.update(0, part + rest[0])
}

/// The last two parts of a target, or the whole of it where it has no more.
pub fn short_target(target: &str) -> (text: String)
    ensures
        text@ == short_form(target@),
{
    let chars = to_chars(target);
    let mut parts: Vec<Vec<char>> = Vec::new();
    let mut part: Vec<char> = Vec::new();
    let mut i: usize = 0;
    proof {
        assert(chars@.skip(0) =~= chars@);
        lemma_scope_parts(chars@);
        let whole = scope_parts(chars@);
        assert(part@ + whole[0] =~= whole[0]);
        assert(whole =~= continued(views(parts@), part@, whole));
    }
    while i < chars.len()
        invariant
            i <= chars@.len(),
            scope_parts(chars@) == continued(
                views(parts@),
                part@,
                scope_parts(chars@.skip(i as int)),
            ),
        decreases chars@.len() - i,
    {
        let ghost before = views(parts@);
        let ghost had = part@;
        let ghost left = chars@.skip(i as int);
        proof {
            lemma_scope_parts(left);
        }
        if i + 1 < chars.len() && chars[i] == ':' && chars[i + 1] == ':' {
            let mut done: Vec<char> = Vec::new();
            std::mem::swap(&mut done, &mut part);
            parts.push(done);
            proof {
                let rest = scope_parts(chars@.skip(i + 2));
                lemma_scope_parts(chars@.skip(i + 2));
                assert(left.skip(2) =~= chars@.skip(i + 2));
                assert(views(parts@) =~= before.push(had));
                assert(part@ + rest[0] =~= rest[0]);
                assert(had + Seq::<char>::empty() =~= had);
                assert(continued(before, had, scope_parts(left)) =~= continued(
                    views(parts@),
                    part@,
                    rest,
                ));
            }
            i += 2;
        } else {
            part.push(chars[i]);
            proof {
                lemma_scope_parts(chars@.skip(i + 1));
                let rest = scope_parts(chars@.skip(i + 1));
                assert(left.skip(1) =~= chars@.skip(i + 1));
                if left.len() < 2 {
                    assert(left =~= seq![left[0]]);
                    assert(chars@.skip(i + 1) =~= Seq::empty());
                    assert(part@ + rest[0] =~= had + left);
                } else {
                    assert(part@ + rest[0] =~= had + (seq![left[0]] + rest[0]));
                }
                assert(continued(before, had, scope_parts(left)) =~= continued(
                    views(parts@),
                    part@,
                    rest,
                ));
            }
            i += 1;
        }
    }
    let ghost last = part@;
    parts.push(part);
    proof {
        assert(chars@.skip(i as int) =~= Seq::empty());
        assert(last + Seq::<char>::empty() =~= last);
        assert(views(parts@) =~= scope_parts(chars@));
    }
    if parts.len() <= 2 {
        target.to_owned()
    } else {
        let a = from_chars(&parts[parts.len() - 2]);
        let b = from_chars(&parts[parts.len() - 1]);
        join3(&a, "::", &b)
    }
}

/// A line is shown exactly if it is at least as serious as the filter asks and, where
/// something is looked for, its message or its target holds that in any letter case.
pub proof fn law_filter_shows_the_serious_lines(filter: ConsoleFilter, line: ConsoleLine)
    ensures
        ({
            let least = filter.min_level;
            let serious = match line.level {
                Level::Error => true,
                Level::Warn => !(least is Error),
                Level::Info => least is Info || least is Debug || least is Trace,
                Level::Debug => least is Debug || least is Trace,
                Level::Trace => least is Trace,
            };
            let sought = unicode_lowercase(filter.search@);
            &&& filter.passes(line) ==> serious
            &&& filter.search@.len() == 0 ==> (filter.passes(line) <==> serious)
            &&& filter.search@.len() > 0 && serious ==> (filter.passes(line) <==> contains_text(
                unicode_lowercase(line.message@),
                sought,
            ) || contains_text(unicode_lowercase(line.target@), sought))
        }),
{
}

/// The rows that are shown are those of the lines that the filter lets through, each once and
/// in their order.
pub proof fn law_shown_rows_pass_the_filter(
    lines: Seq<ConsoleLine>,
    filter: ConsoleFilter,
    row: usize,
    i: int,
    j: int,
)
    requires
        lines.len() <= usize::MAX,
    ensures
        ({
            let rows = shown_among(lines, filter, lines.len());
            &&& rows.contains(row) <==> row < lines.len() && filter.passes(lines[row as int])
            &&& 0 <= i < j < rows.len() ==> rows[i] < rows[j]
        }),
{
    lemma_shown_among(lines, filter, lines.len());
}

proof fn lemma_shown_among(lines: Seq<ConsoleLine>, filter: ConsoleFilter, n: nat)
    requires
        n <= lines.len() <= usize::MAX,
    ensures
        forall|row: usize| #[trigger]
            shown_among(lines, filter, n).contains(row) <==> row < n && filter.passes(
                lines[row as int],
            ),
        forall|i: int|
            0 <= i < shown_among(lines, filter, n).len() ==> #[trigger] shown_among(
                lines,
                filter,
                n,
            )[i] < n,
        forall|i: int, j: int|
            #![trigger shown_among(lines, filter, n)[i], shown_among(lines, filter, n)[j]]
            0 <= i < j < shown_among(lines, filter, n).len() ==> shown_among(lines, filter, n)[i]
                < shown_among(lines, filter, n)[j],
    decreases n,
{
    if n > 0 {
        let m = (n - 1) as nat;
        lemma_shown_among(lines, filter, m);
        let rest = shown_among(lines, filter, m);
        let all = shown_among(lines, filter, n);
        assert forall|row: usize| #[trigger] all.contains(row) <==> row < n && filter.passes(
            lines[row as int],
        ) by {
            if rest.contains(row) {
                assert(all[rest.index_of(row)] == row);
            }
            if row == m && filter.passes(lines[m as int]) {
                assert(all[rest.len() as int] == row);
            }
            if all.contains(row) {
                let k = all.index_of(row);
                if k < rest.len() {
                    assert(rest[k] == row);
                    assert(rest.contains(row));
                }
            }
        }
    }
}

/// The console keeps five hundred lines: a new one is the last, and drives the oldest out
/// once there are so many.
pub proof fn law_console_keeps_five_hundred_lines(
    lines: Seq<ConsoleLine>,
    line: ConsoleLine,
    i: int,
)
    requires
        lines.len() <= 500,
    ensures
        kept(lines, line, MAX_LINES as nat).last() == line,
        lines.len() == 500 ==> kept(lines, line, MAX_LINES as nat).len() == 500,
        lines.len() == 500 && 1 <= i < 500 ==> kept(lines, line, MAX_LINES as nat)[i - 1]
            == lines[i],
        lines.len() < 500 ==> kept(lines, line, MAX_LINES as nat).len() == lines.len() + 1,
        lines.len() < 500 && 0 <= i < lines.len() ==> kept(lines, line, MAX_LINES as nat)[i]
            == lines[i],
{
}

/// A message and its fields are put together with a blank between, where there is both.
pub proof fn law_messages_come_before_their_fields(parts: MessageParts)
    ensures
        parts.message@.len() > 0 && parts.fields@.len() > 0 ==> parts.joined()
            == parts.message@.push(' ') + parts.fields@,
        parts.message@.len() == 0 ==> parts.joined() == parts.fields@,
        parts.fields@.len() == 0 ==> parts.joined() == parts.message@,
{
    reveal_strlit(" ");
    assert(" "@ =~= seq![' ']);
    assert(parts.message@ + " "@ =~= parts.message@.push(' '));
}

/// Copied lines are written one to a line, each with its level in brackets, its target and
/// its message.
pub proof fn law_copied_lines_are_written_one_by_one(
    lines: Seq<ConsoleLine>,
    rows: Seq<usize>,
    n: nat,
)
    requires
        n <= rows.len(),
    ensures
        copied_lines(lines, rows, n) == joined_by(
            Seq::new(
                n,
                |i: int|
                    {
                        let line = lines[rows[i] as int];
                        seq!['['] + line.level.text() + seq![']', ' '] + line.target@ + seq![' ']
                            + line.message@
                    },
            ),
            '\n',
        ),
    decreases n,
{
    let of = |i: int|
        {
            let line = lines[rows[i] as int];
            seq!['['] + line.level.text() + seq![']', ' '] + line.target@ + seq![' ']
                + line.message@
        };
    let parts = Seq::new(n, of);
    if n > 0 {
        let m = (n - 1) as nat;
        law_copied_lines_are_written_one_by_one(lines, rows, m);
        assert(parts.drop_last() =~= Seq::new(m, of));
        let line = lines[rows[m as int] as int];
        reveal_strlit("[");
        reveal_strlit("] ");
        reveal_strlit(" ");
        reveal_strlit("\n");
        assert(copied_line(line) =~= of(m as int));
        assert(parts[m as int] == of(m as int));
        if n > 1 {
            let front = copied_lines(lines, rows, m);
            assert(front + "\n"@ =~= front.push('\n'));
        }
    }
}

/// Texts with a double colon between.
pub open spec fn scoped(parts: Seq<Seq<char>>) -> Seq<char>
    decreases parts.len(),
{
    if parts.len() == 0 {
        Seq::empty()
    } else if parts.len() == 1 {
        parts[0]
    } else {
        parts[0] + seq![':', ':'] + scoped(parts.drop_first())
    }
}

/// A target is taken apart at its double colons: its parts, none of which holds one, with
/// double colons between are the target. Of more than two parts the last two are shown.
pub proof fn law_targets_are_shortened_to_two_parts(target: Seq<char>)
    ensures
        ({
            let parts = scope_parts(target);
            &&& parts.len() > 0
            &&& scoped(parts) == target
            &&& forall|i: int, k: int|
                #![trigger parts[i][k]]
                0 <= i < parts.len() && 0 <= k < parts[i].len() - 1 ==> !(parts[i][k] == ':'
                    && parts[i][k + 1] == ':')
            &&& parts.len() <= 2 ==> short_form(target) == target
            &&& parts.len() > 2 ==> short_form(target) == parts[parts.len() - 2] + seq![':', ':']
                + parts[parts.len() - 1]
        }),
{
    reveal_strlit("::");
    assert("::"@ =~= seq![':', ':']);
    lemma_scopes(target);
}

proof fn lemma_scopes(target: Seq<char>)
    ensures
        ({
            let parts = scope_parts(target);
            &&& parts.len() > 0
            &&& scoped(parts) == target
            &&& forall|i: int, k: int|
                #![trigger parts[i][k]]
                0 <= i < parts.len() && 0 <= k < parts[i].len() - 1 ==> !(parts[i][k] == ':'
                    && parts[i][k + 1] == ':')
            &&& parts[0].len() <= target.len() && parts[0] == target.take(parts[0].len() as int)
        }),
    decreases target.len(),
{
    let parts = scope_parts(target);
    if target.len() < 2 {
        assert(target.take(target.len() as int) =~= target);
    } else if target[0] == ':' && target[1] == ':' {
        let rest = scope_parts(target.skip(2));
        lemma_scopes(target.skip(2));
        assert(parts.drop_first() =~= rest);
        assert(parts[0] == Seq::<char>::empty());
        assert(scoped(parts) =~= seq![':', ':'] + target.skip(2));
        assert(seq![':', ':'] + target.skip(2) =~= target);
        assert(target.take(0) =~= parts[0]);
        assert forall|i: int, k: int|
            #![trigger parts[i][k]]
            0 <= i < parts.len() && 0 <= k < parts[i].len() - 1 implies !(parts[i][k] == ':'
            && parts[i][k + 1] == ':') by {
            if i > 0 {
                assert(parts[i] == rest[i - 1]);
                assert(rest[i - 1][k] == parts[i][k]);
            }
        }
    } else {
        let tail = target.skip(1);
        let rest = scope_parts(tail);
        lemma_scopes(tail);
        let first = seq![target[0]] + rest[0];
        assert(parts == rest.update(0, first));
        assert(parts[0] == first);
        if rest.len() > 1 {
            assert(parts.drop_first() =~= rest.drop_first());
            assert(scoped(parts) =~= seq![target[0]] + scoped(rest));
        } else {
            assert(scoped(parts) == first);
        }
        assert(seq![target[0]] + tail =~= target);
        assert(first =~= target.take(first.len() as int)) by {
            assert forall|k: int| 0 <= k < first.len() implies first[k] == target[k] by {
                if k > 0 {
                    assert(rest[0][k - 1] == tail.take(rest[0].len() as int)[k - 1]);
                }
            }
        }
        assert forall|i: int, k: int|
            #![trigger parts[i][k]]
            0 <= i < parts.len() && 0 <= k < parts[i].len() - 1 implies !(parts[i][k] == ':'
            && parts[i][k + 1] == ':') by {
            if i > 0 {
                assert(parts[i] == rest[i]);
                assert(rest[i][k] == parts[i][k]);
            } else if k > 0 {
                assert(rest[0][k - 1] == parts[0][k]);
                assert(rest[0][(k - 1) + 1] == parts[0][k + 1]);
            } else {
                assert(parts[0][0] == target[0]);
                assert(parts[0][1] == target.take(first.len() as int)[1]);
            }
        }
    }
}

/// What the levels are called in the log.
pub proof fn law_levels_are_named(choice: Level)
    ensures
        choice is Error ==> choice.text() == "ERROR"@,
        choice is Warn ==> choice.text() == "WARN"@,
        choice is Info ==> choice.text() == "INFO"@,
        choice is Debug ==> choice.text() == "DEBUG"@,
        choice is Trace ==> choice.text() == "TRACE"@,
{
}

} // verus!
