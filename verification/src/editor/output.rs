//! The output of builds and tasks.

use std::collections::VecDeque;
use vstd::prelude::*;

use crate::recent::{keep, kept, law_newest_are_kept, newest};
use crate::text::{decimal, decimal_text, from_chars, join2, slice, to_chars};

verus! {

/// How many lines are kept.
pub const MAX_LINES: usize = 2000;

/// The line without the line ends behind it.
pub open spec fn without_line_ends(line: Seq<char>) -> Seq<char>
    decreases line.len(),
{
    if line.len() > 0 && (line.last() == '\n' || line.last() == '\r') {
        without_line_ends(line.drop_last())
    } else {
        line
    }
}

/// The texts of lines.
pub open spec fn texts(lines: Seq<String>) -> Seq<Seq<char>> {
    lines.map_values(|line: String| line@)
}

/// The newest lines of output.
#[derive(Debug)]
pub struct OutputLog {
    lines: VecDeque<String>,
}

impl View for OutputLog {
    type V = Seq<Seq<char>>;

    closed spec fn view(&self) -> Seq<Seq<char>> {
        texts(self.lines@)
    }
}

impl Default for OutputLog {
    fn default() -> (log: OutputLog)
        ensures
            log@ == Seq::<Seq<char>>::empty(),
    {
        OutputLog::new()
    }
}

impl OutputLog {
    /// No more lines are kept than allowed.
    #[verifier::type_invariant]
    spec fn bounded(&self) -> bool {
        self.lines@.len() <= MAX_LINES
    }

    /// No output.
    pub fn new() -> (log: OutputLog)
        ensures
            log@ == Seq::<Seq<char>>::empty(),
    {
        let log = OutputLog { lines: VecDeque::new() };
        assert(log@ =~= Seq::<Seq<char>>::empty());
        log
    }

    /// Adds a line, without the line ends behind it; the oldest is forgotten where
    /// there are too many.
    pub fn write_line(&mut self, line: &str)
        ensures
            final(self)@ == kept(old(self)@, without_line_ends(line@), MAX_LINES as nat),
            final(self)@.len() <= MAX_LINES,
    {
        let chars = to_chars(line);
        let mut end: usize = chars.len();
        assert(chars@.take(end as int) =~= chars@);
        while end > 0 && (chars[end - 1] == '\n' || chars[end - 1] == '\r')
            invariant
                end <= chars@.len(),
                without_line_ends(chars@.take(end as int)) == without_line_ends(chars@),
            decreases end,
        {
            assert(chars@.take(end as int).drop_last() =~= chars@.take(end - 1));
            end -= 1;
        }
        let text = from_chars(&slice(&chars, 0, end));
        assert(text@ =~= chars@.take(end as int));
        let ghost before = self.lines@;
        proof {
            use_type_invariant(&*self);
        }
        let mut lines: VecDeque<String> = VecDeque::new();
        std::mem::swap(&mut self.lines, &mut lines);
        keep(&mut lines, text, MAX_LINES);
        self.lines = lines;
        assert(self@ =~= kept(texts(before), text@, MAX_LINES as nat));
    }

    /// Forgets every line.
    pub fn clear(&mut self)
        ensures
            final(self)@ == Seq::<Seq<char>>::empty(),
    {
        self.lines = VecDeque::new();
        assert(self@ =~= Seq::<Seq<char>>::empty());
    }

    /// The lines, the oldest first.
    pub fn snapshot(&self) -> (lines: Vec<String>)
        ensures
            texts(lines@) == self@,
            lines@.len() <= MAX_LINES,
    {
        proof {
            use_type_invariant(self);
        }
        let mut lines: Vec<String> = Vec::new();
        let count: usize = self.lines.len();
        for i in 0..count
            invariant
                count == self.lines@.len(),
                lines@ == self.lines@.take(i as int),
        {
            lines.push(self.lines[i].clone());
        }
        assert(lines@ =~= self.lines@);
        lines
    }

    /// Whether there is no output.
    pub fn is_empty(&self) -> (answer: bool)
        ensures
            answer == (self@.len() == 0),
    {
        self.lines.len() == 0
    }
}

/// How many lines there are, in words.
pub fn count_text(count: usize) -> (text: String)
    ensures
        text@ == decimal_text(count as nat) + " lines"@,
{
    join2(&decimal(count as u64), " lines")
}

/// The log holds the newest lines of all that were written since it was cleared.
pub proof fn law_output_holds_the_newest_lines(written: Seq<Seq<char>>, line: Seq<char>)
    ensures
        kept(newest(written, MAX_LINES as nat), line, MAX_LINES as nat) == newest(
            written.push(line),
            MAX_LINES as nat,
        ),
        newest(written, MAX_LINES as nat).len() <= MAX_LINES,
{
    law_newest_are_kept(written, line, MAX_LINES as nat);
}

/// What is written holds no line end at its end.
pub proof fn law_no_line_end_is_kept(line: Seq<char>)
    ensures
        without_line_ends(line).is_prefix_of(line),
        without_line_ends(line).len() > 0 ==> without_line_ends(line).last() != '\n'
            && without_line_ends(line).last() != '\r',
    decreases line.len(),
{
    if line.len() > 0 && (line.last() == '\n' || line.last() == '\r') {
        law_no_line_end_is_kept(line.drop_last());
    }
}

/// Only line ends are dropped behind a line, and all of them.
pub proof fn law_only_line_ends_are_dropped(line: Seq<char>, k: int)
    ensures
        without_line_ends(line).len() <= line.len(),
        0 <= k < without_line_ends(line).len() ==> without_line_ends(line)[k] == line[k],
        without_line_ends(line).len() <= k < line.len() ==> line[k] == '\n' || line[k] == '\r',
        without_line_ends(line).len() > 0 ==> {
            let last = line[without_line_ends(line).len() - 1];
            last != '\n' && last != '\r'
        },
    decreases line.len(),
{
    if line.len() > 0 && (line.last() == '\n' || line.last() == '\r') {
        law_only_line_ends_are_dropped(line.drop_last(), k);
    }
}

/// Two thousand lines are kept: a new one is the last, and drives the oldest out once there
/// are so many.
pub proof fn law_output_keeps_two_thousand_lines(
    lines: Seq<Seq<char>>,
    line: Seq<char>,
    i: int,
)
    requires
        lines.len() <= 2000,
    ensures
        kept(lines, line, MAX_LINES as nat).last() == line,
        lines.len() == 2000 ==> kept(lines, line, MAX_LINES as nat).len() == 2000,
        lines.len() == 2000 && 1 <= i < 2000 ==> kept(lines, line, MAX_LINES as nat)[i - 1]
            == lines[i],
        lines.len() < 2000 ==> kept(lines, line, MAX_LINES as nat).len() == lines.len() + 1,
        lines.len() < 2000 && 0 <= i < lines.len() ==> kept(lines, line, MAX_LINES as nat)[i]
            == lines[i],
{
}

} // verus!
