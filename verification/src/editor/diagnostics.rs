//! The problems that compilers and language servers report.

use vstd::prelude::*;

use crate::text::{decimal, decimal_text, join2};

verus! {

/// How serious a problem is, the worst first.
#[derive(Debug, Clone, Copy, PartialEq, Eq, Structural, PartialOrd, Ord)]
pub enum Severity {
    /// An error.
    Error,
    /// A warning.
    Warning,
    /// A note or hint.
    Info,
}

impl Severity {
    /// The label in the table.
    pub fn label(self) -> (label: &'static str)
        ensures
            label@ == (match self {
                Severity::Error => "Error"@,
                Severity::Warning => "Warning"@,
                Severity::Info => "Info"@,
            }),
    {
        match self {
            Severity::Error => "Error",
            Severity::Warning => "Warning",
            Severity::Info => "Info",
        }
    }

    /// The color of the label: red, green and blue.
    pub fn color(self) -> (rgb: (u8, u8, u8))
        ensures
            rgb == (match self {
                Severity::Error => (220u8, 80u8, 80u8),
                Severity::Warning => (220u8, 180u8, 80u8),
                Severity::Info => (150u8, 180u8, 220u8),
            }),
    {
        match self {
            Severity::Error => (220, 80, 80),
            Severity::Warning => (220, 180, 80),
            Severity::Info => (150, 180, 220),
        }
    }
}

/// One problem.
#[derive(Debug, PartialEq, Eq)]
pub struct Diagnostic {
    /// How serious it is.
    pub severity: Severity,
    /// Its code, if it has one.
    pub code: Option<String>,
    /// What it says.
    pub message: String,
    /// The file that it points at.
    pub file: Option<String>,
    /// The line in that file, counted from one.
    pub line: Option<u32>,
}

impl Clone for Diagnostic {
    fn clone(&self) -> (copy: Diagnostic)
        ensures
            copy == *self,
    {
        Diagnostic {
            severity: self.severity,
            code: self.code.clone(),
            message: self.message.clone(),
            file: self.file.clone(),
            line: self.line,
        }
    }
}

/// The current problems.
#[derive(Debug)]
pub struct Diagnostics {
    items: Vec<Diagnostic>,
}

impl View for Diagnostics {
    type V = Seq<Diagnostic>;

    closed spec fn view(&self) -> Seq<Diagnostic> {
        self.items@
    }
}

impl Default for Diagnostics {
    fn default() -> (diagnostics: Diagnostics)
        ensures
            diagnostics@ == Seq::<Diagnostic>::empty(),
    {
        Diagnostics::new()
    }
}

impl Diagnostics {
    /// No problems.
    pub fn new() -> (diagnostics: Diagnostics)
        ensures
            diagnostics@ == Seq::<Diagnostic>::empty(),
    {
        Diagnostics { items: Vec::new() }
    }

    /// Replaces all problems.
    pub fn set(&mut self, items: Vec<Diagnostic>)
        ensures
            final(self)@ == items@,
    {
        self.items = items;
    }

    /// Adds a problem.
    pub fn push(&mut self, item: Diagnostic)
        ensures
            final(self)@ == old(self)@.push(item),
    {
        self.items.push(item);
    }

    /// Forgets every problem.
    pub fn clear(&mut self)
        ensures
            final(self)@ == Seq::<Diagnostic>::empty(),
    {
        self.items.clear();
    }

    /// The problems, in order.
    pub fn snapshot(&self) -> (items: Vec<Diagnostic>)
        ensures
            items@ == self@,
    {
        let mut items: Vec<Diagnostic> = Vec::new();
        for i in 0..self.items.len()
            invariant
                items@ == self.items@.take(i as int),
        {
            items.push(self.items[i].clone());
        }
        assert(items@ =~= self.items@);
        items
    }

    /// How many problems there are.
    pub fn len(&self) -> (count: usize)
        ensures
            count == self@.len(),
    {
        self.items.len()
    }

    /// Whether there are no problems.
    pub fn is_empty(&self) -> (answer: bool)
        ensures
            answer == (self@.len() == 0),
    {
        self.len() == 0
    }
}

/// How many problems there are, in words.
pub fn count_text(count: usize) -> (text: String)
    ensures
        text@ == decimal_text(count as nat) + " problems"@,
{
    join2(&decimal(count as u64), " problems")
}

/// The text of the cell for the line number.
pub fn line_cell(diagnostic: &Diagnostic) -> (text: String)
    ensures
        text@ == (match diagnostic.line {
            Some(line) => decimal_text(line as nat),
            None => Seq::empty(),
        }),
{
    match diagnostic.line {
        Some(line) => decimal(line as u64),
        None => {
            let text = String::new();
            assert(text@ =~= Seq::empty());
            text
        },
    }
}

/// Selects the row that was clicked. A row without a file does not react.
pub fn row_clicked(items: &[Diagnostic], index: usize, selected: &mut Option<usize>)
    requires
        index < items@.len(),
    ensures
        *final(selected) == (if items@[index as int].file is Some {
            Some(index)
        } else {
            *old(selected)
        }),
{
    if items[index].file.is_some() {
        *selected = Some(index);
    }
}

/// Forgets every problem, and with them the selected row.
pub fn clear_clicked(diagnostics: &mut Diagnostics, selected: &mut Option<usize>)
    ensures
        final(diagnostics)@ == Seq::<Diagnostic>::empty(),
        *final(selected) == None::<usize>,
{
    diagnostics.clear();
    *selected = None;
}

} // verus!
