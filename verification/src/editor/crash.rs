//! Crash reports of bounded size.

use vstd::prelude::*;
use vstd::utf8::{encode_scalar, encode_utf8};

use crate::text::{from_chars, join2, join3, slice, to_chars};

verus! {

/// The longest report, in bytes.
pub const MAX_REPORT_BYTES: usize = 65_536;

/// The number of bytes that a character takes.
fn width(c: char) -> (bytes: usize)
    ensures
        bytes == encode_scalar(c as u32).len(),
{
    let code: u32 = c as u32;
    if code <= 0x7f {
        1
    } else if code <= 0x7ff {
        2
    } else if code <= 0xffff {
        3
    } else {
        4
    }
}

proof fn lemma_encode_push(text: Seq<char>, c: char)
    ensures
        encode_utf8(text.push(c)).len() == encode_utf8(text).len() + encode_scalar(c as u32).len(),
    decreases text.len(),
{
    if text.len() == 0 {
        assert(text.push(c).drop_first() =~= text);
        assert(text.push(c)[0] == c);
        assert(encode_utf8(text).len() == 0);
    } else {
        lemma_encode_push(text.drop_first(), c);
        assert(text.push(c).drop_first() =~= text.drop_first().push(c));
    }
}

/// Whether `part` is the longest beginning of the text that is not too long.
pub open spec fn longest_part(part: Seq<char>, text: Seq<char>) -> bool {
    &&& part.is_prefix_of(text)
    &&& encode_utf8(part).len() <= MAX_REPORT_BYTES
    &&& part.len() < text.len() ==> encode_utf8(text.take(part.len() as int + 1)).len() > MAX_REPORT_BYTES
}

/// The report cut off where it gets too long, between two characters.
pub fn bounded(report: &str) -> (part: String)
    ensures
        longest_part(part@, report@),
{
    let chars = to_chars(report);
    let mut used: usize = 0;
    let mut end: usize = 0;
    assert(chars@.take(0) =~= Seq::empty());
    while end < chars.len() && used + width(chars[end]) <= MAX_REPORT_BYTES
        invariant
            end <= chars@.len(),
            used <= MAX_REPORT_BYTES,
            used == encode_utf8(chars@.take(end as int)).len(),
        decreases chars@.len() - end,
    {
        proof {
            lemma_encode_push(chars@.take(end as int), chars@[end as int]);
            assert(chars@.take(end + 1) =~= chars@.take(end as int).push(chars@[end as int]));
        }
        used += width(chars[end]);
        end += 1;
    }
    let part = slice(&chars, 0, end);
    proof {
        assert(part@ =~= chars@.take(end as int));
        if end < chars@.len() {
            lemma_encode_push(chars@.take(end as int), chars@[end as int]);
            assert(chars@.take(end + 1) =~= chars@.take(end as int).push(chars@[end as int]));
        }
    }
    from_chars(&part)
}

/// A report in full.
pub open spec fn report_text(
    version: Seq<char>,
    os: Seq<char>,
    arch: Seq<char>,
    info: Seq<char>,
) -> Seq<char> {
    let head = "RustyEngine Studio crash\nversion: "@ + version + "\nos: "@;
    let machine = os + "\narch: "@ + arch;
    let tail = "\n\n"@ + info + "\n"@;
    head + machine + tail
}

/// The report of a crash, cut off where it gets too long.
pub fn crash_report(version: &str, os: &str, arch: &str, info: &str) -> (report: String)
    ensures
        longest_part(report@, report_text(version@, os@, arch@, info@)),
{
    let head = join3("RustyEngine Studio crash\nversion: ", version, "\nos: ");
    let machine = join3(os, "\narch: ", arch);
    let tail = join3("\n\n", info, "\n");
    let full = join2(&join2(&head, &machine), &tail);
    bounded(&full)
}

/// A report is cut so that it takes sixty-four kibibytes at most, and only if the whole would
/// take more: not a character less than fits is kept.
pub proof fn law_reports_are_cut_where_they_must(part: Seq<char>, text: Seq<char>)
    requires
        longest_part(part, text),
    ensures
        part.len() <= text.len(),
        part == text.take(part.len() as int),
        encode_utf8(part).len() <= 65_536,
        part.len() < text.len() ==> encode_utf8(text.take(part.len() as int + 1)).len() > 65_536,
{
}

/// What a report says, line by line: that the editor crashed, its version, the system and the
/// machine it ran on, and after an empty line what went wrong.
pub proof fn law_report_says_where_it_happened(
    version: Seq<char>,
    os: Seq<char>,
    arch: Seq<char>,
    info: Seq<char>,
)
    ensures
        report_text(version, os, arch, info) == "RustyEngine Studio crash\nversion: "@ + version
            + "\nos: "@ + os + "\narch: "@ + arch + "\n\n"@ + info + "\n"@,
{
    assert(report_text(version, os, arch, info) =~= "RustyEngine Studio crash\nversion: "@
        + version + "\nos: "@ + os + "\narch: "@ + arch + "\n\n"@ + info + "\n"@);
}

} // verus!
