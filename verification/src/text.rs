//! Text as sequences of characters.
//!
//! Strings are handled here one `char` at a time, so that every operation has a
//! plain statement over `Seq<char>`. What Unicode decides (letter case, which
//! characters are letters, digits or white space) comes from the standard
//! library and is named; only of the letters and digits of ASCII is it stated.

use vstd::prelude::*;
use vstd::string::*;
use vstd::utf8::{decode_utf8, valid_utf8};

verus! {

/// `String::push` appends one character at the end of the string.
pub assume_specification[ String::push ](text: &mut String, c: char)
    ensures
        final(text)@ == old(text)@.push(c),
;

/// Whether the character is a letter or a digit of ASCII.
pub open spec fn ascii_alphanumeric(c: char) -> bool {
    ('0' <= c && c <= '9') || ('A' <= c && c <= 'Z') || ('a' <= c && c <= 'z')
}

/// What `str::to_lowercase` returns for a text.
pub uninterp spec fn unicode_lowercase(text: Seq<char>) -> Seq<char>;

/// What `char::is_alphanumeric` answers for a character.
pub uninterp spec fn unicode_alphanumeric(c: char) -> bool;

/// What `char::is_whitespace` answers for a character.
pub uninterp spec fn unicode_whitespace(c: char) -> bool;

/// Whether the character is a letter or a number: the letters and digits of ASCII are,
/// and of the others those that Unicode says.
pub open spec fn alphanumeric(c: char) -> bool {
    ascii_alphanumeric(c) || unicode_alphanumeric(c)
}

/// Whether the character is white space: no letter or digit of ASCII is, and of the
/// others those are that Unicode says.
pub open spec fn white_space(c: char) -> bool {
    !ascii_alphanumeric(c) && unicode_whitespace(c)
}

/// `str::to_lowercase`: the lowercase equivalent of `text`, named
/// [`unicode_lowercase`].
#[verifier::external_body]
pub(crate) fn lowercase(text: &str) -> (lower: String)
    ensures
        lower@ == unicode_lowercase(text@),
{
    text.to_lowercase()
}

/// `char::is_alphanumeric`: whether `c` is a letter or a number, named
/// [`unicode_alphanumeric`]. The letters and digits of ASCII are.
#[verifier::external_body]
pub(crate) fn is_alphanumeric(c: char) -> (answer: bool)
    ensures
        answer == unicode_alphanumeric(c),
        ascii_alphanumeric(c) ==> answer,
{
    c.is_alphanumeric()
}

/// `char::is_whitespace`: whether `c` has the White_Space property, named
/// [`unicode_whitespace`]. No letter or digit of ASCII has it.
#[verifier::external_body]
pub(crate) fn is_whitespace(c: char) -> (answer: bool)
    ensures
        answer == unicode_whitespace(c),
        ascii_alphanumeric(c) ==> !answer,
{
    c.is_whitespace()
}

/// The characters of `text`, in order.
pub fn to_chars(text: &str) -> (chars: Vec<char>)
    ensures
        chars@ == text@,
{
    let mut chars: Vec<char> = Vec::new();
    for c in iter: text.chars()
        invariant
            iter.seq() == text@,
            chars@ == text@.take(iter.index() as int),
    {
        chars.push(c);
    }
    chars
}

/// The text made of `chars`.
pub fn from_chars(chars: &[char]) -> (text: String)
    ensures
        text@ == chars@,
{
    let mut text = String::new();
    for i in 0..chars.len()
        invariant
            text@ == chars@.take(i as int),
    {
        text.push(chars[i]);
    }
    text
}

/// The characters `from..to` of `chars`.
pub fn slice(chars: &[char], from: usize, to: usize) -> (part: Vec<char>)
    requires
        from <= to <= chars.len(),
    ensures
        part@ == chars@.subrange(from as int, to as int),
{
    let mut part: Vec<char> = Vec::new();
    for i in from..to
        invariant
            from <= to <= chars.len(),
            part@ == chars@.subrange(from as int, i as int),
    {
        part.push(chars[i]);
    }
    part
}

/// Whether the two character sequences are the same.
pub fn same_chars(a: &[char], b: &[char]) -> (same: bool)
    ensures
        same == (a@ == b@),
{
    if a.len() != b.len() {
        return false;
    }
    for i in 0..a.len()
        invariant
            a.len() == b.len(),
            forall|j: int| 0 <= j < i ==> a[j] == b[j],
    {
        if a[i] != b[i] {
            return false;
        }
    }
    assert(a@ =~= b@);
    true
}

/// Whether `a` and `b` are the same text.
pub fn same(a: &str, b: &str) -> (same: bool)
    ensures
        same == (a@ == b@),
{
    let a = to_chars(a);
    let b = to_chars(b);
    same_chars(&a, &b)
}

/// The two texts one after the other.
pub fn join2(a: &str, b: &str) -> (text: String)
    ensures
        text@ == a@ + b@,
{
    let mut text = a.to_owned();
    text.append(b);
    text
}

/// The three texts one after the other.
pub fn join3(a: &str, b: &str, c: &str) -> (text: String)
    ensures
        text@ == a@ + b@ + c@,
{
    let mut text = join2(a, b);
    text.append(c);
    text
}

/// The decimal digit `n`.
pub open spec fn digit(n: int) -> char {
    (n + 0x30) as char
}

/// `n` written in decimal, without leading zeros.
pub open spec fn decimal_text(n: nat) -> Seq<char>
    decreases n,
{
    if n < 10 {
        seq![digit(n as int)]
    } else {
        decimal_text(n / 10).push(digit((n % 10) as int))
    }
}

/// `n` written in decimal.
pub fn decimal(n: u64) -> (text: String)
    ensures
        text@ == decimal_text(n as nat),
    decreases n,
{
    let last = ((n % 10) as u8 + 0x30) as char;
    let mut text = if n < 10 {
        String::new()
    } else {
        decimal(n / 10)
    };
    text.push(last);
    text
}

/// The ASCII lowercase of `c`; any other character is itself.
pub open spec fn ascii_lower(c: char) -> char {
    if 'A' <= c <= 'Z' {
        (c as int + 32) as char
    } else {
        c
    }
}

/// `text` with the ASCII capitals made small.
pub open spec fn ascii_lowercase_of(text: Seq<char>) -> Seq<char> {
    text.map_values(|c: char| ascii_lower(c))
}

/// `text` with the ASCII capitals made small.
pub fn ascii_lowercase(text: &str) -> (lower: String)
    ensures
        lower@ == ascii_lowercase_of(text@),
{
    let chars = to_chars(text);
    let mut lower = String::new();
    for i in 0..chars.len()
        invariant
            chars@ == text@,
            lower@ == ascii_lowercase_of(text@.take(i as int)),
    {
        let c = chars[i];
        let small = if 'A' <= c && c <= 'Z' {
            (c as u8 + 32) as char
        } else {
            c
        };
        lower.push(small);
        assert(lower@ =~= ascii_lowercase_of(text@.take(i + 1)));
    }
    assert(text@.take(text@.len() as int) =~= text@);
    lower
}

/// `text` without its leading white space.
pub open spec fn trim_start_of(text: Seq<char>) -> Seq<char>
    decreases text.len(),
{
    if text.len() > 0 && white_space(text[0]) {
        trim_start_of(text.drop_first())
    } else {
        text
    }
}

/// `text` without its trailing white space.
pub open spec fn trim_end_of(text: Seq<char>) -> Seq<char>
    decreases text.len(),
{
    if text.len() > 0 && white_space(text.last()) {
        trim_end_of(text.drop_last())
    } else {
        text
    }
}

/// `text` without its surrounding white space.
pub open spec fn trim_of(text: Seq<char>) -> Seq<char> {
    trim_end_of(trim_start_of(text))
}

/// What trimming leaves is a part of the text that neither begins nor ends with
/// white space.
pub proof fn lemma_trim(text: Seq<char>) -> (from: int)
    ensures
        0 <= from,
        from + trim_of(text).len() <= text.len(),
        trim_of(text) == text.subrange(from, from + trim_of(text).len()),
        trim_of(text).len() > 0 ==> !white_space(trim_of(text)[0]) && !white_space(
            trim_of(text).last(),
        ),
{
    let from = lemma_trim_start(text);
    lemma_trim_end(trim_start_of(text));
    let trimmed = trim_of(text);
    assert(trimmed =~= text.subrange(from, from + trimmed.len()));
    if trimmed.len() > 0 {
        assert(trimmed[0] == trim_start_of(text)[0]);
    }
    from
}

proof fn lemma_trim_start(text: Seq<char>) -> (from: int)
    ensures
        0 <= from <= text.len(),
        trim_start_of(text) == text.skip(from),
        from < text.len() ==> !white_space(text[from]),
    decreases text.len(),
{
    if text.len() > 0 && white_space(text[0]) {
        let from = lemma_trim_start(text.drop_first());
        assert(text.drop_first().skip(from) =~= text.skip(from + 1));
        from + 1
    } else {
        assert(text.skip(0) =~= text);
        0
    }
}

proof fn lemma_trim_end(text: Seq<char>)
    ensures
        trim_end_of(text).len() <= text.len(),
        trim_end_of(text) == text.take(trim_end_of(text).len() as int),
        trim_end_of(text).len() > 0 ==> !white_space(trim_end_of(text).last()),
    decreases text.len(),
{
    if text.len() > 0 && white_space(text.last()) {
        lemma_trim_end(text.drop_last());
        let n = trim_end_of(text).len() as int;
        assert(text.drop_last().take(n) =~= text.take(n));
    } else {
        assert(text.take(text.len() as int) =~= text);
    }
}

/// What neither begins nor ends with white space is left as it is.
pub proof fn lemma_trimmed_stays(text: Seq<char>)
    requires
        text.len() > 0,
        !white_space(text[0]),
        !white_space(text.last()),
    ensures
        trim_of(text) == text,
{
}

/// `chars` without its surrounding white space.
pub fn trim_chars(chars: &[char]) -> (trimmed: Vec<char>)
    ensures
        trimmed@ == trim_of(chars@),
{
    let mut from: usize = 0;
    assert(chars@.skip(0) =~= chars@);
    while from < chars.len() && is_whitespace(chars[from])
        invariant
            from <= chars.len(),
            trim_start_of(chars@) == trim_start_of(chars@.skip(from as int)),
        decreases chars.len() - from,
    {
        assert(chars@.skip(from as int).drop_first() =~= chars@.skip(from + 1));
        from += 1;
    }
    assert(trim_start_of(chars@) == chars@.skip(from as int));
    let mut to: usize = chars.len();
    assert(chars@.subrange(from as int, to as int) =~= chars@.skip(from as int));
    while from < to && is_whitespace(chars[to - 1])
        invariant
            from <= to <= chars.len(),
            trim_start_of(chars@) == chars@.skip(from as int),
            trim_end_of(chars@.skip(from as int)) == trim_end_of(
                chars@.subrange(from as int, to as int),
            ),
        decreases to - from,
    {
        assert(chars@.subrange(from as int, to as int).drop_last() =~= chars@.subrange(
            from as int,
            to - 1,
        ));
        to -= 1;
    }
    slice(chars, from, to)
}

/// `text` without its surrounding white space.
pub fn trim(text: &str) -> (trimmed: String)
    ensures
        trimmed@ == trim_of(text@),
{
    let chars = to_chars(text);
    from_chars(&trim_chars(&chars))
}

/// Whether `needle` stands in `hay` at position `at`.
pub open spec fn occurs_at(hay: Seq<char>, needle: Seq<char>, at: int) -> bool {
    &&& 0 <= at <= hay.len() - needle.len()
    &&& hay.subrange(at, at + needle.len()) == needle
}

/// Whether `needle` stands anywhere in `hay`.
pub open spec fn contains_text(hay: Seq<char>, needle: Seq<char>) -> bool {
    exists|at: int| occurs_at(hay, needle, at)
}

/// Whether `needle` stands in `hay` at position `at`.
pub fn stands_at(hay: &[char], needle: &[char], at: usize) -> (stands: bool)
    ensures
        stands == occurs_at(hay@, needle@, at as int),
{
    if at > hay.len() || hay.len() - at < needle.len() {
        return false;
    }
    for i in 0..needle.len()
        invariant
            at + needle.len() <= hay.len(),
            forall|j: int| 0 <= j < i ==> hay[at + j] == needle[j],
    {
        if hay[at + i] != needle[i] {
            assert(hay@.subrange(at as int, at + needle.len())[i as int] != needle@[i as int]);
            return false;
        }
    }
    assert(hay@.subrange(at as int, at + needle.len()) =~= needle@);
    true
}

/// The first position at or after `from` at which `needle` stands in `hay`.
pub fn find_from(hay: &[char], needle: &[char], from: usize) -> (found: Option<usize>)
    ensures
        match found {
            Some(at) => {
                &&& from <= at
                &&& occurs_at(hay@, needle@, at as int)
                &&& forall|i: int| from <= i < at ==> !occurs_at(hay@, needle@, i)
            },
            None => forall|i: int| from <= i ==> !occurs_at(hay@, needle@, i),
        },
{
    if needle.len() > hay.len() {
        return None;
    }
    let last: usize = hay.len() - needle.len();
    let mut at: usize = from;
    while at <= last
        invariant
            from <= at,
            last == hay.len() - needle.len(),
            forall|i: int| from <= i < at ==> !occurs_at(hay@, needle@, i),
        decreases last + 1 - at,
    {
        if stands_at(hay, needle, at) {
            return Some(at);
        }
        if at == last {
            return None;
        }
        at += 1;
    }
    None
}

/// Whether `needle` stands anywhere in `hay`.
pub fn contains(hay: &str, needle: &str) -> (answer: bool)
    ensures
        answer == contains_text(hay@, needle@),
{
    let hay = to_chars(hay);
    let needle = to_chars(needle);
    find_from(&hay, &needle, 0).is_some()
}

/// Whether `text` begins with `prefix`.
pub fn starts_with(text: &str, prefix: &str) -> (answer: bool)
    ensures
        answer == prefix@.is_prefix_of(text@),
{
    let hay = to_chars(text);
    let needle = to_chars(prefix);
    stands_at(&hay, &needle, 0)
}

/// Whether the character sequence holds `c`.
pub fn holds_char(chars: &[char], c: char) -> (answer: bool)
    ensures
        answer == chars@.contains(c),
{
    for i in 0..chars.len()
        invariant
            forall|j: int| 0 <= j < i ==> chars[j] != c,
    {
        if chars[i] == c {
            assert(chars@[i as int] == c);
            return true;
        }
    }
    false
}

/// `text` cut at every `separator`, which is dropped.
pub open spec fn split_of(text: Seq<char>, separator: char) -> Seq<Seq<char>>
    decreases text.len(),
{
    if text.len() == 0 {
        seq![Seq::empty()]
    } else {
        let rest = split_of(text.drop_last(), separator);
        if text.last() == separator {
            rest.push(Seq::empty())
        } else {
            rest.update(rest.len() - 1, rest.last().push(text.last()))
        }
    }
}

/// Cutting a text leaves at least one part, and no part holds the separator.
pub proof fn lemma_split(text: Seq<char>, separator: char)
    ensures
        split_of(text, separator).len() > 0,
        forall|i: int| #![auto]
            0 <= i < split_of(text, separator).len() ==> !split_of(text, separator)[i].contains(
                separator,
            ),
    decreases text.len(),
{
    if text.len() > 0 {
        lemma_split(text.drop_last(), separator);
        let rest = split_of(text.drop_last(), separator);
        let all = split_of(text, separator);
        assert forall|i: int| 0 <= i < all.len() implies !(#[trigger] all[i]).contains(
            separator,
        ) by {
            if text.last() != separator && i == rest.len() - 1 {
                assert forall|k: int| 0 <= k < all[i].len() implies all[i][k] != separator by {
                    if k < rest.last().len() {
                        assert(rest.last()[k] == all[i][k]);
                        assert(rest[i].contains(rest.last()[k]));
                    }
                }
            }
        }
    }
}

/// The views of the character sequences in `parts`.
pub open spec fn views(parts: Seq<Vec<char>>) -> Seq<Seq<char>> {
    parts.map_values(|part: Vec<char>| part@)
}

/// `chars` cut at every `separator`, which is dropped.
pub fn split(chars: &[char], separator: char) -> (parts: Vec<Vec<char>>)
    ensures
        views(parts@) == split_of(chars@, separator),
        parts.len() > 0,
{
    let mut parts: Vec<Vec<char>> = Vec::new();
    let mut part: Vec<char> = Vec::new();
    proof {
        assert(views(parts@).push(part@) =~= seq![Seq::<char>::empty()]);
    }
    for i in 0..chars.len()
        invariant
            views(parts@).push(part@) == split_of(chars@.take(i as int), separator),
    {
        let c = chars[i];
        let ghost before = views(parts@).push(part@);
        proof {
            assert(chars@.take(i + 1).drop_last() =~= chars@.take(i as int));
            assert(before.last() == part@);
        }
        if c == separator {
            let mut done: Vec<char> = Vec::new();
            std::mem::swap(&mut done, &mut part);
            parts.push(done);
            assert(views(parts@) =~= before);
        } else {
            part.push(c);
            assert(views(parts@).push(part@) =~= before.update(
                before.len() - 1,
                before.last().push(c),
            ));
        }
    }
    assert(chars@.take(chars@.len() as int) =~= chars@);
    let ghost before = views(parts@);
    parts.push(part);
    assert(views(parts@) =~= before.push(part@));
    parts
}

/// `String::from_utf8`: the text that the bytes encode in UTF-8, or `None` where
/// they are no UTF-8.
#[verifier::external_body]
pub(crate) fn decode(bytes: Vec<u8>) -> (text: Option<String>)
    ensures
        match text {
            Some(text) => valid_utf8(bytes@) && text@ == decode_utf8(bytes@),
            None => !valid_utf8(bytes@),
        },
{
    String::from_utf8(bytes).ok()
}

/// The line without the carriage return at its end.
pub open spec fn without_return(line: Seq<char>) -> Seq<char> {
    if line.len() > 0 && line.last() == '\r' {
        line.drop_last()
    } else {
        line
    }
}

/// The lines of a text. A line ends with a newline, before which a carriage return
/// may stand; the end of the last line is optional.
pub open spec fn lines_of(text: Seq<char>) -> Seq<Seq<char>> {
    let parts = split_of(text, '\n');
    let ended = parts.drop_last().map_values(|line: Seq<char>| without_return(line));
    if parts.last().len() == 0 {
        ended
    } else {
        ended.push(parts.last())
    }
}

/// The lines of a text.
pub fn lines(text: &str) -> (lines: Vec<Vec<char>>)
    ensures
        views(lines@) == lines_of(text@),
{
    let chars = to_chars(text);
    let mut lines = split(&chars, '\n');
    let ghost parts = views(lines@);
    let last: usize = lines.len() - 1;
    for i in 0..last
        invariant
            last == parts.len() - 1,
            lines@.len() == parts.len(),
            forall|j: int|
                #![trigger lines@[j]]
                0 <= j < i ==> lines@[j]@ == without_return(parts[j]),
            forall|j: int| #![trigger lines@[j]] i <= j < parts.len() ==> lines@[j]@ == parts[j],
    {
        let length: usize = lines[i].len();
        if length > 0 && lines[i][length - 1] == '\r' {
            let shorter = slice(&lines[i], 0, length - 1);
            assert(shorter@ =~= without_return(parts[i as int]));
            lines[i] = shorter;
        }
    }
    let empty: bool = lines[last].len() == 0;
    if empty {
        let _ = lines.pop();
    }
    assert(views(lines@) =~= lines_of(text@));
    lines
}

/// The text with spaces put in front until it is `width` characters long.
pub open spec fn padded_left(text: Seq<char>, width: nat) -> Seq<char>
    decreases width - text.len(),
{
    if text.len() >= width {
        text
    } else {
        padded_left(seq![' '] + text, width)
    }
}

/// The text with spaces put behind until it is `width` characters long.
pub open spec fn padded_right(text: Seq<char>, width: nat) -> Seq<char>
    decreases width - text.len(),
{
    if text.len() >= width {
        text
    } else {
        padded_right(text.push(' '), width)
    }
}

/// The text with spaces put in front until it is `width` characters long.
pub fn pad_left(text: &str, width: usize) -> (padded: String)
    ensures
        padded@ == padded_left(text@, width as nat),
{
    let mut padded = text.to_owned();
    let mut length: usize = to_chars(text).len();
    while length < width
        invariant
            length == padded@.len(),
            padded_left(padded@, width as nat) == padded_left(text@, width as nat),
        decreases width - length,
    {
        let ghost before = padded@;
        padded = join2(" ", &padded);
        proof {
            reveal_strlit(" ");
            assert(padded@ =~= seq![' '] + before);
        }
        length += 1;
    }
    padded
}

/// The text with spaces put behind until it is `width` characters long.
pub fn pad_right(text: &str, width: usize) -> (padded: String)
    ensures
        padded@ == padded_right(text@, width as nat),
{
    let mut padded = text.to_owned();
    let mut length: usize = to_chars(text).len();
    while length < width
        invariant
            length == padded@.len(),
            padded_right(padded@, width as nat) == padded_right(text@, width as nat),
        decreases width - length,
    {
        padded.push(' ');
        length += 1;
    }
    padded
}

/// The number that digits say, read from the left.
pub open spec fn number_said(digits: Seq<char>) -> int
    decreases digits.len(),
{
    if digits.len() == 0 {
        0
    } else {
        10 * number_said(digits.drop_last()) + (digits.last() as int - 0x30)
    }
}

/// A number is written in decimal digits, which say it when they are read, without a zero
/// in front unless it is zero.
pub proof fn law_written_numbers_read_back(n: nat)
    ensures
        number_said(decimal_text(n)) == n,
        decimal_text(n).len() > 0,
        forall|i: int|
            0 <= i < decimal_text(n).len() ==> '0' <= #[trigger] decimal_text(n)[i] <= '9',
        n > 0 ==> decimal_text(n)[0] != '0',
    decreases n,
{
    let text = decimal_text(n);
    if n < 10 {
        assert(text.drop_last() =~= Seq::<char>::empty());
        assert(number_said(Seq::<char>::empty()) == 0);
    } else {
        law_written_numbers_read_back(n / 10);
        assert(text.drop_last() =~= decimal_text(n / 10));
        assert forall|i: int| 0 <= i < text.len() implies '0' <= #[trigger] text[i] <= '9' by {
            if i < decimal_text(n / 10).len() {
                assert(text[i] == decimal_text(n / 10)[i]);
            }
        }
    }
}

/// Trimming takes away white space only, all of it at either end: what stands before and
/// behind what is left is white space, and what is left neither begins nor ends with it.
pub proof fn law_trimming_takes_the_white_space_at_the_ends(text: Seq<char>) -> (from: int)
    ensures
        0 <= from,
        from + trim_of(text).len() <= text.len(),
        trim_of(text) == text.subrange(from, from + trim_of(text).len()),
        forall|i: int|
            #![trigger text[i]]
            0 <= i < text.len() && (i < from || i >= from + trim_of(text).len()) ==> white_space(
                text[i],
            ),
        trim_of(text).len() > 0 ==> !white_space(text[from]) && !white_space(
            text[from + trim_of(text).len() - 1],
        ),
        trim_start_of(text) == text.skip(from),
{
    let from = lemma_leading_white_space(text);
    let rest = trim_start_of(text);
    lemma_trailing_white_space(rest);
    let trimmed = trim_of(text);
    assert(trimmed =~= text.subrange(from, from + trimmed.len()));
    assert forall|i: int|
        #![trigger text[i]]
        0 <= i < text.len() && (i < from || i >= from + trimmed.len()) implies white_space(
        text[i],
    ) by {
        if i >= from {
            assert(rest[i - from] == text[i]);
        }
    }
    if trimmed.len() > 0 {
        assert(trimmed.last() == text[from + trimmed.len() - 1]);
        assert(rest.len() > 0);
    }
    from
}

proof fn lemma_leading_white_space(text: Seq<char>) -> (from: int)
    ensures
        0 <= from <= text.len(),
        trim_start_of(text) == text.skip(from),
        forall|i: int| #![trigger text[i]] 0 <= i < from ==> white_space(text[i]),
        from < text.len() ==> !white_space(text[from]),
    decreases text.len(),
{
    if text.len() > 0 && white_space(text[0]) {
        let rest = text.drop_first();
        let from = lemma_leading_white_space(rest);
        assert(rest.skip(from) =~= text.skip(from + 1));
        assert forall|i: int| #![trigger text[i]] 0 <= i < from + 1 implies white_space(text[i]) by {
            if i > 0 {
                assert(rest[i - 1] == text[i]);
            }
        }
        if from < rest.len() {
            assert(rest[from] == text[from + 1]);
        }
        from + 1
    } else {
        assert(text.skip(0) =~= text);
        0
    }
}

proof fn lemma_trailing_white_space(text: Seq<char>)
    ensures
        trim_end_of(text).len() <= text.len(),
        trim_end_of(text) == text.take(trim_end_of(text).len() as int),
        forall|i: int|
            #![trigger text[i]]
            trim_end_of(text).len() <= i < text.len() ==> white_space(text[i]),
        trim_end_of(text).len() > 0 ==> !white_space(trim_end_of(text).last()),
    decreases text.len(),
{
    if text.len() > 0 && white_space(text.last()) {
        let rest = text.drop_last();
        lemma_trailing_white_space(rest);
        let n = trim_end_of(text).len() as int;
        assert(rest.take(n) =~= text.take(n));
        assert forall|i: int| #![trigger text[i]] n <= i < text.len() implies white_space(
            text[i],
        ) by {
            if i < rest.len() {
                assert(rest[i] == text[i]);
            }
        }
    } else {
        assert(text.take(text.len() as int) =~= text);
    }
}

/// Texts with a separator between.
pub open spec fn joined_by(parts: Seq<Seq<char>>, separator: char) -> Seq<char>
    decreases parts.len(),
{
    if parts.len() == 0 {
        Seq::empty()
    } else if parts.len() == 1 {
        parts[0]
    } else {
        joined_by(parts.drop_last(), separator).push(separator) + parts.last()
    }
}

/// A text is split at every separator and nowhere else: its parts, none of which holds a
/// separator, joined by separators are the text.
pub proof fn law_split_text_joins_back(text: Seq<char>, separator: char)
    ensures
        split_of(text, separator).len() > 0,
        joined_by(split_of(text, separator), separator) == text,
        forall|i: int|
            #![trigger split_of(text, separator)[i]]
            0 <= i < split_of(text, separator).len() ==> !split_of(text, separator)[i].contains(
                separator,
            ),
    decreases text.len(),
{
    let parts = split_of(text, separator);
    if text.len() > 0 {
        let front = text.drop_last();
        law_split_text_joins_back(front, separator);
        let rest = split_of(front, separator);
        if text.last() == separator {
            assert(parts.drop_last() =~= rest);
            assert(joined_by(parts, separator) =~= text);
        } else {
            let grown = rest.last().push(text.last());
            assert(parts.last() == grown);
            assert(parts.drop_last() =~= rest.drop_last());
            assert(joined_by(parts, separator) =~= joined_by(rest, separator).push(text.last()));
            assert(front.push(text.last()) =~= text);
            assert forall|i: int| #![trigger parts[i]] 0 <= i < parts.len() implies !parts[i].contains(
                separator,
            ) by {
                if i == rest.len() - 1 {
                    assert(rest[i] == rest.last());
                    if grown.contains(separator) {
                        let k = grown.index_of(separator);
                        assert(rest[i][k] == separator);
                    }
                } else {
                    assert(parts[i] == rest[i]);
                }
            }
        }
    } else {
        assert(parts[0] =~= Seq::<char>::empty());
    }
}

/// The lines of a text hold no line feed, and none but a last one that is not ended ends
/// with a carriage return that a line feed followed.
pub proof fn law_lines_are_between_line_feeds(text: Seq<char>)
    ensures
        ({
            let parts = split_of(text, '\n');
            let lines = lines_of(text);
            &&& lines.len() == (if parts.last().len() == 0 {
                parts.len() - 1
            } else {
                parts.len() as int
            })
            &&& forall|i: int|
                #![trigger lines[i]]
                0 <= i < lines.len() ==> !lines[i].contains('\n') && (lines[i] == parts[i]
                    || lines[i].push('\r') == parts[i])
            &&& forall|i: int|
                #![trigger parts[i]]
                0 <= i < parts.len() - 1 && parts[i].len() > 0 && parts[i].last() == '\r'
                    ==> lines[i].push('\r') == parts[i]
        }),
{
    let parts = split_of(text, '\n');
    let lines = lines_of(text);
    law_split_text_joins_back(text, '\n');
    assert forall|i: int|
        #![trigger lines[i]]
        0 <= i < lines.len() implies !lines[i].contains('\n') && (lines[i] == parts[i]
        || lines[i].push('\r') == parts[i]) by {
        let part = parts[i];
        if i < parts.len() - 1 {
            assert(lines[i] == without_return(part));
            if part.len() > 0 && part.last() == '\r' {
                assert(lines[i].push('\r') =~= part);
            }
        } else {
            assert(lines[i] == part);
        }
        if lines[i].contains('\n') {
            let k = lines[i].index_of('\n');
            assert(part[k] == '\n');
        }
    }
    assert forall|i: int|
        #![trigger parts[i]]
        0 <= i < parts.len() - 1 && parts[i].len() > 0 && parts[i].last()
            == '\r' implies lines[i].push('\r') == parts[i] by {
        assert(lines[i] == without_return(parts[i]));
        assert(lines[i].push('\r') =~= parts[i]);
    }
}

/// A text is padded with blanks on one side only, up to the width and no further.
pub proof fn law_padding_adds_blanks(text: Seq<char>, width: nat)
    ensures
        ({
            let (left, right) = (padded_left(text, width), padded_right(text, width));
            let len = if text.len() < width {
                width
            } else {
                text.len()
            };
            &&& left.len() == len && right.len() == len
            &&& left.skip(len - text.len()) == text
            &&& right.take(text.len() as int) == text
            &&& forall|i: int| 0 <= i < len - text.len() ==> #[trigger] left[i] == ' '
            &&& forall|i: int| text.len() <= i < len ==> #[trigger] right[i] == ' '
        }),
    decreases width - text.len(),
{
    if text.len() < width {
        let (wide, long) = (seq![' '] + text, text.push(' '));
        law_padding_adds_blanks(wide, width);
        law_padding_adds_blanks(long, width);
        let (left, right) = (padded_left(text, width), padded_right(text, width));
        assert(left.skip(width - text.len()) =~= left.skip(width - wide.len()).skip(1));
        assert(wide.skip(1) =~= text);
        assert(left[width - wide.len()] == left.skip(width - wide.len())[0]);
        assert(right.take(text.len() as int) =~= right.take(long.len() as int).take(
            text.len() as int,
        ));
        assert(long.take(text.len() as int) =~= text);
        assert(right[text.len() as int] == right.take(long.len() as int)[text.len() as int]);
    } else {
        assert(text.skip(0) =~= text);
        assert(text.take(text.len() as int) =~= text);
    }
}

/// Only the capital letters of ASCII change in lowercase, each to its small letter.
pub proof fn law_ascii_lowercase(text: Seq<char>, i: int)
    requires
        0 <= i < text.len(),
    ensures
        ascii_lowercase_of(text).len() == text.len(),
        'A' <= text[i] <= 'Z' ==> ascii_lowercase_of(text)[i] as int == text[i] as int + 32,
        !('A' <= text[i] <= 'Z') ==> ascii_lowercase_of(text)[i] == text[i],
{
}

/// A text occurs in another exactly if it is a part of it.
pub proof fn law_contained_text_is_a_part(hay: Seq<char>, needle: Seq<char>)
    ensures
        contains_text(hay, needle) <==> exists|front: Seq<char>, back: Seq<char>|
            hay == #[trigger] (front + needle + back),
{
    if contains_text(hay, needle) {
        let at = choose|at: int| occurs_at(hay, needle, at);
        let (front, back) = (hay.take(at), hay.skip(at + needle.len()));
        assert(hay =~= front + needle + back);
    }
    if exists|front: Seq<char>, back: Seq<char>| hay == #[trigger] (front + needle + back) {
        let (front, back) = choose|front: Seq<char>, back: Seq<char>|
            hay == #[trigger] (front + needle + back);
        assert(hay.subrange(front.len() as int, front.len() as int + needle.len()) =~= needle);
        assert(occurs_at(hay, needle, front.len() as int));
    }
}

/// The letters and digits of ASCII count as such, and are no white space; of all other
/// characters those do that Unicode says.
pub proof fn law_letters_and_digits(c: char)
    ensures
        '0' <= c <= '9' || 'a' <= c <= 'z' || 'A' <= c <= 'Z' ==> alphanumeric(c)
            && !white_space(c),
        !('0' <= c <= '9' || 'a' <= c <= 'z' || 'A' <= c <= 'Z') ==> alphanumeric(c)
            == unicode_alphanumeric(c) && white_space(c) == unicode_whitespace(c),
{
}

} // verus!
