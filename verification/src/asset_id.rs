//! Stable asset identifiers.

use vstd::arithmetic::div_mod::{lemma_mod_breakdown, lemma_small_mod};
use vstd::arithmetic::power::{lemma_pow0, lemma_pow1, lemma_pow_adds, lemma_pow_positive, pow};
use vstd::prelude::*;

verus! {

/// The stable identifier of an asset: the 128 bits of its UUID.
#[derive(Clone, Copy, Debug, PartialEq, Eq, Structural)]
pub struct AssetId {
    /// The UUID as one big-endian number.
    pub value: u128,
}

/// The UUID that `uuid::Uuid::parse_str` reads from a text, as a big-endian
/// number, or `None` where the text is no UUID.
pub uninterp spec fn uuid_of_text(text: Seq<char>) -> Option<u128>;

/// The lowercase hexadecimal digit `n`.
pub open spec fn hex_digit(n: int) -> char {
    if n < 10 {
        (n + 0x30) as char
    } else {
        (n - 10 + 0x61) as char
    }
}

/// How many hyphens stand before position `i` of a hyphenated UUID.
pub open spec fn hyphens_before(i: int) -> int {
    if i <= 8 {
        0
    } else if i <= 13 {
        1
    } else if i <= 18 {
        2
    } else if i <= 23 {
        3
    } else {
        4
    }
}

/// The canonical text of a UUID: its 32 lowercase hexadecimal digits, the most
/// significant first, in groups of 8, 4, 4, 4 and 12 with a hyphen between.
pub open spec fn hyphenated(value: u128) -> Seq<char> {
    Seq::new(
        36,
        |i: int|
            if i == 8 || i == 13 || i == 18 || i == 23 {
                '-'
            } else {
                hex_digit((value as int / pow(16, (31 - (i - hyphens_before(i))) as nat)) % 16)
            },
    )
}

/// `uuid::Uuid::parse_str`: the UUID that `text` spells, in any of the forms
/// that crate reads, as the number `Uuid::as_u128` gives. The result is named
/// [`uuid_of_text`].
#[verifier::external_body]
fn parse_uuid(text: &str) -> (value: Option<u128>)
    ensures
        value == uuid_of_text(text@),
{
    match uuid::Uuid::parse_str(text) {
        Ok(uuid) => Some(uuid.as_u128()),
        Err(_) => None,
    }
}

/// `Display` of `uuid::Uuid`, for the UUID that `Uuid::from_u128` makes of
/// `value`: the canonical text, which `Uuid::parse_str` reads back.
#[verifier::external_body]
fn uuid_text(value: u128) -> (text: String)
    ensures
        text@ == hyphenated(value),
        uuid_of_text(text@) == Some(value),
{
    uuid::Uuid::from_u128(value).to_string()
}

/// The asset identifier that a text spells, if it spells one.
pub open spec fn asset_id_of(text: Seq<char>) -> Option<AssetId> {
    match uuid_of_text(text) {
        Some(value) => Some(AssetId { value }),
        None => None,
    }
}

/// Reads an asset identifier from UUID text; `None` where the text is no UUID.
pub fn parse_asset_id(text: &str) -> (id: Option<AssetId>)
    ensures
        id == asset_id_of(text@),
{
    match parse_uuid(text) {
        Some(value) => Some(AssetId { value }),
        None => None,
    }
}

impl AssetId {
    /// The identifier's canonical UUID text, from which [`parse_asset_id`]
    /// reads it back.
    pub fn text(&self) -> (text: String)
        ensures
            text@ == hyphenated(self.value),
            asset_id_of(text@) == Some(*self),
    {
        uuid_text(self.value)
    }
}

/// The hexadecimal digit of a number at a place, the least significant at place 0.
spec fn digit_at(value: int, place: nat) -> int {
    (value / pow(16, place)) % 16
}

/// Numbers that agree in their lowest digits leave the same rest.
proof fn lemma_same_low_digits(a: int, b: int, n: nat)
    requires
        0 <= a,
        0 <= b,
        forall|k: nat| k < n ==> #[trigger] digit_at(a, k) == digit_at(b, k),
    ensures
        a % pow(16, n) == b % pow(16, n),
        pow(16, n) > 0,
    decreases n,
{
    lemma_pow_positive(16, n);
    if n == 0 {
        lemma_pow0(16);
    } else {
        let m = (n - 1) as nat;
        lemma_same_low_digits(a, b, m);
        lemma_pow_positive(16, m);
        assert(pow(16, n) == pow(16, m) * 16) by {
            lemma_pow_adds(16, m, 1);
            lemma_pow1(16);
        }
        lemma_mod_breakdown(a, pow(16, m), 16);
        lemma_mod_breakdown(b, pow(16, m), 16);
        assert(digit_at(a, m) == digit_at(b, m));
    }
}

proof fn lemma_square(n: nat, power: int)
    requires
        pow(16, n) == power,
    ensures
        pow(16, 2 * n) == power * power,
{
    lemma_pow_adds(16, n, n);
}

/// No number of 128 bits has more than 32 digits.
proof fn lemma_digits_suffice()
    ensures
        pow(16, 32) == 0x1_0000_0000_0000_0000_0000_0000_0000_0000int,
{
    lemma_pow1(16);
    lemma_square(1, 0x10);
    lemma_square(2, 0x100);
    lemma_square(4, 0x1_0000);
    lemma_square(8, 0x1_0000_0000);
    lemma_square(16, 0x1_0000_0000_0000_0000);
}

/// Different identifiers have different canonical texts.
pub proof fn lemma_canonical_text_is_unique(a: AssetId, b: AssetId)
    requires
        hyphenated(a.value) == hyphenated(b.value),
    ensures
        a == b,
{
    let (x, y) = (a.value as int, b.value as int);
    assert forall|k: nat| k < 32 implies #[trigger] digit_at(x, k) == digit_at(y, k) by {
        let m = 31 - k;
        let i = if m < 8 {
            m
        } else if m < 12 {
            m + 1
        } else if m < 16 {
            m + 2
        } else if m < 20 {
            m + 3
        } else {
            m + 4
        };
        lemma_pow_positive(16, k);
        assert(i - hyphens_before(i) == m);
        assert(hyphenated(a.value)[i] == hex_digit(digit_at(x, k)));
        assert(hyphenated(b.value)[i] == hex_digit(digit_at(y, k)));
        assert(0 <= digit_at(x, k) < 16 && 0 <= digit_at(y, k) < 16);
        assert(hex_digit(digit_at(x, k)) as int == hex_digit(digit_at(y, k)) as int);
    }
    lemma_same_low_digits(x, y, 32);
    lemma_digits_suffice();
    lemma_small_mod(x as nat, pow(16, 32) as nat);
    lemma_small_mod(y as nat, pow(16, 32) as nat);
}

} // verus!
