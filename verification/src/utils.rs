use vstd::prelude::*;
use num_bigint::BigInt;
use num_traits::Num;
use crate::text::{int_text, starts_with, trim_text, trim_str, str_starts_with, str_eq, lemma_starts_with_char};

verus! {

/// What concatenating two optional strings gives: the present parts, joined.
pub open spec fn spec_add_option_string(a: Option<Seq<char>>, b: Option<Seq<char>>) -> Option<Seq<char>> {
    match (a, b) {
        (Some(x), Some(y)) => Some(x + y),
        (Some(x), None) => Some(x),
        (None, Some(y)) => Some(y),
        (None, None) => None,
    }
}

/// The view of an optional string.
pub open spec fn opt_view(a: Option<String>) -> Option<Seq<char>> {
    match a {
        Some(s) => Some(s@),
        None => None,
    }
}

/// Joins two optional strings; absent parts are skipped.
pub fn add_option_string(a: Option<String>, b: Option<String>) -> (res: Option<String>)
    ensures
        opt_view(res) == spec_add_option_string(opt_view(a), opt_view(b)),
{
    match (a, b) {
        (Some(a_str), Some(b_str)) => Some(a_str.concat(b_str.as_str())),
        (Some(a_str), None) => Some(a_str),
        (None, Some(b_str)) => Some(b_str),
        (None, None) => None,
    }
}

/// Two optional strings are equal when both are absent or both hold the same text.
pub fn eq_option_string(a: &Option<String>, b: &Option<String>) -> (res: bool)
    ensures
        res == (opt_view(*a) == opt_view(*b)),
{
    match (a, b) {
        (Some(a_str), Some(b_str)) => a_str.eq(b_str),
        (None, None) => true,
        _ => false,
    }
}


/// The value of a digit character as `num-bigint` reads it: `0`-`9`, then
/// `a`-`z` and `A`-`Z` from 10; 255 for any other character.
pub open spec fn radix_digit(c: char) -> int {
    if '0' <= c && c <= '9' {
        c as int - '0' as int
    } else if 'a' <= c && c <= 'z' {
        c as int - 'a' as int + 10
    } else if 'A' <= c && c <= 'Z' {
        c as int - 'A' as int + 10
    } else {
        255
    }
}

/// True when `s` is a digit string in `radix`: not empty, not starting with
/// `_`, and made of digits below the radix and `_` separators.
pub open spec fn radix_digits_ok(s: Seq<char>, radix: u32) -> bool {
    s.len() > 0 && s[0] != '_' && forall|i: int| 0 <= i < s.len() ==> (s[i] == '_' || #[trigger] radix_digit(s[i]) < radix)
}

/// The value of a digit string in `radix`, `_` separators skipped.
pub open spec fn radix_value(s: Seq<char>, radix: u32) -> nat
    decreases s.len(),
{
    if s.len() == 0 {
        0
    } else if s.last() == '_' {
        radix_value(s.drop_last(), radix)
    } else {
        radix_value(s.drop_last(), radix) * (radix as nat) + (radix_digit(s.last()) as nat)
    }
}

/// What `BigUint::from_str_radix` gives: an optional `+` (not followed by
/// another), then a digit string.
pub open spec fn unsigned_radix_parse(s: Seq<char>, radix: u32) -> Option<nat> {
    let t = if s.len() > 0 && s[0] == '+' && !(s.len() > 1 && s[1] == '+') { s.skip(1) } else { s };
    if radix_digits_ok(t, radix) { Some(radix_value(t, radix)) } else { None }
}

/// What `BigInt::from_str_radix` gives: an optional `-` (not followed by
/// `+`), then what `BigUint::from_str_radix` reads.
pub open spec fn signed_radix_parse(s: Seq<char>, radix: u32) -> Option<int> {
    if s.len() > 0 && s[0] == '-' && !(s.len() > 1 && s[1] == '+') {
        match unsigned_radix_parse(s.skip(1), radix) {
            Some(v) => Some(-(v as int)),
            None => None,
        }
    } else {
        match unsigned_radix_parse(s, radix) {
            Some(v) => Some(v as int),
            None => None,
        }
    }
}

/// Reads `text` as a big integer in `radix` with `BigInt::from_str_radix`
/// and gives its decimal text (as `BigInt`'s `Display` writes it).
///
/// Claimed of the outside code: the parse succeeds exactly on the texts
/// `signed_radix_parse` accepts, with that value, and the value is written
/// with a leading `-` when negative and no leading zeros.
#[verifier::external_body]
fn bigint_decimal_text(text: &str, radix: u32) -> (r: Option<String>)
    requires
        2 <= radix <= 36,
    ensures
        match signed_radix_parse(text@, radix) {
            Some(v) => r is Some && r->0@ == int_text(v),
            None => r is None,
        },
{
    match BigInt::from_str_radix(text, radix) {
        Ok(v) => Some(v.to_string()),
        Err(_) => None,
    }
}

/// A text that is not a number in the expected radix.
#[derive(Debug, Clone, Copy, PartialEq, Eq)]
pub struct InvalidNumber;

/// `s` with its first character dropped when it is `c`.
pub open spec fn drop_leading(s: Seq<char>, c: char) -> Seq<char> {
    if s.len() > 0 && s[0] == c { s.skip(1) } else { s }
}

/// The digits `hex_to_int` reads: the text trimmed, a leading `-` dropped,
/// then a leading `0x` or `0X` dropped.
pub open spec fn hex_body(s: Seq<char>) -> Seq<char> {
    let t = drop_leading(trim_text(s), '-');
    if starts_with(t, seq!['0', 'x']) || starts_with(t, seq!['0', 'X']) { t.skip(2) } else { t }
}

/// The digits `oct_to_int` reads: the text trimmed, a leading `-` dropped,
/// then a leading `0` dropped.
pub open spec fn oct_body(s: Seq<char>) -> Seq<char> {
    drop_leading(drop_leading(trim_text(s), '-'), '0')
}

/// The decimal text of a hexadecimal literal such as `0x1F` (a sign is
/// ignored).
pub fn hex_to_int(s: &str) -> (r: Result<String, InvalidNumber>)
    ensures
        match signed_radix_parse(hex_body(s@), 16) {
            Some(v) => r is Ok && r->Ok_0@ == int_text(v),
            None => r is Err,
        },
{
    let mut input = trim_str(s);
    proof { reveal_strlit("-"); reveal_strlit("0x"); reveal_strlit("0X"); }
    assert("-"@ =~= seq!['-']);
    let ghost t0 = input@;
    proof { lemma_starts_with_char(t0, '-'); }
    if str_starts_with(input, "-") {
        input = input.substring_char(1, input.unicode_len());
    }
    assert(input@ == drop_leading(t0, '-'));
    let ghost t1 = input@;
    if str_starts_with(input, "0x") || str_starts_with(input, "0X") {
        input = input.substring_char(2, input.unicode_len());
    }
    assert(seq!['0', 'x'] =~= "0x"@ && seq!['0', 'X'] =~= "0X"@);
    assert(input@ == hex_body(s@));
    match bigint_decimal_text(input, 16) {
        Some(t) => Ok(t),
        None => Err(InvalidNumber),
    }
}

/// The decimal text of an octal literal such as `017` (a sign is ignored);
/// `0` itself is zero.
pub fn oct_to_int(s: &str) -> (r: Result<String, InvalidNumber>)
    ensures
        s@ == seq!['0'] ==> r is Ok && r->Ok_0@ == seq!['0'],
        s@ != seq!['0'] ==> match signed_radix_parse(oct_body(s@), 8) {
            Some(v) => r is Ok && r->Ok_0@ == int_text(v),
            None => r is Err,
        },
{
    proof { reveal_strlit("0"); reveal_strlit("-"); }
    assert("0"@ =~= seq!['0'] && "-"@ =~= seq!['-']);
    if str_eq(s, "0") {
        assert(s@ =~= seq!['0']);
        return Ok(String::from_str("0"));
    }
    assert(s@ != seq!['0']);
    let mut input = trim_str(s);
    proof { lemma_starts_with_char(input@, '-'); }
    if str_starts_with(input, "-") {
        input = input.substring_char(1, input.unicode_len());
    }
    assert(input@ == drop_leading(trim_text(s@), '-'));
    proof { lemma_starts_with_char(input@, '0'); }
    if str_starts_with(input, "0") {
        input = input.substring_char(1, input.unicode_len());
    }
    assert(input@ == oct_body(s@));
    match bigint_decimal_text(input, 8) {
        Some(t) => Ok(t),
        None => Err(InvalidNumber),
    }
}

} // verus!
