//! Decimal rendering and parsing of integers, and small text helpers,
//! written against their character-sequence specifications.
use vstd::prelude::*;

verus! {

/// The character of a decimal digit.
pub open spec fn digit_char(d: int) -> char {
    if d == 0 { '0' }
    else if d == 1 { '1' }
    else if d == 2 { '2' }
    else if d == 3 { '3' }
    else if d == 4 { '4' }
    else if d == 5 { '5' }
    else if d == 6 { '6' }
    else if d == 7 { '7' }
    else if d == 8 { '8' }
    else { '9' }
}

/// The value of a decimal digit character, or `None` for any other character.
pub open spec fn char_digit(c: char) -> Option<int> {
    if '0' <= c && c <= '9' { Some(c as int - '0' as int) } else { None }
}

/// The decimal digits of a natural number, most significant first, without leading zeros.
pub open spec fn dec_digits(n: nat) -> Seq<char>
    decreases n,
{
    if n < 10 {
        seq![digit_char(n as int)]
    } else {
        dec_digits(n / 10).push(digit_char((n % 10) as int))
    }
}

/// The decimal text of an integer, with a leading `-` when it is negative.
pub open spec fn int_text(i: int) -> Seq<char> {
    if i < 0 { seq!['-'] + dec_digits((-i) as nat) } else { dec_digits(i as nat) }
}

/// True when every character of `s` is a decimal digit.
pub open spec fn all_digits(s: Seq<char>) -> bool {
    forall|k: int| 0 <= k < s.len() ==> #[trigger] char_digit(s[k]) is Some
}

/// The value of a string of decimal digits.
pub open spec fn digits_value(s: Seq<char>) -> int
    decreases s.len(),
{
    if s.len() == 0 {
        0
    } else {
        digits_value(s.drop_last()) * 10 + char_digit(s.last())->0
    }
}

/// What `str::parse::<i32>` gives for a text: an optional sign, then at least
/// one decimal digit, with the value in range.
pub open spec fn parse_i32_text(s: Seq<char>) -> Option<int> {
    let neg = s.len() > 0 && s[0] == '-';
    let signed = s.len() > 0 && (s[0] == '-' || s[0] == '+');
    let body = if signed { s.skip(1) } else { s };
    if body.len() == 0 || !all_digits(body) {
        None
    } else {
        let v = if neg { -digits_value(body) } else { digits_value(body) };
        if i32::MIN <= v <= i32::MAX { Some(v) } else { None }
    }
}

/// True when `s` ends with `suffix`.
pub open spec fn ends_with(s: Seq<char>, suffix: Seq<char>) -> bool {
    suffix.len() <= s.len() && s.subrange(s.len() - suffix.len(), s.len() as int) == suffix
}

/// True when `s` starts with `prefix`.
pub open spec fn starts_with(s: Seq<char>, prefix: Seq<char>) -> bool {
    prefix.len() <= s.len() && s.subrange(0, prefix.len() as int) == prefix
}

proof fn lemma_digit_char(d: int)
    requires
        0 <= d < 10,
    ensures
        char_digit(digit_char(d)) == Some(d),
{
}

/// The digits of a number are all decimal digits and read back as the number.
pub proof fn lemma_dec_digits(n: nat)
    ensures
        all_digits(dec_digits(n)),
        digits_value(dec_digits(n)) == n,
        dec_digits(n).len() >= 1,
    decreases n,
{
    if n < 10 {
        lemma_digit_char(n as int);
        assert(dec_digits(n).drop_last() =~= Seq::<char>::empty());
        assert(digits_value(Seq::<char>::empty()) == 0);
    } else {
        lemma_dec_digits(n / 10);
        lemma_digit_char((n % 10) as int);
        let s = dec_digits(n);
        assert(s.drop_last() =~= dec_digits(n / 10));
        assert(s.last() == digit_char((n % 10) as int));
        assert(digits_value(s) == digits_value(dec_digits(n / 10)) * 10 + (n % 10));
        assert((n / 10) * 10 + n % 10 == n);
        assert forall|k: int| 0 <= k < s.len() implies #[trigger] char_digit(s[k]) is Some by {
            if k < s.len() - 1 {
                assert(s[k] == dec_digits(n / 10)[k]);
            }
        }
    }
}

/// Decimal text read back: parsing the text of an `i32` gives the same number.
pub proof fn lemma_parse_int_text(i: int)
    requires
        i32::MIN <= i <= i32::MAX,
    ensures
        parse_i32_text(int_text(i)) == Some(i),
{
    let s = int_text(i);
    if i < 0 {
        lemma_dec_digits((-i) as nat);
        assert(s.skip(1) =~= dec_digits((-i) as nat));
        assert(s[0] == '-');
    } else {
        lemma_dec_digits(i as nat);
        let d = dec_digits(i as nat);
        assert(char_digit(d[0]) is Some);
    }
}

/// A one-character string for a decimal digit.
fn digit_str(d: u64) -> (r: &'static str)
    requires
        d < 10,
    ensures
        r@ == seq![digit_char(d as int)],
{
    if d == 0 {
        proof { reveal_strlit("0"); }
        "0"
    } else if d == 1 {
        proof { reveal_strlit("1"); }
        "1"
    } else if d == 2 {
        proof { reveal_strlit("2"); }
        "2"
    } else if d == 3 {
        proof { reveal_strlit("3"); }
        "3"
    } else if d == 4 {
        proof { reveal_strlit("4"); }
        "4"
    } else if d == 5 {
        proof { reveal_strlit("5"); }
        "5"
    } else if d == 6 {
        proof { reveal_strlit("6"); }
        "6"
    } else if d == 7 {
        proof { reveal_strlit("7"); }
        "7"
    } else if d == 8 {
        proof { reveal_strlit("8"); }
        "8"
    } else {
        proof { reveal_strlit("9"); }
        "9"
    }
}

/// Appends the decimal digits of `n`.
pub fn push_nat(s: &mut String, n: u64)
    ensures
        final(s)@ == old(s)@ + dec_digits(n as nat),
    decreases n,
{
    if n >= 10 {
        push_nat(s, n / 10);
    }
    let d = digit_str(n % 10);
    let ghost mid = s@;
    s.append(d);
    proof {
        if n >= 10 {
            assert(dec_digits(n as nat) == dec_digits((n / 10) as nat).push(digit_char((n % 10) as int)));
            assert(final(s)@ =~= old(s)@ + dec_digits(n as nat));
        } else {
            assert(final(s)@ =~= old(s)@ + dec_digits(n as nat));
        }
    }
}

/// Appends the decimal text of a signed number.
pub fn push_i64(s: &mut String, v: i64)
    ensures
        final(s)@ == old(s)@ + int_text(v as int),
{
    if v < 0 {
        proof { reveal_strlit("-"); }
        s.append("-");
        let m: u64 = if v == i64::MIN { 9223372036854775808u64 } else { (-v) as u64 };
        let ghost mid = s@;
        push_nat(s, m);
        assert(final(s)@ =~= old(s)@ + int_text(v as int));
    } else {
        push_nat(s, v as u64);
    }
}

/// The decimal text of a signed number.
pub fn i64_text(v: i64) -> (r: String)
    ensures
        r@ == int_text(v as int),
{
    let mut s = String::new();
    push_i64(&mut s, v);
    assert(s@ =~= int_text(v as int));
    s
}

/// Parses the decimal text of an `i32`, as `str::parse::<i32>` does.
pub fn parse_i32(s: &str) -> (r: Option<i32>)
    ensures
        match r {
            Some(v) => parse_i32_text(s@) == Some(v as int),
            None => parse_i32_text(s@) is None,
        },
{
    let n = s.unicode_len();
    if n == 0 {
        return None;
    }
    let c0 = s.get_char(0);
    assert(s@[0] == c0);
    let neg = c0 == '-';
    let signed = c0 == '-' || c0 == '+';
    let start: usize = if signed { 1 } else { 0 };
    let ghost body = if signed { s@.skip(1) } else { s@ };
    assert(signed == (s@.len() > 0 && (s@[0] == '-' || s@[0] == '+')));
    assert(neg == (s@.len() > 0 && s@[0] == '-'));
    if start == n {
        assert(body.len() == 0);
        return None;
    }
    let mut i = start;
    let mut acc: i64 = 0;
    while i < n
        invariant
            start <= i <= n,
            n == s@.len(),
            body == s@.subrange(start as int, n as int),
            start == 1 || start == 0,
            n > 0,
            signed == (s@[0] == '-' || s@[0] == '+'),
            neg == (s@[0] == '-'),
            start == (if signed { 1usize } else { 0usize }),
            body == (if signed { s@.skip(1) } else { s@ }),
            all_digits(body.subrange(0, i - start)),
            acc == digits_value(body.subrange(0, i - start)),
            0 <= acc <= 0x8000_0000,
        decreases n - i,
    {
        let c = s.get_char(i);
        if c < '0' || c > '9' {
            assert(body[i - start] == c);
            assert(char_digit(body[i - start]) is None);
            assert(!all_digits(body));
            assert(parse_i32_text(s@) is None);
            return None;
        }
        let d = (c as u32 - '0' as u32) as i64;
        let ghost pre = body.subrange(0, i - start);
        let ghost post = body.subrange(0, i + 1 - start);
        assert(post.drop_last() =~= pre);
        assert(post.last() == c);
        assert forall|k: int| 0 <= k < post.len() implies #[trigger] char_digit(post[k]) is Some by {
            if k < pre.len() {
                assert(post[k] == pre[k]);
            }
        }
        if acc * 10 + d > 0x8000_0000 {
            proof {
                if all_digits(body) {
                    lemma_digits_value_grows(body, (i + 1 - start) as int);
                }
            }
            return None;
        }
        acc = acc * 10 + d;
        i = i + 1;
    }
    assert(body.subrange(0, n - start) =~= body);
    if neg {
        Some((-acc) as i32)
    } else if acc > 0x7fff_ffff {
        None
    } else {
        Some(acc as i32)
    }
}

/// What `str::parse::<usize>` gives for a text: an optional `+`, then at
/// least one decimal digit, with the value in range.
pub open spec fn parse_usize_text(s: Seq<char>) -> Option<nat> {
    let body = if s.len() > 0 && s[0] == '+' { s.skip(1) } else { s };
    if body.len() == 0 || !all_digits(body) || digits_value(body) > usize::MAX {
        None
    } else {
        Some(digits_value(body) as nat)
    }
}

/// Reads an unsigned number as `str::parse::<usize>` does.
pub fn parse_usize(s: &str) -> (r: Option<usize>)
    ensures
        match r {
            Some(v) => parse_usize_text(s@) == Some(v as nat),
            None => parse_usize_text(s@) is None,
        },
{
    let n = s.unicode_len();
    if n == 0 {
        return None;
    }
    let c0 = s.get_char(0);
    assert(s@[0] == c0);
    let start: usize = if c0 == '+' { 1 } else { 0 };
    let ghost body = if c0 == '+' { s@.skip(1) } else { s@ };
    if start == n {
        assert(body.len() == 0);
        return None;
    }
    let mut i = start;
    let mut acc: u128 = 0;
    while i < n
        invariant
            start <= i <= n,
            n == s@.len(),
            n > 0,
            start == (if s@[0] == '+' { 1usize } else { 0usize }),
            body == (if s@[0] == '+' { s@.skip(1) } else { s@ }),
            body == s@.subrange(start as int, n as int),
            all_digits(body.subrange(0, i - start)),
            acc == digits_value(body.subrange(0, i - start)),
            acc <= usize::MAX,
        decreases n - i,
    {
        let c = s.get_char(i);
        if c < '0' || c > '9' {
            assert(body[i - start] == c);
            assert(char_digit(body[i - start]) is None);
            assert(!all_digits(body));
            return None;
        }
        let d = (c as u32 - '0' as u32) as u128;
        let ghost pre = body.subrange(0, i - start);
        let ghost post = body.subrange(0, i + 1 - start);
        assert(post.drop_last() =~= pre);
        assert(post.last() == c);
        assert forall|k: int| 0 <= k < post.len() implies #[trigger] char_digit(post[k]) is Some by {
            if k < pre.len() {
                assert(post[k] == pre[k]);
            }
        }
        if acc * 10 + d > usize::MAX as u128 {
            proof {
                if all_digits(body) {
                    lemma_digits_value_grows(body, (i + 1 - start) as int);
                }
            }
            return None;
        }
        acc = acc * 10 + d;
        i = i + 1;
    }
    assert(body.subrange(0, n - start) =~= body);
    Some(acc as usize)
}

/// Reading more digits never makes the value smaller.
proof fn lemma_digits_value_grows(s: Seq<char>, k: int)
    requires
        0 <= k <= s.len(),
        all_digits(s),
    ensures
        digits_value(s) >= digits_value(s.subrange(0, k)) >= 0,
    decreases s.len(),
{
    if s.len() == 0 {
    } else if k == s.len() {
        assert(s.subrange(0, k) =~= s);
        lemma_digits_value_nonneg(s);
    } else {
        let t = s.drop_last();
        assert(all_digits(t)) by {
            assert forall|j: int| 0 <= j < t.len() implies #[trigger] char_digit(t[j]) is Some by {
                assert(t[j] == s[j]);
            }
        }
        assert(char_digit(s[s.len() - 1]) is Some);
        lemma_digits_value_grows(t, k);
        assert(t.subrange(0, k) =~= s.subrange(0, k));
        lemma_digits_value_nonneg(t);
    }
}

proof fn lemma_digits_value_nonneg(s: Seq<char>)
    requires
        all_digits(s),
    ensures
        digits_value(s) >= 0,
    decreases s.len(),
{
    if s.len() > 0 {
        let t = s.drop_last();
        assert(all_digits(t)) by {
            assert forall|j: int| 0 <= j < t.len() implies #[trigger] char_digit(t[j]) is Some by {
                assert(t[j] == s[j]);
            }
        }
        assert(char_digit(s[s.len() - 1]) is Some);
        lemma_digits_value_nonneg(t);
    }
}

/// Whether a string ends with a given suffix.
pub fn str_ends_with(s: &str, suffix: &str) -> (r: bool)
    ensures
        r == ends_with(s@, suffix@),
{
    let n = s.unicode_len();
    let m = suffix.unicode_len();
    if m > n {
        return false;
    }
    let mut k: usize = 0;
    while k < m
        invariant
            n == s@.len(),
            m == suffix@.len(),
            m <= n,
            k <= m,
            forall|j: int| 0 <= j < k ==> s@[n - m + j] == suffix@[j],
        decreases m - k,
    {
        if s.get_char(n - m + k) != suffix.get_char(k) {
            assert(s@.subrange(n - m, n as int)[k as int] != suffix@[k as int]);
            return false;
        }
        k = k + 1;
    }
    assert(s@.subrange(n - m, n as int) =~= suffix@);
    true
}

/// Whether a string starts with a given prefix.
pub fn str_starts_with(s: &str, prefix: &str) -> (r: bool)
    ensures
        r == starts_with(s@, prefix@),
{
    let n = s.unicode_len();
    let m = prefix.unicode_len();
    if m > n {
        return false;
    }
    let mut k: usize = 0;
    while k < m
        invariant
            n == s@.len(),
            m == prefix@.len(),
            m <= n,
            k <= m,
            forall|j: int| 0 <= j < k ==> s@[j] == prefix@[j],
        decreases m - k,
    {
        if s.get_char(k) != prefix.get_char(k) {
            assert(s@.subrange(0, m as int)[k as int] != prefix@[k as int]);
            return false;
        }
        k = k + 1;
    }
    assert(s@.subrange(0, m as int) =~= prefix@);
    true
}

/// Whether two strings hold the same text.
pub fn str_eq(a: &str, b: &str) -> (r: bool)
    ensures
        r == (a@ == b@),
{
    let n = a.unicode_len();
    let m = b.unicode_len();
    if n != m {
        return false;
    }
    let mut k: usize = 0;
    while k < n
        invariant
            n == a@.len(),
            m == b@.len(),
            n == m,
            k <= n,
            forall|j: int| 0 <= j < k ==> a@[j] == b@[j],
        decreases n - k,
    {
        if a.get_char(k) != b.get_char(k) {
            return false;
        }
        k = k + 1;
    }
    assert(a@ =~= b@);
    true
}

/// A fresh string holding the text of a string slice.
pub fn owned(s: &str) -> (r: String)
    ensures
        r@ == s@,
{
    String::from_str(s)
}


/// `s` with every trailing copy of `suffix` removed, as `str::trim_end_matches` does.
pub open spec fn trim_suffix_all(s: Seq<char>, suffix: Seq<char>) -> Seq<char>
    decreases s.len(),
{
    if suffix.len() > 0 && ends_with(s, suffix) {
        trim_suffix_all(s.subrange(0, s.len() - suffix.len()), suffix)
    } else {
        s
    }
}

/// Removes every trailing copy of `suffix` from `s`.
pub fn trim_end_all<'a>(s: &'a str, suffix: &str) -> (r: &'a str)
    ensures
        r@ == trim_suffix_all(s@, suffix@),
{
    let m = suffix.unicode_len();
    let mut cur: &str = s;
    if m == 0 {
        return cur;
    }
    while str_ends_with(cur, suffix)
        invariant
            m == suffix@.len(),
            m > 0,
            trim_suffix_all(cur@, suffix@) == trim_suffix_all(s@, suffix@),
        decreases cur@.len(),
    {
        let n = cur.unicode_len();
        cur = cur.substring_char(0, n - m);
    }
    cur
}


/// True for the characters Unicode calls white space, as `char::is_whitespace` does.
pub open spec fn is_ws(c: char) -> bool {
    ('\u{9}' <= c && c <= '\u{d}') || c == ' ' || c == '\u{85}' || c == '\u{a0}' || c == '\u{1680}'
        || ('\u{2000}' <= c && c <= '\u{200a}') || c == '\u{2028}' || c == '\u{2029}' || c == '\u{202f}'
        || c == '\u{205f}' || c == '\u{3000}'
}

/// Whether a character is white space.
pub fn char_is_ws(c: char) -> (r: bool)
    ensures
        r == is_ws(c),
{
    ('\u{9}' <= c && c <= '\u{d}') || c == ' ' || c == '\u{85}' || c == '\u{a0}' || c == '\u{1680}'
        || ('\u{2000}' <= c && c <= '\u{200a}') || c == '\u{2028}' || c == '\u{2029}' || c == '\u{202f}'
        || c == '\u{205f}' || c == '\u{3000}'
}

/// The index of the first character of `s` at or after `from` that is not
/// white space, or `s.len()`.
pub open spec fn first_non_ws(s: Seq<char>, from: int) -> int
    decreases s.len() - from,
{
    if from >= s.len() { s.len() as int } else if !is_ws(s[from]) { from } else { first_non_ws(s, from + 1) }
}

/// One past the index of the last character of `s` before `to` that is not
/// white space, or 0.
pub open spec fn last_non_ws_end(s: Seq<char>, to: int) -> int
    decreases to,
{
    if to <= 0 { 0 } else if !is_ws(s[to - 1]) { to } else { last_non_ws_end(s, to - 1) }
}

/// `s` without leading and trailing white space, as `str::trim` gives.
pub open spec fn trim_text(s: Seq<char>) -> Seq<char> {
    let a = first_non_ws(s, 0);
    if a >= s.len() { Seq::empty() } else { s.subrange(a, last_non_ws_end(s, s.len() as int)) }
}

/// True when `s` holds only white space.
pub open spec fn is_blank(s: Seq<char>) -> bool {
    forall|i: int| 0 <= i < s.len() ==> is_ws(#[trigger] s[i])
}

proof fn lemma_first_non_ws(s: Seq<char>, from: int)
    requires
        0 <= from <= s.len(),
    ensures
        from <= first_non_ws(s, from) <= s.len(),
        first_non_ws(s, from) < s.len() ==> !is_ws(s[first_non_ws(s, from)]),
        forall|i: int| from <= i < first_non_ws(s, from) ==> is_ws(#[trigger] s[i]),
    decreases s.len() - from,
{
    if from < s.len() && is_ws(s[from]) {
        lemma_first_non_ws(s, from + 1);
    }
}

proof fn lemma_last_non_ws_end(s: Seq<char>, to: int)
    requires
        0 <= to <= s.len(),
    ensures
        0 <= last_non_ws_end(s, to) <= to,
        last_non_ws_end(s, to) > 0 ==> !is_ws(s[last_non_ws_end(s, to) - 1]),
        forall|i: int| last_non_ws_end(s, to) <= i < to ==> is_ws(#[trigger] s[i]),
    decreases to,
{
    if to > 0 && is_ws(s[to - 1]) {
        lemma_last_non_ws_end(s, to - 1);
    }
}

/// A trimmed text is empty exactly when the text is blank; otherwise its
/// ends are not white space.
pub proof fn lemma_trim_text(s: Seq<char>)
    ensures
        trim_text(s).len() == 0 <==> is_blank(s),
        trim_text(s).len() > 0 ==> !is_ws(trim_text(s)[0]) && !is_ws(trim_text(s).last()),
        trim_text(s).len() <= s.len(),
{
    lemma_first_non_ws(s, 0);
    lemma_last_non_ws_end(s, s.len() as int);
    let a = first_non_ws(s, 0);
    let b = last_non_ws_end(s, s.len() as int);
    if a < s.len() {
        assert(a < b) by {
            if b <= a {
                assert(is_ws(s[a]));
            }
        }
    }
}

/// `s` without leading and trailing white space.
pub fn trim_str<'a>(s: &'a str) -> (r: &'a str)
    ensures
        r@ == trim_text(s@),
{
    let n = s.unicode_len();
    proof {
        lemma_first_non_ws(s@, 0);
        lemma_last_non_ws_end(s@, n as int);
    }
    let mut a: usize = 0;
    while a < n && char_is_ws(s.get_char(a))
        invariant
            a <= n,
            n == s@.len(),
            first_non_ws(s@, a as int) == first_non_ws(s@, 0),
        decreases n - a,
    {
        a = a + 1;
    }
    if a >= n {
        return s.substring_char(0, 0);
    }
    let mut b: usize = n;
    while b > 0 && char_is_ws(s.get_char(b - 1))
        invariant
            b <= n,
            n == s@.len(),
            last_non_ws_end(s@, b as int) == last_non_ws_end(s@, n as int),
        decreases b,
    {
        b = b - 1;
    }
    proof { lemma_trim_text(s@); }
    assert(first_non_ws(s@, a as int) == a);
    assert(last_non_ws_end(s@, b as int) == b);
    s.substring_char(a, b)
}

/// Whether `s` holds only white space.
pub fn str_is_blank(s: &str) -> (r: bool)
    ensures
        r == is_blank(s@),
{
    let n = s.unicode_len();
    let mut i: usize = 0;
    while i < n
        invariant
            i <= n,
            n == s@.len(),
            forall|j: int| 0 <= j < i ==> is_ws(#[trigger] s@[j]),
        decreases n - i,
    {
        if !char_is_ws(s.get_char(i)) {
            return false;
        }
        i = i + 1;
    }
    true
}


/// A text starts with a one-character prefix exactly when its first character is that one.
pub proof fn lemma_starts_with_char(t: Seq<char>, c: char)
    ensures
        starts_with(t, seq![c]) == (t.len() > 0 && t[0] == c),
{
    if t.len() > 0 && t[0] == c {
        assert(t.subrange(0, 1) =~= seq![c]);
    }
    if starts_with(t, seq![c]) {
        assert(t.subrange(0, 1)[0] == t[0]);
    }
}

} // verus!
