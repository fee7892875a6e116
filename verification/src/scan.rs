//! Character-level scanning primitives: literal search and run scanning over
//! the characters of a string, with exact specifications.

use vstd::prelude::*;
use vstd::string::StrSliceExecFns;

verus! {

/// A Unicode whitespace character: the White_Space set.
pub open spec fn is_unicode_space(c: char) -> bool {
    c == '\t' || c == '\n' || c == '\u{b}' || c == '\u{c}' || c == '\r' || c == ' ' || c
        == '\u{85}' || c == '\u{a0}' || c == '\u{1680}' || ('\u{2000}' <= c && c <= '\u{200a}')
        || c == '\u{2028}' || c == '\u{2029}' || c == '\u{202f}' || c == '\u{205f}' || c
        == '\u{3000}'
}

/// Whether `c` is a Unicode whitespace character.
pub fn is_space_char(c: char) -> (b: bool)
    ensures
        b == is_unicode_space(c),
{
    let u = c as u32;
    u == 9 || u == 10 || u == 11 || u == 12 || u == 13 || u == 32 || u == 0x85 || u == 0xA0 || u
        == 0x1680 || (u >= 0x2000 && u <= 0x200A) || u == 0x2028 || u == 0x2029 || u == 0x202F
        || u == 0x205F || u == 0x3000
}

/// A character that ends a URL run: whitespace or a double quote.
pub open spec fn is_break(c: char) -> bool {
    c == '"' || is_unicode_space(c)
}

/// The literal `pat` occurs in `s` starting at index `i`.
pub open spec fn matches_at(s: Seq<char>, pat: Seq<char>, i: int) -> bool {
    &&& 0 <= i
    &&& i + pat.len() <= s.len()
    &&& forall|k: int| 0 <= k < pat.len() ==> s[i + k] == pat[k]
}

/// The smallest index at or after `from` where `pat` occurs in `s`, if any.
pub open spec fn first_match(s: Seq<char>, pat: Seq<char>, from: int) -> Option<int>
    decreases s.len() - from,
{
    if from < 0 || from + pat.len() > s.len() {
        None
    } else if matches_at(s, pat, from) {
        Some(from)
    } else {
        first_match(s, pat, from + 1)
    }
}

/// The first index at or after `i` holding a break character, or the length of
/// `s` if the run of plain characters reaches the end.
pub open spec fn run_end(s: Seq<char>, i: int) -> int
    decreases s.len() - i,
{
    if i < 0 {
        0
    } else if i >= s.len() {
        s.len() as int
    } else if is_break(s[i]) {
        i
    } else {
        run_end(s, i + 1)
    }
}

/// The first index at or after `i` holding a double quote, or the length of
/// `s`.
pub open spec fn quote_end(s: Seq<char>, i: int) -> int
    decreases s.len() - i,
{
    if i < 0 {
        0
    } else if i >= s.len() {
        s.len() as int
    } else if s[i] == '"' {
        i
    } else {
        quote_end(s, i + 1)
    }
}

pub proof fn lemma_run_end_bounds(s: Seq<char>, i: int)
    requires
        0 <= i <= s.len(),
    ensures
        i <= run_end(s, i) <= s.len(),
    decreases s.len() - i,
{
    if i < s.len() && !is_break(s[i]) {
        lemma_run_end_bounds(s, i + 1);
    }
}

pub proof fn lemma_quote_end_bounds(s: Seq<char>, i: int)
    requires
        0 <= i <= s.len(),
    ensures
        i <= quote_end(s, i) <= s.len(),
    decreases s.len() - i,
{
    if i < s.len() && s[i] != '"' {
        lemma_quote_end_bounds(s, i + 1);
    }
}

/// Positions below a first match hold no match; a reported first match is a
/// match.
pub proof fn lemma_first_match_properties(s: Seq<char>, pat: Seq<char>, from: int)
    requires
        from >= 0,
    ensures
        match first_match(s, pat, from) {
            Some(i) => from <= i && matches_at(s, pat, i) && forall|j: int|
                from <= j < i ==> !matches_at(s, pat, j),
            None => forall|j: int| j >= from ==> !matches_at(s, pat, j),
        },
    decreases s.len() - from,
{
    if from + pat.len() > s.len() {
    } else if matches_at(s, pat, from) {
    } else {
        lemma_first_match_properties(s, pat, from + 1);
    }
}

/// The uppercase hexadecimal digit of a value below sixteen.
pub open spec fn hex_digit(n: int) -> char
    recommends
        0 <= n < 16,
{
    if n == 0 {
        '0'
    } else if n == 1 {
        '1'
    } else if n == 2 {
        '2'
    } else if n == 3 {
        '3'
    } else if n == 4 {
        '4'
    } else if n == 5 {
        '5'
    } else if n == 6 {
        '6'
    } else if n == 7 {
        '7'
    } else if n == 8 {
        '8'
    } else if n == 9 {
        '9'
    } else if n == 10 {
        'A'
    } else if n == 11 {
        'B'
    } else if n == 12 {
        'C'
    } else if n == 13 {
        'D'
    } else if n == 14 {
        'E'
    } else {
        'F'
    }
}

/// The value of a hexadecimal digit, or a negative value for any other
/// character.
pub open spec fn hex_val(c: char) -> int {
    if '0' <= c && c <= '9' {
        c as int - '0' as int
    } else if 'A' <= c && c <= 'F' {
        c as int - 'A' as int + 10
    } else if 'a' <= c && c <= 'f' {
        c as int - 'a' as int + 10
    } else {
        -1
    }
}

/// The value of one hexadecimal digit character.
pub fn hex_val_of(c: char) -> (r: Option<u8>)
    ensures
        match r {
            Some(b) => hex_val(c) == b && b < 16,
            None => hex_val(c) < 0,
        },
{
    let u = c as u32;
    if u >= 48 && u <= 57 {
        Some((u - 48) as u8)
    } else if u >= 65 && u <= 70 {
        Some((u - 55) as u8)
    } else if u >= 97 && u <= 102 {
        Some((u - 87) as u8)
    } else {
        None
    }
}

/// One decimal digit character.
pub fn digit_char_of(d: usize) -> (c: char)
    requires
        d < 10,
    ensures
        c == hex_digit(d as int),
{
    if d == 0 {
        '0'
    } else if d == 1 {
        '1'
    } else if d == 2 {
        '2'
    } else if d == 3 {
        '3'
    } else if d == 4 {
        '4'
    } else if d == 5 {
        '5'
    } else if d == 6 {
        '6'
    } else if d == 7 {
        '7'
    } else if d == 8 {
        '8'
    } else {
        '9'
    }
}

/// One uppercase hexadecimal digit character.
pub fn hex_char_of(d: usize) -> (c: char)
    requires
        d < 16,
    ensures
        c == hex_digit(d as int),
{
    if d < 10 {
        digit_char_of(d)
    } else if d == 10 {
        'A'
    } else if d == 11 {
        'B'
    } else if d == 12 {
        'C'
    } else if d == 13 {
        'D'
    } else if d == 14 {
        'E'
    } else {
        'F'
    }
}

/// A hexadecimal digit character reads back as its value.
pub proof fn lemma_hex_digit_val(d: int)
    requires
        0 <= d < 16,
    ensures
        hex_val(hex_digit(d)) == d,
{
}

/// The first index at or after `i` holding exactly `c`, or the length of
/// `s`.
pub open spec fn next_char(s: Seq<char>, i: int, c: char) -> int
    decreases s.len() - i,
{
    if i < 0 {
        0
    } else if i >= s.len() {
        s.len() as int
    } else if s[i] == c {
        i
    } else {
        next_char(s, i + 1, c)
    }
}

/// The first index at or after `i` holding a whitespace character, or the
/// length of `s`.
pub open spec fn next_space(s: Seq<char>, i: int) -> int
    decreases s.len() - i,
{
    if i < 0 {
        0
    } else if i >= s.len() {
        s.len() as int
    } else if is_unicode_space(s[i]) {
        i
    } else {
        next_space(s, i + 1)
    }
}

/// The first index at or after `i` holding a non-whitespace character, or
/// the length of `s`.
pub open spec fn next_non_space(s: Seq<char>, i: int) -> int
    decreases s.len() - i,
{
    if i < 0 {
        0
    } else if i >= s.len() {
        s.len() as int
    } else if !is_unicode_space(s[i]) {
        i
    } else {
        next_non_space(s, i + 1)
    }
}

pub proof fn lemma_next_char_bounds(s: Seq<char>, i: int, c: char)
    requires
        0 <= i <= s.len(),
    ensures
        i <= next_char(s, i, c) <= s.len(),
    decreases s.len() - i,
{
    if i < s.len() && s[i] != c {
        lemma_next_char_bounds(s, i + 1, c);
    }
}

/// Scan to the first occurrence of `c` at or after `i`.
pub fn scan_to_char(v: &Vec<char>, i: usize, c: char) -> (j: usize)
    requires
        i <= v@.len(),
    ensures
        j == next_char(v@, i as int, c),
        i <= j <= v@.len(),
{
    let mut j = i;
    loop
        invariant
            i <= j <= v@.len(),
            next_char(v@, i as int, c) == next_char(v@, j as int, c),
        decreases v@.len() - j,
    {
        if j >= v.len() {
            return j;
        }
        if v[j] == c {
            return j;
        }
        j = j + 1;
    }
}

/// Scan to the first whitespace character at or after `i`.
pub fn scan_to_space(v: &Vec<char>, i: usize) -> (j: usize)
    requires
        i <= v@.len(),
    ensures
        j == next_space(v@, i as int),
        i <= j <= v@.len(),
{
    let mut j = i;
    loop
        invariant
            i <= j <= v@.len(),
            next_space(v@, i as int) == next_space(v@, j as int),
        decreases v@.len() - j,
    {
        if j >= v.len() {
            return j;
        }
        if is_space_char(v[j]) {
            return j;
        }
        j = j + 1;
    }
}

/// Scan to the first non-whitespace character at or after `i`.
pub fn scan_past_spaces(v: &Vec<char>, i: usize) -> (j: usize)
    requires
        i <= v@.len(),
    ensures
        j == next_non_space(v@, i as int),
        i <= j <= v@.len(),
{
    let mut j = i;
    loop
        invariant
            i <= j <= v@.len(),
            next_non_space(v@, i as int) == next_non_space(v@, j as int),
        decreases v@.len() - j,
    {
        if j >= v.len() {
            return j;
        }
        if !is_space_char(v[j]) {
            return j;
        }
        j = j + 1;
    }
}

/// The characters of a subrange of `v`, as a vector of their own.
pub fn subvec(v: &Vec<char>, a: usize, b: usize) -> (r: Vec<char>)
    requires
        a <= b <= v@.len(),
    ensures
        r@ == v@.subrange(a as int, b as int),
{
    let mut r: Vec<char> = Vec::new();
    let mut i = a;
    while i < b
        invariant
            a <= i <= b <= v@.len(),
            r@ == v@.subrange(a as int, i as int),
        decreases b - i,
    {
        let c = v[i];
        r.push(c);
        proof {
            assert(r@ =~= v@.subrange(a as int, i + 1));
        }
        i = i + 1;
    }
    r
}

/// Whether two character vectors hold the same characters.
pub fn chars_eq(a: &Vec<char>, b: &Vec<char>) -> (r: bool)
    ensures
        r == (a@ == b@),
{
    if a.len() != b.len() {
        proof {
            assert(a@ != b@);
        }
        return false;
    }
    let mut i: usize = 0;
    while i < a.len()
        invariant
            i <= a@.len(),
            a@.len() == b@.len(),
            forall|t: int| 0 <= t < i ==> a@[t] == b@[t],
        decreases a@.len() - i,
    {
        if a[i] != b[i] {
            proof {
                assert(a@ != b@);
            }
            return false;
        }
        i = i + 1;
    }
    proof {
        assert(a@ =~= b@);
    }
    true
}

/// The characters of `v`, as a string.
pub fn chars_to_string(v: &Vec<char>) -> (r: String)
    ensures
        r@ == v@,
{
    let mut r = String::new();
    let mut i: usize = 0;
    while i < v.len()
        invariant
            i <= v@.len(),
            r@ == v@.subrange(0, i as int),
        decreases v@.len() - i,
    {
        let c = v[i];
        push_char(&mut r, c);
        proof {
            assert(r@ =~= v@.subrange(0, i + 1));
        }
        i = i + 1;
    }
    proof {
        assert(r@ =~= v@);
    }
    r
}

/// Relies on char::from_u32: it yields the character with the given code
/// for every Unicode scalar value, and nothing for a surrogate code or a
/// code beyond the last code point.
#[verifier::external_body]
pub fn char_from_code(n: u32) -> (r: Option<char>)
    ensures
        match r {
            Some(c) => c as u32 == n,
            None => !(n < 0xD800 || (0xE000 <= n && n <= 0x10FFFF)),
        },
        (n < 0xD800 || (0xE000 <= n && n <= 0x10FFFF)) ==> r is Some,
{
    char::from_u32(n)
}

/// Relies on String::push: it appends the given character to the end of the
/// string.
#[verifier::external_body]
pub fn push_char(s: &mut String, c: char)
    ensures
        final(s)@ == old(s)@.push(c),
{
    s.push(c);
}

/// The characters of a string, as a vector.
pub fn to_char_vec(s: &str) -> (v: Vec<char>)
    ensures
        v@ == s@,
{
    let n = s.unicode_len();
    let mut v: Vec<char> = Vec::new();
    let mut i: usize = 0;
    while i < n
        invariant
            i <= n,
            n == s@.len(),
            v@ == s@.subrange(0, i as int),
        decreases n - i,
    {
        let c = s.get_char(i);
        v.push(c);
        proof {
            assert(v@ =~= s@.subrange(0, i + 1));
        }
        i = i + 1;
    }
    proof {
        assert(v@ =~= s@);
    }
    v
}

/// Whether `pat` occurs in `v` at index `i`.
pub fn match_at(v: &Vec<char>, pat: &Vec<char>, i: usize) -> (b: bool)
    ensures
        b == matches_at(v@, pat@, i as int),
{
    if i > v.len() || v.len() - i < pat.len() {
        return false;
    }
    let mut k: usize = 0;
    while k < pat.len()
        invariant
            k <= pat.len(),
            i + pat.len() <= v.len(),
            forall|t: int| 0 <= t < k ==> v@[i + t] == pat@[t],
        decreases pat.len() - k,
    {
        if v[i + k] != pat[k] {
            return false;
        }
        k = k + 1;
    }
    true
}

/// The first occurrence of `pat` in `v` at or after `from`.
pub fn find_from(v: &Vec<char>, pat: &Vec<char>, from: usize) -> (r: Option<usize>)
    requires
        from <= v@.len(),
    ensures
        match r {
            Some(i) => Some(i as int) == first_match(v@, pat@, from as int),
            None => first_match(v@, pat@, from as int) is None,
        },
{
    let mut cur = from;
    while pat.len() <= v.len() && cur <= v.len() - pat.len()
        invariant
            from <= cur,
            cur <= v@.len() + 1,
            first_match(v@, pat@, from as int) == first_match(v@, pat@, cur as int),
        decreases v@.len() + 1 - cur,
    {
        if match_at(v, pat, cur) {
            return Some(cur);
        }
        cur = cur + 1;
    }
    proof {
        assert(first_match(v@, pat@, cur as int) is None);
    }
    None
}

/// Scan to the end of the run of non-break characters that begins at `i`.
pub fn scan_run(v: &Vec<char>, i: usize) -> (j: usize)
    requires
        i <= v@.len(),
    ensures
        j == run_end(v@, i as int),
        i <= j <= v@.len(),
{
    let mut j = i;
    loop
        invariant
            i <= j <= v@.len(),
            run_end(v@, i as int) == run_end(v@, j as int),
        decreases v@.len() - j,
    {
        if j >= v.len() {
            return j;
        }
        let c = v[j];
        if c == '"' || is_space_char(c) {
            return j;
        }
        j = j + 1;
    }
}

/// Scan to the first double quote at or after `i`.
pub fn scan_quote(v: &Vec<char>, i: usize) -> (j: usize)
    requires
        i <= v@.len(),
    ensures
        j == quote_end(v@, i as int),
        i <= j <= v@.len(),
{
    let mut j = i;
    loop
        invariant
            i <= j <= v@.len(),
            quote_end(v@, i as int) == quote_end(v@, j as int),
        decreases v@.len() - j,
    {
        if j >= v.len() {
            return j;
        }
        if v[j] == '"' {
            return j;
        }
        j = j + 1;
    }
}

} // verus!
