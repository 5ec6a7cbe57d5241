//! Character-level scanning of CDL expression text: the extent of a numeric literal, an
//! identifier, a dotted path, a run of whitespace, and a string literal.
use vstd::prelude::*;

verus! {

pub open spec fn is_digit(c: char) -> bool {
    48 <= (c as u32) <= 57
}

pub open spec fn is_alpha(c: char) -> bool {
    (65 <= (c as u32) <= 90) || (97 <= (c as u32) <= 122)
}

/// A character that may begin an identifier.
pub open spec fn is_ident_start(c: char) -> bool {
    is_alpha(c) || c == '_'
}

/// A character that may continue an identifier.
pub open spec fn is_ident_continue(c: char) -> bool {
    is_ident_start(c) || is_digit(c)
}

/// ASCII whitespace (space, tab, line feed, form feed, carriage return).
pub open spec fn is_ws(c: char) -> bool {
    c == ' ' || c == '\t' || c == '\n' || c == '\r' || (c as u32) == 12
}

pub fn digit_char_at(s: &[char], i: usize) -> (b: bool)
    requires
        i < s@.len(),
    ensures
        b == is_digit(s@[i as int]),
{
    let c = s[i] as u32;
    48 <= c && c <= 57
}

pub fn ident_start_at(s: &[char], i: usize) -> (b: bool)
    requires
        i < s@.len(),
    ensures
        b == is_ident_start(s@[i as int]),
{
    let c = s[i] as u32;
    (65 <= c && c <= 90) || (97 <= c && c <= 122) || s[i] == '_'
}

pub fn ident_continue_at(s: &[char], i: usize) -> (b: bool)
    requires
        i < s@.len(),
    ensures
        b == is_ident_continue(s@[i as int]),
{
    ident_start_at(s, i) || digit_char_at(s, i)
}

/// The end of the run of characters satisfying `is_ident_continue` that starts at `i`.
pub open spec fn ident_end(s: Seq<char>, i: int) -> int
    decreases s.len() - i,
{
    if 0 <= i < s.len() && is_ident_continue(s[i]) {
        ident_end(s, i + 1)
    } else {
        i
    }
}

/// The end of the run of digits and dots that starts at `i`.
pub open spec fn digits_dots_end(s: Seq<char>, i: int) -> int
    decreases s.len() - i,
{
    if 0 <= i < s.len() && (is_digit(s[i]) || s[i] == '.') {
        digits_dots_end(s, i + 1)
    } else {
        i
    }
}

/// The end of the run of digits that starts at `i`.
pub open spec fn digits_end(s: Seq<char>, i: int) -> int
    decreases s.len() - i,
{
    if 0 <= i < s.len() && is_digit(s[i]) {
        digits_end(s, i + 1)
    } else {
        i
    }
}

/// The end of the run of ASCII whitespace that starts at `i`.
pub open spec fn ws_end(s: Seq<char>, i: int) -> int
    decreases s.len() - i,
{
    if 0 <= i < s.len() && is_ws(s[i]) {
        ws_end(s, i + 1)
    } else {
        i
    }
}

pub proof fn lemma_run_ends(s: Seq<char>, i: int)
    requires
        0 <= i <= s.len(),
    ensures
        i <= ident_end(s, i) <= s.len(),
        i <= digits_dots_end(s, i) <= s.len(),
        i <= digits_end(s, i) <= s.len(),
        i <= ws_end(s, i) <= s.len(),
    decreases s.len() - i,
{
    if i < s.len() {
        lemma_run_ends(s, i + 1);
    }
}

/// The end of the numeric literal starting at digit `i`: digits and dots, then an exponent
/// marker `e`/`E`, an optional sign and at least one digit, when all are present.
pub open spec fn number_end(s: Seq<char>, i: int) -> int {
    let m = digits_dots_end(s, i + 1);
    if m < s.len() && (s[m] == 'e' || s[m] == 'E') {
        let j = if m + 1 < s.len() && (s[m + 1] == '+' || s[m + 1] == '-') {
            m + 2
        } else {
            m + 1
        };
        if j < s.len() && is_digit(s[j]) {
            digits_end(s, j)
        } else {
            m
        }
    } else {
        m
    }
}

/// The end of the string literal whose opening quote is at `i`: just past the first unescaped
/// closing quote, or the end of the text when it is unterminated.
pub open spec fn string_end_from(s: Seq<char>, k: int) -> int
    decreases s.len() + 1 - k,
{
    if k >= s.len() || k < 0 {
        s.len() as int
    } else if s[k] == '"' {
        k + 1
    } else if s[k] == '\\' {
        string_end_from(s, k + 2)
    } else {
        string_end_from(s, k + 1)
    }
}

/// The end of the dotted tail `.segment.segment…` starting at `j`.
pub open spec fn dotted_end(s: Seq<char>, j: int) -> int
    decreases s.len() - j,
{
    if 0 <= j && j + 1 < s.len() && s[j] == '.' && is_ident_start(s[j + 1]) {
        proof {
            lemma_run_ends(s, j + 2);
        }
        dotted_end(s, ident_end(s, j + 2))
    } else {
        j
    }
}

pub proof fn lemma_scan_ends(s: Seq<char>, i: int)
    requires
        0 <= i < s.len(),
    ensures
        i < number_end(s, i) <= s.len(),
        i < string_end_from(s, i + 1) <= s.len(),
        i <= dotted_end(s, i) <= s.len(),
{
    lemma_run_ends(s, i + 1);
    let m = digits_dots_end(s, i + 1);
    if m + 2 <= s.len() {
        lemma_run_ends(s, m + 2);
    }
    if m + 1 <= s.len() {
        lemma_run_ends(s, m + 1);
    }
    lemma_string_end(s, i + 1);
    lemma_dotted_end(s, i);
}

pub proof fn lemma_string_end(s: Seq<char>, k: int)
    requires
        0 <= k,
    ensures
        k <= string_end_from(s, k) <= s.len() || (k > s.len() && string_end_from(s, k) == s.len()),
        k <= s.len() ==> k <= string_end_from(s, k) <= s.len(),
    decreases s.len() + 1 - k,
{
    if k < s.len() && s[k] != '"' {
        if s[k] == '\\' {
            lemma_string_end(s, k + 2);
        } else {
            lemma_string_end(s, k + 1);
        }
    }
}

pub proof fn lemma_dotted_end(s: Seq<char>, j: int)
    requires
        0 <= j <= s.len(),
    ensures
        j <= dotted_end(s, j) <= s.len(),
    decreases s.len() - j,
{
    if j + 1 < s.len() && s[j] == '.' && is_ident_start(s[j + 1]) {
        lemma_run_ends(s, j + 2);
        lemma_dotted_end(s, ident_end(s, j + 2));
    }
}

pub fn find_ident_end(s: &[char], i: usize) -> (e: usize)
    requires
        i <= s@.len(),
    ensures
        e == ident_end(s@, i as int),
{
    let mut j = i;
    while j < s.len() && ident_continue_at(s, j)
        invariant
            i <= j <= s@.len(),
            ident_end(s@, j as int) == ident_end(s@, i as int),
        decreases s@.len() - j,
    {
        j += 1;
    }
    j
}

pub fn find_digits_dots_end(s: &[char], i: usize) -> (e: usize)
    requires
        i <= s@.len(),
    ensures
        e == digits_dots_end(s@, i as int),
{
    let mut j = i;
    while j < s.len() && (digit_char_at(s, j) || s[j] == '.')
        invariant
            i <= j <= s@.len(),
            digits_dots_end(s@, j as int) == digits_dots_end(s@, i as int),
        decreases s@.len() - j,
    {
        j += 1;
    }
    j
}

pub fn find_digits_end(s: &[char], i: usize) -> (e: usize)
    requires
        i <= s@.len(),
    ensures
        e == digits_end(s@, i as int),
{
    let mut j = i;
    while j < s.len() && digit_char_at(s, j)
        invariant
            i <= j <= s@.len(),
            digits_end(s@, j as int) == digits_end(s@, i as int),
        decreases s@.len() - j,
    {
        j += 1;
    }
    j
}

pub fn find_ws_end(s: &[char], i: usize) -> (e: usize)
    requires
        i <= s@.len(),
    ensures
        e == ws_end(s@, i as int),
{
    let mut j = i;
    while j < s.len() && (s[j] == ' ' || s[j] == '\t' || s[j] == '\n' || s[j] == '\r' || s[j] as u32 == 12)
        invariant
            i <= j <= s@.len(),
            ws_end(s@, j as int) == ws_end(s@, i as int),
        decreases s@.len() - j,
    {
        j += 1;
    }
    j
}

pub fn find_number_end(s: &[char], i: usize) -> (e: usize)
    requires
        i < s@.len(),
    ensures
        e == number_end(s@, i as int),
{
    let n = s.len();
    proof {
        lemma_run_ends(s@, i + 1);
    }
    let m = find_digits_dots_end(s, i + 1);
    if m < n && (s[m] == 'e' || s[m] == 'E') {
        let j = if m + 1 < n && (s[m + 1] == '+' || s[m + 1] == '-') {
            m + 2
        } else {
            m + 1
        };
        if j < s.len() && digit_char_at(s, j) {
            find_digits_end(s, j)
        } else {
            m
        }
    } else {
        m
    }
}

pub fn find_string_end(s: &[char], i: usize) -> (e: usize)
    requires
        i < s@.len(),
    ensures
        e == string_end_from(s@, i + 1),
{
    let n = s.len();
    let mut k = i + 1;
    while k < n && s[k] != '"'
        invariant
            n == s@.len(),
            i + 1 <= k <= n,
            string_end_from(s@, k as int) == string_end_from(s@, i + 1),
        decreases n - k,
    {
        if s[k] == '\\' {
            if k + 1 < n {
                k += 2;
            } else {
                assert(string_end_from(s@, k + 2) == s@.len());
                assert(string_end_from(s@, n as int) == s@.len());
                k = n;
            }
        } else {
            k += 1;
        }
    }
    if k < n {
        k + 1
    } else {
        s.len()
    }
}

pub fn find_dotted_end(s: &[char], j0: usize) -> (e: usize)
    requires
        j0 <= s@.len(),
    ensures
        e == dotted_end(s@, j0 as int),
{
    let n = s.len();
    let mut j = j0;
    while n > 0 && j < n - 1 && s[j] == '.' && ident_start_at(s, j + 1)
        invariant
            n == s@.len(),
            j0 <= j <= s@.len(),
            dotted_end(s@, j as int) == dotted_end(s@, j0 as int),
        decreases s@.len() - j,
    {
        proof {
            lemma_run_ends(s@, j + 2);
        }
        j = find_ident_end(s, j + 2);
    }
    j
}

} // verus!
