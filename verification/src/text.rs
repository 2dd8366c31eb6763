//! Character and string helpers with exact specifications.

use vstd::prelude::*;
use vstd::string::*;

verus! {

/// The Unicode `White_Space` property, as used by `char::is_whitespace`,
/// `str::trim` and `str::split_whitespace`.
pub open spec fn is_space(c: char) -> bool {
    ||| ('\u{9}' <= c && c <= '\u{d}')
    ||| c == ' '
    ||| c == '\u{85}'
    ||| c == '\u{a0}'
    ||| c == '\u{1680}'
    ||| ('\u{2000}' <= c && c <= '\u{200a}')
    ||| c == '\u{2028}'
    ||| c == '\u{2029}'
    ||| c == '\u{202f}'
    ||| c == '\u{205f}'
    ||| c == '\u{3000}'
}

/// Executable form of [`is_space`].
pub fn char_is_space(c: char) -> (r: bool)
    ensures
        r == is_space(c),
{
    ('\u{9}' <= c && c <= '\u{d}') || c == ' ' || c == '\u{85}' || c == '\u{a0}' || c == '\u{1680}'
        || ('\u{2000}' <= c && c <= '\u{200a}') || c == '\u{2028}' || c == '\u{2029}' || c
        == '\u{202f}' || c == '\u{205f}' || c == '\u{3000}'
}

/// Index of the first non-whitespace character of `s` at or after `i`
/// (`s.len()` when there is none).
pub open spec fn skip_spaces(s: Seq<char>, i: int) -> int
    decreases s.len() - i,
{
    if 0 <= i < s.len() && is_space(s[i]) {
        skip_spaces(s, i + 1)
    } else {
        i
    }
}

/// Index just past the last non-whitespace character of `s` before `j`.
pub open spec fn back_spaces(s: Seq<char>, j: int) -> int
    decreases j,
{
    if 0 < j <= s.len() && is_space(s[j - 1]) {
        back_spaces(s, j - 1)
    } else {
        j
    }
}

/// Index of the first whitespace character of `s` at or after `i`
/// (`s.len()` when there is none).
pub open spec fn skip_word(s: Seq<char>, i: int) -> int
    decreases s.len() - i,
{
    if 0 <= i < s.len() && !is_space(s[i]) {
        skip_word(s, i + 1)
    } else {
        i
    }
}

/// `s` with leading and trailing whitespace removed (`str::trim`).
pub open spec fn trim(s: Seq<char>) -> Seq<char> {
    let a = skip_spaces(s, 0);
    if a >= s.len() {
        Seq::empty()
    } else {
        s.subrange(a, back_spaces(s, s.len() as int))
    }
}

/// The maximal runs of non-whitespace characters of `s` from index `i` on,
/// in order (`str::split_whitespace`).
pub open spec fn words_from(s: Seq<char>, i: int) -> Seq<Seq<char>>
    decreases s.len() - i,
{
    let a = skip_spaces(s, i);
    if i < 0 || i > s.len() || a >= s.len() {
        Seq::empty()
    } else {
        proof {
            lemma_skip_spaces_bounds(s, i);
            lemma_skip_word_bounds(s, a);
        }
        let e = skip_word(s, a);
        seq![s.subrange(a, e)] + words_from(s, e)
    }
}

/// The words of `s`, as `str::split_whitespace` yields them.
pub open spec fn words(s: Seq<char>) -> Seq<Seq<char>> {
    words_from(s, 0)
}

pub proof fn lemma_skip_spaces_bounds(s: Seq<char>, i: int)
    requires
        0 <= i <= s.len(),
    ensures
        i <= skip_spaces(s, i) <= s.len(),
        skip_spaces(s, i) < s.len() ==> !is_space(s[skip_spaces(s, i)]),
        forall|k: int| i <= k < skip_spaces(s, i) ==> is_space(#[trigger] s[k]),
    decreases s.len() - i,
{
    if i < s.len() && is_space(s[i]) {
        lemma_skip_spaces_bounds(s, i + 1);
    }
}

pub proof fn lemma_skip_word_bounds(s: Seq<char>, i: int)
    requires
        0 <= i <= s.len(),
    ensures
        i <= skip_word(s, i) <= s.len(),
        skip_word(s, i) < s.len() ==> is_space(s[skip_word(s, i)]),
        forall|k: int| i <= k < skip_word(s, i) ==> !is_space(#[trigger] s[k]),
    decreases s.len() - i,
{
    if i < s.len() && !is_space(s[i]) {
        lemma_skip_word_bounds(s, i + 1);
    }
}

pub proof fn lemma_back_spaces_bounds(s: Seq<char>, j: int)
    requires
        0 <= j <= s.len(),
    ensures
        0 <= back_spaces(s, j) <= j,
        back_spaces(s, j) > 0 ==> !is_space(s[back_spaces(s, j) - 1]),
        forall|k: int| back_spaces(s, j) <= k < j ==> is_space(#[trigger] s[k]),
    decreases j,
{
    if 0 < j && is_space(s[j - 1]) {
        lemma_back_spaces_bounds(s, j - 1);
    }
}

/// The characters of `s`, one by one.
pub fn chars_of(s: &str) -> (r: Vec<char>)
    ensures
        r@ == s@,
{
    let n = s.unicode_len();
    let mut r: Vec<char> = Vec::new();
    let mut i: usize = 0;
    while i < n
        invariant
            n == s@.len(),
            i <= n,
            r@ == s@.take(i as int),
        decreases n - i,
    {
        r.push(s.get_char(i));
        i = i + 1;
        assert(r@ =~= s@.take(i as int));
    }
    assert(r@ =~= s@);
    r
}

/// `str::trim`: the text of `s` without leading and trailing whitespace.
pub fn trim_str(s: &str) -> (r: &str)
    ensures
        r@ == trim(s@),
{
    let n = s.unicode_len();
    let mut i: usize = 0;
    while i < n && char_is_space(s.get_char(i))
        invariant
            n == s@.len(),
            i <= n,
            skip_spaces(s@, i as int) == skip_spaces(s@, 0),
        decreases n - i,
    {
        i = i + 1;
    }
    assert(skip_spaces(s@, i as int) == i as int);
    if i >= n {
        return s.substring_char(n, n);
    }
    let mut j: usize = n;
    while j > i && char_is_space(s.get_char(j - 1))
        invariant
            n == s@.len(),
            i < n,
            i < j <= n,
            !is_space(s@[i as int]),
            back_spaces(s@, j as int) == back_spaces(s@, n as int),
        decreases j,
    {
        j = j - 1;
    }
    assert(back_spaces(s@, j as int) == j as int);
    s.substring_char(i, j)
}

/// `str::split_whitespace`, collected: the words of `s` in order.
pub fn split_words<'a>(s: &'a str) -> (r: Vec<&'a str>)
    ensures
        r@.map_values(|w: &str| w@) == words(s@),
{
    let n = s.unicode_len();
    let mut r: Vec<&'a str> = Vec::new();
    let mut i: usize = 0;
    while i < n
        invariant
            n == s@.len(),
            i <= n,
            r@.map_values(|w: &str| w@) + words_from(s@, i as int) == words(s@),
        decreases n - i,
    {
        let ghost gi = i as int;
        proof {
            lemma_skip_spaces_bounds(s@, gi);
        }
        let mut a: usize = i;
        while a < n && char_is_space(s.get_char(a))
            invariant
                n == s@.len(),
                i <= a <= n,
                skip_spaces(s@, a as int) == skip_spaces(s@, gi),
            decreases n - a,
        {
            a = a + 1;
        }
        if a >= n {
            assert(words_from(s@, gi) =~= Seq::<Seq<char>>::empty());
            i = n;
            assert(words_from(s@, n as int) =~= Seq::<Seq<char>>::empty());
        } else {
            proof {
                lemma_skip_word_bounds(s@, a as int);
            }
            let mut e: usize = a;
            while e < n && !char_is_space(s.get_char(e))
                invariant
                    n == s@.len(),
                    a <= e <= n,
                    skip_word(s@, e as int) == skip_word(s@, a as int),
                decreases n - e,
            {
                e = e + 1;
            }
            let w = s.substring_char(a, e);
            let ghost before = r@.map_values(|w: &str| w@);
            r.push(w);
            assert(r@.map_values(|w: &str| w@) =~= before.push(w@));
            assert(words_from(s@, gi) == seq![w@] + words_from(s@, e as int));
            assert(before.push(w@) + words_from(s@, e as int) =~= before + (seq![w@] + words_from(s@, e as int)));
            i = e;
        }
    }
    assert(words_from(s@, n as int) =~= Seq::<Seq<char>>::empty());
    assert(r@.map_values(|w: &str| w@) + Seq::<Seq<char>>::empty() =~= r@.map_values(|w: &str| w@));
    r
}

/// Names what `str::to_lowercase` returns for a text: its lowercase form
/// under the Unicode case mapping of the standard library.
pub uninterp spec fn lowercase(s: Seq<char>) -> Seq<char>;

/// Calls `str::to_lowercase`. The contract claims only that the result
/// depends on the text alone; the Unicode case mapping is not written out.
#[verifier::external_body]
pub(crate) fn to_lowercase(s: &str) -> (r: String)
    ensures
        r@ == lowercase(s@),
{
    s.to_lowercase()
}

/// Whether two texts hold the same characters.
pub fn str_eq(a: &str, b: &str) -> (r: bool)
    ensures
        r == (a@ == b@),
{
    let n = a.unicode_len();
    if n != b.unicode_len() {
        return false;
    }
    let mut i: usize = 0;
    while i < n
        invariant
            n == a@.len(),
            n == b@.len(),
            i <= n,
            a@.take(i as int) == b@.take(i as int),
        decreases n - i,
    {
        if a.get_char(i) != b.get_char(i) {
            assert(a@[i as int] != b@[i as int]);
            return false;
        }
        assert(a@.take(i + 1) =~= a@.take(i as int).push(a@[i as int]));
        assert(b@.take(i + 1) =~= b@.take(i as int).push(b@[i as int]));
        i = i + 1;
    }
    assert(a@ =~= a@.take(n as int));
    assert(b@ =~= b@.take(n as int));
    true
}

/// Whether `s` begins with `prefix` (`str::starts_with`).
pub fn starts_with(s: &str, prefix: &str) -> (r: bool)
    ensures
        r == prefix@.is_prefix_of(s@),
{
    let n = s.unicode_len();
    let m = prefix.unicode_len();
    if m > n {
        return false;
    }
    let mut i: usize = 0;
    while i < m
        invariant
            n == s@.len(),
            m == prefix@.len(),
            m <= n,
            i <= m,
            forall|k: int| 0 <= k < i ==> s@[k] == prefix@[k],
        decreases m - i,
    {
        if s.get_char(i) != prefix.get_char(i) {
            return false;
        }
        i = i + 1;
    }
    true
}

/// `str::strip_prefix`: the rest of `s` after `prefix`, when `s` begins with it.
pub fn strip_prefix<'a>(s: &'a str, prefix: &str) -> (r: Option<&'a str>)
    ensures
        prefix@.is_prefix_of(s@) ==> (r matches Some(t) && t@ == s@.skip(prefix@.len() as int)),
        !prefix@.is_prefix_of(s@) ==> r is None,
{
    if starts_with(s, prefix) {
        Some(s.substring_char(prefix.unicode_len(), s.unicode_len()))
    } else {
        None
    }
}

/// Index of the first occurrence of `c` in `s` at or after `i`
/// (`s.len()` when there is none).
pub open spec fn find_char_from(s: Seq<char>, c: char, i: int) -> int
    decreases s.len() - i,
{
    if 0 <= i < s.len() && s[i] != c {
        find_char_from(s, c, i + 1)
    } else {
        i
    }
}

/// The text of `s` before its first `c`: the first piece that
/// `str::split` on `c` yields.
pub open spec fn before_char(s: Seq<char>, c: char) -> Seq<char> {
    s.take(find_char_from(s, c, 0))
}

pub proof fn lemma_find_char_bounds(s: Seq<char>, c: char, i: int)
    requires
        0 <= i <= s.len(),
    ensures
        i <= find_char_from(s, c, i) <= s.len(),
        find_char_from(s, c, i) < s.len() ==> s[find_char_from(s, c, i)] == c,
        forall|k: int| i <= k < find_char_from(s, c, i) ==> #[trigger] s[k] != c,
    decreases s.len() - i,
{
    if i < s.len() && s[i] != c {
        lemma_find_char_bounds(s, c, i + 1);
    }
}

/// The first piece of `s.split(c)`.
pub fn first_piece<'a>(s: &'a str, c: char) -> (r: &'a str)
    ensures
        r@ == before_char(s@, c),
{
    let n = s.unicode_len();
    let mut i: usize = 0;
    while i < n && s.get_char(i) != c
        invariant
            n == s@.len(),
            i <= n,
            find_char_from(s@, c, i as int) == find_char_from(s@, c, 0),
        decreases n - i,
    {
        i = i + 1;
    }
    assert(find_char_from(s@, c, i as int) == i as int);
    s.substring_char(0, i)
}

/// `s` with every `from` replaced by the text `to`.
pub open spec fn replace_char(s: Seq<char>, from: char, to: Seq<char>) -> Seq<char>
    decreases s.len(),
{
    if s.len() == 0 {
        Seq::empty()
    } else {
        replace_char(s.drop_last(), from, to) + (if s.last() == from {
            to
        } else {
            seq![s.last()]
        })
    }
}

/// `str::replace` of one character by a text.
pub fn replace_char_str(s: &str, from: char, to: &str) -> (r: String)
    ensures
        r@ == replace_char(s@, from, to@),
{
    let n = s.unicode_len();
    let mut r = String::new();
    let mut i: usize = 0;
    while i < n
        invariant
            n == s@.len(),
            i <= n,
            r@ == replace_char(s@.take(i as int), from, to@),
        decreases n - i,
    {
        let c = s.get_char(i);
        if c == from {
            r.append(to);
        } else {
            r.append(s.substring_char(i, i + 1));
        }
        assert(s@.take(i + 1).drop_last() =~= s@.take(i as int));
        i = i + 1;
    }
    assert(s@.take(n as int) =~= s@);
    r
}

/// Whether `c` is an ASCII decimal digit.
pub open spec fn is_digit(c: char) -> bool {
    '0' <= c && c <= '9'
}

/// The value of a run of decimal digits.
pub open spec fn digits_value(s: Seq<char>) -> nat
    decreases s.len(),
{
    if s.len() == 0 {
        0
    } else {
        digits_value(s.drop_last()) * 10 + (s.last() as nat - 48) as nat
    }
}

/// The digits part of an unsigned number's text: `s` without one leading `+`.
pub open spec fn unsigned_digits(s: Seq<char>) -> Seq<char> {
    if s.len() > 0 && s[0] == '+' {
        s.drop_first()
    } else {
        s
    }
}

/// Whether every character of `d` is a decimal digit.
pub open spec fn all_digits(d: Seq<char>) -> bool {
    forall|k: int| 0 <= k < d.len() ==> is_digit(#[trigger] d[k])
}

/// What `str::parse` gives for an unsigned integer type whose largest value
/// is `max`: an optional `+`, then at least one decimal digit, with the value
/// in range.
pub open spec fn parse_unsigned(s: Seq<char>, max: nat) -> Option<nat> {
    let d = unsigned_digits(s);
    if d.len() > 0 && all_digits(d) && digits_value(d) <= max {
        Some(digits_value(d))
    } else {
        None
    }
}

pub proof fn lemma_digits_value_prefix(s: Seq<char>, k: int)
    requires
        0 <= k <= s.len(),
        forall|j: int| 0 <= j < s.len() ==> is_digit(#[trigger] s[j]),
    ensures
        digits_value(s.take(k)) <= digits_value(s),
    decreases s.len() - k,
{
    if k < s.len() {
        lemma_digits_value_prefix(s, k + 1);
        assert(s.take(k + 1).drop_last() =~= s.take(k));
    } else {
        assert(s.take(k) =~= s);
    }
}

/// `str::parse::<u64>()` (or a narrower unsigned type, by `max`) on a
/// sequence of characters.
pub fn parse_unsigned_chars(s: &Vec<char>, max: u64) -> (r: Option<u64>)
    ensures
        r matches Some(v) ==> parse_unsigned(s@, max as nat) == Some(v as nat),
        r is None ==> parse_unsigned(s@, max as nat) is None,
{
    let n = s.len();
    let start: usize = if n > 0 && s[0] == '+' {
        1
    } else {
        0
    };
    let ghost d = unsigned_digits(s@);
    assert(d =~= s@.skip(start as int));
    if start >= n {
        return None;
    }
    let mut v: u64 = 0;
    let mut i: usize = start;
    while i < n
        invariant
            n == s@.len(),
            start <= i <= n,
            d == s@.skip(start as int),
            d == unsigned_digits(s@),
            forall|k: int| 0 <= k < i - start ==> is_digit(#[trigger] d[k]),
            v as nat == digits_value(d.take(i - start)),
            v <= max,
        decreases n - i,
    {
        let c = s[i];
        if !('0' <= c && c <= '9') {
            assert(d[i - start] == c);
            assert(!is_digit(d[i - start]));
            assert(!all_digits(d));
            return None;
        }
        let dig: u64 = (c as u64) - 48;
        assert(d.take(i + 1 - start).drop_last() =~= d.take(i - start));
        if dig > max || v > (max - dig) / 10 {
            proof {
                assert(forall|k: int| 0 <= k < i + 1 - start ==> is_digit(#[trigger] d[k]));
                assert(v * 10 + dig > max) by (nonlinear_arith)
                    requires dig > max || v > (max - dig) / 10, v >= 0;
                if all_digits(d) {
                    lemma_digits_value_prefix(d, i + 1 - start);
                }
            }
            return None;
        }
        assert(v * 10 + dig <= max) by (nonlinear_arith)
            requires v <= (max - dig) / 10, dig <= 9, max >= dig;
        v = v * 10 + dig;
        i = i + 1;
    }
    assert(d.take(n - start) =~= d);
    Some(v)
}

/// The decimal digit character of `d`.
pub open spec fn digit_char(d: nat) -> char {
    (48 + d) as char
}

/// The decimal text of `n`, as `Display` writes an unsigned integer.
pub open spec fn decimal(n: nat) -> Seq<char>
    decreases n,
{
    if n < 10 {
        seq![digit_char(n)]
    } else {
        decimal(n / 10).push(digit_char(n % 10))
    }
}

fn digit_str(d: u64) -> (r: &'static str)
    requires
        d < 10,
    ensures
        r@ == seq![digit_char(d as nat)],
{
    if d == 0 {
        proof { reveal_strlit("0"); }
        "0"
    } else if d == 1 {
        proof { reveal_strlit("1"); }
        "1"
    } else if d == 2 {
        proof { reveal_strlit("2"); }
        "2"
    } else if d == 3 {
        proof { reveal_strlit("3"); }
        "3"
    } else if d == 4 {
        proof { reveal_strlit("4"); }
        "4"
    } else if d == 5 {
        proof { reveal_strlit("5"); }
        "5"
    } else if d == 6 {
        proof { reveal_strlit("6"); }
        "6"
    } else if d == 7 {
        proof { reveal_strlit("7"); }
        "7"
    } else if d == 8 {
        proof { reveal_strlit("8"); }
        "8"
    } else {
        proof { reveal_strlit("9"); }
        "9"
    }
}

/// The decimal text of `n`.
pub fn decimal_string(n: u64) -> (r: String)
    ensures
        r@ == decimal(n as nat),
    decreases n,
{
    if n < 10 {
        String::from_str(digit_str(n))
    } else {
        let mut r = decimal_string(n / 10);
        r.append(digit_str(n % 10));
        r
    }
}

/// `s` right-aligned in a field of `w` characters, as `{:>w}` writes it.
pub open spec fn pad_left(s: Seq<char>, w: nat) -> Seq<char> {
    if s.len() < w {
        Seq::new((w - s.len()) as nat, |i: int| ' ') + s
    } else {
        s
    }
}

/// `s` left-aligned in a field of `w` characters, as `{:<w}` writes it.
pub open spec fn pad_right(s: Seq<char>, w: nat) -> Seq<char> {
    if s.len() < w {
        s + Seq::new((w - s.len()) as nat, |i: int| ' ')
    } else {
        s
    }
}

/// `k` copies of the text `unit`.
pub open spec fn repeat(unit: Seq<char>, k: nat) -> Seq<char>
    decreases k,
{
    if k == 0 {
        Seq::empty()
    } else {
        repeat(unit, (k - 1) as nat) + unit
    }
}

/// `k` copies of `unit` (`str::repeat`).
pub fn repeat_str(unit: &str, k: usize) -> (r: String)
    ensures
        r@ == repeat(unit@, k as nat),
{
    let mut r = String::new();
    let mut i: usize = 0;
    while i < k
        invariant
            i <= k,
            r@ == repeat(unit@, i as nat),
        decreases k - i,
    {
        r.append(unit);
        i = i + 1;
    }
    r
}

pub proof fn lemma_repeat_space(k: nat)
    ensures
        repeat(seq![' '], k) =~= Seq::new(k, |i: int| ' '),
    decreases k,
{
    if k > 0 {
        lemma_repeat_space((k - 1) as nat);
    }
}

/// `s` right-aligned in `w` characters.
pub fn pad_left_str(s: &str, w: usize) -> (r: String)
    ensures
        r@ == pad_left(s@, w as nat),
{
    let n = s.unicode_len();
    let mut r = String::new();
    if n < w {
        proof { reveal_strlit(" "); }
        r = repeat_str(" ", w - n);
        proof {
            lemma_repeat_space((w - n) as nat);
            assert(" "@ =~= seq![' ']);
        }
    }
    r.append(s);
    assert(r@ =~= pad_left(s@, w as nat));
    r
}

/// `s` left-aligned in `w` characters.
pub fn pad_right_str(s: &str, w: usize) -> (r: String)
    ensures
        r@ == pad_right(s@, w as nat),
{
    let n = s.unicode_len();
    let mut r = String::from_str(s);
    if n < w {
        proof { reveal_strlit(" "); }
        let sp = repeat_str(" ", w - n);
        proof {
            lemma_repeat_space((w - n) as nat);
            assert(" "@ =~= seq![' ']);
        }
        r.append(sp.as_str());
    }
    assert(r@ =~= pad_right(s@, w as nat));
    r
}

/// `str::strip_suffix`: the text of `s` before `suffix`, when `s` ends with it.
pub fn strip_suffix<'a>(s: &'a str, suffix: &str) -> (r: Option<&'a str>)
    ensures
        suffix@.len() <= s@.len() && s@.skip(s@.len() - suffix@.len()) == suffix@ ==> (r matches Some(
            t,
        ) && t@ == s@.take(s@.len() - suffix@.len())),
        !(suffix@.len() <= s@.len() && s@.skip(s@.len() - suffix@.len()) == suffix@) ==> r is None,
{
    let n = s.unicode_len();
    let m = suffix.unicode_len();
    if m > n {
        return None;
    }
    let mut i: usize = 0;
    while i < m
        invariant
            n == s@.len(),
            m == suffix@.len(),
            m <= n,
            i <= m,
            forall|k: int| 0 <= k < i ==> s@[n - m + k] == suffix@[k],
        decreases m - i,
    {
        if s.get_char(n - m + i) != suffix.get_char(i) {
            assert(s@.skip(n - m)[i as int] != suffix@[i as int]);
            return None;
        }
        i = i + 1;
    }
    assert(s@.skip(n - m) =~= suffix@);
    Some(s.substring_char(0, n - m))
}

} // verus!
