//! Character-level parsing helpers: whitespace tokenization, line splitting,
//! substring search and decimal numbers, with exact specifications over
//! `Seq<char>`.

use vstd::prelude::*;

verus! {

/// The whitespace characters that separate the fields of a device line.
pub open spec fn is_space(c: char) -> bool {
    c == ' ' || c == '\t' || c == '\n' || c == '\r' || c == '\u{b}' || c == '\u{c}'
}

/// An ASCII decimal digit.
pub open spec fn is_digit(c: char) -> bool {
    '0' as int <= c as int && c as int <= '9' as int
}

/// The numeric value of an ASCII decimal digit.
pub open spec fn digit_val(c: char) -> int {
    c as int - '0' as int
}

pub open spec fn all_digits(s: Seq<char>) -> bool {
    forall|i: int| 0 <= i < s.len() ==> is_digit(#[trigger] s[i])
}

/// The value of a digit string read as a base-10 number.
pub open spec fn num_val(s: Seq<char>) -> int
    decreases s.len(),
{
    if s.len() == 0 {
        0
    } else {
        num_val(s.drop_last()) * 10 + digit_val(s.last())
    }
}

/// What `parse_u16_str` returns: the number, if the string is a non-empty,
/// all-digit string whose value fits in a `u16`.
pub open spec fn spec_parse_u16(s: Seq<char>) -> Option<u16> {
    if s.len() > 0 && all_digits(s) && num_val(s) <= u16::MAX {
        Some(num_val(s) as u16)
    } else {
        None
    }
}

/// The index of the first occurrence of `c` in `s`, or `s.len()` if absent.
pub open spec fn find_char(s: Seq<char>, c: char) -> int
    decreases s.len(),
{
    if s.len() == 0 {
        0
    } else if s[0] == c {
        0
    } else {
        1 + find_char(s.skip(1), c)
    }
}

pub proof fn lemma_find_char_bounds(s: Seq<char>, c: char)
    ensures
        0 <= find_char(s, c) <= s.len(),
        find_char(s, c) < s.len() ==> s[find_char(s, c)] == c,
        forall|j: int| 0 <= j < find_char(s, c) ==> s[j] != c,
    decreases s.len(),
{
    if s.len() != 0 && s[0] != c {
        lemma_find_char_bounds(s.skip(1), c);
        assert forall|j: int| 0 <= j < find_char(s, c) implies s[j] != c by {
            if j > 0 {
                assert(s.skip(1)[j - 1] == s[j]);
            }
        }
        if find_char(s, c) < s.len() {
            assert(s.skip(1)[find_char(s.skip(1), c)] == s[find_char(s, c)]);
        }
    }
}

/// `find_char` is the unique index with the first-occurrence property.
pub proof fn lemma_find_char_is(s: Seq<char>, c: char, i: int)
    requires
        0 <= i <= s.len(),
        forall|j: int| 0 <= j < i ==> s[j] != c,
        i == s.len() || s[i] == c,
    ensures
        find_char(s, c) == i,
    decreases s.len(),
{
    if s.len() != 0 && s[0] != c {
        assert(i != 0);
        lemma_find_char_is(s.skip(1), c, i - 1);
    }
}

/// The length of the maximal non-whitespace prefix of `s`.
pub open spec fn token_len(s: Seq<char>) -> int
    decreases s.len(),
{
    if s.len() == 0 || is_space(s[0]) {
        0
    } else {
        1 + token_len(s.skip(1))
    }
}

pub proof fn lemma_token_len_bounds(s: Seq<char>)
    ensures
        0 <= token_len(s) <= s.len(),
        token_len(s) < s.len() ==> is_space(s[token_len(s)]),
        forall|j: int| 0 <= j < token_len(s) ==> !is_space(s[j]),
    decreases s.len(),
{
    if s.len() != 0 && !is_space(s[0]) {
        lemma_token_len_bounds(s.skip(1));
        assert forall|j: int| 0 <= j < token_len(s) implies !is_space(s[j]) by {
            if j > 0 {
                assert(s.skip(1)[j - 1] == s[j]);
            }
        }
        if token_len(s) < s.len() {
            assert(s.skip(1)[token_len(s.skip(1))] == s[token_len(s)]);
        }
    }
}

/// `token_len` is the unique length with the maximal-prefix property.
pub proof fn lemma_token_len_is(s: Seq<char>, k: int)
    requires
        0 <= k <= s.len(),
        forall|j: int| 0 <= j < k ==> !is_space(s[j]),
        k == s.len() || is_space(s[k]),
    ensures
        token_len(s) == k,
    decreases s.len(),
{
    if s.len() != 0 && !is_space(s[0]) {
        assert(k != 0);
        lemma_token_len_is(s.skip(1), k - 1);
    }
}

/// The whitespace-separated tokens of `s`, in order.
pub open spec fn spec_tokens(s: Seq<char>) -> Seq<Seq<char>>
    decreases s.len(),
    via spec_tokens_dec
{
    if s.len() == 0 {
        seq![]
    } else if is_space(s[0]) {
        spec_tokens(s.skip(1))
    } else {
        seq![s.take(token_len(s))] + spec_tokens(s.skip(token_len(s)))
    }
}

#[via_fn]
proof fn spec_tokens_dec(s: Seq<char>) {
    if s.len() != 0 && !is_space(s[0]) {
        lemma_token_len_bounds(s);
    }
}

/// Reading the maximal non-space prefix peels off exactly one token.
pub proof fn lemma_tokens_step(s: Seq<char>)
    requires
        s.len() > 0,
        !is_space(s[0]),
    ensures
        spec_tokens(s) == seq![s.take(token_len(s))] + spec_tokens(s.skip(token_len(s))),
{
}

/// A trailing carriage return is stripped from each line, as `str::lines`
/// does.
pub open spec fn strip_cr(s: Seq<char>) -> Seq<char> {
    if s.len() > 0 && s.last() == '\r' {
        s.drop_last()
    } else {
        s
    }
}

/// The lines of `s`: split at `'\n'`, one trailing `'\r'` stripped from each
/// line, and no empty line after a final `'\n'`.
pub open spec fn spec_lines(s: Seq<char>) -> Seq<Seq<char>>
    decreases s.len(),
    via spec_lines_dec
{
    if s.len() == 0 {
        seq![]
    } else {
        let i = find_char(s, '\n');
        if i == s.len() {
            seq![strip_cr(s)]
        } else {
            seq![strip_cr(s.take(i))] + spec_lines(s.skip(i + 1))
        }
    }
}

#[via_fn]
proof fn spec_lines_dec(s: Seq<char>) {
    if s.len() != 0 {
        lemma_find_char_bounds(s, '\n');
    }
}

/// The index of the first occurrence of `pat` as a subsequence of `s`.
pub open spec fn find_sub(s: Seq<char>, pat: Seq<char>) -> Option<int>
    decreases s.len(),
    via find_sub_dec
{
    if pat.len() > s.len() {
        None
    } else if s.take(pat.len() as int) == pat {
        Some(0int)
    } else {
        match find_sub(s.skip(1), pat) {
            Some(j) => Some(1 + j),
            None => None,
        }
    }
}

#[via_fn]
proof fn find_sub_dec(s: Seq<char>, pat: Seq<char>) {
    if pat.len() <= s.len() && s.take(pat.len() as int) != pat {
        if pat.len() == 0 {
            assert(s.take(0) =~= pat);
        }
    }
}

/// `pat` occurs in `s` at position `i`.
pub open spec fn matches_at(s: Seq<char>, pat: Seq<char>, i: int) -> bool {
    0 <= i && i + pat.len() <= s.len() && s.subrange(i, i + pat.len()) == pat
}

pub proof fn lemma_find_sub_some(s: Seq<char>, pat: Seq<char>, i: int)
    requires
        matches_at(s, pat, i),
        forall|j: int| 0 <= j < i ==> !matches_at(s, pat, j),
    ensures
        find_sub(s, pat) == Some(i),
    decreases s.len(),
{
    assert(pat.len() <= s.len());
    if i == 0 {
        assert(s.take(pat.len() as int) =~= s.subrange(0, pat.len() as int));
    } else {
        assert(!matches_at(s, pat, 0));
        assert(s.take(pat.len() as int) =~= s.subrange(0, pat.len() as int));
        assert(s.take(pat.len() as int) != pat);
        assert(matches_at(s.skip(1), pat, i - 1)) by {
            assert(s.skip(1).subrange(i - 1, i - 1 + pat.len()) =~= s.subrange(i, i + pat.len()));
        }
        assert forall|j: int| 0 <= j < i - 1 implies !matches_at(s.skip(1), pat, j) by {
            assert(!matches_at(s, pat, j + 1));
            if 0 <= j && j + pat.len() <= s.skip(1).len() {
                assert(s.skip(1).subrange(j, j + pat.len()) =~= s.subrange(j + 1, j + 1 + pat.len()));
            }
        }
        lemma_find_sub_some(s.skip(1), pat, i - 1);
    }
}

pub proof fn lemma_find_sub_none(s: Seq<char>, pat: Seq<char>)
    requires
        forall|j: int| 0 <= j ==> !matches_at(s, pat, j),
    ensures
        find_sub(s, pat) is None,
    decreases s.len(),
{
    if pat.len() <= s.len() {
        assert(!matches_at(s, pat, 0));
        assert(s.take(pat.len() as int) =~= s.subrange(0, pat.len() as int));
        assert(s.take(pat.len() as int) != pat);
        assert(pat.len() >= 1) by {
            if pat.len() == 0 {
                assert(s.take(0) =~= pat);
            }
        }
        assert forall|j: int| 0 <= j implies !matches_at(s.skip(1), pat, j) by {
            assert(!matches_at(s, pat, j + 1));
            if j + pat.len() <= s.skip(1).len() {
                assert(s.skip(1).subrange(j, j + pat.len()) =~= s.subrange(j + 1, j + 1 + pat.len()));
            }
        }
        lemma_find_sub_none(s.skip(1), pat);
    }
}

/// Executable test for `is_space`.
pub fn is_space_char(c: char) -> (r: bool)
    ensures
        r == is_space(c),
{
    c == ' ' || c == '\t' || c == '\n' || c == '\r' || c == '\u{b}' || c == '\u{c}'
}

/// Character-sequence equality of two strings.
pub fn str_eq(a: &str, b: &str) -> (r: bool)
    ensures
        r == (a@ == b@),
{
    let alen = a.unicode_len();
    let blen = b.unicode_len();
    if alen != blen {
        return false;
    }
    let mut i: usize = 0;
    while i < alen
        invariant
            alen == a@.len(),
            alen == b@.len(),
            i <= alen,
            forall|j: int| 0 <= j < i ==> a@[j] == b@[j],
        decreases alen - i,
    {
        let ca = a.get_char(i);
        let cb = b.get_char(i);
        if ca != cb {
            return false;
        }
        i += 1;
    }
    proof {
        assert(a@ =~= b@);
    }
    true
}

/// The index of the first occurrence of `c` in `s`, or the length of `s`.
pub fn find_char_str(s: &str, c: char) -> (r: usize)
    ensures
        r == find_char(s@, c),
        r <= s@.len(),
        r < s@.len() ==> s@[r as int] == c,
{
    let n = s.unicode_len();
    let mut i: usize = 0;
    while i < n
        invariant
            n == s@.len(),
            i <= n,
            forall|j: int| 0 <= j < i ==> s@[j] != c,
        decreases n - i,
    {
        if s.get_char(i) == c {
            proof {
                lemma_find_char_is(s@, c, i as int);
            }
            return i;
        }
        i += 1;
    }
    proof {
        lemma_find_char_is(s@, c, n as int);
    }
    n
}

pub proof fn lemma_num_val_nonneg(s: Seq<char>)
    requires
        all_digits(s),
    ensures
        num_val(s) >= 0,
    decreases s.len(),
{
    if s.len() > 0 {
        assert(all_digits(s.drop_last())) by {
            assert forall|i: int| 0 <= i < s.drop_last().len() implies is_digit(
                #[trigger] s.drop_last()[i],
            ) by {
                assert(s.drop_last()[i] == s[i]);
            }
        }
        lemma_num_val_nonneg(s.drop_last());
    }
}

/// The value of a digit string is at least the value of any of its prefixes.
pub proof fn lemma_num_val_prefix(s: Seq<char>, j: int)
    requires
        all_digits(s),
        0 <= j <= s.len(),
    ensures
        num_val(s.take(j)) <= num_val(s),
    decreases s.len() - j,
{
    if j == s.len() {
        assert(s.take(j) =~= s);
    } else {
        assert(all_digits(s.take(j))) by {
            assert forall|i: int| 0 <= i < s.take(j).len() implies is_digit(
                #[trigger] s.take(j)[i],
            ) by {
                assert(s.take(j)[i] == s[i]);
            }
        }
        lemma_num_val_nonneg(s.take(j));
        assert(s.take(j + 1).drop_last() =~= s.take(j));
        assert(s.take(j + 1).last() == s[j]);
        assert(num_val(s.take(j + 1)) == num_val(s.take(j)) * 10 + digit_val(s[j]));
        lemma_num_val_prefix(s, j + 1);
    }
}

/// Parses a non-empty all-digit string as a decimal `u16`.
pub fn parse_u16_str(s: &str) -> (r: Option<u16>)
    ensures
        r == spec_parse_u16(s@),
{
    let n = s.unicode_len();
    if n == 0 {
        return None;
    }
    let mut i: usize = 0;
    let mut acc: u32 = 0;
    while i < n
        invariant
            n == s@.len(),
            0 < n,
            i <= n,
            all_digits(s@.take(i as int)),
            acc == num_val(s@.take(i as int)),
            acc <= 65535,
        decreases n - i,
    {
        let c = s.get_char(i);
        let code: u32 = c as u32;
        if code < 48 || code > 57 {
            proof {
                assert(!is_digit(s@[i as int]));
            }
            return None;
        }
        let acc2: u32 = acc * 10 + (code - 48);
        proof {
            assert(s@.take(i as int + 1).drop_last() =~= s@.take(i as int));
            assert(s@.take(i as int + 1).last() == s@[i as int]);
            assert(num_val(s@.take(i as int + 1)) == acc * 10 + digit_val(s@[i as int]));
            assert(all_digits(s@.take(i as int + 1))) by {
                assert forall|k: int| 0 <= k < i + 1 implies is_digit(
                    #[trigger] s@.take(i as int + 1)[k],
                ) by {
                    assert(s@.take(i as int + 1)[k] == s@[k]);
                    if k < i {
                        assert(s@.take(i as int)[k] == s@[k]);
                    }
                }
            }
        }
        if acc2 > 65535 {
            proof {
                if all_digits(s@) {
                    lemma_num_val_prefix(s@, i as int + 1);
                }
            }
            return None;
        }
        acc = acc2;
        i += 1;
    }
    proof {
        assert(s@.take(n as int) =~= s@);
    }
    Some(acc as u16)
}

/// Whether the character at index `j` of `s` is whitespace.
fn space_at(s: &str, j: usize) -> (r: bool)
    requires
        j < s@.len(),
    ensures
        r == is_space(s@[j as int]),
{
    is_space_char(s.get_char(j))
}

/// The whitespace-separated tokens of `s`, in order.
pub fn tokens_of(s: &str) -> (r: Vec<String>)
    ensures
        r@.map_values(|t: String| t@) == spec_tokens(s@),
{
    let n = s.unicode_len();
    let mut r: Vec<String> = Vec::new();
    let mut i: usize = 0;
    proof {
        assert(s@.skip(0) =~= s@);
        assert(r@.map_values(|t: String| t@) + spec_tokens(s@) =~= spec_tokens(s@));
    }
    while i < n
        invariant
            n == s@.len(),
            i <= n,
            spec_tokens(s@) == r@.map_values(|t: String| t@) + spec_tokens(s@.skip(i as int)),
        decreases n - i,
    {
        if space_at(s, i) {
            proof {
                assert(s@.skip(i as int)[0] == s@[i as int]);
                assert(s@.skip(i as int).skip(1) =~= s@.skip(i as int + 1));
            }
            i += 1;
        } else {
            let mut j: usize = i;
            while j < n && !space_at(s, j)
                invariant
                    n == s@.len(),
                    i <= j <= n,
                    i < n,
                    !is_space(s@[i as int]),
                    forall|m: int| i <= m < j ==> !is_space(s@[m]),
                decreases n - j,
            {
                j += 1;
            }
            let tok = s.substring_char(i, j).to_owned();
            proof {
                let suf = s@.skip(i as int);
                assert(suf[0] == s@[i as int]);
                assert forall|m: int| 0 <= m < j - i implies !is_space(suf[m]) by {
                    assert(suf[m] == s@[i + m]);
                }
                if j < n {
                    assert(suf[j - i] == s@[j as int]);
                }
                lemma_token_len_is(suf, j - i);
                lemma_tokens_step(suf);
                assert(suf.take(j - i) =~= s@.subrange(i as int, j as int));
                assert(suf.skip(j - i) =~= s@.skip(j as int));
                let f = |t: String| t@;
                assert(r@.push(tok).map_values(f) =~= r@.map_values(f).push(tok@));
                assert(r@.map_values(f).push(tok@) + spec_tokens(s@.skip(j as int)) =~= r@.map_values(
                    f,
                ) + (seq![tok@] + spec_tokens(s@.skip(j as int))));
            }
            r.push(tok);
            proof {
                assert(j > i) by {
                    if j == i {
                        assert(is_space(s@[i as int]));
                    }
                }
            }
            i = j;
        }
    }
    proof {
        assert(s@.skip(n as int) =~= Seq::<char>::empty());
        assert(spec_tokens(s@.skip(n as int)) =~= Seq::<Seq<char>>::empty());
        assert(r@.map_values(|t: String| t@) + spec_tokens(s@.skip(n as int)) =~= r@.map_values(
            |t: String| t@,
        ));
    }
    r
}

/// The lines of `s`, as `spec_lines` describes them.
pub fn split_lines(s: &str) -> (r: Vec<String>)
    ensures
        r@.map_values(|l: String| l@) == spec_lines(s@),
{
    let n = s.unicode_len();
    let mut r: Vec<String> = Vec::new();
    let mut i: usize = 0;
    proof {
        assert(s@.skip(0) =~= s@);
        assert(r@.map_values(|l: String| l@) + spec_lines(s@) =~= spec_lines(s@));
    }
    while i < n
        invariant
            n == s@.len(),
            i <= n,
            spec_lines(s@) == r@.map_values(|l: String| l@) + spec_lines(s@.skip(i as int)),
        decreases n - i,
    {
        let mut j: usize = i;
        while j < n && s.get_char(j) != '\n'
            invariant
                n == s@.len(),
                i <= j <= n,
                forall|m: int| i <= m < j ==> s@[m] != '\n',
            decreases n - j,
        {
            j += 1;
        }
        let line_end: usize = if j > i && s.get_char(j - 1) == '\r' {
            j - 1
        } else {
            j
        };
        let line = s.substring_char(i, line_end).to_owned();
        proof {
            let suf = s@.skip(i as int);
            assert forall|m: int| 0 <= m < j - i implies suf[m] != '\n' by {
                assert(suf[m] == s@[i + m]);
            }
            if j < n {
                assert(suf[j - i] == s@[j as int]);
            }
            lemma_find_char_is(suf, '\n', j - i);
            let piece = if j == n {
                suf
            } else {
                suf.take(j - i)
            };
            assert(piece =~= s@.subrange(i as int, j as int));
            if j > i && s@[j - 1] == '\r' {
                assert(piece.last() == s@[j - 1]);
                assert(strip_cr(piece) =~= s@.subrange(i as int, j - 1));
            } else {
                if piece.len() > 0 {
                    assert(piece.last() == s@[j - 1]);
                }
                assert(strip_cr(piece) =~= s@.subrange(i as int, j as int));
            }
            assert(line@ == strip_cr(piece));
            let f = |l: String| l@;
            assert(r@.push(line).map_values(f) =~= r@.map_values(f).push(line@));
            if j < n {
                assert(suf.skip(j - i + 1) =~= s@.skip(j + 1));
                assert(spec_lines(suf) == seq![strip_cr(suf.take(j - i))] + spec_lines(
                    s@.skip(j + 1),
                ));
                assert(r@.map_values(f).push(line@) + spec_lines(s@.skip(j + 1)) =~= r@.map_values(
                    f,
                ) + (seq![line@] + spec_lines(s@.skip(j + 1))));
            } else {
                assert(spec_lines(suf) == seq![strip_cr(suf)]);
                assert(s@.skip(n as int) =~= Seq::<char>::empty());
                assert(r@.map_values(f).push(line@) + spec_lines(s@.skip(n as int))
                    =~= r@.map_values(f) + seq![line@]);
            }
        }
        r.push(line);
        i = if j < n {
            j + 1
        } else {
            n
        };
    }
    proof {
        assert(s@.skip(n as int) =~= Seq::<char>::empty());
        assert(r@.map_values(|l: String| l@) + spec_lines(s@.skip(n as int)) =~= r@.map_values(
            |l: String| l@,
        ));
    }
    r
}

/// Whether `pat` occurs in `s` at position `i`.
fn match_at(s: &str, pat: &str, i: usize) -> (r: bool)
    requires
        i + pat@.len() <= s@.len(),
    ensures
        r == matches_at(s@, pat@, i as int),
{
    let n = s.unicode_len();
    let m = pat.unicode_len();
    let mut k: usize = 0;
    while k < m
        invariant
            n == s@.len(),
            m == pat@.len(),
            i + m <= s@.len(),
            k <= m,
            forall|t: int| 0 <= t < k ==> s@[i + t] == pat@[t],
        decreases m - k,
    {
        if s.get_char(i + k) != pat.get_char(k) {
            proof {
                assert(s@.subrange(i as int, i as int + pat@.len())[k as int] == s@[i + k]);
            }
            return false;
        }
        k += 1;
    }
    proof {
        assert(s@.subrange(i as int, i as int + pat@.len()) =~= pat@);
    }
    true
}

/// The index of the first occurrence of `pat` as a substring of `s`.
pub fn find_sub_str(s: &str, pat: &str) -> (r: Option<usize>)
    ensures
        match r {
            Some(i) => find_sub(s@, pat@) == Some(i as int) && i + pat@.len() <= s@.len(),
            None => find_sub(s@, pat@) is None,
        },
{
    let n = s.unicode_len();
    let m = pat.unicode_len();
    if m > n {
        proof {
            lemma_find_sub_none(s@, pat@);
        }
        return None;
    }
    if m == 0 {
        proof {
            assert(s@.subrange(0, 0) =~= pat@);
            assert(matches_at(s@, pat@, 0));
            lemma_find_sub_some(s@, pat@, 0);
        }
        return Some(0);
    }
    let mut i: usize = 0;
    while i <= n - m
        invariant
            n == s@.len(),
            m == pat@.len(),
            0 < m <= n,
            i <= n - m + 1,
            forall|j: int| 0 <= j < i ==> !matches_at(s@, pat@, j),
        decreases n - m - i + 1,
    {
        if match_at(s, pat, i) {
            proof {
                lemma_find_sub_some(s@, pat@, i as int);
            }
            return Some(i);
        }
        i += 1;
    }
    proof {
        assert forall|j: int| 0 <= j implies !matches_at(s@, pat@, j) by {
            if j < i {
            } else {
                assert(j + pat@.len() > s@.len());
            }
        }
        lemma_find_sub_none(s@, pat@);
    }
    None
}

} // verus!
