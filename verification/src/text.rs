//! Small verified text utilities: character classes, substring search,
//! trimming, repetition and decimal rendering. The scanner and the name
//! generator are built on these.

use vstd::prelude::*;

verus! {

/// The whitespace characters the scanner treats as blank.
pub open spec fn is_ws_char(c: char) -> bool {
    c == ' ' || c == '\t' || c == '\n' || c == '\r'
}

/// An ASCII letter.
pub open spec fn is_ascii_alpha(c: char) -> bool {
    ('a' as u32 <= c as u32 && c as u32 <= 'z' as u32) || ('A' as u32 <= c as u32 && c as u32
        <= 'Z' as u32)
}

/// An ASCII digit.
pub open spec fn is_ascii_digit(c: char) -> bool {
    '0' as u32 <= c as u32 && c as u32 <= '9' as u32
}

/// An ASCII letter or digit.
pub open spec fn is_ascii_alnum(c: char) -> bool {
    is_ascii_alpha(c) || is_ascii_digit(c)
}

/// Whether `c` is one of the scanner's whitespace characters.
pub fn ws_char(c: char) -> (r: bool)
    ensures
        r == is_ws_char(c),
{
    c == ' ' || c == '\t' || c == '\n' || c == '\r'
}

/// Whether `c` is an ASCII letter.
pub fn ascii_alpha(c: char) -> (r: bool)
    ensures
        r == is_ascii_alpha(c),
{
    let u = c as u32;
    (97 <= u && u <= 122) || (65 <= u && u <= 90)
}

/// Whether `c` is an ASCII digit.
pub fn ascii_digit(c: char) -> (r: bool)
    ensures
        r == is_ascii_digit(c),
{
    let u = c as u32;
    48 <= u && u <= 57
}

/// Whether `c` is an ASCII letter or digit.
pub fn ascii_alnum(c: char) -> (r: bool)
    ensures
        r == is_ascii_alnum(c),
{
    ascii_alpha(c) || ascii_digit(c)
}

/// Relies on `String::push`: appends exactly one character.
#[verifier::external_body]
pub fn push_char(s: &mut String, c: char)
    ensures
        final(s)@ == old(s)@.push(c),
{
    s.push(c);
}

/// The index of the first occurrence of `c` in `s`, if any.
pub fn find_char(s: &str, c: char) -> (r: Option<usize>)
    ensures
        match r {
            Some(i) => i < s@.len() && s@[i as int] == c && (forall|j: int|
                0 <= j < i ==> s@[j] != c),
            None => forall|j: int| 0 <= j < s@.len() ==> s@[j] != c,
        },
{
    let n = s.unicode_len();
    let mut i: usize = 0;
    while i < n
        invariant
            n == s@.len(),
            i <= n,
            forall|j: int| 0 <= j < i ==> s@[j] != c,
        decreases n - i,
    {
        if s.get_char(i) == c {
            return Some(i);
        }
        i = i + 1;
    }
    None
}

/// The pattern occurs in `s` starting at index `i`.
pub open spec fn matches_at(s: Seq<char>, pat: Seq<char>, i: int) -> bool {
    &&& 0 <= i
    &&& i + pat.len() <= s.len()
    &&& forall|k: int| 0 <= k < pat.len() ==> s[i + k] == pat[k]
}

/// The pattern occurs somewhere in `s`.
pub open spec fn contains_str(s: Seq<char>, pat: Seq<char>) -> bool {
    exists|i: int| matches_at(s, pat, i)
}

fn match_at_idx(s: &str, pat: &str, i: usize) -> (r: bool)
    requires
        i + pat@.len() <= s@.len(),
        s@.len() <= usize::MAX,
    ensures
        r == matches_at(s@, pat@, i as int),
{
    let m = pat.unicode_len();
    let mut k: usize = 0;
    while k < m
        invariant
            i + m <= s@.len(),
            s@.len() <= usize::MAX,
            m == pat@.len(),
            k <= m,
            forall|t: int| 0 <= t < k ==> s@[i + t] == pat@[t],
        decreases m - k,
    {
        if s.get_char(i + k) != pat.get_char(k) {
            proof {
                assert(s@[i + k as int] != pat@[k as int]);
            }
            return false;
        }
        k = k + 1;
    }
    true
}

/// The index of the first occurrence of `pat` in `s`, if any.
pub fn find_str(s: &str, pat: &str) -> (r: Option<usize>)
    ensures
        match r {
            Some(i) => matches_at(s@, pat@, i as int) && (forall|j: int|
                0 <= j < i ==> !matches_at(s@, pat@, j)),
            None => !contains_str(s@, pat@),
        },
{
    let n = s.unicode_len();
    let m = pat.unicode_len();
    if m > n {
        return None;
    }
    let mut i: usize = 0;
    while i <= n - m
        invariant
            n == s@.len(),
            m == pat@.len(),
            m <= n,
            i <= n - m + 1,
            forall|j: int| 0 <= j < i ==> !matches_at(s@, pat@, j),
        decreases n - i,
    {
        if match_at_idx(s, pat, i) {
            return Some(i);
        }
        i = i + 1;
    }
    None
}

/// Whether two strings hold the same characters.
pub fn str_eq(a: &str, b: &str) -> (r: bool)
    ensures
        r == (a@ == b@),
{
    let n = a.unicode_len();
    if n != b.unicode_len() {
        return false;
    }
    let mut i: usize = 0;
    while i < n
        invariant
            n == a@.len(),
            n == b@.len(),
            i <= n,
            forall|j: int| 0 <= j < i ==> a@[j] == b@[j],
        decreases n - i,
    {
        if a.get_char(i) != b.get_char(i) {
            proof {
                assert(a@[i as int] != b@[i as int]);
            }
            return false;
        }
        i = i + 1;
    }
    proof {
        assert(a@ =~= b@);
    }
    true
}

/// The index of the first occurrence of `c` in `s`, or -1 when `c` does
/// not occur.
pub open spec fn find_char_spec(s: Seq<char>, c: char) -> int
    decreases s.len(),
{
    if s.len() == 0 {
        -1
    } else if s[0] == c {
        0
    } else {
        let r = find_char_spec(s.drop_first(), c);
        if r == -1 {
            -1
        } else {
            r + 1
        }
    }
}

/// `find_char_spec` returns the first occurrence or -1.
pub proof fn lemma_find_char_spec(s: Seq<char>, c: char)
    ensures
        find_char_spec(s, c) == -1 ==> (forall|j: int| 0 <= j < s.len() ==> s[j] != c),
        find_char_spec(s, c) != -1 ==> {
            let i = find_char_spec(s, c);
            &&& 0 <= i < s.len()
            &&& s[i] == c
            &&& forall|j: int| 0 <= j < i ==> s[j] != c
        },
    decreases s.len(),
{
    if s.len() == 0 {
    } else if s[0] == c {
    } else {
        lemma_find_char_spec(s.drop_first(), c);
        if find_char_spec(s, c) == -1 {
            assert forall|j: int| 0 <= j < s.len() implies s[j] != c by {
                if j > 0 {
                    assert(s.drop_first()[j - 1] == s[j]);
                }
            }
        } else {
            assert(s.drop_first()[find_char_spec(s.drop_first(), c)] == s[find_char_spec(s, c)]);
            assert forall|j: int| 0 <= j < find_char_spec(s, c) implies s[j] != c by {
                if j > 0 {
                    assert(s.drop_first()[j - 1] == s[j]);
                }
            }
        }
    }
}

/// The index of the first occurrence of `pat` in `s`, or -1 when `pat`
/// does not occur.
pub open spec fn find_str_spec(s: Seq<char>, pat: Seq<char>) -> int
    decreases s.len(),
{
    if s.len() < pat.len() {
        -1
    } else if matches_at(s, pat, 0) {
        0
    } else if s.len() == 0 {
        -1
    } else {
        let r = find_str_spec(s.drop_first(), pat);
        if r == -1 {
            -1
        } else {
            r + 1
        }
    }
}

/// `find_str_spec` returns the first occurrence or -1.
pub proof fn lemma_find_str_spec(s: Seq<char>, pat: Seq<char>)
    ensures
        find_str_spec(s, pat) == -1 ==> !contains_str(s, pat),
        find_str_spec(s, pat) != -1 ==> {
            let i = find_str_spec(s, pat);
            &&& matches_at(s, pat, i)
            &&& forall|j: int| 0 <= j < i ==> !matches_at(s, pat, j)
        },
    decreases s.len(),
{
    if s.len() < pat.len() {
        assert forall|i: int| !matches_at(s, pat, i) by {}
    } else if matches_at(s, pat, 0) {
    } else if s.len() == 0 {
        assert forall|i: int| !matches_at(s, pat, i) by {}
    } else {
        lemma_find_str_spec(s.drop_first(), pat);
        let t = s.drop_first();
        assert forall|j: int| 0 <= j && matches_at(s, pat, j) implies j >= 1 && matches_at(
            t,
            pat,
            j - 1,
        ) by {
            assert forall|k: int| 0 <= k < pat.len() implies t[j - 1 + k] == pat[k] by {
                assert(t[j - 1 + k] == s[j + k]);
            }
        }
        assert forall|j: int| 0 <= j && matches_at(t, pat, j) implies matches_at(
            s,
            pat,
            j + 1,
        ) by {
            assert forall|k: int| 0 <= k < pat.len() implies s[j + 1 + k] == pat[k] by {
                assert(t[j + k] == s[j + 1 + k]);
            }
        }
        if find_str_spec(s, pat) == -1 {
            if contains_str(s, pat) {
                let j = choose|j: int| matches_at(s, pat, j);
                assert(matches_at(t, pat, j - 1));
                assert(false);
            }
        }
    }
}

/// Whether `s` begins with `pat`.
pub fn starts_with(s: &str, pat: &str) -> (r: bool)
    ensures
        r == matches_at(s@, pat@, 0),
{
    let n = s.unicode_len();
    let m = pat.unicode_len();
    if m > n {
        return false;
    }
    match_at_idx(s, pat, 0)
}

/// The index of the first character that is not whitespace, or -1 when
/// the string is all whitespace.
pub open spec fn first_non_ws_spec(s: Seq<char>) -> int
    decreases s.len(),
{
    if s.len() == 0 {
        -1
    } else if !is_ws_char(s[0]) {
        0
    } else {
        let r = first_non_ws_spec(s.drop_first());
        if r == -1 {
            -1
        } else {
            r + 1
        }
    }
}

/// `first_non_ws_spec` returns the first non-blank position or -1.
pub proof fn lemma_first_non_ws_spec(s: Seq<char>)
    ensures
        first_non_ws_spec(s) == -1 ==> (forall|j: int| 0 <= j < s.len() ==> is_ws_char(s[j])),
        first_non_ws_spec(s) != -1 ==> {
            let i = first_non_ws_spec(s);
            &&& 0 <= i < s.len()
            &&& !is_ws_char(s[i])
            &&& forall|j: int| 0 <= j < i ==> is_ws_char(s[j])
        },
    decreases s.len(),
{
    if s.len() == 0 {
    } else if !is_ws_char(s[0]) {
    } else {
        lemma_first_non_ws_spec(s.drop_first());
        if first_non_ws_spec(s) == -1 {
            assert forall|j: int| 0 <= j < s.len() implies is_ws_char(s[j]) by {
                if j > 0 {
                    assert(s.drop_first()[j - 1] == s[j]);
                }
            }
        } else {
            let i = first_non_ws_spec(s);
            assert(s.drop_first()[i - 1] == s[i]);
            assert forall|j: int| 0 <= j < i implies is_ws_char(s[j]) by {
                if j > 0 {
                    assert(s.drop_first()[j - 1] == s[j]);
                }
            }
        }
    }
}

/// The index of the first whitespace character, or the length of the
/// string when it has none.
pub open spec fn first_ws_spec(s: Seq<char>) -> int
    decreases s.len(),
{
    if s.len() == 0 {
        0
    } else if is_ws_char(s[0]) {
        0
    } else {
        1 + first_ws_spec(s.drop_first())
    }
}

/// `first_ws_spec` returns the first blank position, or the length.
pub proof fn lemma_first_ws_spec(s: Seq<char>)
    ensures
        0 <= first_ws_spec(s) <= s.len(),
        first_ws_spec(s) < s.len() ==> is_ws_char(s[first_ws_spec(s)]),
        forall|j: int| 0 <= j < first_ws_spec(s) ==> !is_ws_char(s[j]),
    decreases s.len(),
{
    if s.len() == 0 {
    } else if is_ws_char(s[0]) {
    } else {
        lemma_first_ws_spec(s.drop_first());
        let i = first_ws_spec(s);
        if i < s.len() {
            assert(s.drop_first()[i - 1] == s[i]);
        }
        assert forall|j: int| 0 <= j < i implies !is_ws_char(s[j]) by {
            if j > 0 {
                assert(s.drop_first()[j - 1] == s[j]);
            }
        }
    }
}

/// `n` copies of one character.
pub open spec fn repeated(c: char, n: nat) -> Seq<char> {
    Seq::new(n, |i: int| c)
}

/// Builds a string of `n` copies of `c`.
pub fn repeat_char(c: char, n: usize) -> (r: String)
    ensures
        r@ == repeated(c, n as nat),
{
    let mut r = String::new();
    let mut i: usize = 0;
    while i < n
        invariant
            i <= n,
            r@ == repeated(c, i as nat),
        decreases n - i,
    {
        push_char(&mut r, c);
        proof {
            assert(repeated(c, i as nat).push(c) =~= repeated(c, (i + 1) as nat));
        }
        i = i + 1;
    }
    r
}

/// `s` without its leading whitespace.
pub open spec fn ltrim(s: Seq<char>) -> Seq<char>
    decreases s.len(),
{
    if s.len() > 0 && is_ws_char(s[0]) {
        ltrim(s.drop_first())
    } else {
        s
    }
}

/// `s` without its trailing whitespace.
pub open spec fn rtrim(s: Seq<char>) -> Seq<char>
    decreases s.len(),
{
    if s.len() > 0 && is_ws_char(s.last()) {
        rtrim(s.drop_last())
    } else {
        s
    }
}

/// `s` without leading and trailing whitespace.
pub open spec fn trimmed(s: Seq<char>) -> Seq<char> {
    rtrim(ltrim(s))
}

/// Strips leading and trailing whitespace.
pub fn trim(s: &str) -> (r: &str)
    ensures
        r@ == trimmed(s@),
{
    let n = s.unicode_len();
    proof {
        assert(s@.subrange(0, n as int) =~= s@);
    }
    let mut start: usize = 0;
    while start < n && ws_char(s.get_char(start))
        invariant
            n == s@.len(),
            start <= n,
            ltrim(s@.subrange(start as int, n as int)) == ltrim(s@),
        decreases n - start,
    {
        proof {
            assert(s@.subrange(start as int, n as int).drop_first() =~= s@.subrange(
                start + 1 as int,
                n as int,
            ));
        }
        start = start + 1;
    }
    proof {
        assert(s@.subrange(start as int, n as int) == ltrim(s@));
    }
    let mut end: usize = n;
    while end > start && ws_char(s.get_char(end - 1))
        invariant
            n == s@.len(),
            start <= end <= n,
            rtrim(s@.subrange(start as int, end as int)) == rtrim(s@.subrange(
                start as int,
                n as int,
            )),
        decreases end,
    {
        proof {
            assert(s@.subrange(start as int, end as int).drop_last() =~= s@.subrange(
                start as int,
                end - 1 as int,
            ));
        }
        end = end - 1;
    }
    proof {
        assert(s@.subrange(start as int, end as int) == trimmed(s@));
    }
    s.substring_char(start, end)
}

/// The digit character for one decimal digit.
pub open spec fn digit_char(d: nat) -> char {
    (d + 48) as char
}

/// The decimal rendering of a number, most significant digit first.
pub open spec fn dec_str(n: nat) -> Seq<char>
    decreases n,
{
    if n < 10 {
        seq![digit_char(n)]
    } else {
        dec_str(n / 10).push(digit_char(n % 10))
    }
}

/// Renders a number in decimal.
pub fn decimal_string(n: u32) -> (r: String)
    ensures
        r@ == dec_str(n as nat),
{
    let mut digits: Vec<char> = Vec::new();
    let mut cur: u32 = n;
    proof {
        assert(digits@.reverse() =~= Seq::<char>::empty());
        assert(dec_str(n as nat) + Seq::<char>::empty() =~= dec_str(n as nat));
    }
    while cur >= 10
        invariant
            dec_str(n as nat) == dec_str(cur as nat) + digits@.reverse(),
        decreases cur,
    {
        let d: u32 = cur % 10;
        let c: char = ((d + 48) as u8) as char;
        digits.push(c);
        let prev: u32 = cur;
        cur = cur / 10;
        proof {
            assert(c == digit_char(d as nat));
            assert(dec_str(prev as nat) == dec_str(cur as nat).push(digit_char(d as nat)));
            assert(digits@.reverse() =~= seq![c] + digits@.drop_last().reverse());
            assert(dec_str(cur as nat).push(c) + digits@.drop_last().reverse() =~= dec_str(
                cur as nat,
            ) + digits@.reverse());
        }
    }
    let c: char = ((cur + 48) as u8) as char;
    digits.push(c);
    proof {
        assert(c == digit_char(cur as nat));
        assert(dec_str(cur as nat) =~= seq![c]);
        assert(dec_str(n as nat) =~= digits@.reverse());
    }
    let mut r = String::new();
    let mut i: usize = digits.len();
    while i > 0
        invariant
            i <= digits@.len(),
            r@ == digits@.subrange(i as int, digits@.len() as int).reverse(),
        decreases i,
    {
        i = i - 1;
        let c2 = digits[i];
        push_char(&mut r, c2);
        proof {
            assert(digits@.subrange(i as int, digits@.len() as int).reverse() =~= digits@.subrange(
                i + 1 as int,
                digits@.len() as int,
            ).reverse().push(digits@[i as int]));
        }
    }
    proof {
        assert(digits@.subrange(0, digits@.len() as int) =~= digits@);
    }
    r
}

} // verus!
