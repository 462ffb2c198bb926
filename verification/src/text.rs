//! Character-sequence helpers shared by the parsers and generators.
use vstd::prelude::*;
use vstd::utf8::{decode_utf8, valid_utf8};

verus! {

broadcast use vstd::string::group_string_axioms;

/// `p` occurs in `s` starting at index `i`.
pub open spec fn matches_at(s: Seq<char>, i: int, p: Seq<char>) -> bool {
    0 <= i && i + p.len() <= s.len() && s.subrange(i, i + p.len()) == p
}

/// The first index at or after `i` where `p` occurs in `s`.
pub open spec fn find_from(s: Seq<char>, p: Seq<char>, i: int) -> Option<int>
    decreases s.len() + 1 - i,
{
    if i < 0 || i + p.len() > s.len() {
        None
    } else if matches_at(s, i, p) {
        Some(i)
    } else {
        find_from(s, p, i + 1)
    }
}

/// The first index where `p` occurs in `s`.
pub open spec fn find(s: Seq<char>, p: Seq<char>) -> Option<int> {
    find_from(s, p, 0)
}

/// `p` occurs somewhere in `s`.
pub open spec fn contains(s: Seq<char>, p: Seq<char>) -> bool {
    find(s, p) is Some
}

/// `s` begins with `p`.
pub open spec fn starts_with(s: Seq<char>, p: Seq<char>) -> bool {
    matches_at(s, 0, p)
}

/// The first index of `c` in `s` at or after `i`.
pub open spec fn index_of_from(s: Seq<char>, c: char, i: int) -> Option<int>
    decreases s.len() - i,
{
    if i < 0 || i >= s.len() {
        None
    } else if s[i] == c {
        Some(i)
    } else {
        index_of_from(s, c, i + 1)
    }
}

/// The last index of `c` in the first `n` characters of `s`.
pub open spec fn last_index_of_before(s: Seq<char>, c: char, n: int) -> Option<int>
    decreases n,
{
    if n <= 0 || n > s.len() {
        None
    } else if s[n - 1] == c {
        Some(n - 1)
    } else {
        last_index_of_before(s, c, n - 1)
    }
}

/// The characters that Unicode gives the White_Space property.
pub open spec fn is_ws(c: char) -> bool {
    ||| ('\u{9}' <= c && c <= '\u{d}')
    ||| c == ' '
    ||| c == '\u{85}'
    ||| c == '\u{a0}'
    ||| c == '\u{1680}'
    ||| ('\u{2000}' <= c && c <= '\u{200a}')
    ||| c == '\u{2028}'
    ||| c == '\u{2029}'
    ||| c == '\u{202f}'
    ||| c == '\u{205f}'
    ||| c == '\u{3000}'
}

/// `c` with an ASCII capital letter turned into its small letter, and the
/// Kelvin sign into `k`: the only characters that lower-case into ASCII
/// letters besides the ASCII letters themselves.
pub open spec fn fold_char(c: char) -> char {
    if 'A' <= c && c <= 'Z' {
        ((c as u32) + 32) as char
    } else if c == '\u{212a}' {
        'k'
    } else {
        c
    }
}

/// `s` lower-cases to the ASCII text `t`.
pub open spec fn fold_eq(s: Seq<char>, t: Seq<char>) -> bool {
    s.len() == t.len() && forall|i: int| 0 <= i < s.len() ==> fold_char(#[trigger] s[i]) == t[i]
}

/// `p` occurs in `s` at `i`, ignoring letter case.
pub open spec fn fold_matches_at(s: Seq<char>, i: int, p: Seq<char>) -> bool {
    0 <= i && i + p.len() <= s.len() && fold_eq(s.subrange(i, i + p.len()), p)
}

/// The first index at or after `i` where `p` occurs in `s`, ignoring letter case.
pub open spec fn fold_find_from(s: Seq<char>, p: Seq<char>, i: int) -> Option<int>
    decreases s.len() + 1 - i,
{
    if i < 0 || i + p.len() > s.len() {
        None
    } else if fold_matches_at(s, i, p) {
        Some(i)
    } else {
        fold_find_from(s, p, i + 1)
    }
}

/// The last index below `n` where `p` occurs in `s`, ignoring letter case.
pub open spec fn fold_rfind_before(s: Seq<char>, p: Seq<char>, n: int) -> Option<int>
    decreases n,
{
    if n <= 0 {
        None
    } else if fold_matches_at(s, n - 1, p) {
        Some(n - 1)
    } else {
        fold_rfind_before(s, p, n - 1)
    }
}

/// `s` without its leading white space.
pub open spec fn trim_start(s: Seq<char>) -> Seq<char>
    decreases s.len(),
{
    if s.len() > 0 && is_ws(s[0]) {
        trim_start(s.drop_first())
    } else {
        s
    }
}

/// `s` without its trailing white space.
pub open spec fn trim_end(s: Seq<char>) -> Seq<char>
    decreases s.len(),
{
    if s.len() > 0 && is_ws(s.last()) {
        trim_end(s.drop_last())
    } else {
        s
    }
}

/// `s` without leading or trailing white space.
pub open spec fn trim(s: Seq<char>) -> Seq<char> {
    trim_end(trim_start(s))
}

/// What remains after leading white space is removed starts with a
/// character that is not white space.
pub proof fn lemma_trim_start_head(s: Seq<char>)
    ensures
        trim_start(s).len() > 0 ==> !is_ws(trim_start(s)[0]),
    decreases s.len(),
{
    if s.len() > 0 && is_ws(s[0]) {
        lemma_trim_start_head(s.drop_first());
    }
}

/// Removing trailing white space keeps a prefix, which ends with a
/// character that is not white space.
pub proof fn lemma_trim_end_prefix(s: Seq<char>)
    ensures
        trim_end(s).len() <= s.len(),
        trim_end(s) == s.subrange(0, trim_end(s).len() as int),
        trim_end(s).len() > 0 ==> !is_ws(trim_end(s).last()),
    decreases s.len(),
{
    if s.len() > 0 && is_ws(s.last()) {
        lemma_trim_end_prefix(s.drop_last());
        assert(s.drop_last().subrange(0, trim_end(s).len() as int) =~= s.subrange(0, trim_end(s).len() as int));
    } else {
        assert(s.subrange(0, s.len() as int) =~= s);
    }
}

/// Trimmed text neither starts nor ends with white space.
pub proof fn lemma_trim_ends(s: Seq<char>)
    ensures
        trim(s).len() > 0 ==> !is_ws(trim(s)[0]) && !is_ws(trim(s).last()),
{
    lemma_trim_start_head(s);
    lemma_trim_end_prefix(trim_start(s));
    if trim(s).len() > 0 {
        assert(trim(s)[0] == trim_start(s)[0]);
    }
}

/// The UTF-8 length of `c`.
pub open spec fn utf8_len(c: char) -> nat {
    if (c as u32) < 0x80 {
        1
    } else if (c as u32) < 0x800 {
        2
    } else if (c as u32) < 0x10000 {
        3
    } else {
        4
    }
}

/// The UTF-8 length of `s`.
pub open spec fn utf8_len_of(s: Seq<char>) -> nat
    decreases s.len(),
{
    if s.len() == 0 {
        0
    } else {
        utf8_len_of(s.drop_last()) + utf8_len(s.last())
    }
}

/// The characters of `s`, in order.
pub fn chars_of(s: &str) -> (res: Vec<char>)
    ensures
        res@ == s@,
{
    let mut v: Vec<char> = Vec::new();
    for c in it: s.chars()
        invariant
            v@ == it.seq().take(it.index()),
            it.seq() == s@,
    {
        v.push(c);
    }
    v
}

/// Builds a `String` from characters.
#[verifier::external_body]
pub(crate) fn string_of(cs: &[char]) -> (res: String)
    ensures
        res@ == cs@,
{
    cs.iter().collect()
}

/// Appends one character to a `String`.
#[verifier::external_body]
pub(crate) fn push_char(s: &mut String, c: char)
    ensures
        final(s)@ == old(s)@.push(c),
{
    s.push(c)
}

/// Appends text to a `String`.
pub fn push_str(s: &mut String, t: &str)
    ensures
        final(s)@ == old(s)@ + t@,
{
    s.append(t);
}

/// Whether `c` is white space.
pub fn char_is_ws(c: char) -> (res: bool)
    ensures
        res == is_ws(c),
{
    ('\u{9}' <= c && c <= '\u{d}') || c == ' ' || c == '\u{85}' || c == '\u{a0}' || c == '\u{1680}'
        || ('\u{2000}' <= c && c <= '\u{200a}') || c == '\u{2028}' || c == '\u{2029}'
        || c == '\u{202f}' || c == '\u{205f}' || c == '\u{3000}'
}

/// `c` with its letter case folded as `fold_char` says.
pub fn fold(c: char) -> (res: char)
    ensures
        res == fold_char(c),
{
    if 'A' <= c && c <= 'Z' {
        let n: u32 = (c as u32) + 32;
        assert(0x61 <= n <= 0x7a);
        char_from_ascii(n)
    } else if c == '\u{212a}' {
        'k'
    } else {
        c
    }
}

/// The character of an ASCII code.
fn char_from_ascii(n: u32) -> (res: char)
    requires
        n < 0x80,
    ensures
        res == n as char,
{
    let b: u8 = n as u8;
    b as char
}

/// Whether `p` occurs in `s` at index `i`.
pub fn matches_at_exec(s: &[char], i: usize, p: &[char]) -> (res: bool)
    ensures
        res == matches_at(s@, i as int, p@),
{
    if i > s.len() || p.len() > s.len() - i {
        return false;
    }
    let mut k: usize = 0;
    while k < p.len()
        invariant
            i + p@.len() <= s@.len(),
            s@.len() == s.len(),
            k <= p@.len(),
            forall|j: int| 0 <= j < k ==> s@[i + j] == p@[j],
        decreases p@.len() - k,
    {
        assert(i + k < s@.len());
        if s[i + k] != p[k] {
            assert(s@.subrange(i as int, i + p@.len())[k as int] != p@[k as int]);
            return false;
        }
        k += 1;
    }
    assert(s@.subrange(i as int, i + p@.len()) =~= p@);
    true
}

/// Whether `p` occurs in `s` at index `i`, ignoring letter case.
pub fn fold_matches_at_exec(s: &[char], i: usize, p: &[char]) -> (res: bool)
    ensures
        res == fold_matches_at(s@, i as int, p@),
{
    if i > s.len() || p.len() > s.len() - i {
        return false;
    }
    let mut k: usize = 0;
    while k < p.len()
        invariant
            i + p@.len() <= s@.len(),
            s@.len() == s.len(),
            k <= p@.len(),
            forall|j: int| 0 <= j < k ==> fold_char(s@[i + j]) == p@[j],
        decreases p@.len() - k,
    {
        if fold(s[i + k]) != p[k] {
            assert(fold_char(s@.subrange(i as int, i + p@.len())[k as int]) != p@[k as int]);
            return false;
        }
        k += 1;
    }
    assert forall|j: int| 0 <= j < p@.len() implies fold_char(
        #[trigger] s@.subrange(i as int, i + p@.len())[j],
    ) == p@[j] by {
        assert(s@.subrange(i as int, i + p@.len())[j] == s@[i + j]);
    }
    true
}

/// The first index at or after `from` where `p` occurs in `s`.
pub fn find_from_exec(s: &[char], p: &[char], from: usize) -> (res: Option<usize>)
    ensures
        res matches Some(k) ==> find_from(s@, p@, from as int) == Some(k as int),
        res is None ==> find_from(s@, p@, from as int) is None,
{
    let mut i = from;
    loop
        invariant
            from <= i,
            find_from(s@, p@, from as int) == find_from(s@, p@, i as int),
        decreases s@.len() + 1 - i,
    {
        if p.len() > s.len() || i > s.len() - p.len() {
            return None;
        }
        if matches_at_exec(s, i, p) {
            return Some(i);
        }
        assert(p@.len() > 0) by {
            if p@.len() == 0 {
                assert(s@.subrange(i as int, i as int) =~= p@);
            }
        }
        i += 1;
    }
}

/// The first index at or after `from` where `p` occurs in `s`, ignoring letter case.
pub fn fold_find_from_exec(s: &[char], p: &[char], from: usize) -> (res: Option<usize>)
    ensures
        res matches Some(k) ==> fold_find_from(s@, p@, from as int) == Some(k as int),
        res is None ==> fold_find_from(s@, p@, from as int) is None,
{
    let mut i = from;
    loop
        invariant
            from <= i,
            fold_find_from(s@, p@, from as int) == fold_find_from(s@, p@, i as int),
        decreases s@.len() + 1 - i,
    {
        if p.len() > s.len() || i > s.len() - p.len() {
            return None;
        }
        if fold_matches_at_exec(s, i, p) {
            return Some(i);
        }
        assert(p@.len() > 0) by {
            if p@.len() == 0 {
                assert(s@.subrange(i as int, i as int) =~= p@);
            }
        }
        i += 1;
    }
}

/// The last index below `n` where `p` occurs in `s`, ignoring letter case.
pub fn fold_rfind_before_exec(s: &[char], p: &[char], n: usize) -> (res: Option<usize>)
    ensures
        res matches Some(k) ==> fold_rfind_before(s@, p@, n as int) == Some(k as int),
        res is None ==> fold_rfind_before(s@, p@, n as int) is None,
{
    let mut m = n;
    while m > 0
        invariant
            m <= n,
            fold_rfind_before(s@, p@, n as int) == fold_rfind_before(s@, p@, m as int),
        decreases m,
    {
        if fold_matches_at_exec(s, m - 1, p) {
            return Some(m - 1);
        }
        m -= 1;
    }
    None
}

/// The first index of `c` in `s` at or after `from`.
pub fn index_of_from_exec(s: &[char], c: char, from: usize) -> (res: Option<usize>)
    ensures
        res matches Some(k) ==> index_of_from(s@, c, from as int) == Some(k as int),
        res is None ==> index_of_from(s@, c, from as int) is None,
{
    let mut i = from;
    while i < s.len()
        invariant
            from <= i,
            index_of_from(s@, c, from as int) == index_of_from(s@, c, i as int),
        decreases s@.len() - i,
    {
        if s[i] == c {
            return Some(i);
        }
        i += 1;
    }
    None
}

/// Whether two strings are equal.
pub fn str_eq(a: &str, b: &str) -> (res: bool)
    ensures
        res == (a@ == b@),
{
    let x = chars_of(a);
    let y = chars_of(b);
    if x.len() != y.len() {
        return false;
    }
    proof {
        assert(x@.subrange(0, y@.len() as int) =~= x@);
    }
    matches_at_exec(x.as_slice(), 0, y.as_slice())
}

/// Whether `s` begins with `p`.
pub fn str_starts_with(s: &str, p: &str) -> (res: bool)
    ensures
        res == starts_with(s@, p@),
{
    let x = chars_of(s);
    let y = chars_of(p);
    matches_at_exec(x.as_slice(), 0, y.as_slice())
}

/// Whether `p` occurs in `s`.
pub fn str_contains(s: &str, p: &str) -> (res: bool)
    ensures
        res == contains(s@, p@),
{
    let x = chars_of(s);
    let y = chars_of(p);
    find_from_exec(x.as_slice(), y.as_slice(), 0).is_some()
}

/// The last index of `c` among the first `n` characters of `s`.
pub fn last_index_of_before_exec(s: &[char], c: char, n: usize) -> (res: Option<usize>)
    requires
        n <= s@.len(),
    ensures
        res matches Some(k) ==> last_index_of_before(s@, c, n as int) == Some(k as int) && k < n
            && s@[k as int] == c,
        res is None ==> last_index_of_before(s@, c, n as int) is None,
{
    let mut m = n;
    while m > 0
        invariant
            m <= n <= s@.len(),
            last_index_of_before(s@, c, n as int) == last_index_of_before(s@, c, m as int),
        decreases m,
    {
        if s[m - 1] == c {
            return Some(m - 1);
        }
        m -= 1;
    }
    None
}

/// Whether `s` lower-cases to the ASCII text `t`.
pub fn fold_eq_exec(s: &[char], t: &str) -> (res: bool)
    ensures
        res == fold_eq(s@, t@),
{
    let tc = chars_of(t);
    if s.len() != tc.len() {
        return false;
    }
    let r = fold_matches_at_exec(s, 0, tc.as_slice());
    proof {
        assert(s@.subrange(0, tc@.len() as int) =~= s@);
    }
    r
}

/// The view of an optional string.
pub open spec fn opt_view(o: Option<&str>) -> Option<Seq<char>> {
    match o {
        Some(s) => Some(s@),
        None => None,
    }
}

/// The text that `String::from_utf8_lossy` makes of `bytes`.
pub uninterp spec fn utf8_lossy(bytes: Seq<u8>) -> Seq<char>;

/// Decodes bytes as UTF-8, replacing invalid sequences:
/// `String::from_utf8_lossy`. Valid UTF-8 decodes as it is.
#[verifier::external_body]
pub(crate) fn text_of_bytes(bytes: &[u8]) -> (res: String)
    ensures
        res@ == utf8_lossy(bytes@),
        valid_utf8(bytes@) ==> res@ == decode_utf8(bytes@),
{
    String::from_utf8_lossy(bytes).into_owned()
}

} // verus!
