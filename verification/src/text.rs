//! Text primitives on sequences of characters: equality, suffixes,
//! substrings, the order of texts, case folding and trimming.

use vstd::prelude::*;

verus! {

/// The characters of `s`, in order, as a vector that can be indexed.
pub fn to_chars(s: &str) -> (r: Vec<char>)
    ensures
        r@ == s@,
{
    let mut out: Vec<char> = Vec::new();
    for c in it: s.chars()
        invariant
            out@ == it.seq().take(it.index()),
            it.seq() == s@,
    {
        out.push(c);
    }
    out
}

/// The texts that a sequence of strings holds.
pub open spec fn texts(v: Seq<String>) -> Seq<Seq<char>> {
    Seq::new(v.len(), |i: int| v[i]@)
}

/// The text of a string that may be absent.
pub open spec fn optional_text(s: Option<String>) -> Option<Seq<char>> {
    match s {
        Some(t) => Some(t@),
        None => None,
    }
}

/// The texts of a sequence with one more string are the texts of the
/// sequence with one more text.
pub proof fn lemma_texts_push(v: Seq<String>, s: String)
    ensures
        texts(v.push(s)) == texts(v).push(s@),
{
    assert(texts(v.push(s)) =~= texts(v).push(s@));
}

/// Whether two texts hold the same characters.
pub fn same_text(a: &Vec<char>, b: &Vec<char>) -> (r: bool)
    ensures
        r == (a@ == b@),
{
    if a.len() != b.len() {
        return false;
    }
    let mut i: usize = 0;
    while i < a.len()
        invariant
            a.len() == b.len(),
            i <= a.len(),
            a@.take(i as int) == b@.take(i as int),
        decreases a.len() - i,
    {
        if a[i] != b[i] {
            return false;
        }
        assert(a@.take(i + 1) =~= a@.take(i as int).push(a@[i as int]));
        assert(b@.take(i + 1) =~= b@.take(i as int).push(b@[i as int]));
        i += 1;
    }
    assert(a@ =~= a@.take(i as int));
    assert(b@ =~= b@.take(i as int));
    true
}

/// `term` stands in `s` at position `at`.
pub open spec fn occurs_at(term: Seq<char>, s: Seq<char>, at: int) -> bool {
    &&& 0 <= at
    &&& at + term.len() <= s.len()
    &&& s.subrange(at, at + term.len()) == term
}

/// `term` is a contiguous part of `s`. The empty text is part of every text.
pub open spec fn is_substring(term: Seq<char>, s: Seq<char>) -> bool {
    exists|at: int| occurs_at(term, s, at)
}

/// `s` ends with `suffix`.
pub open spec fn is_suffix(suffix: Seq<char>, s: Seq<char>) -> bool {
    occurs_at(suffix, s, s.len() - suffix.len())
}

/// Whether `term` stands in `s` at position `at`.
fn matches_at(s: &Vec<char>, term: &Vec<char>, at: usize) -> (r: bool)
    requires
        at + term.len() <= s.len(),
    ensures
        r == occurs_at(term@, s@, at as int),
{
    let mut j: usize = 0;
    while j < term.len()
        invariant
            at + term.len() <= s.len(),
            j <= term.len(),
            s@.subrange(at as int, at + j) == term@.take(j as int),
        decreases term.len() - j,
    {
        if s[at + j] != term[j] {
            assert(s@.subrange(at as int, at + term.len())[j as int] == s@[at + j]);
            return false;
        }
        assert(s@.subrange(at as int, at + j + 1) =~= s@.subrange(at as int, at + j).push(
            s@[at + j],
        ));
        assert(term@.take(j + 1) =~= term@.take(j as int).push(term@[j as int]));
        j += 1;
    }
    assert(term@ =~= term@.take(j as int));
    true
}

/// Whether `s` ends with `suffix`.
pub fn ends_with(s: &Vec<char>, suffix: &Vec<char>) -> (r: bool)
    ensures
        r == is_suffix(suffix@, s@),
{
    if suffix.len() > s.len() {
        return false;
    }
    matches_at(s, suffix, s.len() - suffix.len())
}

/// Whether `term` is a contiguous part of `s`.
pub fn contains(s: &Vec<char>, term: &Vec<char>) -> (r: bool)
    ensures
        r == is_substring(term@, s@),
{
    if term.len() > s.len() {
        return false;
    }
    let last: usize = s.len() - term.len();
    let mut at: usize = 0;
    while at < last
        invariant
            last == s.len() - term.len(),
            at <= last,
            forall|k: int| 0 <= k < at ==> !occurs_at(term@, s@, k),
        decreases last - at,
    {
        if matches_at(s, term, at) {
            return true;
        }
        at += 1;
    }
    matches_at(s, term, last)
}

/// The empty text is a part of every text.
pub proof fn lemma_empty_is_substring(s: Seq<char>)
    ensures
        is_substring(Seq::<char>::empty(), s),
{
    assert(s.subrange(0, 0) =~= Seq::<char>::empty());
    assert(occurs_at(Seq::<char>::empty(), s, 0));
}

/// The lower-case form of an ASCII capital letter; any other character
/// unchanged.
pub open spec fn ascii_lower(c: char) -> char {
    if 'A' <= c && c <= 'Z' {
        ((c as u32) + 32) as char
    } else {
        c
    }
}

/// `s` with each ASCII capital letter replaced by its lower-case form.
pub open spec fn ascii_lowered(s: Seq<char>) -> Seq<char> {
    Seq::new(s.len(), |i: int| ascii_lower(s[i]))
}

/// The lower-case form of an ASCII capital letter; any other character
/// unchanged.
pub fn to_ascii_lower(c: char) -> (r: char)
    ensures
        r == ascii_lower(c),
{
    if 'A' <= c && c <= 'Z' {
        ((c as u8) + 32) as char
    } else {
        c
    }
}

/// `s` with each ASCII capital letter replaced by its lower-case form.
pub fn to_ascii_lowered(s: &Vec<char>) -> (r: Vec<char>)
    ensures
        r@ == ascii_lowered(s@),
{
    let mut out: Vec<char> = Vec::new();
    let mut i: usize = 0;
    while i < s.len()
        invariant
            i <= s.len(),
            out@ == ascii_lowered(s@.take(i as int)),
        decreases s.len() - i,
    {
        out.push(to_ascii_lower(s[i]));
        assert(out@ =~= ascii_lowered(s@.take(i + 1)));
        i += 1;
    }
    assert(s@.take(i as int) =~= s@);
    out
}

/// The lower-case form of a text by the rules of Unicode. It is not taken
/// character by character: a character may fold to several, and to another
/// form at the end of a word.
pub uninterp spec fn unicode_lowercase(s: Seq<char>) -> Seq<char>;

/// Calls `str::to_lowercase`. The contract only gives its result the name
/// `unicode_lowercase`: the same text always folds to the same text. Nothing
/// is claimed of what the folded text holds.
#[verifier::external_body]
pub(crate) fn lowercase(s: &str) -> (r: String)
    ensures
        r@ == unicode_lowercase(s@),
{
    s.to_lowercase()
}

/// The characters with the Unicode property White_Space.
pub open spec fn is_white_space(c: char) -> bool {
    let u = c as u32;
    ||| 0x09 <= u <= 0x0d
    ||| u == 0x20
    ||| u == 0x85
    ||| u == 0xa0
    ||| u == 0x1680
    ||| 0x2000 <= u <= 0x200a
    ||| u == 0x2028
    ||| u == 0x2029
    ||| u == 0x202f
    ||| u == 0x205f
    ||| u == 0x3000
}

/// How many characters at the start of `s` are white space.
pub open spec fn leading_white(s: Seq<char>) -> nat
    decreases s.len(),
{
    if s.len() > 0 && is_white_space(s[0]) {
        1 + leading_white(s.drop_first())
    } else {
        0
    }
}

/// How many characters at the end of `s` are white space.
pub open spec fn trailing_white(s: Seq<char>) -> nat
    decreases s.len(),
{
    if s.len() > 0 && is_white_space(s.last()) {
        1 + trailing_white(s.drop_last())
    } else {
        0
    }
}

/// `s` without the white space at its start and at its end.
pub open spec fn trimmed(s: Seq<char>) -> Seq<char> {
    if leading_white(s) >= s.len() {
        Seq::<char>::empty()
    } else {
        s.subrange(leading_white(s) as int, s.len() - trailing_white(s))
    }
}

/// Whether `c` has the Unicode property White_Space.
pub fn is_white_space_char(c: char) -> (r: bool)
    ensures
        r == is_white_space(c),
{
    let u: u32 = c as u32;
    (0x09 <= u && u <= 0x0d) || u == 0x20 || u == 0x85 || u == 0xa0 || u == 0x1680 || (0x2000 <= u
        && u <= 0x200a) || u == 0x2028 || u == 0x2029 || u == 0x202f || u == 0x205f || u == 0x3000
}

/// `s` without the white space at its start and at its end.
pub fn trim(s: &str) -> (r: String)
    ensures
        r@ == trimmed(s@),
{
    let chars = to_chars(s);
    let n: usize = chars.len();
    let mut lo: usize = 0;
    assert(chars@.skip(0) =~= chars@);
    while lo < n && is_white_space_char(chars[lo])
        invariant
            n == chars.len(),
            lo <= n,
            leading_white(chars@) == lo + leading_white(chars@.skip(lo as int)),
        decreases n - lo,
    {
        assert(chars@.skip(lo as int).drop_first() =~= chars@.skip(lo + 1));
        lo += 1;
    }
    assert(leading_white(chars@) == lo);
    if lo == n {
        return String::new();
    }
    let mut hi: usize = n;
    assert(chars@.take(n as int) =~= chars@);
    while hi > 0 && is_white_space_char(chars[hi - 1])
        invariant
            n == chars.len(),
            lo < n,
            !is_white_space(chars@[lo as int]),
            lo < hi <= n,
            trailing_white(chars@) == (n - hi) + trailing_white(chars@.take(hi as int)),
        decreases hi,
    {
        assert(chars@.take(hi as int).drop_last() =~= chars@.take(hi - 1));
        hi -= 1;
    }
    String::from_str(s.substring_char(lo, hi))
}

} // verus!
