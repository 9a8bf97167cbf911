//! Character-level helpers: classification and case folding of characters,
//! and the blank-tolerant comparison of raw pattern strings.
use vstd::prelude::*;

verus! {

/// The glyph that stands for an unknown letter in a rendered pattern.
pub const BLANK_CHAR: char = '_';

/// Whether `c` is alphanumeric in Unicode's sense.
pub uninterp spec fn alphanumeric(c: char) -> bool;

/// What lowercasing a string yields, in Unicode's sense.
pub uninterp spec fn lower_of(s: Seq<char>) -> Seq<char>;

/// Relies on `char::is_alphanumeric`: the answer depends on the character
/// alone, and ASCII letters and digits are alphanumeric.
#[verifier::external_body]
pub(crate) fn is_alphanumeric(c: char) -> (r: bool)
    ensures
        r == alphanumeric(c),
        ('a' <= c && c <= 'z') || ('A' <= c && c <= 'Z') || ('0' <= c && c <= '9') ==> r,
{
    c.is_alphanumeric()
}

/// Relies on `str::to_lowercase`: the result depends on the characters alone,
/// and an empty string stays empty.
#[verifier::external_body]
pub(crate) fn lowercase(s: &str) -> (r: String)
    ensures
        r@ == lower_of(s@),
        s@.len() == 0 ==> r@.len() == 0,
{
    s.to_lowercase()
}

/// Relies on `String::push`: appends one character at the end.
#[verifier::external_body]
pub(crate) fn push_char(s: &mut String, c: char)
    ensures
        final(s)@ == old(s)@.push(c),
{
    s.push(c)
}

/// The characters of a string, one element each.
pub fn chars_of(s: &str) -> (r: Vec<char>)
    ensures
        r@ == s@,
{
    let n = s.unicode_len();
    let mut r: Vec<char> = Vec::new();
    let mut i: usize = 0;
    while i < n
        invariant
            n == s@.len(),
            i <= n,
            r@ == s@.take(i as int),
        decreases n - i,
    {
        r.push(s.get_char(i));
        i += 1;
        assert(r@ =~= s@.take(i as int));
    }
    assert(r@ =~= s@);
    r
}

/// A string built from a sequence of characters.
pub fn string_of(cs: &Vec<char>) -> (r: String)
    ensures
        r@ == cs@,
{
    let mut r = String::new();
    let mut i: usize = 0;
    while i < cs.len()
        invariant
            i <= cs@.len(),
            r@ == cs@.take(i as int),
        decreases cs@.len() - i,
    {
        push_char(&mut r, cs[i]);
        i += 1;
        assert(r@ =~= cs@.take(i as int));
    }
    assert(r@ =~= cs@);
    r
}

/// A pattern cell admits a candidate character: the blank glyph admits any
/// alphanumeric character, any other glyph only itself.
pub open spec fn cell_admits(p: char, c: char) -> bool {
    if p == BLANK_CHAR {
        alphanumeric(c)
    } else {
        c == p
    }
}

/// A raw pattern string admits a candidate: equal length, and every
/// position admitted.
pub open spec fn pattern_admits(p: Seq<char>, s: Seq<char>) -> bool {
    p.len() == s.len() && forall|i: int| 0 <= i < p.len() ==> cell_admits(#[trigger] p[i], s[i])
}

/// A vector of cells admits a candidate: equal length, and at every position
/// an unknown cell holds an alphanumeric character of the candidate, a known
/// cell exactly the candidate's character.
pub open spec fn cells_admit(s: Seq<char>, cells: Seq<Option<char>>) -> bool {
    s.len() == cells.len() && forall|i: int|
        0 <= i < s.len() ==> match #[trigger] cells[i] {
            None => alphanumeric(s[i]),
            Some(c) => c == s[i],
        }
}

/// Compares a raw pattern string `a`, whose blank glyph stands for an
/// unknown letter, against the candidate `b`.
pub fn compare_str(a: &str, b: &str) -> (r: bool)
    ensures
        r == pattern_admits(a@, b@),
{
    let x = chars_of(a);
    let y = chars_of(b);
    if x.len() != y.len() {
        return false;
    }
    let mut i: usize = 0;
    while i < x.len()
        invariant
            x@ == a@,
            y@ == b@,
            x@.len() == y@.len(),
            i <= x@.len(),
            forall|k: int| 0 <= k < i ==> cell_admits(#[trigger] x@[k], y@[k]),
        decreases x@.len() - i,
    {
        let ok = if x[i] == BLANK_CHAR {
            is_alphanumeric(y[i])
        } else {
            y[i] == x[i]
        };
        if !ok {
            return false;
        }
        i += 1;
    }
    true
}

/// Compares the candidate `a` against a vector of cells, where `None` is an
/// unknown letter.
pub fn compare_vec(a: &str, b: &Vec<Option<char>>) -> (r: bool)
    ensures
        r == cells_admit(a@, b@),
{
    let x = chars_of(a);
    if x.len() != b.len() {
        return false;
    }
    let mut i: usize = 0;
    while i < x.len()
        invariant
            x@ == a@,
            x@.len() == b@.len(),
            i <= x@.len(),
            forall|k: int|
                0 <= k < i ==> match #[trigger] b@[k] {
                    None => alphanumeric(x@[k]),
                    Some(c) => c == x@[k],
                },
        decreases x@.len() - i,
    {
        let ok = match b[i] {
            Some(c) => c == x[i],
            None => is_alphanumeric(x[i]),
        };
        if !ok {
            return false;
        }
        i += 1;
    }
    true
}

} // verus!
