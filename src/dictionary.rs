//! The dictionary of one language: candidate words, each standing for the
//! count of every character in it.
use vstd::prelude::*;
use crate::pattern::{Word, word_matches};
use crate::text::{alphanumeric, is_alphanumeric, lower_of, lowercase, chars_of};

verus! {

/// What can go wrong when building a dictionary from a word list.
#[derive(Clone, Copy, Debug, PartialEq, Eq, Structural)]
pub enum DictionaryError {
    /// A line, once lowercased, holds a character outside the accepted set.
    InvalidCharacter { line: usize, position: usize, found: char },
}

/// The candidate words of one language, in the order they were first seen.
/// The count map of each word is `occurrences(word, _)`.
#[derive(Clone, Debug)]
pub struct Dictionary {
    pub words: Vec<Vec<char>>,
}

impl View for Dictionary {
    type V = Seq<Seq<char>>;

    open spec fn view(&self) -> Seq<Seq<char>> {
        self.words@.map_values(|w: Vec<char>| w@)
    }
}

/// How many times `c` occurs in `w`.
pub open spec fn occurrences(w: Seq<char>, c: char) -> nat
    decreases w.len(),
{
    if w.len() == 0 {
        0
    } else {
        occurrences(w.drop_last(), c) + if w.last() == c {
            1nat
        } else {
            0nat
        }
    }
}

/// How many times `c` occurs over all the words of `d`.
pub open spec fn total(d: Seq<Seq<char>>, c: char) -> nat
    decreases d.len(),
{
    if d.len() == 0 {
        0
    } else {
        total(d.drop_last(), c) + occurrences(d.last(), c)
    }
}

/// How many characters the words of `d` hold together.
pub open spec fn total_chars(d: Seq<Seq<char>>) -> nat
    decreases d.len(),
{
    if d.len() == 0 {
        0
    } else {
        total_chars(d.drop_last()) + d.last().len()
    }
}

/// No word stands twice.
pub open spec fn unique(d: Seq<Seq<char>>) -> bool {
    forall|i: int, j: int| 0 <= i < j < d.len() ==> d[i] != d[j]
}

/// Whether a character may stand in a dictionary word. A line break never
/// does: it ends a record in the stored form.
pub open spec fn accepted(c: char) -> bool {
    c != '\n' && (alphanumeric(c) || c == '\'' || c == '-' || c == '&' || c == ',' || c == '.'
        || c == '!')
}

/// Every character of `w` is accepted.
pub open spec fn word_ok(w: Seq<char>) -> bool {
    forall|p: int| 0 <= p < w.len() ==> accepted(#[trigger] w[p])
}

/// The words of `d` in order, keeping only those that satisfy `f`.
pub open spec fn keep(d: Seq<Seq<char>>, f: spec_fn(Seq<char>) -> bool) -> Seq<Seq<char>>
    decreases d.len(),
{
    if d.len() == 0 {
        Seq::empty()
    } else if f(d.last()) {
        keep(d.drop_last(), f).push(d.last())
    } else {
        keep(d.drop_last(), f)
    }
}

/// The words of `d` that are consistent with the pattern word `w`.
pub open spec fn matching_subset(d: Seq<Seq<char>>, w: Seq<crate::pattern::Fragment>) -> Seq<Seq<char>> {
    keep(d, |k: Seq<char>| word_matches(w, k))
}

/// The words of `d` that do not contain `c`.
pub open spec fn without_letter(d: Seq<Seq<char>>, c: char) -> Seq<Seq<char>> {
    keep(d, |k: Seq<char>| !k.contains(c))
}

/// The words `ws` with only the first occurrence of each kept.
pub open spec fn first_occurrences(ws: Seq<Seq<char>>) -> Seq<Seq<char>>
    decreases ws.len(),
{
    if ws.len() == 0 {
        Seq::empty()
    } else {
        let prev = first_occurrences(ws.drop_last());
        if prev.contains(ws.last()) {
            prev
        } else {
            prev.push(ws.last())
        }
    }
}

/// The texts of a list of lines, each lowercased.
pub open spec fn lowered_lines(lines: Seq<String>) -> Seq<Seq<char>> {
    lines.map_values(|s: String| lower_of(s@))
}

/// Word `l` at position `p` is the first place where a word holds a
/// character that is not accepted.
pub open spec fn first_bad_char(ws: Seq<Seq<char>>, l: int, p: int) -> bool {
    &&& 0 <= l < ws.len()
    &&& 0 <= p < ws[l].len()
    &&& !accepted(ws[l][p])
    &&& forall|m: int| 0 <= m < l ==> word_ok(#[trigger] ws[m])
    &&& forall|q: int| 0 <= q < p ==> accepted(#[trigger] ws[l][q])
}

/// Adding a word that is not yet there keeps the words unique.
proof fn lemma_unique_push(d: Seq<Seq<char>>, x: Seq<char>)
    requires
        unique(d),
        !d.contains(x),
    ensures
        unique(d.push(x)),
{
    assert forall|i: int, j: int| 0 <= i < j < d.push(x).len() implies d.push(x)[i] != d.push(x)[j] by {
        if j == d.len() {
            assert(d[i] == d.push(x)[i]);
        }
    }
}

/// A sequence with one more element holds what it held, and that element.
proof fn lemma_push_contains(s: Seq<Seq<char>>, y: Seq<char>, x: Seq<char>)
    ensures
        s.push(y).contains(x) <==> s.contains(x) || x == y,
{
    if s.contains(x) {
        let i = choose|i: int| 0 <= i < s.len() && s[i] == x;
        assert(s.push(y)[i] == x);
    }
    if x == y {
        assert(s.push(y)[s.len() as int] == x);
    }
    if s.push(y).contains(x) && x != y {
        let i = choose|i: int| 0 <= i < s.push(y).len() && s.push(y)[i] == x;
        assert(s[i] == x);
    }
}

/// A kept word is a word of `d` that satisfies `f`, and the other way round.
pub proof fn lemma_keep_contains(d: Seq<Seq<char>>, f: spec_fn(Seq<char>) -> bool, x: Seq<char>)
    ensures
        keep(d, f).contains(x) <==> d.contains(x) && f(x),
    decreases d.len(),
{
    if d.len() > 0 {
        let p = d.drop_last();
        lemma_keep_contains(p, f, x);
        assert(d =~= p.push(d.last()));
        lemma_push_contains(p, d.last(), x);
        lemma_push_contains(keep(p, f), d.last(), x);
    }
}

/// Keeping words of a dictionary without repeats gives one without repeats.
pub proof fn lemma_keep_unique(d: Seq<Seq<char>>, f: spec_fn(Seq<char>) -> bool)
    requires
        unique(d),
    ensures
        unique(keep(d, f)),
    decreases d.len(),
{
    if d.len() > 0 {
        let p = d.drop_last();
        assert(unique(p));
        lemma_keep_unique(p, f);
        if f(d.last()) {
            lemma_keep_contains(p, f, d.last());
            if p.contains(d.last()) {
                let i = choose|i: int| 0 <= i < p.len() && p[i] == d.last();
                assert(d[i] == d[d.len() - 1]);
            }
            lemma_unique_push(keep(p, f), d.last());
        }
    }
}

/// Keeping twice by the same test keeps the same words as once.
pub proof fn lemma_keep_idempotent(d: Seq<Seq<char>>, f: spec_fn(Seq<char>) -> bool)
    ensures
        keep(keep(d, f), f) == keep(d, f),
    decreases d.len(),
{
    if d.len() > 0 {
        lemma_keep_idempotent(d.drop_last(), f);
        let k = keep(d.drop_last(), f);
        if f(d.last()) {
            assert(k.push(d.last()).drop_last() =~= k);
        }
    }
}

/// Keeping words never adds characters.
pub proof fn lemma_keep_total_chars(d: Seq<Seq<char>>, f: spec_fn(Seq<char>) -> bool)
    ensures
        total_chars(keep(d, f)) <= total_chars(d),
    decreases d.len(),
{
    if d.len() > 0 {
        lemma_keep_total_chars(d.drop_last(), f);
        let k = keep(d.drop_last(), f);
        if f(d.last()) {
            assert(k.push(d.last()).drop_last() =~= k);
        }
    }
}

/// Every kept word has only characters that every word of `d` has.
proof fn lemma_keep_words_ok(d: Seq<Seq<char>>, f: spec_fn(Seq<char>) -> bool)
    requires
        forall|i: int| 0 <= i < d.len() ==> word_ok(#[trigger] d[i]),
    ensures
        forall|i: int| 0 <= i < keep(d, f).len() ==> word_ok(#[trigger] keep(d, f)[i]),
{
    assert forall|i: int| 0 <= i < keep(d, f).len() implies word_ok(#[trigger] keep(d, f)[i]) by {
        let x = keep(d, f)[i];
        assert(keep(d, f).contains(x));
        lemma_keep_contains(d, f, x);
    }
}

/// Filtering a dictionary by a pattern word a second time changes nothing.
pub proof fn lemma_filter_matching_idempotent(d: Seq<Seq<char>>, w: Seq<crate::pattern::Fragment>)
    ensures
        matching_subset(matching_subset(d, w), w) == matching_subset(d, w),
{
    lemma_keep_idempotent(d, |k: Seq<char>| word_matches(w, k));
}

/// Removing the words that contain `c` removes exactly those, and removing
/// them again changes nothing.
pub proof fn lemma_remove_containing(d: Seq<Seq<char>>, c: char)
    ensures
        forall|x: Seq<char>| #[trigger] without_letter(d, c).contains(x) <==> d.contains(x) && !x.contains(c),
        without_letter(without_letter(d, c), c) == without_letter(d, c),
{
    let f = |k: Seq<char>| !k.contains(c);
    assert forall|x: Seq<char>| #[trigger] without_letter(d, c).contains(x) <==> d.contains(x) && !x.contains(c) by {
        lemma_keep_contains(d, f, x);
    }
    lemma_keep_idempotent(d, f);
}

/// Counting a prefix of a word one character further.
proof fn lemma_occurrences_step(w: Seq<char>, j: int, c: char)
    requires
        0 <= j < w.len(),
    ensures
        occurrences(w.take(j + 1), c) == occurrences(w.take(j), c) + if w[j] == c {
            1nat
        } else {
            0nat
        },
        occurrences(w.take(j), c) <= j,
    decreases j,
{
    assert(w.take(j + 1).drop_last() =~= w.take(j));
    if j > 0 {
        lemma_occurrences_step(w, j - 1, c);
    } else {
        assert(w.take(0).len() == 0);
    }
}

/// Counting over a prefix of a dictionary one word further.
proof fn lemma_total_step(d: Seq<Seq<char>>, i: int, c: char)
    requires
        0 <= i < d.len(),
    ensures
        total(d.take(i + 1), c) == total(d.take(i), c) + occurrences(d[i], c),
        total_chars(d.take(i + 1)) == total_chars(d.take(i)) + d[i].len(),
{
    assert(d.take(i + 1).drop_last() =~= d.take(i));
}

/// A character occurs in a dictionary at most as often as it has characters.
proof fn lemma_total_bound(d: Seq<Seq<char>>, c: char)
    ensures
        total(d, c) <= total_chars(d),
    decreases d.len(),
{
    if d.len() > 0 {
        lemma_total_bound(d.drop_last(), c);
        let w = d.last();
        if w.len() > 0 {
            lemma_occurrences_step(w, w.len() - 1, c);
        }
        assert(w.take(w.len() as int) =~= w);
    }
}

/// A prefix of a dictionary has no more characters than the whole.
proof fn lemma_total_chars_prefix(d: Seq<Seq<char>>, i: int)
    requires
        0 <= i <= d.len(),
    ensures
        total_chars(d.take(i)) <= total_chars(d),
    decreases d.len() - i,
{
    if i < d.len() {
        lemma_total_step(d, i, ' ');
        lemma_total_chars_prefix(d, i + 1);
    } else {
        assert(d.take(i) =~= d);
    }
}

/// How often `c` occurs over the words of `d` and then the word `w`.
pub open spec fn tally(d: Seq<Seq<char>>, w: Seq<char>, c: char) -> nat {
    total(d, c) + occurrences(w, c)
}

/// `v` tallies the characters of `d` and then `w`: no character twice, each
/// with its positive count, and every character that occurs at all is there.
pub open spec fn tallies(v: Seq<(char, u64)>, d: Seq<Seq<char>>, w: Seq<char>) -> bool {
    &&& forall|a: int, b: int| 0 <= a < b < v.len() ==> v[a].0 != v[b].0
    &&& forall|k: int| 0 <= k < v.len() ==> (#[trigger] v[k]).1 == tally(d, w, v[k].0) && v[k].1 > 0
    &&& forall|c: char| #[trigger] tally(d, w, c) > 0 ==> exists|k: int| 0 <= k < v.len() && (#[trigger] v[k]).0 == c
}

/// The position at which `x` enters the ranked list `out`.
fn insert_position(out: &Vec<(char, u64)>, x: (char, u64)) -> (k: usize)
    ensures
        k <= out@.len(),
        forall|m: int| 0 <= m < k ==> !ranks_before(x, #[trigger] out@[m]),
        k < out@.len() ==> ranks_before(x, out@[k as int]),
{
    let mut k: usize = 0;
    while k < out.len()
        invariant
            k <= out@.len(),
            forall|m: int| 0 <= m < k ==> !ranks_before(x, #[trigger] out@[m]),
        decreases out@.len() - k,
    {
        let y = out[k];
        if x.1 > y.1 || (x.1 == y.1 && x.0 < y.0) {
            return k;
        }
        k += 1;
    }
    k
}

/// The ranking order: a higher count first, and among equal counts the
/// smaller character first.
pub open spec fn ranks_before(a: (char, u64), b: (char, u64)) -> bool {
    a.1 > b.1 || (a.1 == b.1 && a.0 < b.0)
}

/// Where `c` stands in `v`, if it does.
fn find_letter(v: &Vec<(char, u64)>, c: char) -> (r: Option<usize>)
    ensures
        match r {
            Some(k) => k < v@.len() && v@[k as int].0 == c,
            None => forall|k: int| 0 <= k < v@.len() ==> (#[trigger] v@[k]).0 != c,
        },
{
    let mut k: usize = 0;
    while k < v.len()
        invariant
            k <= v@.len(),
            forall|m: int| 0 <= m < k ==> (#[trigger] v@[m]).0 != c,
        decreases v@.len() - k,
    {
        if v[k].0 == c {
            return Some(k);
        }
        k += 1;
    }
    None
}

/// Whether two words are equal.
fn same_word(a: &Vec<char>, b: &Vec<char>) -> (r: bool)
    ensures
        r == (a@ == b@),
{
    if a.len() != b.len() {
        return false;
    }
    let mut i: usize = 0;
    while i < a.len()
        invariant
            a@.len() == b@.len(),
            i <= a@.len(),
            forall|k: int| 0 <= k < i ==> a@[k] == b@[k],
        decreases a@.len() - i,
    {
        if a[i] != b[i] {
            return false;
        }
        i += 1;
    }
    assert(a@ =~= b@);
    true
}

/// Whether `c` is one of the characters accepted in a dictionary word.
pub fn is_accepted(c: char) -> (r: bool)
    ensures
        r == accepted(c),
{
    c != '\n' && (is_alphanumeric(c) || c == '\'' || c == '-' || c == '&' || c == ',' || c == '.'
        || c == '!')
}

/// Whether `w` contains `c`.
pub fn word_contains(w: &Vec<char>, c: char) -> (r: bool)
    ensures
        r == w@.contains(c),
{
    let mut i: usize = 0;
    while i < w.len()
        invariant
            i <= w@.len(),
            forall|k: int| 0 <= k < i ==> w@[k] != c,
        decreases w@.len() - i,
    {
        if w[i] == c {
            return true;
        }
        i += 1;
    }
    false
}

impl Dictionary {
    /// Well-formed: no word twice, and only accepted characters.
    pub open spec fn wf(&self) -> bool {
        unique(self@) && forall|i: int| 0 <= i < self@.len() ==> word_ok(#[trigger] self@[i])
    }

    /// An empty dictionary.
    pub fn new() -> (r: Dictionary)
        ensures
            r.wf(),
            r@ == Seq::<Seq<char>>::empty(),
    {
        let r = Dictionary { words: Vec::new() };
        assert(r@ =~= Seq::<Seq<char>>::empty());
        r
    }

    /// The number of words.
    pub fn len(&self) -> (r: usize)
        ensures
            r == self@.len(),
    {
        self.words.len()
    }

    /// Whether the word `w` is in the dictionary.
    pub fn contains(&self, w: &Vec<char>) -> (r: bool)
        ensures
            r == self@.contains(w@),
    {
        let mut i: usize = 0;
        while i < self.words.len()
            invariant
                i <= self@.len(),
                forall|k: int| 0 <= k < i ==> #[trigger] self@[k] != w@,
            decreases self@.len() - i,
        {
            assert(self.words@[i as int]@ == self@[i as int]);
            if same_word(&self.words[i], w) {
                assert(self@.contains(w@));
                return true;
            }
            i += 1;
        }
        false
    }

    /// Whether the string `w` is in the dictionary.
    pub fn contains_str(&self, w: &str) -> (r: bool)
        ensures
            r == self@.contains(w@),
    {
        let cs = chars_of(w);
        self.contains(&cs)
    }

    /// Adds `w` at the end unless it is already there.
    pub(crate) fn add_word(&mut self, w: Vec<char>)
        requires
            old(self).wf(),
            word_ok(w@),
        ensures
            final(self).wf(),
            final(self)@ == if old(self)@.contains(w@) {
                old(self)@
            } else {
                old(self)@.push(w@)
            },
    {
        if !self.contains(&w) {
            proof {
                lemma_unique_push(self@, w@);
            }
            let ghost before = self@;
            self.words.push(w);
            assert(self@ =~= before.push(w@));
        }
    }

    /// Builds a dictionary from words taken as they are, each kept once. A
    /// word holding a character outside the accepted set is refused, at the
    /// first such character.
    pub fn from_words(ws: &Vec<Vec<char>>) -> (r: Result<Dictionary, DictionaryError>)
        ensures
            r is Ok <==> forall|l: int| 0 <= l < ws@.len() ==> word_ok(#[trigger] ws@[l]@),
            (forall|l: int| 0 <= l < ws@.len() ==> word_ok(#[trigger] ws@[l]@)) ==> (match r {
                Ok(d) => d.wf() && d@ == first_occurrences(ws@.map_values(|w: Vec<char>| w@)),
                Err(_) => false,
            }),
            forall|l: int, p: int|
                first_bad_char(ws@.map_values(|w: Vec<char>| w@), l, p) ==> r == Err::<Dictionary, DictionaryError>(
                    DictionaryError::InvalidCharacter { line: l as usize, position: p as usize, found: ws@[l]@[p] },
                ),
    {
        let ghost ts = ws@.map_values(|w: Vec<char>| w@);
        let mut d = Dictionary::new();
        let mut l: usize = 0;
        while l < ws.len()
            invariant
                ts == ws@.map_values(|w: Vec<char>| w@),
                l <= ts.len(),
                d.wf(),
                d@ == first_occurrences(ts.take(l as int)),
                forall|m: int| 0 <= m < l ==> word_ok(#[trigger] ts[m]),
            decreases ts.len() - l,
        {
            let w = &ws[l];
            assert(w@ == ts[l as int]);
            let mut p: usize = 0;
            while p < w.len()
                invariant
                    ts == ws@.map_values(|w: Vec<char>| w@),
                    l < ts.len(),
                    forall|m: int| 0 <= m < l ==> word_ok(#[trigger] ts[m]),
                    w@ == ts[l as int],
                    p <= w@.len(),
                    forall|q: int| 0 <= q < p ==> accepted(#[trigger] w@[q]),
                decreases w@.len() - p,
            {
                if !is_accepted(w[p]) {
                    let ghost (ll, pp) = (l as int, p as int);
                    assert(first_bad_char(ts, ll, pp));
                    assert(!word_ok(ws@[ll]@));
                    assert forall|l2: int, p2: int| first_bad_char(ts, l2, p2) implies l2 == ll && p2 == pp by {
                        if l2 < ll {
                            assert(word_ok(ts[l2]));
                            assert(accepted(ts[l2][p2]));
                        } else if l2 > ll {
                            assert(word_ok(ts[ll]));
                        } else if p2 < pp {
                            assert(accepted(w@[p2]));
                        } else if p2 > pp {
                            assert(accepted(ts[l2][pp]));
                        }
                    }
                    return Err(DictionaryError::InvalidCharacter { line: l, position: p, found: w[p] });
                }
                p += 1;
            }
            assert(ts.take(l + 1).drop_last() =~= ts.take(l as int));
            d.add_word(w.clone());
            l += 1;
        }
        assert(ts.take(l as int) =~= ts);
        assert forall|m: int| 0 <= m < ws@.len() implies word_ok(#[trigger] ws@[m]@) by {
            assert(word_ok(ts[m]));
        }
        Ok(d)
    }

    /// Builds a dictionary from a word list: each line is lowercased and
    /// becomes one word, kept once. A line that then holds a character
    /// outside the accepted set is refused, at its first such character.
    pub fn load(lines: &Vec<String>) -> (r: Result<Dictionary, DictionaryError>)
        ensures
            r is Ok <==> forall|l: int| 0 <= l < lines@.len() ==> word_ok(#[trigger] lowered_lines(lines@)[l]),
            (forall|l: int| 0 <= l < lines@.len() ==> word_ok(#[trigger] lowered_lines(lines@)[l])) ==> (
            match r {
                Ok(d) => d.wf() && d@ == first_occurrences(lowered_lines(lines@)),
                Err(_) => false,
            }),
            forall|l: int, p: int|
                first_bad_char(lowered_lines(lines@), l, p) ==> r == Err::<Dictionary, DictionaryError>(
                    DictionaryError::InvalidCharacter {
                        line: l as usize,
                        position: p as usize,
                        found: lowered_lines(lines@)[l][p],
                    },
                ),
    {
        let mut lowered: Vec<Vec<char>> = Vec::new();
        let mut i: usize = 0;
        while i < lines.len()
            invariant
                i <= lines@.len(),
                lowered@.map_values(|w: Vec<char>| w@) == lowered_lines(lines@).take(i as int),
            decreases lines@.len() - i,
        {
            let low = lowercase(lines[i].as_str());
            let w = chars_of(low.as_str());
            assert(w@ == lower_of(lines@[i as int]@));
            let ghost before = lowered@.map_values(|w: Vec<char>| w@);
            lowered.push(w);
            assert(lowered@.map_values(|w: Vec<char>| w@) =~= before.push(lower_of(lines@[i as int]@)));
            assert(lowered_lines(lines@).take(i + 1) =~= lowered_lines(lines@).take(i as int).push(
                lower_of(lines@[i as int]@),
            ));
            i += 1;
        }
        assert(lowered_lines(lines@).take(i as int) =~= lowered_lines(lines@));
        assert(lowered@.map_values(|w: Vec<char>| w@) == lowered_lines(lines@));
        assert(forall|l: int| 0 <= l < lowered@.len() ==> #[trigger] lowered@[l]@ == lowered_lines(lines@)[l]);
        Dictionary::from_words(&lowered)
    }

    /// The words that are consistent with the pattern word `w`, in order.
    pub fn filter_matching(&self, w: &Word) -> (r: Dictionary)
        requires
            self.wf(),
        ensures
            r.wf(),
            r@ == matching_subset(self@, w@),
    {
        let mut out: Vec<Vec<char>> = Vec::new();
        let mut i: usize = 0;
        while i < self.words.len()
            invariant
                i <= self@.len(),
                out@.map_values(|x: Vec<char>| x@) == matching_subset(self@.take(i as int), w@),
            decreases self@.len() - i,
        {
            assert(self@.take(i + 1).drop_last() =~= self@.take(i as int));
            assert(self@.take(i + 1).last() == self@[i as int]);
            assert(self.words@[i as int]@ == self@[i as int]);
            if w.matches(&self.words[i]) {
                let ghost before = out@.map_values(|x: Vec<char>| x@);
                out.push(self.words[i].clone());
                assert(out@.map_values(|x: Vec<char>| x@) =~= before.push(self@[i as int]));
            }
            i += 1;
        }
        assert(self@.take(i as int) =~= self@);
        proof {
            lemma_keep_unique(self@, |k: Seq<char>| word_matches(w@, k));
            lemma_keep_words_ok(self@, |k: Seq<char>| word_matches(w@, k));
        }
        Dictionary { words: out }
    }

    /// Removes every word that contains `c`, keeping the order of the rest.
    pub fn remove_containing(&mut self, c: char)
        requires
            old(self).wf(),
        ensures
            final(self).wf(),
            final(self)@ == without_letter(old(self)@, c),
    {
        let ghost d0 = self@;
        let mut out: Vec<Vec<char>> = Vec::new();
        let mut i: usize = 0;
        while i < self.words.len()
            invariant
                self@ == d0,
                i <= d0.len(),
                out@.map_values(|x: Vec<char>| x@) == without_letter(d0.take(i as int), c),
            decreases d0.len() - i,
        {
            assert(d0.take(i + 1).drop_last() =~= d0.take(i as int));
            assert(d0.take(i + 1).last() == d0[i as int]);
            assert(self.words@[i as int]@ == d0[i as int]);
            if !word_contains(&self.words[i], c) {
                let ghost before = out@.map_values(|x: Vec<char>| x@);
                out.push(self.words[i].clone());
                assert(out@.map_values(|x: Vec<char>| x@) =~= before.push(d0[i as int]));
            }
            i += 1;
        }
        assert(d0.take(i as int) =~= d0);
        proof {
            lemma_keep_unique(d0, |k: Seq<char>| !k.contains(c));
            lemma_keep_words_ok(d0, |k: Seq<char>| !k.contains(c));
        }
        self.words = out;
    }

    /// Whether the letters of all words can be counted in a `u64`.
    pub fn counts_fit(&self) -> (r: bool)
        ensures
            r == (total_chars(self@) <= u64::MAX),
    {
        let mut sum: u64 = 0;
        let mut i: usize = 0;
        while i < self.words.len()
            invariant
                i <= self@.len(),
                sum == total_chars(self@.take(i as int)),
            decreases self@.len() - i,
        {
            proof {
                lemma_total_step(self@, i as int, ' ');
                lemma_total_chars_prefix(self@, i as int + 1);
            }
            assert(self.words@[i as int]@ == self@[i as int]);
            let n = self.words[i].len() as u64;
            if sum > u64::MAX - n {
                return false;
            }
            sum = sum + n;
            i += 1;
        }
        assert(self@.take(i as int) =~= self@);
        true
    }

    /// The count of every character over all words, each character once, in
    /// the order of first occurrence.
    pub fn count_letters(&self) -> (r: Vec<(char, u64)>)
        requires
            total_chars(self@) <= u64::MAX,
        ensures
            tallies(r@, self@, Seq::empty()),
    {
        let ghost d = self@;
        let mut v: Vec<(char, u64)> = Vec::new();
        let mut i: usize = 0;
        assert(d.take(0).len() == 0);
        while i < self.words.len()
            invariant
                d == self@,
                total_chars(d) <= u64::MAX,
                i <= d.len(),
                tallies(v@, d.take(i as int), Seq::empty()),
            decreases d.len() - i,
        {
            let w = &self.words[i];
            assert(w@ == d[i as int]);
            proof {
                lemma_total_chars_prefix(d, i as int + 1);
                lemma_total_step(d, i as int, ' ');
                assert(w@.take(0) =~= Seq::<char>::empty());
            }
            let mut j: usize = 0;
            while j < w.len()
                invariant
                    d == self@,
                    i < d.len(),
                    w@ == d[i as int],
                    total_chars(d.take(i as int)) + w@.len() <= u64::MAX,
                    j <= w@.len(),
                    tallies(v@, d.take(i as int), w@.take(j as int)),
                decreases w@.len() - j,
            {
                let x = w[j];
                let ghost old_v = v@;
                let ghost p = d.take(i as int);
                proof {
                    assert forall|c: char| #[trigger] tally(p, w@.take(j + 1), c) == tally(p, w@.take(j as int), c) + if w@[j as int] == c { 1nat } else { 0nat } by {
                        lemma_occurrences_step(w@, j as int, c);
                    }
                    lemma_occurrences_step(w@, j as int, x);
                    lemma_total_bound(p, x);
                }
                match find_letter(&v, x) {
                    Some(k) => {
                        let n = v[k].1;
                        v.set(k, (x, n + 1));
                        assert forall|c: char| #[trigger] tally(p, w@.take(j + 1), c) > 0 implies exists|m: int| 0 <= m < v@.len() && (#[trigger] v@[m]).0 == c by {
                            if c != x {
                                assert(tally(p, w@.take(j as int), c) > 0);
                                let m = choose|m: int| 0 <= m < old_v.len() && (#[trigger] old_v[m]).0 == c;
                                assert(v@[m].0 == c);
                            } else {
                                assert(v@[k as int].0 == c);
                            }
                        }
                    },
                    None => {
                        v.push((x, 1));
                        assert forall|c: char| #[trigger] tally(p, w@.take(j + 1), c) > 0 implies exists|m: int| 0 <= m < v@.len() && (#[trigger] v@[m]).0 == c by {
                            if c != x {
                                assert(tally(p, w@.take(j as int), c) > 0);
                                let m = choose|m: int| 0 <= m < old_v.len() && (#[trigger] old_v[m]).0 == c;
                                assert(v@[m].0 == c);
                            } else {
                                assert(v@[old_v.len() as int].0 == c);
                            }
                        }
                    },
                }
                assert forall|m: int| 0 <= m < v@.len() implies (#[trigger] v@[m]).1 == tally(p, w@.take(j + 1), v@[m].0) && v@[m].1 > 0 by {
                    if m < old_v.len() {
                        assert(old_v[m].1 == tally(p, w@.take(j as int), old_v[m].0));
                    }
                }
                j += 1;
            }
            let ghost p = d.take(i as int);
            let ghost q = d.take(i + 1);
            assert(w@.take(j as int) =~= w@);
            assert forall|c: char| #[trigger] tally(q, Seq::empty(), c) == tally(p, w@, c) by {
                lemma_total_step(d, i as int, c);
            }
            assert forall|c: char| #[trigger] tally(q, Seq::empty(), c) > 0 implies exists|m: int| 0 <= m < v@.len() && (#[trigger] v@[m]).0 == c by {
                assert(tally(p, w@.take(j as int), c) > 0);
            }
            assert forall|m: int| 0 <= m < v@.len() implies (#[trigger] v@[m]).1 == tally(q, Seq::empty(), v@[m].0) && v@[m].1 > 0 by {
                assert(v@[m].1 == tally(p, w@.take(j as int), v@[m].0));
            }
            i += 1;
        }
        assert(d.take(i as int) =~= d);
        v
    }

    /// The characters to guess, with their counts: every counted character
    /// that is not in `excluded`, highest count first, ties broken by the
    /// smaller character first.
    pub fn rank_letters(&self, excluded: &Vec<char>) -> (r: Vec<(char, u64)>)
        requires
            total_chars(self@) <= u64::MAX,
        ensures
            forall|k: int|
                0 <= k < r@.len() ==> (#[trigger] r@[k]).1 == total(self@, r@[k].0) && r@[k].1 > 0
                    && !excluded@.contains(r@[k].0),
            forall|c: char|
                total(self@, c) > 0 && !excluded@.contains(c) ==> exists|k: int|
                    0 <= k < r@.len() && (#[trigger] r@[k]).0 == c,
            forall|a: int, b: int| 0 <= a < b < r@.len() ==> ranks_before(r@[a], r@[b]),
    {
        let counts = self.count_letters();
        let ghost d = self@;
        assert forall|c: char| #[trigger] tally(d, Seq::empty(), c) == total(d, c) by {
            assert(Seq::<char>::empty().len() == 0);
        }
        let mut out: Vec<(char, u64)> = Vec::new();
        let mut i: usize = 0;
        while i < counts.len()
            invariant
                d == self@,
                tallies(counts@, d, Seq::empty()),
                i <= counts@.len(),
                forall|k: int|
                    0 <= k < out@.len() ==> (#[trigger] out@[k]).1 == total(d, out@[k].0) && out@[k].1 > 0
                        && !excluded@.contains(out@[k].0),
                forall|k: int, m: int|
                    0 <= k < out@.len() && i <= m < counts@.len() ==> (#[trigger] out@[k]).0 != (#[trigger] counts@[m]).0,
                forall|m: int|
                    0 <= m < i && !excluded@.contains((#[trigger] counts@[m]).0) ==> out@.contains(counts@[m]),
                forall|a: int, b: int| 0 <= a < b < out@.len() ==> ranks_before(out@[a], out@[b]),
            decreases counts@.len() - i,
        {
            let x = counts[i];
            assert(x.1 == tally(d, Seq::empty(), x.0));
            if !word_contains(excluded, x.0) {
                let k = insert_position(&out, x);
                let ghost old_out = out@;
                proof {
                    assert forall|m: int| 0 <= m < k implies ranks_before(#[trigger] old_out[m], x) by {
                        assert(old_out[m].0 != counts@[i as int].0);

                    }
                }
                out.insert(k, x);
                assert(out@ == old_out.insert(k as int, x));
                assert forall|m: int| 0 <= m <= i && !excluded@.contains((#[trigger] counts@[m]).0) implies out@.contains(counts@[m]) by {
                    if m < i {
                        let q = choose|q: int| 0 <= q < old_out.len() && old_out[q] == counts@[m];
                        if q < k {
                            assert(out@[q] == counts@[m]);
                        } else {
                            assert(out@[q + 1] == counts@[m]);
                        }
                    } else {
                        assert(out@[k as int] == counts@[m]);
                    }
                }
                assert forall|a: int, b: int| 0 <= a < b < out@.len() implies ranks_before(out@[a], out@[b]) by {
                    if a < k && b == k {
                    } else if a == k && b > k {
                        if k < old_out.len() {
                            assert(ranks_before(x, old_out[k as int]));
                            if b - 1 > k {
                                assert(ranks_before(old_out[k as int], old_out[b - 1]));
                            }
                        }
                    } else if a < k && b > k {
                        assert(ranks_before(old_out[a], x));
                    }
                }
                assert forall|k2: int, m: int|
                    0 <= k2 < out@.len() && i + 1 <= m < counts@.len() implies (#[trigger] out@[k2]).0 != (#[trigger] counts@[m]).0 by {
                    if k2 < k {
                        assert(out@[k2] == old_out[k2]);
                    } else if k2 > k {
                        assert(out@[k2] == old_out[k2 - 1]);
                    }
                }
            }
            i += 1;
        }
        proof {
            assert forall|c: char| total(d, c) > 0 && !excluded@.contains(c) implies exists|k: int|
                    0 <= k < out@.len() && (#[trigger] out@[k]).0 == c by {
                assert(tally(d, Seq::empty(), c) > 0);
                let m = choose|m: int| 0 <= m < counts@.len() && (#[trigger] counts@[m]).0 == c;
                assert(out@.contains(counts@[m]));
                let k = choose|k: int| 0 <= k < out@.len() && out@[k] == counts@[m];
                assert(out@[k].0 == c);
            }
        }
        out
    }
}

} // verus!
