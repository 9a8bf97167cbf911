//! The puzzle pattern: words made of letter slots and fixed punctuation.
use vstd::prelude::*;
use crate::text::{alphanumeric, is_alphanumeric, push_char, chars_of, BLANK_CHAR};

verus! {

/// The character that separates the words of a format string.
pub const WORD_SEPARATOR: char = '/';

/// The smallest unit of a puzzle word.
#[derive(Clone, Copy, Debug, PartialEq, Eq, Structural)]
pub enum Fragment {
    /// A letter slot: the revealed letter, or `None` while unknown.
    Letter(Option<char>),
    /// A fixed separator such as an apostrophe or a hyphen.
    Punctuation(char),
}

/// What can go wrong when reading or updating a pattern.
#[derive(Clone, Copy, Debug, PartialEq, Eq, Structural)]
pub enum PatternError {
    /// The format string holds a character that is not allowed, at this position.
    InvalidFormat(usize, char),
    /// A reveal named a position past the end of the word.
    PositionOutOfRange(usize),
    /// A reveal named a punctuation position, which can never change.
    ImmutablePosition(usize),
    /// A reveal named a position already revealed with another letter.
    ConflictingReveal(usize),
}

/// One word of a puzzle: an ordered sequence of fragments.
#[derive(Clone, Debug)]
pub struct Word {
    pub fragments: Vec<Fragment>,
}

/// A whole puzzle: an ordered sequence of words.
#[derive(Clone, Debug)]
pub struct Puzzle {
    pub words: Vec<Word>,
}

impl View for Word {
    type V = Seq<Fragment>;

    open spec fn view(&self) -> Seq<Fragment> {
        self.fragments@
    }
}

impl View for Puzzle {
    type V = Seq<Seq<Fragment>>;

    open spec fn view(&self) -> Seq<Seq<Fragment>> {
        self.words@.map_values(|w: Word| w@)
    }
}

/// Whether one fragment admits one character of a candidate word.
pub open spec fn fragment_admits(f: Fragment, c: char) -> bool {
    match f {
        Fragment::Punctuation(p) => c == p,
        Fragment::Letter(Some(l)) => c == l,
        Fragment::Letter(None) => alphanumeric(c),
    }
}

/// Whether a candidate word is consistent with a pattern word: equal length,
/// and every position admitted by its fragment.
pub open spec fn word_matches(w: Seq<Fragment>, s: Seq<char>) -> bool {
    w.len() == s.len() && forall|i: int| 0 <= i < w.len() ==> fragment_admits(#[trigger] w[i], s[i])
}

/// A candidate whose length differs from the pattern word's never matches it.
pub proof fn lemma_length_mismatch(w: Seq<Fragment>, s: Seq<char>)
    requires
        w.len() != s.len(),
    ensures
        !word_matches(w, s),
{
}

/// On equal lengths, a candidate matches exactly when every position holds
/// the punctuation character, the revealed letter, or any alphanumeric
/// character under an unknown slot.
pub proof fn lemma_match_by_position(w: Seq<Fragment>, s: Seq<char>)
    requires
        w.len() == s.len(),
    ensures
        word_matches(w, s) <==> forall|i: int|
            0 <= i < w.len() ==> match #[trigger] w[i] {
                Fragment::Punctuation(p) => s[i] == p,
                Fragment::Letter(Some(l)) => s[i] == l,
                Fragment::Letter(None) => alphanumeric(s[i]),
            },
{
}

/// Whether a word still has an unknown letter slot.
pub open spec fn has_unknown(w: Seq<Fragment>) -> bool {
    exists|i: int| 0 <= i < w.len() && w[i] == Fragment::Letter(None)
}

/// Whether a letter has been revealed somewhere in the word.
pub open spec fn is_placed(w: Seq<Fragment>, c: char) -> bool {
    exists|i: int| 0 <= i < w.len() && w[i] == Fragment::Letter(Some(c))
}

/// The glyph that renders one fragment.
pub open spec fn glyph(f: Fragment) -> char {
    match f {
        Fragment::Letter(Some(l)) => l,
        Fragment::Letter(None) => BLANK_CHAR,
        Fragment::Punctuation(p) => p,
    }
}

/// Whether a character may appear in a format string.
pub open spec fn format_char(c: char) -> bool {
    ('0' <= c && c <= '9') || c == '-' || c == '\'' || c == WORD_SEPARATOR
}

/// The fragments that one non-separator format character stands for.
pub open spec fn expand(c: char) -> Seq<Fragment> {
    if '0' <= c && c <= '9' {
        Seq::new((c as u32 - '0' as u32) as nat, |_i: int| Fragment::Letter(None))
    } else {
        seq![Fragment::Punctuation(c)]
    }
}

/// The words that a valid format string describes: the separator starts a
/// new word, every other character extends the last one.
pub open spec fn parse_words(s: Seq<char>) -> Seq<Seq<Fragment>>
    decreases s.len(),
{
    if s.len() == 0 {
        seq![Seq::empty()]
    } else {
        let prev = parse_words(s.drop_last());
        let c = s.last();
        if c == WORD_SEPARATOR {
            prev.push(Seq::empty())
        } else {
            prev.update(prev.len() - 1, prev.last() + expand(c))
        }
    }
}

/// A puzzle never has zero words.
pub proof fn lemma_parse_words_nonempty(s: Seq<char>)
    ensures
        parse_words(s).len() >= 1,
    decreases s.len(),
{
    if s.len() > 0 {
        lemma_parse_words_nonempty(s.drop_last());
    }
}

/// The first position of `s` that is not a format character, if any.
pub open spec fn first_bad_format(s: Seq<char>, i: int) -> bool {
    0 <= i < s.len() && !format_char(s[i]) && forall|k: int| 0 <= k < i ==> format_char(#[trigger] s[k])
}

/// Why revealing `letter` at position `p` is refused, if it is.
pub open spec fn position_error(w: Seq<Fragment>, letter: char, p: usize) -> Option<PatternError> {
    if p >= w.len() {
        Some(PatternError::PositionOutOfRange(p))
    } else {
        match w[p as int] {
            Fragment::Punctuation(_) => Some(PatternError::ImmutablePosition(p)),
            Fragment::Letter(Some(l)) => if l == letter {
                None
            } else {
                Some(PatternError::ConflictingReveal(p))
            },
            Fragment::Letter(None) => None,
        }
    }
}

/// The refusal for the first refused position of `ps`, if any is refused.
pub open spec fn reveal_error(w: Seq<Fragment>, letter: char, ps: Seq<usize>) -> Option<PatternError>
    decreases ps.len(),
{
    if ps.len() == 0 {
        None
    } else {
        match reveal_error(w, letter, ps.drop_last()) {
            Some(e) => Some(e),
            None => position_error(w, letter, ps.last()),
        }
    }
}

/// Once a prefix of the positions is refused, so is the whole list, with
/// the same error.
proof fn lemma_reveal_error_prefix(w: Seq<Fragment>, letter: char, ps: Seq<usize>, n: int)
    requires
        0 <= n <= ps.len(),
        reveal_error(w, letter, ps.take(n)) is Some,
    ensures
        reveal_error(w, letter, ps) == reveal_error(w, letter, ps.take(n)),
    decreases ps.len(),
{
    if n < ps.len() {
        assert(ps.drop_last().take(n) =~= ps.take(n));
        lemma_reveal_error_prefix(w, letter, ps.drop_last(), n);
    } else {
        assert(ps.take(n) =~= ps);
    }
}

/// The word after `letter` is revealed at the positions `ps`.
pub open spec fn revealed(w: Seq<Fragment>, letter: char, ps: Seq<usize>) -> Seq<Fragment> {
    Seq::new(
        w.len(),
        |i: int|
            if ps.contains(i as usize) {
                Fragment::Letter(Some(letter))
            } else {
                w[i]
            },
    )
}

impl Fragment {
    /// Whether this fragment admits the character `c`.
    pub fn admits(&self, c: char) -> (r: bool)
        ensures
            r == fragment_admits(*self, c),
            *self == Fragment::Letter(None) && (('a' <= c && c <= 'z') || ('A' <= c && c <= 'Z') || (
            '0' <= c && c <= '9')) ==> r,
    {
        match self {
            Fragment::Punctuation(p) => c == *p,
            Fragment::Letter(Some(l)) => c == *l,
            Fragment::Letter(None) => is_alphanumeric(c),
        }
    }
}

impl Word {
    /// A word of `n` unknown letters.
    pub fn unknown(n: usize) -> (r: Word)
        ensures
            r@ == Seq::new(n as nat, |_i: int| Fragment::Letter(None)),
    {
        let mut fragments: Vec<Fragment> = Vec::new();
        let mut i: usize = 0;
        while i < n
            invariant
                i <= n,
                fragments@ == Seq::new(i as nat, |_i: int| Fragment::Letter(None)),
            decreases n - i,
        {
            fragments.push(Fragment::Letter(None));
            i += 1;
            assert(fragments@ =~= Seq::new(i as nat, |_i: int| Fragment::Letter(None)));
        }
        Word { fragments }
    }

    /// The number of fragments.
    pub fn len(&self) -> (r: usize)
        ensures
            r == self@.len(),
    {
        self.fragments.len()
    }

    /// Whether the candidate `s` is consistent with this word.
    pub fn matches(&self, s: &Vec<char>) -> (r: bool)
        ensures
            r == word_matches(self@, s@),
    {
        if self.fragments.len() != s.len() {
            return false;
        }
        let mut i: usize = 0;
        while i < s.len()
            invariant
                self@.len() == s@.len(),
                i <= s@.len(),
                forall|k: int| 0 <= k < i ==> fragment_admits(#[trigger] self@[k], s@[k]),
            decreases s@.len() - i,
        {
            if !self.fragments[i].admits(s[i]) {
                return false;
            }
            i += 1;
        }
        true
    }

    /// Whether the string `s` is consistent with this word.
    pub fn matches_str(&self, s: &str) -> (r: bool)
        ensures
            r == word_matches(self@, s@),
    {
        let cs = chars_of(s);
        self.matches(&cs)
    }

    /// Whether every letter slot has been revealed.
    pub fn is_solved(&self) -> (r: bool)
        ensures
            r == !has_unknown(self@),
    {
        let mut i: usize = 0;
        while i < self.fragments.len()
            invariant
                i <= self@.len(),
                forall|k: int| 0 <= k < i ==> #[trigger] self@[k] != Fragment::Letter(None),
            decreases self@.len() - i,
        {
            if let Fragment::Letter(None) = self.fragments[i] {
                return false;
            }
            i += 1;
        }
        true
    }

    /// Whether `c` has been revealed somewhere in this word.
    pub fn is_placed(&self, c: char) -> (r: bool)
        ensures
            r == is_placed(self@, c),
    {
        let mut i: usize = 0;
        while i < self.fragments.len()
            invariant
                i <= self@.len(),
                forall|k: int| 0 <= k < i ==> #[trigger] self@[k] != Fragment::Letter(Some(c)),
            decreases self@.len() - i,
        {
            if let Fragment::Letter(Some(l)) = self.fragments[i] {
                if l == c {
                    return true;
                }
            }
            i += 1;
        }
        false
    }

    /// Renders the word: unknown letters as the blank glyph, everything else
    /// as its character.
    pub fn display(&self) -> (r: String)
        ensures
            r@ == self@.map_values(|f: Fragment| glyph(f)),
    {
        let mut r = String::new();
        let mut i: usize = 0;
        while i < self.fragments.len()
            invariant
                i <= self@.len(),
                r@ == self@.take(i as int).map_values(|f: Fragment| glyph(f)),
            decreases self@.len() - i,
        {
            let g = match self.fragments[i] {
                Fragment::Letter(Some(l)) => l,
                Fragment::Letter(None) => BLANK_CHAR,
                Fragment::Punctuation(p) => p,
            };
            push_char(&mut r, g);
            i += 1;
            assert(r@ =~= self@.take(i as int).map_values(|f: Fragment| glyph(f)));
        }
        assert(self@.take(i as int) =~= self@);
        r
    }

    /// Reveals `letter` at each of `positions`. Nothing changes when any
    /// position is refused; the error names the first refused one.
    pub fn reveal_at(&mut self, letter: char, positions: &Vec<usize>) -> (r: Result<(), PatternError>)
        ensures
            match reveal_error(old(self)@, letter, positions@) {
                Some(e) => r == Err::<(), PatternError>(e) && final(self)@ == old(self)@,
                None => r is Ok && final(self)@ == revealed(old(self)@, letter, positions@),
            },
    {
        let mut j: usize = 0;
        while j < positions.len()
            invariant
                j <= positions@.len(),
                reveal_error(self@, letter, positions@.take(j as int)) is None,
            decreases positions@.len() - j,
        {
            let p = positions[j];
            assert(positions@.take(j + 1).drop_last() =~= positions@.take(j as int));
            proof {
                if position_error(self@, letter, p) is Some {
                    lemma_reveal_error_prefix(self@, letter, positions@, j + 1);
                }
            }
            if p >= self.fragments.len() {
                return Err(PatternError::PositionOutOfRange(p));
            }
            match self.fragments[p] {
                Fragment::Punctuation(_) => {
                    return Err(PatternError::ImmutablePosition(p));
                },
                Fragment::Letter(Some(l)) => {
                    if l != letter {
                        return Err(PatternError::ConflictingReveal(p));
                    }
                },
                Fragment::Letter(None) => {},
            }
            j += 1;
        }
        assert(positions@.take(j as int) =~= positions@);
        let ghost w0 = self@;
        let mut i: usize = 0;
        while i < self.fragments.len()
            invariant
                self@.len() == w0.len(),
                i <= w0.len(),
                forall|k: int|
                    0 <= k < w0.len() ==> #[trigger] self@[k] == if k < i && positions@.contains(
                        k as usize,
                    ) {
                        Fragment::Letter(Some(letter))
                    } else {
                        w0[k]
                    },
            decreases w0.len() - i,
        {
            if contains_position(positions, i) {
                self.fragments.set(i, Fragment::Letter(Some(letter)));
            }
            i += 1;
        }
        assert(self@ =~= revealed(w0, letter, positions@));
        Ok(())
    }
}

impl Puzzle {
    /// Reads a format string: each digit is that many unknown letters, a
    /// hyphen or an apostrophe is a punctuation fragment, and the separator
    /// starts a new word. Any other character is refused at its first
    /// occurrence.
    pub fn parse(format: &str) -> (r: Result<Puzzle, PatternError>)
        ensures
            (forall|i: int| 0 <= i < format@.len() ==> format_char(#[trigger] format@[i])) ==> (
            match r {
                Ok(p) => p@ == parse_words(format@),
                Err(_) => false,
            }),
            r matches Ok(p) ==> p@.len() >= 1,
            forall|i: int|
                first_bad_format(format@, i) ==> r == Err::<Puzzle, PatternError>(
                    PatternError::InvalidFormat(i as usize, format@[i]),
                ),
    {
        let cs = chars_of(format);
        let mut i: usize = 0;
        while i < cs.len()
            invariant
                cs@ == format@,
                i <= cs@.len(),
                forall|k: int| 0 <= k < i ==> format_char(#[trigger] cs@[k]),
            decreases cs@.len() - i,
        {
            let c = cs[i];
            if !(('0' <= c && c <= '9') || c == '-' || c == '\'' || c == WORD_SEPARATOR) {
                assert(first_bad_format(format@, i as int));
                assert forall|j: int| first_bad_format(format@, j) implies j == i by {
                    if j < i {
                        assert(format_char(cs@[j]));
                    }
                    if j > i {
                        assert(format_char(format@[i as int]));
                    }
                }
                return Err(PatternError::InvalidFormat(i, c));
            }
            i += 1;
        }
        let mut words: Vec<Word> = Vec::new();
        let mut cur: Vec<Fragment> = Vec::new();
        let mut i: usize = 0;
        assert(cs@.take(0) =~= Seq::<char>::empty());
        assert(words@.map_values(|w: Word| w@).push(cur@) =~= parse_words(cs@.take(0)));
        while i < cs.len()
            invariant
                cs@ == format@,
                i <= cs@.len(),
                forall|k: int| 0 <= k < cs@.len() ==> format_char(#[trigger] cs@[k]),
                words@.map_values(|w: Word| w@).push(cur@) == parse_words(cs@.take(i as int)),
            decreases cs@.len() - i,
        {
            let c = cs[i];
            let ghost before = words@.map_values(|w: Word| w@).push(cur@);
            assert(cs@.take(i + 1).drop_last() =~= cs@.take(i as int));
            assert(format_char(cs@[i as int]));
            if c == WORD_SEPARATOR {
                let done = Word { fragments: cur };
                words.push(done);
                cur = Vec::new();
                assert(words@.map_values(|w: Word| w@).push(cur@) =~= before.push(Seq::empty()));
            } else if '0' <= c && c <= '9' {
                let n: usize = (c as u32 - '0' as u32) as usize;
                let ghost base = cur@;
                let mut k: usize = 0;
                while k < n
                    invariant
                        k <= n,
                        cur@ == base + Seq::new(k as nat, |_i: int| Fragment::Letter(None)),
                    decreases n - k,
                {
                    cur.push(Fragment::Letter(None));
                    k += 1;
                    assert(cur@ =~= base + Seq::new(k as nat, |_i: int| Fragment::Letter(None)));
                }
                assert(words@.map_values(|w: Word| w@).push(cur@) =~= before.update(
                    before.len() - 1,
                    before.last() + expand(c),
                ));
            } else {
                let ghost base = cur@;
                cur.push(Fragment::Punctuation(c));
                assert(cur@ =~= base + expand(c));
                assert(words@.map_values(|w: Word| w@).push(cur@) =~= before.update(
                    before.len() - 1,
                    before.last() + expand(c),
                ));
            }
            i += 1;
        }
        let last = Word { fragments: cur };
        let ghost before = words@.map_values(|w: Word| w@).push(cur@);
        words.push(last);
        assert(words@.map_values(|w: Word| w@) =~= before);
        assert(cs@.take(i as int) =~= cs@);
        proof {
            lemma_parse_words_nonempty(format@);
        }
        Ok(Puzzle { words })
    }

    /// The number of words.
    pub fn len(&self) -> (r: usize)
        ensures
            r == self@.len(),
    {
        self.words.len()
    }
}

/// Whether `p` is one of `ps`.
fn contains_position(ps: &Vec<usize>, p: usize) -> (r: bool)
    ensures
        r == ps@.contains(p),
{
    let mut j: usize = 0;
    while j < ps.len()
        invariant
            j <= ps@.len(),
            forall|k: int| 0 <= k < j ==> #[trigger] ps@[k] != p,
        decreases ps@.len() - j,
    {
        if ps[j] == p {
            return true;
        }
        j += 1;
    }
    false
}

} // verus!
