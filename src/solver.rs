//! The solve loop as a state machine: it ranks the letters of the remaining
//! candidates, suggests the best one not yet tried, and folds the guesser's
//! feedback back into the pattern and the candidates. Reading the feedback
//! is left to the caller.
use vstd::prelude::*;
use crate::dictionary::{
    Dictionary, matching_subset, without_letter, total, total_chars, ranks_before, word_contains,
    lemma_keep_total_chars,
};
use crate::pattern::{Fragment, PatternError, Word, has_unknown, is_placed, reveal_error, revealed, word_matches};

verus! {

/// What the solver proposes next.
#[derive(Clone, Copy, Debug, PartialEq, Eq, Structural)]
pub enum Step {
    /// Every letter of the word is revealed.
    Solved,
    /// Letters are still unknown, but no candidate letter is left to try.
    Exhausted,
    /// Guess this letter next; it occurs this many times over the candidates.
    Suggest(char, u64),
}

/// The state of one solve: the pattern word, the candidates still consistent
/// with it, and the letters tried so far.
#[derive(Clone, Debug)]
pub struct Solver {
    pub word: Word,
    pub candidates: Dictionary,
    pub attempted: Vec<char>,
}

/// Whether `c` is still worth guessing: it occurs among the candidates, and
/// it was neither tried nor placed.
pub open spec fn eligible(s: Solver, c: char) -> bool {
    total(s.candidates@, c) > 0 && !s.attempted@.contains(c) && !is_placed(s.word@, c)
}

impl Solver {
    /// The candidates' counts fit the counters, and the candidates are well formed.
    pub open spec fn wf(&self) -> bool {
        self.candidates.wf() && total_chars(self.candidates@) <= u64::MAX
    }

    /// Starts a solve of `word` against `dictionary`: the candidates are the
    /// words consistent with the pattern, and nothing has been tried.
    pub fn new(word: Word, dictionary: &Dictionary) -> (r: Solver)
        requires
            dictionary.wf(),
            total_chars(dictionary@) <= u64::MAX,
        ensures
            r.wf(),
            r.word@ == word@,
            r.candidates@ == matching_subset(dictionary@, word@),
            r.attempted@ == Seq::<char>::empty(),
    {
        let candidates = dictionary.filter_matching(&word);
        proof {
            lemma_keep_total_chars(dictionary@, |k: Seq<char>| word_matches(word@, k));
        }
        Solver { word, candidates, attempted: Vec::new() }
    }

    /// The letters not to suggest: those tried, and those placed in the word.
    pub fn excluded_letters(&self) -> (r: Vec<char>)
        ensures
            forall|c: char| r@.contains(c) <==> self.attempted@.contains(c) || is_placed(self.word@, c),
    {
        let mut r: Vec<char> = Vec::new();
        let mut i: usize = 0;
        while i < self.attempted.len()
            invariant
                i <= self.attempted@.len(),
                r@ == self.attempted@.take(i as int),
            decreases self.attempted@.len() - i,
        {
            r.push(self.attempted[i]);
            i += 1;
            assert(r@ =~= self.attempted@.take(i as int));
        }
        assert(r@ =~= self.attempted@);
        let ghost n = r@.len();
        let mut j: usize = 0;
        while j < self.word.fragments.len()
            invariant
                j <= self.word@.len(),
                n == self.attempted@.len(),
                r@.len() >= n,
                r@.take(n as int) == self.attempted@,
                forall|k: int| n <= k < r@.len() ==> is_placed(self.word@, #[trigger] r@[k]),
                forall|k: int| 0 <= k < j ==> match #[trigger] self.word@[k] {
                    Fragment::Letter(Some(l)) => r@.contains(l),
                    _ => true,
                },
            decreases self.word@.len() - j,
        {
            if let Fragment::Letter(Some(l)) = self.word.fragments[j] {
                let ghost before = r@;
                r.push(l);
                assert(r@.take(n as int) =~= before.take(n as int));
                assert(r@[before.len() as int] == l);
                assert forall|k: int| 0 <= k < j implies match #[trigger] self.word@[k] {
                    Fragment::Letter(Some(l2)) => r@.contains(l2),
                    _ => true,
                } by {
                    if let Fragment::Letter(Some(l2)) = self.word@[k] {
                        let q = choose|q: int| 0 <= q < before.len() && before[q] == l2;
                        assert(r@[q] == l2);
                    }
                }
            }
            j += 1;
        }
        assert forall|c: char| r@.contains(c) <==> self.attempted@.contains(c) || is_placed(self.word@, c) by {
            if r@.contains(c) {
                let q = choose|q: int| 0 <= q < r@.len() && r@[q] == c;
                if q < n {
                    assert(self.attempted@[q] == r@.take(n as int)[q]);
                }
            }
            if self.attempted@.contains(c) {
                let q = choose|q: int| 0 <= q < self.attempted@.len() && self.attempted@[q] == c;
                assert(r@[q] == r@.take(n as int)[q]);
            }
            if is_placed(self.word@, c) {
                let k = choose|k: int| 0 <= k < self.word@.len() && self.word@[k] == Fragment::Letter(Some(c));
                assert(match self.word@[k] {
                    Fragment::Letter(Some(l)) => r@.contains(l),
                    _ => true,
                });
            }
        }
        r
    }

    /// What to do next: `Solved` once no letter is unknown; otherwise the
    /// best eligible letter (highest count, then smallest character), or
    /// `Exhausted` when none is eligible.
    pub fn next(&self) -> (r: Step)
        requires
            self.wf(),
        ensures
            !has_unknown(self.word@) ==> r == Step::Solved,
            has_unknown(self.word@) ==> r != Step::Solved,
            has_unknown(self.word@) ==> (r == Step::Exhausted <==> forall|c: char| !eligible(*self, c)),
            forall|c: char, n: u64|
                r == Step::Suggest(c, n) ==> eligible(*self, c) && n == total(self.candidates@, c)
                    && forall|c2: char|
                    #![trigger eligible(*self, c2)]
                    eligible(*self, c2) && c2 != c ==> n > total(self.candidates@, c2) || (n == total(
                        self.candidates@,
                        c2,
                    ) && c < c2),
    {
        if self.word.is_solved() {
            return Step::Solved;
        }
        let excluded = self.excluded_letters();
        let ranked = self.candidates.rank_letters(&excluded);
        if ranked.len() == 0 {
            assert forall|c: char| !eligible(*self, c) by {
                if eligible(*self, c) {
                    assert(!excluded@.contains(c));
                }
            }
            return Step::Exhausted;
        }
        let (c, n) = ranked[0];
        assert(ranked@[0] == (c, n));
        assert(!excluded@.contains(c));
        assert(eligible(*self, c));
        assert forall|c2: char| eligible(*self, c2) && c2 != c implies n > total(self.candidates@, c2) || (n == total(
            self.candidates@,
            c2,
        ) && c < c2) by {
            assert(!excluded@.contains(c2));
            let k = choose|k: int| 0 <= k < ranked@.len() && (#[trigger] ranked@[k]).0 == c2;
            assert(k != 0);
            assert(ranks_before(ranked@[0], ranked@[k]));
        }
        Step::Suggest(c, n)
    }

    /// Applies the guesser's feedback on `letter`. No positions is a miss:
    /// every candidate holding the letter is dropped. Otherwise the letter is
    /// revealed at the positions and the candidates are filtered again; a
    /// refused position changes nothing. Either way the letter counts as
    /// tried once the feedback is taken.
    pub fn apply(&mut self, letter: char, positions: &Vec<usize>) -> (r: Result<(), PatternError>)
        requires
            old(self).wf(),
        ensures
            final(self).wf(),
            positions@.len() == 0 ==> r is Ok && final(self).word@ == old(self).word@
                && final(self).candidates@ == without_letter(old(self).candidates@, letter)
                && final(self).attempted@ == old(self).attempted@.push(letter),
            positions@.len() > 0 ==> match reveal_error(old(self).word@, letter, positions@) {
                Some(e) => r == Err::<(), PatternError>(e) && final(self).word@ == old(self).word@
                    && final(self).candidates@ == old(self).candidates@
                    && final(self).attempted@ == old(self).attempted@,
                None => r is Ok && final(self).word@ == revealed(old(self).word@, letter, positions@)
                    && final(self).candidates@ == matching_subset(old(self).candidates@, final(self).word@)
                    && final(self).attempted@ == old(self).attempted@.push(letter),
            },
    {
        if positions.len() == 0 {
            proof {
                lemma_keep_total_chars(self.candidates@, |k: Seq<char>| !k.contains(letter));
            }
            self.candidates.remove_containing(letter);
            self.attempted.push(letter);
            return Ok(());
        }
        match self.word.reveal_at(letter, positions) {
            Err(e) => Err(e),
            Ok(()) => {
                let narrowed = self.candidates.filter_matching(&self.word);
                proof {
                    lemma_keep_total_chars(self.candidates@, |k: Seq<char>| word_matches(self.word@, k));
                }
                self.candidates = narrowed;
                self.attempted.push(letter);
                Ok(())
            },
        }
    }
}

} // verus!
