//! The stored form of a dictionary: every word followed by a line break.
use vstd::prelude::*;
use crate::dictionary::{Dictionary, first_occurrences, word_ok, unique, accepted};
use crate::text::{chars_of, push_char};

verus! {

/// What can go wrong when reading a stored dictionary.
#[derive(Clone, Copy, Debug, PartialEq, Eq, Structural)]
pub enum StoreError {
    /// The text does not end with a line break, or a record holds a
    /// character that no dictionary word may hold.
    Malformed,
}

/// The stored form of the words `d`.
pub open spec fn encoded(d: Seq<Seq<char>>) -> Seq<char>
    decreases d.len(),
{
    if d.len() == 0 {
        Seq::empty()
    } else {
        encoded(d.drop_last()) + d.last().push('\n')
    }
}

/// The records of `t` that a line break ends, and what follows the last one.
pub open spec fn split_records(t: Seq<char>) -> (Seq<Seq<char>>, Seq<char>)
    decreases t.len(),
{
    if t.len() == 0 {
        (Seq::empty(), Seq::empty())
    } else {
        let (done, cur) = split_records(t.drop_last());
        if t.last() == '\n' {
            (done.push(cur), Seq::empty())
        } else {
            (done, cur.push(t.last()))
        }
    }
}

/// The words that the stored text `t` holds, or `None` when it is malformed.
pub open spec fn decoded(t: Seq<char>) -> Option<Seq<Seq<char>>> {
    let (recs, rest) = split_records(t);
    if rest.len() == 0 && forall|i: int| 0 <= i < recs.len() ==> word_ok(#[trigger] recs[i]) {
        Some(first_occurrences(recs))
    } else {
        None
    }
}

/// Appending characters other than a line break extends the open record.
proof fn lemma_split_append(t: Seq<char>, w: Seq<char>)
    requires
        !w.contains('\n'),
    ensures
        split_records(t + w) == (split_records(t).0, split_records(t).1 + w),
    decreases w.len(),
{
    if w.len() == 0 {
        assert(t + w =~= t);
        assert(split_records(t).1 + w =~= split_records(t).1);
    } else {
        assert(!w.drop_last().contains('\n')) by {
            if w.drop_last().contains('\n') {
                let i = choose|i: int| 0 <= i < w.drop_last().len() && w.drop_last()[i] == '\n';
                assert(w[i] == '\n');
            }
        }
        lemma_split_append(t, w.drop_last());
        assert((t + w).drop_last() =~= t + w.drop_last());
        assert(w[w.len() - 1] != '\n');
        assert(split_records(t).1 + w.drop_last() + seq![w.last()] =~= split_records(t).1 + w);
        assert((split_records(t).1 + w.drop_last()).push(w.last()) =~= split_records(t).1 + w);
    }
}

/// The stored form of words without line breaks splits back into them.
proof fn lemma_split_encoded(d: Seq<Seq<char>>)
    requires
        forall|i: int| 0 <= i < d.len() ==> !(#[trigger] d[i]).contains('\n'),
    ensures
        split_records(encoded(d)) == (d, Seq::<char>::empty()),
    decreases d.len(),
{
    if d.len() > 0 {
        let p = d.drop_last();
        let w = d.last();
        assert(forall|i: int| 0 <= i < p.len() ==> #[trigger] p[i] == d[i]);
        lemma_split_encoded(p);
        assert(!w.contains('\n'));
        lemma_split_append(encoded(p), w);
        let t = encoded(p) + w.push('\n');
        assert(t.drop_last() =~= encoded(p) + w);
        assert(t.last() == '\n');
        assert(Seq::<char>::empty() + w =~= w);
        assert(p.push(w) =~= d);
    }
}

/// Words without repeats keep all their first occurrences.
proof fn lemma_first_occurrences_unique(d: Seq<Seq<char>>)
    requires
        unique(d),
    ensures
        first_occurrences(d) == d,
    decreases d.len(),
{
    if d.len() > 0 {
        let p = d.drop_last();
        assert(unique(p));
        lemma_first_occurrences_unique(p);
        if p.contains(d.last()) {
            let i = choose|i: int| 0 <= i < p.len() && p[i] == d.last();
            assert(d[i] == d[d.len() - 1]);
        }
        assert(p.push(d.last()) =~= d);
    }
}

/// Storing a well-formed dictionary and reading it back gives the same words
/// in the same order, hence the same count map for each.
pub proof fn lemma_store_round_trip(d: Seq<Seq<char>>)
    requires
        unique(d),
        forall|i: int| 0 <= i < d.len() ==> word_ok(#[trigger] d[i]),
    ensures
        decoded(encoded(d)) == Some(d),
{
    assert forall|i: int| 0 <= i < d.len() implies !(#[trigger] d[i]).contains('\n') by {
        if d[i].contains('\n') {
            let p = choose|p: int| 0 <= p < d[i].len() && d[i][p] == '\n';
            assert(accepted(d[i][p]));
        }
    }
    lemma_split_encoded(d);
    lemma_first_occurrences_unique(d);
}

impl Dictionary {
    /// The stored form: every word followed by a line break.
    pub fn encode(&self) -> (r: String)
        ensures
            r@ == encoded(self@),
    {
        let mut r = String::new();
        let mut i: usize = 0;
        while i < self.words.len()
            invariant
                i <= self@.len(),
                r@ == encoded(self@.take(i as int)),
            decreases self@.len() - i,
        {
            let w = &self.words[i];
            let ghost start = r@;
            let mut j: usize = 0;
            while j < w.len()
                invariant
                    j <= w@.len(),
                    r@ == start + w@.take(j as int),
                decreases w@.len() - j,
            {
                push_char(&mut r, w[j]);
                j += 1;
                assert(r@ =~= start + w@.take(j as int));
            }
            push_char(&mut r, '\n');
            assert(w@.take(j as int) =~= w@);
            assert(self.words@[i as int]@ == self@[i as int]);
            assert(self@.take(i + 1).drop_last() =~= self@.take(i as int));
            assert(r@ =~= start + w@.push('\n'));
            i += 1;
        }
        assert(self@.take(i as int) =~= self@);
        r
    }

    /// Reads the stored form back. Refused when the text does not end with a
    /// line break or a record holds a character not accepted in a word; a
    /// word stored twice is kept once.
    pub fn decode(text: &str) -> (r: Result<Dictionary, StoreError>)
        ensures
            match r {
                Ok(d) => d.wf() && decoded(text@) == Some(d@),
                Err(_) => decoded(text@) is None,
            },
    {
        let cs = chars_of(text);
        let mut recs: Vec<Vec<char>> = Vec::new();
        let mut cur: Vec<char> = Vec::new();
        let mut i: usize = 0;
        assert(cs@.take(0) =~= Seq::<char>::empty());
        while i < cs.len()
            invariant
                cs@ == text@,
                i <= cs@.len(),
                split_records(cs@.take(i as int)) == (recs@.map_values(|x: Vec<char>| x@), cur@),
            decreases cs@.len() - i,
        {
            assert(cs@.take(i + 1).drop_last() =~= cs@.take(i as int));
            let c = cs[i];
            if c == '\n' {
                let ghost before = recs@.map_values(|x: Vec<char>| x@);
                let done = cur;
                recs.push(done);
                cur = Vec::new();
                assert(recs@.map_values(|x: Vec<char>| x@) =~= before.push(done@));
                assert(cur@ =~= Seq::<char>::empty());
            } else {
                cur.push(c);
            }
            i += 1;
        }
        assert(cs@.take(i as int) =~= cs@);
        let ghost rv = recs@.map_values(|x: Vec<char>| x@);
        if cur.len() > 0 {
            return Err(StoreError::Malformed);
        }
        assert(cur@ =~= Seq::<char>::empty());
        let r = Dictionary::from_words(&recs);
        match r {
            Ok(d) => {
                assert forall|m: int| 0 <= m < rv.len() implies word_ok(#[trigger] rv[m]) by {
                    assert(word_ok(recs@[m]@));
                }
                Ok(d)
            },
            Err(_) => {
                assert(!(forall|m: int| 0 <= m < rv.len() ==> word_ok(#[trigger] rv[m]))) by {
                    if forall|m: int| 0 <= m < rv.len() ==> word_ok(#[trigger] rv[m]) {
                        assert(forall|m: int| 0 <= m < recs@.len() ==> word_ok(#[trigger] recs@[m]@)) by {
                            assert forall|m: int| 0 <= m < recs@.len() implies word_ok(#[trigger] recs@[m]@) by {
                                assert(rv[m] == recs@[m]@);
                            }
                        }
                    }
                }
                Err(StoreError::Malformed)
            },
        }
    }
}

} // verus!
