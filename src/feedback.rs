//! The guesser's feedback line: `letter,(pos,pos,...)`, where an empty list
//! of positions reports a miss.
use vstd::prelude::*;
use crate::text::{alphanumeric, chars_of, is_alphanumeric};

verus! {

/// A feedback line that does not have the expected shape.
#[derive(Clone, Copy, Debug, PartialEq, Eq, Structural)]
pub enum FeedbackError {
    Malformed,
}

/// The value of a decimal digit.
pub open spec fn digit_value(c: char) -> nat {
    (c as u32 - '0' as u32) as nat
}

/// Whether `c` is a decimal digit.
pub open spec fn is_digit(c: char) -> bool {
    '0' <= c && c <= '9'
}

/// The value of a run of decimal digits.
pub open spec fn digits_value(d: Seq<char>) -> nat
    decreases d.len(),
{
    if d.len() == 0 {
        0
    } else {
        digits_value(d.drop_last()) * 10 + digit_value(d.last())
    }
}

/// A non-empty run of decimal digits whose value fits a `usize`.
pub open spec fn number_ok(d: Seq<char>) -> bool {
    d.len() > 0 && (forall|i: int| 0 <= i < d.len() ==> is_digit(#[trigger] d[i]))
        && digits_value(d) <= usize::MAX
}

/// The pieces of `s` between commas, in order (one piece when there is no comma).
pub open spec fn comma_pieces(s: Seq<char>) -> Seq<Seq<char>>
    decreases s.len(),
{
    if s.len() == 0 {
        seq![Seq::empty()]
    } else {
        let prev = comma_pieces(s.drop_last());
        if s.last() == ',' {
            prev.push(Seq::empty())
        } else {
            prev.update(prev.len() - 1, prev.last().push(s.last()))
        }
    }
}

/// The positions that a comma-separated list of numbers gives: none for an
/// empty text; otherwise every piece between commas must be a number that
/// fits a `usize`, else `None`.
pub open spec fn positions_of(s: Seq<char>) -> Option<Seq<usize>> {
    if s.len() == 0 {
        Some(Seq::empty())
    } else if forall|k: int| 0 <= k < comma_pieces(s).len() ==> number_ok(#[trigger] comma_pieces(s)[k]) {
        Some(comma_pieces(s).map_values(|d: Seq<char>| digits_value(d) as usize))
    } else {
        None
    }
}

/// What a feedback line reports: an alphanumeric letter and its positions.
pub open spec fn feedback_of(s: Seq<char>) -> Option<(char, Seq<usize>)> {
    if s.len() >= 4 && alphanumeric(s[0]) && s[1] == ',' && s[2] == '(' && s.last() == ')' {
        match positions_of(s.subrange(3, s.len() - 1)) {
            Some(ps) => Some((s[0], ps)),
            None => None,
        }
    } else {
        None
    }
}

/// A prefix of a digit run has no greater value than the whole run.
proof fn lemma_digits_value_prefix(d: Seq<char>, j: int)
    requires
        0 <= j <= d.len(),
        forall|i: int| 0 <= i < d.len() ==> is_digit(#[trigger] d[i]),
    ensures
        digits_value(d.take(j)) <= digits_value(d),
    decreases d.len() - j,
{
    if j < d.len() {
        lemma_digits_value_prefix(d, j + 1);
        assert(d.take(j + 1).drop_last() =~= d.take(j));
    } else {
        assert(d.take(j) =~= d);
    }
}

/// The number that `d` spells, when it is one that fits a `usize`.
fn number_of(d: &Vec<char>) -> (r: Option<usize>)
    ensures
        r == if number_ok(d@) {
            Some(digits_value(d@) as usize)
        } else {
            None::<usize>
        },
{
    if d.len() == 0 {
        return None;
    }
    let mut v: usize = 0;
    let mut j: usize = 0;
    assert(d@.take(0).len() == 0);
    while j < d.len()
        invariant
            j <= d@.len(),
            forall|i: int| 0 <= i < j ==> is_digit(#[trigger] d@[i]),
            v == digits_value(d@.take(j as int)),
        decreases d@.len() - j,
    {
        let c = d[j];
        assert(d@.take(j + 1).drop_last() =~= d@.take(j as int));
        if !('0' <= c && c <= '9') {
            return None;
        }
        let k: usize = (c as u32 - '0' as u32) as usize;
        if v > (usize::MAX - k) / 10 {
            proof {
                if forall|i: int| 0 <= i < d@.len() ==> is_digit(#[trigger] d@[i]) {
                    lemma_digits_value_prefix(d@, j + 1);
                }
            }
            return None;
        }
        v = v * 10 + k;
        j += 1;
    }
    assert(d@.take(j as int) =~= d@);
    Some(v)
}

/// Reads a feedback line such as `t,(0,3)`, or `x,()` for a miss. The letter
/// must be alphanumeric.
pub fn parse_feedback(line: &str) -> (r: Result<(char, Vec<usize>), FeedbackError>)
    ensures
        match feedback_of(line@) {
            Some((c, ps)) => r matches Ok((c2, v)) && c2 == c && v@ == ps,
            None => r == Err::<(char, Vec<usize>), FeedbackError>(FeedbackError::Malformed),
        },
{
    let s = chars_of(line);
    let n = s.len();
    if !(n >= 4 && is_alphanumeric(s[0]) && s[1] == ',' && s[2] == '(' && s[n - 1] == ')') {
        return Err(FeedbackError::Malformed);
    }
    let ghost inner = s@.subrange(3, n - 1);
    if n == 4 {
        assert(inner.len() == 0);
        return Ok((s[0], Vec::new()));
    }
    let mut pieces: Vec<Vec<char>> = Vec::new();
    let mut cur: Vec<char> = Vec::new();
    let mut i: usize = 3;
    assert(inner.take(0) =~= Seq::<char>::empty());
    assert(pieces@.map_values(|p: Vec<char>| p@).push(cur@) =~= comma_pieces(inner.take(0)));
    while i < n - 1
        invariant
            s@ == line@,
            n == s@.len(),
            n >= 5,
            inner == s@.subrange(3, n - 1),
            3 <= i <= n - 1,
            pieces@.map_values(|p: Vec<char>| p@).push(cur@) == comma_pieces(inner.take(i - 3)),
        decreases n - 1 - i,
    {
        let c = s[i];
        assert(inner.take(i - 2).drop_last() =~= inner.take(i - 3));
        assert(inner.take(i - 2).last() == c);
        let ghost before = pieces@.map_values(|p: Vec<char>| p@).push(cur@);
        if c == ',' {
            let done = cur;
            pieces.push(done);
            cur = Vec::new();
            assert(pieces@.map_values(|p: Vec<char>| p@).push(cur@) =~= before.push(Seq::empty()));
        } else {
            cur.push(c);
            assert(pieces@.map_values(|p: Vec<char>| p@).push(cur@) =~= before.update(
                before.len() - 1,
                before.last().push(c),
            ));
        }
        i += 1;
    }
    assert(inner.take(i - 3) =~= inner);
    let last = cur;
    let ghost all = pieces@.map_values(|p: Vec<char>| p@).push(last@);
    pieces.push(last);
    assert(pieces@.map_values(|p: Vec<char>| p@) =~= all);
    let mut out: Vec<usize> = Vec::new();
    let mut k: usize = 0;
    while k < pieces.len()
        invariant
            all == pieces@.map_values(|p: Vec<char>| p@),
            all == comma_pieces(inner),
            inner.len() > 0,
            feedback_of(line@) == match positions_of(inner) {
                Some(ps) => Some((s@[0], ps)),
                None => None,
            },
            k <= all.len(),
            forall|m: int| 0 <= m < k ==> number_ok(#[trigger] all[m]),
            out@ == all.take(k as int).map_values(|d: Seq<char>| digits_value(d) as usize),
        decreases all.len() - k,
    {
        assert(pieces@[k as int]@ == all[k as int]);
        match number_of(&pieces[k]) {
            None => {
                assert(!number_ok(all[k as int]));
                return Err(FeedbackError::Malformed);
            },
            Some(v) => {
                out.push(v);
                assert(out@ =~= all.take(k + 1).map_values(|d: Seq<char>| digits_value(d) as usize));
            },
        }
        k += 1;
    }
    assert(all.take(k as int) =~= all);
    Ok((s[0], out))
}

} // verus!
