//! The two-phase linear scan that finds a majority vote.

use vstd::prelude::*;
use vstd::utf8::{decode_utf8, encode_utf8};

use crate::majority::{
    ballot_of, is_majority, lemma_majority_of, lemma_tally_push, majority_of, tally,
};

verus! {

/// What a result says: the text of the winning vote, if there is one.
pub open spec fn winner_of(r: Option<&str>) -> Option<Seq<char>> {
    match r {
        Some(w) => Some(w@),
        None => None,
    }
}

/// Whether two votes hold the same text, compared byte by byte.
fn same_vote(a: &str, b: &str) -> (r: bool)
    ensures
        r == (a@ == b@),
{
    let x = a.as_bytes();
    let y = b.as_bytes();
    proof {
        // Equal encodings come only from equal texts.
        vstd::utf8::encode_utf8_decode_utf8(a@);
        vstd::utf8::encode_utf8_decode_utf8(b@);
    }
    if x.len() != y.len() {
        return false;
    }
    let mut i: usize = 0;
    while i < x.len()
        invariant
            x@ == encode_utf8(a@),
            y@ == encode_utf8(b@),
            decode_utf8(x@) == a@,
            decode_utf8(y@) == b@,
            x@.len() == y@.len(),
            i <= x@.len(),
            forall|j: int| 0 <= j < i ==> x@[j] == y@[j],
        decreases x@.len() - i,
    {
        if x[i] != y[i] {
            assert(x@[i as int] != y@[i as int]);
            return false;
        }
        i += 1;
    }
    assert(x@ =~= y@);
    true
}

/// Finds the vote that occurs in strictly more than `floor(n / 2)` of the `n`
/// positions of `votes`, or `None` where there is no such vote (an empty
/// ballot included).
///
/// A first pass keeps a running candidate and a tally that each other vote
/// cancels against; only a majority vote is sure to survive it. A second pass
/// counts the candidate and accepts it only where that count exceeds half.
pub fn boyer_moore<'a>(votes: Vec<&'a str>) -> (r: Option<&'a str>)
    ensures
        winner_of(r) == majority_of(ballot_of(votes@)),
        r matches Some(w) ==> votes@.contains(w) && is_majority(ballot_of(votes@), w@),
        r is None <==> forall|v: Seq<char>| !is_majority(ballot_of(votes@), v),
        forall|v: Seq<char>|
            is_majority(ballot_of(votes@), v) ==> (r matches Some(w) && w@ == v),
{
    let ghost ballot = ballot_of(votes@);
    let n = votes.len();
    if n == 0 {
        proof {
            lemma_majority_of(ballot);
            assert forall|v: Seq<char>| !is_majority(ballot, v) by {}
        }
        return None;
    }
    let mut candidate: &'a str = votes[0];
    let mut count: usize = 1;
    let mut i: usize = 1;
    proof {
        assert(ballot.take(1) =~= ballot.take(0).push(candidate@));
        assert forall|v: Seq<char>| tally(ballot.take(1), v) == if v == candidate@ { 1nat } else { 0nat } by {
            lemma_tally_push(ballot.take(0), candidate@, v);
        }
    }
    while i < n
        invariant
            n == votes@.len(),
            ballot == ballot_of(votes@),
            1 <= i <= n,
            count <= i,
            votes@.contains(candidate),
            // Each vote that lowered the tally cancelled one vote for another
            // text, so no text but the candidate can hold half of the prefix.
            2 * tally(ballot.take(i as int), candidate@) <= i + count,
            forall|v: Seq<char>| v != candidate@ ==> 2 * tally(ballot.take(i as int), v) + count <= i,
        decreases n - i,
    {
        let vote = votes[i];
        let ghost prev = ballot.take(i as int);
        let ghost old_candidate = candidate@;
        let ghost old_count = count;
        if same_vote(vote, candidate) {
            count += 1;
        } else if count == 0 {
            // The new candidate starts with its own vote counted.
            candidate = vote;
            count = 1;
            assert(votes@[i as int] == candidate);
        } else {
            count -= 1;
        }
        proof {
            assert(ballot.take(i + 1) =~= prev.push(vote@));
            lemma_tally_push(prev, vote@, candidate@);
            lemma_tally_push(prev, vote@, old_candidate);
            assert forall|v: Seq<char>| v != candidate@ implies 2 * #[trigger] tally(ballot.take(i + 1), v)
                + count <= i + 1 by {
                lemma_tally_push(prev, vote@, v);
                if v != old_candidate {
                    assert(2 * tally(prev, v) + old_count <= i);
                }
            }
        }
        i += 1;
    }
    let threshold: usize = n / 2;
    let mut hits: usize = 0;
    let mut j: usize = 0;
    while j < n
        invariant
            n == votes@.len(),
            ballot == ballot_of(votes@),
            j <= n,
            hits <= j,
            hits == tally(ballot.take(j as int), candidate@),
        decreases n - j,
    {
        proof {
            assert(ballot.take(j + 1) =~= ballot.take(j as int).push(votes@[j as int]@));
            lemma_tally_push(ballot.take(j as int), votes@[j as int]@, candidate@);
        }
        if same_vote(votes[j], candidate) {
            hits += 1;
        }
        j += 1;
    }
    assert(ballot.take(n as int) =~= ballot);
    proof {
        lemma_majority_of(ballot);
    }
    if hits > threshold {
        assert(is_majority(ballot, candidate@));
        Some(candidate)
    } else {
        proof {
            assert forall|v: Seq<char>| !is_majority(ballot, v) by {
                if v != candidate@ {
                    assert(2 * tally(ballot, v) <= n);
                }
            }
        }
        None
    }
}

} // verus!
