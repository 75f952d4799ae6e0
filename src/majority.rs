//! The mathematical model of a ballot and of its majority.

use vstd::prelude::*;

verus! {

/// A ballot of string votes seen as the sequence of their contents.
pub open spec fn ballot_of(votes: Seq<&str>) -> Seq<Seq<char>> {
    votes.map_values(|v: &str| v@)
}

/// The number of positions of `s` that hold `v`.
pub open spec fn tally(s: Seq<Seq<char>>, v: Seq<char>) -> nat
    decreases s.len(),
{
    if s.len() == 0 {
        0
    } else {
        tally(s.drop_last(), v) + if s.last() == v { 1nat } else { 0nat }
    }
}

/// `v` occurs in strictly more than `floor(n / 2)` of the `n` positions of `s`.
pub open spec fn is_majority(s: Seq<Seq<char>>, v: Seq<char>) -> bool {
    tally(s, v) > s.len() / 2
}

/// The majority vote of `s`, or `None` where no vote has a majority.
pub open spec fn majority_of(s: Seq<Seq<char>>) -> Option<Seq<char>> {
    if exists|v: Seq<char>| is_majority(s, v) {
        Some(choose|v: Seq<char>| is_majority(s, v))
    } else {
        None
    }
}

/// Appending one vote adds one to its own tally and leaves every other tally alone.
pub proof fn lemma_tally_push(s: Seq<Seq<char>>, e: Seq<char>, v: Seq<char>)
    ensures
        tally(s.push(e), v) == tally(s, v) + if e == v { 1nat } else { 0nat },
{
    assert(s.push(e).drop_last() =~= s);
}

/// The tallies of two distinct votes together never exceed the ballot's length.
pub proof fn lemma_tally_pair(s: Seq<Seq<char>>, v1: Seq<char>, v2: Seq<char>)
    requires
        v1 != v2,
    ensures
        tally(s, v1) + tally(s, v2) <= s.len(),
    decreases s.len(),
{
    if s.len() > 0 {
        lemma_tally_pair(s.drop_last(), v1, v2);
    }
}

/// The tally of a vote is its multiplicity in the ballot seen as a multiset.
pub proof fn lemma_tally_multiset(s: Seq<Seq<char>>, v: Seq<char>)
    ensures
        tally(s, v) == s.to_multiset().count(v),
    decreases s.len(),
{
    broadcast use vstd::seq_lib::group_to_multiset_ensures;

    if s.len() > 0 {
        lemma_tally_multiset(s.drop_last(), v);
        assert(s.drop_last().push(s.last()) =~= s);
    }
}

/// A majority vote, where one exists, is unique.
pub proof fn lemma_majority_unique(s: Seq<Seq<char>>, v1: Seq<char>, v2: Seq<char>)
    requires
        is_majority(s, v1),
        is_majority(s, v2),
    ensures
        v1 == v2,
{
    if v1 != v2 {
        lemma_tally_pair(s, v1, v2);
    }
}

/// `majority_of` names the vote with a majority exactly when there is one.
pub proof fn lemma_majority_of(s: Seq<Seq<char>>)
    ensures
        majority_of(s) is None <==> forall|v: Seq<char>| !is_majority(s, v),
        forall|v: Seq<char>| is_majority(s, v) ==> majority_of(s) == Some(v),
{
    assert forall|v: Seq<char>| is_majority(s, v) implies majority_of(s) == Some(v) by {
        lemma_majority_unique(s, v, majority_of(s)->0);
    }
}

/// Two ballots that hold the same votes the same number of times have the
/// same majority.
pub proof fn lemma_majority_same_multiset(a: Seq<Seq<char>>, b: Seq<Seq<char>>)
    requires
        a.to_multiset() == b.to_multiset(),
    ensures
        majority_of(a) == majority_of(b),
{
    broadcast use vstd::seq_lib::group_to_multiset_ensures;

    a.to_multiset_ensures();
    b.to_multiset_ensures();
    assert forall|v: Seq<char>| is_majority(a, v) <==> is_majority(b, v) by {
        lemma_tally_multiset(a, v);
        lemma_tally_multiset(b, v);
    }
    lemma_majority_of(a);
    lemma_majority_of(b);
}

/// Votes that are a reordering of one another have texts that are a
/// reordering of one another.
pub proof fn lemma_ballot_multiset(a: Seq<&str>, b: Seq<&str>)
    requires
        a.to_multiset() == b.to_multiset(),
    ensures
        ballot_of(a).to_multiset() == ballot_of(b).to_multiset(),
    decreases a.len(),
{
    a.to_multiset_ensures();
    b.to_multiset_ensures();
    if a.len() == 0 {
        assert(ballot_of(a) =~= ballot_of(b));
    } else {
        let x = a.last();
        assert(a[a.len() - 1] == x);
        assert(a.to_multiset().count(x) > 0);
        assert(b.contains(x));
        let j = choose|j: int| 0 <= j < b.len() && b[j] == x;
        let a2 = a.drop_last();
        let b2 = b.remove(j);
        a2.to_multiset_ensures();
        assert(a2.push(x) =~= a);
        assert(a2.to_multiset() =~= b2.to_multiset());
        lemma_ballot_multiset(a2, b2);
        let ba2 = ballot_of(a2);
        let bb = ballot_of(b);
        ba2.to_multiset_ensures();
        bb.to_multiset_ensures();
        assert(ballot_of(a) =~= ba2.push(x@));
        assert(ballot_of(b2) =~= bb.remove(j));
        assert(bb[j] == x@);
        assert(bb.to_multiset() =~= ballot_of(b2).to_multiset().insert(x@));
    }
}

/// Reordering the votes of a ballot never changes its majority.
pub proof fn lemma_majority_order_independent(a: Seq<&str>, b: Seq<&str>)
    requires
        a.to_multiset() == b.to_multiset(),
    ensures
        majority_of(ballot_of(a)) == majority_of(ballot_of(b)),
{
    lemma_ballot_multiset(a, b);
    lemma_majority_same_multiset(ballot_of(a), ballot_of(b));
}

} // verus!
