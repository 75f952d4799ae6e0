use majority_vote::boyer_moore;

#[test]
fn repeated_calls_agree() {
    let votes = vec!["x", "y", "x", "x", "z"];
    let first = boyer_moore(votes.clone());
    let second = boyer_moore(votes);
    assert_eq!(first, Some("x"));
    assert_eq!(first, second);
}

#[test]
fn majority_is_found_wherever_it_stands() {
    assert_eq!(boyer_moore(vec!["x", "x", "x", "y", "z"]), Some("x"));
    assert_eq!(boyer_moore(vec!["y", "z", "x", "x", "x"]), Some("x"));
    assert_eq!(boyer_moore(vec!["x", "y", "x", "z", "x"]), Some("x"));
}

#[test]
fn plurality_without_majority_is_no_winner() {
    assert_eq!(boyer_moore(vec!["x", "x", "y", "z"]), None);
    assert_eq!(boyer_moore(vec!["x", "y", "z"]), None);
}

#[test]
fn exact_half_is_no_winner() {
    assert_eq!(boyer_moore(vec!["x", "y", "x", "y"]), None);
    assert_eq!(boyer_moore(vec!["x", "x", "y", "y"]), None);
}

#[test]
fn every_order_of_a_ballot_agrees() {
    let orders = [
        ["a", "a", "b", "c", "a"],
        ["b", "c", "a", "a", "a"],
        ["a", "b", "a", "c", "a"],
        ["c", "a", "b", "a", "a"],
    ];
    for order in orders.iter() {
        assert_eq!(boyer_moore(order.to_vec()), Some("a"));
    }
    let tied = [["a", "b", "a", "b"], ["b", "b", "a", "a"], ["a", "a", "b", "b"]];
    for order in tied.iter() {
        assert_eq!(boyer_moore(order.to_vec()), None);
    }
}

#[test]
fn reset_after_zero_tally_counts_the_new_candidate() {
    // The tally drops to zero after "a b"; "c" then takes over and must keep
    // its own vote so that it survives the last "d".
    assert_eq!(boyer_moore(vec!["a", "b", "c", "c", "d", "c", "c"]), Some("c"));
}

#[test]
fn votes_compare_by_their_whole_text() {
    assert_eq!(boyer_moore(vec!["ab", "ac", "ab"]), Some("ab"));
    assert_eq!(boyer_moore(vec!["ab", "abc", "ab"]), Some("ab"));
    assert_eq!(boyer_moore(vec!["ab", "ac", "ad"]), None);
    assert_eq!(boyer_moore(vec!["", "", "a"]), Some(""));
}

#[test]
fn equal_text_in_distinct_strings_counts_together() {
    let first = String::from("vote");
    let second = String::from("vote");
    let third = String::from("other");
    let votes = vec![third.as_str(), first.as_str(), second.as_str()];
    assert_eq!(boyer_moore(votes), Some("vote"));
}

#[test]
fn multibyte_votes_are_compared_exactly() {
    assert_eq!(boyer_moore(vec!["é", "e\u{301}", "é"]), Some("é"));
    assert_eq!(boyer_moore(vec!["日本", "日本", "中国"]), Some("日本"));
}

#[test]
fn long_ballot_with_majority() {
    let mut votes = Vec::new();
    for i in 0..1001 {
        if i % 2 == 0 {
            votes.push("yes");
        } else if i % 3 == 0 {
            votes.push("no");
        } else {
            votes.push("abstain");
        }
    }
    assert_eq!(boyer_moore(votes), Some("yes"));
}
