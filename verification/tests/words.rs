use word_chain::{is_adjacent, same_word};

#[test]
fn words_that_differ_in_one_letter_are_adjacent() {
    assert!(is_adjacent("cat", "cot"));
    assert!(is_adjacent("cat", "bat"));
    assert!(is_adjacent("cat", "cab"));
    assert!(is_adjacent("a", "b"));
}

#[test]
fn a_word_is_not_adjacent_to_itself() {
    assert!(!is_adjacent("cat", "cat"));
    assert!(!is_adjacent("", ""));
}

#[test]
fn words_that_differ_in_more_letters_are_not_adjacent() {
    assert!(!is_adjacent("cat", "dog"));
    assert!(!is_adjacent("cat", "cog"));
    assert!(!is_adjacent("ab", "ba"));
    assert!(!is_adjacent("abcd", "abdc"));
}

#[test]
fn words_of_different_lengths_are_not_adjacent() {
    assert!(!is_adjacent("cat", "cats"));
    assert!(!is_adjacent("cats", "cat"));
    assert!(!is_adjacent("cat", "ca"));
    assert!(!is_adjacent("", "a"));
    assert!(!is_adjacent("a", ""));
    assert!(!is_adjacent("cat", "cots"));
}

#[test]
fn adjacency_is_symmetric() {
    let words = ["cat", "cot", "cog", "dog", "cats", "", "a", "b"];
    for a in words {
        for b in words {
            assert_eq!(is_adjacent(a, b), is_adjacent(b, a));
        }
    }
}

#[test]
fn adjacency_counts_letters_not_bytes() {
    assert!(is_adjacent("été", "éte"));
    assert!(is_adjacent("é", "e"));
    assert!(!is_adjacent("été", "ete"));
}

#[test]
fn same_word_compares_letter_by_letter() {
    assert!(same_word("cat", "cat"));
    assert!(same_word("", ""));
    assert!(same_word("été", "été"));
    assert!(!same_word("cat", "cot"));
    assert!(!same_word("cat", "cats"));
    assert!(!same_word("cats", "cat"));
    assert!(!same_word("", "a"));
    assert!(!same_word("tac", "cat"));
}
