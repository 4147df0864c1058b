use word_chain::{check_lengths, get_words, LengthError};

#[test]
fn words_of_one_length_pass() {
    assert_eq!(check_lengths("cat", "dog", &["cot", "cog"]), Ok(()));
    assert_eq!(check_lengths("cat", "dog", &[]), Ok(()));
    assert_eq!(check_lengths("", "", &["", ""]), Ok(()));
}

#[test]
fn the_dictionary_passes_with_three_letter_words() {
    assert_eq!(check_lengths("dog", "imp", &get_words()), Ok(()));
}

#[test]
fn the_dictionary_fails_with_longer_words() {
    assert_eq!(
        check_lengths("dogs", "imps", &get_words()),
        Err(LengthError::Pool { index: 0, expected: 4, found: 3 })
    );
}

#[test]
fn an_end_word_of_another_length_is_reported_first() {
    assert_eq!(
        check_lengths("cat", "do", &["cots", "cog"]),
        Err(LengthError::End { expected: 3, found: 2 })
    );
}

#[test]
fn the_first_pool_word_of_another_length_is_reported() {
    assert_eq!(
        check_lengths("cat", "dog", &["cot", "cogs", "d", "dig"]),
        Err(LengthError::Pool { index: 1, expected: 3, found: 4 })
    );
    assert_eq!(
        check_lengths("cat", "dog", &["cot", "cog", "dig", ""]),
        Err(LengthError::Pool { index: 3, expected: 3, found: 0 })
    );
}

#[test]
fn lengths_are_counted_in_letters() {
    assert_eq!(check_lengths("été", "ete", &["ôté"]), Ok(()));
    assert_eq!(
        check_lengths("ete", "été", &["étés"]),
        Err(LengthError::Pool { index: 0, expected: 3, found: 4 })
    );
}
