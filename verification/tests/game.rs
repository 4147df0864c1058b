use word_chain::dictionary::{DICTIONARY_TEXT, WORD_LEN};
use word_chain::{get_words, solve, word_chain_game};

#[test]
fn dog_to_dog_takes_no_step() {
    assert_eq!(word_chain_game("dog", "dog"), Some(0));
}

#[test]
fn dog_to_imp_takes_seven_steps() {
    assert_eq!(word_chain_game("dog", "imp"), Some(7));
}

#[test]
fn mad_to_gnu_has_no_chain() {
    assert_eq!(word_chain_game("mad", "gnu"), None);
}

#[test]
fn a_word_outside_the_dictionary_reaches_itself() {
    assert_eq!(word_chain_game("qqq", "qqq"), Some(0));
    assert_eq!(word_chain_game("chain", "chain"), Some(0));
}

#[test]
fn a_word_outside_the_dictionary_is_never_reached() {
    assert_eq!(word_chain_game("dog", "dxg"), None);
}

#[test]
fn a_start_outside_the_dictionary_can_enter_it() {
    assert_eq!(word_chain_game("dxg", "dog"), Some(1));
    assert_eq!(word_chain_game("dxg", "dig"), Some(1));
    assert_eq!(word_chain_game("dxg", "cog"), Some(2));
}

#[test]
fn neighbours_are_one_step_apart() {
    assert_eq!(word_chain_game("cat", "cot"), Some(1));
    assert_eq!(word_chain_game("cat", "cog"), Some(2));
    assert_eq!(word_chain_game("cat", "dog"), Some(3));
}

#[test]
fn words_of_other_lengths_are_never_reached() {
    assert_eq!(word_chain_game("dog", "dogs"), None);
    assert_eq!(word_chain_game("dogs", "dog"), None);
    assert_eq!(word_chain_game("", "dog"), None);
}

#[test]
fn the_game_gives_the_same_distance_both_ways() {
    let pairs = [("dog", "imp"), ("cat", "dog"), ("mad", "gnu"), ("aah", "zzz"), ("emu", "ohm")];
    for (a, b) in pairs {
        assert_eq!(word_chain_game(a, b), word_chain_game(b, a));
    }
}

#[test]
fn the_game_is_the_search_on_the_dictionary() {
    let pairs = [("dog", "imp"), ("mad", "gnu"), ("dog", "dog"), ("ape", "man")];
    for (a, b) in pairs {
        assert_eq!(word_chain_game(a, b), solve(a, b, get_words()));
    }
}

#[test]
fn the_distance_never_exceeds_the_dictionary() {
    let starts = ["dog", "mad", "zzz"];
    let ends = ["aah", "cwm", "dog", "emu", "gnu", "imp", "nth", "ohm", "pyx", "zzz"];
    for a in starts {
        for b in ends {
            if let Some(steps) = word_chain_game(a, b) {
                assert!(steps <= 1015);
            }
        }
    }
}

#[test]
fn get_words_hands_out_the_dictionary() {
    let words = get_words();
    assert_eq!(words.len(), 1015);
    assert_eq!(words, DICTIONARY_TEXT.split(' ').collect::<Vec<&str>>());
    assert_eq!(words.join(" "), DICTIONARY_TEXT);
    assert_eq!(words[0], "aah");
    assert_eq!(words[1], "aal");
    assert_eq!(words[1014], "zzz");
    assert!(words.contains(&"dog"));
    assert!(words.contains(&"imp"));
    assert!(words.contains(&"gnu"));
    assert!(!words.contains(&"qqq"));
}

#[test]
fn dictionary_words_have_three_letters() {
    assert_eq!(WORD_LEN, 3);
    for word in get_words() {
        assert_eq!(word.chars().count(), WORD_LEN);
    }
}

#[test]
fn the_dictionary_is_sorted_and_holds_no_word_twice() {
    let words = get_words();
    for pair in words.windows(2) {
        assert!(pair[0] < pair[1]);
    }
}
