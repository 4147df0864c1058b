use word_chain::{solve, try_solve, LengthError};

#[test]
fn cat_reaches_dog_in_three_steps() {
    assert_eq!(solve("cat", "dog", vec!["cat", "cot", "cog", "dog"]), Some(3));
}

#[test]
fn cat_and_dog_alone_are_not_joined() {
    assert_eq!(solve("cat", "dog", vec!["cat", "dog"]), None);
}

#[test]
fn a_word_reaches_itself_whatever_the_pool() {
    assert_eq!(solve("dog", "dog", vec![]), Some(0));
    assert_eq!(solve("dog", "dog", vec!["cat"]), Some(0));
    assert_eq!(solve("dog", "dog", vec!["dog", "dig", "dug"]), Some(0));
    assert_eq!(solve("dog", "dog", vec!["a", "much", "longer"]), Some(0));
    assert_eq!(solve("", "", vec!["dog"]), Some(0));
}

#[test]
fn an_empty_pool_joins_nothing() {
    assert_eq!(solve("cat", "cot", vec![]), None);
}

#[test]
fn the_end_word_must_be_in_the_pool() {
    assert_eq!(solve("cat", "cog", vec!["cot"]), None);
    assert_eq!(solve("cat", "cog", vec!["cot", "cog"]), Some(2));
}

#[test]
fn the_start_word_need_not_be_in_the_pool() {
    assert_eq!(solve("cat", "cot", vec!["cot"]), Some(1));
    assert_eq!(solve("cot", "cat", vec!["cot"]), None);
}

#[test]
fn the_end_word_counts_when_it_empties_the_pool() {
    assert_eq!(solve("cat", "cot", vec!["cot"]), Some(1));
    assert_eq!(solve("cat", "dog", vec!["cot", "cog", "dog"]), Some(3));
}

#[test]
fn the_start_word_in_the_pool_changes_nothing() {
    let without = solve("cat", "dog", vec!["cot", "cog", "dog"]);
    let with = solve("cat", "dog", vec!["cat", "cot", "cog", "dog"]);
    let twice = solve("cat", "dog", vec!["cat", "cot", "cat", "cog", "dog"]);
    assert_eq!(without, Some(3));
    assert_eq!(with, without);
    assert_eq!(twice, without);
}

#[test]
fn a_word_held_twice_changes_nothing() {
    assert_eq!(solve("cat", "cog", vec!["cot", "cot", "cog", "cog"]), Some(2));
}

#[test]
fn the_order_of_the_pool_changes_nothing() {
    assert_eq!(solve("cat", "dog", vec!["dog", "cog", "cot", "cat"]), Some(3));
    assert_eq!(solve("cat", "dog", vec!["cog", "dog", "cat", "cot"]), Some(3));
}

#[test]
fn the_shortest_of_several_chains_counts() {
    let pool = vec!["bat", "bag", "bog", "cot", "cog", "dog", "cat", "dot", "cag"];
    assert_eq!(solve("cat", "dog", pool.clone()), Some(3));
    assert_eq!(solve("bat", "dog", pool.clone()), Some(3));
    assert_eq!(solve("bat", "cog", pool.clone()), Some(3));
    assert_eq!(solve("bat", "bog", pool), Some(2));
}

#[test]
fn a_long_way_round_is_found() {
    let pool = vec!["aab", "abb", "bbb", "bbc", "bcc", "ccc"];
    assert_eq!(solve("aaa", "ccc", pool), Some(6));
}

#[test]
fn every_word_of_a_shortest_chain_lies_at_its_own_depth() {
    let pool = vec!["cat", "cot", "cog", "dog"];
    assert_eq!(solve("cat", "dog", pool.clone()), Some(3));
    assert_eq!(solve("cat", "cat", pool.clone()), Some(0));
    assert_eq!(solve("cat", "cot", pool.clone()), Some(1));
    assert_eq!(solve("cat", "cog", pool), Some(2));
}

#[test]
fn the_distance_is_the_same_both_ways_between_pool_words() {
    let pool = vec!["cat", "cot", "cog", "dog", "dig", "big", "zzz"];
    for a in pool.iter() {
        for b in pool.iter() {
            assert_eq!(solve(a, b, pool.clone()), solve(b, a, pool.clone()));
        }
    }
}

#[test]
fn the_distance_never_exceeds_the_pool() {
    let pool = vec!["cat", "cot", "cog", "dog", "dig", "big", "zzz"];
    for a in pool.iter() {
        for b in pool.iter() {
            if let Some(steps) = solve(a, b, pool.clone()) {
                assert!(steps <= pool.len());
            }
        }
    }
    assert_eq!(solve("cat", "cot", vec!["cot"]), Some(1));
}

#[test]
fn a_chain_may_use_every_word_of_the_pool() {
    assert_eq!(solve("aaa", "bbb", vec!["aab", "abb", "bbb"]), Some(3));
}

#[test]
fn words_of_different_lengths_are_not_joined() {
    assert_eq!(solve("cat", "cats", vec!["cat", "cats", "cot"]), None);
    assert_eq!(solve("cats", "cat", vec!["cat", "cats", "cot"]), None);
    assert_eq!(solve("a", "", vec!["", "a"]), None);
}

#[test]
fn pool_words_of_other_lengths_stay_behind() {
    assert_eq!(solve("cat", "cog", vec!["cot", "coat", "co", "cog"]), Some(2));
    assert_eq!(solve("cat", "cog", vec!["coat", "co", "cog"]), None);
}

#[test]
fn words_in_separate_parts_are_not_joined() {
    let pool = vec!["cat", "cot", "dig", "dug"];
    assert_eq!(solve("cat", "dug", pool.clone()), None);
    assert_eq!(solve("dig", "cot", pool.clone()), None);
    assert_eq!(solve("cat", "cot", pool.clone()), Some(1));
    assert_eq!(solve("dig", "dug", pool), Some(1));
}

#[test]
fn letters_beyond_ascii_count_as_one_position() {
    assert_eq!(solve("été", "ôtè", vec!["ôté", "ôtè"]), Some(2));
    assert_eq!(solve("été", "ete", vec!["ete"]), None);
}

#[test]
fn owned_words_can_be_searched() {
    let owned: Vec<String> = vec!["cot".to_string(), "cog".to_string(), "dog".to_string()];
    let pool: Vec<&str> = owned.iter().map(|w| w.as_str()).collect();
    let start = String::from("cat");
    assert_eq!(solve(&start, "dog", pool), Some(3));
}

#[test]
fn try_solve_searches_words_of_one_length() {
    assert_eq!(try_solve("cat", "dog", vec!["cat", "cot", "cog", "dog"]), Ok(Some(3)));
    assert_eq!(try_solve("cat", "dog", vec!["cat", "dog"]), Ok(None));
    assert_eq!(try_solve("dog", "dog", vec![]), Ok(Some(0)));
    assert_eq!(try_solve("cat", "cot", vec![]), Ok(None));
}

#[test]
fn try_solve_refuses_an_end_word_of_another_length() {
    assert_eq!(
        try_solve("cat", "cats", vec!["cot"]),
        Err(LengthError::End { expected: 3, found: 4 })
    );
    assert_eq!(
        try_solve("cat", "", vec!["coat"]),
        Err(LengthError::End { expected: 3, found: 0 })
    );
}

#[test]
fn try_solve_refuses_a_pool_word_of_another_length() {
    assert_eq!(
        try_solve("cat", "cog", vec!["cot", "coat", "co", "cog"]),
        Err(LengthError::Pool { index: 1, expected: 3, found: 4 })
    );
    assert_eq!(
        try_solve("dog", "dog", vec!["a", "much", "longer"]),
        Err(LengthError::Pool { index: 0, expected: 3, found: 1 })
    );
}
