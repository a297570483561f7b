use wordlebot::scorer::score;

fn chars(s: &str) -> Vec<char> {
    s.chars().collect()
}

#[test]
fn speed_against_erase() {
    // two-pass rule: s and both e's find unmatched copies in "erase",
    // p and d find none
    let r = score(&chars("speed"), &chars("erase"));
    assert_eq!(r, vec![2u8, 1, 2, 2, 1]);
}

#[test]
fn duplicate_letter_capped_by_answer_count() {
    // "geese" holds three e's but "speed" only two: the third guessed e
    // comes up absent
    let r = score(&chars("geese"), &chars("speed"));
    assert_eq!(r, vec![1u8, 2, 3, 2, 1]);
}

#[test]
fn exact_matches_win_over_present() {
    // the second s must claim the exact match, not the first
    let r = score(&chars("ss"), &chars("as"));
    assert_eq!(r, vec![1u8, 3]);
}

#[test]
fn score_against_self_is_all_exact() {
    let r = score(&chars("crane"), &chars("crane"));
    assert_eq!(r, vec![3u8, 3, 3, 3, 3]);
}

#[test]
fn two_letter_scores() {
    assert_eq!(score(&chars("aa"), &chars("ab")), vec![3u8, 1]);
    assert_eq!(score(&chars("aa"), &chars("ba")), vec![1u8, 3]);
    assert_eq!(score(&chars("aa"), &chars("bb")), vec![1u8, 1]);
    assert_eq!(score(&chars("ab"), &chars("ba")), vec![2u8, 2]);
    assert_eq!(score(&chars("ab"), &chars("bb")), vec![1u8, 3]);
}

#[test]
fn present_consumes_one_copy() {
    // one l in the answer cannot justify two presents in the guess
    let r = score(&chars("llama"), &chars("pilot"));
    assert_eq!(r[0], 2u8);
    assert_eq!(r[1], 1u8);
}
