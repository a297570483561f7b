use wordlebot::parse::{parse_clues, word_from_chars, ParseError};

fn chars(s: &str) -> Vec<char> {
    s.chars().collect()
}

#[test]
fn empty_text_is_empty_history() {
    let r = parse_clues(&chars(""), 5).unwrap();
    assert_eq!(r.len(), 0);
}

#[test]
fn single_token_parses() {
    let r = parse_clues(&chars("ab:31"), 2).unwrap();
    assert_eq!(r.len(), 1);
    assert_eq!(r[0].0, chars("ab"));
    assert_eq!(r[0].1, vec![3u8, 1]);
}

#[test]
fn several_tokens_parse_in_order() {
    let r = parse_clues(&chars("ab:31,ba:12,bb:33"), 2).unwrap();
    assert_eq!(r.len(), 3);
    assert_eq!(r[0].0, chars("ab"));
    assert_eq!(r[0].1, vec![3u8, 1]);
    assert_eq!(r[1].0, chars("ba"));
    assert_eq!(r[1].1, vec![1u8, 2]);
    assert_eq!(r[2].0, chars("bb"));
    assert_eq!(r[2].1, vec![3u8, 3]);
}

#[test]
fn five_letter_token_parses() {
    let r = parse_clues(&chars("crane:12312"), 5).unwrap();
    assert_eq!(r[0].0, chars("crane"));
    assert_eq!(r[0].1, vec![1u8, 2, 3, 1, 2]);
}

#[test]
fn code_out_of_range_is_rejected() {
    let r = parse_clues(&chars("ab:41"), 2);
    assert_eq!(r, Err(ParseError { token: 0 }));
}

#[test]
fn missing_colon_is_rejected() {
    let r = parse_clues(&chars("ab311"), 2);
    assert_eq!(r, Err(ParseError { token: 0 }));
}

#[test]
fn wrong_length_token_is_rejected() {
    let r = parse_clues(&chars("abc:31"), 2);
    assert_eq!(r, Err(ParseError { token: 0 }));
}

#[test]
fn later_bad_token_is_reported_by_index() {
    let r = parse_clues(&chars("ab:31,ab:99"), 2);
    assert_eq!(r, Err(ParseError { token: 1 }));
}

#[test]
fn uppercase_letters_are_rejected() {
    let r = parse_clues(&chars("Ab:31"), 2);
    assert_eq!(r, Err(ParseError { token: 0 }));
}

#[test]
fn answers_stop_at_first_blank_line() {
    let lines = vec![chars("aa"), chars("ab"), chars(""), chars("ba")];
    let a = wordlebot::parse::answers_from_lines(&lines, 2).unwrap();
    assert_eq!(a, vec![chars("aa"), chars("ab")]);
}

#[test]
fn guesses_take_all_nonblank_lines() {
    let lines = vec![chars("aa"), chars("ab"), chars(""), chars("ba")];
    let g = wordlebot::parse::guesses_from_lines(&lines, 2).unwrap();
    assert_eq!(g, vec![chars("aa"), chars("ab"), chars("ba")]);
}

#[test]
fn bad_answer_line_is_reported() {
    let lines = vec![chars("aa"), chars("a9")];
    let r = wordlebot::parse::answers_from_lines(&lines, 2);
    assert_eq!(r, Err(ParseError { token: 1 }));
}

#[test]
fn bad_guess_line_after_blank_is_reported() {
    let lines = vec![chars("aa"), chars(""), chars("toolong")];
    assert!(wordlebot::parse::answers_from_lines(&lines, 2).is_ok());
    let r = wordlebot::parse::guesses_from_lines(&lines, 2);
    assert_eq!(r, Err(ParseError { token: 2 }));
}

#[test]
fn word_lines_are_validated() {
    assert_eq!(word_from_chars(&chars("crane"), 5).unwrap(), chars("crane"));
    assert!(word_from_chars(&chars("cran"), 5).is_err());
    assert!(word_from_chars(&chars("cran3"), 5).is_err());
}
