use wordlebot::constraint::Constraint;
use wordlebot::scorer::score;

fn w(s: &str) -> Vec<char> {
    s.chars().collect()
}

#[test]
fn empty_history_permits_everything() {
    let c = Constraint::from_clues(5, &vec![]);
    assert!(c.permits(&w("crane")));
    assert!(c.permits(&w("zzzzz")));
    assert!(!c.permits(&w("shrt")));
}

#[test]
fn exact_outcome_pins_the_position() {
    // guess "ba" against answer "bb": b exact, a absent
    let sc = score(&w("ba"), &w("bb"));
    let c = Constraint::from_clues(2, &vec![(w("ba"), sc)]);
    assert!(c.permits(&w("bb")));
    assert!(!c.permits(&w("ab")));
    assert!(!c.permits(&w("ba")));
}

#[test]
fn present_outcome_excludes_its_position() {
    // guess "ab" against answer "ba": both letters present elsewhere
    let sc = score(&w("ab"), &w("ba"));
    assert_eq!(sc, vec![2u8, 2]);
    let c = Constraint::from_clues(2, &vec![(w("ab"), sc)]);
    assert!(c.permits(&w("ba")));
    assert!(!c.permits(&w("ab")));
    assert!(!c.permits(&w("aa")));
    assert!(!c.permits(&w("bb")));
}

#[test]
fn absent_beside_present_caps_the_count() {
    // guess "aa" against answer "ab": one a exact, the second a absent,
    // so the answer holds exactly one a
    let sc = score(&w("aa"), &w("ab"));
    assert_eq!(sc, vec![3u8, 1]);
    let c = Constraint::from_clues(2, &vec![(w("aa"), sc)]);
    assert!(c.permits(&w("ab")));
    assert!(!c.permits(&w("aa")));
}

#[test]
fn absent_with_positive_elsewhere_stays_local() {
    // the clue marks 'e' absent at position 0 but present at position 1:
    // 'e' is excluded only from those positions, not globally, while 'z'
    // (absent everywhere in the clue) is excluded from every position
    let c = Constraint::from_clues(4, &vec![(w("eezz"), vec![1u8, 2, 1, 1])]);
    assert!(c.permits(&w("aaea")));
    assert!(c.permits(&w("aaae")));
    assert!(!c.permits(&w("eaaa")));
    assert!(!c.permits(&w("aeaa")));
    assert!(!c.permits(&w("aaza")));
    // one 'e' exactly: the co-occurring absent caps the count at one
    assert!(!c.permits(&w("aaee")));
    assert!(!c.permits(&w("aaaa")));
}

#[test]
fn true_answer_always_permitted() {
    // consistency on a concrete history of several honest clues
    let answer = w("erase");
    let guesses = [w("speed"), w("crane"), w("lease")];
    let mut clues = Vec::new();
    for g in guesses.iter() {
        let sc = score(g, &answer);
        clues.push((g.clone(), sc));
        let c = Constraint::from_clues(5, &clues);
        assert!(c.permits(&answer));
    }
}

#[test]
fn longer_history_only_shrinks() {
    // every word the longer history permits, the prefix permits too
    let answer = w("ba");
    let vocab = [w("aa"), w("ab"), w("ba"), w("bb")];
    let h1 = vec![(w("aa"), score(&w("aa"), &answer))];
    let mut h2 = h1.clone();
    h2.push((w("ab"), score(&w("ab"), &answer)));
    let c1 = Constraint::from_clues(2, &h1);
    let c2 = Constraint::from_clues(2, &h2);
    for v in vocab.iter() {
        if c2.permits(v) {
            assert!(c1.permits(v));
        }
    }
    assert!(c2.permits(&answer));
}
