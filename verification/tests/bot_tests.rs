use wordlebot::bot::Bot;
use wordlebot::metrics::evaluate_guess;
use wordlebot::play::{histogram, play, SolveError};
use wordlebot::scorer::score;

fn w(s: &str) -> Vec<char> {
    s.chars().collect()
}

fn toy_vocab() -> Vec<Vec<char>> {
    vec![w("aa"), w("ab"), w("ba"), w("bb")]
}

#[test]
fn choice_on_toy_vocab_maximizes_entropy() {
    // brute force: the chosen first guess must carry at least as much
    // expected entropy as every candidate
    let mut bot = Bot::new(2, toy_vocab(), toy_vocab(), false);
    let chosen = bot.choice(&vec![]).unwrap();
    let plausible = toy_vocab();
    let best = evaluate_guess(&chosen, &plausible, false);
    for g in toy_vocab() {
        assert!(best >= evaluate_guess(&g, &plausible, false));
    }
    // all four tie at two bits; the fixed order picks the largest word
    assert_eq!(chosen, w("bb"));
    assert_eq!(best, 2_000_000_000);
}

#[test]
fn choice_is_memoized() {
    let mut bot = Bot::new(2, toy_vocab(), toy_vocab(), false);
    let first = bot.choice(&vec![]).unwrap();
    assert_eq!(bot.num_cache_hit(), 0);
    assert_eq!(bot.cache_len(), 1);
    let second = bot.choice(&vec![]).unwrap();
    assert_eq!(first, second);
    assert_eq!(bot.num_cache_hit(), 1);
    assert_eq!(bot.cache_len(), 1);
}

#[test]
fn contradictory_clues_give_no_choice() {
    // a clue claiming both letters of "aa" absent rules out every word
    // over the alphabet {a, b} that contains a, and "aa" rules itself out
    let mut bot = Bot::new(2, vec![w("aa"), w("ab")], vec![w("aa"), w("ab")], false);
    let r = bot.choice(&vec![(w("aa"), vec![1u8, 1])]);
    assert_eq!(r, None);
}

#[test]
fn narrowing_clues_lead_to_the_answer() {
    let mut bot = Bot::new(2, toy_vocab(), toy_vocab(), false);
    let answer = w("ab");
    let mut clues: Vec<(Vec<char>, Vec<u8>)> = Vec::new();
    for _round in 0..4 {
        let g = bot.choice(&clues).unwrap();
        let sc = score(&g, &answer);
        let won = g == answer;
        clues.push((g, sc));
        if won {
            break;
        }
    }
    let last = clues.last().unwrap();
    assert_eq!(last.0, answer);
    assert_eq!(last.1, vec![3u8, 3]);
}

#[test]
fn play_solves_and_ends_all_exact() {
    let mut bot = Bot::new(2, toy_vocab(), toy_vocab(), false);
    let h = play(&mut bot, &w("ba"), 6).unwrap();
    assert!(1 <= h.len() && h.len() <= 6);
    let last = h.last().unwrap();
    assert_eq!(last.0, w("ba"));
    assert_eq!(last.1, vec![3u8, 3]);
    for i in 0..h.len() - 1 {
        assert_ne!(h[i].0, w("ba"));
    }
}

#[test]
fn every_toy_answer_is_solved_quickly() {
    // self-play terminates within a small bound for every answer
    let mut bot = Bot::new(2, toy_vocab(), toy_vocab(), false);
    for answer in toy_vocab() {
        let h = play(&mut bot, &answer, 6).unwrap();
        assert!(h.len() <= 4);
        assert_eq!(h.last().unwrap().0, answer);
        assert_eq!(h.last().unwrap().1, vec![3u8, 3]);
    }
}

#[test]
fn adversarial_bot_solves_too() {
    let mut bot = Bot::new(2, toy_vocab(), toy_vocab(), true);
    for answer in toy_vocab() {
        let h = play(&mut bot, &answer, 6).unwrap();
        assert_eq!(h.last().unwrap().0, answer);
    }
}

#[test]
fn histogram_tallies_every_answer() {
    let mut bot = Bot::new(2, toy_vocab(), toy_vocab(), false);
    let hist = histogram(&mut bot, &toy_vocab(), 6).unwrap();
    let total: usize = hist.iter().map(|e| e.1).sum();
    assert_eq!(total, 4);
    for e in &hist {
        assert!(1 <= e.0 && e.0 <= 6);
        assert!(e.1 >= 1);
    }
    // keys are distinct
    for i in 0..hist.len() {
        for j in 0..hist.len() {
            if i != j {
                assert_ne!(hist[i].0, hist[j].0);
            }
        }
    }
}

#[test]
fn uninformative_guess_is_not_chosen() {
    // "cc" lands every remaining answer in one bucket, so despite being
    // the largest word it must lose to any informative guess
    let vocab = vec![w("aa"), w("ab"), w("ba"), w("bb"), w("cc")];
    let mut bot = Bot::new(2, vocab.clone(), vocab.clone(), false);
    let chosen = bot.choice(&vec![]).unwrap();
    assert_ne!(chosen, w("cc"));
    let best = evaluate_guess(&chosen, &vocab, false);
    for g in &vocab {
        assert!(best >= evaluate_guess(g, &vocab, false));
    }
    let mut adv = Bot::new(2, vocab.clone(), vocab.clone(), true);
    let chosen_adv = adv.choice(&vec![]).unwrap();
    assert_ne!(chosen_adv, w("cc"));
}

#[test]
fn unreachable_answer_ends_in_contradiction() {
    // the hidden answer is outside the vocabulary: the clues it produces
    // eventually contradict every plausible answer
    let mut bot = Bot::new(2, vec![w("aa"), w("ab")], vec![w("aa"), w("ab")], false);
    let r = play(&mut bot, &w("zz"), 6);
    assert_eq!(r, Err(SolveError::Contradiction));
}

#[test]
fn play_out_of_rounds_is_reported() {
    let mut bot = Bot::new(2, toy_vocab(), toy_vocab(), false);
    let r = play(&mut bot, &w("aa"), 0);
    assert_eq!(r, Err(SolveError::OutOfRounds));
}

#[test]
fn duplicate_guesses_are_dropped() {
    let mut bot = Bot::new(
        2,
        vec![w("aa"), w("aa"), w("ab")],
        vec![w("aa"), w("ab")],
        false,
    );
    assert_eq!(bot.guesses().len(), 2);
    assert_eq!(bot.answers().len(), 2);
    assert!(bot.choice(&vec![]).is_some());
}
