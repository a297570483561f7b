use wordlebot::metrics::{entropy, evaluate_guess, min_surprise};

fn word(s: &str) -> Vec<char> {
    s.chars().collect()
}

#[test]
fn entropy_of_uniform_four_is_two_bits() {
    // four buckets of one answer each: exactly 2 bits on the scale
    assert_eq!(entropy(&vec![1, 1, 1, 1]), 2_000_000_000);
}

#[test]
fn entropy_of_even_split_is_one_bit() {
    assert_eq!(entropy(&vec![2, 2]), 1_000_000_000);
}

#[test]
fn entropy_of_single_bucket_is_zero() {
    assert_eq!(entropy(&vec![7]), 0);
    assert_eq!(entropy(&vec![1]), 0);
}

#[test]
fn entropy_positive_iff_informative() {
    assert!(entropy(&vec![3, 1]) > 0);
    assert!(entropy(&vec![1, 1, 2]) > 0);
}

#[test]
fn min_surprise_of_empty_distribution_fails() {
    assert_eq!(min_surprise(&vec![]), None);
}

#[test]
fn min_surprise_values() {
    assert_eq!(min_surprise(&vec![1, 1, 1, 1]), Some(2_000_000_000));
    assert_eq!(min_surprise(&vec![2, 2]), Some(1_000_000_000));
    assert_eq!(min_surprise(&vec![9]), Some(0));
    let s = min_surprise(&vec![3, 1]).unwrap();
    // -log2(3/4) is strictly between zero and one bit
    assert!(0 < s && s < 1_000_000_000);
}

#[test]
fn metric_zero_iff_guess_uninformative() {
    // "aa" scores [3,1] against both plausible answers: no information
    let plausible = vec![word("ab"), word("ac")];
    assert_eq!(evaluate_guess(&word("aa"), &plausible, false), 0);
    assert_eq!(evaluate_guess(&word("aa"), &plausible, true), 0);
    // against "ab" and "ba" the patterns differ: information gained
    let plausible2 = vec![word("ab"), word("ba")];
    assert!(evaluate_guess(&word("aa"), &plausible2, false) > 0);
    assert!(evaluate_guess(&word("aa"), &plausible2, true) > 0);
}

#[test]
fn surprise_never_exceeds_entropy() {
    for counts in [
        vec![1, 1, 1],
        vec![1, 1, 1, 1],
        vec![2, 2],
        vec![3, 1],
        vec![5, 4, 3, 2, 1],
        vec![9],
        vec![1000, 1],
    ] {
        let s = min_surprise(&counts).unwrap();
        let e = entropy(&counts);
        assert!(s <= e);
    }
}

#[test]
fn adversarial_metric_never_exceeds_entropy_metric() {
    let plausible = vec![word("aa"), word("ab"), word("ba"), word("bb")];
    for g in &plausible {
        let adv = evaluate_guess(g, &plausible, true);
        let ent = evaluate_guess(g, &plausible, false);
        assert!(adv <= ent);
    }
}
