//! Words, scores and the letter alphabet.
//!
//! A `Word` is a fixed-length sequence of lowercase letters; a `Score` gives
//! one outcome code per position: `1` (absent), `2` (present elsewhere) or
//! `3` (exact match).

use vstd::prelude::*;

verus! {

/// A candidate guess or possible answer: letters in `'a'..='z'`.
pub type Word = Vec<char>;

/// Per-position feedback codes, one per letter of the guess.
pub type Score = Vec<u8>;

/// Outcome code: the guessed letter does not occur among the answer's
/// unmatched letters.
pub const ABSENT: u8 = 1;

/// Outcome code: the guessed letter occurs in the answer, but elsewhere.
pub const PRESENT: u8 = 2;

/// Outcome code: the guessed letter is exactly right for this position.
pub const EXACT: u8 = 3;

/// Number of letters in the alphabet.
pub const ALPHABET_LEN: usize = 26;

/// Does `c` belong to the fixed lowercase alphabet?
pub open spec fn is_letter(c: char) -> bool {
    'a' <= c && c <= 'z'
}

/// Index of a lowercase letter within the alphabet, as a spec-level value.
pub open spec fn letter_index_spec(c: char) -> int {
    c as int - 'a' as int
}

/// A word drawn from the fixed alphabet.
pub open spec fn wf_word(w: Seq<char>) -> bool {
    forall|i: int| 0 <= i < w.len() ==> is_letter(#[trigger] w[i])
}

/// A score holds only the three outcome codes.
pub open spec fn wf_score(s: Seq<u8>) -> bool {
    forall|i: int| 0 <= i < s.len() ==> ABSENT <= #[trigger] s[i] <= EXACT
}

/// Number of occurrences of the letter `c` in `w`.
pub open spec fn occurrences(w: Seq<char>, c: char) -> nat
    decreases w.len(),
{
    if w.len() == 0 {
        0
    } else {
        occurrences(w.drop_last(), c) + if w.last() == c { 1nat } else { 0nat }
    }
}

/// Number of characters in `w` whose alphabet index is `j`.
pub open spec fn occ_idx(w: Seq<char>, j: int) -> nat
    decreases w.len(),
{
    if w.len() == 0 {
        0
    } else {
        occ_idx(w.drop_last(), j) + if letter_index_spec(w.last()) == j {
            1nat
        } else {
            0nat
        }
    }
}

/// Counting a letter by alphabet index agrees with counting it by value.
pub proof fn lemma_occ_idx_eq(w: Seq<char>, c: char)
    requires
        wf_word(w),
        is_letter(c),
    ensures
        occ_idx(w, letter_index_spec(c)) == occurrences(w, c),
    decreases w.len(),
{
    if w.len() > 0 {
        assert(wf_word(w.drop_last())) by {
            assert(forall|i: int|
                0 <= i < w.len() - 1 ==> #[trigger] w.drop_last()[i] == w[i]);
        }
        lemma_occ_idx_eq(w.drop_last(), c);
        assert(is_letter(w.last()));
    }
}

/// The sequences of letters and codes each clue in `cs` holds.
pub open spec fn clues_view(cs: Seq<(Word, Score)>) -> Seq<(Seq<char>, Seq<u8>)> {
    cs.map_values(|c: (Word, Score)| (c.0@, c.1@))
}

/// Alphabet index of a letter, checked at runtime.
pub fn letter_index(c: char) -> (r: usize)
    requires
        is_letter(c),
    ensures
        r == letter_index_spec(c),
        r < ALPHABET_LEN,
{
    (c as usize) - ('a' as usize)
}

/// A fresh word with the same letters.
pub fn copy_word(w: &Word) -> (r: Word)
    ensures
        r@ == w@,
{
    let mut r: Vec<char> = Vec::new();
    let mut i: usize = 0;
    while i < w.len()
        invariant
            i <= w@.len(),
            r@.len() == i,
            forall|k: int| 0 <= k < i ==> r@[k] == w@[k],
        decreases w@.len() - i,
    {
        r.push(w[i]);
        i = i + 1;
    }
    proof {
        assert(r@ =~= w@);
    }
    r
}

/// A fresh score with the same outcome codes.
pub fn copy_score(s: &Score) -> (r: Score)
    ensures
        r@ == s@,
{
    let mut r: Vec<u8> = Vec::new();
    let mut i: usize = 0;
    while i < s.len()
        invariant
            i <= s@.len(),
            r@.len() == i,
            forall|k: int| 0 <= k < i ==> r@[k] == s@[k],
        decreases s@.len() - i,
    {
        r.push(s[i]);
        i = i + 1;
    }
    proof {
        assert(r@ =~= s@);
    }
    r
}

/// Lexicographic order on letter sequences; a strict prefix comes first.
pub open spec fn word_lt(a: Seq<char>, b: Seq<char>) -> bool
    decreases a.len(),
{
    if b.len() == 0 {
        false
    } else if a.len() == 0 {
        true
    } else {
        a[0] < b[0] || (a[0] == b[0] && word_lt(a.drop_first(), b.drop_first()))
    }
}

/// Any two letter sequences are ordered or equal.
pub proof fn lemma_word_lt_total(a: Seq<char>, b: Seq<char>)
    ensures
        word_lt(a, b) || word_lt(b, a) || a == b,
    decreases a.len(),
{
    if a.len() > 0 && b.len() > 0 {
        lemma_word_lt_total(a.drop_first(), b.drop_first());
        if a[0] == b[0] && a.drop_first() == b.drop_first() {
            assert forall|i: int| 0 <= i < a.len() implies a[i] == b[i] by {
                if i > 0 {
                    assert(a.drop_first()[i - 1] == b.drop_first()[i - 1]);
                }
            }
            assert(a =~= b);
        }
    } else if a.len() == 0 && b.len() == 0 {
        assert(a =~= b);
    }
}

/// Lexicographic order is transitive.
pub proof fn lemma_word_lt_trans(a: Seq<char>, b: Seq<char>, c: Seq<char>)
    requires
        word_lt(a, b),
        word_lt(b, c),
    ensures
        word_lt(a, c),
    decreases a.len(),
{
    if a.len() > 0 && b.len() > 0 && c.len() > 0 {
        if a[0] == b[0] && b[0] == c[0] {
            lemma_word_lt_trans(a.drop_first(), b.drop_first(), c.drop_first());
        }
    }
}

/// The strict order never holds both ways.
pub proof fn lemma_word_lt_asym(a: Seq<char>, b: Seq<char>)
    requires
        word_lt(a, b),
    ensures
        !word_lt(b, a),
        a != b,
    decreases a.len(),
{
    if a.len() > 0 && b.len() > 0 {
        if a[0] == b[0] {
            lemma_word_lt_asym(a.drop_first(), b.drop_first());
            assert(a != b) by {
                if a == b {
                    assert(a.drop_first() =~= b.drop_first());
                }
            }
        } else {
            assert(a != b) by {
                if a == b {
                    assert(a[0] == b[0]);
                }
            }
        }
    }
}

/// Compare two words lexicographically.
pub fn word_less(a: &Word, b: &Word) -> (r: bool)
    ensures
        r == word_lt(a@, b@),
{
    let min: usize = if a.len() < b.len() {
        a.len()
    } else {
        b.len()
    };
    let mut i: usize = 0;
    proof {
        assert(a@.skip(0) =~= a@);
        assert(b@.skip(0) =~= b@);
    }
    while i < min
        invariant
            i <= min,
            min == (if a@.len() < b@.len() {
                a@.len()
            } else {
                b@.len()
            }),
            word_lt(a@, b@) == word_lt(a@.skip(i as int), b@.skip(i as int)),
        decreases min - i,
    {
        let ghost sa = a@.skip(i as int);
        let ghost sb = b@.skip(i as int);
        proof {
            assert(sa.len() > 0);
            assert(sb.len() > 0);
            assert(sa[0] == a@[i as int]);
            assert(sb[0] == b@[i as int]);
            assert(sa.drop_first() =~= a@.skip(i + 1));
            assert(sb.drop_first() =~= b@.skip(i + 1));
        }
        if a[i] < b[i] {
            return true;
        }
        if a[i] > b[i] {
            return false;
        }
        i = i + 1;
    }
    proof {
        let sa = a@.skip(min as int);
        let sb = b@.skip(min as int);
        if a@.len() < b@.len() {
            assert(sa.len() == 0);
            assert(sb.len() > 0);
        } else {
            assert(sb.len() == 0);
        }
    }
    a.len() < b.len()
}

/// Do the two words hold the same letters in the same order?
pub fn words_equal(a: &Word, b: &Word) -> (r: bool)
    ensures
        r == (a@ == b@),
{
    if a.len() != b.len() {
        proof {
            assert(a@.len() != b@.len());
        }
        return false;
    }
    let mut i: usize = 0;
    while i < a.len()
        invariant
            i <= a@.len(),
            a@.len() == b@.len(),
            forall|j: int| 0 <= j < i ==> a@[j] == b@[j],
        decreases a@.len() - i,
    {
        if a[i] != b[i] {
            return false;
        }
        i = i + 1;
    }
    proof {
        assert(a@ =~= b@);
    }
    true
}

} // verus!
