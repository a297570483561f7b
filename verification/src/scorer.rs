//! Scoring a guess against an answer.
//!
//! Scoring runs in two passes. The first pass marks every position where the
//! guess letter equals the answer letter as `EXACT` and blanks that answer
//! letter, so it cannot justify a `PRESENT` elsewhere. The second pass walks
//! the remaining positions left to right; a guess letter that still occurs
//! among the unblanked answer letters is marked `PRESENT` and consumes the
//! first such occurrence, otherwise it is marked `ABSENT`.

use vstd::prelude::*;

use crate::word::{occurrences, wf_score, Score, Word, ABSENT, EXACT, PRESENT};

verus! {

/// The answer with every exactly-matched letter blanked out.
pub open spec fn blank_exact(g: Seq<char>, a: Seq<char>) -> Seq<char> {
    Seq::new(a.len(), |i: int| if g[i] == a[i] { ' ' } else { a[i] })
}

/// Index of the first occurrence of `c` in `s`, or `-1` if there is none.
pub open spec fn first_index(s: Seq<char>, c: char) -> int
    decreases s.len(),
{
    if s.len() == 0 {
        -1
    } else if s[0] == c {
        0
    } else {
        let r = first_index(s.drop_first(), c);
        if r == -1 {
            -1
        } else {
            r + 1
        }
    }
}

/// Unblanked answer letters left after the second pass has processed the
/// first `i` positions.
pub open spec fn remaining_after(g: Seq<char>, a: Seq<char>, i: int) -> Seq<char>
    decreases i,
{
    if i <= 0 {
        blank_exact(g, a)
    } else {
        let prev = remaining_after(g, a, i - 1);
        if g[i - 1] == a[i - 1] {
            prev
        } else {
            let j = first_index(prev, g[i - 1]);
            if j >= 0 {
                prev.update(j, ' ')
            } else {
                prev
            }
        }
    }
}

/// Outcome code for position `i`.
pub open spec fn score_at(g: Seq<char>, a: Seq<char>, i: int) -> u8 {
    if g[i] == a[i] {
        EXACT
    } else if first_index(remaining_after(g, a, i), g[i]) >= 0 {
        PRESENT
    } else {
        ABSENT
    }
}

/// The score of guess `g` against answer `a`, one outcome code per position.
pub open spec fn score_spec(g: Seq<char>, a: Seq<char>) -> Seq<u8> {
    Seq::new(g.len(), |i: int| score_at(g, a, i))
}

/// A score of length `n` that is `EXACT` everywhere: the game is won.
pub open spec fn all_exact(n: nat) -> Seq<u8> {
    Seq::new(n, |i: int| EXACT)
}

/// Number of positions `k < i` where the score marks outcome `v` for the
/// guessed letter `c`.
pub open spec fn marks_before(g: Seq<char>, s: Seq<u8>, c: char, v: u8, i: int) -> nat
    decreases i,
{
    if i <= 0 {
        0
    } else {
        marks_before(g, s, c, v, i - 1) + if s[i - 1] == v && g[i - 1] == c {
            1nat
        } else {
            0nat
        }
    }
}

/// Number of positions `k < i` where guess and answer agree on the letter `c`.
pub open spec fn exact_before(g: Seq<char>, a: Seq<char>, c: char, i: int) -> nat
    decreases i,
{
    if i <= 0 {
        0
    } else {
        exact_before(g, a, c, i - 1) + if g[i - 1] == a[i - 1] && a[i - 1] == c {
            1nat
        } else {
            0nat
        }
    }
}

/// Total positive marks (`PRESENT` or `EXACT`) that the score gives the
/// letter `c`.
pub open spec fn positive_marks(g: Seq<char>, s: Seq<u8>, c: char, i: int) -> nat {
    marks_before(g, s, c, PRESENT, i) + marks_before(g, s, c, EXACT, i)
}

/// `first_index` finds the first occurrence and only that.
pub proof fn lemma_first_index(s: Seq<char>, c: char)
    ensures
        first_index(s, c) == -1 ==> forall|k: int| 0 <= k < s.len() ==> s[k] != c,
        first_index(s, c) != -1 ==> {
            &&& 0 <= first_index(s, c) < s.len()
            &&& s[first_index(s, c)] == c
            &&& forall|k: int| 0 <= k < first_index(s, c) ==> s[k] != c
        },
    decreases s.len(),
{
    if s.len() == 0 {
    } else if s[0] == c {
    } else {
        lemma_first_index(s.drop_first(), c);
        let r = first_index(s.drop_first(), c);
        if r == -1 {
            assert forall|k: int| 0 <= k < s.len() implies s[k] != c by {
                if k > 0 {
                    assert(s.drop_first()[k - 1] != c);
                }
            }
        } else {
            assert(s[r + 1] == s.drop_first()[r]);
            assert forall|k: int| 0 <= k < r + 1 implies s[k] != c by {
                if k > 0 {
                    assert(s.drop_first()[k - 1] != c);
                }
            }
        }
    }
}

/// A letter occurs zero times exactly when no position holds it.
pub proof fn lemma_occurrences_zero(s: Seq<char>, c: char)
    ensures
        (occurrences(s, c) == 0) <==> (forall|k: int| 0 <= k < s.len() ==> s[k] != c),
    decreases s.len(),
{
    if s.len() > 0 {
        lemma_occurrences_zero(s.drop_last(), c);
        if occurrences(s, c) == 0 {
            assert forall|k: int| 0 <= k < s.len() implies s[k] != c by {
                if k < s.len() - 1 {
                    assert(s.drop_last()[k] != c);
                }
            }
        } else {
            if s.last() != c {
                let k = choose|k: int| 0 <= k < s.len() - 1 && s.drop_last()[k] == c;
                assert(s[k] == c);
            }
        }
    }
}

/// How one in-place replacement changes a letter's occurrence count.
pub proof fn lemma_occurrences_update(s: Seq<char>, j: int, d: char, c: char)
    requires
        0 <= j < s.len(),
    ensures
        occurrences(s.update(j, d), c) + (if s[j] == c { 1nat } else { 0nat }) == occurrences(
            s,
            c,
        ) + (if d == c { 1nat } else { 0nat }),
    decreases s.len(),
{
    let t = s.update(j, d);
    if j == s.len() - 1 {
        assert(t.drop_last() =~= s.drop_last());
        assert(t.last() == d);
    } else {
        lemma_occurrences_update(s.drop_last(), j, d, c);
        assert(t.drop_last() =~= s.drop_last().update(j, d));
        assert(t.last() == s.last());
    }
}

/// Blanking the exact matches removes exactly the exactly-matched copies of
/// each letter from the answer.
proof fn lemma_blank_occ(g: Seq<char>, a: Seq<char>, c: char, i: int)
    requires
        g.len() == a.len(),
        0 <= i <= a.len(),
        c != ' ',
    ensures
        occurrences(blank_exact(g, a).take(i), c) + exact_before(g, a, c, i) == occurrences(
            a.take(i),
            c,
        ),
    decreases i,
{
    if i > 0 {
        lemma_blank_occ(g, a, c, i - 1);
        assert(blank_exact(g, a).take(i).drop_last() =~= blank_exact(g, a).take(i - 1));
        assert(a.take(i).drop_last() =~= a.take(i - 1));
        assert(blank_exact(g, a).take(i).last() == (if g[i - 1] == a[i - 1] {
            ' '
        } else {
            a[i - 1]
        }));
        assert(a.take(i).last() == a[i - 1]);
    }
}

/// Main accounting invariant of the second pass: for any letter, the copies
/// still unblanked plus the exact marks plus the `PRESENT` marks issued so
/// far add up to the letter's occurrences in the answer.
pub proof fn lemma_remaining_occurrences(g: Seq<char>, a: Seq<char>, c: char, i: int)
    requires
        g.len() == a.len(),
        0 <= i <= g.len(),
        c != ' ',
    ensures
        occurrences(remaining_after(g, a, i), c) + exact_before(g, a, c, a.len() as int)
            + marks_before(g, score_spec(g, a), c, PRESENT, i) == occurrences(a, c),
    decreases i,
{
    let s = score_spec(g, a);
    if i == 0 {
        lemma_blank_occ(g, a, c, a.len() as int);
        assert(blank_exact(g, a).take(a.len() as int) =~= blank_exact(g, a));
        assert(a.take(a.len() as int) =~= a);
    } else {
        lemma_remaining_occurrences(g, a, c, i - 1);
        let prev = remaining_after(g, a, i - 1);
        if g[i - 1] == a[i - 1] {
            assert(s[i - 1] == EXACT);
        } else {
            let j = first_index(prev, g[i - 1]);
            lemma_first_index(prev, g[i - 1]);
            if j >= 0 {
                assert(s[i - 1] == PRESENT);
                lemma_occurrences_update(prev, j, ' ', c);
            } else {
                assert(s[i - 1] == ABSENT);
            }
        }
    }
}

/// Marks only accumulate as more positions are processed.
pub proof fn lemma_marks_monotone(g: Seq<char>, s: Seq<u8>, c: char, v: u8, i: int, j: int)
    requires
        i <= j,
    ensures
        marks_before(g, s, c, v, i) <= marks_before(g, s, c, v, j),
    decreases j - i,
{
    if i < j {
        lemma_marks_monotone(g, s, c, v, i, j - 1);
    }
}

/// `EXACT` marks for a letter are the positions where guess and answer agree
/// on that letter.
pub proof fn lemma_marks_exact(g: Seq<char>, a: Seq<char>, c: char, i: int)
    requires
        g.len() == a.len(),
        i <= g.len(),
    ensures
        marks_before(g, score_spec(g, a), c, EXACT, i) == exact_before(g, a, c, i),
    decreases i,
{
    if i > 0 {
        lemma_marks_exact(g, a, c, i - 1);
    }
}

/// The positive marks a score gives any letter never exceed that letter's
/// occurrences in the answer (official duplicate-letter rule).
pub proof fn lemma_score_marker_bound(g: Seq<char>, a: Seq<char>, c: char)
    requires
        g.len() == a.len(),
        c != ' ',
    ensures
        positive_marks(g, score_spec(g, a), c, g.len() as int) <= occurrences(a, c),
{
    lemma_remaining_occurrences(g, a, c, g.len() as int);
    lemma_marks_exact(g, a, c, g.len() as int);
}

/// Positive marks for a letter never exceed the letter's copies in the
/// guess: each marked position holds the letter.
proof fn lemma_marks_le_guess(g: Seq<char>, s: Seq<u8>, c: char, i: int)
    requires
        0 <= i <= g.len(),
        wf_score(s),
        s.len() == g.len(),
    ensures
        positive_marks(g, s, c, i) <= occurrences(g.take(i), c),
    decreases i,
{
    if i > 0 {
        lemma_marks_le_guess(g, s, c, i - 1);
        assert(g.take(i).drop_last() =~= g.take(i - 1));
        assert(g.take(i).last() == g[i - 1]);
    }
}

/// Where no copy of the letter scores `ABSENT`, every copy in the guess is
/// positively marked.
proof fn lemma_no_absent_all_marked(g: Seq<char>, a: Seq<char>, c: char, i: int)
    requires
        g.len() == a.len(),
        0 <= i <= g.len(),
        forall|k: int| 0 <= k < i && g[k] == c ==> score_spec(g, a)[k] != ABSENT,
    ensures
        positive_marks(g, score_spec(g, a), c, i) == occurrences(g.take(i), c),
    decreases i,
{
    let s = score_spec(g, a);
    if i > 0 {
        lemma_no_absent_all_marked(g, a, c, i - 1);
        assert(g.take(i).drop_last() =~= g.take(i - 1));
        assert(g.take(i).last() == g[i - 1]);
        if g[i - 1] == c {
            assert(s[i - 1] == score_at(g, a, i - 1));
            assert(s[i - 1] == PRESENT || s[i - 1] == EXACT);
        }
    }
}

/// The two-pass rule gives a letter exactly as many positive marks as the
/// guess and the answer can both supply: the minimum of the letter's
/// copies in the guess and in the answer.
pub proof fn lemma_score_marker_min(g: Seq<char>, a: Seq<char>, c: char)
    requires
        g.len() == a.len(),
        c != ' ',
    ensures
        positive_marks(g, score_spec(g, a), c, g.len() as int) == (if occurrences(g, c)
            <= occurrences(a, c) {
            occurrences(g, c)
        } else {
            occurrences(a, c)
        }),
{
    let s = score_spec(g, a);
    let n = g.len() as int;
    let m = positive_marks(g, s, c, n);
    lemma_score_marker_bound(g, a, c);
    lemma_score_wf(g, a);
    lemma_marks_le_guess(g, s, c, n);
    assert(g.take(n) =~= g);
    if exists|k: int| 0 <= k < n && g[k] == c && #[trigger] s[k] == ABSENT {
        // some copy came up absent: by then the marks had covered every
        // copy in the answer
        let k = choose|k: int| 0 <= k < n && g[k] == c && #[trigger] s[k] == ABSENT;
        lemma_absent_occ(g, a, k);
        lemma_marks_monotone(g, s, c, PRESENT, k, n);
        lemma_marks_exact(g, a, c, n);
        assert(occurrences(a, c) <= m);
    } else {
        assert forall|k: int| 0 <= k < n && g[k] == c implies score_spec(g, a)[k] != ABSENT by {
            if s[k] == ABSENT {
                assert(0 <= k < n && g[k] == c && s[k] == ABSENT);
            }
        }
        lemma_no_absent_all_marked(g, a, c, n);
    }
}

/// Exact matches are never displaced: a position scores `EXACT` exactly when
/// guess and answer agree there.
pub proof fn lemma_score_exact_positions(g: Seq<char>, a: Seq<char>)
    requires
        g.len() == a.len(),
    ensures
        forall|i: int|
            0 <= i < g.len() ==> ((score_spec(g, a)[i] == EXACT) <==> g[i] == a[i]),
{
}

/// An `ABSENT` mark for letter `c` at position `i` means that, by then, the
/// exact and `PRESENT` marks had already accounted for every copy of `c` in
/// the answer.
pub proof fn lemma_absent_occ(g: Seq<char>, a: Seq<char>, i: int)
    requires
        g.len() == a.len(),
        0 <= i < g.len(),
        score_spec(g, a)[i] == ABSENT,
        g[i] != ' ',
    ensures
        occurrences(a, g[i]) == exact_before(g, a, g[i], a.len() as int) + marks_before(
            g,
            score_spec(g, a),
            g[i],
            PRESENT,
            i,
        ),
{
    let c = g[i];
    let rem = remaining_after(g, a, i);
    lemma_first_index(rem, c);
    assert(score_at(g, a, i) == ABSENT);
    assert(first_index(rem, c) == -1);
    lemma_occurrences_zero(rem, c);
    lemma_remaining_occurrences(g, a, c, i);
}

/// Scoring a word against itself yields the all-`EXACT` score.
pub proof fn lemma_score_self(w: Seq<char>)
    ensures
        score_spec(w, w) == all_exact(w.len()),
{
    assert(score_spec(w, w) =~= all_exact(w.len()));
}

/// Every outcome code of a score is one of the three legal codes.
pub proof fn lemma_score_wf(g: Seq<char>, a: Seq<char>)
    requires
        g.len() == a.len(),
    ensures
        wf_score(score_spec(g, a)),
        score_spec(g, a).len() == g.len(),
{
}

/// Find the first occurrence of `c` in `v`.
fn find_char(v: &Vec<char>, c: char) -> (r: Option<usize>)
    ensures
        match r {
            Some(j) => j == first_index(v@, c) && j < v@.len() && v@[j as int] == c,
            None => first_index(v@, c) == -1,
        },
{
    let mut i: usize = 0;
    while i < v.len()
        invariant
            i <= v@.len(),
            forall|k: int| 0 <= k < i ==> v@[k] != c,
        decreases v@.len() - i,
    {
        if v[i] == c {
            proof {
                lemma_first_index(v@, c);
                let fi = first_index(v@, c);
                assert(fi != -1) by {
                    if fi == -1 {
                        assert(v@[i as int] != c);
                    }
                }
                assert(fi >= i) by {
                    if fi < i {
                        assert(v@[fi] != c);
                    }
                }
            }
            return Some(i);
        }
        i = i + 1;
    }
    proof {
        lemma_first_index(v@, c);
        let fi = first_index(v@, c);
        if fi != -1 {
            assert(v@[fi] != c);
        }
    }
    None
}

/// Score `guess` against `answer`: the official two-pass feedback rule.
pub fn score(guess: &Word, answer: &Word) -> (r: Score)
    requires
        guess@.len() == answer@.len(),
    ensures
        r@ == score_spec(guess@, answer@),
        r@.len() == guess@.len(),
{
    let ghost g = guess@;
    let ghost a = answer@;
    let n = guess.len();

    let mut remaining: Vec<char> = Vec::new();
    let mut result: Vec<u8> = Vec::new();
    let mut i: usize = 0;
    while i < n
        invariant
            guess@ == g,
            answer@ == a,
            g.len() == a.len(),
            n == g.len(),
            i <= n,
            remaining@.len() == i,
            result@.len() == i,
            forall|k: int|
                0 <= k < i ==> remaining@[k] == (if g[k] == a[k] {
                    ' '
                } else {
                    a[k]
                }),
            forall|k: int|
                0 <= k < i ==> result@[k] == (if g[k] == a[k] {
                    EXACT
                } else {
                    0u8
                }),
        decreases n - i,
    {
        if guess[i] == answer[i] {
            remaining.push(' ');
            result.push(EXACT);
        } else {
            remaining.push(answer[i]);
            result.push(0u8);
        }
        i = i + 1;
    }
    proof {
        assert(remaining@ =~= blank_exact(g, a));
        assert(remaining@ == remaining_after(g, a, 0));
    }

    let mut i: usize = 0;
    while i < n
        invariant
            guess@ == g,
            answer@ == a,
            g.len() == a.len(),
            n == g.len(),
            i <= n,
            remaining@ == remaining_after(g, a, i as int),
            result@.len() == n,
            forall|k: int| 0 <= k < i ==> result@[k] == score_at(g, a, k),
            forall|k: int|
                i <= k < n ==> result@[k] == (if g[k] == a[k] {
                    EXACT
                } else {
                    0u8
                }),
        decreases n - i,
    {
        if result[i] == EXACT {
            proof {
                assert(score_at(g, a, i as int) == EXACT);
                assert(remaining_after(g, a, i + 1) == remaining@);
            }
        } else {
            match find_char(&remaining, guess[i]) {
                Some(j) => {
                    result.set(i, PRESENT);
                    remaining.set(j, ' ');
                    proof {
                        assert(score_at(g, a, i as int) == PRESENT);
                        assert(remaining@ =~= remaining_after(g, a, i + 1));
                    }
                },
                None => {
                    result.set(i, ABSENT);
                    proof {
                        assert(score_at(g, a, i as int) == ABSENT);
                        assert(remaining@ == remaining_after(g, a, i + 1));
                    }
                },
            }
        }
        i = i + 1;
    }
    proof {
        assert(result@ =~= score_spec(g, a));
    }
    result
}

} // verus!
