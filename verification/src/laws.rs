//! Laws relating the scorer and the constraint.
//!
//! Two facts justify the solver's narrowing of the answer set. First,
//! consistency: the hidden answer always satisfies the constraint built
//! from clues that were produced by scoring guesses against that same
//! answer, so the true answer is never filtered out. Second, monotonicity:
//! along one honestly scored clue history, every additional clue only
//! shrinks the set of permitted words, so a prefix of a history always
//! permits at least the words the full history permits.

use vstd::prelude::*;

use crate::constraint::{
    clear_all, clear_at, from_clues_model, hi_ok, max_usize, min_hi, neg_count_idx, new_model,
    only_at, pass_state, permits_model, pos_count_idx, update_model, wf_model, ConstraintModel,
};
use crate::scorer::{
    exact_before, lemma_absent_occ, lemma_marks_exact, lemma_marks_monotone,
    lemma_score_marker_bound, lemma_score_wf, marks_before, score_spec,
};
use crate::word::{
    is_letter, lemma_occ_idx_eq, letter_index_spec, occ_idx, occurrences, wf_score, wf_word,
    ABSENT, EXACT, PRESENT,
};

verus! {

/// Every clue in `h` is an honest score of a well-formed guess against the
/// answer `a`.
pub open spec fn self_scored(h: Seq<(Seq<char>, Seq<u8>)>, a: Seq<char>) -> bool {
    forall|i: int|
        0 <= i < h.len() ==> wf_word((#[trigger] h[i]).0) && h[i].0.len() == a.len() && h[i].1
            == score_spec(h[i].0, a)
}

/// The empty constraint permits every well-formed word of its length.
pub proof fn lemma_new_permits(n: nat, a: Seq<char>)
    requires
        wf_word(a),
        a.len() == n,
    ensures
        permits_model(new_model(n), a),
{
    let m = new_model(n);
    assert forall|j: int| 0 <= j < 26 implies (#[trigger] m.lo[j]) as nat <= occ_idx(a, j) by {}
    assert forall|j: int| 0 <= j < 26 implies hi_ok(#[trigger] m.hi[j], occ_idx(a, j)) by {}
}

/// Folding positions keeps the permitted table's shape.
proof fn lemma_pass_wf(perm0: Seq<Seq<bool>>, g: Seq<char>, s: Seq<u8>, i: int, n: nat)
    requires
        0 <= i <= n,
        g.len() == n,
        wf_word(g),
        perm0.len() == n,
        forall|p: int| 0 <= p < n ==> (#[trigger] perm0[p]).len() == 26,
    ensures
        pass_state(perm0, g, s, i).len() == n,
        forall|p: int| 0 <= p < n ==> (#[trigger] pass_state(perm0, g, s, i)[p]).len() == 26,
    decreases i,
{
    if i > 0 {
        lemma_pass_wf(perm0, g, s, i - 1, n);
        let st = pass_state(perm0, g, s, i - 1);
        let st1 = pass_state(perm0, g, s, i);
        let k = i - 1;
        let j = letter_index_spec(g[k]);
        assert(st1 == (if s[k] == ABSENT {
            if pos_count_idx(g, s, j, g.len() as int) >= 1 {
                clear_at(st, k, j)
            } else {
                clear_all(st, j)
            }
        } else if s[k] == PRESENT {
            clear_at(st, k, j)
        } else {
            only_at(st, k, j)
        }));
        assert forall|p: int| 0 <= p < n implies (#[trigger] st1[p]).len() == 26 by {
            if s[k] == ABSENT {
                if pos_count_idx(g, s, j, g.len() as int) >= 1 {
                    assert(st1 == clear_at(st, k, j));
                } else {
                    assert(st1 == clear_all(st, j));
                }
            } else if s[k] == PRESENT {
                assert(st1 == clear_at(st, k, j));
            } else {
                assert(st1 == only_at(st, k, j));
            }
        }
        assert(st1.len() == n) by {
            if s[k] == ABSENT && pos_count_idx(g, s, j, g.len() as int) < 1 {
                assert(st1 == clear_all(st, j));
            }
        }
    }
}

/// A constraint built from clues of the right length is well formed.
pub proof fn lemma_from_wf(n: nat, h: Seq<(Seq<char>, Seq<u8>)>)
    requires
        forall|i: int|
            0 <= i < h.len() ==> (#[trigger] h[i]).0.len() == n && wf_word(h[i].0),
    ensures
        wf_model(from_clues_model(n, h), n),
    decreases h.len(),
{
    if h.len() > 0 {
        assert forall|i: int|
            0 <= i < h.drop_last().len() implies (#[trigger] h.drop_last()[i]).0.len() == n
            && wf_word(h.drop_last()[i].0) by {
            assert(h.drop_last()[i] == h[i]);
        }
        lemma_from_wf(n, h.drop_last());
        let m = from_clues_model(n, h.drop_last());
        assert(h[h.len() - 1] == h.last());
        lemma_pass_wf(m.permitted, h.last().0, h.last().1, h.last().0.len() as int, n);
    }
}

/// Counting positive and absent marks by alphabet index agrees with
/// counting them by letter.
proof fn lemma_counts_bridge(g: Seq<char>, s: Seq<u8>, c: char, i: int)
    requires
        wf_word(g),
        wf_score(s),
        s.len() == g.len(),
        is_letter(c),
        0 <= i <= g.len(),
    ensures
        pos_count_idx(g, s, letter_index_spec(c), i) == marks_before(g, s, c, PRESENT, i)
            + marks_before(g, s, c, EXACT, i),
        neg_count_idx(g, s, letter_index_spec(c), i) == marks_before(g, s, c, ABSENT, i),
    decreases i,
{
    if i > 0 {
        lemma_counts_bridge(g, s, c, i - 1);
        assert(is_letter(g[i - 1]));
        if letter_index_spec(g[i - 1]) == letter_index_spec(c) {
            assert(g[i - 1] as int == c as int);
            assert(g[i - 1] == c);
        }
    }
}

/// A positive count names at least one position that bears it.
proof fn lemma_pos_witness(g: Seq<char>, s: Seq<u8>, j: int, i: int)
    requires
        0 <= i <= g.len(),
        pos_count_idx(g, s, j, i) >= 1,
    ensures
        exists|k: int|
            0 <= k < i && (#[trigger] s[k]) >= PRESENT && letter_index_spec(g[k]) == j,
    decreases i,
{
    if i > 0 {
        if s[i - 1] >= PRESENT && letter_index_spec(g[i - 1]) == j {
            assert(0 <= i - 1 < i && s[i - 1] >= PRESENT && letter_index_spec(g[i - 1]) == j);
        } else {
            lemma_pos_witness(g, s, j, i - 1);
            let k = choose|k: int|
                0 <= k < i - 1 && (#[trigger] s[k]) >= PRESENT && letter_index_spec(g[k]) == j;
            assert(0 <= k < i && s[k] >= PRESENT && letter_index_spec(g[k]) == j);
        }
    }
}

/// An absent count names at least one position that bears it.
proof fn lemma_neg_witness(g: Seq<char>, s: Seq<u8>, j: int, i: int)
    requires
        0 <= i <= g.len(),
        neg_count_idx(g, s, j, i) >= 1,
    ensures
        exists|k: int| 0 <= k < i && (#[trigger] s[k]) == ABSENT && letter_index_spec(g[k]) == j,
    decreases i,
{
    if i > 0 {
        if s[i - 1] == ABSENT && letter_index_spec(g[i - 1]) == j {
            assert(0 <= i - 1 < i && s[i - 1] == ABSENT && letter_index_spec(g[i - 1]) == j);
        } else {
            lemma_neg_witness(g, s, j, i - 1);
            let k = choose|k: int|
                0 <= k < i - 1 && (#[trigger] s[k]) == ABSENT && letter_index_spec(g[k]) == j;
            assert(0 <= k < i && s[k] == ABSENT && letter_index_spec(g[k]) == j);
        }
    }
}

/// Mark counts never exceed the number of positions counted.
proof fn lemma_counts_bounded(g: Seq<char>, s: Seq<u8>, j: int, i: int)
    requires
        0 <= i,
    ensures
        pos_count_idx(g, s, j, i) <= i,
        neg_count_idx(g, s, j, i) <= i,
    decreases i,
{
    if i > 0 {
        lemma_counts_bounded(g, s, j, i - 1);
    }
}

/// While a clue scored against `a` is folded in, the letter of `a` stays
/// permitted at each position: local removals touch only mismatched
/// positions, and the global exclusion fires only for letters the answer
/// does not hold at all.
proof fn lemma_pass_preserves_answer(
    m: ConstraintModel,
    g: Seq<char>,
    a: Seq<char>,
    i: int,
    n: nat,
)
    requires
        wf_model(m, n),
        permits_model(m, a),
        wf_word(g),
        wf_word(a),
        g.len() == n,
        a.len() == n,
        0 <= i <= n,
    ensures
        forall|p: int|
            0 <= p < n ==> #[trigger] pass_state(m.permitted, g, score_spec(g, a), i)[p][
                letter_index_spec(a[p])],
    decreases i,
{
    let s = score_spec(g, a);
    lemma_score_wf(g, a);
    if i > 0 {
        lemma_pass_preserves_answer(m, g, a, i - 1, n);
        lemma_pass_wf(m.permitted, g, s, i - 1, n);
        let st = pass_state(m.permitted, g, s, i - 1);
        let st1 = pass_state(m.permitted, g, s, i);
        let k = i - 1;
        let c = g[k];
        let j = letter_index_spec(c);
        assert(is_letter(c));
        if s[k] == EXACT {
            assert(g[k] == a[k]);
            assert forall|p: int|
                0 <= p < n implies #[trigger] st1[p][letter_index_spec(a[p])] by {
                if p == k {
                    assert(st1[k] == Seq::new(26, |x: int| x == j));
                    assert(letter_index_spec(a[k]) == j);
                } else {
                    assert(st1[p] == st[p]);
                }
            }
        } else if s[k] == PRESENT || pos_count_idx(g, s, j, n as int) >= 1 {
            // a removal at position k only: the answer letter there differs
            assert(g[k] != a[k]) by {
                if g[k] == a[k] {
                    assert(s[k] == EXACT);
                }
            }
            assert forall|p: int|
                0 <= p < n implies #[trigger] st1[p][letter_index_spec(a[p])] by {
                if p == k {
                    assert(letter_index_spec(a[k]) != j) by {
                        if letter_index_spec(a[k]) == j {
                            assert(a[k] as int == c as int);
                        }
                    }
                    assert(st1[k][letter_index_spec(a[k])] == st[k][letter_index_spec(a[k])]);
                } else {
                    assert(st1[p][letter_index_spec(a[p])] == st[p][letter_index_spec(a[p])]);
                }
            }
        } else {
            // absent with no positive outcome anywhere in the clue: the
            // score accounts for every copy, so the answer holds none
            assert(s[k] == ABSENT);
            assert(pos_count_idx(g, s, j, n as int) == 0);
            lemma_counts_bridge(g, s, c, n as int);
            assert(marks_before(g, s, c, EXACT, n as int) == 0);
            assert(marks_before(g, s, c, PRESENT, n as int) == 0);
            lemma_marks_exact(g, a, c, n as int);
            assert(exact_before(g, a, c, n as int) == 0);
            lemma_marks_monotone(g, s, c, PRESENT, k, n as int);
            lemma_absent_occ(g, a, k);
            assert(occurrences(a, c) == 0);
            crate::scorer::lemma_occurrences_zero(a, c);
            assert forall|p: int|
                0 <= p < n implies #[trigger] st1[p][letter_index_spec(a[p])] by {
                assert(st1 == clear_all(st, j));
                assert(a[p] != c);
                assert(letter_index_spec(a[p]) != j) by {
                    if letter_index_spec(a[p]) == j {
                        assert(is_letter(a[p]));
                        assert(a[p] as int == c as int);
                    }
                }
                assert(st1[p][letter_index_spec(a[p])] == st[p][letter_index_spec(a[p])]);
            }
        }
    }
}

/// Folding in a clue scored against `a` keeps `a` permitted.
pub proof fn lemma_update_preserves_answer(
    m: ConstraintModel,
    g: Seq<char>,
    a: Seq<char>,
    n: nat,
)
    requires
        n <= 1000,
        wf_model(m, n),
        permits_model(m, a),
        wf_word(g),
        wf_word(a),
        g.len() == n,
        a.len() == n,
    ensures
        permits_model(update_model(m, g, score_spec(g, a)), a),
{
    let s = score_spec(g, a);
    let m1 = update_model(m, g, s);
    lemma_score_wf(g, a);
    lemma_pass_wf(m.permitted, g, s, n as int, n);
    lemma_pass_preserves_answer(m, g, a, n as int, n);
    assert forall|p: int|
        0 <= p < a.len() implies is_letter(#[trigger] a[p]) && m1.permitted[p][letter_index_spec(
        a[p],
    )] by {
        assert(m1.permitted == pass_state(m.permitted, g, s, n as int));
        assert(pass_state(m.permitted, g, s, n as int)[p][letter_index_spec(a[p])]);
    }
    // lower bounds: the clue's positive marks never exceed the answer's copies
    assert forall|j: int| 0 <= j < 26 implies (#[trigger] m1.lo[j]) as nat <= occ_idx(a, j) by {
        assert(m1.lo[j] == max_usize(m.lo[j], pos_count_idx(g, s, j, n as int) as usize));
        assert((m.lo[j]) as nat <= occ_idx(a, j));
        if pos_count_idx(g, s, j, n as int) >= 1 {
            lemma_pos_witness(g, s, j, n as int);
            let k = choose|k: int|
                0 <= k < n && (#[trigger] s[k]) >= PRESENT && letter_index_spec(g[k]) == j;
            let c = g[k];
            assert(is_letter(c));
            lemma_counts_bridge(g, s, c, n as int);
            lemma_score_marker_bound(g, a, c);
            lemma_occ_idx_eq(a, c);
            assert(pos_count_idx(g, s, j, n as int) <= occ_idx(a, j));
        }
    }
    // upper bounds: an absent mark beside positive marks caps the copies
    assert forall|j: int| 0 <= j < 26 implies hi_ok(#[trigger] m1.hi[j], occ_idx(a, j)) by {
        assert(hi_ok(m.hi[j], occ_idx(a, j)));
        if pos_count_idx(g, s, j, n as int) >= 1 && neg_count_idx(g, s, j, n as int) >= 1 {
            lemma_neg_witness(g, s, j, n as int);
            let k = choose|k: int|
                0 <= k < n && (#[trigger] s[k]) == ABSENT && letter_index_spec(g[k]) == j;
            let c = g[k];
            assert(is_letter(c));
            lemma_absent_occ(g, a, k);
            lemma_marks_monotone(g, s, c, PRESENT, k, n as int);
            lemma_marks_exact(g, a, c, n as int);
            lemma_counts_bridge(g, s, c, n as int);
            lemma_occ_idx_eq(a, c);
            assert(occ_idx(a, j) <= pos_count_idx(g, s, j, n as int));
            lemma_counts_bounded(g, s, j, n as int);
            assert((pos_count_idx(g, s, j, n as int) as usize) as nat == pos_count_idx(
                g,
                s,
                j,
                n as int,
            ));
            assert(m1.hi[j] == Option::Some(
                min_hi(m.hi[j], pos_count_idx(g, s, j, n as int) as usize),
            ));
            assert(occ_idx(a, j) <= min_hi(m.hi[j], pos_count_idx(g, s, j, n as int) as usize))
                by {
                match m.hi[j] {
                    Option::None => {},
                    Option::Some(h1) => {},
                }
            }
        } else {
            assert(m1.hi[j] == m.hi[j]);
        }
    }
}

/// Constraint consistency: the hidden answer satisfies the constraint
/// built from any history of clues that were scored against it.
pub proof fn lemma_self_clues_permit(n: nat, h: Seq<(Seq<char>, Seq<u8>)>, a: Seq<char>)
    requires
        n <= 1000,
        wf_word(a),
        a.len() == n,
        self_scored(h, a),
    ensures
        permits_model(from_clues_model(n, h), a),
    decreases h.len(),
{
    if h.len() == 0 {
        lemma_new_permits(n, a);
    } else {
        assert forall|i: int|
            0 <= i < h.drop_last().len() implies wf_word((#[trigger] h.drop_last()[i]).0)
            && h.drop_last()[i].0.len() == a.len() && h.drop_last()[i].1 == score_spec(
            h.drop_last()[i].0,
            a,
        ) by {
            assert(h.drop_last()[i] == h[i]);
        }
        lemma_self_clues_permit(n, h.drop_last(), a);
        assert forall|i: int|
            0 <= i < h.drop_last().len() implies (#[trigger] h.drop_last()[i]).0.len() == n
            && wf_word(h.drop_last()[i].0) by {
            assert(h.drop_last()[i] == h[i]);
        }
        lemma_from_wf(n, h.drop_last());
        assert(h[h.len() - 1] == h.last());
        lemma_update_preserves_answer(from_clues_model(n, h.drop_last()), h.last().0, a, n);
    }
}

/// `m2` is at least as tight as `m1`: its permitted sets are smaller and
/// its occurrence bounds are narrower.
pub open spec fn refines(m2: ConstraintModel, m1: ConstraintModel) -> bool {
    &&& m2.permitted.len() == m1.permitted.len()
    &&& forall|p: int, j: int|
        0 <= p < m1.permitted.len() && 0 <= j < 26 && #[trigger] m2.permitted[p][j]
            ==> #[trigger] m1.permitted[p][j]
    &&& forall|j: int| 0 <= j < 26 ==> #[trigger] m1.lo[j] <= #[trigger] m2.lo[j]
    &&& forall|j: int|
        0 <= j < 26 ==> match m1.hi[j] {
            Option::None => true,
            Option::Some(h1) => match #[trigger] m2.hi[j] {
                Option::None => false,
                Option::Some(h2) => h2 <= h1,
            },
        }
}

/// A tighter constraint permits fewer words.
pub proof fn lemma_refines_permits(m2: ConstraintModel, m1: ConstraintModel, w: Seq<char>)
    requires
        refines(m2, m1),
        permits_model(m2, w),
        wf_model(m1, m1.permitted.len()),
    ensures
        permits_model(m1, w),
{
    assert forall|p: int|
        0 <= p < w.len() implies is_letter(#[trigger] w[p]) && m1.permitted[p][letter_index_spec(
        w[p],
    )] by {
        assert(m2.permitted[p][letter_index_spec(w[p])]);
        assert(0 <= letter_index_spec(w[p]) < 26);
    }
    assert forall|j: int| 0 <= j < 26 implies (#[trigger] m1.lo[j]) as nat <= occ_idx(w, j) by {
        assert((m2.lo[j]) as nat <= occ_idx(w, j));
    }
    assert forall|j: int| 0 <= j < 26 implies hi_ok(#[trigger] m1.hi[j], occ_idx(w, j)) by {
        assert(hi_ok(m2.hi[j], occ_idx(w, j)));
    }
}

/// Refinement is transitive.
pub proof fn lemma_refines_trans(m3: ConstraintModel, m2: ConstraintModel, m1: ConstraintModel)
    requires
        refines(m3, m2),
        refines(m2, m1),
    ensures
        refines(m3, m1),
{
    assert forall|p: int, j: int|
        0 <= p < m1.permitted.len() && 0 <= j < 26 && #[trigger] m3.permitted[p][j] implies
        #[trigger] m1.permitted[p][j] by {
        assert(m2.permitted[p][j]);
    }
    assert forall|j: int| 0 <= j < 26 implies #[trigger] m1.lo[j] <= #[trigger] m3.lo[j] by {
        assert(m1.lo[j] <= m2.lo[j]);
        assert(m2.lo[j] <= m3.lo[j]);
    }
    assert forall|j: int|
        0 <= j < 26 implies match m1.hi[j] {
        Option::None => true,
        Option::Some(h1) => match #[trigger] m3.hi[j] {
            Option::None => false,
            Option::Some(h3) => h3 <= h1,
        },
    } by {
        assert(0 <= j < 26);
        assert(match m1.hi[j] {
            Option::None => true,
            Option::Some(h1) => match m2.hi[j] {
                Option::None => false,
                Option::Some(h2) => h2 <= h1,
            },
        });
        assert(match m2.hi[j] {
            Option::None => true,
            Option::Some(h2) => match m3.hi[j] {
                Option::None => false,
                Option::Some(h3) => h3 <= h2,
            },
        });
    }
}

/// While a clue scored against a word the constraint permits is folded in,
/// the permitted sets only shrink.
proof fn lemma_pass_refines(m: ConstraintModel, g: Seq<char>, a: Seq<char>, i: int, n: nat)
    requires
        wf_model(m, n),
        permits_model(m, a),
        wf_word(g),
        wf_word(a),
        g.len() == n,
        a.len() == n,
        0 <= i <= n,
    ensures
        forall|p: int, j: int|
            0 <= p < n && 0 <= j < 26 && #[trigger] pass_state(
                m.permitted,
                g,
                score_spec(g, a),
                i,
            )[p][j] ==> #[trigger] m.permitted[p][j],
    decreases i,
{
    let s = score_spec(g, a);
    lemma_score_wf(g, a);
    if i > 0 {
        lemma_pass_refines(m, g, a, i - 1, n);
        lemma_pass_wf(m.permitted, g, s, i - 1, n);
        let st = pass_state(m.permitted, g, s, i - 1);
        let st1 = pass_state(m.permitted, g, s, i);
        let k = i - 1;
        let c = g[k];
        let j0 = letter_index_spec(c);
        assert(is_letter(c));
        assert forall|p: int, j: int|
            0 <= p < n && 0 <= j < 26 && #[trigger] st1[p][j] implies #[trigger] m.permitted[p][j] by {
            if s[k] == EXACT {
                if p == k {
                    assert(st1[k] == Seq::new(26, |x: int| x == j0));
                    assert(j == j0);
                    assert(g[k] == a[k]);
                    assert(m.permitted[k][letter_index_spec(a[k])]);
                } else {
                    assert(st1[p][j] == st[p][j]);
                }
            } else if s[k] == PRESENT || pos_count_idx(g, s, j0, n as int) >= 1 {
                if p == k && j == j0 {
                    assert(!st1[p][j]);
                } else {
                    assert(st1[p][j] == st[p][j]);
                }
            } else {
                assert(st1 == clear_all(st, j0));
                if j == j0 {
                    assert(!st1[p][j]);
                } else {
                    assert(st1[p][j] == st[p][j]);
                }
            }
        }
    }
}

/// Folding a clue scored against a permitted word tightens the constraint.
pub proof fn lemma_update_refines(m: ConstraintModel, g: Seq<char>, a: Seq<char>, n: nat)
    requires
        wf_model(m, n),
        permits_model(m, a),
        wf_word(g),
        wf_word(a),
        g.len() == n,
        a.len() == n,
    ensures
        refines(update_model(m, g, score_spec(g, a)), m),
{
    let s = score_spec(g, a);
    let m1 = update_model(m, g, s);
    lemma_pass_wf(m.permitted, g, s, n as int, n);
    lemma_pass_refines(m, g, a, n as int, n);
    assert forall|j: int| 0 <= j < 26 implies #[trigger] m.lo[j] <= #[trigger] m1.lo[j] by {
        assert(m1.lo[j] == max_usize(m.lo[j], pos_count_idx(g, s, j, n as int) as usize));
    }
    assert forall|j: int|
        0 <= j < 26 implies match m.hi[j] {
        Option::None => true,
        Option::Some(h1) => match #[trigger] m1.hi[j] {
            Option::None => false,
            Option::Some(h2) => h2 <= h1,
        },
    } by {
        if pos_count_idx(g, s, j, n as int) >= 1 && neg_count_idx(g, s, j, n as int) >= 1 {
            assert(m1.hi[j] == Option::Some(
                min_hi(m.hi[j], pos_count_idx(g, s, j, n as int) as usize),
            ));
        } else {
            assert(m1.hi[j] == m.hi[j]);
        }
    }
}

/// The constraint of a full self-scored history refines the constraint of
/// any prefix of it.
pub proof fn lemma_refines_chain(n: nat, h: Seq<(Seq<char>, Seq<u8>)>, t: int, a: Seq<char>)
    requires
        n <= 1000,
        wf_word(a),
        a.len() == n,
        self_scored(h, a),
        0 <= t <= h.len(),
    ensures
        refines(from_clues_model(n, h), from_clues_model(n, h.take(t))),
    decreases h.len() - t,
{
    assert forall|i: int|
        0 <= i < h.len() implies (#[trigger] h[i]).0.len() == n && wf_word(h[i].0) by {}
    lemma_from_wf(n, h);
    if t == h.len() {
        assert(h.take(t) =~= h);
        lemma_from_wf(n, h);
        let m = from_clues_model(n, h);
        assert(refines(m, m));
    } else {
        assert forall|i: int|
            0 <= i < h.take(t).len() implies wf_word((#[trigger] h.take(t)[i]).0) && h.take(
            t,
        )[i].0.len() == a.len() && h.take(t)[i].1 == score_spec(h.take(t)[i].0, a) by {
            assert(h.take(t)[i] == h[i]);
        }
        assert forall|i: int|
            0 <= i < h.take(t).len() implies (#[trigger] h.take(t)[i]).0.len() == n && wf_word(
            h.take(t)[i].0) by {
            assert(h.take(t)[i] == h[i]);
        }
        lemma_from_wf(n, h.take(t));
        lemma_self_clues_permit(n, h.take(t), a);
        lemma_refines_chain(n, h, t + 1, a);
        assert(h.take(t + 1).drop_last() =~= h.take(t));
        assert(h.take(t + 1).last() == h[t]);
        assert(from_clues_model(n, h.take(t + 1)) == update_model(
            from_clues_model(n, h.take(t)),
            h[t].0,
            h[t].1,
        ));
        assert(h[t].1 == score_spec(h[t].0, a));
        lemma_update_refines(from_clues_model(n, h.take(t)), h[t].0, a, n);
        lemma_refines_trans(
            from_clues_model(n, h),
            from_clues_model(n, h.take(t + 1)),
            from_clues_model(n, h.take(t)),
        );
    }
}

/// Constraint monotonicity along honest histories: every word the full
/// history permits, each prefix of the history permits too — more clues
/// only shrink the plausible set.
pub proof fn lemma_prefix_monotonic(
    n: nat,
    h: Seq<(Seq<char>, Seq<u8>)>,
    t: int,
    a: Seq<char>,
    w: Seq<char>,
)
    requires
        n <= 1000,
        wf_word(a),
        a.len() == n,
        self_scored(h, a),
        0 <= t <= h.len(),
        permits_model(from_clues_model(n, h), w),
    ensures
        permits_model(from_clues_model(n, h.take(t)), w),
{
    lemma_refines_chain(n, h, t, a);
    assert forall|i: int|
        0 <= i < h.take(t).len() implies (#[trigger] h.take(t)[i]).0.len() == n && wf_word(
        h.take(t)[i].0) by {
        assert(h.take(t)[i] == h[i]);
    }
    lemma_from_wf(n, h.take(t));
    let m1 = from_clues_model(n, h.take(t));
    assert(m1.permitted.len() == n);
    lemma_refines_permits(from_clues_model(n, h), m1, w);
}

} // verus!
