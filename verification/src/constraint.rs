//! Accumulating clues into a constraint on the remaining answers.
//!
//! A constraint keeps, for each word position, the set of letters still
//! permitted there, and for each letter a lower bound and an optional upper
//! bound on how often it must occur in the answer. Folding in a clue walks
//! its positions left to right: an `ABSENT` letter is removed from its own
//! position, and from every position unless the same clue marks the letter
//! `PRESENT` or `EXACT` somewhere; a `PRESENT` letter is removed from its
//! own position only; an `EXACT` letter collapses its position to that
//! letter alone. The clue's positive marks per letter then raise the lower
//! bound, and a letter seen both positively and absent in one clue has its
//! upper bound tightened to the positive count.

use vstd::prelude::*;

use crate::word::{
    is_letter, letter_index, letter_index_spec, occ_idx, wf_score, wf_word, Score, Word, ABSENT,
    ALPHABET_LEN, PRESENT,
};

verus! {

/// Mathematical model of a constraint: per-position permitted letters by
/// alphabet index, and per-letter occurrence bounds.
pub struct ConstraintModel {
    /// `permitted[p][j]`: may position `p` hold the letter with index `j`?
    pub permitted: Seq<Seq<bool>>,
    /// Lower bound on occurrences of each letter.
    pub lo: Seq<usize>,
    /// Optional upper bound on occurrences of each letter.
    pub hi: Seq<Option<usize>>,
}

/// Well-formed model for words of length `n`.
pub open spec fn wf_model(m: ConstraintModel, n: nat) -> bool {
    &&& m.permitted.len() == n
    &&& forall|p: int| 0 <= p < n ==> (#[trigger] m.permitted[p]).len() == 26
    &&& m.lo.len() == 26
    &&& m.hi.len() == 26
}

/// The empty constraint: everything permitted, no bounds.
pub open spec fn new_model(n: nat) -> ConstraintModel {
    ConstraintModel {
        permitted: Seq::new(n, |p: int| Seq::new(26, |j: int| true)),
        lo: Seq::new(26, |j: int| 0usize),
        hi: Seq::new(26, |j: int| Option::<usize>::None),
    }
}

/// Remove letter `j` from position `p`.
pub open spec fn clear_at(perm: Seq<Seq<bool>>, p: int, j: int) -> Seq<Seq<bool>> {
    perm.update(p, perm[p].update(j, false))
}

/// Remove letter `j` from every position.
pub open spec fn clear_all(perm: Seq<Seq<bool>>, j: int) -> Seq<Seq<bool>> {
    Seq::new(perm.len(), |p: int| perm[p].update(j, false))
}

/// Collapse position `p` to the single letter `j`.
pub open spec fn only_at(perm: Seq<Seq<bool>>, p: int, j: int) -> Seq<Seq<bool>> {
    perm.update(p, Seq::new(26, |x: int| x == j))
}

/// Fold the first `i` positions of the clue `(g, s)` into the permitted
/// sets. An `ABSENT` letter is removed from its own position only when the
/// same clue gives it a positive outcome anywhere; otherwise it is removed
/// from every position.
pub open spec fn pass_state(perm0: Seq<Seq<bool>>, g: Seq<char>, s: Seq<u8>, i: int) -> Seq<
    Seq<bool>,
>
    decreases i,
{
    if i <= 0 {
        perm0
    } else {
        let st = pass_state(perm0, g, s, i - 1);
        let p = i - 1;
        let j = letter_index_spec(g[p]);
        if s[p] == ABSENT {
            if pos_count_idx(g, s, j, g.len() as int) >= 1 {
                clear_at(st, p, j)
            } else {
                clear_all(st, j)
            }
        } else if s[p] == PRESENT {
            clear_at(st, p, j)
        } else {
            only_at(st, p, j)
        }
    }
}

/// Positions `k < i` whose outcome is positive (`PRESENT` or `EXACT`) for
/// the letter with index `j`.
pub open spec fn pos_count_idx(g: Seq<char>, s: Seq<u8>, j: int, i: int) -> nat
    decreases i,
{
    if i <= 0 {
        0
    } else {
        pos_count_idx(g, s, j, i - 1) + if s[i - 1] >= PRESENT && letter_index_spec(g[i - 1])
            == j {
            1nat
        } else {
            0nat
        }
    }
}

/// Positions `k < i` whose outcome is `ABSENT` for the letter with index
/// `j`.
pub open spec fn neg_count_idx(g: Seq<char>, s: Seq<u8>, j: int, i: int) -> nat
    decreases i,
{
    if i <= 0 {
        0
    } else {
        neg_count_idx(g, s, j, i - 1) + if s[i - 1] == ABSENT && letter_index_spec(g[i - 1])
            == j {
            1nat
        } else {
            0nat
        }
    }
}

/// The larger of two machine integers.
pub open spec fn max_usize(a: usize, b: usize) -> usize {
    if a >= b {
        a
    } else {
        b
    }
}

/// Tighten an optional upper bound by a new bound `v`.
pub open spec fn min_hi(h: Option<usize>, v: usize) -> usize {
    match h {
        Option::None => v,
        Option::Some(x) => if x <= v {
            x
        } else {
            v
        },
    }
}

/// The model after folding in one whole clue `(g, s)`.
pub open spec fn update_model(m: ConstraintModel, g: Seq<char>, s: Seq<u8>) -> ConstraintModel {
    let n = g.len() as int;
    let st = pass_state(m.permitted, g, s, n);
    ConstraintModel {
        permitted: st,
        lo: Seq::new(
            26,
            |j: int| max_usize(m.lo[j], pos_count_idx(g, s, j, n) as usize),
        ),
        hi: Seq::new(
            26,
            |j: int|
                if pos_count_idx(g, s, j, n) >= 1 && neg_count_idx(g, s, j, n) >= 1 {
                    Option::Some(min_hi(m.hi[j], pos_count_idx(g, s, j, n) as usize))
                } else {
                    m.hi[j]
                },
        ),
    }
}

/// The model built from a whole clue history, folded left to right.
pub open spec fn from_clues_model(n: nat, clues: Seq<(Seq<char>, Seq<u8>)>) -> ConstraintModel
    decreases clues.len(),
{
    if clues.len() == 0 {
        new_model(n)
    } else {
        update_model(
            from_clues_model(n, clues.drop_last()),
            clues.last().0,
            clues.last().1,
        )
    }
}

/// Does the optional upper bound allow `o` occurrences?
pub open spec fn hi_ok(h: Option<usize>, o: nat) -> bool {
    match h {
        Option::None => true,
        Option::Some(x) => o <= x as nat,
    }
}

/// Does the constraint permit `w` as an answer?
pub open spec fn permits_model(m: ConstraintModel, w: Seq<char>) -> bool {
    &&& w.len() == m.permitted.len()
    &&& forall|p: int|
        0 <= p < w.len() ==> is_letter(#[trigger] w[p]) && m.permitted[p][letter_index_spec(w[p])]
    &&& forall|j: int| 0 <= j < 26 ==> (#[trigger] m.lo[j]) as nat <= occ_idx(w, j)
    &&& forall|j: int| 0 <= j < 26 ==> hi_ok(#[trigger] m.hi[j], occ_idx(w, j))
}

/// A well-formed clue for word length `n`: a guess over the alphabet and a
/// score of legal outcome codes, both of length `n`.
pub open spec fn wf_clue(g: Seq<char>, s: Seq<u8>, n: nat) -> bool {
    &&& g.len() == n
    &&& s.len() == n
    &&& wf_word(g)
    &&& wf_score(s)
}

/// Per-position permitted letters and per-letter occurrence bounds,
/// accumulated from clues.
pub struct Constraint {
    word_len: usize,
    permitted: Vec<bool>,
    lo: Vec<usize>,
    hi: Vec<Option<usize>>,
}

impl View for Constraint {
    type V = ConstraintModel;

    closed spec fn view(&self) -> ConstraintModel {
        ConstraintModel {
            permitted: Seq::new(
                self.word_len as nat,
                |p: int| Seq::new(26, |j: int| self.permitted@[p * 26 + j]),
            ),
            lo: self.lo@,
            hi: self.hi@,
        }
    }
}

impl Constraint {
    /// The internal vectors have the sizes the word length calls for.
    pub closed spec fn wf(&self) -> bool {
        &&& self.word_len <= 1000
        &&& self.permitted@.len() == self.word_len * 26
        &&& self.lo@.len() == 26
        &&& self.hi@.len() == 26
    }

    /// The word length this constraint is built for.
    pub closed spec fn n(&self) -> nat {
        self.word_len as nat
    }

    /// The well-formed view a constraint's operations maintain.
    pub proof fn lemma_wf_model(&self)
        requires
            self.wf(),
        ensures
            wf_model(self@, self.n()),
    {
    }

    /// A fresh constraint for words of length `n`: every letter permitted
    /// everywhere, no occurrence bounds.
    pub fn new(n: usize) -> (r: Constraint)
        requires
            n <= 1000,
        ensures
            r.wf(),
            r.n() == n,
            r@ == new_model(n as nat),
    {
        let mut permitted: Vec<bool> = Vec::new();
        let mut i: usize = 0;
        while i < n * 26
            invariant
                n <= 1000,
                i <= n * 26,
                permitted@.len() == i,
                forall|k: int| 0 <= k < i ==> permitted@[k] == true,
            decreases n * 26 - i,
        {
            permitted.push(true);
            i = i + 1;
        }
        let mut lo: Vec<usize> = Vec::new();
        let mut hi: Vec<Option<usize>> = Vec::new();
        let mut j: usize = 0;
        while j < ALPHABET_LEN
            invariant
                j <= 26,
                lo@.len() == j,
                hi@.len() == j,
                forall|k: int| 0 <= k < j ==> lo@[k] == 0usize,
                forall|k: int| 0 <= k < j ==> hi@[k] == Option::<usize>::None,
            decreases 26 - j,
        {
            lo.push(0);
            hi.push(Option::None);
            j = j + 1;
        }
        let r = Constraint { word_len: n, permitted, lo, hi };
        proof {
            assert forall|p: int| 0 <= p < n implies r@.permitted[p] =~= new_model(
                n as nat,
            ).permitted[p] by {
                assert forall|x: int| 0 <= x < 26 implies r@.permitted[p][x] == true by {
                    assert(0 <= p * 26 + x < n * 26) by (nonlinear_arith)
                        requires
                            0 <= p < n,
                            0 <= x < 26,
                    ;
                }
            }
            assert(r@.permitted =~= new_model(n as nat).permitted);
            assert(r@.lo =~= new_model(n as nat).lo);
            assert(r@.hi =~= new_model(n as nat).hi);
            assert(r@ =~= new_model(n as nat));
        }
        r
    }

    /// Build the constraint a whole clue history induces.
    pub fn from_clues(n: usize, clues: &Vec<(Word, Score)>) -> (r: Constraint)
        requires
            n <= 1000,
            forall|i: int|
                0 <= i < clues@.len() ==> wf_clue(
                    (#[trigger] clues@[i]).0@,
                    clues@[i].1@,
                    n as nat,
                ),
        ensures
            r.wf(),
            r.n() == n,
            r@ == from_clues_model(n as nat, crate::word::clues_view(clues@)),
    {
        let ghost cv = crate::word::clues_view(clues@);
        let mut r = Constraint::new(n);
        let mut i: usize = 0;
        while i < clues.len()
            invariant
                n <= 1000,
                cv == crate::word::clues_view(clues@),
                cv.len() == clues@.len(),
                forall|k: int|
                    0 <= k < clues@.len() ==> wf_clue(
                        (#[trigger] clues@[k]).0@,
                        clues@[k].1@,
                        n as nat,
                    ),
                forall|k: int|
                    0 <= k < cv.len() ==> #[trigger] cv[k] == (clues@[k].0@, clues@[k].1@),
                i <= clues@.len(),
                r.wf(),
                r.n() == n,
                r@ == from_clues_model(n as nat, cv.take(i as int)),
            decreases clues@.len() - i,
        {
            proof {
                assert(cv.take(i + 1).drop_last() =~= cv.take(i as int));
            }
            let (g, s) = &clues[i];
            r.update(g, s);
            i = i + 1;
        }
        proof {
            assert(cv.take(cv.len() as int) =~= cv);
        }
        r
    }

    /// Fold one clue into the constraint.
    pub fn update(&mut self, guess: &Word, score: &Score)
        requires
            old(self).wf(),
            wf_clue(guess@, score@, old(self).n()),
        ensures
            final(self).wf(),
            final(self).n() == old(self).n(),
            final(self)@ == update_model(old(self)@, guess@, score@),
    {
        let ghost m0 = self@;
        let ghost g = guess@;
        let ghost s = score@;
        let n = guess.len();
        // count the clue's positive and absent marks per letter first:
        // the absent rule consults the whole clue
        let mut pos_counts: Vec<usize> = Vec::new();
        let mut neg_counts: Vec<usize> = Vec::new();
        let mut j: usize = 0;
        while j < ALPHABET_LEN
            invariant
                j <= 26,
                pos_counts@.len() == j,
                neg_counts@.len() == j,
                forall|k: int| 0 <= k < j ==> pos_counts@[k] == 0usize,
                forall|k: int| 0 <= k < j ==> neg_counts@[k] == 0usize,
            decreases 26 - j,
        {
            pos_counts.push(0);
            neg_counts.push(0);
            j = j + 1;
        }
        let mut p: usize = 0;
        while p < n
            invariant
                self == old(self),
                self.wf(),
                m0 == self@,
                n == g.len(),
                g.len() == old(self).n(),
                wf_clue(g, s, old(self).n()),
                guess@ == g,
                score@ == s,
                p <= n,
                pos_counts@.len() == 26,
                neg_counts@.len() == 26,
                forall|k: int|
                    0 <= k < 26 ==> (#[trigger] pos_counts@[k]) as nat == pos_count_idx(
                        g,
                        s,
                        k,
                        p as int,
                    ),
                forall|k: int|
                    0 <= k < 26 ==> (#[trigger] neg_counts@[k]) as nat == neg_count_idx(
                        g,
                        s,
                        k,
                        p as int,
                    ),
                forall|k: int| 0 <= k < 26 ==> #[trigger] pos_counts@[k] <= p,
                forall|k: int| 0 <= k < 26 ==> #[trigger] neg_counts@[k] <= p,
            decreases n - p,
        {
            let c = guess[p];
            let j = letter_index(c);
            let sc = score[p];
            if sc >= PRESENT {
                let v = pos_counts[j];
                pos_counts.set(j, v + 1);
            } else {
                let v = neg_counts[j];
                neg_counts.set(j, v + 1);
            }
            p = p + 1;
        }
        // fold the positions, with the whole-clue counts deciding whether
        // an absent letter is excluded everywhere
        let mut p: usize = 0;
        while p < n
            invariant
                self.wf(),
                self.n() == old(self).n(),
                self.lo@ == m0.lo,
                self.hi@ == m0.hi,
                n == g.len(),
                g.len() == old(self).n(),
                wf_clue(g, s, old(self).n()),
                guess@ == g,
                score@ == s,
                p <= n,
                pos_counts@.len() == 26,
                neg_counts@.len() == 26,
                forall|k: int|
                    0 <= k < 26 ==> (#[trigger] pos_counts@[k]) as nat == pos_count_idx(
                        g,
                        s,
                        k,
                        n as int,
                    ),
                forall|k: int|
                    0 <= k < 26 ==> (#[trigger] neg_counts@[k]) as nat == neg_count_idx(
                        g,
                        s,
                        k,
                        n as int,
                    ),
                self@.permitted == pass_state(m0.permitted, g, s, p as int),
            decreases n - p,
        {
            let ghost st = pass_state(m0.permitted, g, s, p as int);
            let c = guess[p];
            let j = letter_index(c);
            let sc = score[p];
            proof {
                assert(is_letter(g[p as int]));
                assert(0 <= p * 26 + j < self.word_len * 26) by (nonlinear_arith)
                    requires
                        0 <= (p as int) < self.word_len as int,
                        0 <= (j as int) < 26,
                ;
            }
            if sc == ABSENT {
                if pos_counts[j] >= 1 {
                    self.permitted.set(p * 26 + j, false);
                    proof {
                        lemma_flat_index(old(self).word_len as int);
                        assert(self@.permitted =~~= clear_at(st, p as int, j as int));
                    }
                } else {
                    let mut q: usize = 0;
                    while q < n
                        invariant
                            self.wf(),
                            self.n() == old(self).n(),
                            self.lo@ == m0.lo,
                            self.hi@ == m0.hi,
                            n == g.len(),
                            g.len() == old(self).n(),
                            q <= n,
                            (j as int) == letter_index_spec(g[p as int]),
                            j < 26,
                            forall|x: int, y: int|
                                0 <= x < n && 0 <= y < 26 ==> #[trigger] self@.permitted[x][y] == (
                                if y == j && x < q {
                                    false
                                } else {
                                    st[x][y]
                                }),
                        decreases n - q,
                    {
                        let ghost prev = self@.permitted;
                        proof {
                            assert(0 <= q * 26 + j < self.word_len * 26) by (nonlinear_arith)
                                requires
                                    0 <= (q as int) < self.word_len as int,
                                    0 <= (j as int) < 26,
                            ;
                        }
                        self.permitted.set(q * 26 + j, false);
                        proof {
                            lemma_flat_index(old(self).word_len as int);
                            assert forall|x: int, y: int|
                                0 <= x < n && 0 <= y < 26 implies #[trigger] self@.permitted[x][y]
                                == (if y == j && x < q + 1 {
                                false
                            } else {
                                st[x][y]
                            }) by {
                                assert(0 <= x * 26 + y < self.word_len * 26) by (nonlinear_arith)
                                    requires
                                        0 <= x < self.word_len as int,
                                        0 <= y < 26,
                                ;
                                if x == q && y == j {
                                } else {
                                    assert(x * 26 + y != q * 26 + (j as int));
                                    assert(self@.permitted[x][y] == prev[x][y]);
                                }
                            }
                        }
                        q = q + 1;
                    }
                    proof {
                        assert forall|x: int|
                            0 <= x < n implies self@.permitted[x] =~= clear_all(
                            st,
                            j as int,
                        )[x] by {}
                        assert(self@.permitted =~= clear_all(st, j as int));
                    }
                }
            } else if sc == PRESENT {
                self.permitted.set(p * 26 + j, false);
                proof {
                    lemma_flat_index(old(self).word_len as int);
                    assert(self@.permitted =~~= clear_at(st, p as int, j as int));
                }
            } else {
                let mut x: usize = 0;
                while x < ALPHABET_LEN
                    invariant
                        self.wf(),
                        self.n() == old(self).n(),
                        self.lo@ == m0.lo,
                        self.hi@ == m0.hi,
                        n == g.len(),
                        g.len() == old(self).n(),
                        p < n,
                        x <= 26,
                        (j as int) == letter_index_spec(g[p as int]),
                        j < 26,
                        forall|a: int, b: int|
                            0 <= a < n && 0 <= b < 26 && a != p ==> #[trigger] self@.permitted[a][b]
                                == st[a][b],
                        forall|b: int|
                            0 <= b < 26 && b >= x ==> #[trigger] self@.permitted[p as int][b]
                                == st[p as int][b],
                        forall|b: int|
                            0 <= b < x ==> #[trigger] self@.permitted[p as int][b] == (b == j),
                    decreases 26 - x,
                {
                    let ghost prev = self@.permitted;
                    proof {
                        assert(0 <= p * 26 + x < self.word_len * 26) by (nonlinear_arith)
                            requires
                                0 <= (p as int) < self.word_len as int,
                                0 <= (x as int) < 26,
                        ;
                    }
                    self.permitted.set(p * 26 + x, x == j);
                    proof {
                        lemma_flat_index(old(self).word_len as int);
                        assert forall|a: int, b: int|
                            0 <= a < n && 0 <= b < 26 && (a != p || b != x) implies #[trigger] self@
                            .permitted[a][b] == prev[a][b] by {
                            assert(0 <= a * 26 + b < self.word_len * 26) by (nonlinear_arith)
                                requires
                                    0 <= a < self.word_len as int,
                                    0 <= b < 26,
                            ;
                            assert(a * 26 + b != (p as int) * 26 + (x as int));
                        }
                        assert(self@.permitted[p as int][x as int] == ((x as int) == (j as int)));
                    }
                    x = x + 1;
                }
                proof {
                    assert(self@.permitted[p as int] =~= only_at(st, p as int, j as int)[p
                        as int]);
                    assert forall|a: int|
                        0 <= a < n implies self@.permitted[a] =~= only_at(
                        st,
                        p as int,
                        j as int,
                    )[a] by {}
                    assert(self@.permitted =~= only_at(st, p as int, j as int));
                }
            }
            proof {
                let st1 = pass_state(m0.permitted, g, s, p + 1);
                assert(s[p as int] == sc);
                assert(self@.permitted == st1);
            }
            p = p + 1;
        }
        // fold the counts into the occurrence bounds
        let ghost m1 = update_model(m0, g, s);
        let mut j: usize = 0;
        while j < ALPHABET_LEN
            invariant
                self.wf(),
                self.n() == old(self).n(),
                self@.permitted == pass_state(m0.permitted, g, s, n as int),
                n == g.len(),
                m1 == update_model(m0, g, s),
                j <= 26,
                pos_counts@.len() == 26,
                neg_counts@.len() == 26,
                forall|k: int|
                    0 <= k < 26 ==> (#[trigger] pos_counts@[k]) as nat == pos_count_idx(
                        g,
                        s,
                        k,
                        n as int,
                    ),
                forall|k: int|
                    0 <= k < 26 ==> (#[trigger] neg_counts@[k]) as nat == neg_count_idx(
                        g,
                        s,
                        k,
                        n as int,
                    ),
                forall|k: int| 0 <= k < j ==> #[trigger] self.lo@[k] == m1.lo[k],
                forall|k: int| 0 <= k < j ==> #[trigger] self.hi@[k] == m1.hi[k],
                forall|k: int| j <= k < 26 ==> #[trigger] self.lo@[k] == m0.lo[k],
                forall|k: int| j <= k < 26 ==> #[trigger] self.hi@[k] == m0.hi[k],
            decreases 26 - j,
        {
            let pc = pos_counts[j];
            let cur_lo = self.lo[j];
            if pc > cur_lo {
                self.lo.set(j, pc);
            }
            if pc >= 1 && neg_counts[j] >= 1 {
                let new_hi = match self.hi[j] {
                    Option::None => pc,
                    Option::Some(x) => if x <= pc {
                        x
                    } else {
                        pc
                    },
                };
                self.hi.set(j, Option::Some(new_hi));
            }
            j = j + 1;
        }
        proof {
            assert(self@.permitted == m1.permitted);
            assert(self.lo@ =~= m1.lo);
            assert(self.hi@ =~= m1.hi);
            assert(self@ =~= m1);
        }
    }

    /// Does the constraint permit `word` as an answer?
    pub fn permits(&self, word: &Word) -> (r: bool)
        requires
            self.wf(),
        ensures
            r == permits_model(self@, word@),
    {
        let ghost w = word@;
        if word.len() != self.word_len {
            return false;
        }
        let n = self.word_len;
        let mut p: usize = 0;
        while p < n
            invariant
                self.wf(),
                word@ == w,
                w.len() == n,
                n == self.word_len,
                p <= n,
                forall|q: int|
                    0 <= q < p ==> is_letter(#[trigger] w[q]) && self@.permitted[q][
                        letter_index_spec(w[q])],
            decreases n - p,
        {
            let c = word[p];
            if !('a' <= c && c <= 'z') {
                return false;
            }
            let j = letter_index(c);
            proof {
                assert(0 <= p * 26 + j < self.word_len * 26) by (nonlinear_arith)
                    requires
                        0 <= (p as int) < self.word_len as int,
                        0 <= (j as int) < 26,
                ;
            }
            if !self.permitted[p * 26 + j] {
                proof {
                    assert(!self@.permitted[p as int][j as int]);
                }
                return false;
            }
            proof {
                assert(self@.permitted[p as int][j as int]);
            }
            p = p + 1;
        }
        // occurrence counts per letter
        let mut counts: Vec<usize> = Vec::new();
        let mut j: usize = 0;
        while j < ALPHABET_LEN
            invariant
                j <= 26,
                counts@.len() == j,
                forall|k: int| 0 <= k < j ==> counts@[k] == 0usize,
            decreases 26 - j,
        {
            counts.push(0);
            j = j + 1;
        }
        proof {
            assert forall|k: int| 0 <= k < 26 implies (#[trigger] counts@[k]) as nat == occ_idx(
                w.take(0),
                k,
            ) by {
                assert(w.take(0).len() == 0);
            }
        }
        let mut p: usize = 0;
        while p < n
            invariant
                self.wf(),
                word@ == w,
                w.len() == n,
                n == self.word_len,
                p <= n,
                forall|q: int|
                    0 <= q < w.len() ==> is_letter(#[trigger] w[q]) && self@.permitted[q][
                        letter_index_spec(w[q])],
                counts@.len() == 26,
                forall|k: int|
                    0 <= k < 26 ==> (#[trigger] counts@[k]) as nat == occ_idx(
                        w.take(p as int),
                        k,
                    ),
                forall|k: int| 0 <= k < 26 ==> #[trigger] counts@[k] <= p,
            decreases n - p,
        {
            proof {
                assert(w.take(p + 1).drop_last() =~= w.take(p as int));
                assert(w.take(p + 1).last() == w[p as int]);
            }
            let c = word[p];
            let j = letter_index(c);
            let v = counts[j];
            counts.set(j, v + 1);
            p = p + 1;
        }
        proof {
            assert(w.take(w.len() as int) =~= w);
        }
        let mut j: usize = 0;
        while j < ALPHABET_LEN
            invariant
                self.wf(),
                word@ == w,
                w.len() == n,
                n == self.word_len,
                j <= 26,
                counts@.len() == 26,
                forall|q: int|
                    0 <= q < w.len() ==> is_letter(#[trigger] w[q]) && self@.permitted[q][
                        letter_index_spec(w[q])],
                forall|k: int| 0 <= k < 26 ==> (#[trigger] counts@[k]) as nat == occ_idx(w, k),
                forall|k: int|
                    0 <= k < j ==> (#[trigger] self@.lo[k]) as nat <= occ_idx(w, k) && hi_ok(
                        self@.hi[k],
                        occ_idx(w, k),
                    ),
            decreases 26 - j,
        {
            if counts[j] < self.lo[j] {
                proof {
                    assert((self@.lo[j as int]) as nat > occ_idx(w, j as int));
                }
                return false;
            }
            match self.hi[j] {
                Option::Some(h) => {
                    if counts[j] > h {
                        proof {
                            assert(!hi_ok(self@.hi[j as int], occ_idx(w, j as int)));
                        }
                        return false;
                    }
                },
                Option::None => {},
            }
            j = j + 1;
        }
        proof {
            assert(w.len() == self@.permitted.len());
            assert(forall|q: int|
                0 <= q < w.len() ==> is_letter(#[trigger] w[q]) && self@.permitted[q][
                    letter_index_spec(w[q])]);
            assert forall|k: int| 0 <= k < 26 implies (#[trigger] self@.lo[k]) as nat <= occ_idx(
                w,
                k,
            ) by {}
            assert forall|k: int| 0 <= k < 26 implies hi_ok(
                #[trigger] self@.hi[k],
                occ_idx(w, k),
            ) by {
                assert((self@.lo[k]) as nat <= occ_idx(w, k));
            }
            assert(permits_model(self@, w));
        }
        true
    }
}

/// Decompose a flat permitted index into its position and letter, so that
/// one cell's change leaves every other cell alone.
proof fn lemma_flat_index(n: int)
    ensures
        forall|a: int, b: int, x: int, y: int|
            #![trigger a * 26 + b, x * 26 + y]
            0 <= a && 0 <= b < 26 && 0 <= x && 0 <= y < 26 && (a != x || b != y) ==> a * 26 + b != x
                * 26 + y,
{
    assert forall|a: int, b: int, x: int, y: int|
        #![trigger a * 26 + b, x * 26 + y]
        0 <= a && 0 <= b < 26 && 0 <= x && 0 <= y < 26 && (a != x || b != y) implies a * 26 + b != x
        * 26 + y by {
        if a * 26 + b == x * 26 + y {
            assert((a - x) * 26 == y - b) by (nonlinear_arith)
                requires
                    a * 26 + b == x * 26 + y,
            ;
            assert(-25 <= y - b <= 25);
            assert(a == x) by (nonlinear_arith)
                requires
                    (a - x) * 26 == y - b,
                    -25 <= y - b <= 25,
            ;
        }
    }
}

} // verus!
