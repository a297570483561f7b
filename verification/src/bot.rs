//! The solver: vocabularies, candidate ranking and the memoizing cache.
//!
//! `choice` answers a clue history with the guess that maximizes the chosen
//! information metric over the still-plausible answers. Results are memoized
//! by clue history: a repeated history is answered from the cache without
//! recomputation. Ties are broken in favour of guesses that could end the
//! game at once, then by a fixed lexicographic order, so the choice is
//! deterministic.

use itertools::Itertools;
use rayon::iter::{IntoParallelRefIterator, ParallelIterator};
use vstd::prelude::*;

use crate::constraint::{
    from_clues_model, permits_model, wf_clue, Constraint, ConstraintModel,
};
use crate::metrics::{eval_spec, evaluate_guess, scores_equal, words_view, MAX_TOTAL};
use crate::word::{
    clues_view, copy_score, copy_word, wf_word, word_less, word_lt, words_equal, Score, Word,
};

verus! {

/// Mathematical model of a bot: its vocabularies, metric selection, cache
/// contents and hit counter.
pub struct BotModel {
    /// Length of every word in play.
    pub word_len: nat,
    /// Words that may be guessed, duplicates removed.
    pub guesses: Seq<Seq<char>>,
    /// Words that may be the hidden answer.
    pub answers: Seq<Seq<char>>,
    /// Rank by minimax surprise instead of expected entropy?
    pub adversarial: bool,
    /// Memoized results: clue history to chosen guess, in insertion order.
    pub cache: Seq<(Seq<(Seq<char>, Seq<u8>)>, Seq<char>)>,
    /// How many queries were answered from the cache.
    pub hits: nat,
}

/// The letters of an optional word.
pub open spec fn opt_word_view(r: Option<Word>) -> Option<Seq<char>> {
    match r {
        Option::Some(w) => Option::Some(w@),
        Option::None => Option::None,
    }
}

/// First cached guess stored under the clue history `k`, if any.
pub open spec fn cache_lookup(
    entries: Seq<(Seq<(Seq<char>, Seq<u8>)>, Seq<char>)>,
    k: Seq<(Seq<char>, Seq<u8>)>,
) -> Option<Seq<char>>
    decreases entries.len(),
{
    if entries.len() == 0 {
        Option::None
    } else if entries[0].0 == k {
        Option::Some(entries[0].1)
    } else {
        cache_lookup(entries.drop_first(), k)
    }
}

/// `cache_lookup` finds the first matching entry and only that.
pub proof fn lemma_cache_lookup(
    entries: Seq<(Seq<(Seq<char>, Seq<u8>)>, Seq<char>)>,
    k: Seq<(Seq<char>, Seq<u8>)>,
)
    ensures
        cache_lookup(entries, k) is None ==> forall|i: int|
            0 <= i < entries.len() ==> (#[trigger] entries[i]).0 != k,
        cache_lookup(entries, k) is Some ==> exists|i: int|
            {
                &&& 0 <= i < entries.len()
                &&& (#[trigger] entries[i]).0 == k
                &&& cache_lookup(entries, k) == Option::Some(entries[i].1)
                &&& forall|i2: int| 0 <= i2 < i ==> (#[trigger] entries[i2]).0 != k
            },
    decreases entries.len(),
{
    if entries.len() == 0 {
    } else if entries[0].0 == k {
        assert(entries[0].0 == k && cache_lookup(entries, k) == Option::Some(entries[0].1));
    } else {
        lemma_cache_lookup(entries.drop_first(), k);
        let rest = entries.drop_first();
        if cache_lookup(entries, k) is None {
            assert forall|i: int| 0 <= i < entries.len() implies (#[trigger] entries[i]).0
                != k by {
                if i > 0 {
                    assert(rest[i - 1].0 != k);
                }
            }
        } else {
            let i0 = choose|i: int|
                {
                    &&& 0 <= i < rest.len()
                    &&& (#[trigger] rest[i]).0 == k
                    &&& cache_lookup(rest, k) == Option::Some(rest[i].1)
                    &&& forall|i2: int| 0 <= i2 < i ==> (#[trigger] rest[i2]).0 != k
                };
            assert(entries[i0 + 1].0 == k && cache_lookup(entries, k) == Option::Some(
                entries[i0 + 1].1,
            ) && forall|i2: int| 0 <= i2 < i0 + 1 ==> (#[trigger] entries[i2]).0 != k) by {
                assert forall|i2: int| 0 <= i2 < i0 + 1 implies (#[trigger] entries[i2]).0
                    != k by {
                    if i2 > 0 {
                        assert(rest[i2 - 1].0 != k);
                    }
                }
            }
        }
    }
}

/// The words in `s`, keeping only the first occurrence of each.
pub open spec fn dedup_first(s: Seq<Seq<char>>) -> Seq<Seq<char>>
    decreases s.len(),
{
    if s.len() == 0 {
        Seq::empty()
    } else {
        let pre = dedup_first(s.drop_last());
        if s.drop_last().contains(s.last()) {
            pre
        } else {
            pre.push(s.last())
        }
    }
}

/// Deduplication keeps exactly the words that were there.
pub proof fn lemma_dedup_contains(s: Seq<Seq<char>>, w: Seq<char>)
    ensures
        dedup_first(s).contains(w) <==> s.contains(w),
    decreases s.len(),
{
    if s.len() > 0 {
        lemma_dedup_contains(s.drop_last(), w);
        let pre = dedup_first(s.drop_last());
        if s.contains(w) {
            let i = choose|i: int| 0 <= i < s.len() && s[i] == w;
            if i < s.len() - 1 {
                assert(s.drop_last()[i] == w);
                assert(s.drop_last().contains(w));
            }
            if s.drop_last().contains(w) {
                assert(pre.contains(w));
                let kk = choose|kk: int| 0 <= kk < pre.len() && pre[kk] == w;
                assert(dedup_first(s)[kk] == w);
            } else {
                assert(w == s.last());
                assert(dedup_first(s) == pre.push(w));
                assert(dedup_first(s)[dedup_first(s).len() - 1] == w);
            }
            assert(dedup_first(s).contains(w));
        }
        if dedup_first(s).contains(w) {
            let i = choose|i: int| 0 <= i < dedup_first(s).len() && dedup_first(s)[i] == w;
            if s.drop_last().contains(s.last()) {
                assert(s.contains(w)) by {
                    let i2 = choose|i2: int|
                        0 <= i2 < s.drop_last().len() && s.drop_last()[i2] == w;
                    assert(s[i2] == w);
                }
            } else {
                if i < pre.len() {
                    assert(pre[i] == w);
                    assert(pre.contains(w));
                    let i2 = choose|i2: int|
                        0 <= i2 < s.drop_last().len() && s.drop_last()[i2] == w;
                    assert(s[i2] == w);
                } else {
                    assert(w == s.last());
                    assert(s[s.len() - 1] == w);
                }
                assert(s.contains(w));
            }
        }
    }
}

/// The answers that a constraint still allows, in vocabulary order.
pub open spec fn plausible_of(answers: Seq<Seq<char>>, cm: ConstraintModel) -> Seq<Seq<char>>
    decreases answers.len(),
{
    if answers.len() == 0 {
        Seq::empty()
    } else {
        let pre = plausible_of(answers.drop_last(), cm);
        if permits_model(cm, answers.last()) {
            pre.push(answers.last())
        } else {
            pre
        }
    }
}

/// Every plausible answer comes from the vocabulary and passes the
/// constraint; every passing vocabulary word is plausible.
pub proof fn lemma_plausible_of(answers: Seq<Seq<char>>, cm: ConstraintModel)
    ensures
        plausible_of(answers, cm).len() <= answers.len(),
        forall|i: int|
            0 <= i < plausible_of(answers, cm).len() ==> answers.contains(
                #[trigger] plausible_of(answers, cm)[i],
            ) && permits_model(cm, plausible_of(answers, cm)[i]),
        forall|i: int|
            0 <= i < answers.len() && permits_model(cm, #[trigger] answers[i]) ==> plausible_of(
                answers,
                cm,
            ).contains(answers[i]),
    decreases answers.len(),
{
    if answers.len() > 0 {
        lemma_plausible_of(answers.drop_last(), cm);
        let pre = plausible_of(answers.drop_last(), cm);
        let cur = plausible_of(answers, cm);
        assert forall|i: int| 0 <= i < cur.len() implies answers.contains(#[trigger] cur[i])
            && permits_model(cm, cur[i]) by {
            if i < pre.len() {
                assert(answers.drop_last().contains(pre[i]));
                let i2 = choose|i2: int|
                    0 <= i2 < answers.drop_last().len() && answers.drop_last()[i2] == pre[i];
                assert(answers[i2] == cur[i]);
            } else {
                assert(cur[i] == answers.last());
                assert(answers[answers.len() - 1] == cur[i]);
            }
        }
        assert forall|i: int|
            0 <= i < answers.len() && permits_model(cm, #[trigger] answers[i]) implies cur.contains(
            answers[i],
        ) by {
            if i < answers.len() - 1 {
                assert(answers.drop_last()[i] == answers[i]);
                assert(pre.contains(answers[i]));
                let i2 = choose|i2: int| 0 <= i2 < pre.len() && pre[i2] == answers[i];
                if permits_model(cm, answers.last()) {
                    assert(cur[i2] == answers[i]);
                } else {
                    assert(cur[i2] == answers[i]);
                }
            } else {
                assert(cur[cur.len() - 1] == answers[i]);
            }
        }
    }
}

/// The hidden answer is never filtered out: a vocabulary word stays
/// plausible under any history of its own honest clues.
pub proof fn lemma_answer_stays_plausible(
    answers: Seq<Seq<char>>,
    n: nat,
    h: Seq<(Seq<char>, Seq<u8>)>,
    a: Seq<char>,
)
    requires
        n <= 1000,
        wf_word(a),
        a.len() == n,
        crate::laws::self_scored(h, a),
        answers.contains(a),
    ensures
        plausible_of(answers, from_clues_model(n, h)).contains(a),
{
    crate::laws::lemma_self_clues_permit(n, h, a);
    let cm = from_clues_model(n, h);
    lemma_plausible_of(answers, cm);
    let i = choose|i: int| 0 <= i < answers.len() && answers[i] == a;
    assert(permits_model(cm, answers[i]));
    assert(plausible_of(answers, cm).contains(answers[i]));
}

/// The guesses that are ranked for a given plausible-answer list: the
/// plausible answers themselves when three or fewer remain, the whole guess
/// vocabulary otherwise.
pub open spec fn candidates_of(guesses: Seq<Seq<char>>, pl: Seq<Seq<char>>) -> Seq<Seq<char>> {
    if pl.len() <= 3 {
        pl
    } else {
        guesses
    }
}

/// Ranking key of a candidate guess: metric value first, then membership in
/// the plausible answers, then the word itself.
pub open spec fn guess_key(w: Seq<char>, pl: Seq<Seq<char>>, adversarial: bool) -> (
    int,
    bool,
    Seq<char>,
) {
    (eval_spec(w, pl, adversarial), pl.contains(w), w)
}

/// Total order on ranking keys: higher metric wins, then plausible over
/// not, then the lexicographically larger word.
pub open spec fn key_le(a: (int, bool, Seq<char>), b: (int, bool, Seq<char>)) -> bool {
    ||| a.0 < b.0
    ||| (a.0 == b.0 && !a.1 && b.1)
    ||| (a.0 == b.0 && a.1 == b.1 && (word_lt(a.2, b.2) || a.2 == b.2))
}

/// Any two keys compare one way or the other.
pub proof fn lemma_key_le_total(a: (int, bool, Seq<char>), b: (int, bool, Seq<char>))
    ensures
        key_le(a, b) || key_le(b, a),
{
    crate::word::lemma_word_lt_total(a.2, b.2);
}

/// The key order is transitive.
pub proof fn lemma_key_le_trans(
    a: (int, bool, Seq<char>),
    b: (int, bool, Seq<char>),
    c: (int, bool, Seq<char>),
)
    requires
        key_le(a, b),
        key_le(b, c),
    ensures
        key_le(a, c),
{
    if a.0 == b.0 && b.0 == c.0 && a.1 == b.1 && b.1 == c.1 {
        if word_lt(a.2, b.2) && word_lt(b.2, c.2) {
            crate::word::lemma_word_lt_trans(a.2, b.2, c.2);
        }
    }
}

/// `w` is a best candidate: it is ranked, and no candidate has a larger
/// key. The key order is total, so this pins the chosen word down.
pub open spec fn is_best(
    guesses: Seq<Seq<char>>,
    pl: Seq<Seq<char>>,
    adversarial: bool,
    w: Seq<char>,
) -> bool {
    let cands = candidates_of(guesses, pl);
    &&& cands.contains(w)
    &&& forall|i: int|
        0 <= i < cands.len() ==> key_le(
            guess_key(#[trigger] cands[i], pl, adversarial),
            guess_key(w, pl, adversarial),
        )
}

/// Two best candidates are the same word: the choice is deterministic.
pub proof fn lemma_best_unique(
    guesses: Seq<Seq<char>>,
    pl: Seq<Seq<char>>,
    adversarial: bool,
    w1: Seq<char>,
    w2: Seq<char>,
)
    requires
        is_best(guesses, pl, adversarial, w1),
        is_best(guesses, pl, adversarial, w2),
    ensures
        w1 == w2,
{
    let cands = candidates_of(guesses, pl);
    let i1 = choose|i: int| 0 <= i < cands.len() && cands[i] == w1;
    let i2 = choose|i: int| 0 <= i < cands.len() && cands[i] == w2;
    assert(key_le(guess_key(cands[i1], pl, adversarial), guess_key(w2, pl, adversarial)));
    assert(key_le(guess_key(cands[i2], pl, adversarial), guess_key(w1, pl, adversarial)));
    if w1 != w2 {
        if word_lt(w1, w2) {
            crate::word::lemma_word_lt_asym(w1, w2);
        } else if word_lt(w2, w1) {
            crate::word::lemma_word_lt_asym(w2, w1);
        } else {
            crate::word::lemma_word_lt_total(w1, w2);
        }
    }
}

/// What one `choice` call does to the bot and returns, as a relation
/// between the states before and after.
pub open spec fn choice_post(
    pre: BotModel,
    post: BotModel,
    cv: Seq<(Seq<char>, Seq<u8>)>,
    r: Option<Seq<char>>,
) -> bool {
    &&& post.word_len == pre.word_len
    &&& post.guesses == pre.guesses
    &&& post.answers == pre.answers
    &&& post.adversarial == pre.adversarial
    &&& match cache_lookup(pre.cache, cv) {
        Option::Some(w) => {
            &&& r == Option::Some(w)
            &&& post.cache == pre.cache
            &&& post.hits == pre.hits + 1
        },
        Option::None => {
            let pl = plausible_of(pre.answers, from_clues_model(pre.word_len, cv));
            &&& post.hits == pre.hits
            &&& if pl.len() == 0 {
                r is None && post.cache == pre.cache
            } else {
                match r {
                    Option::Some(w) => {
                        &&& is_best(pre.guesses, pl, pre.adversarial, w)
                        &&& post.cache == pre.cache.push((cv, w))
                    },
                    Option::None => false,
                }
            }
        },
    }
}

/// Asking twice with the same clue history returns the same word, and the
/// second call is answered from the cache: it only bumps the hit counter.
pub proof fn lemma_choice_idempotent(
    b0: BotModel,
    b1: BotModel,
    b2: BotModel,
    cv: Seq<(Seq<char>, Seq<u8>)>,
    r1: Option<Seq<char>>,
    r2: Option<Seq<char>>,
)
    requires
        choice_post(b0, b1, cv, r1),
        choice_post(b1, b2, cv, r2),
        r1 is Some,
    ensures
        r2 == r1,
        b2.cache == b1.cache,
        b2.hits == b1.hits + 1,
{
    match cache_lookup(b0.cache, cv) {
        Option::Some(w) => {
            assert(b1.cache == b0.cache);
        },
        Option::None => {
            match r1 {
                Option::Some(w) => {
                    lemma_cache_lookup(b0.cache, cv);
                    lemma_lookup_push(b0.cache, cv, w);
                },
                Option::None => {
                    assert(false);
                },
            }
        },
    }
}

/// Looking up the key just inserted finds the inserted word, provided no
/// earlier entry held that key.
proof fn lemma_lookup_push(
    entries: Seq<(Seq<(Seq<char>, Seq<u8>)>, Seq<char>)>,
    k: Seq<(Seq<char>, Seq<u8>)>,
    w: Seq<char>,
)
    requires
        cache_lookup(entries, k) is None,
    ensures
        cache_lookup(entries.push((k, w)), k) == Option::Some(w),
    decreases entries.len(),
{
    let pushed = entries.push((k, w));
    if entries.len() == 0 {
        assert(pushed[0] == (k, w));
    } else {
        assert(pushed[0] == entries[0]);
        lemma_lookup_push(entries.drop_first(), k, w);
        assert(pushed.drop_first() =~= entries.drop_first().push((k, w)));
    }
}

/// The solver: immutable vocabularies, a metric selection, and a memo
/// cache owned by this instance.
pub struct Bot {
    word_len: usize,
    allowed_guesses: Vec<Word>,
    allowed_answers: Vec<Word>,
    adversarial: bool,
    cache: Vec<(Vec<(Word, Score)>, Word)>,
    num_cache_hit: u64,
}

/// The cached entries as clue-history and word sequences.
pub open spec fn cache_view(c: Seq<(Vec<(Word, Score)>, Word)>) -> Seq<
    (Seq<(Seq<char>, Seq<u8>)>, Seq<char>),
> {
    c.map_values(|e: (Vec<(Word, Score)>, Word)| (clues_view(e.0@), e.1@))
}

impl View for Bot {
    type V = BotModel;

    closed spec fn view(&self) -> BotModel {
        BotModel {
            word_len: self.word_len as nat,
            guesses: words_view(self.allowed_guesses@),
            answers: words_view(self.allowed_answers@),
            adversarial: self.adversarial,
            cache: cache_view(self.cache@),
            hits: self.num_cache_hit as nat,
        }
    }
}

impl Bot {
    /// Vocabularies hold words of the fixed length, every answer may be
    /// guessed, and cached words are well formed.
    pub open spec fn wf(&self) -> bool {
        let m = self@;
        &&& m.word_len <= 1000
        &&& m.answers.len() <= MAX_TOTAL as nat
        &&& forall|i: int|
            0 <= i < m.guesses.len() ==> (#[trigger] m.guesses[i]).len() == m.word_len && wf_word(
                m.guesses[i],
            )
        &&& forall|i: int|
            0 <= i < m.answers.len() ==> (#[trigger] m.answers[i]).len() == m.word_len && wf_word(
                m.answers[i],
            )
        &&& forall|i: int| 0 <= i < m.answers.len() ==> m.guesses.contains(#[trigger] m.answers[i])
        &&& forall|i: int|
            0 <= i < m.cache.len() ==> (#[trigger] m.cache[i]).1.len() == m.word_len && wf_word(
                m.cache[i].1,
            )
    }

    /// The words that may be the hidden answer.
    pub fn answers(&self) -> (r: &Vec<Word>)
        ensures
            words_view(r@) == self@.answers,
    {
        &self.allowed_answers
    }

    /// The words that may be guessed.
    pub fn guesses(&self) -> (r: &Vec<Word>)
        ensures
            words_view(r@) == self@.guesses,
    {
        &self.allowed_guesses
    }

    /// How many queries were answered from the cache.
    pub fn num_cache_hit(&self) -> (r: u64)
        ensures
            r as nat == self@.hits,
    {
        self.num_cache_hit
    }

    /// How many distinct clue histories have been answered and memoized.
    pub fn cache_len(&self) -> (r: usize)
        ensures
            r as nat == self@.cache.len(),
    {
        self.cache.len()
    }

    /// A bot over the given vocabularies. The guess vocabulary is extended
    /// with every answer and deduplicated, keeping first occurrences.
    pub fn new(word_len: usize, guesses: Vec<Word>, answers: Vec<Word>, adversarial: bool) -> (r:
        Bot)
        requires
            word_len <= 1000,
            answers@.len() <= MAX_TOTAL,
            forall|i: int|
                0 <= i < guesses@.len() ==> (#[trigger] guesses@[i])@.len() == word_len && wf_word(
                    guesses@[i]@,
                ),
            forall|i: int|
                0 <= i < answers@.len() ==> (#[trigger] answers@[i])@.len() == word_len && wf_word(
                    answers@[i]@,
                ),
        ensures
            r.wf(),
            r@.word_len == word_len,
            r@.guesses == dedup_first(words_view(guesses@) + words_view(answers@)),
            r@.answers == words_view(answers@),
            r@.adversarial == adversarial,
            r@.cache.len() == 0,
            r@.hits == 0,
    {
        let ghost gv = words_view(guesses@);
        let ghost av = words_view(answers@);
        let mut combined = guesses;
        proof {
            assert(gv.len() == combined@.len());
            assert(forall|k: int| 0 <= k < gv.len() ==> gv[k] == (#[trigger] combined@[k])@);
        }
        let mut i: usize = 0;
        while i < answers.len()
            invariant
                i <= answers@.len(),
                av == words_view(answers@),
                av.len() == answers@.len(),
                forall|k: int| 0 <= k < av.len() ==> av[k] == (#[trigger] answers@[k])@,
                combined@.len() == gv.len() + i,
                forall|k: int| 0 <= k < gv.len() ==> (#[trigger] combined@[k])@ == gv[k],
                forall|k: int|
                    gv.len() <= k < combined@.len() ==> (#[trigger] combined@[k])@ == av[k
                        - gv.len()],
            decreases answers@.len() - i,
        {
            combined.push(copy_word(&answers[i]));
            i = i + 1;
        }
        proof {
            assert(words_view(combined@) =~= gv + av);
        }
        let deduped = unique_words(combined);
        let r = Bot {
            word_len,
            allowed_guesses: deduped,
            allowed_answers: answers,
            adversarial,
            cache: Vec::new(),
            num_cache_hit: 0,
        };
        proof {
            let all = gv + av;
            let m = r@;
            assert(cache_view(Seq::<(Vec<(Word, Score)>, Word)>::empty()) =~= Seq::<
                (Seq<(Seq<char>, Seq<u8>)>, Seq<char>),
            >::empty());
            assert(r.cache@ =~= Seq::<(Vec<(Word, Score)>, Word)>::empty());
            assert forall|k: int|
                0 <= k < m.guesses.len() implies (#[trigger] m.guesses[k]).len() == m.word_len
                && wf_word(m.guesses[k]) by {
                assert(m.guesses.contains(m.guesses[k]));
                lemma_dedup_contains(all, m.guesses[k]);
                let k2 = choose|k2: int| 0 <= k2 < all.len() && all[k2] == m.guesses[k];
                if k2 < gv.len() {
                    assert(all[k2] == gv[k2]);
                    assert(gv[k2] == guesses@[k2]@);
                } else {
                    assert(all[k2] == av[k2 - gv.len()]);
                    assert(av[k2 - gv.len()] == answers@[k2 - gv.len()]@);
                }
            }
            assert forall|k: int| 0 <= k < m.answers.len() implies m.guesses.contains(
                #[trigger] m.answers[k],
            ) by {
                assert(all[gv.len() + k] == av[k]);
                assert(all.contains(av[k]));
                lemma_dedup_contains(all, av[k]);
                assert(m.answers[k] == answers@[k]@);
            }
            assert forall|k: int|
                0 <= k < m.answers.len() implies (#[trigger] m.answers[k]).len() == m.word_len
                && wf_word(m.answers[k]) by {
                assert(m.answers[k] == answers@[k]@);
            }
        }
        r
    }

    /// The next guess for this clue history: the memoized result if the
    /// same history was asked before, otherwise the best-ranked candidate,
    /// memoized before it is returned. Nothing is returned exactly when the
    /// clue history is contradictory, i.e. no answer is plausible.
    pub fn choice(&mut self, clues: &Vec<(Word, Score)>) -> (r: Option<Word>)
        requires
            old(self).wf(),
            old(self)@.hits < 0xffff_ffff_ffff_ffff,
            forall|i: int|
                0 <= i < clues@.len() ==> wf_clue(
                    (#[trigger] clues@[i]).0@,
                    clues@[i].1@,
                    old(self)@.word_len,
                ),
        ensures
            final(self).wf(),
            choice_post(old(self)@, final(self)@, clues_view(clues@), opt_word_view(r)),
            match r {
                Option::Some(w) => w@.len() == old(self)@.word_len && wf_word(w@),
                Option::None => true,
            },
    {
        let ghost pre = self@;
        let ghost cv = clues_view(clues@);
        proof {
            lemma_cache_lookup(pre.cache, cv);
        }
        // memoized lookup by clue-history value
        let mut ci: usize = 0;
        while ci < self.cache.len()
            invariant
                self == old(self),
                self.wf(),
                pre == self@,
                pre.hits < 0xffff_ffff_ffff_ffff,
                cv == clues_view(clues@),
                ci <= self@.cache.len(),
                forall|i: int| 0 <= i < ci ==> (#[trigger] self@.cache[i]).0 != cv,
            decreases self@.cache.len() - ci,
        {
            if clue_lists_equal(&self.cache[ci].0, clues) {
                let w = copy_word(&self.cache[ci].1);
                self.num_cache_hit = self.num_cache_hit + 1;
                proof {
                    lemma_cache_lookup(pre.cache, cv);
                    if cache_lookup(pre.cache, cv) is None {
                        assert(pre.cache[ci as int].0 != cv);
                    }
                    let i0 = choose|i: int|
                        {
                            &&& 0 <= i < pre.cache.len()
                            &&& (#[trigger] pre.cache[i]).0 == cv
                            &&& cache_lookup(pre.cache, cv) == Option::Some(pre.cache[i].1)
                            &&& forall|i2: int| 0 <= i2 < i ==> (#[trigger] pre.cache[i2]).0 != cv
                        };
                    assert(i0 == ci) by {
                        if i0 < ci {
                            assert(pre.cache[i0].0 != cv);
                        } else if i0 > ci {
                            assert(pre.cache[ci as int].0 != cv);
                        }
                    }
                    assert(self@.guesses == pre.guesses);
                    assert(self@.answers == pre.answers);
                    assert(self@.cache == pre.cache);
                    assert(self@.word_len == pre.word_len);
                    assert(self@.hits == pre.hits + 1);
                    assert(self.wf());
                }
                return Option::Some(w);
            }
            ci = ci + 1;
        }
        proof {
            if cache_lookup(pre.cache, cv) is Some {
                let i0 = choose|i: int|
                    {
                        &&& 0 <= i < pre.cache.len()
                        &&& (#[trigger] pre.cache[i]).0 == cv
                        &&& cache_lookup(pre.cache, cv) == Option::Some(pre.cache[i].1)
                        &&& forall|i2: int| 0 <= i2 < i ==> (#[trigger] pre.cache[i2]).0 != cv
                    };
                assert(pre.cache[i0].0 != cv);
            }
        }
        // narrow the answers with the constraint the clues induce
        let constraint = Constraint::from_clues(self.word_len, clues);
        let ghost cm = from_clues_model(pre.word_len, cv);
        let mut plausible: Vec<Word> = Vec::new();
        let mut i: usize = 0;
        while i < self.allowed_answers.len()
            invariant
                self == old(self),
                self.wf(),
                pre == self@,
                cv == clues_view(clues@),
                constraint.wf(),
                constraint@ == cm,
                cm == from_clues_model(pre.word_len, cv),
                i <= pre.answers.len(),
                pre.answers.len() == self.allowed_answers@.len(),
                forall|k: int|
                    0 <= k < pre.answers.len() ==> pre.answers[k] == (
                    #[trigger] self.allowed_answers@[k])@,
                words_view(plausible@) == plausible_of(pre.answers.take(i as int), cm),
                plausible@.len() <= i,
                forall|k: int|
                    0 <= k < plausible@.len() ==> (#[trigger] plausible@[k])@.len() == pre.word_len
                        && wf_word(plausible@[k]@),
            decreases self.allowed_answers@.len() - i,
        {
            proof {
                assert(pre.answers.take(i + 1).drop_last() =~= pre.answers.take(i as int));
                assert(pre.answers.take(i + 1).last() == pre.answers[i as int]);
            }
            if constraint.permits(&self.allowed_answers[i]) {
                plausible.push(copy_word(&self.allowed_answers[i]));
                proof {
                    assert(words_view(plausible@) =~= plausible_of(
                        pre.answers.take(i + 1),
                        cm,
                    ));
                }
            }
            i = i + 1;
        }
        proof {
            assert(pre.answers.take(pre.answers.len() as int) =~= pre.answers);
        }
        let ghost pl = plausible_of(pre.answers, cm);
        if plausible.len() == 0 {
            return Option::None;
        }
        // pick the ranked candidates
        let mut candidates: Vec<Word> = Vec::new();
        if plausible.len() <= 3 {
            let mut k: usize = 0;
            while k < plausible.len()
                invariant
                    k <= plausible@.len(),
                    candidates@.len() == k,
                    forall|x: int|
                        0 <= x < k ==> (#[trigger] candidates@[x])@ == plausible@[x]@,
                decreases plausible@.len() - k,
            {
                candidates.push(copy_word(&plausible[k]));
                k = k + 1;
            }
            proof {
                assert(words_view(candidates@) =~= words_view(plausible@));
            }
        } else {
            let mut k: usize = 0;
            while k < self.allowed_guesses.len()
                invariant
                    self == old(self),
                    pre == self@,
                    k <= self.allowed_guesses@.len(),
                    candidates@.len() == k,
                    forall|x: int|
                        0 <= x < k ==> (#[trigger] candidates@[x])@ == self.allowed_guesses@[x]@,
                decreases self.allowed_guesses@.len() - k,
            {
                candidates.push(copy_word(&self.allowed_guesses[k]));
                k = k + 1;
            }
            proof {
                assert(words_view(candidates@) =~= words_view(self.allowed_guesses@));
            }
        }
        let ghost cands = candidates_of(pre.guesses, pl);
        proof {
            assert(words_view(candidates@) == cands);
            lemma_plausible_of(pre.answers, cm);
            assert(candidates@.len() >= 1) by {
                if pl.len() > 3 {
                    assert(pre.answers.contains(pl[0]));
                    let a0 = choose|x: int|
                        0 <= x < pre.answers.len() && pre.answers[x] == pl[0];
                    assert(pre.guesses.contains(pre.answers[a0]));
                }
            }
            assert forall|x: int|
                0 <= x < candidates@.len() implies (#[trigger] candidates@[x])@.len()
                == pre.word_len && wf_word(candidates@[x]@) by {
                if pl.len() > 3 {
                    assert(candidates@[x]@ == pre.guesses[x]);
                } else {
                    assert(words_view(plausible@)[x] == plausible@[x]@);
                }
            }
            assert forall|x: int, y: int|
                0 <= x < candidates@.len() && 0 <= y < plausible@.len() implies (
            #[trigger] plausible@[y])@.len() == (#[trigger] candidates@[x])@.len() by {}
        }
        let metrics = par_metrics(&candidates, &plausible, self.adversarial);
        // deterministic reduction: keep the last candidate with a maximal key
        let mut best: usize = 0;
        let mut best_in_pl = in_list(&plausible, &candidates[0]);
        let mut k: usize = 1;
        while k < candidates.len()
            invariant
                self == old(self),
                pre == self@,
                cv == clues_view(clues@),
                pl == plausible_of(pre.answers, cm),
                cm == from_clues_model(pre.word_len, cv),
                cands == candidates_of(pre.guesses, pl),
                words_view(candidates@) == cands,
                words_view(plausible@) == pl,
                metrics@.len() == candidates@.len(),
                forall|x: int|
                    0 <= x < metrics@.len() ==> (#[trigger] metrics@[x]) as int == eval_spec(
                        candidates@[x]@,
                        pl,
                        pre.adversarial,
                    ),
                1 <= k <= candidates@.len(),
                best < k,
                best_in_pl == pl.contains(candidates@[best as int]@),
                forall|x: int|
                    0 <= x < k ==> key_le(
                        guess_key(#[trigger] cands[x], pl, pre.adversarial),
                        guess_key(candidates@[best as int]@, pl, pre.adversarial),
                    ),
            decreases candidates@.len() - k,
        {
            let cur_in_pl = in_list(&plausible, &candidates[k]);
            let take = key_ge(
                metrics[k],
                cur_in_pl,
                &candidates[k],
                metrics[best],
                best_in_pl,
                &candidates[best],
            );
            proof {
                let kb = guess_key(candidates@[best as int]@, pl, pre.adversarial);
                let kc = guess_key(candidates@[k as int]@, pl, pre.adversarial);
                lemma_key_le_total(kc, kb);
                if take {
                    assert forall|x: int|
                        0 <= x < k + 1 implies key_le(
                        guess_key(#[trigger] cands[x], pl, pre.adversarial),
                        kc,
                    ) by {
                        if x < k {
                            lemma_key_le_trans(
                                guess_key(cands[x], pl, pre.adversarial),
                                kb,
                                kc,
                            );
                        } else {
                            lemma_key_le_total(kc, kc);
                        }
                    }
                }
            }
            if take {
                best = k;
                best_in_pl = cur_in_pl;
            }
            k = k + 1;
        }
        // memoize and return
        let chosen = copy_word(&candidates[best]);
        let key = copy_clues(clues);
        let chosen_again = copy_word(&chosen);
        self.cache.push((key, chosen_again));
        proof {
            assert(cache_view(self.cache@) =~= pre.cache.push((cv, chosen@)));
            assert(cands.contains(chosen@)) by {
                assert(cands[best as int] == chosen@);
            }
            assert(is_best(pre.guesses, pl, pre.adversarial, chosen@));
            assert forall|i2: int|
                0 <= i2 < self@.cache.len() implies (#[trigger] self@.cache[i2]).1.len()
                == pre.word_len && wf_word(self@.cache[i2].1) by {
                if i2 < pre.cache.len() {
                    assert(self@.cache[i2] == pre.cache[i2]);
                }
            }
        }
        Option::Some(chosen)
    }
}

/// Are the two clue histories the same words with the same scores?
fn clue_lists_equal(a: &Vec<(Word, Score)>, b: &Vec<(Word, Score)>) -> (r: bool)
    ensures
        r == (clues_view(a@) == clues_view(b@)),
{
    if a.len() != b.len() {
        proof {
            assert(clues_view(a@).len() != clues_view(b@).len());
        }
        return false;
    }
    let mut i: usize = 0;
    while i < a.len()
        invariant
            i <= a@.len(),
            a@.len() == b@.len(),
            forall|k: int|
                0 <= k < i ==> (#[trigger] a@[k]).0@ == b@[k].0@ && a@[k].1@ == b@[k].1@,
        decreases a@.len() - i,
    {
        let wa = &a[i].0;
        let wb = &b[i].0;
        if !words_equal(wa, wb) {
            proof {
                assert(clues_view(a@)[i as int].0 != clues_view(b@)[i as int].0);
            }
            return false;
        }
        let sa = &a[i].1;
        let sb = &b[i].1;
        if !scores_equal(sa, sb) {
            proof {
                assert(clues_view(a@)[i as int].1 != clues_view(b@)[i as int].1);
            }
            return false;
        }
        i = i + 1;
    }
    proof {
        assert(clues_view(a@) =~= clues_view(b@));
    }
    true
}

/// Is `w` one of `words`?
fn in_list(words: &Vec<Word>, w: &Word) -> (r: bool)
    ensures
        r == words_view(words@).contains(w@),
{
    let mut i: usize = 0;
    while i < words.len()
        invariant
            i <= words@.len(),
            forall|k: int| 0 <= k < i ==> (#[trigger] words@[k])@ != w@,
        decreases words@.len() - i,
    {
        if words_equal(&words[i], w) {
            proof {
                assert(words_view(words@)[i as int] == w@);
            }
            return true;
        }
        i = i + 1;
    }
    proof {
        if words_view(words@).contains(w@) {
            let k = choose|k: int|
                0 <= k < words_view(words@).len() && words_view(words@)[k] == w@;
            assert(words@[k]@ != w@);
        }
    }
    false
}

/// Does candidate `a` rank at least as high as candidate `b`?
fn key_ge(info_a: u64, in_pl_a: bool, wa: &Word, info_b: u64, in_pl_b: bool, wb: &Word) -> (r:
    bool)
    ensures
        r == key_le((info_b as int, in_pl_b, wb@), (info_a as int, in_pl_a, wa@)),
{
    if info_a != info_b {
        return info_a > info_b;
    }
    if in_pl_a != in_pl_b {
        return in_pl_a;
    }
    let lt = word_less(wa, wb);
    proof {
        if lt {
            crate::word::lemma_word_lt_asym(wa@, wb@);
        } else {
            crate::word::lemma_word_lt_total(wa@, wb@);
        }
    }
    !lt
}

/// A fresh clue list with the same words and scores.
fn copy_clues(clues: &Vec<(Word, Score)>) -> (r: Vec<(Word, Score)>)
    ensures
        clues_view(r@) == clues_view(clues@),
{
    let mut r: Vec<(Word, Score)> = Vec::new();
    let mut i: usize = 0;
    while i < clues.len()
        invariant
            i <= clues@.len(),
            r@.len() == i,
            forall|k: int|
                0 <= k < i ==> (#[trigger] r@[k]).0@ == clues@[k].0@ && r@[k].1@ == clues@[k].1@,
        decreases clues@.len() - i,
    {
        let w = copy_word(&clues[i].0);
        let s = copy_score(&clues[i].1);
        r.push((w, s));
        i = i + 1;
    }
    proof {
        assert(clues_view(r@) =~= clues_view(clues@));
    }
    r
}

/// Relies on itertools' `unique` adapter: it yields the input's distinct
/// words in input order, keeping the first occurrence of each.
#[verifier::external_body]
fn unique_words(words: Vec<Word>) -> (r: Vec<Word>)
    ensures
        words_view(r@) == dedup_first(words_view(words@)),
{
    words.into_iter().unique().collect()
}

/// Relies on rayon's indexed parallel iterator and its order-preserving
/// collect: the result holds the metric of each candidate, in order. The
/// closure only calls this crate's `evaluate_guess`.
#[verifier::external_body]
fn par_metrics(candidates: &Vec<Word>, plausible: &Vec<Word>, adversarial: bool) -> (r: Vec<u64>)
    requires
        1 <= plausible@.len() <= MAX_TOTAL,
        forall|x: int, y: int|
            0 <= x < candidates@.len() && 0 <= y < plausible@.len() ==> (
            #[trigger] plausible@[y])@.len() == (#[trigger] candidates@[x])@.len(),
    ensures
        r@.len() == candidates@.len(),
        forall|x: int|
            0 <= x < r@.len() ==> (#[trigger] r@[x]) as int == eval_spec(
                candidates@[x]@,
                words_view(plausible@),
                adversarial,
            ),
{
    candidates.par_iter().map(|g| evaluate_guess(g, plausible, adversarial)).collect()
}

} // verus!
