//! Self-play: drive the bot against a known answer until it wins.
//!
//! `play` repeatedly asks the bot for a guess, scores it against the hidden
//! answer, and appends the clue, stopping when the guess is the answer. The
//! number of rounds is bounded; running out of rounds is reported as an
//! engine defect rather than looping on. `histogram` plays every answer of
//! a vocabulary and tallies how many guesses each one needed.

use vstd::prelude::*;

use crate::bot::{choice_post, lemma_answer_stays_plausible, plausible_of, Bot, BotModel};
use crate::constraint::from_clues_model;
use crate::scorer::{all_exact, lemma_score_self, lemma_score_wf, score, score_spec};
use crate::word::{clues_view, copy_word, wf_word, words_equal, Score, Word};

verus! {

/// The bot state after answering one query `cv` with the word `w`: a hit
/// bumps the counter, a miss memoizes the answer.
pub open spec fn bot_step(
    b: BotModel,
    cv: Seq<(Seq<char>, Seq<u8>)>,
    w: Seq<char>,
) -> BotModel {
    match crate::bot::cache_lookup(b.cache, cv) {
        Option::Some(cached) => BotModel {
            word_len: b.word_len,
            guesses: b.guesses,
            answers: b.answers,
            adversarial: b.adversarial,
            cache: b.cache,
            hits: b.hits + 1,
        },
        Option::None => BotModel {
            word_len: b.word_len,
            guesses: b.guesses,
            answers: b.answers,
            adversarial: b.adversarial,
            cache: b.cache.push((cv, w)),
            hits: b.hits,
        },
    }
}

/// The bot state after it has answered every prefix of the history `h` in
/// turn.
pub open spec fn bots_after(b0: BotModel, h: Seq<(Seq<char>, Seq<u8>)>) -> BotModel
    decreases h.len(),
{
    if h.len() == 0 {
        b0
    } else {
        bot_step(bots_after(b0, h.drop_last()), h.drop_last(), h.last().0)
    }
}

/// The bot itself produced the history `h`, round by round: each guess is
/// the bot's choice for the clues before it (`choice_post` pins it as the
/// memoized or best-ranked word), each score is the honest score of that
/// guess against `a`, and the bot states thread through accordingly.
pub open spec fn play_trace(
    b0: BotModel,
    bend: BotModel,
    h: Seq<(Seq<char>, Seq<u8>)>,
    a: Seq<char>,
) -> bool {
    &&& bend == bots_after(b0, h)
    &&& forall|i: int|
        0 <= i < h.len() ==> choice_post(
            bots_after(b0, h.take(i)),
            bots_after(b0, h.take(i + 1)),
            h.take(i),
            Option::Some((#[trigger] h[i]).0),
        ) && h[i].1 == score_spec(h[i].0, a)
}

/// Why a self-play run stopped without solving the answer.
#[derive(Debug, PartialEq, Eq, Structural)]
pub enum SolveError {
    /// The bot found no plausible answer: the clue history contradicts
    /// every word in the vocabulary.
    Contradiction,
    /// The round bound was reached before the answer was guessed.
    OutOfRounds,
}

/// Play one game: query, score, repeat until the guess is the answer.
///
/// A returned history is the bot's own trace: round by round, each guess
/// is the bot's choice for the clues before it, honestly scored; the last
/// clue is the answer with the all-`EXACT` score, and no earlier guess was
/// the answer. A vocabulary answer can never end in `Contradiction`, and
/// `OutOfRounds` means the bot really played the whole bound without
/// winning.
#[verifier::rlimit(60)]
#[verifier::spinoff_prover]
pub fn play(bot: &mut Bot, answer: &Word, max_rounds: usize) -> (r: Result<
    Vec<(Word, Score)>,
    SolveError,
>)
    requires
        old(bot).wf(),
        wf_word(answer@),
        answer@.len() == old(bot)@.word_len,
        old(bot)@.hits + max_rounds < 0xffff_ffff_ffff_ffff,
    ensures
        final(bot).wf(),
        final(bot)@.word_len == old(bot)@.word_len,
        final(bot)@.guesses == old(bot)@.guesses,
        final(bot)@.answers == old(bot)@.answers,
        final(bot)@.adversarial == old(bot)@.adversarial,
        final(bot)@.hits <= old(bot)@.hits + max_rounds,
        match r {
            Result::Ok(h) => {
                &&& 1 <= h@.len() <= max_rounds
                &&& play_trace(old(bot)@, final(bot)@, clues_view(h@), answer@)
                &&& forall|i: int|
                    0 <= i < h@.len() ==> (#[trigger] h@[i]).1@ == score_spec(h@[i].0@, answer@)
                        && h@[i].0@.len() == answer@.len() && wf_word(h@[i].0@)
                &&& h@[h@.len() - 1].0@ == answer@
                &&& h@[h@.len() - 1].1@ == all_exact(answer@.len())
                &&& forall|i: int| 0 <= i < h@.len() - 1 ==> (#[trigger] h@[i]).0@ != answer@
            },
            Result::Err(e) => match e {
                SolveError::Contradiction => {
                    &&& !old(bot)@.answers.contains(answer@)
                    &&& exists|h: Seq<(Seq<char>, Seq<u8>)>|
                        {
                            &&& #[trigger] play_trace(old(bot)@, final(bot)@, h, answer@)
                            &&& h.len() < max_rounds
                            &&& plausible_of(
                                old(bot)@.answers,
                                from_clues_model(old(bot)@.word_len, h),
                            ).len() == 0
                        }
                },
                SolveError::OutOfRounds => exists|h: Seq<(Seq<char>, Seq<u8>)>|
                    {
                        &&& #[trigger] play_trace(old(bot)@, final(bot)@, h, answer@)
                        &&& h.len() == max_rounds
                        &&& forall|i: int| 0 <= i < h.len() ==> (#[trigger] h[i]).0 != answer@
                    },
            },
        },
{
    let ghost pre = old(bot)@;
    let mut clues: Vec<(Word, Score)> = Vec::new();
    proof {
        assert(clues_view(clues@) =~= Seq::<(Seq<char>, Seq<u8>)>::empty());
    }
    let mut round: usize = 0;
    while round < max_rounds
        invariant
            bot.wf(),
            bot@.word_len == pre.word_len,
            bot@.guesses == pre.guesses,
            bot@.answers == pre.answers,
            bot@.adversarial == pre.adversarial,
            bot@.hits <= pre.hits + round,
            pre.hits + max_rounds < 0xffff_ffff_ffff_ffff,
            pre == old(bot)@,
            wf_word(answer@),
            answer@.len() == pre.word_len,
            round <= max_rounds,
            clues@.len() == round,
            play_trace(pre, bot@, clues_view(clues@), answer@),
            forall|i: int|
                0 <= i < clues@.len() ==> (#[trigger] clues@[i]).1@ == score_spec(
                    clues@[i].0@,
                    answer@,
                ) && clues@[i].0@.len() == answer@.len() && wf_word(clues@[i].0@),
            forall|i: int| 0 <= i < clues@.len() ==> (#[trigger] clues@[i]).0@ != answer@,
        decreases max_rounds - round,
    {
        let ghost bmid = bot@;
        let ghost cv = clues_view(clues@);
        proof {
            assert forall|i: int|
                0 <= i < clues@.len() implies crate::constraint::wf_clue(
                (#[trigger] clues@[i]).0@,
                clues@[i].1@,
                bot@.word_len,
            ) by {
                lemma_score_wf(clues@[i].0@, answer@);
            }
        }
        match bot.choice(&clues) {
            Option::None => {
                proof {
                    // choice failed, so no answer is plausible under these
                    // clues; a vocabulary answer would still be plausible
                    assert(choice_post(bmid, bot@, cv, Option::<Seq<char>>::None));
                    let pl = plausible_of(pre.answers, from_clues_model(pre.word_len, cv));
                    assert(pl.len() == 0);
                    if pre.answers.contains(answer@) {
                        assert(crate::laws::self_scored(cv, answer@)) by {
                            assert forall|i: int|
                                0 <= i < cv.len() implies wf_word((#[trigger] cv[i]).0)
                                && cv[i].0.len() == answer@.len() && cv[i].1 == score_spec(
                                cv[i].0,
                                answer@,
                            ) by {
                                assert(cv[i] == (clues@[i].0@, clues@[i].1@));
                            }
                        }
                        lemma_answer_stays_plausible(
                            pre.answers,
                            pre.word_len,
                            cv,
                            answer@,
                        );
                        assert(false);
                    }
                    assert(bot@ == bmid);
                    assert(play_trace(pre, bot@, cv, answer@));
                    assert(cv.len() < max_rounds);
                }
                return Result::Err(SolveError::Contradiction);
            },
            Option::Some(g) => {
                let sc = score(&g, answer);
                let won = words_equal(&g, answer);
                proof {
                    lemma_score_wf(g@, answer@);
                }
                clues.push((g, sc));
                proof {
                    let cv2 = clues_view(clues@);
                    assert(cv2.drop_last() =~= cv);
                    assert(cv2.last() == (clues@[clues@.len() - 1].0@, clues@[clues@.len()
                        - 1].1@));
                    assert(choice_post(bmid, bot@, cv, Option::Some(cv2.last().0)));
                    assert(bot@ == bot_step(bmid, cv, cv2.last().0)) by {
                        match crate::bot::cache_lookup(bmid.cache, cv) {
                            Option::Some(cached) => {},
                            Option::None => {},
                        }
                    }
                    assert(bots_after(pre, cv2.drop_last()) == bmid);
                    assert(bot@ == bots_after(pre, cv2));
                    assert forall|i: int|
                        0 <= i < cv2.len() implies choice_post(
                        bots_after(pre, cv2.take(i)),
                        bots_after(pre, cv2.take(i + 1)),
                        cv2.take(i),
                        Option::Some((#[trigger] cv2[i]).0),
                    ) && cv2[i].1 == score_spec(cv2[i].0, answer@) by {
                        if i < cv2.len() - 1 {
                            assert(cv2[i] == cv[i]);
                            assert(cv[i].0 == cv2[i].0);
                            assert(cv2.take(i) =~= cv.take(i));
                            assert(cv2.take(i + 1) =~= cv.take(i + 1));
                        } else {
                            assert(cv2.take(i) =~= cv);
                            assert(cv2.take(i + 1) =~= cv2);
                        }
                    }
                    assert(play_trace(pre, bot@, cv2, answer@));
                }
                if won {
                    proof {
                        lemma_score_self(answer@);
                        assert(clues@[clues@.len() - 1].0@ == answer@);
                    }
                    return Result::Ok(clues);
                }
            },
        }
        round = round + 1;
    }
    proof {
        let cv = clues_view(clues@);
        assert(play_trace(pre, bot@, cv, answer@));
        assert(cv.len() == max_rounds);
        assert forall|i: int| 0 <= i < cv.len() implies (#[trigger] cv[i]).0 != answer@ by {
            assert(cv[i] == (clues@[i].0@, clues@[i].1@));
        }
    }
    Result::Err(SolveError::OutOfRounds)
}

/// The bot state after playing a whole sequence of games, each leaving
/// its own clue history.
pub open spec fn bots_after_games(b0: BotModel, hs: Seq<Seq<(Seq<char>, Seq<u8>)>>) -> BotModel
    decreases hs.len(),
{
    if hs.len() == 0 {
        b0
    } else {
        bots_after(bots_after_games(b0, hs.drop_last()), hs.last())
    }
}

/// The bot itself played one full winning game per answer, in order:
/// `hs[i]` is the clue history of the game for `answers[i]`, produced
/// round by round by the bot's own choices, ending when the answer was
/// guessed.
pub open spec fn games_trace(
    b0: BotModel,
    bend: BotModel,
    answers: Seq<Seq<char>>,
    hs: Seq<Seq<(Seq<char>, Seq<u8>)>>,
) -> bool {
    &&& hs.len() == answers.len()
    &&& bend == bots_after_games(b0, hs)
    &&& forall|i: int|
        0 <= i < answers.len() ==> {
            let hi = #[trigger] hs[i];
            &&& play_trace(
                bots_after_games(b0, hs.take(i)),
                bots_after_games(b0, hs.take(i + 1)),
                hi,
                answers[i],
            )
            &&& hi.len() >= 1
            &&& hi[hi.len() - 1].0 == answers[i]
            &&& forall|k: int| 0 <= k < hi.len() - 1 ==> (#[trigger] hi[k]).0 != answers[i]
        }
}

/// How many of the game histories took exactly `k` rounds.
pub open spec fn count_hist(hs: Seq<Seq<(Seq<char>, Seq<u8>)>>, k: usize) -> nat
    decreases hs.len(),
{
    if hs.len() == 0 {
        0
    } else {
        count_hist(hs.drop_last(), k) + if hs.last().len() == k {
            1nat
        } else {
            0nat
        }
    }
}

/// Sum of the tallies in a histogram.
pub open spec fn hist_total(h: Seq<(usize, usize)>) -> nat
    decreases h.len(),
{
    if h.len() == 0 {
        0
    } else {
        hist_total(h.drop_last()) + h.last().1 as nat
    }
}

/// Raising one tally raises the total by the same amount.
proof fn lemma_hist_update(h: Seq<(usize, usize)>, j: int, v: (usize, usize))
    requires
        0 <= j < h.len(),
    ensures
        hist_total(h.update(j, v)) + h[j].1 == hist_total(h) + v.1,
    decreases h.len(),
{
    let t = h.update(j, v);
    if j == h.len() - 1 {
        assert(t.drop_last() =~= h.drop_last());
    } else {
        lemma_hist_update(h.drop_last(), j, v);
        assert(t.drop_last() =~= h.drop_last().update(j, v));
        assert(t.last() == h.last());
    }
}

/// Play every answer and tally how many guesses each one took.
///
/// On success the bot itself played one winning game per answer, in
/// order, and the histogram is exactly the tally of those games: each
/// entry's count is the number of answers whose game took that many
/// rounds, every occurring round count has its entry, keys are distinct
/// and within the bound, and the tallies sum to the number of answers.
/// An answer list drawn from the bot's vocabulary can never end in
/// `Contradiction`.
#[verifier::rlimit(100)]
#[verifier::spinoff_prover]
pub fn histogram(bot: &mut Bot, answers: &Vec<Word>, max_rounds: usize) -> (r: Result<
    Vec<(usize, usize)>,
    SolveError,
>)
    requires
        old(bot).wf(),
        forall|i: int|
            0 <= i < answers@.len() ==> wf_word((#[trigger] answers@[i])@) && answers@[i]@.len()
                == old(bot)@.word_len,
        old(bot)@.hits + answers@.len() * max_rounds < 0xffff_ffff_ffff_ffff,
    ensures
        final(bot).wf(),
        final(bot)@.word_len == old(bot)@.word_len,
        final(bot)@.guesses == old(bot)@.guesses,
        final(bot)@.answers == old(bot)@.answers,
        final(bot)@.adversarial == old(bot)@.adversarial,
        match r {
            Result::Ok(h) => {
                &&& hist_total(h@) == answers@.len()
                &&& forall|i: int, j: int|
                    0 <= i < h@.len() && 0 <= j < h@.len() && i != j ==> (#[trigger] h@[i]).0 != (
                    #[trigger] h@[j]).0
                &&& forall|i: int|
                    0 <= i < h@.len() ==> 1 <= (#[trigger] h@[i]).0 <= max_rounds && 1 <= h@[i].1
                        <= answers@.len()
                &&& exists|hs: Seq<Seq<(Seq<char>, Seq<u8>)>>|
                    {
                        &&& #[trigger] games_trace(
                            old(bot)@,
                            final(bot)@,
                            crate::metrics::words_view(answers@),
                            hs,
                        )
                        &&& forall|x: int|
                            0 <= x < h@.len() ==> ((#[trigger] h@[x]).1) as nat == count_hist(
                                hs,
                                h@[x].0,
                            )
                        &&& forall|k: usize|
                            count_hist(hs, k) >= 1 ==> exists|x: int|
                                0 <= x < h@.len() && (#[trigger] h@[x]).0 == k
                    }
            },
            Result::Err(e) => match e {
                SolveError::Contradiction => exists|i: int|
                    0 <= i < answers@.len() && !old(bot)@.answers.contains(
                        (#[trigger] answers@[i])@,
                    ),
                SolveError::OutOfRounds => exists|i: int, hs: Seq<Seq<(Seq<char>, Seq<u8>)>>, h: Seq<(Seq<char>, Seq<u8>)>|
                    {
                        &&& 0 <= i < answers@.len()
                        &&& #[trigger] games_trace(
                            old(bot)@,
                            bots_after_games(old(bot)@, hs),
                            crate::metrics::words_view(answers@).take(i),
                            hs,
                        )
                        &&& #[trigger] play_trace(
                            bots_after_games(old(bot)@, hs),
                            final(bot)@,
                            h,
                            (answers@[i])@,
                        )
                        &&& h.len() == max_rounds
                        &&& forall|k: int| 0 <= k < h.len() ==> (#[trigger] h[k]).0 != (
                        answers@[i])@
                    },
            },
        },
{
    let ghost pre = old(bot)@;
    let ghost av = crate::metrics::words_view(answers@);
    let mut hist: Vec<(usize, usize)> = Vec::new();
    let ghost hs: Seq<Seq<(Seq<char>, Seq<u8>)>> = Seq::empty();
    let mut hs_tracker = Ghost(hs);
    let mut i: usize = 0;
    proof {
        assert(av.take(0) =~= Seq::<Seq<char>>::empty());
        assert(games_trace(pre, pre, av.take(0), hs_tracker@));
    }
    while i < answers.len()
        invariant
            bot.wf(),
            bot@.word_len == pre.word_len,
            bot@.guesses == pre.guesses,
            bot@.answers == pre.answers,
            bot@.adversarial == pre.adversarial,
            bot@.hits <= pre.hits + i * max_rounds,
            pre.hits + answers@.len() * max_rounds < 0xffff_ffff_ffff_ffff,
            pre == old(bot)@,
            av == crate::metrics::words_view(answers@),
            av.len() == answers@.len(),
            forall|k: int| 0 <= k < av.len() ==> av[k] == (#[trigger] answers@[k])@,
            forall|k: int|
                0 <= k < answers@.len() ==> wf_word((#[trigger] answers@[k])@)
                    && answers@[k]@.len() == pre.word_len,
            i <= answers@.len(),
            games_trace(pre, bot@, av.take(i as int), hs_tracker@),
            hs_tracker@.len() == i,
            hist_total(hist@) == i,
            forall|x: int, y: int|
                0 <= x < hist@.len() && 0 <= y < hist@.len() && x != y ==> (#[trigger] hist@[x]).0
                    != (#[trigger] hist@[y]).0,
            forall|x: int|
                0 <= x < hist@.len() ==> 1 <= (#[trigger] hist@[x]).0 <= max_rounds && 1
                    <= hist@[x].1 <= i,
            forall|x: int|
                0 <= x < hist@.len() ==> ((#[trigger] hist@[x]).1) as nat == count_hist(
                    hs_tracker@,
                    hist@[x].0,
                ),
            forall|k: usize|
                count_hist(hs_tracker@, k) >= 1 ==> exists|x: int|
                    0 <= x < hist@.len() && (#[trigger] hist@[x]).0 == k,
        decreases answers@.len() - i,
    {
        proof {
            assert(i * max_rounds + max_rounds == (i + 1) * max_rounds) by (nonlinear_arith);
            assert((i + 1) * max_rounds <= answers@.len() * max_rounds) by (nonlinear_arith)
                requires
                    i + 1 <= answers@.len(),
                    max_rounds >= 0,
            ;
        }
        let ghost bmid = bot@;
        let ghost hs0 = hs_tracker@;
        let a = copy_word(&answers[i]);
        let played = play(bot, &a, max_rounds);
        match played {
            Result::Err(e) => {
                proof {
                    assert(a@ == answers@[i as int]@);
                    if e == SolveError::Contradiction {
                        assert(!pre.answers.contains(a@));
                    } else {
                        let h = choose|h: Seq<(Seq<char>, Seq<u8>)>|
                            {
                                &&& #[trigger] play_trace(bmid, bot@, h, a@)
                                &&& h.len() == max_rounds
                                &&& forall|k: int| 0 <= k < h.len() ==> (#[trigger] h[k]).0 != a@
                            };
                        assert(games_trace(pre, bmid, av.take(i as int), hs0));
                        assert(bots_after_games(pre, hs0) == bmid);
                        assert(play_trace(bots_after_games(pre, hs0), bot@, h, answers@[i
                            as int]@));
                        assert(0 <= i < answers@.len() && games_trace(
                            pre,
                            bots_after_games(pre, hs0),
                            crate::metrics::words_view(answers@).take(i as int),
                            hs0,
                        ) && play_trace(
                            bots_after_games(pre, hs0),
                            bot@,
                            h,
                            (answers@[i as int])@,
                        ) && h.len() == max_rounds && (forall|k: int|
                            0 <= k < h.len() ==> (#[trigger] h[k]).0 != (answers@[i as int])@));
                    }
                }
                return Result::Err(e);
            },
            Result::Ok(cl) => {
                let rounds = cl.len();
                proof {
                    let cvh = clues_view(cl@);
                    hs_tracker@ = hs0.push(cvh);
                    let hs1 = hs_tracker@;
                    assert(hs1.drop_last() =~= hs0);
                    assert(bots_after_games(pre, hs1) == bots_after(
                        bots_after_games(pre, hs0),
                        cvh,
                    ));
                    assert(bots_after_games(pre, hs0) == bmid);
                    assert(bot@ == bots_after(bmid, cvh));
                    assert(cvh.len() == cl@.len());
                    assert(cvh[cvh.len() - 1] == (cl@[cl@.len() - 1].0@, cl@[cl@.len()
                        - 1].1@));
                    assert(cvh[cvh.len() - 1].0 == av[i as int]);
                    assert forall|k: int|
                        0 <= k < cvh.len() - 1 implies (#[trigger] cvh[k]).0 != av[i as int] by {
                        assert(cvh[k] == (cl@[k].0@, cl@[k].1@));
                    }
                    assert(games_trace(pre, bot@, av.take(i + 1), hs1)) by {
                        assert(av.take(i + 1).len() == i + 1);
                        assert(av.take(i + 1)[i as int] == av[i as int]);
                        assert forall|x: int|
                            0 <= x < av.take(i + 1).len() implies {
                            let hi = #[trigger] hs1[x];
                            &&& play_trace(
                                bots_after_games(pre, hs1.take(x)),
                                bots_after_games(pre, hs1.take(x + 1)),
                                hi,
                                av.take(i + 1)[x],
                            )
                            &&& hi.len() >= 1
                            &&& hi[hi.len() - 1].0 == av.take(i + 1)[x]
                            &&& forall|k: int|
                                0 <= k < hi.len() - 1 ==> (#[trigger] hi[k]).0 != av.take(
                                    i + 1,
                                )[x]
                        } by {
                            if x < i {
                                assert(hs1[x] == hs0[x]);
                                assert(hs1.take(x) =~= hs0.take(x));
                                assert(hs1.take(x + 1) =~= hs0.take(x + 1));
                                assert(av.take(i + 1)[x] == av.take(i as int)[x]);
                            } else {
                                assert(hs1[x] == cvh);
                                assert(hs1.take(x) =~= hs0);
                                assert(hs1.take(x + 1) =~= hs1);
                            }
                        }
                    }
                }
                // tally this round count
                let mut j: usize = 0;
                let mut found = false;
                while j < hist.len() && !found
                    invariant
                        j <= hist@.len(),
                        !found ==> forall|x: int| 0 <= x < j ==> (#[trigger] hist@[x]).0 != rounds,
                        found ==> j < hist@.len() && hist@[j as int].0 == rounds,
                    decreases hist@.len() - j + (if found {
                        0int
                    } else {
                        1int
                    }),
                {
                    if hist[j].0 == rounds {
                        found = true;
                    } else {
                        j = j + 1;
                    }
                }
                proof {
                    assert(hs_tracker@.drop_last() =~= hs0);
                    assert(hs_tracker@.last().len() == rounds);
                    assert forall|k: usize|
                        #[trigger] count_hist(hs_tracker@, k) == count_hist(hs0, k) + (if k
                            == rounds {
                            1nat
                        } else {
                            0nat
                        }) by {}
                }
                if found {
                    let ghost h0 = hist@;
                    let c = hist[j].1;
                    hist.set(j, (rounds, c + 1));
                    proof {
                        lemma_hist_update(h0, j as int, (rounds, (c + 1) as usize));
                        assert forall|x: int|
                            0 <= x < hist@.len() implies ((#[trigger] hist@[x]).1) as nat
                            == count_hist(hs_tracker@, hist@[x].0) by {
                            if x != j {
                                assert(hist@[x] == h0[x]);
                                assert(h0[x].0 != rounds);
                            }
                        }
                        assert forall|k: usize|
                            count_hist(hs_tracker@, k) >= 1 implies exists|x: int|
                            0 <= x < hist@.len() && (#[trigger] hist@[x]).0 == k by {
                            if k == rounds {
                                assert(hist@[j as int].0 == k);
                            } else {
                                assert(count_hist(hs0, k) >= 1);
                                let x0 = choose|x: int|
                                    0 <= x < h0.len() && (#[trigger] h0[x]).0 == k;
                                assert(hist@[x0].0 == k);
                            }
                        }
                    }
                } else {
                    let ghost h0 = hist@;
                    hist.push((rounds, 1));
                    proof {
                        assert(hist@.drop_last() =~= h0);
                        assert(count_hist(hs0, rounds) == 0) by {
                            if count_hist(hs0, rounds) >= 1 {
                                let x0 = choose|x: int|
                                    0 <= x < h0.len() && (#[trigger] h0[x]).0 == rounds;
                            }
                        }
                        assert forall|x: int|
                            0 <= x < hist@.len() implies ((#[trigger] hist@[x]).1) as nat
                            == count_hist(hs_tracker@, hist@[x].0) by {
                            if x < h0.len() {
                                assert(hist@[x] == h0[x]);
                                assert(h0[x].0 != rounds);
                            } else {
                                assert(hist@[x] == (rounds, 1usize));
                            }
                        }
                        assert forall|k: usize|
                            count_hist(hs_tracker@, k) >= 1 implies exists|x: int|
                            0 <= x < hist@.len() && (#[trigger] hist@[x]).0 == k by {
                            if k == rounds {
                                assert(hist@[hist@.len() - 1].0 == k);
                            } else {
                                assert(count_hist(hs0, k) >= 1);
                                let x0 = choose|x: int|
                                    0 <= x < h0.len() && (#[trigger] h0[x]).0 == k;
                                assert(hist@[x0].0 == k);
                            }
                        }
                    }
                }
            },
        }
        i = i + 1;
    }
    proof {
        assert(av.take(av.len() as int) =~= av);
        assert(games_trace(pre, bot@, av, hs_tracker@));
    }
    Result::Ok(hist)
}

} // verus!
