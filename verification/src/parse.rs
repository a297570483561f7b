//! Parsing clue text and word lists into the solver's types.
//!
//! A clue history is written as comma-separated `word:codes` tokens, each
//! code one of `1` (absent), `2` (present) or `3` (exact). A word list is
//! one word per line: the answers are the lines up to the first blank line,
//! the guesses are all non-blank lines. Malformed input is reported with
//! the index of the offending token or line, never silently coerced.

use vstd::prelude::*;

use crate::scorer::{first_index, lemma_first_index};
use crate::word::{is_letter, wf_word, Score, Word, ABSENT, EXACT};

verus! {

/// Malformed input, by the index of the token or line at fault.
#[derive(Debug, PartialEq, Eq, Structural)]
pub struct ParseError {
    /// Index of the first offending token or line.
    pub token: usize,
}

/// The comma-separated tokens of `s`, in order.
pub open spec fn split_commas(s: Seq<char>) -> Seq<Seq<char>>
    decreases s.len(),
{
    let j = first_index(s, ',');
    if j < 0 || s.len() <= j {
        seq![s]
    } else {
        seq![s.take(j)] + split_commas(s.skip(j + 1))
    }
}

/// Is `t` a well-formed `word:codes` token for word length `n`?
pub open spec fn is_clue_token(t: Seq<char>, n: nat) -> bool {
    &&& t.len() == 2 * n + 1
    &&& t[n as int] == ':'
    &&& forall|k: int| 0 <= k < n ==> is_letter(#[trigger] t[k])
    &&& forall|k: int| n < k < 2 * n + 1 ==> '1' <= #[trigger] t[k] <= '3'
}

/// The outcome code a digit character stands for.
pub open spec fn code_of(c: char) -> u8 {
    if c == '1' {
        1
    } else if c == '2' {
        2
    } else {
        3
    }
}

/// The clue a well-formed token denotes.
pub open spec fn token_clue(t: Seq<char>, n: nat) -> (Seq<char>, Seq<u8>) {
    (t.take(n as int), Seq::new(n, |i: int| code_of(t[n + 1 + i])))
}

/// Validate and convert one `word:codes` token spanning
/// `text[start..end]`.
#[verifier::rlimit(50)]
#[verifier::spinoff_prover]
fn parse_token(text: &Vec<char>, start: usize, end: usize, n: usize) -> (r: Option<(Word, Score)>)
    requires
        1 <= n <= 1000,
        start <= end <= text@.len(),
    ensures
        ({
            let tok = text@.subrange(start as int, end as int);
            match r {
                Option::Some(c) => {
                    &&& is_clue_token(tok, n as nat)
                    &&& (c.0@, c.1@) == token_clue(tok, n as nat)
                    &&& crate::constraint::wf_clue(c.0@, c.1@, n as nat)
                },
                Option::None => !is_clue_token(tok, n as nat),
            }
        }),
{
    let ghost tok = text@.subrange(start as int, end as int);
    if end - start != 2 * n + 1 {
        return Option::None;
    }
    if text[start + n] != ':' {
        proof {
            assert(tok[n as int] == text@[start + n]);
        }
        return Option::None;
    }
    let mut w: Vec<char> = Vec::new();
    let mut k: usize = 0;
    while k < n
        invariant
            n <= 1000,
            start + 2 * n + 1 == end,
            end <= text@.len(),
            tok == text@.subrange(start as int, end as int),
            k <= n,
            w@.len() == k,
            forall|x: int| 0 <= x < k ==> #[trigger] w@[x] == tok[x] && is_letter(tok[x]),
        decreases n - k,
    {
        let c = text[start + k];
        if !('a' <= c && c <= 'z') {
            proof {
                assert(tok[k as int] == text@[start + k]);
                assert(!is_letter(tok[k as int]));
            }
            return Option::None;
        }
        w.push(c);
        proof {
            assert(tok[k as int] == text@[start + k]);
            assert(w@[k as int] == tok[k as int]);
            assert(is_letter(tok[k as int]));
        }
        k = k + 1;
    }
    let mut sc: Vec<u8> = Vec::new();
    let mut k: usize = 0;
    while k < n
        invariant
            n <= 1000,
            start + 2 * n + 1 == end,
            end <= text@.len(),
            tok == text@.subrange(start as int, end as int),
            k <= n,
            sc@.len() == k,
            forall|x: int| 0 <= x < k ==> #[trigger] sc@[x] == code_of(tok[n + 1 + x]),
            forall|x: int| 0 <= x < k ==> '1' <= #[trigger] tok[n + 1 + x] <= '3',
        decreases n - k,
    {
        let c = text[start + n + 1 + k];
        if !('1' <= c && c <= '3') {
            proof {
                assert(tok[n + 1 + k] == text@[start + n + 1 + k]);
                assert(!('1' <= tok[n + 1 + k] && tok[n + 1 + k] <= '3'));
            }
            return Option::None;
        }
        let code: u8 = if c == '1' {
            1
        } else if c == '2' {
            2
        } else {
            3
        };
        sc.push(code);
        proof {
            assert(tok[n + 1 + k] == text@[start + n + 1 + k]);
            assert(sc@[k as int] == code_of(tok[n + 1 + k]));
            assert('1' <= tok[n + 1 + k] <= '3');
        }
        k = k + 1;
    }
    proof {
        assert forall|x: int| 0 <= x < n implies is_letter(#[trigger] tok[x]) by {
            assert(w@[x] == tok[x]);
        }
        assert forall|kk: int| n < kk < 2 * n + 1 implies '1' <= #[trigger] tok[kk] <= '3' by {
            assert('1' <= tok[n + 1 + (kk - n - 1)] <= '3');
        }
        assert(is_clue_token(tok, n as nat));
        assert(w@ =~= tok.take(n as int));
        assert(sc@ =~= Seq::new(n as nat, |i: int| code_of(tok[n + 1 + i])));
        assert(wf_word(w@));
        assert(crate::word::wf_score(sc@)) by {
            assert forall|x: int| 0 <= x < sc@.len() implies ABSENT <= #[trigger] sc@[x]
                <= EXACT by {
                assert('1' <= tok[n + 1 + x] <= '3');
            }
        }
    }
    Option::Some((w, sc))
}

/// Parse a comma-separated clue history. An empty text is the empty
/// history; otherwise every token must be a well-formed `word:codes` pair,
/// and the first malformed token is reported by index.
#[verifier::rlimit(50)]
#[verifier::spinoff_prover]
pub fn parse_clues(text: &Vec<char>, n: usize) -> (r: Result<Vec<(Word, Score)>, ParseError>)
    requires
        1 <= n <= 1000,
    ensures
        match r {
            Result::Ok(cs) => {
                &&& (text@.len() == 0 ==> cs@.len() == 0)
                &&& (text@.len() > 0 ==> {
                    let toks = split_commas(text@);
                    &&& cs@.len() == toks.len()
                    &&& forall|i: int|
                        0 <= i < toks.len() ==> is_clue_token(#[trigger] toks[i], n as nat)
                    &&& forall|i: int|
                        0 <= i < toks.len() ==> ((#[trigger] cs@[i]).0@, cs@[i].1@) == token_clue(
                            toks[i],
                            n as nat,
                        )
                    &&& forall|i: int|
                        0 <= i < cs@.len() ==> crate::constraint::wf_clue(
                            (#[trigger] cs@[i]).0@,
                            cs@[i].1@,
                            n as nat,
                        )
                })
            },
            Result::Err(e) => {
                let toks = split_commas(text@);
                &&& text@.len() > 0
                &&& e.token < toks.len()
                &&& !is_clue_token(toks[e.token as int], n as nat)
                &&& forall|x: int| 0 <= x < e.token ==> is_clue_token(#[trigger] toks[x], n as nat)
            },
        },
{
    let mut result: Vec<(Word, Score)> = Vec::new();
    if text.len() == 0 {
        return Result::Ok(result);
    }
    let ghost toks = split_commas(text@);
    proof {
        assert(text@.skip(0) =~= text@);
        assert(toks.take(0) =~= Seq::<Seq<char>>::empty());
        assert(toks == toks.take(0) + split_commas(text@.skip(0)));
    }
    let mut start: usize = 0;
    let mut done: usize = 0;
    loop
        invariant
            1 <= n <= 1000,
            text@.len() > 0,
            toks == split_commas(text@),
            start <= text@.len(),
            result@.len() == done,
            done < toks.len(),
            toks == toks.take(done as int) + split_commas(text@.skip(start as int)),
            forall|i: int| 0 <= i < done ==> is_clue_token(#[trigger] toks[i], n as nat),
            forall|i: int|
                0 <= i < done ==> ((#[trigger] result@[i]).0@, result@[i].1@) == token_clue(
                    toks[i],
                    n as nat,
                ),
            forall|i: int|
                0 <= i < done ==> crate::constraint::wf_clue(
                    (#[trigger] result@[i]).0@,
                    result@[i].1@,
                    n as nat,
                ),
        decreases text@.len() - start,
    {
        let ghost rest = text@.skip(start as int);
        // find the end of this token
        let mut end: usize = start;
        while end < text.len() && text[end] != ','
            invariant
                start <= end <= text@.len(),
                forall|k: int| start <= k < end ==> text@[k] != ',',
            decreases text@.len() - end,
        {
            end = end + 1;
        }
        let ghost jr = first_index(rest, ',');
        proof {
            lemma_first_index(rest, ',');
            if end < text@.len() {
                assert(text@[end as int] == ',');
                assert(rest[end - start] == ',');
                assert(jr != -1) by {
                    if jr == -1 {
                        assert(rest[end - start] != ',');
                    }
                }
                assert(jr == end - start) by {
                    if jr < end - start {
                        assert(rest[jr] == ',');
                        assert(text@[jr + start] != ',');
                    } else if jr > end - start {
                        assert(rest[end - start] != ',');
                    }
                }
                assert(split_commas(rest) == seq![rest.take(jr)] + split_commas(
                    rest.skip(jr + 1),
                ));
                assert(rest.take(jr) =~= text@.subrange(start as int, end as int));
            } else {
                assert(jr == -1) by {
                    if jr != -1 {
                        assert(rest[jr] == ',');
                        assert(text@[jr + start] != ',');
                    }
                }
                assert(split_commas(rest) == seq![rest]);
                assert(rest =~= text@.subrange(start as int, end as int));
            }
            assert(toks[done as int] == text@.subrange(start as int, end as int));
        }
        match parse_token(text, start, end, n) {
            Option::None => {
                return Result::Err(ParseError { token: done });
            },
            Option::Some(clue) => {
                result.push(clue);
            },
        }
        proof {
            assert(toks.take(done + 1).drop_last() =~= toks.take(done as int));
            if end < text@.len() {
                let jr2 = first_index(rest, ',');
                assert(split_commas(rest).drop_first() =~= split_commas(rest.skip(jr2 + 1)));
                assert(rest.skip(jr2 + 1) =~= text@.skip(end + 1));
                assert(toks =~= toks.take(done + 1) + split_commas(text@.skip(end + 1)));
            } else {
                assert(split_commas(rest).len() == 1);
                assert(done + 1 == toks.len());
                assert(toks =~= toks.take(done + 1));
            }
        }
        done = result.len();
        if end >= text.len() {
            return Result::Ok(result);
        }
        start = end + 1;
    }
}

/// Lines up to the first blank line: the answer region of a word list.
pub open spec fn answer_region(lines: Seq<Seq<char>>) -> Seq<Seq<char>>
    decreases lines.len(),
{
    if lines.len() == 0 || lines[0].len() == 0 {
        Seq::empty()
    } else {
        seq![lines[0]] + answer_region(lines.drop_first())
    }
}

/// All non-blank lines: the guess region of a word list.
pub open spec fn guess_region(lines: Seq<Seq<char>>) -> Seq<Seq<char>>
    decreases lines.len(),
{
    if lines.len() == 0 {
        Seq::empty()
    } else if lines[0].len() == 0 {
        guess_region(lines.drop_first())
    } else {
        seq![lines[0]] + guess_region(lines.drop_first())
    }
}

/// A run of non-blank lines can be peeled off the front of the answer
/// region.
proof fn lemma_answer_region_split(lv: Seq<Seq<char>>, i: int)
    requires
        0 <= i <= lv.len(),
        forall|k: int| 0 <= k < i ==> (#[trigger] lv[k]).len() != 0,
    ensures
        answer_region(lv) == lv.take(i) + answer_region(lv.skip(i)),
    decreases i,
{
    if i == 0 {
        assert(lv.skip(0) =~= lv);
        assert(lv.take(0) =~= Seq::<Seq<char>>::empty());
        assert(lv.take(0) + answer_region(lv) =~= answer_region(lv));
    } else {
        let dft = lv.drop_first();
        assert(lv[0].len() != 0);
        assert forall|k: int| 0 <= k < i - 1 implies (#[trigger] dft[k]).len() != 0 by {
            assert(dft[k] == lv[k + 1]);
        }
        lemma_answer_region_split(dft, i - 1);
        assert(lv.take(i) =~= seq![lv[0]] + dft.take(i - 1));
        assert(lv.skip(i) =~= dft.skip(i - 1));
        assert(seq![lv[0]] + (dft.take(i - 1) + answer_region(dft.skip(i - 1))) =~= (seq![lv[0]]
            + dft.take(i - 1)) + answer_region(dft.skip(i - 1)));
    }
}

/// Appending a line extends the guess region by that line, if non-blank.
proof fn lemma_guess_region_push(s: Seq<Seq<char>>, x: Seq<char>)
    ensures
        guess_region(s.push(x)) == guess_region(s) + (if x.len() == 0 {
            Seq::<Seq<char>>::empty()
        } else {
            seq![x]
        }),
    decreases s.len(),
{
    let tail: Seq<Seq<char>> = if x.len() == 0 {
        Seq::empty()
    } else {
        seq![x]
    };
    if s.len() == 0 {
        assert(s.push(x)[0] == x);
        assert(s.push(x).drop_first() =~= Seq::<Seq<char>>::empty());
        assert(guess_region(Seq::<Seq<char>>::empty()) == Seq::<Seq<char>>::empty());
        assert(guess_region(s) + tail =~= tail);
        if x.len() != 0 {
            assert(guess_region(s.push(x)) == seq![x] + guess_region(
                Seq::<Seq<char>>::empty(),
            ));
            assert(seq![x] + Seq::<Seq<char>>::empty() =~= seq![x]);
            assert(guess_region(s.push(x)) =~= seq![x]);
        } else {
            assert(guess_region(s.push(x)) == guess_region(Seq::<Seq<char>>::empty()));
        }
    } else {
        assert(s.push(x)[0] == s[0]);
        assert(s.push(x).drop_first() =~= s.drop_first().push(x));
        lemma_guess_region_push(s.drop_first(), x);
        if s[0].len() == 0 {
        } else {
            assert(seq![s[0]] + (guess_region(s.drop_first()) + tail) =~= (seq![s[0]]
                + guess_region(s.drop_first())) + tail);
        }
    }
}

/// Is this line a valid word of length `n`?
pub open spec fn is_word_line(l: Seq<char>, n: nat) -> bool {
    l.len() == n && wf_word(l)
}

/// The answer vocabulary of a word list: the lines up to the first blank
/// line, each validated as a word. The first invalid line in that region
/// is reported by index.
pub fn answers_from_lines(lines: &Vec<Word>, n: usize) -> (r: Result<Vec<Word>, ParseError>)
    requires
        1 <= n <= 1000,
    ensures
        ({
            let lv = crate::metrics::words_view(lines@);
            match r {
                Result::Ok(ws) => {
                    &&& crate::metrics::words_view(ws@) == answer_region(lv)
                    &&& forall|k: int|
                        0 <= k < ws@.len() ==> is_word_line((#[trigger] ws@[k])@, n as nat)
                },
                Result::Err(e) => {
                    &&& e.token < lv.len()
                    &&& (#[trigger] lv[e.token as int]).len() != 0
                    &&& !is_word_line(lv[e.token as int], n as nat)
                    &&& forall|k: int| 0 <= k < e.token ==> (#[trigger] lv[k]).len() != 0
                },
            }
        }),
{
    let ghost lv = crate::metrics::words_view(lines@);
    let mut ws: Vec<Word> = Vec::new();
    let mut i: usize = 0;
    while i < lines.len()
        invariant
            lv == crate::metrics::words_view(lines@),
            lv.len() == lines@.len(),
            forall|k: int| 0 <= k < lv.len() ==> lv[k] == (#[trigger] lines@[k])@,
            i <= lv.len(),
            ws@.len() == i,
            forall|k: int| 0 <= k < i ==> (#[trigger] lv[k]).len() != 0,
            forall|k: int| 0 <= k < i ==> (#[trigger] ws@[k])@ == lv[k],
            forall|k: int| 0 <= k < i ==> is_word_line((#[trigger] ws@[k])@, n as nat),
        decreases lv.len() - i,
    {
        if lines[i].len() == 0 {
            proof {
                lemma_answer_region_split(lv, i as int);
                assert(lv.skip(i as int)[0] == lv[i as int]);
                assert(answer_region(lv.skip(i as int)) =~= Seq::<Seq<char>>::empty());
                assert(answer_region(lv) =~= lv.take(i as int));
                assert(crate::metrics::words_view(ws@) =~= answer_region(lv));
            }
            return Result::Ok(ws);
        }
        match word_from_chars(&lines[i], n) {
            Result::Ok(w) => {
                ws.push(w);
            },
            Result::Err(_) => {
                return Result::Err(ParseError { token: i });
            },
        }
        i = i + 1;
    }
    proof {
        lemma_answer_region_split(lv, lv.len() as int);
        assert(lv.skip(lv.len() as int).len() == 0);
        assert(answer_region(lv.skip(lv.len() as int)) =~= Seq::<Seq<char>>::empty());
        assert(answer_region(lv) =~= lv.take(lv.len() as int));
        assert(lv.take(lv.len() as int) =~= lv);
        assert(crate::metrics::words_view(ws@) =~= answer_region(lv));
    }
    Result::Ok(ws)
}

/// The guess vocabulary of a word list: every non-blank line, each
/// validated as a word. The first invalid non-blank line is reported by
/// index.
pub fn guesses_from_lines(lines: &Vec<Word>, n: usize) -> (r: Result<Vec<Word>, ParseError>)
    requires
        1 <= n <= 1000,
    ensures
        ({
            let lv = crate::metrics::words_view(lines@);
            match r {
                Result::Ok(ws) => {
                    &&& crate::metrics::words_view(ws@) == guess_region(lv)
                    &&& forall|k: int|
                        0 <= k < ws@.len() ==> is_word_line((#[trigger] ws@[k])@, n as nat)
                },
                Result::Err(e) => {
                    &&& e.token < lv.len()
                    &&& (#[trigger] lv[e.token as int]).len() != 0
                    &&& !is_word_line(lv[e.token as int], n as nat)
                },
            }
        }),
{
    let ghost lv = crate::metrics::words_view(lines@);
    let mut ws: Vec<Word> = Vec::new();
    let mut i: usize = 0;
    proof {
        assert(lv.take(0) =~= Seq::<Seq<char>>::empty());
        assert(guess_region(lv.take(0)) =~= Seq::<Seq<char>>::empty());
        assert(crate::metrics::words_view(ws@) =~= guess_region(lv.take(0)));
    }
    while i < lines.len()
        invariant
            lv == crate::metrics::words_view(lines@),
            lv.len() == lines@.len(),
            forall|k: int| 0 <= k < lv.len() ==> lv[k] == (#[trigger] lines@[k])@,
            i <= lv.len(),
            crate::metrics::words_view(ws@) == guess_region(lv.take(i as int)),
            forall|k: int| 0 <= k < ws@.len() ==> is_word_line((#[trigger] ws@[k])@, n as nat),
        decreases lv.len() - i,
    {
        proof {
            assert(lv.take(i + 1) =~= lv.take(i as int).push(lv[i as int]));
            lemma_guess_region_push(lv.take(i as int), lv[i as int]);
        }
        if lines[i].len() == 0 {
            proof {
                assert(guess_region(lv.take(i + 1)) =~= guess_region(lv.take(i as int)));
            }
        } else {
            match word_from_chars(&lines[i], n) {
                Result::Ok(w) => {
                    ws.push(w);
                    proof {
                        assert(crate::metrics::words_view(ws@) =~= guess_region(lv.take(i + 1)));
                    }
                },
                Result::Err(_) => {
                    return Result::Err(ParseError { token: i });
                },
            }
        }
        i = i + 1;
    }
    proof {
        assert(lv.take(lv.len() as int) =~= lv);
    }
    Result::Ok(ws)
}

/// Validate one line as a word of length `n` over the alphabet.
#[verifier::rlimit(50)]
#[verifier::spinoff_prover]
pub fn word_from_chars(line: &Vec<char>, n: usize) -> (r: Result<Word, ParseError>)
    ensures
        match r {
            Result::Ok(w) => {
                &&& w@ == line@
                &&& w@.len() == n
                &&& wf_word(w@)
            },
            Result::Err(e) => !(line@.len() == n && wf_word(line@)),
        },
{
    if line.len() != n {
        return Result::Err(ParseError { token: 0 });
    }
    let mut w: Vec<char> = Vec::new();
    let mut k: usize = 0;
    while k < n
        invariant
            n == line@.len(),
            k <= n,
            w@.len() == k,
            forall|x: int| 0 <= x < k ==> #[trigger] w@[x] == line@[x] && is_letter(line@[x]),
        decreases n - k,
    {
        let c = line[k];
        if !('a' <= c && c <= 'z') {
            proof {
                assert(!is_letter(line@[k as int]));
            }
            return Result::Err(ParseError { token: 0 });
        }
        w.push(c);
        proof {
            assert(w@[k as int] == line@[k as int]);
            assert(is_letter(line@[k as int]));
        }
        k = k + 1;
    }
    proof {
        assert(w@ =~= line@);
        assert forall|x: int| 0 <= x < line@.len() implies is_letter(#[trigger] line@[x]) by {
            assert(w@[x] == line@[x]);
        }
    }
    Result::Ok(w)
}

} // verus!
