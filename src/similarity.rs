use vstd::arithmetic::power2::{lemma2_to64, lemma2_to64_rest, lemma_pow2_adds, lemma_pow2_pos, lemma_pow2_strictly_increases, lemma_pow2_unfold, pow2};
use vstd::prelude::*;

use crate::text::{is_whitespace, push_char, whitespace};


verus! {

/// Scores are fixed-point fractions of one million: `1_000_000` stands for
/// a similarity of 1.0.
pub const SCORE_ONE: u32 = 1_000_000;

/// Minimum whole-string score at which a match is accepted (0.6).
pub const WHOLE_MATCH_THRESHOLD: u32 = 600_000;

/// A query word counts as matched when its best score is above this (0.7).
pub const WORD_THRESHOLD: u32 = 700_000;

/// Minimum word-level score at which a partial match is accepted (0.7).
pub const PARTIAL_MATCH_THRESHOLD: u32 = 700_000;

/// The IEEE-754 binary64 encoding of `strsim::jaro_winkler(a, b)` for two
/// non-empty strings.
pub uninterp spec fn jaro_winkler_bits(a: Seq<char>, b: Seq<char>) -> u64;

/// Relies on `strsim::jaro_winkler`: it depends on the characters alone, is
/// exactly 1.0 when both strings are empty and exactly 0.0 when only one is.
/// The `f64` is handed back as its bit pattern.
#[verifier::external_body]
fn jaro_winkler_encoded(a: &str, b: &str) -> (r: u64)
    ensures
        r == (if a@.len() == 0 && b@.len() == 0 {
            0x3ff0_0000_0000_0000u64
        } else if a@.len() == 0 || b@.len() == 0 {
            0u64
        } else {
            jaro_winkler_bits(a@, b@)
        }),
{
    strsim::jaro_winkler(a, b).to_bits()
}

// ---------------------------------------------------------------------------
// From a binary64 encoding to millionths
// ---------------------------------------------------------------------------

/// The value encoded by `bits`, as a binary64 number, rounded to the nearest
/// millionth (halves up) and clamped to `[0, 1]`: negative values give 0,
/// values of one or more (and the non-finite encodings) give one.
#[verifier::opaque]
pub open spec fn millionths(bits: u64) -> nat {
    if bits >= 0x8000_0000_0000_0000u64 {
        0
    } else {
        let exponent = bits as nat / 0x10_0000_0000_0000nat;
        let fraction = bits as nat % 0x10_0000_0000_0000nat;
        if exponent >= 1023 {
            1_000_000
        } else {
            let significand: nat = if exponent == 0 {
                fraction
            } else {
                fraction + 0x10_0000_0000_0000nat
            };
            let shift: nat = if exponent == 0 {
                1074
            } else {
                (1075 - exponent) as nat
            };
            (2 * significand * 1_000_000 + pow2(shift)) / pow2(shift + 1)
        }
    }
}

/// Turns the encoding of a binary64 number into millionths, rounding to the
/// nearest and clamping to `[0, 1]`.
pub fn millionths_of_bits(bits: u64) -> (r: u32)
    ensures
        r == millionths(bits),
        r <= SCORE_ONE,
{
    reveal(millionths);
    if bits >= 0x8000_0000_0000_0000u64 {
        return 0;
    }
    let exponent: u64 = bits / 0x10_0000_0000_0000u64;
    let fraction: u64 = bits % 0x10_0000_0000_0000u64;
    if exponent >= 1023 {
        return SCORE_ONE;
    }
    let significand: u64 = if exponent == 0 {
        fraction
    } else {
        fraction + 0x10_0000_0000_0000u64
    };
    let shift: u64 = if exponent == 0 {
        1074
    } else {
        1075 - exponent
    };
    let ghost scaled: nat = (2 * significand * 1_000_000) as nat;
    proof {
        lemma2_to64();
        assert(significand < 0x20_0000_0000_0000nat);
        assert(scaled < 0x400_0000_0000_0000_0000nat) by (nonlinear_arith)
            requires
                scaled == 2 * significand * 1_000_000,
                significand < 0x20_0000_0000_0000nat,
        ;
        lemma_pow2_unfold(shift as nat + 1);
        assert(pow2(74) == 0x400_0000_0000_0000_0000nat) by {
            lemma_pow2_adds(64, 10);
        }
        lemma2_to64_rest();
    }
    if shift >= 74 {
        proof {
            if shift > 74 {
                lemma_pow2_strictly_increases(74, shift as nat);
            }
            assert(scaled + pow2(shift as nat) < pow2(shift as nat + 1));
            assert((scaled + pow2(shift as nat)) / pow2(shift as nat + 1) == 0) by (nonlinear_arith)
                requires
                    scaled + pow2(shift as nat) < pow2(shift as nat + 1),
                    pow2(shift as nat + 1) > 0,
            ;
        }
        return 0;
    }
    let mut divisor: u128 = 1;
    let mut i: u64 = 0;
    while i <= shift
        invariant
            i <= shift + 1,
            shift < 74,
            divisor == pow2(i as nat),
        decreases shift + 1 - i,
    {
        proof {
            lemma_pow2_unfold(i as nat + 1);
            if i < 74 {
                lemma_pow2_strictly_increases(i as nat, 74);
            }
            lemma2_to64();
            lemma_pow2_adds(64, 10);
        }
        divisor = divisor * 2;
        i = i + 1;
    }
    proof {
        lemma_pow2_pos(shift as nat + 1);
    }
    let half: u128 = divisor / 2;
    let q: u128 = (2 * (significand as u128) * 1_000_000 + half) / divisor;
    proof {
        assert(half == pow2(shift as nat));
        // The encoded value is below one: the significand is below 2^shift.
        assert(significand < pow2(shift as nat)) by {
            if shift > 53 {
                lemma_pow2_strictly_increases(53, shift as nat);
            }
        }
        assert(q <= 1_000_000) by (nonlinear_arith)
            requires
                q as int == (scaled + half as int) / (divisor as int),
                divisor == 2 * half,
                significand < half,
                scaled == 2 * significand * 1_000_000,
                half > 0,
        ;
    }
    q as u32
}

// ---------------------------------------------------------------------------
// Whole-string similarity
// ---------------------------------------------------------------------------

/// Similarity of `candidate` to `query`, in millionths: the Jaro-Winkler
/// similarity taken with the candidate first.
pub open spec fn similarity(candidate: Seq<char>, query: Seq<char>) -> nat {
    millionths(
        if candidate.len() == 0 && query.len() == 0 {
            0x3ff0_0000_0000_0000u64
        } else if candidate.len() == 0 || query.len() == 0 {
            0u64
        } else {
            jaro_winkler_bits(candidate, query)
        },
    )
}

/// Scores how similar `candidate` is to `query`, in millionths; the
/// argument order is fixed, candidate first.
pub fn string_similarity(candidate: &str, query: &str) -> (r: u32)
    ensures
        r == similarity(candidate@, query@),
        r <= SCORE_ONE,
{
    millionths_of_bits(jaro_winkler_encoded(candidate, query))
}

// ---------------------------------------------------------------------------
// Word-level matching
// ---------------------------------------------------------------------------

/// The words of `t`: its maximal runs of non-whitespace characters, in order.
pub open spec fn split_words(t: Seq<char>) -> Seq<Seq<char>>
    decreases t.len(),
{
    if t.len() == 0 {
        Seq::empty()
    } else {
        let w = split_words(t.drop_last());
        let c = t.last();
        if whitespace(c) {
            w
        } else if t.len() >= 2 && !whitespace(t[t.len() - 2]) {
            w.drop_last().push(w.last().push(c))
        } else {
            w.push(seq![c])
        }
    }
}

/// The character sequences of a list of strings.
pub open spec fn string_views(v: Seq<String>) -> Seq<Seq<char>> {
    v.map_values(|w: String| w@)
}

/// Splits `t` into its words, as `str::split_whitespace` does.
pub fn split_words_of(t: &str) -> (r: Vec<String>)
    ensures
        string_views(r@) == split_words(t@),
{
    let mut words: Vec<String> = Vec::new();
    let mut current = String::new();
    let mut in_word = false;
    for c in it: t.chars()
        invariant
            it.seq() == t@,
            in_word == (it.index() > 0 && !whitespace(t@[it.index() - 1])),
            !in_word ==> current@.len() == 0,
            split_words(t@.take(it.index() as int)) == (if in_word {
                string_views(words@).push(current@)
            } else {
                string_views(words@)
            }),
    {
        let ghost i = it.index() as int;
        let ghost before = string_views(words@);
        proof {
            assert(t@.take(i + 1).drop_last() =~= t@.take(i));
        }
        if is_whitespace(c) {
            if in_word {
                words.push(current);
                current = String::new();
                assert(string_views(words@) =~= before.push(split_words(t@.take(i)).last()));
            }
            in_word = false;
        } else {
            if in_word {
                let ghost w = current@;
                push_char(&mut current, c);
                assert(split_words(t@.take(i + 1)) =~= before.push(w.push(c)));
            } else {
                push_char(&mut current, c);
                assert(current@ =~= seq![c]);
            }
            in_word = true;
        }
    }
    assert(t@.take(t@.len() as int) =~= t@);
    if in_word {
        let ghost before = string_views(words@);
        words.push(current);
        assert(string_views(words@) =~= before.push(split_words(t@).last()));
    }
    words
}

/// Best similarity of any of `candidate_words` to `query_word` (0 if there
/// is none).
pub open spec fn best_word_score(query_word: Seq<char>, candidate_words: Seq<Seq<char>>) -> nat
    decreases candidate_words.len(),
{
    if candidate_words.len() == 0 {
        0
    } else {
        let best = best_word_score(query_word, candidate_words.drop_last());
        let s = similarity(candidate_words.last(), query_word);
        if s > best {
            s
        } else {
            best
        }
    }
}

/// Sum of the best scores of those query words whose best score is above
/// the word threshold.
pub open spec fn matched_score_sum(query_words: Seq<Seq<char>>, candidate_words: Seq<Seq<char>>) -> nat
    decreases query_words.len(),
{
    if query_words.len() == 0 {
        0
    } else {
        let rest = matched_score_sum(query_words.drop_last(), candidate_words);
        let best = best_word_score(query_words.last(), candidate_words);
        if best > WORD_THRESHOLD {
            rest + best
        } else {
            rest
        }
    }
}

/// Word-level score of `candidate` against `query`: the matched query
/// words' best scores summed and divided by the number of query words,
/// rounded down; 0 when either side has no word.
#[verifier::opaque]
pub open spec fn partial_score(query: Seq<char>, candidate: Seq<char>) -> nat {
    let q = split_words(query);
    let c = split_words(candidate);
    if q.len() == 0 || c.len() == 0 {
        0
    } else {
        matched_score_sum(q, c) / q.len()
    }
}

proof fn lemma_best_word_score_bound(query_word: Seq<char>, candidate_words: Seq<Seq<char>>)
    ensures
        best_word_score(query_word, candidate_words) <= SCORE_ONE,
    decreases candidate_words.len(),
{
    if candidate_words.len() > 0 {
        lemma_best_word_score_bound(query_word, candidate_words.drop_last());
        lemma_similarity_bound(candidate_words.last(), query_word);
    }
}

proof fn lemma_similarity_bound(candidate: Seq<char>, query: Seq<char>)
    ensures
        similarity(candidate, query) <= SCORE_ONE,
{
    let bits = if candidate.len() == 0 && query.len() == 0 {
        0x3ff0_0000_0000_0000u64
    } else if candidate.len() == 0 || query.len() == 0 {
        0u64
    } else {
        jaro_winkler_bits(candidate, query)
    };
    lemma_millionths_bound(bits);
}

proof fn lemma_millionths_bound(bits: u64)
    ensures
        millionths(bits) <= SCORE_ONE,
{
    reveal(millionths);
    if bits < 0x8000_0000_0000_0000u64 {
        let exponent = bits as nat / 0x10_0000_0000_0000nat;
        let fraction = bits as nat % 0x10_0000_0000_0000nat;
        if exponent < 1023 {
            let significand: nat = if exponent == 0 {
                fraction
            } else {
                fraction + 0x10_0000_0000_0000nat
            };
            let shift: nat = if exponent == 0 {
                1074
            } else {
                (1075 - exponent) as nat
            };
            lemma2_to64_rest();
            if shift > 53 {
                lemma_pow2_strictly_increases(53, shift);
            }
            lemma_pow2_unfold(shift + 1);
            lemma_pow2_pos(shift);
            let half = pow2(shift);
            let q = (2 * significand * 1_000_000 + half) / pow2(shift + 1);
            assert(q <= 1_000_000) by (nonlinear_arith)
                requires
                    q == (2 * significand * 1_000_000 + half) / pow2(shift + 1),
                    pow2(shift + 1) == 2 * half,
                    significand < half,
                    half > 0,
            ;
        }
    }
}

proof fn lemma_matched_score_sum_bound(query_words: Seq<Seq<char>>, candidate_words: Seq<Seq<char>>)
    ensures
        matched_score_sum(query_words, candidate_words) <= SCORE_ONE * query_words.len(),
    decreases query_words.len(),
{
    if query_words.len() > 0 {
        lemma_matched_score_sum_bound(query_words.drop_last(), candidate_words);
        lemma_best_word_score_bound(query_words.last(), candidate_words);
    }
}

/// Word-level score of `event_text` against `ocr_text`, in millionths: each
/// query word takes its best similarity over the event's words, those above
/// the word threshold are summed, and the sum is divided by the number of
/// query words.
pub fn calculate_partial_match(ocr_text: &str, event_text: &str) -> (r: u32)
    ensures
        r == partial_score(ocr_text@, event_text@),
        r <= SCORE_ONE,
{
    reveal(partial_score);
    let ocr_words = split_words_of(ocr_text);
    let event_words = split_words_of(event_text);
    let ghost q = string_views(ocr_words@);
    let ghost c = string_views(event_words@);
    if ocr_words.len() == 0 || event_words.len() == 0 {
        return 0;
    }
    let mut total: u128 = 0;
    let mut i: usize = 0;
    while i < ocr_words.len()
        invariant
            i <= q.len(),
            q.len() == ocr_words@.len(),
            c.len() == event_words@.len(),
            q == string_views(ocr_words@),
            c == string_views(event_words@),
            total == matched_score_sum(q.take(i as int), c),
            total <= SCORE_ONE * i,
        decreases q.len() - i,
    {
        let query_word = ocr_words[i].as_str();
        let mut best: u32 = 0;
        let mut j: usize = 0;
        while j < event_words.len()
            invariant
                i < q.len(),
                j <= c.len(),
                c.len() == event_words@.len(),
                q == string_views(ocr_words@),
                c == string_views(event_words@),
                query_word@ == q[i as int],
                best == best_word_score(q[i as int], c.take(j as int)),
            decreases c.len() - j,
        {
            let s = string_similarity(event_words[j].as_str(), query_word);
            proof {
                assert(c.take(j + 1).drop_last() =~= c.take(j as int));
                assert(c[j as int] == event_words@[j as int]@);
            }
            if s > best {
                best = s;
            }
            j = j + 1;
        }
        proof {
            assert(c.take(c.len() as int) =~= c);
            assert(q.take(i + 1).drop_last() =~= q.take(i as int));
            lemma_best_word_score_bound(q[i as int], c);
        }
        if best > WORD_THRESHOLD {
            total = total + best as u128;
        }
        i = i + 1;
    }
    proof {
        assert(q.take(q.len() as int) =~= q);
        lemma_matched_score_sum_bound(q, c);
        assert(total as int / (q.len() as int) <= SCORE_ONE) by (nonlinear_arith)
            requires
                total <= SCORE_ONE * q.len(),
                q.len() > 0,
        ;
    }
    (total / (ocr_words.len() as u128)) as u32
}

} // verus!
