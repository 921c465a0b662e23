//! The permutation scorer: for one complete candidate, evaluates every
//! ordering of its matched words against the adjacency and n-gram statistics
//! and returns the best ordering's text with a normalized score.
//!
//! Weights are integer square roots of corpus counts. The normalization
//! divides by the squared word count and by a small-word penalty held in
//! thousandths, so one integer division replaces the original real-valued
//! normalization.

use vstd::prelude::*;
use std::collections::HashMap;
use itertools::Itertools;
use crate::index::{Index, spec_ngram_key};
use crate::search::{Matching, MAX_EXPR_SIZE, LONG_WORD_LETTERS, word_index_seq, words_text};
use crate::tags::{Morph, PosMorph, PosTag, pair_code, ngram_code, spec_pair_code};

verus! {

broadcast use {
    vstd::seq_lib::group_to_multiset_ensures,
    vstd::multiset::group_multiset_axioms,
    vstd::std_specs::hash::group_hash_axioms,
};

/// The weight a statistics table assigns to a key, zero when absent.
pub open spec fn stats_weight(stats: Map<u64, u64>, key: u64) -> int {
    if stats.contains_key(key) {
        stats[key] as int
    } else {
        0
    }
}

/// Looks a key up in a statistics table, zero when absent.
fn lookup_weight(stats: &HashMap<u64, u64>, key: u64) -> (r: u64)
    ensures
        r as int == stats_weight(stats@, key),
{
    match stats.get(&key) {
        Some(w) => *w,
        None => 0,
    }
}

/// The best adjacency weight of one (tag, morphology) reading of the first
/// word against any reading of the second word.
pub open spec fn spec_best_weight_row(
    stats: Map<u64, u64>,
    first: PosMorph,
    pos2: PosTag,
    ms2: Seq<Morph>,
) -> int
    decreases ms2.len(),
{
    if ms2.len() == 0 {
        0
    } else {
        let prev = spec_best_weight_row(stats, first, pos2, ms2.drop_last());
        let cur = stats_weight(
            stats,
            spec_pair_code(first, PosMorph { pos: pos2, morph: ms2.last() }),
        );
        if cur > prev {
            cur
        } else {
            prev
        }
    }
}

/// The best adjacency weight over the readings of two adjacent words.
pub open spec fn spec_best_pair_weight(
    stats: Map<u64, u64>,
    pos1: PosTag,
    ms1: Seq<Morph>,
    pos2: PosTag,
    ms2: Seq<Morph>,
) -> int
    decreases ms1.len(),
{
    if ms1.len() == 0 {
        0
    } else {
        let prev = spec_best_pair_weight(stats, pos1, ms1.drop_last(), pos2, ms2);
        let cur = spec_best_weight_row(
            stats,
            PosMorph { pos: pos1, morph: ms1.last() },
            pos2,
            ms2,
        );
        if cur > prev {
            cur
        } else {
            prev
        }
    }
}

/// The best adjacency weight of two words of the index.
pub open spec fn spec_pair_best(index: Index, w1: int, w2: int) -> int {
    spec_best_pair_weight(
        index.tagging_stats@,
        index.word_defs@[w1].pos_tag,
        index.word_defs@[w1].morph_tags@,
        index.word_defs@[w2].pos_tag,
        index.word_defs@[w2].morph_tags@,
    )
}

/// The sum of the best adjacency weights of the consecutive pairs of a word
/// sequence.
pub open spec fn spec_adjacency_sum(index: Index, ws: Seq<int>) -> int
    decreases ws.len(),
{
    if ws.len() <= 1 {
        0
    } else {
        spec_adjacency_sum(index, ws.drop_last()) + spec_pair_best(
            index,
            ws[ws.len() - 2],
            ws.last(),
        )
    }
}

/// A dangling adposition, determiner, pronoun or verb makes a poor ending:
/// such orderings keep only a quarter of their adjacency score.
pub open spec fn spec_ends_badly(index: Index, w: int) -> bool {
    ||| index.word_defs@[w].pos_tag == PosTag::ADP
    ||| index.word_defs@[w].pos_tag == PosTag::DET
    ||| index.word_defs@[w].pos_tag == PosTag::PRON
    ||| index.word_defs@[w].pos_tag == PosTag::VERB
}

/// The adjacency score of one ordering, quartered for a bad last tag.
pub open spec fn spec_combo_base(index: Index, ws: Seq<int>) -> int {
    let s = spec_adjacency_sum(index, ws);
    if ws.len() > 0 && spec_ends_badly(index, ws.last()) {
        s / 4
    } else {
        s
    }
}

/// The part-of-speech tags of a word sequence.
pub open spec fn words_tags(index: Index, ws: Seq<int>) -> Seq<PosTag> {
    ws.map_values(|w: int| index.word_defs@[w].pos_tag)
}

/// The full score of one ordering: the quartered adjacency score, multiplied
/// by the n-gram weight of its first four tags when the table has it
/// (absence means "no evidence", so the multiplier is one).
pub open spec fn spec_combo_score(index: Index, ws: Seq<int>) -> int {
    let base = spec_combo_base(index, ws);
    let key = spec_ngram_key(words_tags(index, ws));
    if index.pos_n_grams@.contains_key(key) {
        base * index.pos_n_grams@[key]
    } else {
        base
    }
}

/// How many of the words have at most `LONG_WORD_LETTERS` letters.
pub open spec fn spec_count_small(index: Index, ws: Seq<int>) -> int
    decreases ws.len(),
{
    if ws.len() == 0 {
        0
    } else {
        spec_count_small(index, ws.drop_last()) + (
        if index.word_len(ws.last()) <= LONG_WORD_LETTERS {
            1int
        } else {
            0int
        })
    }
}

/// `(1 + k)^1.5`, in thousandths: the penalty divisor for an expression
/// padded with `k` short filler words.
pub open spec fn spec_penalty_milli(k: int) -> int {
    if k <= 0 {
        1000
    } else if k == 1 {
        2828
    } else if k == 2 {
        5196
    } else if k == 3 {
        8000
    } else if k == 4 {
        11180
    } else if k == 5 {
        14697
    } else {
        18520
    }
}

fn small_penalty_milli(k: usize) -> (r: u64)
    ensures
        r as int == spec_penalty_milli(k as int),
        1000 <= r <= 18520,
{
    match k {
        0 => 1000,
        1 => 2828,
        2 => 5196,
        3 => 8000,
        4 => 11180,
        5 => 14697,
        _ => 18520,
    }
}

/// The normalized score of one ordering: its full score divided by the
/// squared word count and by the small-word penalty.
pub open spec fn spec_normalized_score(index: Index, ws: Seq<int>) -> int {
    spec_combo_score(index, ws) * 1000 / (ws.len() * ws.len() * spec_penalty_milli(
        spec_count_small(index, ws),
    ))
}

/// The best adjacency weight over the readings of two adjacent words,
/// maximized over the Cartesian product of their morphology readings.
fn best_pair_weight(index: &Index, w1: usize, w2: usize) -> (r: u64)
    requires
        index.wf(),
        w1 < index.word_defs@.len(),
        w2 < index.word_defs@.len(),
    ensures
        r as int == spec_pair_best(*index, w1 as int, w2 as int),
        r < 0x1_0000_0000,
{
    let first_def = &index.word_defs[w1];
    let second_def = &index.word_defs[w2];
    let mut best: u64 = 0;
    let n1 = first_def.morph_tags.len();
    let mut a: usize = 0;
    while a < n1
        invariant
            index.wf(),
            w1 < index.word_defs@.len(),
            w2 < index.word_defs@.len(),
            first_def == index.word_defs@[w1 as int],
            second_def == index.word_defs@[w2 as int],
            n1 == first_def.morph_tags@.len(),
            a <= n1,
            best < 0x1_0000_0000,
            best as int == spec_best_pair_weight(
                index.tagging_stats@,
                first_def.pos_tag,
                first_def.morph_tags@.take(a as int),
                second_def.pos_tag,
                second_def.morph_tags@,
            ),
        decreases n1 - a,
    {
        let first_pm = PosMorph { pos: first_def.pos_tag, morph: first_def.morph_tags[a] };
        let n2 = second_def.morph_tags.len();
        let mut b: usize = 0;
        let mut row_best: u64 = 0;
        while b < n2
            invariant
                index.wf(),
                w2 < index.word_defs@.len(),
                second_def == index.word_defs@[w2 as int],
                n2 == second_def.morph_tags@.len(),
                b <= n2,
                row_best < 0x1_0000_0000,
                row_best as int == spec_best_weight_row(
                    index.tagging_stats@,
                    first_pm,
                    second_def.pos_tag,
                    second_def.morph_tags@.take(b as int),
                ),
            decreases n2 - b,
        {
            let second_pm = PosMorph { pos: second_def.pos_tag, morph: second_def.morph_tags[b] };
            let key = pair_code(first_pm, second_pm);
            let w = lookup_weight(&index.tagging_stats, key);
            proof {
                assert(second_def.morph_tags@.take(b + 1).drop_last() =~= second_def.morph_tags@.take(
                    b as int,
                ));
                assert(second_def.morph_tags@.take(b + 1).last() == second_def.morph_tags@[b as int]);
            }
            if w > row_best {
                row_best = w;
            }
            b += 1;
        }
        proof {
            assert(second_def.morph_tags@.take(n2 as int) =~= second_def.morph_tags@);
            assert(first_def.morph_tags@.take(a + 1).drop_last() =~= first_def.morph_tags@.take(
                a as int,
            ));
            assert(first_def.morph_tags@.take(a + 1).last() == first_def.morph_tags@[a as int]);
        }
        if row_best > best {
            best = row_best;
        }
        a += 1;
    }
    proof {
        assert(first_def.morph_tags@.take(n1 as int) =~= first_def.morph_tags@);
    }
    best
}

/// The adjacency score of one ordering: for each consecutive pair the best
/// adjacency weight over both words' readings, summed, then quartered when
/// the last word's tag makes a poor ending.
fn score_combination(index: &Index, matchable_words: &Vec<usize>, combination: &Vec<usize>) -> (r:
    u128)
    requires
        index.wf(),
        forall|t: int|
            0 <= t < matchable_words@.len() ==> (#[trigger] matchable_words@[t])
                < index.word_defs@.len(),
        forall|t: int|
            0 <= t < combination@.len() ==> (#[trigger] combination@[t]) < matchable_words@.len(),
        1 <= combination@.len() <= MAX_EXPR_SIZE,
    ensures
        r as int == spec_combo_base(*index, word_index_seq(matchable_words@, combination@)),
        r < 0x5_0000_0000,
{
    let ghost wis = word_index_seq(matchable_words@, combination@);
    let n = combination.len();
    let mut score: u128 = 0;
    let mut t: usize = 1;
    proof {
        assert(wis.take(1).len() == 1);
    }
    while t < n
        invariant
            index.wf(),
            forall|k: int|
                0 <= k < matchable_words@.len() ==> (#[trigger] matchable_words@[k])
                    < index.word_defs@.len(),
            forall|k: int|
                0 <= k < combination@.len() ==> (#[trigger] combination@[k])
                    < matchable_words@.len(),
            wis == word_index_seq(matchable_words@, combination@),
            n == combination@.len(),
            n <= MAX_EXPR_SIZE,
            1 <= t <= n,
            score as int == spec_adjacency_sum(*index, wis.take(t as int)),
            score as int <= (t - 1) * 0xffff_ffff,
        decreases n - t,
    {
        let first_word = matchable_words[combination[t - 1] as usize];
        let second_word = matchable_words[combination[t] as usize];
        let w = best_pair_weight(index, first_word, second_word);
        proof {
            assert(wis.take(t + 1).drop_last() =~= wis.take(t as int));
            assert(wis.take(t + 1).last() == wis[t as int]);
            assert(wis.take(t + 1)[t as int - 1] == wis[t as int - 1]);
        }
        score = score + (w as u128);
        t += 1;
    }
    proof {
        assert(wis.take(n as int) =~= wis);
    }
    let last_word = matchable_words[combination[n - 1] as usize];
    let last_tag = index.word_defs[last_word].pos_tag;
    if last_tag == PosTag::ADP || last_tag == PosTag::DET || last_tag == PosTag::PRON || last_tag
        == PosTag::VERB {
        score / 4
    } else {
        score
    }
}

/// The n-gram key of an ordering's first four tags.
fn combination_ngram_key(index: &Index, matchable_words: &Vec<usize>, combination: &Vec<usize>) -> (r:
    u64)
    requires
        index.wf(),
        forall|t: int|
            0 <= t < matchable_words@.len() ==> (#[trigger] matchable_words@[t])
                < index.word_defs@.len(),
        forall|t: int|
            0 <= t < combination@.len() ==> (#[trigger] combination@[t]) < matchable_words@.len(),
        combination@.len() >= 1,
    ensures
        r == spec_ngram_key(words_tags(*index, word_index_seq(matchable_words@, combination@))),
{
    let n = combination.len();
    let t0 = Some(index.word_defs[matchable_words[combination[0] as usize]].pos_tag);
    let t1 = if n > 1 {
        Some(index.word_defs[matchable_words[combination[1] as usize]].pos_tag)
    } else {
        None
    };
    let t2 = if n > 2 {
        Some(index.word_defs[matchable_words[combination[2] as usize]].pos_tag)
    } else {
        None
    };
    let t3 = if n > 3 {
        Some(index.word_defs[matchable_words[combination[3] as usize]].pos_tag)
    } else {
        None
    };
    ngram_code(t0, t1, t2, t3)
}

/// The full score of one ordering: adjacency score times the n-gram weight
/// of its leading tags, when the table has that sequence.
fn combination_full_score(index: &Index, matchable_words: &Vec<usize>, combination: &Vec<usize>) -> (r:
    u128)
    requires
        index.wf(),
        forall|t: int|
            0 <= t < matchable_words@.len() ==> (#[trigger] matchable_words@[t])
                < index.word_defs@.len(),
        forall|t: int|
            0 <= t < combination@.len() ==> (#[trigger] combination@[t]) < matchable_words@.len(),
        1 <= combination@.len() <= MAX_EXPR_SIZE,
    ensures
        r as int == spec_combo_score(*index, word_index_seq(matchable_words@, combination@)),
        r < 0x5_0000_0000 * 0x1_0000_0000,
{
    let base = score_combination(index, matchable_words, combination);
    let key = combination_ngram_key(index, matchable_words, combination);
    match index.pos_n_grams.get(&key) {
        Some(w) => {
            proof {
                assert(index.pos_n_grams@.contains_key(key));
                assert(index.pos_n_grams@[key] < 0x1_0000_0000);
                assert((base as int) * (*w as int) < 0x5_0000_0000 * 0x1_0000_0000)
                    by (nonlinear_arith)
                    requires
                        base < 0x5_0000_0000,
                        *w < 0x1_0000_0000,
                ;
            }
            base * (*w as u128)
        },
        None => base,
    }
}

/// Relies on itertools' permutations: iterates over all k-permutations of
/// the elements (here k is the input's length, so over every reordering of
/// its positions); equal elements are not deduplicated.
#[verifier::external_body]
fn permutations_of(items: &Vec<usize>) -> (r: Vec<Vec<usize>>)
    ensures
        forall|i: int|
            0 <= i < r@.len() ==> (#[trigger] r@[i])@.to_multiset() == items@.to_multiset(),
        forall|p: Seq<usize>|
            #[trigger] p.to_multiset() == items@.to_multiset() ==> exists|i: int|
                0 <= i < r@.len() && r@[i]@ == p,
{
    items.iter().permutations(items.len()).map(
        |p| p.into_iter().copied().collect(),
    ).collect()
}

/// The surface text of an ordering: the words' spellings joined with single
/// spaces.
fn words_to_string(index: &Index, matchable_words: &Vec<usize>, perm: &Vec<usize>) -> (r: String)
    requires
        index.wf(),
        forall|t: int|
            0 <= t < matchable_words@.len() ==> (#[trigger] matchable_words@[t])
                < index.word_defs@.len(),
        forall|t: int|
            0 <= t < perm@.len() ==> (#[trigger] perm@[t]) < matchable_words@.len(),
    ensures
        r@ == words_text(*index, word_index_seq(matchable_words@, perm@)),
{
    let ghost wis = word_index_seq(matchable_words@, perm@);
    let n = perm.len();
    let mut r = String::new();
    let mut t: usize = 0;
    while t < n
        invariant
            index.wf(),
            forall|k: int|
                0 <= k < matchable_words@.len() ==> (#[trigger] matchable_words@[k])
                    < index.word_defs@.len(),
            forall|k: int|
                0 <= k < perm@.len() ==> (#[trigger] perm@[k]) < matchable_words@.len(),
            wis == word_index_seq(matchable_words@, perm@),
            n == perm@.len(),
            t <= n,
            r@ == words_text(*index, wis.take(t as int)),
        decreases n - t,
    {
        let w = matchable_words[perm[t] as usize];
        proof {
            assert(index.word_wf(w as int));
            assert(wis.take(t + 1).drop_last() =~= wis.take(t as int));
            assert(wis.take(t + 1).last() == wis[t as int]);
        }
        if t > 0 {
            r.push(' ');
        }
        let word_str = crate::codec::u8_to_str(index.word_original_slice(w));
        r.append(word_str.as_str());
        t += 1;
    }
    proof {
        assert(wis.take(n as int) =~= wis);
    }
    r
}

impl Matching {
    /// Finds the best-scoring ordering of this complete candidate's words.
    ///
    /// A single-word candidate is not meaningfully orderable: it gets the
    /// maximum representable score. Otherwise every permutation of the
    /// matched words is scored and the best one is returned with its
    /// normalized score.
    pub fn best_permutation(&self, index: &Index, matchable_words: &Vec<usize>) -> (r: (
        String,
        u128,
    ))
        requires
            index.wf(),
            forall|t: int|
                0 <= t < matchable_words@.len() ==> (#[trigger] matchable_words@[t])
                    < index.word_defs@.len(),
            1 <= self.matched_size as int <= MAX_EXPR_SIZE,
            forall|t: int|
                0 <= t < self.matched_seq().len() ==> (#[trigger] self.matched_seq()[t])
                    < matchable_words@.len(),
        ensures
            self.matched_size == 1 ==> r.1 == u128::MAX && r.0@ == words_text(
                *index,
                word_index_seq(matchable_words@, self.matched_seq()),
            ),
            self.matched_size != 1 ==> exists|perm: Seq<usize>|
                {
                    &&& #[trigger] perm.to_multiset() == self.matched_seq().to_multiset()
                    &&& r.0@ == words_text(*index, word_index_seq(matchable_words@, perm))
                    &&& r.1 as int == spec_normalized_score(
                        *index,
                        word_index_seq(matchable_words@, perm),
                    )
                    &&& forall|other: Seq<usize>|
                        #[trigger] other.to_multiset() == self.matched_seq().to_multiset()
                            ==> spec_combo_score(*index, word_index_seq(matchable_words@, other))
                            <= spec_combo_score(*index, word_index_seq(matchable_words@, perm))
                },
    {
        let msize = self.matched_size as usize;
        let mut items: Vec<usize> = Vec::new();
        let mut k: usize = 0;
        while k < msize
            invariant
                k <= msize,
                msize <= MAX_EXPR_SIZE,
                msize as int <= self.matched@.len(),
                items@ == self.matched@.take(k as int),
            decreases msize - k,
        {
            items.push(self.matched[k]);
            proof {
                assert(self.matched@.take(k + 1) =~= self.matched@.take(k as int).push(
                    self.matched@[k as int],
                ));
            }
            k += 1;
        }
        proof {
            assert(items@ == self.matched_seq());
        }
        if msize == 1 {
            let text = words_to_string(index, matchable_words, &items);
            return (text, u128::MAX);
        }
        let perms = permutations_of(&items);
        proof {
            assert(items@.to_multiset() == self.matched_seq().to_multiset());
            assert(exists|i: int| 0 <= i < perms@.len() && perms@[i]@ == items@);
        }
        let ghost mms = self.matched_seq().to_multiset();
        let mut best_idx: usize = 0;
        let mut best_score: u128 = 0;
        let mut started = false;
        let np = perms.len();
        let mut pi: usize = 0;
        while pi < np
            invariant
                index.wf(),
                forall|t: int|
                    0 <= t < matchable_words@.len() ==> (#[trigger] matchable_words@[t])
                        < index.word_defs@.len(),
                forall|t: int|
                    0 <= t < self.matched_seq().len() ==> (#[trigger] self.matched_seq()[t])
                        < matchable_words@.len(),
                mms == self.matched_seq().to_multiset(),
                np == perms@.len(),
                pi <= np,
                forall|i: int|
                    0 <= i < perms@.len() ==> (#[trigger] perms@[i])@.to_multiset() == mms,
                1 <= self.matched_seq().len() <= MAX_EXPR_SIZE,
                pi > 0 ==> started,
                started ==> best_idx < np && best_score as int == spec_combo_score(
                    *index,
                    word_index_seq(matchable_words@, perms@[best_idx as int]@),
                ) && best_score < 0x5_0000_0000 * 0x1_0000_0000,
                forall|i: int|
                    0 <= i < pi ==> spec_combo_score(
                        *index,
                        word_index_seq(matchable_words@, (#[trigger] perms@[i])@),
                    ) <= best_score as int,
            decreases np - pi,
        {
            let perm = &perms[pi];
            proof {
                assert(perm@.to_multiset() == mms);
                assert(perm@.to_multiset().len() == mms.len());
                assert(perm@.len() == self.matched_seq().len());
                assert forall|t: int| 0 <= t < perm@.len() implies (#[trigger] perm@[t])
                    < matchable_words@.len() by {
                    assert(perm@.contains(perm@[t]));
                    assert(mms.count(perm@[t]) > 0);
                    assert(self.matched_seq().contains(perm@[t]));
                    let u = choose|u: int|
                        0 <= u < self.matched_seq().len() && self.matched_seq()[u] == perm@[t];
                }
            }
            let sc = combination_full_score(index, matchable_words, perm);
            if !started || sc > best_score {
                best_idx = pi;
                best_score = sc;
                started = true;
            }
            pi += 1;
        }
        proof {
            assert(started);
        }
        let best = &perms[best_idx];
        proof {
            assert(best == perms@[best_idx as int]);
            assert(perms@[best_idx as int]@.to_multiset() == mms);
            assert(best@.to_multiset() == mms);
            assert(best@.to_multiset().len() == best@.len());
            assert(self.matched_seq().to_multiset().len() == self.matched_seq().len());
            assert(best@.len() == self.matched_seq().len());
            assert(best@.len() <= MAX_EXPR_SIZE);
            assert forall|t: int| 0 <= t < best@.len() implies (#[trigger] best@[t])
                < matchable_words@.len() by {
                assert(best@.contains(best@[t]));
                assert(mms.count(best@[t]) > 0);
                assert(self.matched_seq().contains(best@[t]));
                let u = choose|u: int|
                    0 <= u < self.matched_seq().len() && self.matched_seq()[u] == best@[t];
            }
        }
        let ghost bwis = word_index_seq(matchable_words@, best@);
        let n = best.len();
        let mut small: usize = 0;
        let mut t: usize = 0;
        while t < n
            invariant
                index.wf(),
                forall|k2: int|
                    0 <= k2 < matchable_words@.len() ==> (#[trigger] matchable_words@[k2])
                        < index.word_defs@.len(),
                forall|k2: int|
                    0 <= k2 < best@.len() ==> (#[trigger] best@[k2]) < matchable_words@.len(),
                bwis == word_index_seq(matchable_words@, best@),
                n == best@.len(),
                1 <= n <= MAX_EXPR_SIZE,
                t <= n,
                small <= t,
                small as int == spec_count_small(*index, bwis.take(t as int)),
            decreases n - t,
        {
            let w = matchable_words[best[t] as usize];
            proof {
                assert(bwis.take(t + 1).drop_last() =~= bwis.take(t as int));
                assert(bwis.take(t + 1).last() == bwis[t as int]);
            }
            if index.word_len_of(w) <= LONG_WORD_LETTERS {
                small += 1;
            }
            t += 1;
        }
        proof {
            assert(bwis.take(n as int) =~= bwis);
        }
        let penalty = small_penalty_milli(small);
        proof {
            assert(1 <= n && n <= 6);
            assert(1000 <= penalty <= 18520);
            assert((n as int) * (n as int) <= 36) by (nonlinear_arith)
                requires
                    n <= 6,
            ;
            assert((n as int) * (n as int) * (penalty as int) <= 36 * 18520) by (nonlinear_arith)
                requires
                    n <= 6,
                    penalty <= 18520,
            ;
        }
        let denom: u128 = ((n * n) as u128) * (penalty as u128);
        proof {
            assert(denom >= 1000) by (nonlinear_arith)
                requires
                    denom == ((n * n) as u128) * (penalty as u128),
                    1 <= n,
                    1000 <= penalty,
            ;
        }
        let normalized = best_score * 1000 / denom;
        let text = words_to_string(index, matchable_words, best);
        proof {
            let perm = best@;
            assert(perm.to_multiset() == self.matched_seq().to_multiset());
            assert(text@ == words_text(*index, word_index_seq(matchable_words@, perm)));
            assert(normalized as int == spec_normalized_score(
                *index,
                word_index_seq(matchable_words@, perm),
            ));
            assert forall|other: Seq<usize>|
                #[trigger] other.to_multiset() == self.matched_seq().to_multiset()
                implies spec_combo_score(*index, word_index_seq(matchable_words@, other))
                <= spec_combo_score(*index, word_index_seq(matchable_words@, perm)) by {
                let i = choose|i: int| 0 <= i < perms@.len() && perms@[i]@ == other;
            }
        }
        (text, normalized)
    }
}

} // verus!
