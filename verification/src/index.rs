//! The vocabulary index: every word's surface spelling and sorted letters in
//! two shared buffers, its grammatical tag, morphology readings and Bloom
//! summary, plus the two statistics tables the scorer consults.
//!
//! The index is built once, from already-parsed records, and read-only
//! afterwards. Words must be added in non-decreasing letter-count order;
//! later stages rely on that order for truncation and tie-breaking.

use vstd::prelude::*;
use std::collections::HashMap;
use crate::codec::{
    SearchType, all_supported_chars, all_supported_codes, code_val, encode_seq, is_supported,
    is_supported_char, lemma_encode_supported, lower_of, str_to_u8, to_lowercase_str,
};
use crate::letters::{
    bloom_of, encoded_letters_to_bloom_u32, sort_letters, sorted_u8, sub_multiset,
};
use crate::tags::{Morph, PosMorph, PosTag, spec_ngram_code, spec_pair_code, ngram_code, pair_code};

verus! {

broadcast use {
    vstd::seq_lib::group_to_multiset_ensures,
    vstd::multiset::group_multiset_axioms,
    vstd::std_specs::hash::group_hash_axioms,
    vstd::prelude::Seq::lemma_filter_push,
};

/// One vocabulary word: two half-open ranges into the index's letter
/// buffers, its tag and morphology readings, and the Bloom summary of its
/// letters.
#[derive(Clone, Debug)]
pub struct Word {
    pub sorted_start: u32,
    pub sorted_end: u32,
    pub original_start: u32,
    pub original_end: u32,
    pub pos_tag: PosTag,
    pub morph_tags: Vec<Morph>,
    pub bloom_letters: u32,
}

/// Why a vocabulary entry was rejected instead of indexed.
#[derive(PartialEq, Eq, Structural, Copy, Clone, Debug)]
pub enum AddWordError {
    /// The lowercased word holds a character outside the supported alphabet.
    UnsupportedChar,
    /// The word is shorter than the previously added word; entries must
    /// arrive in non-decreasing letter-count order.
    OutOfOrder,
    /// The letter buffers cannot index the word's letters any more.
    CapacityExceeded,
}

#[derive(Clone)]
pub struct Index {
    pub original_letters: Vec<u8>,
    pub sorted_letters: Vec<u8>,
    pub word_defs: Vec<Word>,
    pub tagging_stats: HashMap<u64, u64>,
    pub pos_n_grams: HashMap<u64, u64>,
}

/// The integer square root, used to compress statistics counts.
pub open spec fn spec_isqrt(n: int) -> int
    decreases n,
{
    if n <= 0 {
        0
    } else {
        let r = spec_isqrt(n - 1);
        if (r + 1) * (r + 1) <= n {
            r + 1
        } else {
            r
        }
    }
}

pub proof fn lemma_isqrt_bounds(n: int)
    requires
        n >= 0,
    ensures
        0 <= spec_isqrt(n),
        spec_isqrt(n) * spec_isqrt(n) <= n,
        n < (spec_isqrt(n) + 1) * (spec_isqrt(n) + 1),
    decreases n,
{
    if n > 0 {
        lemma_isqrt_bounds(n - 1);
        let r = spec_isqrt(n - 1);
        if (r + 1) * (r + 1) <= n {
            assert((r + 2) * (r + 2) > n) by (nonlinear_arith)
                requires
                    n - 1 < (r + 1) * (r + 1),
                    r >= 0,
            ;
        }
    }
}

pub proof fn lemma_isqrt_unique(n: int, a: int)
    requires
        n >= 0,
        a >= 0,
        a * a <= n,
        n < (a + 1) * (a + 1),
    ensures
        a == spec_isqrt(n),
{
    lemma_isqrt_bounds(n);
    let b = spec_isqrt(n);
    if a < b {
        assert((a + 1) * (a + 1) <= b * b) by (nonlinear_arith)
            requires
                0 <= a,
                a + 1 <= b,
        ;
    }
    if b < a {
        assert((b + 1) * (b + 1) <= a * a) by (nonlinear_arith)
            requires
                0 <= b,
                b + 1 <= a,
        ;
    }
}

/// A square root of a statistics count stays below 2^32, so scores over
/// such weights cannot overflow their arithmetic.
pub proof fn lemma_weight_bound(n: int)
    requires
        0 <= n <= u64::MAX,
    ensures
        spec_isqrt(n) < 0x1_0000_0000,
{
    lemma_isqrt_bounds(n);
    let r = spec_isqrt(n);
    if r >= 0x1_0000_0000 {
        assert(r * r > u64::MAX) by (nonlinear_arith)
            requires
                r >= 0x1_0000_0000,
        ;
    }
}

/// Computes the integer square root by binary search.
pub fn isqrt(n: u64) -> (r: u64)
    ensures
        r == spec_isqrt(n as int),
{
    let mut lo: u64 = 0;
    let mut hi: u64 = 4294967296;
    proof {
        assert((hi as int) * (hi as int) > n as int) by (nonlinear_arith)
            requires
                hi == 4294967296u64,
                n <= 0xffff_ffff_ffff_ffffu64,
        ;
    }
    while lo + 1 < hi
        invariant
            lo < hi,
            hi <= 4294967296u64,
            (lo as int) * (lo as int) <= n as int,
            (hi as int) * (hi as int) > n as int,
        decreases hi - lo,
    {
        let mid = lo + (hi - lo) / 2;
        proof {
            assert((mid as int) * (mid as int) <= 0x1_0000_0000_0000_0000) by (nonlinear_arith)
                requires
                    mid <= 0x1_0000_0000u64,
            ;
        }
        if (mid as u128) * (mid as u128) <= (n as u128) {
            lo = mid;
        } else {
            hi = mid;
        }
    }
    proof {
        lemma_isqrt_unique(n as int, lo as int);
    }
    lo
}

/// The n-gram slot for position `i` of a tag sequence.
pub open spec fn spec_slot_opt(tags: Seq<PosTag>, i: int) -> Option<PosTag> {
    if 0 <= i < tags.len() {
        Some(tags[i])
    } else {
        None
    }
}

/// The n-gram-table key of a tag sequence of up to four tags.
pub open spec fn spec_ngram_key(tags: Seq<PosTag>) -> u64 {
    spec_ngram_code(
        spec_slot_opt(tags, 0),
        spec_slot_opt(tags, 1),
        spec_slot_opt(tags, 2),
        spec_slot_opt(tags, 3),
    )
}

/// The characters of a string that belong to the supported alphabet.
pub open spec fn supported_of(s: Seq<char>) -> Seq<char> {
    s.filter(|c: char| is_supported_char(c))
}

impl Index {
    /// Letter count of word `i`.
    pub open spec fn word_len(self, i: int) -> int {
        self.word_defs@[i].sorted_end - self.word_defs@[i].sorted_start
    }

    /// The sorted letters of word `i`.
    pub open spec fn word_sorted(self, i: int) -> Seq<u8> {
        self.sorted_letters@.subrange(
            self.word_defs@[i].sorted_start as int,
            self.word_defs@[i].sorted_end as int,
        )
    }

    /// The surface letters of word `i`, in spelling order.
    pub open spec fn word_original(self, i: int) -> Seq<u8> {
        self.original_letters@.subrange(
            self.word_defs@[i].original_start as int,
            self.word_defs@[i].original_end as int,
        )
    }

    pub open spec fn word_wf(self, i: int) -> bool {
        let w = self.word_defs@[i];
        &&& w.sorted_start <= w.sorted_end
        &&& w.sorted_end as int <= self.sorted_letters@.len()
        &&& w.original_start <= w.original_end
        &&& w.original_end as int <= self.original_letters@.len()
        &&& w.original_end - w.original_start == w.sorted_end - w.sorted_start
        &&& sorted_u8(self.word_sorted(i))
        &&& self.word_sorted(i).to_multiset() == self.word_original(i).to_multiset()
        &&& w.bloom_letters == bloom_of(self.word_sorted(i))
        &&& all_supported_codes(self.word_original(i))
        &&& all_supported_codes(self.word_sorted(i))
    }

    /// Well-formedness: every word's ranges lie inside the buffers, its
    /// sorted slice is the ascending permutation of its surface slice, its
    /// Bloom summary matches, and words stand in non-decreasing length order.
    pub open spec fn wf(self) -> bool {
        &&& self.original_letters@.len() <= u32::MAX
        &&& self.sorted_letters@.len() <= u32::MAX
        &&& forall|k: u64|
            self.tagging_stats@.contains_key(k) ==> (#[trigger] self.tagging_stats@[k])
                < 0x1_0000_0000
        &&& forall|k: u64|
            self.pos_n_grams@.contains_key(k) ==> (#[trigger] self.pos_n_grams@[k])
                < 0x1_0000_0000
        &&& forall|i: int| 0 <= i < self.word_defs@.len() ==> self.word_wf(i)
        &&& forall|i: int, j: int|
            0 <= i <= j < self.word_defs@.len() ==> #[trigger] self.word_len(i)
                <= #[trigger] self.word_len(j)
    }

    /// An empty index: no words, no statistics.
    pub fn new() -> (r: Index)
        ensures
            r.wf(),
            r.word_defs@.len() == 0,
            r.original_letters@.len() == 0,
            r.sorted_letters@.len() == 0,
            r.tagging_stats@ == Map::<u64, u64>::empty(),
            r.pos_n_grams@ == Map::<u64, u64>::empty(),
    {
        Index {
            original_letters: Vec::new(),
            sorted_letters: Vec::new(),
            word_defs: Vec::new(),
            tagging_stats: HashMap::new(),
            pos_n_grams: HashMap::new(),
        }
    }

    /// Records how often a word with the first (tag, morphology) reading
    /// immediately precedes one with the second; the count is square-rooted
    /// to compress its dynamic range.
    pub fn add_adjacency(&mut self, first: PosMorph, second: PosMorph, occurrences: u64)
        requires
            old(self).wf(),
        ensures
            final(self).wf(),
            final(self).tagging_stats@ == old(self).tagging_stats@.insert(
                spec_pair_code(first, second),
                spec_isqrt(occurrences as int) as u64,
            ),
            final(self).original_letters == old(self).original_letters,
            final(self).sorted_letters == old(self).sorted_letters,
            final(self).word_defs == old(self).word_defs,
            final(self).pos_n_grams == old(self).pos_n_grams,
    {
        let key = pair_code(first, second);
        let weight = isqrt(occurrences);
        proof {
            lemma_isqrt_bounds(occurrences as int);
            lemma_weight_bound(occurrences as int);
        }
        self.tagging_stats.insert(key, weight);
        proof {
            assert forall|i: int| 0 <= i < self.word_defs@.len() implies self.word_wf(i) by {
                assert(old(self).word_wf(i));
                assert(self.word_sorted(i) =~= old(self).word_sorted(i));
                assert(self.word_original(i) =~= old(self).word_original(i));
            }
            assert forall|i: int, j: int|
                0 <= i <= j < self.word_defs@.len() implies #[trigger] self.word_len(i)
                <= #[trigger] self.word_len(j) by {
                assert(old(self).word_len(i) <= old(self).word_len(j));
            }
        }
    }

    /// Records the corpus frequency of a tag sequence of up to four tags;
    /// the count is square-rooted to compress its dynamic range.
    pub fn add_pos_n_gram(&mut self, tags: &Vec<PosTag>, occurrences: u64)
        requires
            old(self).wf(),
            tags@.len() <= 4,
        ensures
            final(self).wf(),
            final(self).pos_n_grams@ == old(self).pos_n_grams@.insert(
                spec_ngram_key(tags@),
                spec_isqrt(occurrences as int) as u64,
            ),
            final(self).original_letters == old(self).original_letters,
            final(self).sorted_letters == old(self).sorted_letters,
            final(self).word_defs == old(self).word_defs,
            final(self).tagging_stats == old(self).tagging_stats,
    {
        let t0 = if tags.len() > 0 { Some(tags[0]) } else { None };
        let t1 = if tags.len() > 1 { Some(tags[1]) } else { None };
        let t2 = if tags.len() > 2 { Some(tags[2]) } else { None };
        let t3 = if tags.len() > 3 { Some(tags[3]) } else { None };
        let key = ngram_code(t0, t1, t2, t3);
        let weight = isqrt(occurrences);
        proof {
            lemma_isqrt_bounds(occurrences as int);
            lemma_weight_bound(occurrences as int);
        }
        self.pos_n_grams.insert(key, weight);
        proof {
            assert forall|i: int| 0 <= i < self.word_defs@.len() implies self.word_wf(i) by {
                assert(old(self).word_wf(i));
                assert(self.word_sorted(i) =~= old(self).word_sorted(i));
                assert(self.word_original(i) =~= old(self).word_original(i));
            }
            assert forall|i: int, j: int|
                0 <= i <= j < self.word_defs@.len() implies #[trigger] self.word_len(i)
                <= #[trigger] self.word_len(j) by {
                assert(old(self).word_len(i) <= old(self).word_len(j));
            }
        }
    }

    /// Normalizes a query: lowercases it, keeps only supported characters,
    /// encodes them and sorts the codes ascending.
    pub fn process_input(&self, input: &str) -> (r: Vec<u8>)
        ensures
            sorted_u8(r@),
            r@.to_multiset() == encode_seq(supported_of(lower_of(input@))).to_multiset(),
            r@.len() == supported_of(lower_of(input@)).len(),
            all_supported_codes(r@),
    {
        let mut out = encode_supported(input);
        sort_letters(&mut out);
        proof {
            assert forall|k: int| 0 <= k < out@.len() implies crate::codec::is_supported_code(
                #[trigger] out@[k],
            ) by {
                assert(out@.contains(out@[k]));
                assert(out@.to_multiset().count(out@[k]) > 0);
                let pre = encode_seq(supported_of(lower_of(input@)));
                assert(pre.to_multiset().count(out@[k]) > 0);
                assert(pre.contains(out@[k]));
                let t = choose|t: int| 0 <= t < pre.len() && pre[t] == out@[k];
                lemma_encode_supported(supported_of(lower_of(input@))[t]);
            }
        }
        out
    }
}

/// Lowercases a string and encodes the characters of the supported alphabet,
/// dropping every other character and keeping the order.
pub(crate) fn encode_supported(input: &str) -> (r: Vec<u8>)
    ensures
        r@ == encode_seq(supported_of(lower_of(input@))),
        all_supported_codes(r@),
        input@.len() == 0 ==> r@.len() == 0,
{
    let lowered = to_lowercase_str(input);
    let lowered_str = lowered.as_str();
    let n = lowered_str.unicode_len();
    let mut out: Vec<u8> = Vec::new();
    let mut i: usize = 0;
    proof {
        assert(lowered_str@.take(0).filter(|c: char| is_supported_char(c)) =~= Seq::<
            char,
        >::empty());
    }
    while i < n
        invariant
            n == lowered_str@.len(),
            i <= n,
            out@ == encode_seq(supported_of(lowered_str@.take(i as int))),
            all_supported_codes(out@),
        decreases n - i,
    {
        let c = lowered_str.get_char(i);
        proof {
            assert(lowered_str@.take(i + 1) =~= lowered_str@.take(i as int).push(
                lowered_str@[i as int],
            ));
        }
        if is_supported(c) {
            let b = crate::codec::char_to_u8(c);
            out.push(b);
            proof {
                lemma_encode_supported(c);
                assert(encode_seq(supported_of(lowered_str@.take(i + 1))) =~= encode_seq(
                    supported_of(lowered_str@.take(i as int)),
                ).push(code_val(c)));
            }
        }
        i += 1;
    }
    proof {
    assert(lowered_str@.take(n as int) =~= lowered_str@);
    }
    out
}

impl Index {
    /// Appends one vocabulary word. Its surface form is lowercased, encoded,
    /// and indexed with its sorted letters and Bloom summary. A word with an
    /// unsupported character is rejected, as is one shorter than its
    /// predecessor or one the letter buffers can no longer index.
    pub fn add_word(&mut self, word: &str, pos_tag: PosTag, morph_tags: Vec<Morph>) -> (r: Result<
        (),
        AddWordError,
    >)
        requires
            old(self).wf(),
        ensures
            final(self).wf(),
            ({
                let lowered = lower_of(word@);
                let prev = old(self).word_defs@.len() as int;
                match r {
                    Ok(()) => {
                        &&& all_supported_chars(lowered)
                        &&& (prev == 0 || old(self).word_len(prev - 1) <= lowered.len())
                        &&& final(self).word_defs@.len() == prev + 1
                        &&& final(self).word_defs@.subrange(0, prev) == old(self).word_defs@
                        &&& final(self).original_letters@ == old(self).original_letters@
                            + encode_seq(lowered)
                        &&& final(self).word_original(prev) == encode_seq(lowered)
                        &&& final(self).word_sorted(prev).to_multiset() == encode_seq(
                            lowered,
                        ).to_multiset()
                        &&& final(self).word_defs@[prev].pos_tag == pos_tag
                        &&& final(self).word_defs@[prev].morph_tags == morph_tags
                        &&& final(self).tagging_stats == old(self).tagging_stats
                        &&& final(self).pos_n_grams == old(self).pos_n_grams
                    },
                    Err(AddWordError::UnsupportedChar) => {
                        &&& !all_supported_chars(lowered)
                        &&& *final(self) == *old(self)
                    },
                    Err(AddWordError::OutOfOrder) => {
                        &&& all_supported_chars(lowered)
                        &&& prev > 0 && old(self).word_len(prev - 1) > lowered.len()
                        &&& *final(self) == *old(self)
                    },
                    Err(AddWordError::CapacityExceeded) => {
                        &&& all_supported_chars(lowered)
                        &&& *final(self) == *old(self)
                    },
                }
            }),
    {
        let ghost old_self = *self;
        let lowered = to_lowercase_str(word);
        let lowered_str = lowered.as_str();
        let n = lowered_str.unicode_len();
        let mut i: usize = 0;
        while i < n
            invariant
                *self == *old(self),
                old(self).wf(),
                lowered_str@ == lower_of(word@),
                n == lowered_str@.len(),
                i <= n,
                forall|k: int| 0 <= k < i ==> is_supported_char(#[trigger] lowered_str@[k]),
            decreases n - i,
        {
            let c = lowered_str.get_char(i);
            if !is_supported(c) {
                proof {
                    assert(!all_supported_chars(lower_of(word@)));
                }
                return Err(AddWordError::UnsupportedChar);
            }
            i += 1;
        }
        proof {
            assert(all_supported_chars(lowered_str@));
        }
        let encoded = str_to_u8(lowered_str);
        if self.word_defs.len() > 0 {
            let last = self.word_defs.len() - 1;
            proof {
                assert(self.word_wf(last as int));
            }
            let last_len = self.word_defs[last].sorted_end - self.word_defs[last].sorted_start;
            if last_len as usize > encoded.len() {
                return Err(AddWordError::OutOfOrder);
            }
        }
        let orig_start = self.original_letters.len();
        let sorted_start = self.sorted_letters.len();
        if encoded.len() > (u32::MAX as usize) - orig_start
            || encoded.len() > (u32::MAX as usize) - sorted_start {
            return Err(AddWordError::CapacityExceeded);
        }
        let word_len = encoded.len();
        let mut sorted_word = copy_letters(&encoded);
        sort_letters(&mut sorted_word);
        let bloom_letters = encoded_letters_to_bloom_u32(sorted_word.as_slice());
        extend_letters(&mut self.original_letters, &encoded);
        extend_letters(&mut self.sorted_letters, &sorted_word);
        let new_word = Word {
            original_start: orig_start as u32,
            original_end: (orig_start + word_len) as u32,
            sorted_start: sorted_start as u32,
            sorted_end: (sorted_start + word_len) as u32,
            pos_tag,
            morph_tags,
            bloom_letters,
        };
        self.word_defs.push(new_word);
        proof {
            let prev = old_self.word_defs@.len() as int;
            let lowered_seq = lower_of(word@);
            assert(self.word_defs@.subrange(0, prev) =~= old_self.word_defs@);
            assert(self.word_original(prev) =~= encoded@);
            assert(self.word_sorted(prev) =~= sorted_word@);
            assert forall|k: int| 0 <= k < encoded@.len() implies crate::codec::is_supported_code(
                #[trigger] encoded@[k],
            ) by {
                lemma_encode_supported(lowered_seq[k]);
            }
            assert forall|k: int| 0 <= k < sorted_word@.len() implies crate::codec::is_supported_code(
                #[trigger] sorted_word@[k],
            ) by {
                assert(sorted_word@.contains(sorted_word@[k]));
                assert(sorted_word@.to_multiset().count(sorted_word@[k]) > 0);
                assert(encoded@.to_multiset().count(sorted_word@[k]) > 0);
                assert(encoded@.contains(sorted_word@[k]));
                let t = choose|t: int| 0 <= t < encoded@.len() && encoded@[t] == sorted_word@[k];
                lemma_encode_supported(lowered_seq[t]);
            }
            assert forall|k: int| 0 <= k < prev implies self.word_wf(k) by {
                assert(old_self.word_wf(k));
                assert(self.word_defs@[k] == old_self.word_defs@[k]);
                assert(self.word_sorted(k) =~= old_self.word_sorted(k));
                assert(self.word_original(k) =~= old_self.word_original(k));
            }
            assert(self.word_wf(prev));
            assert forall|a: int, b: int|
                0 <= a <= b < self.word_defs@.len() implies #[trigger] self.word_len(a)
                <= #[trigger] self.word_len(b) by {
                if b < prev {
                    assert(old_self.word_len(a) <= old_self.word_len(b));
                } else if a < prev {
                    assert(old_self.word_len(a) <= old_self.word_len(prev - 1));
                }
            }
        }
        Ok(())
    }

    /// Sub-multiset test over two sorted encoded-letter sequences: true
    /// exactly when every letter of `searched`, with its multiplicity, can be
    /// matched in `letter_pool` under the search mode.
    pub fn check_contains_all_letters(
        letter_pool: &[u8],
        searched: &[u8],
        search_type: SearchType,
    ) -> (r: bool)
        requires
            sorted_u8(letter_pool@),
            sorted_u8(searched@),
        ensures
            r == sub_multiset(searched@, letter_pool@, search_type),
    {
        crate::letters::check_contains_all_letters(letter_pool, searched, search_type)
    }

    /// The non-destructive complement of a matched word's letters in a pool:
    /// re-adding the word's letters reconstructs the pool's letter multiset.
    pub fn new_vec_removed_letters(
        original: &[u8],
        matched_word: &[u8],
        search_type: SearchType,
    ) -> (r: Vec<u8>)
        requires
            sorted_u8(original@),
            sorted_u8(matched_word@),
            sub_multiset(matched_word@, original@, search_type),
        ensures
            sorted_u8(r@),
            r@.len() == original@.len() - matched_word@.len(),
            crate::letters::mask_seq(r@, search_type).to_multiset().add(
                crate::letters::mask_seq(matched_word@, search_type).to_multiset(),
            ) == crate::letters::mask_seq(original@, search_type).to_multiset(),
            r@.to_multiset().subset_of(original@.to_multiset()),
    {
        crate::letters::new_vec_removed_letters(original, matched_word, search_type)
    }

    /// Word `i`'s sorted letters are contained in the input letters.
    pub open spec fn word_matches(self, i: int, input: Seq<u8>, search_type: SearchType) -> bool {
        sub_multiset(self.word_sorted(i), input, search_type)
    }

    /// `ws` enumerates, in ascending index order, exactly the words whose
    /// letters are contained in the input.
    pub open spec fn is_match_enumeration(
        self,
        ws: Seq<usize>,
        input: Seq<u8>,
        search_type: SearchType,
    ) -> bool {
        &&& forall|k: int|
            0 <= k < ws.len() ==> (#[trigger] ws[k]) < self.word_defs@.len() && self.word_matches(
                ws[k] as int,
                input,
                search_type,
            )
        &&& forall|k1: int, k2: int| 0 <= k1 < k2 < ws.len() ==> ws[k1] < ws[k2]
        &&& forall|w: int|
            0 <= w < self.word_defs@.len() && self.word_matches(w, input, search_type)
                ==> ws.contains(w as usize)
    }

    /// Word `i` spells the mandatory word: same length, and letter for
    /// letter equal under the search mode.
    pub open spec fn word_matches_mandatory(
        self,
        i: int,
        mandatory: Seq<u8>,
        search_type: SearchType,
    ) -> bool {
        &&& self.word_original(i).len() == mandatory.len()
        &&& forall|k: int|
            0 <= k < mandatory.len() ==> crate::codec::mask_code(
                #[trigger] self.word_original(i)[k],
                search_type,
            ) == crate::codec::mask_code(mandatory[k], search_type)
    }

    /// The sorted letters of word `i`, as a slice of the shared buffer.
    pub(crate) fn word_sorted_slice(&self, i: usize) -> (r: &[u8])
        requires
            self.wf(),
            i < self.word_defs@.len(),
        ensures
            r@ == self.word_sorted(i as int),
    {
        proof {
            assert(self.word_wf(i as int));
        }
        let w = &self.word_defs[i];
        vstd::slice::slice_subrange(
            self.sorted_letters.as_slice(),
            w.sorted_start as usize,
            w.sorted_end as usize,
        )
    }

    /// The surface letters of word `i`, as a slice of the shared buffer.
    pub(crate) fn word_original_slice(&self, i: usize) -> (r: &[u8])
        requires
            self.wf(),
            i < self.word_defs@.len(),
        ensures
            r@ == self.word_original(i as int),
    {
        proof {
            assert(self.word_wf(i as int));
        }
        let w = &self.word_defs[i];
        vstd::slice::slice_subrange(
            self.original_letters.as_slice(),
            w.original_start as usize,
            w.original_end as usize,
        )
    }

    /// Tests whether word `i` spells the mandatory word under the mode.
    fn word_equals_mandatory(&self, i: usize, mandatory: &[u8], search_type: SearchType) -> (r: bool)
        requires
            self.wf(),
            i < self.word_defs@.len(),
        ensures
            r == self.word_matches_mandatory(i as int, mandatory@, search_type),
    {
        let letters = self.word_original_slice(i);
        if letters.len() != mandatory.len() {
            return false;
        }
        let n = letters.len();
        let mut k: usize = 0;
        while k < n
            invariant
                n == letters@.len() == mandatory@.len(),
                letters@ == self.word_original(i as int),
                k <= n,
                forall|t: int|
                    0 <= t < k ==> crate::codec::mask_code(
                        #[trigger] letters@[t],
                        search_type,
                    ) == crate::codec::mask_code(mandatory@[t], search_type),
            decreases n - k,
        {
            if !crate::codec::encoded_chars_equal(letters[k], mandatory[k], search_type) {
                return false;
            }
            k += 1;
        }
        true
    }

    /// Filters the index to the words whose letters are contained in the
    /// input, returned as word indices in ascending index order.
    fn collect_matchable(&self, input_letters: &[u8], search_type: SearchType) -> (r: Vec<usize>)
        requires
            self.wf(),
            sorted_u8(input_letters@),
        ensures
            self.is_match_enumeration(r@, input_letters@, search_type),
    {
        let n = self.word_defs.len();
        let mut matching: Vec<usize> = Vec::new();
        let mut i: usize = 0;
        while i < n
            invariant
                self.wf(),
                sorted_u8(input_letters@),
                n == self.word_defs@.len(),
                i <= n,
                forall|k: int|
                    0 <= k < matching@.len() ==> (#[trigger] matching@[k]) < i
                        && self.word_matches(matching@[k] as int, input_letters@, search_type),
                forall|k1: int, k2: int|
                    0 <= k1 < k2 < matching@.len() ==> matching@[k1] < matching@[k2],
                forall|w: int|
                    0 <= w < i && self.word_matches(w, input_letters@, search_type)
                        ==> matching@.contains(w as usize),
            decreases n - i,
        {
            proof {
                assert(self.word_wf(i as int));
            }
            let letters = self.word_sorted_slice(i);
            let ghost before = matching@;
            if crate::letters::check_contains_all_letters(input_letters, letters, search_type) {
                matching.push(i);
                proof {
                    assert forall|w: int|
                        0 <= w < i + 1 && self.word_matches(w, input_letters@, search_type)
                        implies matching@.contains(w as usize) by {
                        if w < i {
                            let t = choose|t: int|
                                0 <= t < before.len() && before[t] == w as usize;
                            assert(matching@[t] == w as usize);
                        } else {
                            assert(matching@[matching@.len() - 1] == w as usize);
                        }
                    }
                }
            } else {
                proof {
                    assert forall|w: int|
                        0 <= w < i + 1 && self.word_matches(w, input_letters@, search_type)
                        implies matching@.contains(w as usize) by {
                        if w < i {
                            let t = choose|t: int|
                                0 <= t < before.len() && before[t] == w as usize;
                            assert(matching@[t] == w as usize);
                        }
                    }
                }
            }
            i += 1;
        }
        matching
    }

    /// Letter count of word `w`, as a machine integer.
    pub(crate) fn word_len_of(&self, w: usize) -> (r: usize)
        requires
            self.wf(),
            w < self.word_defs@.len(),
        ensures
            r == self.word_len(w as int),
    {
        proof {
            assert(self.word_wf(w as int));
        }
        let d = &self.word_defs[w];
        (d.sorted_end - d.sorted_start) as usize
    }

    /// Sorts word indices by ascending letter count, keeping the multiset.
    fn sort_words_by_len(&self, v: &mut Vec<usize>)
        requires
            self.wf(),
            forall|k: int| 0 <= k < old(v)@.len() ==> (#[trigger] old(v)@[k]) < self.word_defs@.len(),
        ensures
            final(v)@.len() == old(v)@.len(),
            final(v)@.to_multiset() == old(v)@.to_multiset(),
            forall|k: int| 0 <= k < final(v)@.len() ==> (#[trigger] final(v)@[k]) < self.word_defs@.len(),
            forall|k1: int, k2: int|
                0 <= k1 <= k2 < final(v)@.len() ==> #[trigger] self.word_len(final(v)@[k1] as int)
                    <= #[trigger] self.word_len(final(v)@[k2] as int),
    {
        let n = v.len();
        let mut i: usize = 1;
        while i < n
            invariant
                self.wf(),
                n == v@.len(),
                1 <= i,
                forall|k: int| 0 <= k < v@.len() ==> (#[trigger] v@[k]) < self.word_defs@.len(),
                forall|a: int, b: int|
                    0 <= a <= b < i && b < n ==> #[trigger] self.word_len(v@[a] as int)
                        <= #[trigger] self.word_len(v@[b] as int),
                v@.to_multiset() == old(v)@.to_multiset(),
            decreases n - i,
        {
            let mut j: usize = i;
            while j > 0 && self.word_len_of(v[j - 1]) > self.word_len_of(v[j])
                invariant
                    self.wf(),
                    n == v@.len(),
                    j <= i < n,
                    forall|k: int| 0 <= k < v@.len() ==> (#[trigger] v@[k]) < self.word_defs@.len(),
                    forall|a: int, b: int|
                        0 <= a <= b <= i && a != j && b != j ==> #[trigger] self.word_len(
                            v@[a] as int,
                        ) <= #[trigger] self.word_len(v@[b] as int),
                    forall|a: int|
                        j < a <= i ==> self.word_len(v@[j as int] as int) <= #[trigger] self.word_len(
                            v@[a] as int,
                        ),
                    v@.to_multiset() == old(v)@.to_multiset(),
                decreases j,
            {
                let ghost vprev = v@;
                let lower = v[j - 1];
                let upper = v[j];
                v[j - 1] = upper;
                v[j] = lower;
                proof {
                    assert(v@ =~= vprev.update(j - 1, vprev[j as int]).update(
                        j as int,
                        vprev[j - 1],
                    ));
                    assert(v@.to_multiset() =~= vprev.to_multiset());
                }
                j -= 1;
            }
            i += 1;
        }
    }

    /// Selects the words that can be spelled from the input letters, in
    /// ascending letter-count order.
    ///
    /// With a mandatory word, it must occur among the selected words and is
    /// moved to the end of the list; the search engine walks the list
    /// back-to-front, so every candidate started from scratch is anchored on
    /// it. Without one, a selection larger than `MAX_MATCHABLE_WORDS` is cut
    /// down: the `NB_BIG_WORDS_KEPT` longest words are always kept, the rest
    /// of the budget is filled by a uniform random sample, and the flag
    /// reports that the selection was truncated.
    pub fn get_matchable_words(
        &self,
        input_letters: &[u8],
        search_type: SearchType,
        mandatory_word: &[u8],
    ) -> (r: Result<(Vec<usize>, bool), SearchError>)
        requires
            self.wf(),
            sorted_u8(input_letters@),
        ensures
            match r {
                Ok(selected) => {
                    let ws = selected.0@;
                    let truncated = selected.1;
                    &&& forall|k: int|
                        0 <= k < ws.len() ==> (#[trigger] ws[k]) < self.word_defs@.len()
                            && self.word_matches(ws[k] as int, input_letters@, search_type)
                    &&& ws.no_duplicates()
                    &&& mandatory_word@.len() > 0 ==> {
                        &&& truncated == false
                        &&& ws.len() > 0
                        &&& self.word_matches_mandatory(
                            ws.last() as int,
                            mandatory_word@,
                            search_type,
                        )
                        &&& forall|w: int|
                            0 <= w < self.word_defs@.len() && self.word_matches(
                                w,
                                input_letters@,
                                search_type,
                            ) ==> ws.contains(w as usize)
                        &&& forall|k1: int, k2: int|
                            0 <= k1 < k2 < ws.len() - 1 ==> ws[k1] < ws[k2]
                        &&& forall|k1: int, k2: int|
                            0 <= k1 <= k2 < ws.len() - 1 ==> #[trigger] self.word_len(
                                ws[k1] as int,
                            ) <= #[trigger] self.word_len(ws[k2] as int)
                    }
                    &&& (mandatory_word@.len() == 0 && !truncated) ==> {
                        &&& self.is_match_enumeration(ws, input_letters@, search_type)
                        &&& ws.len() <= MAX_MATCHABLE_WORDS
                    }
                    &&& (mandatory_word@.len() == 0 && truncated) ==> {
                        &&& ws.len() == MAX_MATCHABLE_WORDS
                        &&& forall|k1: int, k2: int|
                            0 <= k1 <= k2 < ws.len() ==> #[trigger] self.word_len(ws[k1] as int)
                                <= #[trigger] self.word_len(ws[k2] as int)
                        &&& exists|e: Seq<usize>|
                            {
                                &&& self.is_match_enumeration(e, input_letters@, search_type)
                                &&& e.len() > MAX_MATCHABLE_WORDS
                                &&& forall|t: int|
                                    e.len() - NB_BIG_WORDS_KEPT <= t < e.len() ==> ws.contains(
                                        #[trigger] e[t],
                                    )
                            }
                    }
                },
                Err(e) => {
                    &&& e == SearchError::MandatoryWordNotFound
                    &&& mandatory_word@.len() > 0
                    &&& !exists|w: int|
                        0 <= w < self.word_defs@.len() && self.word_matches(
                            w,
                            input_letters@,
                            search_type,
                        ) && #[trigger] self.word_matches_mandatory(
                            w,
                            mandatory_word@,
                            search_type,
                        )
                },
            },
    {
        let total_words = self.word_defs.len();
        let mut words = self.collect_matchable(input_letters, search_type);
        proof {
            assert(self.word_defs@.len() == total_words);
            assert forall|k1: int, k2: int|
                0 <= k1 < words@.len() && 0 <= k2 < words@.len() && k1 != k2 implies words@[k1]
                != words@[k2] by {
                if k1 < k2 {
                    assert(words@[k1] < words@[k2]);
                } else {
                    assert(words@[k2] < words@[k1]);
                }
            }
            assert(words@.no_duplicates());
        }
        if mandatory_word.len() > 0 {
            let n = words.len();
            let mut k: usize = 0;
            while k < n
                invariant
                    self.wf(),
                    mandatory_word@.len() > 0,
                    self.word_defs@.len() <= usize::MAX,
                    n == words@.len(),
                    k <= n,
                    self.is_match_enumeration(words@, input_letters@, search_type),
                    words@.no_duplicates(),
                    forall|t: int|
                        0 <= t < k ==> !self.word_matches_mandatory(
                            #[trigger] words@[t] as int,
                            mandatory_word@,
                            search_type,
                        ),
                decreases n - k,
            {
                if self.word_equals_mandatory(words[k], mandatory_word, search_type) {
                    let ghost before = words@;
                    let moved = words.remove(k);
                    words.push(moved);
                    proof {
                        assert(words@ =~= before.remove(k as int).push(before[k as int]));
                        assert(words@.to_multiset() =~= before.to_multiset());
                        before.lemma_multiset_has_no_duplicates();
                        words@.lemma_multiset_has_no_duplicates_conv();
                        // the words before the moved one keep their ascending
                        // index order, hence their ascending length order
                        assert forall|k1: int, k2: int|
                            0 <= k1 < k2 < words@.len() - 1 implies words@[k1] < words@[k2] by {
                            let s1 = if k1 < k as int { k1 } else { k1 + 1 };
                            let s2 = if k2 < k as int { k2 } else { k2 + 1 };
                            assert(words@[k1] == before[s1] && words@[k2] == before[s2]);
                        }
                        assert forall|k1: int, k2: int|
                            0 <= k1 <= k2 < words@.len() - 1 implies #[trigger] self.word_len(
                            words@[k1] as int,
                        ) <= #[trigger] self.word_len(words@[k2] as int) by {
                            if k1 < k2 {
                                assert(words@[k1] < words@[k2]);
                                assert(words@.contains(words@[k1]));
                                assert(before.to_multiset().count(words@[k1]) > 0);
                                assert(before.contains(words@[k1]));
                                assert(words@.contains(words@[k2]));
                                assert(before.to_multiset().count(words@[k2]) > 0);
                                assert(before.contains(words@[k2]));
                                let u1 = choose|u: int|
                                    0 <= u < before.len() && before[u] == words@[k1];
                                let u2 = choose|u: int|
                                    0 <= u < before.len() && before[u] == words@[k2];
                                assert(before[u1] < self.word_defs@.len());
                                assert(before[u2] < self.word_defs@.len());
                            }
                        }
                        assert forall|w: int|
                            0 <= w < self.word_defs@.len() && self.word_matches(
                                w,
                                input_letters@,
                                search_type,
                            ) implies words@.contains(w as usize) by {
                            assert(before.contains(w as usize));
                            assert(before.to_multiset().count(w as usize) > 0);
                        }
                        assert forall|t: int|
                            0 <= t < words@.len() implies (#[trigger] words@[t])
                            < self.word_defs@.len() && self.word_matches(
                            words@[t] as int,
                            input_letters@,
                            search_type,
                        ) by {
                            assert(words@.contains(words@[t]));
                            assert(before.to_multiset().count(words@[t]) > 0);
                            assert(before.contains(words@[t]));
                            let u = choose|u: int|
                                0 <= u < before.len() && before[u] == words@[t];
                            assert(before[u] < self.word_defs@.len() && self.word_matches(
                                before[u] as int,
                                input_letters@,
                                search_type,
                            ));
                        }
                    }
                    return Ok((words, false));
                }
                k += 1;
            }
            proof {
                if exists|w: int|
                    0 <= w < self.word_defs@.len() && self.word_matches(
                        w,
                        input_letters@,
                        search_type,
                    ) && #[trigger] self.word_matches_mandatory(w, mandatory_word@, search_type) {
                    let w = choose|w: int|
                        0 <= w < self.word_defs@.len() && self.word_matches(
                            w,
                            input_letters@,
                            search_type,
                        ) && #[trigger] self.word_matches_mandatory(
                            w,
                            mandatory_word@,
                            search_type,
                        );
                    assert(words@.contains(w as usize));
                    let t = choose|t: int| 0 <= t < words@.len() && words@[t] == w as usize;
                    assert(!self.word_matches_mandatory(
                        words@[t] as int,
                        mandatory_word@,
                        search_type,
                    ));
                }
            }
            return Err(SearchError::MandatoryWordNotFound);
        }
        if words.len() <= MAX_MATCHABLE_WORDS {
            return Ok((words, false));
        }
        // keep the longest words unconditionally, fill the rest of the
        // budget with a uniform random sample, and re-sort by length
        let ghost e = words@;
        let len = words.len();
        let suffix_size = NB_BIG_WORDS_KEPT;
        let start_suffix = len - suffix_size;
        let mut result: Vec<usize> = Vec::new();
        let mut t: usize = start_suffix;
        while t < len
            invariant
                start_suffix <= t <= len,
                len == words@.len(),
                words@ == e,
                result@ =~= e.subrange(start_suffix as int, t as int),
            decreases len - t,
        {
            result.push(words[t]);
            proof {
                assert(e.subrange(start_suffix as int, t + 1) =~= e.subrange(
                    start_suffix as int,
                    t as int,
                ).push(e[t as int]));
            }
            t += 1;
        }
        let additional_size = MAX_MATCHABLE_WORDS - suffix_size;
        let positions = sample_distinct_indices(start_suffix, additional_size);
        let mut s: usize = 0;
        while s < positions.len()
            invariant
                self.wf(),
                len == words@.len(),
                words@ == e,
                self.is_match_enumeration(e, input_letters@, search_type),
                start_suffix == len - suffix_size,
                suffix_size == NB_BIG_WORDS_KEPT,
                s <= positions@.len(),
                positions@.len() == additional_size,
                forall|a: int| 0 <= a < positions@.len() ==> (#[trigger] positions@[a]) < start_suffix,
                positions@.no_duplicates(),
                result@.len() == suffix_size + s,
                forall|a: int|
                    0 <= a < suffix_size ==> result@[a] == e[start_suffix + a],
                forall|a: int|
                    0 <= a < s ==> result@[suffix_size + a] == e[positions@[a] as int],
            decreases positions@.len() - s,
        {
            let p = positions[s];
            result.push(words[p]);
            s += 1;
        }
        proof {
            // every kept entry is one of the matching words, and no word is
            // kept twice: the enumeration is strictly increasing, so equal
            // entries would come from one source position
            assert forall|a: int|
                0 <= a < result@.len() implies exists|src: int|
                0 <= src < e.len() && e[src] == #[trigger] result@[a] && (a < suffix_size
                    ==> src == start_suffix + a) && (a >= suffix_size ==> src == positions@[
                a - suffix_size] as int) by {
                if a < suffix_size {
                    assert(result@[a] == e[start_suffix + a]);
                } else {
                    assert(result@[a] == e[positions@[a - suffix_size] as int]);
                }
            }
            assert forall|a: int, b: int|
                0 <= a < result@.len() && 0 <= b < result@.len() && a != b implies result@[a]
                != result@[b] by {
                let sa = if a < suffix_size {
                    start_suffix + a
                } else {
                    positions@[a - suffix_size] as int
                };
                let sb = if b < suffix_size {
                    start_suffix + b
                } else {
                    positions@[b - suffix_size] as int
                };
                assert(result@[a] == e[sa] && result@[b] == e[sb]);
                assert(sa != sb);
                if sa < sb {
                    assert(e[sa] < e[sb]);
                } else {
                    assert(e[sb] < e[sa]);
                }
            }
            assert(result@.no_duplicates());
            result@.lemma_multiset_has_no_duplicates();
            assert forall|a: int|
                0 <= a < result@.len() implies (#[trigger] result@[a]) < self.word_defs@.len()
                && self.word_matches(result@[a] as int, input_letters@, search_type) by {
                let src = if a < suffix_size as int {
                    start_suffix + a
                } else {
                    positions@[a - suffix_size] as int
                };
                assert(result@[a] == e[src]);
            }
        }
        let ghost presort = result@;
        self.sort_words_by_len(&mut result);
        proof {
            assert forall|k: int|
                0 <= k < result@.len() implies (#[trigger] result@[k]) < self.word_defs@.len()
                && self.word_matches(result@[k] as int, input_letters@, search_type) by {
                assert(result@.contains(result@[k]));
                assert(presort.to_multiset().count(result@[k]) > 0);
                assert(presort.contains(result@[k]));
                let u = choose|u: int| 0 <= u < presort.len() && presort[u] == result@[k];
                assert(presort[u] < self.word_defs@.len() && self.word_matches(
                    presort[u] as int,
                    input_letters@,
                    search_type,
                ));
            }
            result@.lemma_multiset_has_no_duplicates_conv();
            assert forall|tt: int|
                e.len() - NB_BIG_WORDS_KEPT <= tt < e.len() implies result@.contains(
                #[trigger] e[tt],
            ) by {
                assert(presort[tt - start_suffix] == e[tt]);
                assert(presort.contains(e[tt]));
                assert(result@.to_multiset().count(e[tt]) > 0);
            }
        }
        Ok((result, true))
    }
}

/// The cap on how many matchable words enter the search, and how many of the
/// longest ones survive truncation unconditionally.
pub const MAX_MATCHABLE_WORDS: usize = 600;

pub const NB_BIG_WORDS_KEPT: usize = 30;

/// A query that cannot be honored.
#[derive(PartialEq, Eq, Structural, Copy, Clone, Debug)]
pub enum SearchError {
    /// The query holds more letters than the admission cap allows.
    TooManyLetters { letters: usize, maximum: usize },
    /// The mandatory word cannot be spelled from the query's letters or is
    /// absent from the vocabulary.
    MandatoryWordNotFound,
}

/// Relies on rand::seq::index::sample: draws exactly `amount` distinct
/// indices from `0..length`, in random order; nothing is assumed about
/// which indices come back.
#[verifier::external_body]
fn sample_distinct_indices(length: usize, amount: usize) -> (r: Vec<usize>)
    requires
        amount <= length,
    ensures
        r@.len() == amount,
        forall|i: int| 0 <= i < r@.len() ==> (#[trigger] r@[i]) < length,
        r@.no_duplicates(),
{
    rand::seq::index::sample(&mut rand::rng(), length, amount).into_vec()
}

/// Copies a slice of letters into a fresh vector.
pub(crate) fn copy_letters(src: &Vec<u8>) -> (r: Vec<u8>)
    ensures
        r@ == src@,
{
    let mut r: Vec<u8> = Vec::with_capacity(src.len());
    let mut i: usize = 0;
    while i < src.len()
        invariant
            i <= src@.len(),
            r@ == src@.take(i as int),
        decreases src@.len() - i,
    {
        r.push(src[i]);
        proof {
            assert(src@.take(i + 1) =~= src@.take(i as int).push(src@[i as int]));
        }
        i += 1;
    }
    proof {
        assert(src@.take(src@.len() as int) =~= src@);
    }
    r
}

/// Appends a slice of letters to a buffer.
fn extend_letters(dst: &mut Vec<u8>, src: &Vec<u8>)
    ensures
        final(dst)@ == old(dst)@ + src@,
{
    let mut i: usize = 0;
    proof {
        assert(old(dst)@ + src@.take(0) =~= old(dst)@);
    }
    while i < src.len()
        invariant
            i <= src@.len(),
            dst@ == old(dst)@ + src@.take(i as int),
        decreases src@.len() - i,
    {
        dst.push(src[i]);
        proof {
            assert(old(dst)@ + src@.take(i + 1) =~= (old(dst)@ + src@.take(i as int)).push(
                src@[i as int],
            ));
        }
        i += 1;
    }
    proof {
        assert(src@.take(src@.len() as int) =~= src@);
    }
}

} // verus!
