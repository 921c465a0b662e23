//! The candidate search engine: a pruned enumeration of word combinations
//! whose letters together consume the query's letters exactly.
//!
//! A candidate holds the letters not yet consumed, a Bloom summary of them,
//! and a fixed-capacity list of matched-word positions. Candidates branch
//! from existing candidates or start from scratch at each word; hard caps on
//! completions and on branching keep the walk from exploding.

use vstd::prelude::*;
use vstd::multiset::Multiset;
use crate::codec::{SearchType, encode_seq, lower_of};
use crate::index::{Index, SearchError, supported_of};
use crate::letters::{bloom_of, mask_seq, sorted_u8, sub_multiset};

verus! {

broadcast use {vstd::seq_lib::group_to_multiset_ensures, vstd::multiset::group_multiset_axioms};

/// The hard cap on how many words one expression may combine.
pub const MAX_EXPR_SIZE: usize = 6;

/// The admission cap on query letters.
pub const MAX_QUERY_LETTERS: usize = 25;

/// The cap on complete candidates found in one search call.
pub const MAX_CANDIDATES_TO_FIND: usize = 10000;

/// Inputs shorter than this always branch freely.
pub const SHORT_INPUT_LETTERS: usize = 20;

/// While fewer candidates than this exist, branching is always allowed.
pub const FEW_CANDIDATES: usize = 300;

/// Words longer than this always branch.
pub const LONG_WORD_LETTERS: usize = 4;

/// One partial or complete assignment of matchable words to the query's
/// letters: the remaining letter pool, its Bloom summary, and the positions
/// (into the matchable-word list) already matched.
pub struct Matching {
    pub letter_pool: Vec<u8>,
    pub is_complete: bool,
    pub bloom_letters: u32,
    pub matched: [usize; MAX_EXPR_SIZE],
    pub matched_size: u8,
}

/// The ranked expressions for one query, and whether the matchable-word
/// selection was truncated before the search (in which case combinations may
/// have been missed).
pub struct AnagramResult {
    pub anagrams: Vec<(String, u128)>,
    pub was_truncated: bool,
}

/// The encoded letters a query keeps: lowercased, unsupported characters
/// dropped.
pub open spec fn query_codes(input: Seq<char>) -> Seq<u8> {
    encode_seq(supported_of(lower_of(input)))
}

/// The query's letter multiset as the search mode compares it.
pub open spec fn masked_query_ms(input: Seq<char>, search_type: SearchType) -> Multiset<u8> {
    mask_seq(query_codes(input), search_type).to_multiset()
}

/// The combined letter multiset of a sequence of vocabulary words, as the
/// search mode compares it.
pub open spec fn words_masked_ms(index: Index, ws: Seq<int>, search_type: SearchType) -> Multiset<
    u8,
>
    decreases ws.len(),
{
    if ws.len() == 0 {
        Multiset::<u8>::empty()
    } else {
        words_masked_ms(index, ws.drop_last(), search_type).add(
            mask_seq(index.word_sorted(ws.last()), search_type).to_multiset(),
        )
    }
}

/// The surface text of one word.
pub open spec fn word_text(index: Index, w: int) -> Seq<char> {
    crate::codec::decode_seq(index.word_original(w))
}

/// The surface text of a sequence of words, joined with single spaces.
pub open spec fn words_text(index: Index, ws: Seq<int>) -> Seq<char>
    decreases ws.len(),
{
    if ws.len() == 0 {
        Seq::<char>::empty()
    } else if ws.len() == 1 {
        word_text(index, ws.last())
    } else {
        words_text(index, ws.drop_last()) + seq![' '] + word_text(index, ws.last())
    }
}

/// Positions into the matchable-word list, resolved to word indices.
pub open spec fn word_index_seq(ml: Seq<usize>, positions: Seq<usize>) -> Seq<int> {
    positions.map_values(|p: usize| ml[p as int] as int)
}

/// `ws` decomposes the query into vocabulary words spelling `text` with
/// score `score`: the words' combined letters are exactly the query's
/// letters under the search mode, the text joins their spellings with
/// single spaces, a single word carries the maximum representable score and
/// a combination its normalized permutation score.
pub open spec fn expression_of(
    index: Index,
    ws: Seq<int>,
    text: Seq<char>,
    score: u128,
    input: Seq<char>,
    search_type: SearchType,
) -> bool {
    &&& 1 <= ws.len() <= MAX_EXPR_SIZE
    &&& forall|t: int| 0 <= t < ws.len() ==> 0 <= #[trigger] ws[t] < index.word_defs@.len()
    &&& words_masked_ms(index, ws, search_type) == masked_query_ms(input, search_type)
    &&& text == words_text(index, ws)
    &&& if ws.len() == 1 {
        score == u128::MAX
    } else {
        score as int == crate::scoring::spec_normalized_score(index, ws)
    }
}

/// `text` is a multi-word anagram of the query, scored as the engine
/// promises.
pub open spec fn is_anagram_expression(
    index: Index,
    text: Seq<char>,
    score: u128,
    input: Seq<char>,
    search_type: SearchType,
) -> bool {
    exists|ws: Seq<int>| #[trigger] expression_of(index, ws, text, score, input, search_type)
}

/// `text` is a multi-word anagram of the query whose decomposition uses a
/// word spelling the mandatory word.
pub open spec fn is_anchored_anagram_expression(
    index: Index,
    text: Seq<char>,
    score: u128,
    input: Seq<char>,
    mandatory: Seq<char>,
    search_type: SearchType,
) -> bool {
    exists|ws: Seq<int>|
        {
            &&& #[trigger] expression_of(index, ws, text, score, input, search_type)
            &&& exists|t: int|
                0 <= t < ws.len() && index.word_matches_mandatory(
                    #[trigger] ws[t],
                    query_codes(mandatory),
                    search_type,
                )
        }
}

impl Matching {
    /// The matched positions, in discovery order.
    pub open spec fn matched_seq(self) -> Seq<usize> {
        self.matched@.take(self.matched_size as int)
    }

    /// A candidate's invariant with respect to the matchable-word list and
    /// the query's letter multiset: the matched positions are in range, the
    /// pool is sorted with a matching Bloom summary, completeness mirrors an
    /// empty pool, and pool letters plus matched words' letters are exactly
    /// the query's letters.
    pub open spec fn wf(
        self,
        index: Index,
        ml: Seq<usize>,
        qms: Multiset<u8>,
        search_type: SearchType,
    ) -> bool {
        &&& 1 <= self.matched_size as int <= MAX_EXPR_SIZE
        &&& forall|t: int|
            0 <= t < self.matched_seq().len() ==> (#[trigger] self.matched_seq()[t]) < ml.len()
        &&& sorted_u8(self.letter_pool@)
        &&& self.bloom_letters == bloom_of(self.letter_pool@)
        &&& (self.is_complete <==> self.letter_pool@.len() == 0)
        &&& mask_seq(self.letter_pool@, search_type).to_multiset().add(
            words_masked_ms(index, word_index_seq(ml, self.matched_seq()), search_type),
        ) == qms
    }
}

/// How many of the candidates are complete. Every complete candidate is
/// scored into exactly one result entry, and completions are counted against
/// the search cap, so this ties the result count to the cap.
pub open spec fn spec_complete_count(cs: Seq<Matching>) -> int
    decreases cs.len(),
{
    if cs.len() == 0 {
        0
    } else {
        spec_complete_count(cs.drop_last()) + if cs.last().is_complete {
            1int
        } else {
            0int
        }
    }
}

/// Word `w` alone fills the query: its sorted letters, as the mode compares
/// them, are exactly the query's letter multiset.
pub open spec fn word_fills_query(
    index: Index,
    w: int,
    qms: Multiset<u8>,
    search_type: SearchType,
) -> bool {
    mask_seq(index.word_sorted(w), search_type).to_multiset() == qms
}

/// Some candidate is the complete single-word candidate for position `p` of
/// the matchable-word list.
pub open spec fn has_single_candidate(cs: Seq<Matching>, p: usize) -> bool {
    exists|c: int|
        0 <= c < cs.len() && (#[trigger] cs[c]).is_complete && cs[c].matched_seq() == seq![p]
}

/// Some entry carries this text with the single-word sentinel score.
pub open spec fn has_sentinel_entry(entries: Seq<(String, u128)>, text: Seq<char>) -> bool {
    exists|k: int|
        0 <= k < entries.len() && (#[trigger] entries[k]).0@ == text && entries[k].1 == u128::MAX
}

/// Removing one word from a sequence removes exactly its letters from the
/// combined multiset.
pub proof fn lemma_words_ms_remove(index: Index, ws: Seq<int>, k: int, search_type: SearchType)
    requires
        0 <= k < ws.len(),
    ensures
        words_masked_ms(index, ws, search_type) == words_masked_ms(
            index,
            ws.remove(k),
            search_type,
        ).add(mask_seq(index.word_sorted(ws[k]), search_type).to_multiset()),
    decreases ws.len(),
{
    if k == ws.len() - 1 {
        assert(ws.remove(k) =~= ws.drop_last());
    } else {
        lemma_words_ms_remove(index, ws.drop_last(), k, search_type);
        assert(ws.remove(k).drop_last() =~= ws.drop_last().remove(k));
        assert(ws.remove(k).last() == ws.last());
        assert(ws.drop_last()[k] == ws[k]);
        assert(words_masked_ms(index, ws, search_type) =~= words_masked_ms(
            index,
            ws.remove(k),
            search_type,
        ).add(mask_seq(index.word_sorted(ws[k]), search_type).to_multiset()));
    }
}

/// Reordering the matched positions does not change the combined letters.
pub proof fn lemma_words_ms_permutation(
    index: Index,
    ml: Seq<usize>,
    s1: Seq<usize>,
    s2: Seq<usize>,
    search_type: SearchType,
)
    requires
        s1.to_multiset() == s2.to_multiset(),
    ensures
        words_masked_ms(index, word_index_seq(ml, s1), search_type) == words_masked_ms(
            index,
            word_index_seq(ml, s2),
            search_type,
        ),
    decreases s1.len(),
{
    broadcast use vstd::seq_lib::group_to_multiset_ensures;

    if s1.len() == 0 {
        assert(s1.to_multiset().len() == 0);
        assert(s2.len() == 0);
        assert(word_index_seq(ml, s1) =~= word_index_seq(ml, s2));
    } else {
        let last = s1.last();
        assert(s1.contains(last));
        assert(s1.to_multiset().count(last) > 0);
        assert(s2.to_multiset().count(last) > 0);
        assert(s2.contains(last));
        let k = choose|k: int| 0 <= k < s2.len() && s2[k] == last;
        let s2r = s2.remove(k);
        assert(s2r.to_multiset() == s2.to_multiset().remove(last));
        assert(s1.drop_last() =~= s1.remove(s1.len() - 1));
        assert(s1.drop_last().to_multiset() == s1.to_multiset().remove(last));
        assert(s1.drop_last().to_multiset() =~= s2r.to_multiset());
        lemma_words_ms_permutation(index, ml, s1.drop_last(), s2r, search_type);
        let w1 = word_index_seq(ml, s1);
        let w2 = word_index_seq(ml, s2);
        assert(w1.drop_last() =~= word_index_seq(ml, s1.drop_last()));
        assert(w2.remove(k) =~= word_index_seq(ml, s2r));
        lemma_words_ms_remove(index, w2, k, search_type);
        assert(w1.last() == ml[last as int] as int);
        assert(w2[k] == ml[last as int] as int);
        assert(words_masked_ms(index, w1, search_type) =~= words_masked_ms(
            index,
            w2,
            search_type,
        ));
    }
}

/// Letter multisets decide matching, so any two inputs holding the same
/// letters admit exactly the same words.
pub proof fn lemma_word_matches_congruence(
    index: Index,
    s1: Seq<u8>,
    s2: Seq<u8>,
    search_type: SearchType,
)
    requires
        s1.to_multiset() == s2.to_multiset(),
    ensures
        forall|w: int|
            index.word_matches(w, s1, search_type) <==> #[trigger] index.word_matches(
                w,
                s2,
                search_type,
            ),
{
    crate::letters::lemma_mask_ms_congruence(s1, s2, search_type);
}

/// The mandatory word can be honored: some vocabulary word both fits in the
/// query's letters and spells the mandatory word under the mode.
pub open spec fn mandatory_ok(
    index: Index,
    input: Seq<char>,
    mandatory: Seq<char>,
    search_type: SearchType,
) -> bool {
    exists|w: int|
        0 <= w < index.word_defs@.len() && index.word_matches(
            w,
            query_codes(input),
            search_type,
        ) && #[trigger] index.word_matches_mandatory(w, query_codes(mandatory), search_type)
}

/// More words fit in the query's letters than the matchable-word cap allows.
pub open spec fn match_count_exceeds_cap(
    index: Index,
    input: Seq<char>,
    search_type: SearchType,
) -> bool {
    exists|e: Seq<usize>|
        #[trigger] index.is_match_enumeration(e, query_codes(input), search_type) && e.len()
            > crate::index::MAX_MATCHABLE_WORDS
}

impl Index {
    /// Finds every way the query's letters can be rearranged into vocabulary
    /// words, walking the matchable-word list from the longest word down,
    /// and ranks the complete combinations by score, best first.
    ///
    /// Every returned expression is a true anagram: the letters of its words
    /// are exactly the query's letters under the search mode. A query with
    /// more letters than the admission cap is rejected before any search
    /// work, as is a mandatory word that no matchable word spells.
    pub fn find_anagrams_reverse(
        &self,
        input: &str,
        search_type: SearchType,
        mandatory_word: &str,
    ) -> (r: Result<AnagramResult, SearchError>)
        requires
            self.wf(),
        ensures
            match r {
                Ok(res) => {
                    &&& supported_of(lower_of(input@)).len() <= MAX_QUERY_LETTERS
                    &&& res.anagrams@.len() <= MAX_CANDIDATES_TO_FIND
                    &&& forall|k: int|
                        0 <= k < res.anagrams@.len() ==> is_anagram_expression(
                            *self,
                            (#[trigger] res.anagrams@[k]).0@,
                            res.anagrams@[k].1,
                            input@,
                            search_type,
                        )
                    &&& forall|k1: int, k2: int|
                        0 <= k1 <= k2 < res.anagrams@.len() ==> (#[trigger] res.anagrams@[k1]).1
                            >= (#[trigger] res.anagrams@[k2]).1
                    &&& query_codes(mandatory_word@).len() > 0 ==> {
                        &&& res.was_truncated == false
                        &&& mandatory_ok(*self, input@, mandatory_word@, search_type)
                        &&& forall|k: int|
                            0 <= k < res.anagrams@.len() ==> is_anchored_anagram_expression(
                                *self,
                                (#[trigger] res.anagrams@[k]).0@,
                                res.anagrams@[k].1,
                                input@,
                                mandatory_word@,
                                search_type,
                            )
                    }
                    &&& res.was_truncated ==> match_count_exceeds_cap(*self, input@, search_type)
                    &&& (!res.was_truncated && res.anagrams@.len() + 1 < MAX_CANDIDATES_TO_FIND
                        && query_codes(mandatory_word@).len() == 0 && supported_of(
                        lower_of(input@),
                    ).len() < SHORT_INPUT_LETTERS) ==> forall|w: int|
                        0 <= w < self.word_defs@.len() && #[trigger] word_fills_query(
                            *self,
                            w,
                            masked_query_ms(input@, search_type),
                            search_type,
                        ) ==> has_sentinel_entry(res.anagrams@, word_text(*self, w))
                },
                Err(SearchError::TooManyLetters { letters, maximum }) => {
                    &&& letters == supported_of(lower_of(input@)).len()
                    &&& letters > MAX_QUERY_LETTERS
                    &&& maximum == MAX_QUERY_LETTERS
                },
                Err(SearchError::MandatoryWordNotFound) => {
                    &&& supported_of(lower_of(input@)).len() <= MAX_QUERY_LETTERS
                    &&& query_codes(mandatory_word@).len() > 0
                    &&& !mandatory_ok(*self, input@, mandatory_word@, search_type)
                },
            },
    {
        let total_words = self.word_defs.len();
        let sorted_input = self.process_input(input);
        proof {
            crate::letters::lemma_mask_ms_congruence(
                sorted_input@,
                query_codes(input@),
                search_type,
            );
            lemma_word_matches_congruence(
                *self,
                sorted_input@,
                query_codes(input@),
                search_type,
            );
        }
        if sorted_input.len() > MAX_QUERY_LETTERS {
            return Err(
                SearchError::TooManyLetters {
                    letters: sorted_input.len(),
                    maximum: MAX_QUERY_LETTERS,
                },
            );
        }
        let processed_mandatory = crate::index::encode_supported(mandatory_word);
        // a mandatory word without a single supported letter is treated as
        // absent: it can anchor nothing
        let mode_mandatory = processed_mandatory.len() > 0;
        let matchable_res = self.get_matchable_words(
            sorted_input.as_slice(),
            search_type,
            processed_mandatory.as_slice(),
        );
        let selected = match matchable_res {
            Ok(p) => p,
            Err(e) => {
                proof {
                    if mandatory_ok(*self, input@, mandatory_word@, search_type) {
                        let w = choose|w: int|
                            0 <= w < self.word_defs@.len() && self.word_matches(
                                w,
                                query_codes(input@),
                                search_type,
                            ) && #[trigger] self.word_matches_mandatory(
                                w,
                                query_codes(mandatory_word@),
                                search_type,
                            );
                        assert(self.word_matches(w, sorted_input@, search_type));
                        assert(false);
                    }
                }
                return Err(e);
            },
        };
        let matchable_words = selected.0;
        let was_truncated = selected.1;
        let ghost ml = matchable_words@;
        let ghost qms = masked_query_ms(input@, search_type);
        proof {
            assert(mask_seq(sorted_input@, search_type).to_multiset() == qms);
            if was_truncated {
                let e = choose|e: Seq<usize>|
                    {
                        &&& self.is_match_enumeration(e, sorted_input@, search_type)
                        &&& e.len() > crate::index::MAX_MATCHABLE_WORDS
                        &&& forall|t: int|
                            e.len() - crate::index::NB_BIG_WORDS_KEPT <= t < e.len()
                                ==> ml.contains(#[trigger] e[t])
                    };
                assert(self.is_match_enumeration(e, query_codes(input@), search_type)) by {
                    assert forall|w: int|
                        0 <= w < self.word_defs@.len() && self.word_matches(
                            w,
                            query_codes(input@),
                            search_type,
                        ) implies e.contains(w as usize) by {
                        assert(self.word_matches(w, sorted_input@, search_type));
                    }
                }
                assert(match_count_exceeds_cap(*self, input@, search_type));
            }
            if processed_mandatory@.len() > 0 {
                assert(ml.len() > 0);
                let wlast = ml.last();
                assert(ml[ml.len() - 1] == wlast);
                assert(self.word_matches(wlast as int, sorted_input@, search_type));
                assert(self.word_matches(wlast as int, query_codes(input@), search_type));
                assert(self.word_matches_mandatory(
                    wlast as int,
                    query_codes(mandatory_word@),
                    search_type,
                ));
                assert(mandatory_ok(*self, input@, mandatory_word@, search_type));
            }
        }
        let input_length = sorted_input.len();
        let nb_matchable = matchable_words.len();
        let mut candidates: Vec<Matching> = Vec::new();
        let mut nb_found: usize = 0;
        let mut enough_found = false;
        let mut index_pos: usize = nb_matchable;
        while index_pos > 0
            invariant_except_break
                !enough_found,
                nb_found < MAX_CANDIDATES_TO_FIND,
                (input_length < SHORT_INPUT_LETTERS && !mode_mandatory) ==> forall|p: usize|
                    index_pos <= p < nb_matchable && #[trigger] word_fills_query(
                        *self,
                        ml[p as int] as int,
                        qms,
                        search_type,
                    ) ==> has_single_candidate(candidates@, p),
            invariant
                self.wf(),
                ml == matchable_words@,
                forall|k: int|
                    0 <= k < ml.len() ==> (#[trigger] ml[k]) < self.word_defs@.len()
                        && self.word_matches(ml[k] as int, sorted_input@, search_type),
                sorted_u8(sorted_input@),
                mask_seq(sorted_input@, search_type).to_multiset() == qms,
                input_length == sorted_input@.len(),
                input_length <= MAX_QUERY_LETTERS,
                index_pos <= nb_matchable,
                nb_matchable == ml.len(),
                nb_found <= MAX_CANDIDATES_TO_FIND,
                enough_found ==> nb_found == MAX_CANDIDATES_TO_FIND,
                spec_complete_count(candidates@) <= nb_found,
                nb_found <= spec_complete_count(candidates@) + if enough_found {
                    1int
                } else {
                    0int
                },
                forall|c: int|
                    0 <= c < candidates@.len() ==> (#[trigger] candidates@[c]).wf(
                        *self,
                        ml,
                        qms,
                        search_type,
                    ),
                mode_mandatory ==> forall|c: int|
                    0 <= c < candidates@.len() ==> (#[trigger] candidates@[c]).matched_seq()[0]
                        as int == ml.len() - 1,
            ensures
                spec_complete_count(candidates@) <= MAX_CANDIDATES_TO_FIND,
                enough_found ==> spec_complete_count(candidates@) + 1
                    >= MAX_CANDIDATES_TO_FIND,
                (!enough_found && input_length < SHORT_INPUT_LETTERS && !mode_mandatory)
                    ==> forall|p: usize|
                    p < nb_matchable && #[trigger] word_fills_query(
                        *self,
                        ml[p as int] as int,
                        qms,
                        search_type,
                    ) ==> has_single_candidate(candidates@, p),
                forall|c: int|
                    0 <= c < candidates@.len() ==> (#[trigger] candidates@[c]).wf(
                        *self,
                        ml,
                        qms,
                        search_type,
                    ),
                mode_mandatory ==> forall|c: int|
                    0 <= c < candidates@.len() ==> (#[trigger] candidates@[c]).matched_seq()[0]
                        as int == ml.len() - 1,
            decreases index_pos,
        {
            index_pos -= 1;
            let word_idx = matchable_words[index_pos];
            let searched_word_letters = self.word_sorted_slice(word_idx);
            let cur_word_length = searched_word_letters.len();
            proof {
                assert(self.word_wf(word_idx as int));
                assert(self.word_matches(word_idx as int, sorted_input@, search_type));
                crate::letters::lemma_subset_len(
                    mask_seq(self.word_sorted(word_idx as int), search_type),
                    mask_seq(sorted_input@, search_type),
                );
            }
            let word_bloom = self.word_defs[word_idx].bloom_letters;
            let nb_cand = candidates.len();
            let mut cand_index: usize = 0;
            /* extend existing candidates with this word */
            while cand_index < nb_cand
                invariant_except_break
                    !enough_found,
                    nb_found < MAX_CANDIDATES_TO_FIND,
                invariant
                    (input_length < SHORT_INPUT_LETTERS && !mode_mandatory) ==> forall|p: usize|
                        index_pos < p < nb_matchable && #[trigger] word_fills_query(
                            *self,
                            ml[p as int] as int,
                            qms,
                            search_type,
                        ) ==> has_single_candidate(candidates@, p),
                    self.wf(),
                    ml == matchable_words@,
                    forall|k: int|
                        0 <= k < ml.len() ==> (#[trigger] ml[k]) < self.word_defs@.len()
                            && self.word_matches(ml[k] as int, sorted_input@, search_type),
                    sorted_u8(sorted_input@),
                    mask_seq(sorted_input@, search_type).to_multiset() == qms,
                    input_length == sorted_input@.len(),
                    input_length <= MAX_QUERY_LETTERS,
                    index_pos < nb_matchable,
                    nb_matchable == ml.len(),
                    word_idx == ml[index_pos as int],
                    searched_word_letters@ == self.word_sorted(word_idx as int),
                    cur_word_length == searched_word_letters@.len(),
                    cur_word_length <= input_length,
                    nb_cand <= candidates@.len(),
                    cand_index <= nb_cand,
                    nb_found <= MAX_CANDIDATES_TO_FIND,
                    enough_found ==> nb_found == MAX_CANDIDATES_TO_FIND,
                    spec_complete_count(candidates@) <= nb_found,
                    nb_found <= spec_complete_count(candidates@) + if enough_found {
                        1int
                    } else {
                        0int
                    },
                    forall|c: int|
                        0 <= c < candidates@.len() ==> (#[trigger] candidates@[c]).wf(
                            *self,
                            ml,
                            qms,
                            search_type,
                        ),
                    mode_mandatory ==> forall|c: int|
                        0 <= c < candidates@.len() ==> (#[trigger] candidates@[c]).matched_seq()[0]
                            as int == ml.len() - 1,
                ensures
                    (input_length < SHORT_INPUT_LETTERS && !mode_mandatory) ==> forall|p: usize|
                        index_pos < p < nb_matchable && #[trigger] word_fills_query(
                            *self,
                            ml[p as int] as int,
                            qms,
                            search_type,
                        ) ==> has_single_candidate(candidates@, p),
                    nb_found <= MAX_CANDIDATES_TO_FIND,
                    !enough_found ==> nb_found < MAX_CANDIDATES_TO_FIND,
                    enough_found ==> nb_found == MAX_CANDIDATES_TO_FIND,
                    spec_complete_count(candidates@) <= nb_found,
                    nb_found <= spec_complete_count(candidates@) + if enough_found {
                        1int
                    } else {
                        0int
                    },
                    forall|c: int|
                        0 <= c < candidates@.len() ==> (#[trigger] candidates@[c]).wf(
                            *self,
                            ml,
                            qms,
                            search_type,
                        ),
                    mode_mandatory ==> forall|c: int|
                        0 <= c < candidates@.len() ==> (#[trigger] candidates@[c]).matched_seq()[0]
                            as int == ml.len() - 1,
                decreases nb_cand - cand_index,
            {
                proof {
                    assert(candidates@[cand_index as int].wf(*self, ml, qms, search_type));
                    assert(self.word_wf(word_idx as int));
                }
                let cand_complete = candidates[cand_index].is_complete;
                if !cand_complete {
                    let pool_len = candidates[cand_index].letter_pool.len();
                    let matched_size = candidates[cand_index].matched_size;
                    proof {
                        let cand = candidates@[cand_index as int];
                        let mpool = mask_seq(cand.letter_pool@, search_type).to_multiset();
                        let mwords = words_masked_ms(
                            *self,
                            word_index_seq(ml, cand.matched_seq()),
                            search_type,
                        );
                        assert(mpool.add(mwords) == qms);
                        assert(mpool.len() + mwords.len() == qms.len());
                        assert(mpool.len() == cand.letter_pool@.len());
                        assert(qms.len() == sorted_input@.len());
                        assert(pool_len <= input_length);
                    }
                    /* branch only while the estimated expression stays short
                     relative to the input */
                    let mut should_add_new = input_length < SHORT_INPUT_LETTERS
                        || candidates.len() < FEW_CANDIDATES || cur_word_length > LONG_WORD_LETTERS;
                    if !should_add_new && cur_word_length > 0 {
                        let est: u64 = matched_size as u64 + ((pool_len as u64) + (cur_word_length
                            as u64) - 1) / (cur_word_length as u64);
                        should_add_new = 10 * est < 3 * (input_length as u64);
                    }
                    if should_add_new {
                        let bloom_ok = (candidates[cand_index].bloom_letters & word_bloom)
                            == word_bloom;
                        let has_capacity = (matched_size as usize) < MAX_EXPR_SIZE;
                        if has_capacity && bloom_ok && crate::letters::check_contains_all_letters(
                            candidates[cand_index].letter_pool.as_slice(),
                            searched_word_letters,
                            search_type,
                        ) {
                            let ghost old_cand = candidates@[cand_index as int];
                            let mut new_pool = crate::index::copy_letters(
                                &candidates[cand_index].letter_pool,
                            );
                            crate::letters::remove_elems(
                                &mut new_pool,
                                searched_word_letters,
                                search_type,
                            );
                            let complete = new_pool.len() == 0;
                            let new_bloom = crate::letters::encoded_letters_to_bloom_u32(
                                new_pool.as_slice(),
                            );
                            let mut new_matched = candidates[cand_index].matched;
                            new_matched[matched_size as usize] = index_pos;
                            let new_cand = Matching {
                                letter_pool: new_pool,
                                is_complete: complete,
                                bloom_letters: new_bloom,
                                matched: new_matched,
                                matched_size: matched_size + 1,
                            };
                            proof {
                                assert(new_cand.matched_seq() =~= old_cand.matched_seq().push(
                                    index_pos,
                                ));
                                let wsold = word_index_seq(ml, old_cand.matched_seq());
                                let wsnew = word_index_seq(ml, new_cand.matched_seq());
                                assert(wsnew =~= wsold.push(ml[index_pos as int] as int));
                                assert(wsnew.drop_last() =~= wsold);
                                assert(wsnew.last() == word_idx as int);
                                assert(words_masked_ms(*self, wsnew, search_type)
                                    == words_masked_ms(*self, wsold, search_type).add(
                                    mask_seq(
                                        self.word_sorted(word_idx as int),
                                        search_type,
                                    ).to_multiset(),
                                ));
                                assert(mask_seq(new_cand.letter_pool@, search_type).to_multiset().add(
                                    words_masked_ms(*self, wsnew, search_type),
                                ) =~= qms);
                                assert(new_cand.wf(*self, ml, qms, search_type));
                            }
                            if complete {
                                nb_found += 1;
                            }
                            if nb_found >= MAX_CANDIDATES_TO_FIND {
                                enough_found = true;
                                break ;
                            }
                            let ghost cs_before = candidates@;
                            candidates.push(new_cand);
                            proof {
                                assert(candidates@.drop_last() =~= cs_before);
                                assert(candidates@.last() == new_cand);
                            }
                        }
                    }
                }
                cand_index += 1;
            }
            if enough_found {
                break ;
            }
            let ghost cs_after_inner = candidates@;
            /* start a new candidate from this word alone; with a mandatory
             word, only at its position, so every combination is anchored on
             it */
            let mut should_add_scratch = input_length < SHORT_INPUT_LETTERS || candidates.len()
                < FEW_CANDIDATES || cur_word_length > LONG_WORD_LETTERS || 5 * (cur_word_length
                as u64) > (input_length as u64);
            if mode_mandatory && index_pos != nb_matchable - 1 {
                should_add_scratch = false;
            }
            if should_add_scratch && crate::letters::check_contains_all_letters(
                sorted_input.as_slice(),
                searched_word_letters,
                search_type,
            ) {
                let remaining_letters = crate::letters::new_vec_removed_letters(
                    sorted_input.as_slice(),
                    searched_word_letters,
                    search_type,
                );
                let complete = remaining_letters.len() == 0;
                let bloom_letters = crate::letters::encoded_letters_to_bloom_u32(
                    remaining_letters.as_slice(),
                );
                let mut new_matched = [0usize; MAX_EXPR_SIZE];
                new_matched[0] = index_pos;
                let new_candidate = Matching {
                    letter_pool: remaining_letters,
                    is_complete: complete,
                    bloom_letters,
                    matched: new_matched,
                    matched_size: 1,
                };
                proof {
                    assert(new_candidate.matched_seq() =~= seq![index_pos]);
                    let ws = word_index_seq(ml, new_candidate.matched_seq());
                    assert(ws =~= seq![ml[index_pos as int] as int]);
                    assert(ws.drop_last() =~= Seq::<int>::empty());
                    assert(ws.last() == word_idx as int);
                    assert(words_masked_ms(*self, ws.drop_last(), search_type) =~= Multiset::<
                        u8,
                    >::empty());
                    assert(words_masked_ms(*self, ws, search_type) =~= Multiset::<
                        u8,
                    >::empty().add(
                        mask_seq(self.word_sorted(word_idx as int), search_type).to_multiset(),
                    ));
                    assert(mask_seq(new_candidate.letter_pool@, search_type).to_multiset().add(
                        words_masked_ms(*self, ws, search_type),
                    ) =~= qms);
                    assert(new_candidate.wf(*self, ml, qms, search_type));
                    if word_fills_query(*self, word_idx as int, qms, search_type) {
                        // the word alone consumes the query, so nothing is left
                        assert(mask_seq(self.word_sorted(word_idx as int), search_type).len()
                            == self.word_sorted(word_idx as int).len());
                        assert(mask_seq(sorted_input@, search_type).len() == sorted_input@.len());
                        assert(mask_seq(
                            self.word_sorted(word_idx as int),
                            search_type,
                        ).to_multiset().len() == qms.len());
                        assert(remaining_letters@.len() == 0);
                        assert(new_candidate.is_complete);
                    }
                }
                if complete {
                    nb_found += 1;
                    if nb_found >= MAX_CANDIDATES_TO_FIND {
                        enough_found = true;
                    }
                }
                let ghost cs_before = candidates@;
                candidates.push(new_candidate);
                proof {
                    assert(candidates@.drop_last() =~= cs_before);
                    assert(candidates@.last() == new_candidate);
                    if word_fills_query(*self, word_idx as int, qms, search_type) {
                        assert(candidates@[candidates@.len() - 1] == new_candidate);
                        assert(has_single_candidate(candidates@, index_pos));
                    }
                }
                if enough_found {
                    break ;
                }
            } else {
                proof {
                    // in the free-branching regime, a word that alone fills
                    // the query always starts a scratch candidate
                    if input_length < SHORT_INPUT_LETTERS && !mode_mandatory
                        && word_fills_query(*self, word_idx as int, qms, search_type) {
                        assert(should_add_scratch);
                        assert(sub_multiset(
                            self.word_sorted(word_idx as int),
                            sorted_input@,
                            search_type,
                        ));
                        assert(false);
                    }
                }
            }
            proof {
                if input_length < SHORT_INPUT_LETTERS && !mode_mandatory {
                    assert forall|p: usize|
                        index_pos <= p < nb_matchable && #[trigger] word_fills_query(
                            *self,
                            ml[p as int] as int,
                            qms,
                            search_type,
                        ) implies has_single_candidate(candidates@, p) by {
                        if p > index_pos {
                            assert(has_single_candidate(cs_after_inner, p));
                            let c = choose|c: int|
                                0 <= c < cs_after_inner.len() && (#[trigger] cs_after_inner[c])
                                    .is_complete && cs_after_inner[c].matched_seq() == seq![p];
                            assert(candidates@[c] == cs_after_inner[c]);
                        }
                    }
                }
            }
        }
        /* score each complete candidate independently */
        let mut scored: Vec<(String, u128)> = Vec::new();
        let nb_total = candidates.len();
        let mut ci: usize = 0;
        proof {
            assert(candidates@.take(0) =~= Seq::<Matching>::empty());
        }
        while ci < nb_total
            invariant
                scored@.len() == spec_complete_count(candidates@.take(ci as int)),
                spec_complete_count(candidates@) <= MAX_CANDIDATES_TO_FIND,
                enough_found ==> spec_complete_count(candidates@) + 1
                    >= MAX_CANDIDATES_TO_FIND,
                self.wf(),
                ml == matchable_words@,
                forall|k: int| 0 <= k < ml.len() ==> (#[trigger] ml[k]) < self.word_defs@.len(),
                nb_matchable == ml.len(),
                (input_length < SHORT_INPUT_LETTERS && !mode_mandatory && !enough_found)
                    ==> forall|p: usize|
                    p < nb_matchable && #[trigger] word_fills_query(
                        *self,
                        ml[p as int] as int,
                        qms,
                        search_type,
                    ) ==> (exists|c: int|
                        ci <= c < candidates@.len() && (#[trigger] candidates@[c]).is_complete
                            && candidates@[c].matched_seq() == seq![p])
                        || has_sentinel_entry(scored@, word_text(*self, ml[p as int] as int)),
                nb_total == candidates@.len(),
                ci <= nb_total,
                qms == masked_query_ms(input@, search_type),
                forall|c: int|
                    0 <= c < candidates@.len() ==> (#[trigger] candidates@[c]).wf(
                        *self,
                        ml,
                        qms,
                        search_type,
                    ),
                forall|k: int|
                    0 <= k < scored@.len() ==> is_anagram_expression(
                        *self,
                        (#[trigger] scored@[k]).0@,
                        scored@[k].1,
                        input@,
                        search_type,
                    ),
                processed_mandatory@.len() > 0 ==> mode_mandatory,
                processed_mandatory@.len() > 0 ==> self.word_matches_mandatory(
                    ml.last() as int,
                    query_codes(mandatory_word@),
                    search_type,
                ) && ml.len() > 0,
                mode_mandatory ==> forall|c: int|
                    0 <= c < candidates@.len() ==> (#[trigger] candidates@[c]).matched_seq()[0]
                        as int == ml.len() - 1,
                processed_mandatory@.len() > 0 ==> forall|k: int|
                    0 <= k < scored@.len() ==> is_anchored_anagram_expression(
                        *self,
                        (#[trigger] scored@[k]).0@,
                        scored@[k].1,
                        input@,
                        mandatory_word@,
                        search_type,
                    ),
            decreases nb_total - ci,
        {
            proof {
                assert(candidates@[ci as int].wf(*self, ml, qms, search_type));
                assert(candidates@.take(ci + 1).drop_last() =~= candidates@.take(ci as int));
                assert(candidates@.take(ci + 1).last() == candidates@[ci as int]);
            }
            if candidates[ci].is_complete {
                let pair = candidates[ci].best_permutation(self, &matchable_words);
                proof {
                    let cand = candidates@[ci as int];
                    let m = cand.matched_seq();
                    let wsm = word_index_seq(ml, m);
                    assert(cand.letter_pool@.len() == 0);
                    assert(mask_seq(cand.letter_pool@, search_type) =~= Seq::<u8>::empty());
                    assert(mask_seq(cand.letter_pool@, search_type).to_multiset().len() == 0);
                    assert(words_masked_ms(*self, wsm, search_type) =~= qms);
                    assert(m.len() == cand.matched_size as int);
                    if cand.matched_size == 1 {
                        assert(wsm.len() == 1);
                        assert forall|t: int| 0 <= t < wsm.len() implies 0 <= #[trigger] wsm[t]
                            < self.word_defs@.len() by {
                            assert(m[t] < ml.len());
                        }
                        assert(pair.1 == u128::MAX);
                        assert(expression_of(*self, wsm, pair.0@, pair.1, input@, search_type));
                        if processed_mandatory@.len() > 0 {
                            assert(cand.matched_seq()[0] as int == ml.len() - 1);
                            assert(wsm[0] == ml[ml.len() - 1] as int);
                            assert(self.word_matches_mandatory(
                                wsm[0],
                                query_codes(mandatory_word@),
                                search_type,
                            ));
                            assert(is_anchored_anagram_expression(
                                *self,
                                pair.0@,
                                pair.1,
                                input@,
                                mandatory_word@,
                                search_type,
                            ));
                        }
                    } else {
                        let perm = choose|perm: Seq<usize>|
                            {
                                &&& #[trigger] perm.to_multiset() == m.to_multiset()
                                &&& pair.0@ == words_text(*self, word_index_seq(ml, perm))
                                &&& pair.1 as int == crate::scoring::spec_normalized_score(
                                    *self,
                                    word_index_seq(ml, perm),
                                )
                                &&& forall|other: Seq<usize>|
                                    #[trigger] other.to_multiset() == m.to_multiset()
                                        ==> crate::scoring::spec_combo_score(
                                        *self,
                                        word_index_seq(ml, other),
                                    ) <= crate::scoring::spec_combo_score(
                                        *self,
                                        word_index_seq(ml, perm),
                                    )
                            };
                        lemma_words_ms_permutation(*self, ml, perm, m, search_type);
                        let wsp = word_index_seq(ml, perm);
                        assert(words_masked_ms(*self, wsp, search_type) == qms);
                        assert(perm.to_multiset().len() == m.to_multiset().len());
                        assert(wsp.len() == m.len());
                        assert forall|t: int| 0 <= t < wsp.len() implies 0 <= #[trigger] wsp[t]
                            < self.word_defs@.len() by {
                            assert(perm.contains(perm[t]));
                            assert(m.to_multiset().count(perm[t]) > 0);
                            assert(m.contains(perm[t]));
                            let u = choose|u: int| 0 <= u < m.len() && m[u] == perm[t];
                            assert(m[u] < ml.len());
                        }
                        assert(wsp.len() >= 2);
                        assert(expression_of(*self, wsp, pair.0@, pair.1, input@, search_type));
                        if processed_mandatory@.len() > 0 {
                            let anchor = m[0];
                            assert(anchor as int == ml.len() - 1);
                            assert(m.contains(anchor));
                            assert(m.to_multiset().count(anchor) > 0);
                            assert(perm.to_multiset().count(anchor) > 0);
                            assert(perm.contains(anchor));
                            let u = choose|u: int| 0 <= u < perm.len() && perm[u] == anchor;
                            assert(wsp[u] == ml[ml.len() - 1] as int);
                            assert(self.word_matches_mandatory(
                                wsp[u],
                                query_codes(mandatory_word@),
                                search_type,
                            ));
                            assert(is_anchored_anagram_expression(
                                *self,
                                pair.0@,
                                pair.1,
                                input@,
                                mandatory_word@,
                                search_type,
                            ));
                        }
                    }
                }
                let ghost scored_before = scored@;
                scored.push(pair);
                proof {
                    assert(scored@.drop_last() =~= scored_before);
                    if input_length < SHORT_INPUT_LETTERS && !mode_mandatory && !enough_found {
                        assert forall|p: usize|
                            p < nb_matchable && #[trigger] word_fills_query(
                                *self,
                                ml[p as int] as int,
                                qms,
                                search_type,
                            ) implies (exists|c: int|
                            ci + 1 <= c < candidates@.len() && (#[trigger] candidates@[c])
                                .is_complete && candidates@[c].matched_seq() == seq![p])
                            || has_sentinel_entry(
                            scored@,
                            word_text(*self, ml[p as int] as int),
                        ) by {
                            let wt = word_text(*self, ml[p as int] as int);
                            if exists|c: int|
                                ci <= c < candidates@.len() && (#[trigger] candidates@[c])
                                    .is_complete && candidates@[c].matched_seq() == seq![p] {
                                let c = choose|c: int|
                                    ci <= c < candidates@.len() && (#[trigger] candidates@[c])
                                        .is_complete && candidates@[c].matched_seq() == seq![p];
                                if c == ci {
                                    assert(candidates@[ci as int].matched_seq() == seq![p]);
                                    assert(candidates@[ci as int].matched_seq().len() == 1);
                                    assert(candidates@[ci as int].matched_size == 1);
                                    assert(pair.1 == u128::MAX);
                                    assert(word_index_seq(ml, seq![p]) =~= seq![
                                        ml[p as int] as int,
                                    ]);
                                    assert(pair.0@ == words_text(
                                        *self,
                                        seq![ml[p as int] as int],
                                    ));
                                    assert(words_text(*self, seq![ml[p as int] as int]) == wt);
                                    assert(scored@[scored@.len() - 1] == pair);
                                    assert(has_sentinel_entry(scored@, wt));
                                }
                            } else {
                                assert(has_sentinel_entry(scored_before, wt));
                                let k = choose|k: int|
                                    0 <= k < scored_before.len() && (#[trigger] scored_before[k]).0@
                                        == wt && scored_before[k].1 == u128::MAX;
                                assert(scored@[k] == scored_before[k]);
                            }
                        }
                    }
                }
            } else {
                proof {
                    if input_length < SHORT_INPUT_LETTERS && !mode_mandatory && !enough_found {
                        assert forall|p: usize|
                            p < nb_matchable && #[trigger] word_fills_query(
                                *self,
                                ml[p as int] as int,
                                qms,
                                search_type,
                            ) implies (exists|c: int|
                            ci + 1 <= c < candidates@.len() && (#[trigger] candidates@[c])
                                .is_complete && candidates@[c].matched_seq() == seq![p])
                            || has_sentinel_entry(
                            scored@,
                            word_text(*self, ml[p as int] as int),
                        ) by {
                            if exists|c: int|
                                ci <= c < candidates@.len() && (#[trigger] candidates@[c])
                                    .is_complete && candidates@[c].matched_seq() == seq![p] {
                                let c = choose|c: int|
                                    ci <= c < candidates@.len() && (#[trigger] candidates@[c])
                                        .is_complete && candidates@[c].matched_seq() == seq![p];
                                assert(c != ci);
                            }
                        }
                    }
                }
            }
            ci += 1;
        }
        proof {
            assert(candidates@.take(nb_total as int) =~= candidates@);
            if input_length < SHORT_INPUT_LETTERS && !mode_mandatory && !enough_found {
                assert forall|p: usize|
                    p < nb_matchable && #[trigger] word_fills_query(
                        *self,
                        ml[p as int] as int,
                        qms,
                        search_type,
                    ) implies has_sentinel_entry(
                    scored@,
                    word_text(*self, ml[p as int] as int),
                ) by {
                    if exists|c: int|
                        nb_total <= c < candidates@.len() && (#[trigger] candidates@[c])
                            .is_complete && candidates@[c].matched_seq() == seq![p] {
                        let c = choose|c: int|
                            nb_total <= c < candidates@.len() && (#[trigger] candidates@[c])
                                .is_complete && candidates@[c].matched_seq() == seq![p];
                        assert(false);
                    }
                }
            }
        }
        /* merge by score, best first; equal scores keep discovery order */
        let mut ranked: Vec<(String, u128)> = Vec::new();
        while scored.len() > 0
            invariant
                ranked@.len() + scored@.len() == spec_complete_count(candidates@),
                spec_complete_count(candidates@) <= MAX_CANDIDATES_TO_FIND,
                enough_found ==> spec_complete_count(candidates@) + 1
                    >= MAX_CANDIDATES_TO_FIND,
                self.wf(),
                ml == matchable_words@,
                nb_matchable == ml.len(),
                qms == masked_query_ms(input@, search_type),
                (input_length < SHORT_INPUT_LETTERS && !mode_mandatory && !enough_found)
                    ==> forall|p: usize|
                    p < nb_matchable && #[trigger] word_fills_query(
                        *self,
                        ml[p as int] as int,
                        qms,
                        search_type,
                    ) ==> has_sentinel_entry(ranked@, word_text(*self, ml[p as int] as int))
                        || has_sentinel_entry(scored@, word_text(*self, ml[p as int] as int)),
                forall|k: int|
                    0 <= k < ranked@.len() ==> is_anagram_expression(
                        *self,
                        (#[trigger] ranked@[k]).0@,
                        ranked@[k].1,
                        input@,
                        search_type,
                    ),
                forall|k: int|
                    0 <= k < scored@.len() ==> is_anagram_expression(
                        *self,
                        (#[trigger] scored@[k]).0@,
                        scored@[k].1,
                        input@,
                        search_type,
                    ),
                forall|k1: int, k2: int|
                    0 <= k1 <= k2 < ranked@.len() ==> (#[trigger] ranked@[k1]).1
                        >= (#[trigger] ranked@[k2]).1,
                forall|k1: int, k2: int|
                    0 <= k1 < ranked@.len() && 0 <= k2 < scored@.len() ==> (
                    #[trigger] ranked@[k1]).1 >= (#[trigger] scored@[k2]).1,
                processed_mandatory@.len() > 0 ==> forall|k: int|
                    0 <= k < ranked@.len() ==> is_anchored_anagram_expression(
                        *self,
                        (#[trigger] ranked@[k]).0@,
                        ranked@[k].1,
                        input@,
                        mandatory_word@,
                        search_type,
                    ),
                processed_mandatory@.len() > 0 ==> forall|k: int|
                    0 <= k < scored@.len() ==> is_anchored_anagram_expression(
                        *self,
                        (#[trigger] scored@[k]).0@,
                        scored@[k].1,
                        input@,
                        mandatory_word@,
                        search_type,
                    ),
            decreases scored@.len(),
        {
            let mut best_i: usize = 0;
            let mut bi: usize = 1;
            while bi < scored.len()
                invariant
                    scored@.len() > 0,
                    best_i < scored@.len(),
                    bi <= scored@.len(),
                    forall|j: int| 0 <= j < bi ==> (#[trigger] scored@[j]).1 <= scored@[
                        best_i as int].1,
                decreases scored@.len() - bi,
            {
                if scored[bi].1 > scored[best_i].1 {
                    best_i = bi;
                }
                bi += 1;
            }
            let ghost pre = scored@;
            let ghost ranked_before = ranked@;
            let item = scored.remove(best_i);
            ranked.push(item);
            proof {
                assert(ranked@.drop_last() =~= ranked_before);
                if input_length < SHORT_INPUT_LETTERS && !mode_mandatory && !enough_found {
                    assert forall|p: usize|
                        p < nb_matchable && #[trigger] word_fills_query(
                            *self,
                            ml[p as int] as int,
                            qms,
                            search_type,
                        ) implies has_sentinel_entry(
                        ranked@,
                        word_text(*self, ml[p as int] as int),
                    ) || has_sentinel_entry(
                        scored@,
                        word_text(*self, ml[p as int] as int),
                    ) by {
                        let wt = word_text(*self, ml[p as int] as int);
                        if has_sentinel_entry(ranked_before, wt) {
                            let k = choose|k: int|
                                0 <= k < ranked_before.len() && (#[trigger] ranked_before[k]).0@
                                    == wt && ranked_before[k].1 == u128::MAX;
                            assert(ranked@[k] == ranked_before[k]);
                        } else {
                            assert(has_sentinel_entry(pre, wt));
                            let k = choose|k: int|
                                0 <= k < pre.len() && (#[trigger] pre[k]).0@ == wt && pre[k].1
                                    == u128::MAX;
                            if k == best_i as int {
                                assert(ranked@[ranked@.len() - 1] == pre[k]);
                            } else if k < best_i as int {
                                assert(scored@[k] == pre[k]);
                            } else {
                                assert(scored@[k - 1] == pre[k]);
                            }
                        }
                    }
                }
                assert forall|k2: int|
                    0 <= k2 < scored@.len() implies is_anagram_expression(
                    *self,
                    (#[trigger] scored@[k2]).0@,
                    scored@[k2].1,
                    input@,
                    search_type,
                ) && (ranked@.last()).1 >= scored@[k2].1 by {
                    let src = if k2 < best_i as int {
                        k2
                    } else {
                        k2 + 1
                    };
                    assert(scored@[k2] == pre[src]);
                }
                if processed_mandatory@.len() > 0 {
                    assert forall|k2: int|
                        0 <= k2 < scored@.len() implies is_anchored_anagram_expression(
                        *self,
                        (#[trigger] scored@[k2]).0@,
                        scored@[k2].1,
                        input@,
                        mandatory_word@,
                        search_type,
                    ) by {
                        let src = if k2 < best_i as int {
                            k2
                        } else {
                            k2 + 1
                        };
                        assert(scored@[k2] == pre[src]);
                    }
                }
            }
        }
        proof {
            if !was_truncated && ranked@.len() + 1 < MAX_CANDIDATES_TO_FIND
                && query_codes(mandatory_word@).len() == 0 && supported_of(
                lower_of(input@),
            ).len() < SHORT_INPUT_LETTERS {
                assert(processed_mandatory@.len() == 0);
                assert(!mode_mandatory);
                assert(input_length < SHORT_INPUT_LETTERS);
                assert(ranked@.len() == spec_complete_count(candidates@));
                if enough_found {
                    assert(spec_complete_count(candidates@) + 1 >= MAX_CANDIDATES_TO_FIND);
                    assert(false);
                }
                assert(self.is_match_enumeration(ml, sorted_input@, search_type));
                assert forall|w: int|
                    0 <= w < self.word_defs@.len() && #[trigger] word_fills_query(
                        *self,
                        w,
                        masked_query_ms(input@, search_type),
                        search_type,
                    ) implies has_sentinel_entry(ranked@, word_text(*self, w)) by {
                    assert(mask_seq(self.word_sorted(w), search_type).to_multiset() == qms);
                    assert(sub_multiset(self.word_sorted(w), sorted_input@, search_type));
                    assert(self.word_matches(w, sorted_input@, search_type));
                    assert(ml.contains(w as usize));
                    assert(self.word_defs@.len() == total_words);
                    assert(w as usize as int == w);
                    let p = choose|p: int| 0 <= p < ml.len() && ml[p] == w as usize;
                    let pu = p as usize;
                    assert(pu as int == p);
                    assert(ml[pu as int] as int == w);
                    assert(word_fills_query(*self, ml[pu as int] as int, qms, search_type));
                    assert(pu < nb_matchable);
                    assert(has_sentinel_entry(ranked@, word_text(*self, ml[pu as int] as int))
                        || has_sentinel_entry(scored@, word_text(*self, ml[pu as int] as int)));
                    assert(scored@.len() == 0);
                    assert(has_sentinel_entry(ranked@, word_text(*self, w)));
                }
            }
        }
        Ok(AnagramResult { anagrams: ranked, was_truncated })
    }
}

} // verus!
