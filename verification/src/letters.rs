//! Sorted encoded-letter sequences as multisets.
//!
//! A word's letters and a query's letters are kept sorted ascending, so the
//! sub-multiset test, the destructive removal and the complement all run as a
//! single linear walk over both sequences. Under `ROOT` mode the walk compares
//! base letters only; masking the diacritic bits keeps the order of a sorted
//! sequence, so the same walk is sound in both modes.

use vstd::prelude::*;
use vstd::multiset::Multiset;
use crate::codec::{SearchType, mask_code, encoded_chars_equal};

verus! {

broadcast use {vstd::seq_lib::group_to_multiset_ensures, vstd::multiset::group_multiset_axioms};

pub open spec fn sorted_u8(s: Seq<u8>) -> bool {
    forall|i: int, j: int| 0 <= i <= j < s.len() ==> #[trigger] s[i] <= #[trigger] s[j]
}

/// The sequence compared by a search mode: each letter replaced by the value
/// it is compared by (itself, or its base-letter bits).
pub open spec fn mask_seq(s: Seq<u8>, search_type: SearchType) -> Seq<u8> {
    s.map_values(|b: u8| mask_code(b, search_type))
}

/// Sub-multiset inclusion under a search mode: every letter of `query`, with
/// its multiplicity, occurs in `pool`, comparing letters as the mode does.
pub open spec fn sub_multiset(query: Seq<u8>, pool: Seq<u8>, search_type: SearchType) -> bool {
    mask_seq(query, search_type).to_multiset().subset_of(
        mask_seq(pool, search_type).to_multiset(),
    )
}

pub proof fn lemma_mask_monotone(a: u8, b: u8, search_type: SearchType)
    requires
        a <= b,
    ensures
        mask_code(a, search_type) <= mask_code(b, search_type),
{
    if search_type != SearchType::EXACT {
        assert((a & 0xf8u8) <= (b & 0xf8u8)) by (bit_vector)
            requires
                a <= b,
        ;
    }
}

pub proof fn lemma_sorted_mask(s: Seq<u8>, search_type: SearchType)
    requires
        sorted_u8(s),
    ensures
        sorted_u8(mask_seq(s, search_type)),
        mask_seq(s, search_type).len() == s.len(),
{
    assert forall|i: int, j: int|
        0 <= i <= j < mask_seq(s, search_type).len() implies #[trigger] mask_seq(
        s,
        search_type,
    )[i] <= #[trigger] mask_seq(s, search_type)[j] by {
        lemma_mask_monotone(s[i], s[j], search_type);
    }
}

/// A multiset included in another is at most as large.
pub proof fn lemma_subset_len(q: Seq<u8>, p: Seq<u8>)
    requires
        q.to_multiset().subset_of(p.to_multiset()),
    ensures
        q.len() <= p.len(),
{
    let d = p.to_multiset().sub(q.to_multiset());
    assert(p.to_multiset() =~= q.to_multiset().add(d));
    assert(q.to_multiset().len() == q.len());
    assert(p.to_multiset().len() == p.len());
}

/// Walking past a pool letter that differs from the query's head neither
/// gains nor loses anything, when both sequences are sorted.
pub proof fn lemma_skip_unmatched_head(p: Seq<u8>, q: Seq<u8>)
    requires
        sorted_u8(p),
        sorted_u8(q),
        p.len() > 0,
        q.len() > 0,
        p[0] != q[0],
    ensures
        q.to_multiset().subset_of(p.to_multiset()) <==> q.to_multiset().subset_of(
            p.drop_first().to_multiset(),
        ),
{
    assert(p.drop_first() =~= p.remove(0));
    assert(p.drop_first().to_multiset() == p.to_multiset().remove(p[0]));
    if q.to_multiset().subset_of(p.to_multiset()) {
        if q[0] < p[0] {
            assert(q.to_multiset().count(q[0]) > 0) by {
                assert(q.contains(q[0]));
            }
            assert(p.to_multiset().count(q[0]) == 0) by {
                if p.to_multiset().count(q[0]) > 0 {
                    assert(p.contains(q[0]));
                    let k = choose|k: int| 0 <= k < p.len() && p[k] == q[0];
                    assert(p[0] <= p[k]);
                }
            }
            assert(false);
        }
        // p[0] < q[0], so the query never asks for p[0]
        assert(q.to_multiset().count(p[0]) == 0) by {
            if q.to_multiset().count(p[0]) > 0 {
                assert(q.contains(p[0]));
                let k = choose|k: int| 0 <= k < q.len() && q[k] == p[0];
                assert(q[0] <= q[k]);
            }
        }
        assert forall|v: u8|
            q.to_multiset().count(v) <= p.drop_first().to_multiset().count(v) by {
            assert(q.to_multiset().count(v) <= p.to_multiset().count(v));
        }
    }
    if q.to_multiset().subset_of(p.drop_first().to_multiset()) {
        assert forall|v: u8| q.to_multiset().count(v) <= p.to_multiset().count(v) by {
            assert(q.to_multiset().count(v) <= p.drop_first().to_multiset().count(v));
        }
    }
}

/// Consuming equal heads on both sides keeps inclusion exactly.
pub proof fn lemma_match_heads(p: Seq<u8>, q: Seq<u8>)
    requires
        p.len() > 0,
        q.len() > 0,
        p[0] == q[0],
    ensures
        q.to_multiset().subset_of(p.to_multiset()) <==> q.drop_first().to_multiset().subset_of(
            p.drop_first().to_multiset(),
        ),
{
    assert(p.drop_first() =~= p.remove(0));
    assert(q.drop_first() =~= q.remove(0));
    assert(p.drop_first().to_multiset() == p.to_multiset().remove(p[0]));
    assert(q.drop_first().to_multiset() == q.to_multiset().remove(q[0]));
    assert(q.to_multiset().count(q[0]) > 0) by {
        assert(q.contains(q[0]));
    }
    assert(p.to_multiset().count(p[0]) > 0) by {
        assert(p.contains(p[0]));
    }
    if q.to_multiset().subset_of(p.to_multiset()) {
        assert forall|v: u8|
            q.drop_first().to_multiset().count(v) <= p.drop_first().to_multiset().count(v) by {
            assert(q.to_multiset().count(v) <= p.to_multiset().count(v));
        }
    }
    if q.drop_first().to_multiset().subset_of(p.drop_first().to_multiset()) {
        assert forall|v: u8| q.to_multiset().count(v) <= p.to_multiset().count(v) by {
            assert(q.drop_first().to_multiset().count(v) <= p.drop_first().to_multiset().count(v));
        }
    }
}

/// Sub-multiset test over two sorted encoded-letter sequences: true exactly
/// when every letter of `searched`, with its multiplicity, can be matched in
/// `letter_pool` under the search mode.
pub fn check_contains_all_letters(
    letter_pool: &[u8],
    searched: &[u8],
    search_type: SearchType,
) -> (r: bool)
    requires
        sorted_u8(letter_pool@),
        sorted_u8(searched@),
    ensures
        r == sub_multiset(searched@, letter_pool@, search_type),
{
    let ghost mp = mask_seq(letter_pool@, search_type);
    let ghost mq = mask_seq(searched@, search_type);
    proof {
        lemma_sorted_mask(letter_pool@, search_type);
        lemma_sorted_mask(searched@, search_type);
    }
    let pool_len = letter_pool.len();
    let searched_len = searched.len();
    if searched_len > pool_len {
        proof {
            if sub_multiset(searched@, letter_pool@, search_type) {
                lemma_subset_len(mq, mp);
            }
        }
        return false;
    }
    let mut pool_idx: usize = 0;
    let mut search_idx: usize = 0;
    proof {
        assert(mp.skip(0) =~= mp);
        assert(mq.skip(0) =~= mq);
    }
    while pool_idx < pool_len && search_idx < searched_len
        invariant
            pool_len == letter_pool@.len(),
            searched_len == searched@.len(),
            pool_idx <= pool_len,
            search_idx <= searched_len,
            search_idx <= pool_idx,
            pool_idx == pool_len ==> search_idx == searched_len,
            mp == mask_seq(letter_pool@, search_type),
            mq == mask_seq(searched@, search_type),
            sorted_u8(mp),
            sorted_u8(mq),
            sub_multiset(searched@, letter_pool@, search_type) <==> mq.skip(
                search_idx as int,
            ).to_multiset().subset_of(mp.skip(pool_idx as int).to_multiset()),
        decreases pool_len - pool_idx,
    {
        let ghost i = pool_idx as int;
        let ghost j = search_idx as int;
        let ghost tp = mp.skip(i);
        let ghost tq = mq.skip(j);
        proof {
            assert(tp[0] == mp[i] && tq[0] == mq[j]);
            assert(sorted_u8(tp) && sorted_u8(tq));
            assert(tp.drop_first() =~= mp.skip(i + 1));
            assert(tq.drop_first() =~= mq.skip(j + 1));
        }
        if encoded_chars_equal(searched[search_idx], letter_pool[pool_idx], search_type) {
            proof {
                lemma_match_heads(tp, tq);
            }
            search_idx += 1;
        } else {
            proof {
                lemma_skip_unmatched_head(tp, tq);
            }
        }
        pool_idx += 1;
        if pool_idx == pool_len && search_idx < searched_len {
            proof {
                let tq2 = mq.skip(search_idx as int);
                assert(mp.skip(pool_idx as int) =~= Seq::<u8>::empty());
                assert(tq2.contains(tq2[0]));
                assert(tq2.to_multiset().count(tq2[0]) > 0);
                assert(mp.skip(pool_idx as int).to_multiset().count(tq2[0]) == 0);
            }
            return false;
        }
    }
    proof {
        assert(search_idx == searched_len);
        assert(mq.skip(search_idx as int) =~= Seq::<u8>::empty());
        assert forall|v: u8|
            mq.skip(search_idx as int).to_multiset().count(v) <= mp.skip(
                pool_idx as int,
            ).to_multiset().count(v) by {
            assert(mq.skip(search_idx as int).to_multiset().count(v) == 0);
        }
    }
    search_idx == searched_len
}

/// A query longer than the pool is never contained in it.
pub proof fn lemma_longer_query_never_contained(query: Seq<u8>, pool: Seq<u8>, search_type: SearchType)
    requires
        query.len() > pool.len(),
    ensures
        !sub_multiset(query, pool, search_type),
{
    if sub_multiset(query, pool, search_type) {
        lemma_subset_len(mask_seq(query, search_type), mask_seq(pool, search_type));
    }
}

pub proof fn lemma_mask_seq_exact(s: Seq<u8>)
    ensures
        mask_seq(s, SearchType::EXACT) == s,
{
    assert(mask_seq(s, SearchType::EXACT) =~= s);
}

/// Under `EXACT` mode, containment is plain multiset inclusion of the
/// encoded letters.
pub proof fn lemma_exact_mode_is_plain_inclusion(query: Seq<u8>, pool: Seq<u8>)
    ensures
        sub_multiset(query, pool, SearchType::EXACT) == query.to_multiset().subset_of(
            pool.to_multiset(),
        ),
{
    lemma_mask_seq_exact(query);
    lemma_mask_seq_exact(pool);
}

/// Mapping both sequences by one function preserves multiset inclusion.
pub proof fn lemma_map_preserves_subset(q: Seq<u8>, p: Seq<u8>, f: spec_fn(u8) -> u8)
    requires
        q.to_multiset().subset_of(p.to_multiset()),
    ensures
        q.map_values(f).to_multiset().subset_of(p.map_values(f).to_multiset()),
    decreases q.len(),
{
    if q.len() > 0 {
        let h = q[0];
        assert(q.to_multiset().count(h) > 0) by {
            assert(q.contains(h));
        }
        assert(p.to_multiset().count(h) > 0);
        assert(p.contains(h));
        let k = choose|k: int| 0 <= k < p.len() && p[k] == h;
        let pr = p.remove(k);
        assert(pr.to_multiset() == p.to_multiset().remove(h));
        assert(q.drop_first() =~= q.remove(0));
        assert(q.drop_first().to_multiset() == q.to_multiset().remove(h));
        assert forall|v: u8|
            q.drop_first().to_multiset().count(v) <= pr.to_multiset().count(v) by {
            assert(q.to_multiset().count(v) <= p.to_multiset().count(v));
        }
        lemma_map_preserves_subset(q.drop_first(), pr, f);
        let mq = q.map_values(f);
        let mp = p.map_values(f);
        assert(q.drop_first().map_values(f) =~= mq.remove(0));
        assert(pr.map_values(f) =~= mp.remove(k));
        assert(mq.remove(0).to_multiset() == mq.to_multiset().remove(f(h)));
        assert(mp.remove(k).to_multiset() == mp.to_multiset().remove(f(h)));
        assert(mq.to_multiset().count(f(h)) > 0) by {
            assert(mq.contains(mq[0]));
        }
        assert(mp.to_multiset().count(f(h)) > 0) by {
            assert(mp.contains(mp[k]));
        }
        assert forall|v: u8| mq.to_multiset().count(v) <= mp.to_multiset().count(v) by {
            assert(mq.remove(0).to_multiset().count(v) <= mp.remove(k).to_multiset().count(v));
        }
    }
}

/// Sequences with equal letter multisets compare equal under any mode.
pub proof fn lemma_mask_ms_congruence(p1: Seq<u8>, p2: Seq<u8>, search_type: SearchType)
    requires
        p1.to_multiset() == p2.to_multiset(),
    ensures
        mask_seq(p1, search_type).to_multiset() == mask_seq(p2, search_type).to_multiset(),
{
    lemma_map_preserves_subset(p1, p2, |b: u8| mask_code(b, search_type));
    lemma_map_preserves_subset(p2, p1, |b: u8| mask_code(b, search_type));
    assert(mask_seq(p1, search_type).to_multiset() =~= mask_seq(p2, search_type).to_multiset());
}

/// Diacritic-blind matching is a relaxation: whatever is contained under
/// `EXACT` mode is contained under `ROOT` mode too.
pub proof fn lemma_root_relaxes_exact(query: Seq<u8>, pool: Seq<u8>)
    requires
        sub_multiset(query, pool, SearchType::EXACT),
    ensures
        sub_multiset(query, pool, SearchType::ROOT),
{
    lemma_mask_seq_exact(query);
    lemma_mask_seq_exact(pool);
    lemma_map_preserves_subset(query, pool, |b: u8| mask_code(b, SearchType::ROOT));
}

/// The complement as one deterministic front-to-front walk: the pool
/// letters left after greedily matching each query letter against the first
/// pool letter, under the mode, that equals it. Both removal walks below
/// return exactly this sequence, so they agree byte for byte even under
/// `ROOT` mode, where several pool letters may satisfy one query letter.
pub open spec fn spec_complement(pool: Seq<u8>, query: Seq<u8>, search_type: SearchType) -> Seq<u8>
    decreases pool.len() + query.len(),
{
    if pool.len() == 0 {
        Seq::<u8>::empty()
    } else if query.len() == 0 {
        pool
    } else if mask_code(query[0], search_type) == mask_code(pool[0], search_type) {
        spec_complement(pool.drop_first(), query.drop_first(), search_type)
    } else if query[0] > pool[0] {
        seq![pool[0]] + spec_complement(pool.drop_first(), query, search_type)
    } else {
        // unreachable when the query is contained in a sorted pool; defined
        // only to keep the function total
        spec_complement(pool, query.drop_first(), search_type)
    }
}

/// The non-destructive complement: the pool's letters with one occurrence of
/// each of the query's letters removed, matching under the search mode.
/// Re-adding the query's letters reconstructs the pool's letter multiset.
pub fn new_vec_removed_letters(
    original: &[u8],
    matched_word: &[u8],
    search_type: SearchType,
) -> (r: Vec<u8>)
    requires
        sorted_u8(original@),
        sorted_u8(matched_word@),
        sub_multiset(matched_word@, original@, search_type),
    ensures
        sorted_u8(r@),
        r@.len() == original@.len() - matched_word@.len(),
        r@ == spec_complement(original@, matched_word@, search_type),
        mask_seq(r@, search_type).to_multiset().add(
            mask_seq(matched_word@, search_type).to_multiset(),
        ) == mask_seq(original@, search_type).to_multiset(),
        r@.to_multiset().subset_of(original@.to_multiset()),
    decreases original@.len(),
{
    let ghost mp = mask_seq(original@, search_type);
    let ghost mq = mask_seq(matched_word@, search_type);
    proof {
        lemma_sorted_mask(original@, search_type);
        lemma_sorted_mask(matched_word@, search_type);
        lemma_subset_len(mq, mp);
        assert(mp.skip(0) =~= mp);
        assert(mq.skip(0) =~= mq);
        assert(mp.take(0) =~= Seq::<u8>::empty());
        assert(mq.take(0) =~= Seq::<u8>::empty());
        assert(original@.take(0) =~= Seq::<u8>::empty());
        assert(original@.skip(0) =~= original@);
        assert(matched_word@.skip(0) =~= matched_word@);
        assert(Seq::<u8>::empty() + spec_complement(original@, matched_word@, search_type)
            =~= spec_complement(original@, matched_word@, search_type));
    }
    let pool_len = original.len();
    let query_len = matched_word.len();
    let mut remaining: Vec<u8> = Vec::with_capacity(pool_len - query_len);
    let mut pool_idx: usize = 0;
    let mut query_idx: usize = 0;
    while pool_idx < pool_len
        invariant
            pool_len == original@.len(),
            query_len == matched_word@.len(),
            pool_idx <= pool_len,
            query_idx <= query_len,
            query_idx <= pool_idx,
            remaining@.len() == pool_idx - query_idx,
            mp == mask_seq(original@, search_type),
            mq == mask_seq(matched_word@, search_type),
            sorted_u8(original@),
            sorted_u8(mp),
            sorted_u8(mq),
            sorted_u8(remaining@),
            remaining@.len() > 0 && pool_idx < pool_len ==> remaining@.last() <= original@[
                pool_idx as int
            ],
            mq.skip(query_idx as int).to_multiset().subset_of(
                mp.skip(pool_idx as int).to_multiset(),
            ),
            mask_seq(remaining@, search_type).to_multiset().add(
                mq.take(query_idx as int).to_multiset(),
            ) == mp.take(pool_idx as int).to_multiset(),
            remaining@.to_multiset().subset_of(original@.take(pool_idx as int).to_multiset()),
            spec_complement(original@, matched_word@, search_type) == remaining@
                + spec_complement(
                original@.skip(pool_idx as int),
                matched_word@.skip(query_idx as int),
                search_type,
            ),
        decreases pool_len - pool_idx,
    {
        let ghost i = pool_idx as int;
        let ghost j = query_idx as int;
        let ghost tp = mp.skip(i);
        let ghost tq = mq.skip(j);
        let ghost rp = original@.skip(i);
        let ghost rq = matched_word@.skip(j);
        proof {
            assert(tp[0] == mp[i]);
            assert(sorted_u8(tp) && sorted_u8(tq));
            assert(tp.drop_first() =~= mp.skip(i + 1));
            assert(rp[0] == original@[i]);
            assert(rp.drop_first() =~= original@.skip(i + 1));
            if j < query_len {
                assert(tq.drop_first() =~= mq.skip(j + 1));
                assert(tq[0] == mq[j]);
                assert(rq[0] == matched_word@[j]);
                assert(rq.drop_first() =~= matched_word@.skip(j + 1));
            }
            assert(mp.take(i + 1) =~= mp.take(i).push(mp[i]));
            assert(original@.take(i + 1) =~= original@.take(i).push(original@[i]));
        }
        let ghost rbefore = remaining@;
        if query_idx == query_len {
            remaining.push(original[pool_idx]);
            proof {
                assert(mask_seq(remaining@, search_type) =~= mask_seq(rbefore, search_type).push(
                    mp[i],
                ));
                assert(mq.skip(j) =~= Seq::<u8>::empty());
                assert(rq =~= Seq::<u8>::empty());
                assert(spec_complement(rp, rq, search_type) == rp);
                assert(spec_complement(rp.drop_first(), rq, search_type) == rp.drop_first());
                assert(rbefore + rp =~= remaining@ + rp.drop_first());
            }
            pool_idx += 1;
            proof {
                if remaining@.len() > 0 && pool_idx < pool_len {
                    assert(original@[i] <= original@[pool_idx as int]);
                }
            }
        } else if encoded_chars_equal(matched_word[query_idx], original[pool_idx], search_type) {
            proof {
                lemma_match_heads(tp, tq);
                assert(tq[0] == mq[j]);
                assert(mq.take(j + 1) =~= mq.take(j).push(mq[j]));
                assert(mask_code(rq[0], search_type) == mask_code(rp[0], search_type));
                assert(spec_complement(rp, rq, search_type) == spec_complement(
                    rp.drop_first(),
                    rq.drop_first(),
                    search_type,
                ));
            }
            pool_idx += 1;
            query_idx += 1;
            proof {
                if remaining@.len() > 0 && pool_idx < pool_len {
                    assert(remaining@.last() <= original@[i]);
                    assert(original@[i] <= original@[pool_idx as int]);
                }
            }
        } else if matched_word[query_idx] > original[pool_idx] {
            proof {
                lemma_skip_unmatched_head(tp, tq);
                assert(mask_seq(remaining@.push(original@[i]), search_type) =~= mask_seq(
                    remaining@,
                    search_type,
                ).push(mp[i]));
                assert(mask_code(rq[0], search_type) != mask_code(rp[0], search_type));
                assert(rq[0] > rp[0]);
                assert(spec_complement(rp, rq, search_type) == seq![rp[0]] + spec_complement(
                    rp.drop_first(),
                    rq,
                    search_type,
                ));
                assert(rbefore + (seq![rp[0]] + spec_complement(
                    rp.drop_first(),
                    rq,
                    search_type,
                )) =~= rbefore.push(original@[i]) + spec_complement(
                    rp.drop_first(),
                    rq,
                    search_type,
                ));
            }
            remaining.push(original[pool_idx]);
            pool_idx += 1;
            proof {
                if pool_idx < pool_len {
                    assert(original@[i] <= original@[pool_idx as int]);
                }
            }
        } else {
            // both sorted: a query letter below the pool cursor can no longer
            // be matched, contradicting the inclusion established above
            proof {
                assert(tq[0] == mq[j]);
                lemma_mask_monotone(matched_word@[j], original@[i], search_type);
                assert(mq[j] < mp[i]) by {
                    assert(mask_code(matched_word@[j], search_type) != mask_code(
                        original@[i],
                        search_type,
                    ));
                }
                assert(tq.contains(tq[0]));
                assert(tq.to_multiset().count(mq[j]) > 0);
                assert(tp.to_multiset().count(mq[j]) > 0);
                assert(tp.contains(mq[j]));
                let k = choose|k: int| 0 <= k < tp.len() && tp[k] == mq[j];
                assert(tp[0] <= tp[k]);
                assert(false);
            }
            pool_idx += 1;
        }
    }
    proof {
        if query_idx < query_len {
            let tq = mq.skip(query_idx as int);
            assert(mp.skip(pool_len as int) =~= Seq::<u8>::empty());
            assert(tq.contains(tq[0]));
            assert(tq.to_multiset().count(tq[0]) > 0);
            assert(false);
        }
        assert(mp.take(pool_len as int) =~= mp);
        assert(mq.take(query_len as int) =~= mq);
        assert(original@.take(pool_len as int) =~= original@);
        assert(original@.skip(pool_len as int) =~= Seq::<u8>::empty());
        assert(spec_complement(
            original@.skip(pool_len as int),
            matched_word@.skip(query_len as int),
            search_type,
        ) == Seq::<u8>::empty());
        assert(remaining@ + Seq::<u8>::empty() =~= remaining@);
    }
    remaining
}

/// Destructive removal: deletes from `original` one occurrence of each of
/// `matched_word`'s letters, matching under the search mode. Re-adding the
/// word's letters reconstructs the original letter multiset.
pub fn remove_elems(original: &mut Vec<u8>, matched_word: &[u8], search_type: SearchType)
    requires
        sorted_u8(old(original)@),
        sorted_u8(matched_word@),
        sub_multiset(matched_word@, old(original)@, search_type),
    ensures
        sorted_u8(final(original)@),
        final(original)@.len() == old(original)@.len() - matched_word@.len(),
        final(original)@ == spec_complement(old(original)@, matched_word@, search_type),
        mask_seq(final(original)@, search_type).to_multiset().add(
            mask_seq(matched_word@, search_type).to_multiset(),
        ) == mask_seq(old(original)@, search_type).to_multiset(),
        final(original)@.to_multiset().subset_of(old(original)@.to_multiset()),
{
    let ghost pool0 = old(original)@;
    let ghost mp = mask_seq(pool0, search_type);
    let ghost mq = mask_seq(matched_word@, search_type);
    proof {
        lemma_sorted_mask(pool0, search_type);
        lemma_sorted_mask(matched_word@, search_type);
        lemma_subset_len(mq, mp);
        assert(mp.skip(0) =~= mp);
        assert(mq.skip(0) =~= mq);
        assert(mq.take(0) =~= Seq::<u8>::empty());
        assert(original@.skip(0) =~= pool0.skip(0));
        assert(original@.take(0) =~= Seq::<u8>::empty());
        assert(pool0.skip(0) =~= pool0);
        assert(matched_word@.skip(0) =~= matched_word@);
        assert(Seq::<u8>::empty() + spec_complement(pool0, matched_word@, search_type)
            =~= spec_complement(pool0, matched_word@, search_type));
    }
    let len0 = original.len();
    let query_len = matched_word.len();
    let mut pool_idx: usize = 0;
    let mut query_idx: usize = 0;
    while pool_idx < len0 && query_idx < query_len
        invariant
            len0 == pool0.len(),
            query_len == matched_word@.len(),
            query_idx <= query_len,
            original@.len() == len0 - query_idx,
            pool_idx <= original@.len(),
            mp == mask_seq(pool0, search_type),
            mq == mask_seq(matched_word@, search_type),
            sorted_u8(mp),
            sorted_u8(mq),
            sorted_u8(original@),
            original@.skip(pool_idx as int) == pool0.skip(pool_idx + query_idx),
            mq.skip(query_idx as int).to_multiset().subset_of(
                mp.skip(pool_idx + query_idx).to_multiset(),
            ),
            mask_seq(original@, search_type).to_multiset().add(
                mq.take(query_idx as int).to_multiset(),
            ) == mp.to_multiset(),
            original@.to_multiset().subset_of(pool0.to_multiset()),
            spec_complement(pool0, matched_word@, search_type) == original@.take(pool_idx as int)
                + spec_complement(
                pool0.skip(pool_idx + query_idx),
                matched_word@.skip(query_idx as int),
                search_type,
            ),
        decreases len0 + query_len - pool_idx - query_idx,
    {
        proof {
            if pool_idx == original@.len() {
                let tq = mq.skip(query_idx as int);
                assert(mp.skip(pool_idx + query_idx) =~= Seq::<u8>::empty());
                assert(tq.contains(tq[0]));
                assert(tq.to_multiset().count(tq[0]) > 0);
                assert(false);
            }
        }
        let ghost i = pool_idx as int;
        let ghost j = query_idx as int;
        let ghost vprev = original@;
        let ghost tp = mp.skip(i + j);
        let ghost tq = mq.skip(j);
        let ghost rp = pool0.skip(i + j);
        let ghost rq = matched_word@.skip(j);
        proof {
            assert(vprev.skip(i)[0] == vprev[i] && pool0.skip(i + j)[0] == pool0[i + j]);
            assert(tp[0] == mp[i + j] && tq[0] == mq[j]);
            assert(mp[i + j] == mask_code(pool0[i + j], search_type));
            assert(sorted_u8(tp) && sorted_u8(tq));
            assert(tp.drop_first() =~= mp.skip(i + j + 1));
            assert(tq.drop_first() =~= mq.skip(j + 1));
            assert(rp[0] == pool0[i + j] && rq[0] == matched_word@[j]);
            assert(rp.drop_first() =~= pool0.skip(i + j + 1));
            assert(rq.drop_first() =~= matched_word@.skip(j + 1));
            assert(vprev[i] == pool0[i + j]);
        }
        if encoded_chars_equal(matched_word[query_idx], original[pool_idx], search_type) {
            original.remove(pool_idx);
            query_idx += 1;
            proof {
                lemma_match_heads(tp, tq);
                assert(original@ == vprev.remove(i));
                assert forall|a: int, b: int|
                    0 <= a <= b < original@.len() implies #[trigger] original@[a]
                    <= #[trigger] original@[b] by {
                    let a2 = if a < i { a } else { a + 1 };
                    let b2 = if b < i { b } else { b + 1 };
                    assert(original@[a] == vprev[a2] && original@[b] == vprev[b2]);
                    assert(vprev[a2] <= vprev[b2]);
                }
                assert(original@.skip(i) =~= vprev.skip(i + 1));
                assert(vprev.skip(i).drop_first() =~= vprev.skip(i + 1));
                assert(vprev.skip(i + 1) =~= pool0.skip(i + j + 1));
                assert(mask_seq(original@, search_type) =~= mask_seq(vprev, search_type).remove(
                    i,
                ));
                assert(mask_seq(vprev, search_type)[i] == mask_code(vprev[i], search_type));
                assert(vprev[i] == pool0[i + j]);
                assert(mask_seq(original@, search_type).to_multiset() == mask_seq(
                    vprev,
                    search_type,
                ).to_multiset().remove(mq[j]));
                assert(mq.take(j + 1) =~= mq.take(j).push(mq[j]));
                assert(mq.take(j + 1).to_multiset() == mq.take(j).to_multiset().insert(mq[j]));
                assert(mask_seq(vprev, search_type).to_multiset().count(mq[j]) > 0) by {
                    assert(mask_seq(vprev, search_type).contains(
                        mask_seq(vprev, search_type)[i],
                    ));
                }
                assert(mask_seq(original@, search_type).to_multiset().add(
                    mq.take(j + 1).to_multiset(),
                ) =~= mp.to_multiset());
                assert(original@.to_multiset() == vprev.to_multiset().remove(vprev[i]));
                assert(mask_code(rq[0], search_type) == mask_code(rp[0], search_type));
                assert(spec_complement(rp, rq, search_type) == spec_complement(
                    rp.drop_first(),
                    rq.drop_first(),
                    search_type,
                ));
                assert(original@.take(i) =~= vprev.take(i));
            }
        } else if matched_word[query_idx] > original[pool_idx] {
            proof {
                lemma_skip_unmatched_head(tp, tq);
                assert(original@.skip(pool_idx + 1) =~= original@.skip(pool_idx as int).drop_first());
                assert(pool0.skip(pool_idx + query_idx + 1) =~= pool0.skip(
                    pool_idx + query_idx,
                ).drop_first());
                assert(mask_code(rq[0], search_type) != mask_code(rp[0], search_type));
                assert(rq[0] > rp[0]);
                assert(spec_complement(rp, rq, search_type) == seq![rp[0]] + spec_complement(
                    rp.drop_first(),
                    rq,
                    search_type,
                ));
                assert(original@.take(i + 1) =~= original@.take(i).push(original@[i]));
                assert(original@.take(i) + (seq![rp[0]] + spec_complement(
                    rp.drop_first(),
                    rq,
                    search_type,
                )) =~= original@.take(i + 1) + spec_complement(rp.drop_first(), rq, search_type));
            }
            pool_idx += 1;
        } else {
            // both sorted: a query letter below the pool cursor can no longer
            // be matched, contradicting the inclusion established above
            proof {
                lemma_mask_monotone(matched_word@[j], original@[i], search_type);
                assert(mq[j] < mp[i + j]) by {
                    assert(mask_code(matched_word@[j], search_type) != mask_code(
                        original@[i],
                        search_type,
                    ));
                    assert(mask_code(original@[i], search_type) == mp[i + j]);
                }
                assert(tq.contains(tq[0]));
                assert(tq.to_multiset().count(mq[j]) > 0);
                assert(tp.to_multiset().count(mq[j]) > 0);
                assert(tp.contains(mq[j]));
                let k = choose|k: int| 0 <= k < tp.len() && tp[k] == mq[j];
                assert(tp[0] <= tp[k]);
                assert(false);
            }
        }
    }
    proof {
        if query_idx < query_len {
            // only the pool bound can have stopped the loop, and the pool
            // cannot run out while letters of the word remain unmatched
            assert(pool_idx == len0);
            assert(pool_idx <= original@.len());
            let tq = mq.skip(query_idx as int);
            assert(mp.skip(pool_idx + query_idx) =~= Seq::<u8>::empty());
            assert(tq.contains(tq[0]));
            assert(tq.to_multiset().count(tq[0]) > 0);
            assert(false);
        }
        assert(mq.take(query_len as int) =~= mq);
        let tail = pool0.skip(pool_idx + query_len);
        assert(matched_word@.skip(query_len as int) =~= Seq::<u8>::empty());
        assert(spec_complement(tail, Seq::<u8>::empty(), search_type) == tail);
        assert(original@.skip(pool_idx as int) == tail);
        assert(original@.take(pool_idx as int) + original@.skip(pool_idx as int) =~= original@);
    }
}

/// A letter's bit in the Bloom summary: one bit per base letter, so the
/// summary is blind to diacritics.
pub open spec fn bloom_bit(b: u8) -> u32 {
    1u32 << ((b / 8) as u32)
}

/// The Bloom summary of a letter sequence: the union of its letters' bits.
pub open spec fn bloom_of(s: Seq<u8>) -> u32
    decreases s.len(),
{
    if s.len() == 0 {
        0u32
    } else {
        bloom_of(s.drop_last()) | bloom_bit(s.last())
    }
}

/// Computes the Bloom summary of a sequence of encoded letters: bit `k` is
/// set exactly when some letter has base ordinal `k`.
pub fn encoded_letters_to_bloom_u32(input: &[u8]) -> (r: u32)
    ensures
        r == bloom_of(input@),
{
    let mut bloom: u32 = 0;
    let n = input.len();
    let mut i: usize = 0;
    while i < n
        invariant
            n == input@.len(),
            i <= n,
            bloom == bloom_of(input@.take(i as int)),
        decreases n - i,
    {
        let c = input[i];
        let shift = c >> 3u8;
        proof {
            assert(shift == c / 8 && shift < 32) by (bit_vector)
                requires
                    shift == (c >> 3u8),
            ;
            assert(input@.take(i + 1).drop_last() =~= input@.take(i as int));
            assert(input@.take(i + 1).last() == input@[i as int]);
        }
        bloom = bloom | (1u32 << (shift as u32));
        i += 1;
    }
    proof {
        assert(input@.take(n as int) =~= input@);
    }
    bloom
}

/// A letter that occurs in a sequence has its bit set in the summary.
pub proof fn lemma_bloom_elem(s: Seq<u8>, v: u8)
    requires
        s.contains(v),
    ensures
        bloom_bit(v) & bloom_of(s) == bloom_bit(v),
    decreases s.len(),
{
    let rest = bloom_of(s.drop_last());
    let lastbit = bloom_bit(s.last());
    let vbit = bloom_bit(v);
    if v == s.last() {
        assert(vbit & (rest | vbit) == vbit) by (bit_vector);
    } else {
        assert(s.drop_last().contains(v)) by {
            let k = choose|k: int| 0 <= k < s.len() && s[k] == v;
            assert(s.drop_last()[k] == v);
        }
        lemma_bloom_elem(s.drop_last(), v);
        assert(vbit & (rest | lastbit) == vbit) by (bit_vector)
            requires
                vbit & rest == vbit,
        ;
    }
}

/// Bloom summaries are monotone: the summary of a sub-multiset is bitwise
/// included in the summary of the containing multiset.
pub proof fn lemma_bloom_monotone(a: Seq<u8>, b: Seq<u8>)
    requires
        a.to_multiset().subset_of(b.to_multiset()),
    ensures
        bloom_of(a) & bloom_of(b) == bloom_of(a),
    decreases a.len(),
{
    let bb = bloom_of(b);
    if a.len() == 0 {
        assert(0u32 & bb == 0u32) by (bit_vector);
    } else {
        let last = a.last();
        assert(a.drop_last() =~= a.remove(a.len() - 1));
        assert(a.drop_last().to_multiset() == a.to_multiset().remove(last));
        assert forall|v: u8|
            a.drop_last().to_multiset().count(v) <= b.to_multiset().count(v) by {
            assert(a.to_multiset().count(v) <= b.to_multiset().count(v));
        }
        lemma_bloom_monotone(a.drop_last(), b);
        assert(a.to_multiset().count(last) > 0) by {
            assert(a.contains(last));
        }
        assert(b.to_multiset().count(last) > 0);
        assert(b.contains(last));
        lemma_bloom_elem(b, last);
        let x = bloom_of(a.drop_last());
        let y = bloom_bit(last);
        assert((x | y) & bb == (x | y)) by (bit_vector)
            requires
                x & bb == x,
                y & bb == y,
        ;
    }
}

/// Sorts a vector of encoded letters ascending, keeping its multiset.
pub fn sort_letters(v: &mut Vec<u8>)
    ensures
        sorted_u8(final(v)@),
        final(v)@.to_multiset() == old(v)@.to_multiset(),
        final(v)@.len() == old(v)@.len(),
{
    let n = v.len();
    let mut i: usize = 1;
    while i < n
        invariant
            n == v@.len(),
            1 <= i,
            forall|a: int, b: int| 0 <= a <= b < i && b < n ==> #[trigger] v@[a] <= #[trigger] v@[b],
            v@.to_multiset() == old(v)@.to_multiset(),
        decreases n - i,
    {
        let mut j: usize = i;
        while j > 0 && v[j - 1] > v[j]
            invariant
                n == v@.len(),
                j <= i < n,
                forall|a: int, b: int|
                    0 <= a <= b <= i && a != j && b != j ==> #[trigger] v@[a] <= #[trigger] v@[b],
                forall|a: int| j < a <= i ==> v@[j as int] <= #[trigger] v@[a],
                v@.to_multiset() == old(v)@.to_multiset(),
            decreases j,
        {
            let ghost vprev = v@;
            let lower = v[j - 1];
            let upper = v[j];
            v[j - 1] = upper;
            v[j] = lower;
            proof {
                assert(v@ =~= vprev.update(j - 1, vprev[j as int]).update(j as int, vprev[j - 1]));
                assert(v@.to_multiset() =~= vprev.to_multiset());
            }
            j -= 1;
        }
        i += 1;
    }
}

} // verus!
