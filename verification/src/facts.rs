//! What holds of the states of the coders.
use vstd::arithmetic::power2::{lemma2_to64, pow2};
use vstd::prelude::*;

use crate::bits::lemma_to_bits_len;
use crate::codelen::{code_lens, lemma_code_lens_serve};
use crate::consts::{
    LZ_CHUNK_SIZE, LZ_LENID_SIZE, LZ_MATCH_MAX_LEN, LZ_MATCH_MIN_LEN, LZ_MF_BUCKET_ITEM_SIZE,
    LZ_ROID_SIZE, MTF_NUM_SYMBOLS, SYMRANK_NUM_SYMBOLS,
};
use crate::huffman::{is_code, CODE_LEN_MAX};
use crate::matchfinder::{law_found_match_is_match, lemma_updated_wf, repeats_at, BucketView};
use crate::model::{
    alphabet, body_bits, by_frequency, chunk_parse, chunk_size_max, chunk_symranks, encoded_chunk,
    encoded_len, fresh_symranks, goes_before, has_contexts, law_len_round_trip, lesser, long_lens,
    occurrences, op_len, parse, ranked, spec_hash1, spec_hash2, symbols, weights, ContextView,
    EncoderView, LZCfg, LZOp, LZView, MatchItem, ParseView, BUCKET_COUNT, CONTEXT_SIZE,
    SYMRANK_COUNT, WORD_COUNT,
};
use crate::mtf::{law_decode_undoes_encode, law_from_vs_permutation, MTFView};
use crate::roid::{law_roid_covers, roid_base, roid_bitlen, roid_of};

verus! {

/// Contexts are in the ranges of the tables that they index.
pub proof fn lemma_hash_range(s: Seq<u8>, pos: int)
    requires
        2 <= pos <= s.len(),
    ensures
        0 <= spec_hash1(s, pos - 1) < BUCKET_COUNT,
        3 <= pos ==> 0 <= spec_hash2(s, pos - 1) < WORD_COUNT,
{
}

/// The operation can be applied at `pos`.
pub open spec fn op_fits(lz: LZView, s: Seq<u8>, pos: int, op: LZOp) -> bool {
    &&& pos + op_len(op) <= s.len()
    &&& match op {
        LZOp::Match { reduced_offset, match_len } => {
            let b = lz.bucket_at(s, pos);
            let ro = reduced_offset as int;
            &&& reduced_offset < LZ_MF_BUCKET_ITEM_SIZE
            &&& LZ_MATCH_MIN_LEN <= match_len <= LZ_MATCH_MAX_LEN
            &&& b.len_min(ro) <= match_len
            &&& 0 < b.match_pos(ro) < pos
            &&& forall|i: int| 0 <= i < match_len ==> #[trigger] repeats_at(s, b.match_pos(ro), pos, i)
        },
        LZOp::Word => lz.word_at(s, pos) == (s[pos], s[pos + 1]),
        LZOp::Literal => true,
    }
}

/// The operation that the encoder chooses can be applied.
pub proof fn lemma_op_fits(p: ParseView, cfg: LZCfg, s: Seq<u8>, pos: int)
    requires
        p.wf(),
        CONTEXT_SIZE <= pos < s.len(),
    ensures
        op_fits(p.lz, s, pos, p.op_at(cfg, s, pos)),
{
    lemma_hash_range(s, pos);
    let h = spec_hash1(s, pos - 1);
    if p.op_at(cfg, s, pos) is Match {
        law_found_match_is_match(p.matchers[h], p.lz.buckets[h], s, pos, cfg.match_depth as nat);
    }
}

/// Taking note of an operation keeps the context well-formed.
pub proof fn lemma_lz_advanced_wf(lz: LZView, s: Seq<u8>, pos: int, op: LZOp)
    requires
        lz.wf(),
        CONTEXT_SIZE <= pos,
        pos + op_len(op) <= s.len(),
        op matches LZOp::Match { match_len, .. } ==> LZ_MATCH_MIN_LEN <= match_len < usize::MAX,
    ensures
        lz.advanced(s, pos, op).wf(),
{
    lemma_hash_range(s, pos);
    let h = spec_hash1(s, pos - 1);
    match op {
        LZOp::Match { reduced_offset, match_len } => {
            lemma_updated_wf(lz.buckets[h], pos, reduced_offset as int, match_len as int);
        },
        _ => {
            lemma_updated_wf(lz.buckets[h], pos, 0, 0);
        },
    }
}

/// A step of the encoder keeps its state well-formed.
pub proof fn lemma_advanced_wf(p: ParseView, s: Seq<u8>, pos: int, op: LZOp)
    requires
        p.wf(),
        CONTEXT_SIZE <= pos,
        pos + op_len(op) <= s.len(),
        op matches LZOp::Match { match_len, .. } ==> LZ_MATCH_MIN_LEN <= match_len < usize::MAX,
    ensures
        p.advanced(s, pos, op).wf(),
{
    lemma_lz_advanced_wf(p.lz, s, pos, op);
}

/// The item of an applicable operation has fields in their ranges.
pub proof fn lemma_item_wf(lz: LZView, s: Seq<u8>, pos: int, op: LZOp)
    requires
        lz.wf(),
        CONTEXT_SIZE <= pos,
        op_fits(lz, s, pos, op),
    ensures
        lz.item_at(s, pos, op).wf(),
        op matches LZOp::Match { reduced_offset, match_len } ==> ({
            let ro = reduced_offset as int;
            let len = encoded_len(
                match_len as int,
                lz.bucket_at(s, pos).len_expected(ro),
                lz.bucket_at(s, pos).len_min(ro),
            );
            &&& 0 <= len < LZ_MATCH_MAX_LEN
            &&& 0 <= roid_of(ro) < LZ_ROID_SIZE
            &&& 0 <= ro - roid_base(roid_of(ro)) < pow2(roid_bitlen(roid_of(ro)))
            &&& roid_bitlen(roid_of(ro)) <= 10
            &&& pow2(roid_bitlen(roid_of(ro))) <= 1024
        }),
{
    lemma_hash_range(s, pos);
    if let LZOp::Match { reduced_offset, match_len } = op {
        let ro = reduced_offset as int;
        law_roid_covers(ro);
        let b = lz.bucket_at(s, pos);
        assert(b.items[b.node(ro)].wf());
        law_len_round_trip(match_len as int, b.len_expected(ro), b.len_min(ro));
        lemma2_to64();
        if roid_bitlen(roid_of(ro)) < 10 {
            vstd::arithmetic::power2::lemma_pow2_strictly_increases(roid_bitlen(roid_of(ro)), 10);
        }
    }
}

/// All coders rank every symbol once.
pub open spec fn all_permutations(symranks: Seq<MTFView>) -> bool {
    &&& symranks.len() == SYMRANK_COUNT
    &&& forall|i: int| 0 <= i < SYMRANK_COUNT ==> (#[trigger] symranks[i]).is_permutation()
}

/// Dividing the text keeps the state well-formed, gives items in their ranges,
/// and goes on to the end of the text or as far as the budget reaches.
pub proof fn lemma_parse(p: ParseView, cfg: LZCfg, s: Seq<u8>, pos: int, budget: nat)
    requires
        p.wf(),
        has_contexts(s, pos),
    ensures
        ({
            let q = parse(p, cfg, s, pos, budget);
            &&& q.state.wf()
            &&& pos + q.items.len() <= q.pos <= pos + LZ_MATCH_MAX_LEN * q.items.len()
            &&& pos <= s.len() ==> q.pos <= s.len()
            &&& q.items.len() <= budget
            &&& q.pos >= s.len() || q.items.len() == budget
            &&& forall|k: int| 0 <= k < q.items.len() ==> (#[trigger] q.items[k]).wf()
        }),
    decreases budget,
{
    if !(budget == 0 || pos >= s.len()) {
        let op = p.op_at(cfg, s, pos);
        lemma_op_fits(p, cfg, s, pos);
        lemma_item_wf(p.lz, s, pos, op);
        lemma_advanced_wf(p, s, pos, op);
        let rest = parse(p.advanced(s, pos, op), cfg, s, pos + op_len(op), (budget - 1) as nat);
        lemma_parse(p.advanced(s, pos, op), cfg, s, pos + op_len(op), (budget - 1) as nat);
        let q = parse(p, cfg, s, pos, budget);
        assert forall|k: int| 0 <= k < q.items.len() implies (#[trigger] q.items[k]).wf() by {
            if k > 0 {
                assert(q.items[k] == rest.items[k - 1]);
            }
        }
    }
}

/// The code tables have words for everything that is to be coded.
pub open spec fn codes_cover(
    lens1: Seq<u8>,
    lens2: Seq<u8>,
    items: Seq<MatchItem>,
    ranks: Seq<u16>,
) -> bool {
    &&& ranks.len() == items.len()
    &&& forall|k: int|
        0 <= k < ranks.len() ==> (#[trigger] ranks[k]) < SYMRANK_NUM_SYMBOLS && lens1[ranks[k] as int] > 0
    &&& forall|k: int|
        0 <= k < items.len() ==> ((#[trigger] items[k]) matches MatchItem::Match { encoded_match_len, .. } ==> (
        encoded_match_len >= LZ_LENID_SIZE - 1 ==> lens2[encoded_match_len as int] > 0))
}

/// Ranking gives one rank for each item, all of them in range, and keeps
/// coders that rank every symbol once as such.
pub proof fn lemma_ranked(symranks: Seq<MTFView>, items: Seq<MatchItem>)
    requires
        symranks.len() == SYMRANK_COUNT,
        forall|i: int| 0 <= i < SYMRANK_COUNT ==> (#[trigger] symranks[i]).wf(),
        forall|k: int| 0 <= k < items.len() ==> (#[trigger] items[k]).wf(),
    ensures
        ({
            let r = ranked(symranks, items);
            &&& r.ranks.len() == items.len()
            &&& forall|k: int| 0 <= k < r.ranks.len() ==> (#[trigger] r.ranks[k]) < SYMRANK_NUM_SYMBOLS
            &&& r.symranks.len() == SYMRANK_COUNT
            &&& forall|i: int| 0 <= i < SYMRANK_COUNT ==> (#[trigger] r.symranks[i]).wf()
            &&& all_permutations(symranks) ==> all_permutations(r.symranks)
        }),
    decreases items.len(),
{
    if items.len() > 0 {
        let item = items[0];
        assert(item.wf());
        let c = item.context_of() as int;
        let v = item.symbol_of() as int;
        let m = symranks[c];
        assert(m.wf());
        let symranks1 = symranks.update(c, m.after_encode(v));
        crate::mtf::lemma_after_encode_wf(m, v);
        assert(m.ixs[v] < MTF_NUM_SYMBOLS);
        assert(forall|k: int| 0 <= k < items.drop_first().len() ==> items.drop_first()[k] == items[k + 1]);
        if all_permutations(symranks) {
            assert(symranks[c].is_permutation());
            law_decode_undoes_encode(m, v, item.unlikely_of() as int);
            assert(all_permutations(symranks1));
        }
        lemma_ranked(symranks1, items.drop_first());
        let r1 = ranked(symranks1, items.drop_first());
        let r = ranked(symranks, items);
        assert forall|k: int| 0 <= k < r.ranks.len() implies (#[trigger] r.ranks[k]) < SYMRANK_NUM_SYMBOLS by {
            if k > 0 {
                assert(r.ranks[k] == r1.ranks[k - 1]);
            }
        }
    }
}

/// What is in a sequence occurs in it, at most as often as it is long.
pub proof fn lemma_occurrences(s: Seq<u16>, v: int)
    ensures
        occurrences(s, v) <= s.len(),
        forall|k: int| 0 <= k < s.len() && (#[trigger] s[k]) == v ==> occurrences(s, v) > 0,
    decreases s.len(),
{
    if s.len() > 0 {
        lemma_occurrences(s.drop_last(), v);
        assert forall|k: int| 0 <= k < s.len() && (#[trigger] s[k]) == v implies occurrences(s, v) > 0 by {
            if k < s.len() - 1 {
                assert(s.drop_last()[k] == v);
            }
        }
    }
}

/// The count of a symbol is the number of positions that hold it, so one more
/// symbol adds one to its own count and nothing to the others.
pub proof fn law_occurrences(s: Seq<u16>, v: u16, w: u16)
    ensures
        occurrences(s, v as int) == s.to_multiset().count(v),
        occurrences(s, v as int) == s.filter(|x: u16| x == v).len(),
        occurrences(s.push(v), v as int) == occurrences(s, v as int) + 1,
        w != v ==> occurrences(s.push(v), w as int) == occurrences(s, w as int),
    decreases s.len(),
{
    assert(s.push(v).drop_last() =~= s);
    reveal(Seq::filter);
    s.to_multiset_ensures();
    if s.len() > 0 {
        law_occurrences(s.drop_last(), v, w);
        assert(s.drop_last().push(s.last()) =~= s);
        vstd::seq_lib::to_multiset_build(s.drop_last(), s.last());
    }
}

/// The weights are the numbers of positions that hold each symbol.
pub proof fn law_weights(s: Seq<u16>, n: nat, v: u16)
    requires
        v < n,
        s.len() <= u32::MAX,
    ensures
        weights(s, n).len() == n,
        weights(s, n)[v as int] == s.to_multiset().count(v),
{
    law_occurrences(s, v, v);
    lemma_occurrences(s, v as int);
}

/// The long lengths of the items are among those that are counted.
pub proof fn lemma_long_lens(items: Seq<MatchItem>)
    requires
        forall|k: int| 0 <= k < items.len() ==> (#[trigger] items[k]).wf(),
    ensures
        long_lens(items).len() <= items.len(),
        forall|k: int|
            0 <= k < long_lens(items).len() ==> (#[trigger] long_lens(items)[k]) < LZ_MATCH_MAX_LEN,
        forall|k: int|
            0 <= k < items.len() ==> ((#[trigger] items[k]) matches MatchItem::Match { encoded_match_len, .. } ==> (
            encoded_match_len >= LZ_LENID_SIZE - 1 ==> occurrences(
                long_lens(items),
                encoded_match_len as int,
            ) > 0)),
    decreases items.len(),
{
    if items.len() > 0 {
        let front = items.drop_last();
        lemma_long_lens(front);
        let a = long_lens(front);
        let b = long_lens(items);
        assert(items[items.len() - 1].wf());
        assert(b == a || b.drop_last() =~= a);
        assert forall|k: int| 0 <= k < items.len() implies ((#[trigger] items[k]) matches MatchItem::Match {
            encoded_match_len,
            ..
        } ==> (encoded_match_len >= LZ_LENID_SIZE - 1 ==> occurrences(b, encoded_match_len as int) > 0)) by {
            if k < items.len() - 1 {
                assert(front[k] == items[k]);
            }
        }
    }
}

/// The code tables that the encoder makes have words for all items.
pub proof fn lemma_codes_cover(items: Seq<MatchItem>, ranks: Seq<u16>)
    requires
        items.len() <= LZ_CHUNK_SIZE,
        ranks.len() == items.len(),
        forall|k: int| 0 <= k < items.len() ==> (#[trigger] items[k]).wf(),
        forall|k: int| 0 <= k < ranks.len() ==> (#[trigger] ranks[k]) < SYMRANK_NUM_SYMBOLS,
    ensures
        ({
            let lens1 = code_lens(weights(ranks, SYMRANK_NUM_SYMBOLS as nat));
            let lens2 = code_lens(weights(long_lens(items), LZ_MATCH_MAX_LEN as nat));
            &&& codes_cover(lens1, lens2, items, ranks)
            &&& is_code(lens1)
            &&& is_code(lens2)
            &&& lens1.len() == SYMRANK_NUM_SYMBOLS
            &&& lens2.len() == LZ_MATCH_MAX_LEN
        }),
{
    let w1 = weights(ranks, SYMRANK_NUM_SYMBOLS as nat);
    let w2 = weights(long_lens(items), LZ_MATCH_MAX_LEN as nat);
    let lens1 = code_lens(w1);
    let lens2 = code_lens(w2);
    lemma_code_lens_serve(w1, 0);
    lemma_code_lens_serve(w2, 0);
    lemma_long_lens(items);
    assert forall|k: int| 0 <= k < ranks.len() implies (#[trigger] ranks[k]) < SYMRANK_NUM_SYMBOLS
        && lens1[ranks[k] as int] > 0 by {
        lemma_occurrences(ranks, ranks[k] as int);
        assert(w1[ranks[k] as int] > 0);
    }
    assert forall|k: int| 0 <= k < items.len() implies ((#[trigger] items[k]) matches MatchItem::Match {
        encoded_match_len,
        ..
    } ==> (encoded_match_len >= LZ_LENID_SIZE - 1 ==> lens2[encoded_match_len as int] > 0)) by {
        if let MatchItem::Match { encoded_match_len, .. } = items[k] {
            lemma_occurrences(long_lens(items), encoded_match_len as int);
            assert(items[k].wf());
            if encoded_match_len >= LZ_LENID_SIZE - 1 {
                assert(w2[encoded_match_len as int] > 0);
            }
        }
    }
}

/// The order by frequency is a total one.
pub proof fn lemma_goes_before_total(s: Seq<u16>)
    ensures
        vstd::relations::total_ordering(goes_before(s)),
{
}

/// The symbols by frequency are all symbols, each one once.
pub proof fn lemma_by_frequency(s: Seq<u16>)
    ensures
        by_frequency(s).len() == SYMRANK_NUM_SYMBOLS,
        by_frequency(s).no_duplicates(),
        forall|i: int|
            0 <= i < SYMRANK_NUM_SYMBOLS ==> (#[trigger] by_frequency(s)[i]) < SYMRANK_NUM_SYMBOLS,
{
    let a = alphabet();
    let vs = by_frequency(s);
    lemma_goes_before_total(s);
    a.lemma_sort_by_ensures(goes_before(s));
    a.to_multiset_ensures();
    vs.to_multiset_ensures();
    assert(a.no_duplicates());
    a.lemma_multiset_has_no_duplicates();
    vs.lemma_multiset_has_no_duplicates_conv();
    assert forall|i: int| 0 <= i < SYMRANK_NUM_SYMBOLS implies (#[trigger] vs[i]) < SYMRANK_NUM_SYMBOLS by {
        assert(vs.contains(vs[i]));
        assert(a.contains(vs[i]));
    }
}

/// The symbols by frequency are all symbols, each one once, the more frequent
/// ones first, and equally frequent ones in ascending order.
pub proof fn law_by_frequency(s: Seq<u16>)
    ensures
        by_frequency(s).len() == SYMRANK_NUM_SYMBOLS,
        by_frequency(s).no_duplicates(),
        forall|i: int|
            0 <= i < SYMRANK_NUM_SYMBOLS ==> (#[trigger] by_frequency(s)[i]) < SYMRANK_NUM_SYMBOLS,
        forall|v: u16| v < SYMRANK_NUM_SYMBOLS ==> #[trigger] by_frequency(s).contains(v),
        forall|j: int, k: int|
            #![trigger by_frequency(s)[j], by_frequency(s)[k]]
            0 <= j < k < SYMRANK_NUM_SYMBOLS ==> {
                let a = by_frequency(s)[j];
                let b = by_frequency(s)[k];
                s.to_multiset().count(a) > s.to_multiset().count(b) || (s.to_multiset().count(a)
                    == s.to_multiset().count(b) && a < b)
            },
{
    lemma_by_frequency(s);
    let a = alphabet();
    let vs = by_frequency(s);
    lemma_goes_before_total(s);
    a.lemma_sort_by_ensures(goes_before(s));
    a.to_multiset_ensures();
    vs.to_multiset_ensures();
    assert forall|v: u16| v < SYMRANK_NUM_SYMBOLS implies #[trigger] vs.contains(v) by {
        assert(a[v as int] == v);
        assert(a.contains(v));
        assert(vs.to_multiset().count(v) > 0);
    }
    assert forall|j: int, k: int|
        #![trigger vs[j], vs[k]]
        0 <= j < k < SYMRANK_NUM_SYMBOLS implies s.to_multiset().count(vs[j]) > s.to_multiset().count(vs[k]) || (
    s.to_multiset().count(vs[j]) == s.to_multiset().count(vs[k]) && vs[j] < vs[k]) by {
        assert(goes_before(s)(vs[j], vs[k]));
        law_occurrences(s, vs[j], vs[k]);
        law_occurrences(s, vs[k], vs[j]);
    }
}

/// Fresh ranking coders rank every symbol once.
pub proof fn lemma_fresh_symranks(vs: Seq<u16>)
    requires
        vs.len() == SYMRANK_NUM_SYMBOLS,
        vs.no_duplicates(),
        forall|i: int| 0 <= i < SYMRANK_NUM_SYMBOLS ==> (#[trigger] vs[i]) < SYMRANK_NUM_SYMBOLS,
    ensures
        all_permutations(fresh_symranks(vs)),
{
    assert(vs.take(MTF_NUM_SYMBOLS as int) =~= vs);
    law_from_vs_permutation(vs);
}

/// The items of a chunk are in their ranges, the ranking coders before and
/// behind them are well-formed, and the code tables have words for all of them.
pub proof fn lemma_chunk_parts(e: EncoderView, cfg: LZCfg, s: Seq<u8>, pos: int)
    requires
        e.wf(),
        has_contexts(s, pos),
    ensures
        ({
            let p = chunk_parse(e, cfg, s, pos);
            let symranks = chunk_symranks(e.ctx, p.items);
            let r = ranked(symranks, p.items);
            let lens1 = code_lens(weights(r.ranks, SYMRANK_NUM_SYMBOLS as nat));
            let lens2 = code_lens(weights(long_lens(p.items), LZ_MATCH_MAX_LEN as nat));
            &&& symranks.len() == SYMRANK_COUNT
            &&& forall|i: int| 0 <= i < SYMRANK_COUNT ==> (#[trigger] symranks[i]).wf()
            &&& e.ctx.ranks_all() ==> all_permutations(symranks)
            &&& forall|k: int| 0 <= k < p.items.len() ==> (#[trigger] p.items[k]).wf()
            &&& forall|k: int| 0 <= k < r.ranks.len() ==> (#[trigger] r.ranks[k]) < SYMRANK_NUM_SYMBOLS
            &&& r.symranks.len() == SYMRANK_COUNT
            &&& forall|i: int| 0 <= i < SYMRANK_COUNT ==> (#[trigger] r.symranks[i]).wf()
            &&& e.ctx.ranks_all() ==> all_permutations(r.symranks)
            &&& codes_cover(lens1, lens2, p.items, r.ranks)
            &&& is_code(lens1)
            &&& is_code(lens2)
            &&& lens1.len() == SYMRANK_NUM_SYMBOLS
            &&& lens2.len() == LZ_MATCH_MAX_LEN
        }),
{
    let p = chunk_parse(e, cfg, s, pos);
    lemma_parse(ParseView { lz: e.ctx.lz, matchers: e.matchers }, cfg, s, pos, LZ_CHUNK_SIZE as nat);
    let vs = by_frequency(symbols(p.items));
    lemma_by_frequency(symbols(p.items));
    lemma_fresh_symranks(vs);
    let symranks = chunk_symranks(e.ctx, p.items);
    assert forall|i: int| 0 <= i < SYMRANK_COUNT implies (#[trigger] symranks[i]).wf() by {
        if e.ctx.first_block {
            assert(symranks[i].is_permutation());
        } else {
            assert(e.ctx.symranks[i].wf());
        }
    }
    lemma_ranked(symranks, p.items);
    lemma_codes_cover(p.items, ranked(symranks, p.items).ranks);
    if e.ctx.ranks_all() {
        assert(all_permutations(symranks));
    }
}

/// Encoding a chunk keeps the encoder well-formed and ranking every symbol
/// once, and leaves it behind its first chunk. It goes on to the end of the
/// text, or until the chunk is full, and each item covers at least one byte and
/// at most the longest match.
pub proof fn law_encoded_chunk(e: EncoderView, cfg: LZCfg, s: Seq<u8>, pos: int)
    requires
        e.wf(),
        has_contexts(s, pos),
    ensures
        encoded_chunk(e, cfg, s, pos).state.wf(),
        e.ctx.ranks_all() ==> encoded_chunk(e, cfg, s, pos).state.ctx.ranks_all(),
        !encoded_chunk(e, cfg, s, pos).state.ctx.first_block,
        pos <= encoded_chunk(e, cfg, s, pos).pos <= pos + LZ_MATCH_MAX_LEN * LZ_CHUNK_SIZE,
        pos <= s.len() ==> encoded_chunk(e, cfg, s, pos).pos <= s.len(),
        pos < s.len() ==> pos < encoded_chunk(e, cfg, s, pos).pos,
        encoded_chunk(e, cfg, s, pos).pos < s.len() ==> encoded_chunk(e, cfg, s, pos).pos - pos
            >= LZ_CHUNK_SIZE,
{
    reveal(encoded_chunk);
    lemma_parse(ParseView { lz: e.ctx.lz, matchers: e.matchers }, cfg, s, pos, LZ_CHUNK_SIZE as nat);
    lemma_chunk_parts(e, cfg, s, pos);
    let last = encoded_chunk(e, cfg, s, pos).state.ctx;
    if e.ctx.ranks_all() {
        assert(all_permutations(last.symranks));
    }
}

proof fn lemma_body_len(lens1: Seq<u8>, lens2: Seq<u8>, items: Seq<MatchItem>, ranks: Seq<u16>)
    requires
        is_code(lens1),
        is_code(lens2),
        lens1.len() == SYMRANK_NUM_SYMBOLS,
        lens2.len() == LZ_MATCH_MAX_LEN,
        ranks.len() == items.len(),
        forall|k: int| 0 <= k < ranks.len() ==> (#[trigger] ranks[k]) < SYMRANK_NUM_SYMBOLS,
        forall|k: int| 0 <= k < items.len() ==> (#[trigger] items[k]).wf(),
    ensures
        body_bits(lens1, lens2, items, ranks).len() <= 40 * items.len(),
    decreases items.len(),
{
    if items.len() > 0 {
        let rank = ranks[0] as int;
        assert(items[0].wf());
        assert(lens1[rank] <= CODE_LEN_MAX);
        lemma_to_bits_len(crate::huffman::code(lens1, rank), lens1[rank] as nat);
        if let MatchItem::Match { robitlen, robits, encoded_match_len, .. } = items[0] {
            lemma_to_bits_len(robits as nat, robitlen as nat);
            let len = encoded_match_len as int;
            assert(lens2[len] <= CODE_LEN_MAX);
            lemma_to_bits_len(crate::huffman::code(lens2, len), lens2[len] as nat);
        }
        assert(forall|k: int| 0 <= k < items.drop_first().len() ==> items.drop_first()[k] == items[k + 1]);
        assert(forall|k: int| 0 <= k < ranks.drop_first().len() ==> ranks.drop_first()[k] == ranks[k + 1]);
        lemma_body_len(lens1, lens2, items.drop_first(), ranks.drop_first());
    }
}

/// An encoded chunk is never larger than its size limit.
pub proof fn law_encoded_size(e: EncoderView, cfg: LZCfg, s: Seq<u8>, pos: int)
    requires
        e.wf(),
        has_contexts(s, pos),
    ensures
        encoded_chunk(e, cfg, s, pos).bytes.len() <= chunk_size_max(s.len() - pos),
        chunk_size_max(s.len() - pos) <= 1101 + 5 * 1048576,
        pos <= s.len() ==> chunk_size_max(s.len() - pos) <= 1101 + 5 * (s.len() - pos),
        pos >= s.len() ==> chunk_size_max(s.len() - pos) == 1101,
{
    reveal(encoded_chunk);
    let p = chunk_parse(e, cfg, s, pos);
    lemma_parse(ParseView { lz: e.ctx.lz, matchers: e.matchers }, cfg, s, pos, LZ_CHUNK_SIZE as nat);
    lemma_chunk_parts(e, cfg, s, pos);
    lemma_by_frequency(symbols(p.items));
    let r = ranked(chunk_symranks(e.ctx, p.items), p.items);
    let lens1 = code_lens(weights(r.ranks, SYMRANK_NUM_SYMBOLS as nat));
    let lens2 = code_lens(weights(long_lens(p.items), LZ_MATCH_MAX_LEN as nat));
    lemma_body_len(lens1, lens2, p.items, r.ranks);
    lemma_to_bits_len(lesser(p.pos, s.len() as int) as nat, 32);
    lemma_to_bits_len(p.items.len(), 32);
}

/// The encoder and the decoder start with the same context, which is valid.
pub proof fn law_initial()
    ensures
        EncoderView::initial().wf(),
        EncoderView::initial().ctx == ContextView::initial(),
        ContextView::initial().wf(),
        ContextView::initial().ranks_all(),
{
    crate::matchfinder::lemma_bucket_empty_wf();
    lemma_fresh_symranks(alphabet());
    let c = ContextView::initial();
    assert forall|i: int| 0 <= i < SYMRANK_COUNT implies (#[trigger] c.symranks[i]).wf() by {
        assert(fresh_symranks(alphabet())[i].is_permutation());
    }
}

/// Moving the text keeps both coders valid and their contexts alike.
pub proof fn law_forward(e: EncoderView, forward_len: int)
    requires
        e.wf(),
        0 <= forward_len,
    ensures
        e.forwarded(forward_len).wf(),
        e.forwarded(forward_len).ctx == e.ctx.forwarded(forward_len),
        e.ctx.forwarded(forward_len).wf(),
        e.ctx.ranks_all() ==> e.ctx.forwarded(forward_len).ranks_all(),
{
    let c = e.ctx.forwarded(forward_len);
    assert forall|i: int| 0 <= i < BUCKET_COUNT implies (#[trigger] c.lz.buckets[i]).wf() by {
        let b = e.ctx.lz.buckets[i];
        assert(b.wf());
        assert forall|k: int| 0 <= k < LZ_MF_BUCKET_ITEM_SIZE implies (
        #[trigger] c.lz.buckets[i].items[k]).wf() by {
            assert(b.items[k].wf());
        }
    }
    let f = e.forwarded(forward_len);
    assert forall|i: int| 0 <= i < BUCKET_COUNT implies (#[trigger] f.matchers[i]).wf() by {
        assert(e.matchers[i].wf());
    }
}

/// After the text moved, an item that is not empty still stands for the byte
/// that it stood for before.
pub proof fn law_forward_keeps_bytes(b: BucketView, s: Seq<u8>, forward_len: int, node: int)
    requires
        b.wf(),
        0 <= forward_len <= s.len(),
        0 <= node < LZ_MF_BUCKET_ITEM_SIZE,
        b.items[node].pos < s.len(),
        b.forwarded(forward_len).items[node].pos > 0,
    ensures
        s.skip(forward_len)[b.forwarded(forward_len).items[node].pos as int]
            == s[b.items[node].pos as int],
        b.forwarded(forward_len).items[node].len_expected == b.items[node].len_expected,
        b.forwarded(forward_len).items[node].len_min == b.items[node].len_min,
{
}

} // verus!
