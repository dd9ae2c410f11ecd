//! What each step of the coders does, in terms of the bytes, tables and items
//! that it is given.
use vstd::arithmetic::power2::{lemma2_to64, lemma_pow2_pos, lemma_pow2_unfold, pow2};
use vstd::prelude::*;

use crate::bits::{
    bits_at, lemma_bits_of_pack, lemma_bits_value_bound, lemma_to_bits_len, lemma_to_bits_of_value,
    pack, to_bits, value_at,
};
use crate::consts::LZ_MF_BUCKET_ITEM_SIZE;
use crate::facts::{lemma_hash_range, lemma_item_wf, op_fits};
use crate::huffman::{code_bits, stored_lens, table_bytes};
use crate::matchfinder::{
    found_match, good_run, hash4, is_run, law_bucket_forwarded, law_candidates,
    law_forward_keeps_candidates, law_forward_keeps_match, law_found_match_is_longest,
    law_found_match_is_match, law_lazy_match, law_repetition_found, law_slots, lazy_match_exists,
    match_len_at, repeats_at, BucketView, MatcherView, NO_NODE,
};
use crate::model::{
    body_bits, decoded_len, encoded_len, item_bits, long_lens, op_len, parse, rank_bytes, ranked,
    spec_hash1, spec_hash2, stored_ranks, symbols, ContextView, EncoderView, LZCfg, LZOp, LZView,
    MatchItem, ParseView, CONTEXT_SIZE,
};
use crate::mtf::MTFView;
use crate::roid::{roid_base, roid_bitlen, roid_of};

verus! {

/// The short context at `pos` is the lowest seven bits of the byte there, and an
/// eighth bit for a digit or a letter before it. The long context is the lowest
/// seven bits of the byte there and the short context before it.
pub proof fn law_context_bits(s: Seq<u8>, pos: int)
    requires
        1 <= pos < s.len(),
    ensures
        spec_hash1(s, pos) % 128 == s[pos] % 128,
        spec_hash1(s, pos) / 128 == if 48 <= s[pos - 1] <= 57 || 65 <= s[pos - 1] <= 90 || 97 <= s[pos - 1] <= 122 {
            1int
        } else {
            0int
        },
        2 <= pos ==> {
            &&& spec_hash2(s, pos) % 128 == s[pos] % 128
            &&& (spec_hash2(s, pos) / 128) % 128 == s[pos - 1] % 128
            &&& spec_hash2(s, pos) / 16384 == if 48 <= s[pos - 2] <= 57 || 65 <= s[pos - 2] <= 90 || 97 <= s[pos - 2] <= 122 {
                1int
            } else {
                0int
            }
        },
{
}

/// Where the tables are looked up at `pos`: the bucket by the short context and
/// the word by the long context of the byte before, and the ranking coder by the
/// short context and whether a single byte was coded last.
pub proof fn law_lookups(lz: LZView, s: Seq<u8>, pos: int)
    ensures
        lz.bucket_at(s, pos) == lz.buckets[spec_hash1(s, pos - 1)],
        lz.word_at(s, pos) == lz.words[spec_hash2(s, pos - 1)],
        lz.word_matched(s, pos) <==> pos + 1 < s.len() && lz.words[spec_hash2(s, pos - 1)].0 == s[pos]
            && lz.words[spec_hash2(s, pos - 1)].1 == s[pos + 1],
        lz.after_literal ==> lz.symrank_context(s, pos) == 256 + spec_hash1(s, pos - 1),
        !lz.after_literal ==> lz.symrank_context(s, pos) == spec_hash1(s, pos - 1),
{
}

/// The expected length has the code zero. A greater one is coded by how much it
/// is above the least one, and a smaller one by one more than that.
pub proof fn law_length_codes(len: int, code: int, expected: int, min: int)
    ensures
        len == expected ==> encoded_len(len, expected, min) == 0,
        len > expected ==> encoded_len(len, expected, min) == len - min,
        len < expected ==> encoded_len(len, expected, min) == len - min + 1,
        code > expected - min ==> decoded_len(code, expected, min) == code + min,
        0 < code <= expected - min ==> decoded_len(code, expected, min) == code + min - 1,
        0 == code <= expected - min ==> decoded_len(code, expected, min) == expected,
{
}

/// Entering a position makes it the newest item, of which the shortest length
/// is the least and the length of the match found there is expected, or the
/// shortest where there was none. All other items are one older, and what is
/// known of them stays, except of the one that was matched: the length of the
/// match is expected of it, and a match with it has to be longer.
pub proof fn law_bucket_updated(b: BucketView, pos: int, reduced_offset: int, match_len: int, r: int)
    requires
        b.wf(),
        0 <= pos <= usize::MAX,
        0 <= reduced_offset < LZ_MF_BUCKET_ITEM_SIZE,
        0 <= match_len < usize::MAX,
        0 <= r < LZ_MF_BUCKET_ITEM_SIZE - 1,
    ensures
        ({
            let n = b.updated(pos, reduced_offset, match_len);
            let matched = match_len > 0 && r == reduced_offset;
            &&& n.match_pos(0) == pos
            &&& n.len_min(0) == 4
            &&& n.len_expected(0) == if match_len > 0 {
                match_len
            } else {
                4
            }
            &&& n.match_pos(r + 1) == b.match_pos(r)
            &&& n.len_expected(r + 1) == if matched {
                match_len
            } else {
                b.len_expected(r)
            }
            &&& n.len_min(r + 1) == if matched {
                match_len + 1
            } else {
                b.len_min(r)
            }
        }),
{
    let n = b.updated(pos, reduced_offset, match_len);
    assert(n.node(0) == n.head);
    assert(n.node(r + 1) == b.node(r));
    assert(n.node(r + 1) != n.head);
    if r != reduced_offset {
        assert(b.node(r) != b.node(reduced_offset));
    }
}

/// The number of bytes that an operation covers.
pub proof fn law_op_len(match_len: usize, reduced_offset: u16)
    ensures
        op_len(LZOp::Match { reduced_offset, match_len }) == match_len,
        op_len(LZOp::Word) == 2,
        op_len(LZOp::Literal) == 1,
{
}

/// What is learned from an operation that covers the bytes up to `end`. Its
/// position is entered in the bucket of its short context, and in no other one.
/// After a match or a single byte, the last two bytes are the word of the long
/// context in front of them, and all other words stay. A predicted word changes
/// no word. Only a single byte is a literal.
pub proof fn law_advanced(lz: LZView, s: Seq<u8>, pos: int, op: LZOp)
    requires
        lz.wf(),
        CONTEXT_SIZE <= pos,
        pos + op_len(op) <= s.len(),
        op_len(op) >= 1,
    ensures
        ({
            let n = lz.advanced(s, pos, op);
            let end = pos + op_len(op);
            let h = spec_hash1(s, pos - 1);
            &&& n.after_literal == (op == LZOp::Literal)
            &&& op != LZOp::Word ==> n.words[spec_hash2(s, end - 3)] == (s[end - 2], s[end - 1])
            &&& op == LZOp::Word ==> n.words == lz.words
            &&& n.words.len() == lz.words.len()
            &&& forall|w: int|
                0 <= w < lz.words.len() && w != spec_hash2(s, end - 3) ==> (#[trigger] n.words[w])
                    == lz.words[w]
            &&& n.buckets.len() == lz.buckets.len()
            &&& forall|k: int|
                0 <= k < lz.buckets.len() && k != h ==> (#[trigger] n.buckets[k]) == lz.buckets[k]
            &&& op matches LZOp::Match { reduced_offset, match_len } ==> n.buckets[h]
                == lz.buckets[h].updated(pos, reduced_offset as int, match_len as int)
            &&& !(op is Match) ==> n.buckets[h] == lz.buckets[h].updated(pos, 0, 0)
            &&& n.buckets[h].match_pos(0) == pos as usize
        }),
{
    let end = pos + op_len(op);
    lemma_hash_range(s, pos);
    lemma_hash_range(s, end - 2);
    let n = lz.advanced(s, pos, op);
    let h = spec_hash1(s, pos - 1);
    assert(lz.buckets[h].wf());
    assert(n.buckets[h].node(0) == n.buckets[h].head);
}

/// A word that was learned is predicted wherever the same three bytes come
/// again, in any text.
pub proof fn law_word_predicted(lz: LZView, s: Seq<u8>, pos: int, op: LZOp, t: Seq<u8>, q: int)
    requires
        lz.wf(),
        CONTEXT_SIZE <= pos,
        op != LZOp::Word,
        op_len(op) >= 1,
        pos + op_len(op) <= s.len(),
        3 <= q <= t.len(),
        t[q - 3] == s[pos + op_len(op) - 5],
        t[q - 2] == s[pos + op_len(op) - 4],
        t[q - 1] == s[pos + op_len(op) - 3],
    ensures
        lz.advanced(s, pos, op).word_at(t, q) == (s[pos + op_len(op) - 2], s[pos + op_len(op) - 1]),
        q + 1 < t.len() && t[q] == s[pos + op_len(op) - 2] && t[q + 1] == s[pos + op_len(op) - 1]
            ==> lz.advanced(s, pos, op).word_matched(t, q),
{
    let end = pos + op_len(op);
    assert(spec_hash2(t, q - 1) == spec_hash2(s, end - 3));
    law_advanced(lz, s, pos, op);
}

/// How an operation is coded: a single byte by itself, a predicted word by the
/// last symbol, and a match by the symbol of its offset class and of the code of
/// its length, up to the last length class, with the rest of the offset in as
/// many bits as the class has, and the code of the length. The symbol is ranked
/// in the context at `pos`, where the first byte of the predicted word is the
/// unlikely one.
pub proof fn law_item(lz: LZView, s: Seq<u8>, pos: int, op: LZOp)
    requires
        lz.wf(),
        CONTEXT_SIZE <= pos,
        op_fits(lz, s, pos, op),
    ensures
        ({
            let item = lz.item_at(s, pos, op);
            &&& item.context_of() == spec_hash1(s, pos - 1) + if lz.after_literal {
                256int
            } else {
                0int
            }
            &&& item.unlikely_of() == lz.words[spec_hash2(s, pos - 1)].0
            &&& item is Match <==> op is Match
            &&& op == LZOp::Literal ==> item.symbol_of() == s[pos]
            &&& op == LZOp::Word ==> item.symbol_of() == 388
            &&& op matches LZOp::Match { reduced_offset, match_len } ==> {
                let b = lz.buckets[spec_hash1(s, pos - 1)];
                let ro = reduced_offset as int;
                let roid = roid_of(ro);
                let code = encoded_len(match_len as int, b.len_expected(ro), b.len_min(ro));
                &&& code < 5 ==> item.symbol_of() == 256 + 6 * roid + code
                &&& code >= 5 ==> item.symbol_of() == 256 + 6 * roid + 5
                &&& item->robitlen == roid_bitlen(roid)
                &&& item->robits == ro - roid_base(roid)
                &&& item->encoded_match_len == code
            }
        }),
{
    lemma_hash_range(s, pos);
    lemma_item_wf(lz, s, pos, op);
}

/// Which operation is chosen at `pos`. The longest match is taken, unless it is
/// shorter than half of the longest possible one and a better match starts one
/// or two bytes later: better by two bytes, or by one where the offset takes
/// eight bits or more, and two bytes later by one less where the predicted word
/// stands at `pos`. Where no match is taken, the predicted word is, if it stands
/// there and the better match does not start at its second byte. All else is a
/// single byte.
pub proof fn law_choice(p: ParseView, cfg: LZCfg, s: Seq<u8>, pos: int)
    requires
        CONTEXT_SIZE <= pos < s.len(),
    ensures
        ({
            let h = spec_hash1(s, pos - 1);
            let h1 = spec_hash1(s, pos);
            let h2 = spec_hash1(s, pos + 1);
            let m = found_match(p.matchers[h], p.lz.buckets[h], s, pos, cfg.match_depth as nat);
            let word = pos + 1 < s.len() && p.lz.words[spec_hash2(s, pos - 1)] == (s[pos], s[pos + 1]);
            let cheap = roid_bitlen(roid_of(m.reduced_offset as int)) < 8;
            let len1 = m.match_len + if cheap {
                2int
            } else {
                1int
            };
            let len2 = len1 - if word {
                1int
            } else {
                0int
            };
            let better1 = lazy_match_exists(
                p.matchers[h1],
                p.lz.buckets[h1],
                s,
                pos + 1,
                len1,
                cfg.lazy_match_depth1 as nat,
            );
            let better2 = lazy_match_exists(
                p.matchers[h2],
                p.lz.buckets[h2],
                s,
                pos + 2,
                len2,
                cfg.lazy_match_depth2 as nat,
            );
            let found = m.match_len > 0;
            let short = m.match_len < 120;
            let op = p.op_at(cfg, s, pos);
            &&& op is Match <==> found && !(short && (better1 || better2))
            &&& op is Match ==> op == LZOp::Match {
                reduced_offset: m.reduced_offset,
                match_len: m.match_len,
            }
            &&& op is Word <==> !(op is Match) && word && !(found && short && better1)
            &&& op is Literal <==> !(op is Match) && !(op is Word)
        }),
{
}

/// The encoder learns from an operation as the decoder does, and enters the
/// position in the matcher of its bucket, and in no other one.
pub proof fn law_parse_advanced(p: ParseView, s: Seq<u8>, pos: int, op: LZOp)
    requires
        p.wf(),
        CONTEXT_SIZE <= pos <= s.len(),
    ensures
        ({
            let n = p.advanced(s, pos, op);
            let h = spec_hash1(s, pos - 1);
            &&& n.lz == p.lz.advanced(s, pos, op)
            &&& n.matchers.len() == p.matchers.len()
            &&& n.matchers[h] == p.matchers[h].updated(n.lz.buckets[h], s, pos)
            &&& forall|k: int|
                0 <= k < p.matchers.len() && k != h ==> (#[trigger] n.matchers[k]) == p.matchers[k]
        }),
{
    lemma_hash_range(s, pos);
}

/// The text is divided item by item: nothing is left at its end or without a
/// budget, and else the item of the chosen operation comes first, and then the
/// items behind the bytes that it covers.
pub proof fn law_parse_step(p: ParseView, cfg: LZCfg, s: Seq<u8>, pos: int, budget: nat)
    ensures
        ({
            let q = parse(p, cfg, s, pos, budget);
            let op = p.op_at(cfg, s, pos);
            let rest = parse(
                p.advanced(s, pos, op),
                cfg,
                s,
                pos + op_len(op),
                (budget - 1) as nat,
            );
            &&& budget == 0 || pos >= s.len() ==> q.items.len() == 0 && q.pos == pos && q.state == p
            &&& budget > 0 && pos < s.len() ==> {
                &&& q.items.len() == rest.items.len() + 1
                &&& q.items[0] == p.lz.item_at(s, pos, op)
                &&& q.items.drop_first() == rest.items
                &&& q.pos == rest.pos
                &&& q.state == rest.state
            }
        }),
{
    let op = p.op_at(cfg, s, pos);
    if budget > 0 && pos < s.len() {
        let q = parse(p, cfg, s, pos, budget);
        let rest = parse(p.advanced(s, pos, op), cfg, s, pos + op_len(op), (budget - 1) as nat);
        assert(q.items.drop_first() =~= rest.items);
    }
}

/// Dividing the text in two goes is the same as in one: where a first budget
/// ends, the next one goes on.
pub proof fn law_parse_goes_on(p: ParseView, cfg: LZCfg, s: Seq<u8>, pos: int, a: nat, b: nat)
    ensures
        ({
            let first = parse(p, cfg, s, pos, a);
            let second = parse(first.state, cfg, s, first.pos, b);
            let both = parse(p, cfg, s, pos, a + b);
            &&& both.items == first.items + second.items
            &&& both.pos == second.pos
            &&& both.state == second.state
        }),
    decreases a,
{
    let first = parse(p, cfg, s, pos, a);
    let second = parse(first.state, cfg, s, first.pos, b);
    let both = parse(p, cfg, s, pos, a + b);
    if a == 0 || pos >= s.len() {
        assert(first.items + second.items =~= second.items);
    } else {
        let op = p.op_at(cfg, s, pos);
        law_parse_goes_on(p.advanced(s, pos, op), cfg, s, pos + op_len(op), (a - 1) as nat, b);
        assert((a + b - 1) as nat == (a - 1) as nat + b);
        assert(both.items =~= first.items + second.items);
    }
}

/// The context before the first chunk: empty buckets, words of zeros, and the
/// symbols in ascending order in all ranking coders.
pub proof fn law_initial_context(h: int, r: int, w: int, c: int, v: int)
    requires
        0 <= h < 256,
        0 <= r < LZ_MF_BUCKET_ITEM_SIZE,
        0 <= w < 32768,
        0 <= c < 512,
        0 <= v < 389,
    ensures
        ({
            let ctx = ContextView::initial();
            let e = EncoderView::initial();
            &&& ctx.first_block
            &&& ctx.lz.after_literal
            &&& ctx.lz.buckets.len() == 256
            &&& ctx.lz.buckets[h].match_pos(r) == 0
            &&& ctx.lz.buckets[h].len_expected(r) == 4
            &&& ctx.lz.buckets[h].len_min(r) == 4
            &&& ctx.lz.words.len() == 32768
            &&& ctx.lz.words[w] == (0u8, 0u8)
            &&& ctx.symranks.len() == 512
            &&& ctx.symranks[c].vs[v] == v
            &&& e.ctx == ctx
            &&& e.matchers.len() == 256
            &&& forall|b: BucketView, s: Seq<u8>, pos: int, depth: nat|
                (#[trigger] e.matchers[h].candidates(b, s, pos, depth)).len() == 0
        }),
{
    let e = EncoderView::initial();
    assert forall|b: BucketView, s: Seq<u8>, pos: int, depth: nat|
        (#[trigger] e.matchers[h].candidates(b, s, pos, depth)).len() == 0 by {
        if pos + 4 <= s.len() {
            assert(e.matchers[h].heads[hash4(s, pos)] == NO_NODE);
        }
    }
    crate::matchfinder::lemma_bucket_empty_wf();
    law_slots(BucketView::empty(), r);
}

/// Moving the text changes nothing of the context but the positions of the
/// items, which move with it.
pub proof fn law_context_forward(ctx: ContextView, n: int, h: int, r: int)
    requires
        ctx.wf(),
        0 <= n,
        0 <= h < 256,
        0 <= r < LZ_MF_BUCKET_ITEM_SIZE,
    ensures
        ({
            let f = ctx.forwarded(n);
            let b = ctx.lz.buckets[h];
            &&& f.lz.words == ctx.lz.words
            &&& f.lz.after_literal == ctx.lz.after_literal
            &&& f.symranks == ctx.symranks
            &&& f.first_block == ctx.first_block
            &&& f.lz.buckets.len() == ctx.lz.buckets.len()
            &&& f.lz.buckets[h].match_pos(r) == if b.match_pos(r) >= n {
                b.match_pos(r) - n
            } else {
                0
            }
            &&& f.lz.buckets[h].len_expected(r) == b.len_expected(r)
            &&& f.lz.buckets[h].len_min(r) == b.len_min(r)
        }),
{
    assert(ctx.lz.buckets[h].wf());
    law_bucket_forwarded(ctx.lz.buckets[h], n, r);
}

/// The encoder keeps what it can find when the text moves. In every context,
/// the candidates at a position that stay behind the new start are the
/// candidates at the moved position, in the same order and with the same
/// matches. Where all of them stay, the same match is found.
pub proof fn law_encoder_forward(
    e: EncoderView,
    n: int,
    h: int,
    s: Seq<u8>,
    pos: int,
    depth: nat,
)
    requires
        e.wf(),
        0 <= n <= pos <= s.len(),
        0 <= h < 256,
    ensures
        ({
            let f = e.forwarded(n);
            let b = e.ctx.lz.buckets[h];
            let b1 = f.ctx.lz.buckets[h];
            let old = e.matchers[h].candidates(b, s, pos, depth);
            let new = f.matchers[h].candidates(b1, s.skip(n), pos - n, depth);
            &&& f.ctx == e.ctx.forwarded(n)
            &&& f.matchers.len() == e.matchers.len()
            &&& new.len() <= old.len()
            &&& forall|k: int| 0 <= k < new.len() ==> (#[trigger] new[k]) == old[k]
            &&& forall|k: int|
                0 <= k < old.len() ==> (k < new.len() <==> b.items[#[trigger] old[k]].pos > n)
            &&& forall|k: int|
                0 <= k < new.len() ==> match_len_at(b1, s.skip(n), pos - n, #[trigger] new[k])
                    == match_len_at(b, s, pos, old[k])
            &&& (forall|k: int| 0 <= k < old.len() ==> b.items[#[trigger] old[k]].pos > n) ==> found_match(
                f.matchers[h],
                b1,
                s.skip(n),
                pos - n,
                depth,
            ) == found_match(e.matchers[h], b, s, pos, depth)
        }),
{
    let b = e.ctx.lz.buckets[h];
    let m = e.matchers[h];
    assert(b.wf());
    assert(m.wf());
    law_forward_keeps_candidates(m, b, s, pos, depth, n);
    let old = m.candidates(b, s, pos, depth);
    if forall|k: int| 0 <= k < old.len() ==> b.items[#[trigger] old[k]].pos > n {
        law_forward_keeps_match(m, b, s, pos, depth, n);
    }
}

/// The symbols are ranked one after the other, each in its own context: the
/// first by the ranks that are given, the others by the ranks behind it.
pub proof fn law_ranked_step(symranks: Seq<MTFView>, items: Seq<MatchItem>)
    requires
        items.len() > 0,
        symranks.len() == 512,
        items[0].context_of() < 512,
    ensures
        ({
            let c = items[0].context_of() as int;
            let v = items[0].symbol_of() as int;
            let u = items[0].unlikely_of() as int;
            let after = symranks.update(c, symranks[c].after_encode(v));
            let r = ranked(symranks, items);
            let rest = ranked(after, items.drop_first());
            &&& r.ranks.len() == rest.ranks.len() + 1
            &&& r.ranks[0] == symranks[c].encoded(v, u)
            &&& r.ranks.drop_first() == rest.ranks
            &&& r.symranks == rest.symranks
            &&& ranked(symranks, Seq::empty()).ranks.len() == 0
            &&& ranked(symranks, Seq::empty()).symranks == symranks
        }),
{
    let r = ranked(symranks, items);
    let c = items[0].context_of() as int;
    let v = items[0].symbol_of() as int;
    let rest = ranked(symranks.update(c, symranks[c].after_encode(v)), items.drop_first());
    assert(r.ranks.drop_first() =~= rest.ranks);
}

/// What an item holds.
pub proof fn law_item_fields(symbol: u16, context: u16, unlikely: u8, bitlen: u8, bits: u16, len: u8)
    ensures
        ({
            let a = MatchItem::Symbol {
                symbol,
                symrank_context: context,
                symrank_unlikely: unlikely,
            };
            let b = MatchItem::Match {
                symbol,
                symrank_context: context,
                symrank_unlikely: unlikely,
                robitlen: bitlen,
                robits: bits,
                encoded_match_len: len,
            };
            &&& a.symbol_of() == symbol && b.symbol_of() == symbol
            &&& a.context_of() == context && b.context_of() == context
            &&& a.unlikely_of() == unlikely && b.unlikely_of() == unlikely
            &&& symbols(seq![a, b]) == seq![symbol, symbol]
        }),
{
    assert(symbols(
        seq![
            MatchItem::Symbol { symbol, symrank_context: context, symrank_unlikely: unlikely },
            MatchItem::Match {
                symbol,
                symrank_context: context,
                symrank_unlikely: unlikely,
                robitlen: bitlen,
                robits: bits,
                encoded_match_len: len,
            },
        ],
    ) =~= seq![symbol, symbol]);
}

/// The symbols of items are theirs one by one, and the long length codes are
/// those of the matches whose code is in the last length class, in order.
pub proof fn law_item_lists(items: Seq<MatchItem>, x: MatchItem, k: int)
    ensures
        symbols(items).len() == items.len(),
        0 <= k < items.len() ==> symbols(items)[k] == items[k].symbol_of(),
        long_lens(Seq::empty()).len() == 0,
        x is Match && x->encoded_match_len >= 5 ==> long_lens(items.push(x)) == long_lens(items).push(
            x->encoded_match_len as u16,
        ),
        !(x is Match && x->encoded_match_len >= 5) ==> long_lens(items.push(x)) == long_lens(items),
{
    assert(items.push(x).drop_last() =~= items);
}

/// The bits of the items follow each other. An item has the code of its rank,
/// and a match behind it the extra bits of its offset, and the code of its
/// length where that is in the last length class.
pub proof fn law_item_bits(
    lens1: Seq<u8>,
    lens2: Seq<u8>,
    items: Seq<MatchItem>,
    ranks: Seq<u16>,
)
    requires
        items.len() > 0,
        ranks.len() == items.len(),
    ensures
        ({
            let x = items[0];
            let code = code_bits(lens1, ranks[0] as int);
            let bits = item_bits(lens1, lens2, x, ranks[0]);
            &&& body_bits(lens1, lens2, items, ranks) == bits + body_bits(
                lens1,
                lens2,
                items.drop_first(),
                ranks.drop_first(),
            )
            &&& body_bits(lens1, lens2, Seq::empty(), Seq::empty()).len() == 0
            &&& x is Symbol ==> bits == code
            &&& x is Match && x->encoded_match_len < 5 ==> bits == code + to_bits(
                x->robits as nat,
                x->robitlen as nat,
            )
            &&& x is Match && x->encoded_match_len >= 5 ==> bits == code + to_bits(
                x->robits as nat,
                x->robitlen as nat,
            ) + code_bits(lens2, x->encoded_match_len as int)
        }),
{
    let x = items[0];
    let code = code_bits(lens1, ranks[0] as int);
    if x is Match {
        let a = code + to_bits(x->robits as nat, x->robitlen as nat);
        assert(a + Seq::<bool>::empty() =~= a);
    }
}

/// Symbols are stored in two bytes each, the lower one first.
pub proof fn law_rank_bytes(vs: Seq<u16>, t: Seq<u8>, k: int)
    ensures
        rank_bytes(vs).len() == 2 * vs.len(),
        0 <= k < vs.len() ==> rank_bytes(vs)[2 * k] + 256 * rank_bytes(vs)[2 * k + 1] == vs[k],
        stored_ranks(t).len() == 389,
        0 <= k < 389 ==> stored_ranks(t)[k] == t[2 * k] + 256 * t[2 * k + 1],
{
    if 0 <= k < vs.len() {
        assert((2 * k) / 2 == k);
        assert((2 * k + 1) / 2 == k);
    }
}

/// Code lengths are stored two to a byte, the first one in the upper half.
pub proof fn law_table_bytes(lens: Seq<u8>, t: Seq<u8>, pos: int, n: nat, k: int)
    requires
        forall|i: int| 0 <= i < lens.len() ==> (#[trigger] lens[i]) <= 15,
    ensures
        table_bytes(lens).len() == (lens.len() + 1) / 2,
        0 <= 2 * k < lens.len() ==> table_bytes(lens)[k] / 16 == lens[2 * k],
        0 <= 2 * k && 2 * k + 1 < lens.len() ==> table_bytes(lens)[k] % 16 == lens[2 * k + 1],
        stored_lens(t, pos, n).len() == n,
        0 <= 2 * k < n ==> stored_lens(t, pos, n)[2 * k] == t[pos + k] / 16,
        0 <= 2 * k && 2 * k + 1 < n ==> stored_lens(t, pos, n)[2 * k + 1] == t[pos + k] % 16,
{
    if 0 <= 2 * k < lens.len() {
        assert(lens[2 * k] <= 15);
        if 2 * k + 1 < lens.len() {
            assert(lens[2 * k + 1] <= 15);
        }
    }
    assert((2 * k) / 2 == k);
    assert((2 * k + 1) / 2 == k);
}

/// Bits are written from the most significant one down.
pub proof fn law_bit_order(v: nat, n: nat, i: int)
    requires
        0 <= i < n,
    ensures
        to_bits(v, n).len() == n,
        to_bits(v, n)[i] <==> (v / pow2((n - 1 - i) as nat)) % 2 == 1,
    decreases n,
{
    lemma_to_bits_len(v, n);
    lemma_to_bits_len(v / 2, (n - 1) as nat);
    lemma2_to64();
    if i == n - 1 {
        assert(v / 1 == v);
    } else {
        law_bit_order(v / 2, (n - 1) as nat, i);
        let k = (n - 2 - i) as nat;
        lemma_pow2_unfold((k + 1) as nat);
        lemma_pow2_pos(k);
        vstd::arithmetic::div_mod::lemma_div_denominator(v as int, 2, pow2(k) as int);
    }
}

/// The bits of bytes are those of each byte in turn, from the most significant
/// one down, and after their end there are zeros.
pub proof fn law_bytes_bits(t: Seq<u8>, p: int, n: nat, i: int)
    requires
        0 <= p,
        0 <= i < n,
    ensures
        bits_at(t, p, n).len() == n,
        p + i < 8 * t.len() ==> (bits_at(t, p, n)[i] <==> (t[(p + i) / 8] as nat / pow2(
            (7 - (p + i) % 8) as nat,
        )) % 2 == 1),
        p + i >= 8 * t.len() ==> !bits_at(t, p, n)[i],
{
    if p + i < 8 * t.len() {
        law_bit_order(t[(p + i) / 8] as nat, 8, (p + i) % 8);
    }
}

/// Bits stand for the number whose bits they are.
pub proof fn law_bits_value(t: Seq<u8>, p: int, n: nat)
    ensures
        value_at(t, p, n) < pow2(n),
        to_bits(value_at(t, p, n), n) == bits_at(t, p, n),
{
    lemma_bits_value_bound(bits_at(t, p, n));
    lemma_to_bits_of_value(bits_at(t, p, n));
}

/// Packing fills whole bytes, with zeros behind the last bit.
pub proof fn law_pack(s: Seq<bool>, i: int)
    requires
        0 <= i < 8 * pack(s).len(),
    ensures
        pack(s).len() == (s.len() + 7) / 8,
        i < s.len() ==> bits_at(pack(s), 0, (8 * pack(s).len()) as nat)[i] == s[i],
        i >= s.len() ==> !bits_at(pack(s), 0, (8 * pack(s).len()) as nat)[i],
{
    lemma_bits_of_pack(s, i);
}

/// What is found at `pos` is a repetition of earlier bytes, of at least the
/// length that its item asks for and at most 240 bytes, and it cannot be
/// extended.
pub proof fn law_match_repeats(m: MatcherView, b: BucketView, s: Seq<u8>, pos: int, depth: nat)
    requires
        m.wf(),
        b.wf(),
        0 <= pos <= s.len(),
        found_match(m, b, s, pos, depth).match_len > 0,
    ensures
        ({
            let r = found_match(m, b, s, pos, depth);
            let from = b.match_pos(r.reduced_offset as int);
            let len = r.match_len as int;
            &&& 0 < from < pos
            &&& 4 <= len <= 240
            &&& b.len_min(r.reduced_offset as int) <= len
            &&& r.match_len_min == b.len_min(r.reduced_offset as int)
            &&& r.match_len_expected == b.len_expected(r.reduced_offset as int)
            &&& pos + len <= s.len()
            &&& s.subrange(from, from + len) == s.subrange(pos, pos + len)
            &&& len == 240 || pos + len == s.len() || s[from + len] != s[pos + len]
        }),
{
    let r = found_match(m, b, s, pos, depth);
    let from = b.match_pos(r.reduced_offset as int);
    let len = r.match_len as int;
    law_found_match_is_match(m, b, s, pos, depth);
    let there = s.subrange(from, from + len);
    let here = s.subrange(pos, pos + len);
    assert forall|i: int| 0 <= i < len implies there[i] == here[i] by {
        assert(repeats_at(s, from, pos, i));
    }
    assert(there =~= here);
    if len < 240 && pos + len < s.len() && s[from + len] == s[pos + len] {
        law_found_match_is_longest(m, b, s, pos, depth);
        let nodes = m.candidates(b, s, pos, depth);
        let node = b.node(r.reduced_offset as int);
        let j = choose|j: int| 0 <= j < nodes.len() && nodes[j] == node;
        assert(nodes[j] == node);
        assert forall|i: int| 0 <= i < len + 1 implies #[trigger] repeats_at(s, b.items[node].pos as int, pos, i) by {
            if i < len {
                assert(repeats_at(s, from, pos, i));
            }
        }
        assert(good_run(b, s, pos, nodes[j], len + 1));
    }
}

/// No candidate repeats more bytes than what is found, unless it asks for more
/// than it repeats.
pub proof fn law_no_longer_match(
    m: MatcherView,
    b: BucketView,
    s: Seq<u8>,
    pos: int,
    depth: nat,
    k: int,
    len: int,
)
    requires
        m.wf(),
        b.wf(),
        0 <= pos,
        0 <= k < m.candidates(b, s, pos, depth).len(),
        b.items[m.candidates(b, s, pos, depth)[k]].len_min <= len <= 240,
        pos + len <= s.len(),
        ({
            let from = b.items[m.candidates(b, s, pos, depth)[k]].pos as int;
            s.subrange(from, from + len) == s.subrange(pos, pos + len)
        }),
    ensures
        found_match(m, b, s, pos, depth).match_len >= len,
{
    let nodes = m.candidates(b, s, pos, depth);
    let from = b.items[nodes[k]].pos as int;
    law_candidates(m, b, s, pos, depth);
    assert(b.items[nodes[k]].wf());
    assert forall|i: int| 0 <= i < len implies #[trigger] repeats_at(s, from, pos, i) by {
        assert(s.subrange(from, from + len)[i] == s.subrange(pos, pos + len)[i]);
    }
    law_found_match_is_longest(m, b, s, pos, depth);
    assert(good_run(b, s, pos, nodes[k], len));
}

/// A lazy match is a candidate whose bytes are repeated for the length that is
/// asked for, and any such candidate is one.
pub proof fn law_lazy_match_repeats(
    m: MatcherView,
    b: BucketView,
    s: Seq<u8>,
    pos: int,
    len: int,
    depth: nat,
    j: int,
) -> (k: int)
    requires
        0 <= pos <= s.len(),
        0 <= len,
    ensures
        ({
            let nodes = m.candidates(b, s, pos, depth);
            let found = lazy_match_exists(m, b, s, pos, len, depth);
            let from_k = b.items[nodes[k]].pos as int;
            let from_j = b.items[nodes[j]].pos as int;
            &&& found ==> {
                &&& 0 <= k < nodes.len()
                &&& len <= 240
                &&& pos + len <= s.len()
                &&& s.subrange(from_k, from_k + len) == s.subrange(pos, pos + len)
            }
            &&& 0 <= j < nodes.len() && len <= 240 && pos + len <= s.len() && s.subrange(
                from_j,
                from_j + len,
            ) == s.subrange(pos, pos + len) ==> found
        }),
{
    let nodes = m.candidates(b, s, pos, depth);
    law_candidates(m, b, s, pos, depth);
    law_lazy_match(m, b, s, pos, len, depth);
    if 0 <= j < nodes.len() && len <= 240 && pos + len <= s.len() {
        let from = b.items[nodes[j]].pos as int;
        if s.subrange(from, from + len) == s.subrange(pos, pos + len) {
            assert forall|i: int| 0 <= i < len implies #[trigger] repeats_at(s, from, pos, i) by {
                assert(s.subrange(from, from + len)[i] == s.subrange(pos, pos + len)[i]);
            }
            assert(is_run(b, s, pos, nodes[j], len));
        }
    }
    let k = choose|k: int| 0 <= k < nodes.len() && is_run(b, s, pos, #[trigger] nodes[k], len);
    if lazy_match_exists(m, b, s, pos, len, depth) {
        let from = b.items[nodes[k]].pos as int;
        let there = s.subrange(from, from + len);
        let here = s.subrange(pos, pos + len);
        assert forall|i: int| 0 <= i < len implies there[i] == here[i] by {
            assert(repeats_at(s, from, pos, i));
        }
        assert(there =~= here);
    }
    k
}

/// The bytes at the position that was entered last are found again: wherever
/// they are repeated, a match of at least as many bytes is found.
pub proof fn law_last_entry_found(
    m: MatcherView,
    b: BucketView,
    s: Seq<u8>,
    pos: int,
    q: int,
    len: int,
    depth: nat,
)
    requires
        m.wf(),
        b.wf(),
        0 < pos < q,
        b.match_pos(0) == pos,
        b.len_min(0) <= len <= 240,
        q + len <= s.len(),
        s.subrange(pos, pos + len) == s.subrange(q, q + len),
        depth > 0,
    ensures
        found_match(m.updated(b, s, pos), b, s, q, depth).match_len >= len,
        lazy_match_exists(m.updated(b, s, pos), b, s, q, len, depth),
{
    law_slots(b, 0);
    assert(b.items[b.head].wf());
    assert forall|i: int| 0 <= i < len implies #[trigger] repeats_at(s, pos, q, i) by {
        assert(s.subrange(pos, pos + len)[i] == s[pos + i]);
        assert(s.subrange(q, q + len)[i] == s[q + i]);
    }
    law_repetition_found(m, b, s, pos, q, len, depth);
}

} // verus!
