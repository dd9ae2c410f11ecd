//! Decoding undoes encoding.
use vstd::arithmetic::power2::{lemma2_to64, pow2};
use vstd::prelude::*;

use crate::bits::{
    bit_or_zero, bits_at, bytes_bits, lemma_bits_of_pack, lemma_bytes_bits_concat,
    lemma_to_bits_len, lemma_value_of_to_bits, pack, to_bits, value_at,
};
use crate::codelen::code_lens;
use crate::consts::{
    LZ_CHUNK_SIZE, LZ_LENID_SIZE, LZ_MATCH_MAX_LEN, MTF_NUM_SYMBOLS, SYMRANK_NUM_SYMBOLS,
    WORD_SYMBOL,
};
use crate::facts::{
    all_permutations, codes_cover, law_by_frequency, law_encoded_chunk, law_forward, law_initial,
    lemma_advanced_wf, lemma_by_frequency, lemma_chunk_parts, lemma_hash_range, lemma_item_wf,
    lemma_op_fits, lemma_parse, op_fits,
};
use crate::huffman::{
    code_bits, decoded_symbol, is_code, law_decode_undoes_code, lemma_stored_lens, stored_lens,
    table_bytes, taken_len, CODE_LEN_MAX,
};
use crate::matchfinder::repeats_at;
use crate::model::{
    body_bits, by_frequency, chunk_parse, chunk_symranks, copied, counts_pos, decoded_chunk,
    decoded_len, encoded_chunk, end_fits, fresh_symranks, has_contexts, item_bits, item_count,
    law_len_round_trip, lesser, long_lens, op_len, parse, rank_bytes, ranked, spec_hash1,
    spec_hash2, start_symranks, stored_ranks, symbols, weights, ContextView, DecodeStep, DecodeView,
    Decoded, Encoded, EncoderView, LZCfg, LZOp, LZView, MatchItem, ParseView, CONTEXT_SIZE,
    COUNTS_SIZE, FRONT_SIZE, LEN_TABLE_SIZE, RANKS_SIZE, RANK_TABLE_SIZE,
};
use crate::mtf::{law_decode_undoes_encode, MTFView};
use crate::roid::{roid_base, roid_bitlen, roid_of};

verus! {

/// The two texts are the same up to `pos`.
pub open spec fn same_up_to(a: Seq<u8>, b: Seq<u8>, pos: int) -> bool {
    &&& pos <= a.len()
    &&& pos <= b.len()
    &&& forall|i: int| 0 <= i < pos ==> (#[trigger] a[i]) == b[i]
}

/// Contexts are made of the bytes before a position alone.
proof fn lemma_same_contexts(a: Seq<u8>, b: Seq<u8>, pos: int)
    requires
        same_up_to(a, b, pos),
        3 <= pos,
    ensures
        spec_hash1(a, pos - 1) == spec_hash1(b, pos - 1),
        spec_hash2(a, pos - 1) == spec_hash2(b, pos - 1),
{
    assert(a[pos - 1] == b[pos - 1]);
    assert(a[pos - 2] == b[pos - 2]);
    assert(a[pos - 3] == b[pos - 3]);
}

proof fn lemma_bits_at_split(t: Seq<u8>, p: int, a: Seq<bool>, b: Seq<bool>)
    requires
        bits_at(t, p, (a + b).len()) == a + b,
    ensures
        bits_at(t, p, a.len()) == a,
        bits_at(t, p + a.len(), b.len()) == b,
{
    let all = bits_at(t, p, (a + b).len());
    assert forall|i: int| 0 <= i < a.len() implies bits_at(t, p, a.len())[i] == a[i] by {
        assert(all[i] == (a + b)[i]);
    }
    assert forall|i: int| 0 <= i < b.len() implies bits_at(t, p + a.len(), b.len())[i] == b[i] by {
        assert(all[a.len() + i] == (a + b)[a.len() + i]);
    }
    assert(bits_at(t, p, a.len()) =~= a);
    assert(bits_at(t, p + a.len(), b.len()) =~= b);
}

/// Where the code of a symbol stands, the symbol is decoded.
proof fn lemma_code_read(t: Seq<u8>, p: int, lens: Seq<u8>, symbol: int)
    requires
        is_code(lens),
        lens.len() <= 512,
        0 <= symbol < lens.len(),
        lens[symbol] > 0,
        bits_at(t, p, code_bits(lens, symbol).len()) == code_bits(lens, symbol),
    ensures
        decoded_symbol(lens, value_at(t, p, CODE_LEN_MAX as nat) as int) == symbol,
        code_bits(lens, symbol).len() == lens[symbol],
{
    lemma_to_bits_len(crate::huffman::code(lens, symbol), lens[symbol] as nat);
    let l = lens[symbol] as int;
    assert(lens[symbol] <= CODE_LEN_MAX);
    let rest = bits_at(t, p + l, (CODE_LEN_MAX - l) as nat);
    assert forall|i: int| 0 <= i < CODE_LEN_MAX implies bits_at(t, p, CODE_LEN_MAX as nat)[i] == (code_bits(
        lens,
        symbol,
    ) + rest)[i] by {
        if i < l {
            assert(bits_at(t, p, l as nat)[i] == code_bits(lens, symbol)[i]);
        }
    }
    assert(bits_at(t, p, CODE_LEN_MAX as nat) =~= code_bits(lens, symbol) + rest);
    law_decode_undoes_code(lens, symbol, rest);
}

/// Where the bits of a number stand, the number is read.
proof fn lemma_value_read(t: Seq<u8>, p: int, v: nat, n: nat)
    requires
        v < pow2(n),
        bits_at(t, p, to_bits(v, n).len()) == to_bits(v, n),
    ensures
        value_at(t, p, n) == v,
        to_bits(v, n).len() == n,
{
    lemma_value_of_to_bits(v, n);
}

/// Copying repeats the bytes of the text `s`.
proof fn lemma_copied(text: Seq<u8>, s: Seq<u8>, from: int, to: int, len: int)
    requires
        same_up_to(text, s, to),
        0 <= from < to,
        0 <= len,
        to + len <= s.len(),
        to + len <= text.len(),
        forall|i: int| 0 <= i < len ==> #[trigger] repeats_at(s, from, to, i),
    ensures
        same_up_to(copied(text, from, to, len), s, to + len),
        copied(text, from, to, len).len() == text.len(),
        forall|i: int|
            to + len <= i < text.len() ==> (#[trigger] copied(text, from, to, len)[i]) == text[i],
    decreases len,
{
    if len > 0 {
        let next = text.update(to, text[from]);
        assert(repeats_at(s, from, to, 0));
        assert(text[from] == s[from]);
        assert(same_up_to(next, s, to + 1));
        assert forall|i: int| 0 <= i < len - 1 implies #[trigger] repeats_at(s, from + 1, to + 1, i) by {
            assert(repeats_at(s, from, to, i + 1));
        }
        lemma_copied(next, s, from + 1, to + 1, len - 1);
        assert forall|i: int| to + len <= i < text.len() implies (#[trigger] copied(
            text,
            from,
            to,
            len,
        )[i]) == text[i] by {
            assert(copied(next, from + 1, to + 1, len - 1)[i] == next[i]);
        }
    }
}

/// Advancing depends on the text up to the new position alone.
proof fn lemma_same_advanced(lz: LZView, a: Seq<u8>, b: Seq<u8>, pos: int, op: LZOp)
    requires
        CONTEXT_SIZE <= pos,
        op_len(op) >= 1,
        same_up_to(a, b, pos + op_len(op)),
    ensures
        lz.advanced(a, pos, op) == lz.advanced(b, pos, op),
{
    let end = pos + op_len(op);
    assert(same_up_to(a, b, pos));
    lemma_same_contexts(a, b, pos);
    assert(same_up_to(a, b, end - 2));
    lemma_same_contexts(a, b, end - 2);
    assert(a[end - 1] == b[end - 1]);
    assert(a[end - 2] == b[end - 2]);
}

/// The state of the decoder agrees with that of the encoder at `pos`.
spec fn in_step(d: DecodeView, p: ParseView, s: Seq<u8>, pos: int) -> bool {
    &&& d.lz == p.lz
    &&& d.pos == pos
    &&& same_up_to(d.text, s, pos)
    &&& all_permutations(d.symranks)
    &&& d.used <= 8 * d.loaded
}

/// The decoder's state `e` after an item follows from that before it, `d`.
spec fn step_done(
    d: DecodeView,
    e: DecodeView,
    p: ParseView,
    s: Seq<u8>,
    pos: int,
    op: LZOp,
    bit_count: int,
) -> bool {
    let item = p.lz.item_at(s, pos, op);
    let c = item.context_of() as int;
    &&& e.lz == p.lz.advanced(s, pos, op)
    &&& e.pos == pos + op_len(op)
    &&& same_up_to(e.text, s, pos + op_len(op))
    &&& e.text.len() == d.text.len()
    &&& forall|i: int| e.pos <= i < d.text.len() ==> (#[trigger] e.text[i]) == d.text[i]
    &&& e.symranks == d.symranks.update(c, d.symranks[c].after_encode(item.symbol_of() as int))
    &&& e.used == d.used + bit_count
    &&& e.used <= 8 * e.loaded
}

/// A match is decoded from its extra bits and its length.
proof fn lemma_match_decoded(
    d: DecodeView,
    p: ParseView,
    s: Seq<u8>,
    pos: int,
    op: LZOp,
    lens2: Seq<u8>,
    t: Seq<u8>,
)
    requires
        p.wf(),
        d.lz == p.lz,
        d.pos == pos,
        same_up_to(d.text, s, pos),
        pos + op_len(op) <= d.text.len(),
        CONTEXT_SIZE <= pos,
        op is Match,
        op_fits(p.lz, s, pos, op),
        is_code(lens2),
        lens2.len() == LZ_MATCH_MAX_LEN,
        8 * d.loaded - d.used >= 10,
        ({
            let item = p.lz.item_at(s, pos, op);
            let len = item->encoded_match_len;
            let bits = to_bits(item->robits as nat, item->robitlen as nat) + if len >= LZ_LENID_SIZE - 1 {
                code_bits(lens2, len as int)
            } else {
                Seq::empty()
            };
            &&& bits_at(t, d.used, bits.len()) == bits
            &&& d.used + bits.len() <= 8 * t.len()
            &&& len >= LZ_LENID_SIZE - 1 ==> lens2[len as int] > 0
        }),
    ensures
        ({
            let item = p.lz.item_at(s, pos, op);
            let len = item->encoded_match_len;
            let bits = to_bits(item->robits as nat, item->robitlen as nat) + if len >= LZ_LENID_SIZE - 1 {
                code_bits(lens2, len as int)
            } else {
                Seq::empty()
            };
            let v = item.symbol_of();
            let step = d.match_decoded(
                lens2,
                t,
                (v - 256) / LZ_LENID_SIZE as int,
                (v - 256) % LZ_LENID_SIZE as int,
            );
            let e = step.state;
            &&& step.ok
            &&& 256 <= v < WORD_SYMBOL
            &&& e.lz == p.lz.advanced(s, pos, op)
            &&& e.pos == pos + op_len(op)
            &&& same_up_to(e.text, s, pos + op_len(op))
            &&& e.text.len() == d.text.len()
            &&& forall|i: int| e.pos <= i < d.text.len() ==> (#[trigger] e.text[i]) == d.text[i]
            &&& e.symranks == d.symranks
            &&& e.used == d.used + bits.len()
            &&& e.used <= 8 * e.loaded
        }),
{
    let item = p.lz.item_at(s, pos, op);
    let code = item->encoded_match_len;
    let ro = op->reduced_offset as int;
    let match_len = op->match_len as int;
    lemma_item_wf(p.lz, s, pos, op);
    lemma_hash_range(s, pos);
    lemma_same_contexts(d.text, s, pos);
    let b = p.lz.bucket_at(s, pos);
    assert(b.wf());
    let roid = roid_of(ro);
    let lenid = if code < LZ_LENID_SIZE - 1 {
        code as int
    } else {
        LZ_LENID_SIZE - 1
    };
    let v = item.symbol_of();
    assert(v == 256 + roid * LZ_LENID_SIZE + lenid);
    assert((v - 256) / LZ_LENID_SIZE as int == roid);
    assert((v - 256) % LZ_LENID_SIZE as int == lenid);
    let extra = to_bits(item->robits as nat, item->robitlen as nat);
    let tail = if code >= LZ_LENID_SIZE - 1 {
        code_bits(lens2, code as int)
    } else {
        Seq::empty()
    };
    lemma_bits_at_split(t, d.used, extra, tail);
    lemma_value_read(t, d.used, item->robits as nat, item->robitlen as nat);
    let d1 = DecodeView { used: d.used + roid_bitlen(roid), ..d };
    if code >= LZ_LENID_SIZE - 1 {
        lemma_code_read(t, d1.used, lens2, code as int);
    }
    law_len_round_trip(match_len, b.len_expected(ro), b.len_min(ro));
    lemma_copied(d.text, s, b.match_pos(ro), pos, match_len);
    let text = copied(d.text, b.match_pos(ro), pos, match_len);
    lemma_same_advanced(p.lz, text, s, pos, op);
}

/// An item is decoded from its bits, and the decoder stays in step.
proof fn lemma_item_decoded(
    d: DecodeView,
    p: ParseView,
    s: Seq<u8>,
    pos: int,
    op: LZOp,
    lens1: Seq<u8>,
    lens2: Seq<u8>,
    t: Seq<u8>,
)
    requires
        p.wf(),
        in_step(d, p, s, pos),
        pos + op_len(op) <= d.text.len(),
        CONTEXT_SIZE <= pos,
        op_fits(p.lz, s, pos, op),
        is_code(lens1),
        lens1.len() == SYMRANK_NUM_SYMBOLS,
        is_code(lens2),
        lens2.len() == LZ_MATCH_MAX_LEN,
        ({
            let item = p.lz.item_at(s, pos, op);
            let rank = d.symranks[item.context_of() as int].encoded(
                item.symbol_of() as int,
                item.unlikely_of() as int,
            );
            let bits = item_bits(lens1, lens2, item, rank);
            &&& lens1[rank as int] > 0
            &&& item matches MatchItem::Match { encoded_match_len, .. } ==> (encoded_match_len
                >= LZ_LENID_SIZE - 1 ==> lens2[encoded_match_len as int] > 0)
            &&& bits_at(t, d.used, bits.len()) == bits
            &&& d.used + bits.len() <= 8 * t.len()
        }),
    ensures
        ({
            let item = p.lz.item_at(s, pos, op);
            let rank = d.symranks[item.context_of() as int].encoded(
                item.symbol_of() as int,
                item.unlikely_of() as int,
            );
            let bits = item_bits(lens1, lens2, item, rank);
            let step = d.item_decoded(lens1, lens2, t);
            &&& step.ok
            &&& step_done(d, step.state, p, s, pos, op, bits.len() as int)
        }),
{
    let item = p.lz.item_at(s, pos, op);
    let c = item.context_of() as int;
    let un = item.unlikely_of() as int;
    let v = item.symbol_of() as int;
    lemma_item_wf(p.lz, s, pos, op);
    lemma_hash_range(s, pos);
    lemma_same_contexts(d.text, s, pos);
    assert(d.symranks[c].is_permutation());
    let rank = d.symranks[c].encoded(v, un);
    law_decode_undoes_encode(d.symranks[c], v, un);
    assert(rank < SYMRANK_NUM_SYMBOLS) by {
        assert(d.symranks[c].ixs[v] < MTF_NUM_SYMBOLS);
    }
    let code = code_bits(lens1, rank as int);
    let bits = item_bits(lens1, lens2, item, rank);
    let d1 = d.load();
    let word = p.lz.word_at(s, pos);
    match op {
        LZOp::Match { .. } => {
            let len = item->encoded_match_len;
            let tail = to_bits(item->robits as nat, item->robitlen as nat) + if len >= LZ_LENID_SIZE - 1 {
                code_bits(lens2, len as int)
            } else {
                Seq::empty()
            };
            assert(bits =~= code + tail);
            lemma_bits_at_split(t, d.used, code, tail);
            lemma_code_read(t, d.used, lens1, rank as int);
            let d2 = DecodeView {
                symranks: d.symranks.update(c, d.symranks[c].after_decode(rank, un)),
                used: d1.used + lens1[rank as int],
                ..d1
            };
            assert(lens1[rank as int] <= CODE_LEN_MAX);
            lemma_match_decoded(d2, p, s, pos, op, lens2, t);
        },
        LZOp::Word => {
            lemma_code_read(t, d.used, lens1, rank as int);
            assert(lens1[rank as int] <= CODE_LEN_MAX);
            let text = d.text.update(pos, word.0).update(pos + 1, word.1);
            assert(same_up_to(text, s, pos + 2));
            lemma_same_advanced(p.lz, text, s, pos, op);
        },
        LZOp::Literal => {
            lemma_code_read(t, d.used, lens1, rank as int);
            assert(lens1[rank as int] <= CODE_LEN_MAX);
            let text = d.text.update(pos, s[pos]);
            assert(same_up_to(text, s, pos + 1));
            lemma_same_advanced(p.lz, text, s, pos, op);
        },
    }
}

/// The items of a text are decoded from their bits to the text.
proof fn lemma_items_decoded(
    d: DecodeView,
    p: ParseView,
    cfg: LZCfg,
    s: Seq<u8>,
    pos: int,
    budget: nat,
    lens1: Seq<u8>,
    lens2: Seq<u8>,
    t: Seq<u8>,
)
    requires
        p.wf(),
        in_step(d, p, s, pos),
        has_contexts(s, pos),
        parse(p, cfg, s, pos, budget).pos <= d.text.len(),
        is_code(lens1),
        lens1.len() == SYMRANK_NUM_SYMBOLS,
        is_code(lens2),
        lens2.len() == LZ_MATCH_MAX_LEN,
        ({
            let q = parse(p, cfg, s, pos, budget);
            let r = ranked(d.symranks, q.items);
            let body = body_bits(lens1, lens2, q.items, r.ranks);
            &&& codes_cover(lens1, lens2, q.items, r.ranks)
            &&& bits_at(t, d.used, body.len()) == body
            &&& d.used + body.len() <= 8 * t.len()
        }),
    ensures
        ({
            let q = parse(p, cfg, s, pos, budget);
            let r = ranked(d.symranks, q.items);
            let body = body_bits(lens1, lens2, q.items, r.ranks);
            let step = d.items_decoded(lens1, lens2, t, q.items.len());
            &&& step.ok
            &&& in_step(step.state, q.state, s, q.pos)
            &&& step.state.text.len() == d.text.len()
            &&& forall|i: int|
                q.pos <= i < d.text.len() ==> (#[trigger] step.state.text[i]) == d.text[i]
            &&& step.state.symranks == r.symranks
            &&& step.state.used == d.used + body.len()
        }),
    decreases budget,
{
    let q = parse(p, cfg, s, pos, budget);
    let r = ranked(d.symranks, q.items);
    let body = body_bits(lens1, lens2, q.items, r.ranks);
    if !(budget == 0 || pos >= s.len()) {
        let op = p.op_at(cfg, s, pos);
        let item = p.lz.item_at(s, pos, op);
        let c = item.context_of() as int;
        let v = item.symbol_of() as int;
        let un = item.unlikely_of() as int;
        let p1 = p.advanced(s, pos, op);
        let pos1 = pos + op_len(op);
        let q1 = parse(p1, cfg, s, pos1, (budget - 1) as nat);
        lemma_op_fits(p, cfg, s, pos);
        lemma_item_wf(p.lz, s, pos, op);
        lemma_advanced_wf(p, s, pos, op);
        lemma_parse(p1, cfg, s, pos1, (budget - 1) as nat);
        assert(q.items[0] == item);
        assert(q.items.drop_first() =~= q1.items);
        let symranks1 = d.symranks.update(c, d.symranks[c].after_encode(v));
        let r1 = ranked(symranks1, q1.items);
        assert(r.ranks.drop_first() =~= r1.ranks);
        let rank = d.symranks[c].encoded(v, un);
        assert(r.ranks[0] == rank);
        let bits = item_bits(lens1, lens2, item, rank);
        let body1 = body_bits(lens1, lens2, q1.items, r1.ranks);
        assert(body == bits + body1);
        lemma_bits_at_split(t, d.used, bits, body1);
        assert(d.symranks[c].is_permutation());
        law_decode_undoes_encode(d.symranks[c], v, un);
        lemma_item_decoded(d, p, s, pos, op, lens1, lens2, t);
        let step = d.item_decoded(lens1, lens2, t);
        let e = step.state;
        assert forall|k: int| 0 <= k < r1.ranks.len() implies (#[trigger] r1.ranks[k])
            < SYMRANK_NUM_SYMBOLS && lens1[r1.ranks[k] as int] > 0 by {
            assert(r1.ranks[k] == r.ranks[k + 1]);
        }
        assert forall|k: int| 0 <= k < q1.items.len() implies ((#[trigger] q1.items[k]) matches MatchItem::Match {
            encoded_match_len,
            ..
        } ==> (encoded_match_len >= LZ_LENID_SIZE - 1 ==> lens2[encoded_match_len as int] > 0)) by {
            assert(q1.items[k] == q.items[k + 1]);
        }
        lemma_items_decoded(e, p1, cfg, s, pos1, (budget - 1) as nat, lens1, lens2, t);
        let last = e.items_decoded(lens1, lens2, t, q1.items.len()).state;
        assert(d.items_decoded(lens1, lens2, t, q.items.len()) == e.items_decoded(
            lens1,
            lens2,
            t,
            q1.items.len(),
        ));
        assert forall|i: int| q.pos <= i < d.text.len() implies (#[trigger] last.text[i]) == d.text[i] by {
            assert(last.text[i] == e.text[i]);
        }
    }
}

proof fn lemma_stored_ranks(t: Seq<u8>, vs: Seq<u16>)
    requires
        vs.len() == SYMRANK_NUM_SYMBOLS,
        RANKS_SIZE <= t.len(),
        t.take(RANKS_SIZE as int) == rank_bytes(vs),
    ensures
        stored_ranks(t) == vs,
{
    assert forall|i: int| 0 <= i < SYMRANK_NUM_SYMBOLS implies stored_ranks(t)[i] == vs[i] by {
        assert(t.take(RANKS_SIZE as int)[2 * i] == rank_bytes(vs)[2 * i]);
        assert(t.take(RANKS_SIZE as int)[2 * i + 1] == rank_bytes(vs)[2 * i + 1]);
        assert((2 * i) / 2 == i);
        assert((2 * i + 1) / 2 == i);
    }
    assert(stored_ranks(t) =~= vs);
}

/// Packed bits are found where their bytes stand.
proof fn lemma_bits_in_bytes(a: Seq<u8>, b: Seq<bool>, c: Seq<u8>)
    ensures
        bits_at(a + pack(b) + c, 8 * a.len() as int, b.len()) == b,
{
    let t = a + pack(b) + c;
    lemma_bytes_bits_concat(a + pack(b), c);
    lemma_bytes_bits_concat(a, pack(b));
    assert forall|i: int| 0 <= i < b.len() implies bits_at(t, 8 * a.len() as int, b.len())[i] == b[i] by {
        lemma_bits_of_pack(b, i);
        assert(bit_or_zero(bytes_bits(pack(b)), i) == b[i]);
        assert(i < 8 * pack(b).len());
    }
    assert(bits_at(t, 8 * a.len() as int, b.len()) =~= b);
}

/// The bytes of a chunk.
pub open spec fn chunk_bytes(
    head: Seq<u8>,
    end: nat,
    count: nat,
    lens1: Seq<u8>,
    lens2: Seq<u8>,
    body: Seq<bool>,
) -> Seq<u8> {
    head + pack(to_bits(end, 32) + to_bits(count, 32)) + table_bytes(lens1) + table_bytes(lens2) + pack(body)
}

/// The two counts are read where they were written.
proof fn lemma_counts_read(head: Seq<u8>, end: nat, count: nat, rest: Seq<u8>)
    requires
        end < pow2(32),
        count < pow2(32),
    ensures
        ({
            let t = head + pack(to_bits(end, 32) + to_bits(count, 32)) + rest;
            &&& value_at(t, 8 * head.len() as int, 32) == end
            &&& value_at(t, 8 * head.len() as int + 32, 32) == count
            &&& pack(to_bits(end, 32) + to_bits(count, 32)).len() == COUNTS_SIZE
        }),
{
    let bits1 = to_bits(end, 32);
    let bits2 = to_bits(count, 32);
    lemma_to_bits_len(end, 32);
    lemma_to_bits_len(count, 32);
    let t = head + pack(bits1 + bits2) + rest;
    lemma_bits_in_bytes(head, bits1 + bits2, rest);
    lemma_bits_at_split(t, 8 * head.len() as int, bits1, bits2);
    lemma_value_read(t, 8 * head.len() as int, end, 32);
    lemma_value_read(t, 8 * head.len() as int + 32, count, 32);
}

/// A code table is read where it was written.
proof fn lemma_table_read(front: Seq<u8>, lens: Seq<u8>, rest: Seq<u8>)
    requires
        is_code(lens),
    ensures
        stored_lens(front + table_bytes(lens) + rest, front.len() as int, lens.len()) == lens,
{
    let t = front + table_bytes(lens) + rest;
    assert(t.subrange(front.len() as int, front.len() as int + table_bytes(lens).len()) =~= table_bytes(lens));
    lemma_stored_lens(t, front.len() as int, lens);
}

/// Concatenation can be grouped around any part.
proof fn lemma_grouped(a: Seq<u8>, b: Seq<u8>, c: Seq<u8>, d: Seq<u8>, e: Seq<u8>)
    ensures
        a + b + c + d + e == a + b + (c + d + e),
        a + b + c + d + e == (a + b) + c + (d + e),
        a + b + c + d + e == (a + b + c) + d + e,
        a + b + c + d + e == (a + b + c + d) + e + Seq::<u8>::empty(),
        (a + b + c + d + e).take(a.len() as int) == a,
        (a + b + c + d + e).len() == a.len() + b.len() + c.len() + d.len() + e.len(),
{
    let t = a + b + c + d + e;
    assert(t =~= a + b + (c + d + e));
    assert(t =~= (a + b) + c + (d + e));
    assert(t =~= (a + b + c) + d + e);
    assert(t =~= (a + b + c + d) + e + Seq::<u8>::empty());
    assert(t.take(a.len() as int) =~= a);
}

/// The parts of a chunk `t` stand where they are looked for.
spec fn chunk_holds(
    t: Seq<u8>,
    at: int,
    end: nat,
    count: nat,
    lens1: Seq<u8>,
    lens2: Seq<u8>,
    body: Seq<bool>,
) -> bool {
    &&& value_at(t, 8 * at, 32) == end
    &&& value_at(t, 8 * at + 32, 32) == count
    &&& stored_lens(t, at + COUNTS_SIZE, SYMRANK_NUM_SYMBOLS as nat) == lens1
    &&& stored_lens(t, at + COUNTS_SIZE + RANK_TABLE_SIZE, LZ_MATCH_MAX_LEN as nat) == lens2
    &&& bits_at(t, 8 * (at + FRONT_SIZE), body.len()) == body
    &&& t.len() == at + FRONT_SIZE + (body.len() + 7) / 8
}

/// All parts of a chunk are read where they were written.
proof fn lemma_chunk_read(
    head: Seq<u8>,
    end: nat,
    count: nat,
    lens1: Seq<u8>,
    lens2: Seq<u8>,
    body: Seq<bool>,
)
    requires
        end < pow2(32),
        count < pow2(32),
        is_code(lens1),
        is_code(lens2),
        lens1.len() == SYMRANK_NUM_SYMBOLS,
        lens2.len() == LZ_MATCH_MAX_LEN,
    ensures
        chunk_holds(
            chunk_bytes(head, end, count, lens1, lens2, body),
            head.len() as int,
            end,
            count,
            lens1,
            lens2,
            body,
        ),
        chunk_bytes(head, end, count, lens1, lens2, body).take(head.len() as int) == head,
{
    let t = chunk_bytes(head, end, count, lens1, lens2, body);
    let counts = pack(to_bits(end, 32) + to_bits(count, 32));
    let table1 = table_bytes(lens1);
    let table2 = table_bytes(lens2);
    let tail = pack(body);
    let at = head.len() as int;
    lemma_grouped(head, counts, table1, table2, tail);
    assert(counts.len() == COUNTS_SIZE && value_at(t, 8 * at, 32) == end && value_at(t, 8 * at + 32, 32) == count) by {
        lemma_counts_read(head, end, count, table1 + table2 + tail);
    }
    assert(table1.len() == RANK_TABLE_SIZE);
    assert(table2.len() == LEN_TABLE_SIZE);
    let l1 = stored_lens(t, at + COUNTS_SIZE, SYMRANK_NUM_SYMBOLS as nat);
    assert(l1 == lens1) by {
        lemma_table_read(head + counts, lens1, table2 + tail);
        assert((head + counts).len() == at + COUNTS_SIZE);
    }
    let l2 = stored_lens(t, at + COUNTS_SIZE + RANK_TABLE_SIZE, LZ_MATCH_MAX_LEN as nat);
    assert(l2 == lens2) by {
        lemma_table_read(head + counts + table1, lens2, tail);
        assert((head + counts + table1).len() == at + COUNTS_SIZE + RANK_TABLE_SIZE);
    }
    let bits = bits_at(t, 8 * (at + FRONT_SIZE), body.len());
    assert(bits == body) by {
        let front = head + counts + table1 + table2;
        lemma_bits_in_bytes(front, body, Seq::empty());
        assert(front.len() == at + FRONT_SIZE);
    }
}

/// A chunk whose parts are valid is decoded item by item.
proof fn lemma_decoded_chunk(
    ctx: ContextView,
    t: Seq<u8>,
    text: Seq<u8>,
    pos: int,
    symranks: Seq<MTFView>,
    end: nat,
    count: nat,
    lens1: Seq<u8>,
    lens2: Seq<u8>,
    body: Seq<bool>,
)
    requires
        start_symranks(ctx, t) == Some(symranks),
        chunk_holds(t, counts_pos(ctx), end, count, lens1, lens2, body),
        is_code(lens1),
        is_code(lens2),
    ensures
        ({
            let at3 = counts_pos(ctx) + FRONT_SIZE;
            let d = DecodeView { lz: ctx.lz, symranks, text, pos, loaded: at3, used: 8 * at3 };
            let step = d.items_decoded(lens1, lens2, t, count);
            let back = decoded_chunk(ctx, t, text, pos);
            &&& back.ctx == ContextView {
                lz: step.state.lz,
                symranks: step.state.symranks,
                first_block: false,
            }
            &&& back.text == step.state.text
            &&& back.result == if step.ok {
                Some((lesser(step.state.pos, end as int), lesser(step.state.loaded, t.len() as int)))
            } else {
                None
            }
        }),
{
    reveal(decoded_chunk);
}

/// The parts of an encoded chunk stand where the decoder looks for them.
proof fn lemma_encoded_parts(e: EncoderView, cfg: LZCfg, s: Seq<u8>, pos: int)
    requires
        e.wf(),
        has_contexts(s, pos),
        end_fits(e, cfg, s, pos),
    ensures
        ({
            let t = encoded_chunk(e, cfg, s, pos).bytes;
            let p = chunk_parse(e, cfg, s, pos);
            let symranks = chunk_symranks(e.ctx, p.items);
            let r = ranked(symranks, p.items);
            let lens1 = code_lens(weights(r.ranks, SYMRANK_NUM_SYMBOLS as nat));
            let lens2 = code_lens(weights(long_lens(p.items), LZ_MATCH_MAX_LEN as nat));
            &&& encoded_chunk(e, cfg, s, pos).pos == p.pos
            &&& chunk_holds(
                t,
                counts_pos(e.ctx),
                lesser(p.pos, s.len() as int) as nat,
                p.items.len(),
                lens1,
                lens2,
                body_bits(lens1, lens2, p.items, r.ranks),
            )
            &&& e.ctx.first_block ==> stored_ranks(t) == by_frequency(symbols(p.items))
            &&& start_symranks(e.ctx, t) == Some(symranks)
        }),
{
    let p = chunk_parse(e, cfg, s, pos);
    lemma_parse(ParseView { lz: e.ctx.lz, matchers: e.matchers }, cfg, s, pos, LZ_CHUNK_SIZE as nat);
    lemma_chunk_parts(e, cfg, s, pos);
    let vs = by_frequency(symbols(p.items));
    lemma_by_frequency(symbols(p.items));
    let r = ranked(chunk_symranks(e.ctx, p.items), p.items);
    let lens1 = code_lens(weights(r.ranks, SYMRANK_NUM_SYMBOLS as nat));
    let lens2 = code_lens(weights(long_lens(p.items), LZ_MATCH_MAX_LEN as nat));
    let head = if e.ctx.first_block {
        rank_bytes(vs)
    } else {
        Seq::empty()
    };
    let body = body_bits(lens1, lens2, p.items, r.ranks);
    let end = lesser(p.pos, s.len() as int) as nat;
    let t = encoded_chunk(e, cfg, s, pos).bytes;
    reveal(encoded_chunk);
    assert(t == chunk_bytes(head, end, p.items.len(), lens1, lens2, body));
    lemma2_to64();
    lemma_chunk_read(head, end, p.items.len(), lens1, lens2, body);
    if e.ctx.first_block {
        lemma_stored_ranks(t, vs);
    }
}

/// The counts of an encoded chunk are the end of the chunk, or that of the text
/// where it comes first, and the number of items. They stand behind the list of
/// symbols in the first chunk, and at the start of every other one, which has
/// no such list.
pub proof fn law_chunk_counts(e: EncoderView, cfg: LZCfg, s: Seq<u8>, pos: int)
    requires
        e.wf(),
        has_contexts(s, pos),
        end_fits(e, cfg, s, pos),
    ensures
        ({
            let out = encoded_chunk(e, cfg, s, pos);
            let at = if e.ctx.first_block {
                RANKS_SIZE as int
            } else {
                0
            };
            &&& value_at(out.bytes, 8 * at, 32) == lesser(out.pos, s.len() as int)
            &&& value_at(out.bytes, 8 * at + 32, 32) == chunk_parse(e, cfg, s, pos).items.len()
            &&& item_count(e.ctx, out.bytes) == chunk_parse(e, cfg, s, pos).items.len()
            &&& out.bytes.len() >= at + FRONT_SIZE
            &&& !out.state.ctx.first_block
        }),
{
    lemma_encoded_parts(e, cfg, s, pos);
    law_encoded_chunk(e, cfg, s, pos);
}

/// The first chunk starts with all symbols, each one once, in the order of how
/// often the items of the chunk have them, and equally frequent ones in
/// ascending order.
pub proof fn law_first_chunk_symbols(e: EncoderView, cfg: LZCfg, s: Seq<u8>, pos: int)
    requires
        e.wf(),
        e.ctx.first_block,
        has_contexts(s, pos),
        end_fits(e, cfg, s, pos),
    ensures
        ({
            let bytes = encoded_chunk(e, cfg, s, pos).bytes;
            let vs = Seq::new(
                SYMRANK_NUM_SYMBOLS as nat,
                |k: int| (bytes[2 * k] + 256 * bytes[2 * k + 1]) as u16,
            );
            let used = symbols(chunk_parse(e, cfg, s, pos).items);
            &&& bytes.len() >= 2 * SYMRANK_NUM_SYMBOLS
            &&& vs.no_duplicates()
            &&& forall|i: int| 0 <= i < SYMRANK_NUM_SYMBOLS ==> (#[trigger] vs[i]) < SYMRANK_NUM_SYMBOLS
            &&& forall|v: u16| v < SYMRANK_NUM_SYMBOLS ==> #[trigger] vs.contains(v)
            &&& forall|j: int, k: int|
                #![trigger vs[j], vs[k]]
                0 <= j < k < SYMRANK_NUM_SYMBOLS ==> used.to_multiset().count(vs[j])
                    > used.to_multiset().count(vs[k]) || (used.to_multiset().count(vs[j])
                    == used.to_multiset().count(vs[k]) && vs[j] < vs[k])
        }),
{
    lemma_encoded_parts(e, cfg, s, pos);
    law_by_frequency(symbols(chunk_parse(e, cfg, s, pos).items));
    let bytes = encoded_chunk(e, cfg, s, pos).bytes;
    assert(Seq::new(
        SYMRANK_NUM_SYMBOLS as nat,
        |k: int| (bytes[2 * k] + 256 * bytes[2 * k + 1]) as u16,
    ) =~= stored_ranks(bytes));
}

/// What a chunk holds behind the counts, and what it leaves behind. The ranks of
/// the items are those of coders that start with the stored symbols in the first
/// chunk, and go on from the last chunk in every other one. The first table is
/// that of a code for how often each rank occurs, the second one for the long
/// lengths, and then come the bits of the items, filled up to a whole byte.
pub proof fn law_chunk_layout(e: EncoderView, cfg: LZCfg, s: Seq<u8>, pos: int)
    requires
        e.wf(),
        has_contexts(s, pos),
        end_fits(e, cfg, s, pos),
    ensures
        ({
            let out = encoded_chunk(e, cfg, s, pos);
            let p = parse(
                ParseView { lz: e.ctx.lz, matchers: e.matchers },
                cfg,
                s,
                pos,
                1048576,
            );
            let start = if e.ctx.first_block {
                Seq::new(512, |c: int| MTFView::from_vs(stored_ranks(out.bytes)))
            } else {
                e.ctx.symranks
            };
            let r = ranked(start, p.items);
            let at = if e.ctx.first_block {
                778int
            } else {
                0int
            };
            let lens1 = stored_lens(out.bytes, at + 8, 389);
            let lens2 = stored_lens(out.bytes, at + 203, 240);
            let body = body_bits(lens1, lens2, p.items, r.ranks);
            &&& lens1 == code_lens(weights(r.ranks, 389))
            &&& lens2 == code_lens(weights(long_lens(p.items), 240))
            &&& bits_at(out.bytes, 8 * (at + 323), body.len()) == body
            &&& out.bytes.len() == at + 323 + (body.len() + 7) / 8
            &&& out.pos == p.pos
            &&& out.state.ctx.lz == p.state.lz
            &&& out.state.ctx.symranks == r.symranks
            &&& out.state.matchers == p.state.matchers
        }),
{
    let p = chunk_parse(e, cfg, s, pos);
    let out = encoded_chunk(e, cfg, s, pos);
    let symranks = chunk_symranks(e.ctx, p.items);
    let r = ranked(symranks, p.items);
    let lens1 = code_lens(weights(r.ranks, 389));
    let lens2 = code_lens(weights(long_lens(p.items), 240));
    let body = body_bits(lens1, lens2, p.items, r.ranks);
    assert(chunk_holds(
        out.bytes,
        counts_pos(e.ctx),
        lesser(p.pos, s.len() as int) as nat,
        p.items.len(),
        lens1,
        lens2,
        body,
    )) by {
        lemma_encoded_parts(e, cfg, s, pos);
    }
    assert(out.pos == p.pos && out.state.ctx.lz == p.state.lz && out.state.ctx.symranks == r.symranks
        && out.state.matchers == p.state.matchers) by {
        reveal(encoded_chunk);
    }
    if e.ctx.first_block {
        let start = Seq::new(512, |c: int| MTFView::from_vs(stored_ranks(out.bytes)));
        assert(symranks == start) by {
            lemma_encoded_parts(e, cfg, s, pos);
            assert(symranks =~= start);
        }
    }
}

/// Where nothing is left to encode, the chunk has no items, the position stays,
/// and of the encoder only the ranks of a first chunk change.
pub proof fn law_nothing_to_encode(e: EncoderView, cfg: LZCfg, s: Seq<u8>, pos: int)
    requires
        e.wf(),
        s.len() <= pos,
    ensures
        ({
            let out = encoded_chunk(e, cfg, s, pos);
            &&& out.pos == pos
            &&& out.state.ctx.lz == e.ctx.lz
            &&& out.state.matchers == e.matchers
            &&& !e.ctx.first_block ==> out.state.ctx == e.ctx
            &&& s.len() <= u32::MAX ==> {
                &&& value_at(out.bytes, 8 * counts_pos(e.ctx), 32) == s.len()
                &&& item_count(e.ctx, out.bytes) == 0
            }
        }),
{
    if s.len() <= u32::MAX {
        lemma_encoded_parts(e, cfg, s, pos);
    }
    reveal(encoded_chunk);
}

/// The target `text` can take the chunk `out` of `s` at `pos`: it is the same
/// up to there and reaches to the end of the chunk. Where nothing was left to
/// encode, it may be any.
pub open spec fn takes(text: Seq<u8>, out: Encoded, s: Seq<u8>, pos: int) -> bool {
    pos < s.len() ==> same_up_to(text, s, pos) && out.pos <= text.len()
}

/// The chunk `out` of `s` at `pos` was decoded to `back`: all of its bytes were
/// taken, its text came back, `text` is unchanged behind it, and the decoder has
/// the context of the encoder.
pub open spec fn comes_back(out: Encoded, back: Decoded, s: Seq<u8>, pos: int, text: Seq<u8>) -> bool {
    &&& back.result == Some((lesser(out.pos, s.len() as int), out.bytes.len() as int))
    &&& back.ctx == out.state.ctx
    &&& same_up_to(text, s, pos) ==> same_up_to(back.text, s, out.pos)
    &&& back.text.len() == text.len()
    &&& forall|i: int| out.pos <= i < text.len() ==> (#[trigger] back.text[i]) == text[i]
    &&& s.len() <= pos ==> back.text == text
}

/// Decoding undoes encoding: a decoder that has the context of the encoder and
/// the same text up to `pos`, with room for the text of the chunk, accepts every
/// encoded chunk, takes all of its bytes, gets the text of the chunk back,
/// leaves what is behind it alone, and ends with the context of the encoder
/// again. Where nothing was left to encode, the text may be any.
pub proof fn law_decode_undoes_encode_chunk(
    e: EncoderView,
    cfg: LZCfg,
    s: Seq<u8>,
    pos: int,
    text: Seq<u8>,
)
    requires
        e.wf(),
        e.ctx.ranks_all(),
        has_contexts(s, pos),
        end_fits(e, cfg, s, pos),
        takes(text, encoded_chunk(e, cfg, s, pos), s, pos),
    ensures
        ({
            let out = encoded_chunk(e, cfg, s, pos);
            let back = decoded_chunk(e.ctx, out.bytes, text, pos);
            comes_back(out, back, s, pos, text)
        }),
{
    let p0 = ParseView { lz: e.ctx.lz, matchers: e.matchers };
    let p = chunk_parse(e, cfg, s, pos);
    lemma_parse(p0, cfg, s, pos, LZ_CHUNK_SIZE as nat);
    lemma_chunk_parts(e, cfg, s, pos);
    lemma_encoded_parts(e, cfg, s, pos);
    let symranks = chunk_symranks(e.ctx, p.items);
    let r = ranked(symranks, p.items);
    let lens1 = code_lens(weights(r.ranks, SYMRANK_NUM_SYMBOLS as nat));
    let lens2 = code_lens(weights(long_lens(p.items), LZ_MATCH_MAX_LEN as nat));
    let body = body_bits(lens1, lens2, p.items, r.ranks);
    let t = encoded_chunk(e, cfg, s, pos).bytes;
    let end = lesser(p.pos, s.len() as int) as nat;
    reveal(encoded_chunk);
    lemma_decoded_chunk(e.ctx, t, text, pos, symranks, end, p.items.len(), lens1, lens2, body);
    let at3 = counts_pos(e.ctx) + FRONT_SIZE;
    let d = DecodeView { lz: e.ctx.lz, symranks, text, pos, loaded: at3, used: 8 * at3 };
    let last = d.items_decoded(lens1, lens2, t, p.items.len()).state;
    if pos < s.len() {
        lemma_items_decoded(d, p0, cfg, s, pos, LZ_CHUNK_SIZE as nat, lens1, lens2, t);
        assert(last.used == 8 * at3 + body.len());
    } else {
        assert(last == d);
        assert(body.len() == 0);
    }
    assert(lesser(last.loaded, t.len() as int) == t.len());
}

/// The round trip of a chunk, for an encoder and a decoder that are new.
pub proof fn law_new_coders_chunk_round_trip(cfg: LZCfg, s: Seq<u8>, pos: int, text: Seq<u8>)
    requires
        has_contexts(s, pos),
        end_fits(EncoderView::initial(), cfg, s, pos),
        takes(text, encoded_chunk(EncoderView::initial(), cfg, s, pos), s, pos),
    ensures
        ({
            let out = encoded_chunk(EncoderView::initial(), cfg, s, pos);
            let back = decoded_chunk(ContextView::initial(), out.bytes, text, pos);
            comes_back(out, back, s, pos, text)
        }),
{
    law_initial();
    law_decode_undoes_encode_chunk(EncoderView::initial(), cfg, s, pos, text);
}

/// The round trip of a chunk goes on after both coders followed the text by
/// `forward_len` bytes; `s` and `text` are what is left of it.
pub proof fn law_chunk_round_trip_after_forward(
    e: EncoderView,
    cfg: LZCfg,
    s: Seq<u8>,
    pos: int,
    text: Seq<u8>,
    forward_len: int,
)
    requires
        e.wf(),
        e.ctx.ranks_all(),
        0 <= forward_len,
        has_contexts(s, pos),
        end_fits(e.forwarded(forward_len), cfg, s, pos),
        takes(text, encoded_chunk(e.forwarded(forward_len), cfg, s, pos), s, pos),
    ensures
        ({
            let out = encoded_chunk(e.forwarded(forward_len), cfg, s, pos);
            let back = decoded_chunk(e.ctx.forwarded(forward_len), out.bytes, text, pos);
            comes_back(out, back, s, pos, text)
        }),
{
    law_forward(e, forward_len);
    law_decode_undoes_encode_chunk(e.forwarded(forward_len), cfg, s, pos, text);
}

/// The chunks of the text from `pos` on.
pub open spec fn encoded_text(e: EncoderView, cfg: LZCfg, s: Seq<u8>, pos: int) -> Seq<Seq<u8>>
    decreases s.len() - pos,
{
    let out = encoded_chunk(e, cfg, s, pos);
    if pos < out.pos <= s.len() {
        seq![out.bytes] + encoded_text(out.state, cfg, s, out.pos)
    } else {
        Seq::empty()
    }
}

/// The position behind the last chunk of the text from `pos` on.
pub open spec fn encoded_text_end(e: EncoderView, cfg: LZCfg, s: Seq<u8>, pos: int) -> int
    decreases s.len() - pos,
{
    let out = encoded_chunk(e, cfg, s, pos);
    if pos < out.pos <= s.len() {
        encoded_text_end(out.state, cfg, s, out.pos)
    } else {
        pos
    }
}

/// The chunks of a text reach to its end, and there are no more of them than it
/// takes when each one covers as many bytes as a full chunk has items.
pub proof fn law_chunk_count(e: EncoderView, cfg: LZCfg, s: Seq<u8>, pos: int)
    requires
        e.wf(),
        has_contexts(s, pos),
        pos <= s.len(),
    ensures
        encoded_text_end(e, cfg, s, pos) == s.len(),
        LZ_CHUNK_SIZE * encoded_text(e, cfg, s, pos).len() < s.len() - pos + LZ_CHUNK_SIZE,
    decreases s.len() - pos,
{
    let out = encoded_chunk(e, cfg, s, pos);
    law_encoded_chunk(e, cfg, s, pos);
    if pos < s.len() {
        law_chunk_count(out.state, cfg, s, out.pos);
    }
}

/// What decoding the chunks one after the other gives, where every chunk has
/// to be valid and to be used up.
pub open spec fn decoded_text(
    ctx: ContextView,
    chunks: Seq<Seq<u8>>,
    text: Seq<u8>,
    pos: int,
) -> Option<(Seq<u8>, int)>
    decreases chunks.len(),
{
    if chunks.len() == 0 {
        Some((text, pos))
    } else {
        let back = decoded_chunk(ctx, chunks[0], text, pos);
        match back.result {
            Some((end, size)) => if size == chunks[0].len() {
                decoded_text(back.ctx, chunks.drop_first(), back.text, end)
            } else {
                None
            },
            None => None,
        }
    }
}

/// A whole text survives the round trip: its chunks are decoded to the same
/// text, up to its end, and nothing else of the target is changed.
pub proof fn law_text_round_trip(e: EncoderView, cfg: LZCfg, s: Seq<u8>, pos: int, text: Seq<u8>)
    requires
        e.wf(),
        e.ctx.ranks_all(),
        has_contexts(s, pos),
        s.len() <= u32::MAX,
        same_up_to(text, s, pos),
        s.len() <= text.len(),
    ensures
        decoded_text(e.ctx, encoded_text(e, cfg, s, pos), text, pos) == Some(
            (s + text.skip(s.len() as int), s.len() as int),
        ),
    decreases s.len() - pos,
{
    let out = encoded_chunk(e, cfg, s, pos);
    let chunks = encoded_text(e, cfg, s, pos);
    law_encoded_chunk(e, cfg, s, pos);
    if pos < s.len() {
        law_decode_undoes_encode_chunk(e, cfg, s, pos, text);
        let back = decoded_chunk(e.ctx, out.bytes, text, pos);
        law_text_round_trip(out.state, cfg, s, out.pos, back.text);
        assert(chunks[0] == out.bytes);
        assert(chunks.drop_first() =~= encoded_text(out.state, cfg, s, out.pos));
        assert(back.text.skip(s.len() as int) =~= text.skip(s.len() as int));
    } else {
        assert(text =~= s + text.skip(s.len() as int));
    }
}

/// A new encoder and a new decoder give every text back, whatever the options
/// are: what is behind the first `pos` bytes, which both have, is encoded and
/// decoded to a target that is large enough.
pub proof fn law_new_coders_round_trip(cfg: LZCfg, s: Seq<u8>, pos: int, text: Seq<u8>)
    requires
        has_contexts(s, pos),
        s.len() <= u32::MAX,
        same_up_to(text, s, pos),
        s.len() <= text.len(),
    ensures
        decoded_text(
            ContextView::initial(),
            encoded_text(EncoderView::initial(), cfg, s, pos),
            text,
            pos,
        ) == Some((s + text.skip(s.len() as int), s.len() as int)),
{
    law_initial();
    law_text_round_trip(EncoderView::initial(), cfg, s, pos, text);
}

/// The options decide how a text is encoded, but never what it is decoded to.
pub proof fn law_options_do_not_matter(
    e: EncoderView,
    cfg1: LZCfg,
    cfg2: LZCfg,
    s: Seq<u8>,
    pos: int,
    text: Seq<u8>,
)
    requires
        e.wf(),
        e.ctx.ranks_all(),
        has_contexts(s, pos),
        s.len() <= u32::MAX,
        same_up_to(text, s, pos),
        s.len() <= text.len(),
    ensures
        decoded_text(e.ctx, encoded_text(e, cfg1, s, pos), text, pos) == decoded_text(
            e.ctx,
            encoded_text(e, cfg2, s, pos),
            text,
            pos,
        ),
{
    law_text_round_trip(e, cfg1, s, pos, text);
    law_text_round_trip(e, cfg2, s, pos, text);
}

/// Copying leaves what is before and behind its target alone.
proof fn lemma_copied_keeps(text: Seq<u8>, from: int, to: int, len: int)
    requires
        0 <= to,
        to + len <= text.len(),
    ensures
        copied(text, from, to, len).len() == text.len(),
        forall|i: int| 0 <= i < to ==> (#[trigger] copied(text, from, to, len)[i]) == text[i],
        forall|i: int|
            to <= i && to + len <= i < text.len() ==> (#[trigger] copied(text, from, to, len)[i])
                == text[i],
    decreases len,
{
    if len > 0 {
        let next = text.update(to, text[from]);
        let last = copied(text, from, to, len);
        lemma_copied_keeps(next, from + 1, to + 1, len - 1);
        assert forall|i: int| 0 <= i < to implies (#[trigger] last[i]) == text[i] by {
            assert(copied(next, from + 1, to + 1, len - 1)[i] == next[i]);
        }
        assert forall|i: int| to <= i && to + len <= i < text.len() implies (#[trigger] last[i]) == text[i] by {
            assert(copied(next, from + 1, to + 1, len - 1)[i] == next[i]);
        }
    }
}

/// What was copied repeats what it was copied from, also where the two overlap.
proof fn lemma_copied_repeats(text: Seq<u8>, from: int, to: int, len: int)
    requires
        0 <= from < to,
        to + len <= text.len(),
    ensures
        forall|i: int|
            0 <= i < len ==> #[trigger] repeats_at(copied(text, from, to, len), from, to, i),
    decreases len,
{
    if len > 0 {
        let next = text.update(to, text[from]);
        let last = copied(text, from, to, len);
        lemma_copied_repeats(next, from + 1, to + 1, len - 1);
        lemma_copied_keeps(next, from + 1, to + 1, len - 1);
        assert forall|i: int| 0 <= i < len implies #[trigger] repeats_at(last, from, to, i) by {
            if i == 0 {
                assert(last[from] == next[from]);
                assert(last[to] == next[to]);
            } else {
                assert(repeats_at(last, from + 1, to + 1, i - 1));
            }
        }
    }
}

/// What is read of a match: the base of its offset class and its extra bits give
/// the item, the item gives the position, and the length class, or the code
/// behind the extra bits where it is the last one, the length.
pub proof fn law_match_read(d: DecodeView, lens2: Seq<u8>, t: Seq<u8>, roid: int, lenid: int)
    ensures
        ({
            let b = d.lz.buckets[spec_hash1(d.text, d.pos - 1)];
            let ro = roid_base(roid) + value_at(t, d.used, roid_bitlen(roid));
            let behind = d.used + roid_bitlen(roid);
            let long = decoded_symbol(lens2, value_at(t, behind, 15) as int) as int;
            &&& d.match_offset(t, roid) == ro
            &&& d.match_from(t, roid) == b.match_pos(ro)
            &&& d.after_offset(roid).used == behind
            &&& lenid != 5 ==> d.match_len(lens2, t, roid, lenid) == decoded_len(
                lenid,
                b.len_expected(ro),
                b.len_min(ro),
            )
            &&& lenid == 5 ==> d.match_len(lens2, t, roid, lenid) == decoded_len(
                long,
                b.len_expected(ro),
                b.len_min(ro),
            )
        }),
{
}

/// A chunk is loaded four bytes at a time, when no more than four are in stock,
/// and nothing else changes by that.
pub proof fn law_load(d: DecodeView)
    ensures
        8 * d.loaded - d.used <= 32 ==> d.load() == (DecodeView { loaded: d.loaded + 4, ..d }),
        8 * d.loaded - d.used > 32 ==> d.load() == d,
{
}

/// How an item is decoded whose rank is a symbol. The rank is looked up in the
/// context at the position, where the first byte of the predicted word is the
/// unlikely symbol. A byte is written as it is, and the last symbol stands for
/// the predicted word. All others are matches: of the offset class and the length
/// class that the symbol is made of.
pub proof fn law_item_decoded(d: DecodeView, lens1: Seq<u8>, lens2: Seq<u8>, t: Seq<u8>)
    requires
        d.used < 8 * t.len(),
        decoded_symbol(lens1, value_at(t, d.used, 15) as int) <= 389,
    ensures
        ({
            let c = spec_hash1(d.text, d.pos - 1) + if d.lz.after_literal {
                256int
            } else {
                0int
            };
            let word = d.lz.words[spec_hash2(d.text, d.pos - 1)];
            let rank = decoded_symbol(lens1, value_at(t, d.used, 15) as int);
            let v = d.symranks[c].decoded(rank, word.0 as int);
            let room = d.text.len() - d.pos;
            let step = d.item_decoded(lens1, lens2, t);
            let e = step.state;
            let symranks = d.symranks.update(c, d.symranks[c].after_decode(rank, word.0 as int));
            &&& v < 256 && room >= 1 ==> {
                &&& step.ok
                &&& e.text == d.text.update(d.pos, v as u8)
                &&& e.pos == d.pos + 1
                &&& e.lz == d.lz.advanced(e.text, d.pos, LZOp::Literal)
                &&& e.symranks == symranks
                &&& e.used == d.used + lens1[rank as int]
                &&& e.loaded == d.load().loaded
            }
            &&& v == 388 && room >= 2 ==> {
                &&& step.ok
                &&& e.text == d.text.update(d.pos, word.0).update(d.pos + 1, word.1)
                &&& e.pos == d.pos + 2
                &&& e.lz == d.lz.advanced(e.text, d.pos, LZOp::Word)
                &&& e.symranks == symranks
                &&& e.used == d.used + lens1[rank as int]
                &&& e.loaded == d.load().loaded
            }
            &&& v >= 256 && v != 388 ==> step == (DecodeView {
                symranks,
                used: d.used + lens1[rank as int],
                ..d.load()
            }).match_decoded(lens2, t, (v - 256) / 6, (v - 256) % 6)
        }),
{
}

/// Items are decoded one after the other, up to the first that is refused.
pub proof fn law_items_decoded(d: DecodeView, lens1: Seq<u8>, lens2: Seq<u8>, t: Seq<u8>, n: nat)
    ensures
        d.items_decoded(lens1, lens2, t, 0) == (DecodeStep { state: d, ok: true }),
        n > 0 && d.item_decoded(lens1, lens2, t).ok ==> d.items_decoded(lens1, lens2, t, n)
            == d.item_decoded(lens1, lens2, t).state.items_decoded(lens1, lens2, t, (n - 1) as nat),
        n > 0 && !d.item_decoded(lens1, lens2, t).ok ==> !d.items_decoded(lens1, lens2, t, n).ok,
{
}

/// How a chunk is decoded whose parts are valid: a first chunk gives the symbols
/// that all ranking coders start with, the counts and tables follow, and then as
/// many items as the count says. The result is the lesser one of the position
/// reached and the end position, and what was loaded of the chunk.
pub proof fn law_chunk_decoded(ctx: ContextView, t: Seq<u8>, text: Seq<u8>, pos: int)
    requires
        ctx.first_block ==> t.len() >= 778 && forall|k: int|
            0 <= k < 389 ==> (#[trigger] stored_ranks(t)[k]) < 389,
    ensures
        ({
            let at = if ctx.first_block {
                778int
            } else {
                0int
            };
            let start = if ctx.first_block {
                Seq::new(512, |c: int| MTFView::from_vs(stored_ranks(t)))
            } else {
                ctx.symranks
            };
            let lens1 = stored_lens(t, at + 8, 389);
            let lens2 = stored_lens(t, at + 203, 240);
            let end = value_at(t, 8 * at, 32) as int;
            let n = value_at(t, 8 * at + 32, 32);
            let d = DecodeView {
                lz: ctx.lz,
                symranks: start,
                text,
                pos,
                loaded: at + 323,
                used: 8 * (at + 323),
            };
            let step = d.items_decoded(lens1, lens2, t, n);
            let back = decoded_chunk(ctx, t, text, pos);
            &&& t.len() >= at + 323 && is_code(lens1) && is_code(lens2) ==> {
                &&& back.ctx.lz == step.state.lz
                &&& back.ctx.symranks == step.state.symranks
                &&& !back.ctx.first_block
                &&& back.text == step.state.text
                &&& step.ok <==> back.result is Some
                &&& back.result matches Some((got, size)) ==> {
                    &&& step.state.pos <= end ==> got == step.state.pos
                    &&& step.state.pos > end ==> got == end
                    &&& step.state.loaded <= t.len() ==> size == step.state.loaded
                    &&& step.state.loaded > t.len() ==> size == t.len()
                }
            }
        }),
{
    reveal(decoded_chunk);
    if ctx.first_block {
        assert(fresh_symranks(stored_ranks(t)) =~= Seq::new(
            512,
            |c: int| MTFView::from_vs(stored_ranks(t)),
        ));
        assert(start_symranks(ctx, t) == Some(fresh_symranks(stored_ranks(t))));
    }
}

/// A chunk is refused, and the text left alone, where a first chunk has not all
/// of its list or names what is no symbol there, where the counts and tables are
/// cut off, and where the tables are no codes.
pub proof fn law_chunk_refused(ctx: ContextView, t: Seq<u8>, text: Seq<u8>, pos: int)
    ensures
        ({
            let at = if ctx.first_block {
                778int
            } else {
                0int
            };
            let back = decoded_chunk(ctx, t, text, pos);
            ({
                ||| ctx.first_block && t.len() < 778
                ||| ctx.first_block && exists|k: int|
                    0 <= k < 389 && (#[trigger] stored_ranks(t)[k]) >= 389
                ||| t.len() < at + 323
                ||| !is_code(stored_lens(t, at + 8, 389))
                ||| !is_code(stored_lens(t, at + 203, 240))
            }) ==> back.result is None && back.text == text && back.ctx.lz == ctx.lz
                && !back.ctx.first_block
        }),
{
    reveal(decoded_chunk);
}

/// A match with an earlier position is decoded whatever its length is, as long
/// as the chunk has bits for it and the text has room: its bytes repeat those
/// from that position on, also where the two overlap, and the rest of the text
/// stays.
pub proof fn law_match_decoded(d: DecodeView, lens2: Seq<u8>, t: Seq<u8>, roid: int, lenid: int)
    requires
        d.pos <= d.text.len() <= usize::MAX,
        0 <= lenid,
        lenid == LZ_LENID_SIZE - 1 ==> d.after_offset(roid).used < 8 * t.len(),
        d.match_from(t, roid) < d.pos,
        d.match_len(lens2, t, roid, lenid) <= d.text.len() - d.pos,
    ensures
        ({
            let step = d.match_decoded(lens2, t, roid, lenid);
            let from = d.match_from(t, roid);
            let len = d.match_len(lens2, t, roid, lenid);
            &&& step.ok
            &&& step.state.pos == d.pos + len
            &&& step.state.lz == d.lz.advanced(
                step.state.text,
                d.pos,
                LZOp::Match {
                    reduced_offset: d.match_offset(t, roid) as u16,
                    match_len: len as usize,
                },
            )
            &&& step.state.symranks == d.symranks
            &&& lenid != 5 ==> step.state.used == d.after_offset(roid).used && step.state.loaded == d.loaded
            &&& lenid == 5 ==> step.state.used == d.after_offset(roid).used + taken_len(
                lens2,
                d.after_offset(roid).long_code(lens2, t),
            ) && step.state.loaded == d.after_offset(roid).load().loaded
            &&& step.state.text.len() == d.text.len()
            &&& forall|i: int| 0 <= i < len ==> #[trigger] repeats_at(step.state.text, from, d.pos, i)
            &&& forall|i: int| 0 <= i < d.pos ==> (#[trigger] step.state.text[i]) == d.text[i]
            &&& forall|i: int|
                d.pos + len <= i < d.text.len() ==> (#[trigger] step.state.text[i]) == d.text[i]
        }),
{
    let from = d.match_from(t, roid);
    let len = d.match_len(lens2, t, roid, lenid);
    lemma_copied_keeps(d.text, from, d.pos, len);
    lemma_copied_repeats(d.text, from, d.pos, len);
}

/// Each byte of a decoded match is the byte that stands as far behind the
/// position that it repeats.
pub proof fn law_match_byte(
    d: DecodeView,
    lens2: Seq<u8>,
    t: Seq<u8>,
    roid: int,
    lenid: int,
    i: int,
)
    requires
        d.pos <= d.text.len() <= usize::MAX,
        0 <= lenid,
        lenid == 5 ==> d.after_offset(roid).used < 8 * t.len(),
        d.match_from(t, roid) < d.pos,
        d.match_len(lens2, t, roid, lenid) <= d.text.len() - d.pos,
        0 <= i < d.match_len(lens2, t, roid, lenid),
    ensures
        ({
            let text = d.match_decoded(lens2, t, roid, lenid).state.text;
            text[d.pos + i] == text[d.match_from(t, roid) + i]
        }),
{
    law_match_decoded(d, lens2, t, roid, lenid);
    let text = d.match_decoded(lens2, t, roid, lenid).state.text;
    assert(repeats_at(text, d.match_from(t, roid), d.pos, i));
}

proof fn lemma_items_keep_text(d: DecodeView, lens1: Seq<u8>, lens2: Seq<u8>, t: Seq<u8>, n: nat)
    requires
        0 <= d.pos <= d.text.len(),
    ensures
        d.items_decoded(lens1, lens2, t, n).state.text.len() == d.text.len(),
        same_up_to(d.items_decoded(lens1, lens2, t, n).state.text, d.text, d.pos),
        d.pos <= d.items_decoded(lens1, lens2, t, n).state.pos <= d.text.len(),
    decreases n,
{
    if n > 0 {
        let step = d.item_decoded(lens1, lens2, t);
        lemma_item_keeps_text(d, lens1, lens2, t);
        if step.ok {
            lemma_items_keep_text(step.state, lens1, lens2, t, (n - 1) as nat);
        }
    }
}

proof fn lemma_match_keeps_text(d: DecodeView, lens2: Seq<u8>, t: Seq<u8>, roid: int, lenid: int)
    requires
        0 <= d.pos <= d.text.len(),
        0 <= lenid,
    ensures
        ({
            let e = d.match_decoded(lens2, t, roid, lenid).state;
            &&& e.text.len() == d.text.len()
            &&& same_up_to(e.text, d.text, d.pos)
            &&& d.pos <= e.pos <= d.text.len()
        }),
{
    let step = d.match_decoded(lens2, t, roid, lenid);
    if step.ok {
        lemma_copied_keeps(
            d.text,
            d.match_from(t, roid),
            d.pos,
            d.match_len(lens2, t, roid, lenid),
        );
    }
}

proof fn lemma_item_keeps_text(d: DecodeView, lens1: Seq<u8>, lens2: Seq<u8>, t: Seq<u8>)
    requires
        0 <= d.pos <= d.text.len(),
    ensures
        ({
            let e = d.item_decoded(lens1, lens2, t).state;
            &&& e.text.len() == d.text.len()
            &&& same_up_to(e.text, d.text, d.pos)
            &&& d.pos <= e.pos <= d.text.len()
        }),
{
    let c = d.lz.symrank_context(d.text, d.pos);
    let word = d.lz.word_at(d.text, d.pos);
    let d1 = d.load();
    let symbol = decoded_symbol(lens1, value_at(t, d.used, CODE_LEN_MAX as nat) as int);
    let v = d.symranks[c].decoded(symbol, word.0 as int);
    let d2 = DecodeView {
        symranks: d.symranks.update(c, d.symranks[c].after_decode(symbol, word.0 as int)),
        used: d1.used + lens1[symbol as int],
        ..d1
    };
    if v >= 256 && v != WORD_SYMBOL {
        lemma_match_keeps_text(
            d2,
            lens2,
            t,
            (v - 256) / LZ_LENID_SIZE as int,
            (v - 256) % LZ_LENID_SIZE as int,
        );
    }
}

/// An item is refused only where the chunk has no bits left for it, its rank is
/// no symbol, the text has no room for it, or it is a match with a position
/// that is not an earlier one.
pub proof fn law_item_refused(d: DecodeView, lens1: Seq<u8>, lens2: Seq<u8>, t: Seq<u8>)
    requires
        !d.item_decoded(lens1, lens2, t).ok,
    ensures
        ({
            let c = d.lz.symrank_context(d.text, d.pos);
            let unlikely = d.lz.word_at(d.text, d.pos).0 as int;
            let rank = decoded_symbol(lens1, value_at(t, d.used, CODE_LEN_MAX as nat) as int);
            let v = d.symranks[c].decoded(rank, unlikely);
            let roid = (v - 256) / LZ_LENID_SIZE as int;
            let lenid = (v - 256) % LZ_LENID_SIZE as int;
            let e = DecodeView {
                symranks: d.symranks.update(c, d.symranks[c].after_decode(rank, unlikely)),
                used: d.used + lens1[rank as int],
                ..d.load()
            };
            let room = d.text.len() - d.pos;
            ||| d.used >= 8 * t.len()
            ||| rank > SYMRANK_NUM_SYMBOLS
            ||| v < 256 && room < 1
            ||| v == WORD_SYMBOL && room < 2
            ||| v >= 256 && v != WORD_SYMBOL && {
                ||| lenid == LZ_LENID_SIZE - 1 && e.after_offset(roid).used >= 8 * t.len()
                ||| e.match_from(t, roid) >= d.pos
                ||| e.match_len(lens2, t, roid, lenid) > room
            }
        }),
{
}

/// Whatever the bytes are, decoding does not touch the text before `pos`, and
/// what it reports lies within the text and the bytes.
pub proof fn law_decode_stays_inside(ctx: ContextView, t: Seq<u8>, text: Seq<u8>, pos: int)
    requires
        0 <= pos <= text.len(),
    ensures
        decoded_chunk(ctx, t, text, pos).text.len() == text.len(),
        same_up_to(decoded_chunk(ctx, t, text, pos).text, text, pos),
        decoded_chunk(ctx, t, text, pos).result matches Some((end, size)) ==> 0 <= end <= text.len()
            && size <= t.len(),
{
    reveal(decoded_chunk);
    let at = counts_pos(ctx);
    let at2 = at + COUNTS_SIZE + RANK_TABLE_SIZE;
    let at3 = at2 + LEN_TABLE_SIZE;
    let lens1 = stored_lens(t, at + COUNTS_SIZE, SYMRANK_NUM_SYMBOLS as nat);
    let lens2 = stored_lens(t, at2, LZ_MATCH_MAX_LEN as nat);
    let n = item_count(ctx, t);
    if let Some(symranks) = start_symranks(ctx, t) {
        let d = DecodeView { lz: ctx.lz, symranks, text, pos, loaded: at3, used: 8 * at3 };
        lemma_items_keep_text(d, lens1, lens2, t, n);
    }
}

/// The round trip goes on after the text moved in both coders.
pub proof fn law_text_round_trip_after_forward(
    e: EncoderView,
    cfg: LZCfg,
    s: Seq<u8>,
    pos: int,
    text: Seq<u8>,
    forward_len: int,
)
    requires
        e.wf(),
        e.ctx.ranks_all(),
        0 <= forward_len <= pos,
        has_contexts(s.skip(forward_len), pos - forward_len),
        s.len() - forward_len <= u32::MAX,
        same_up_to(text, s, pos),
        s.len() <= text.len(),
    ensures
        decoded_text(
            e.ctx.forwarded(forward_len),
            encoded_text(e.forwarded(forward_len), cfg, s.skip(forward_len), pos - forward_len),
            text.skip(forward_len),
            pos - forward_len,
        ) == Some((s.skip(forward_len) + text.skip(s.len() as int), s.len() - forward_len)),
{
    law_forward(e, forward_len);
    let s1 = s.skip(forward_len);
    let text1 = text.skip(forward_len);
    assert forall|i: int| 0 <= i < pos - forward_len implies (#[trigger] text1[i]) == s1[i] by {
        assert(text[i + forward_len] == s[i + forward_len]);
    }
    law_text_round_trip(e.forwarded(forward_len), cfg, s1, pos - forward_len, text1);
    assert(text1.skip(s1.len() as int) =~= text.skip(s.len() as int));
}

} // verus!
