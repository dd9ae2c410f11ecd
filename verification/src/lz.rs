//! The Lempel-Ziv encoder and decoder.
use vstd::arithmetic::power2::lemma2_to64;
use vstd::prelude::*;

use crate::bits::{
    bits_at, bytes_bits, lemma_bits_of_pack, lemma_bytes_bits_concat, lemma_pack_after_bytes,
    lemma_to_bits_len, pack, to_bits, value_at, Bits,
};
use crate::consts::{
    LZ_CHUNK_SIZE, LZ_LENID_SIZE, LZ_MATCH_MAX_LEN, LZ_MATCH_MIN_LEN, LZ_MF_BUCKET_ITEM_SIZE,
    LZ_ROID_SIZE, SYMRANK_NUM_SYMBOLS, WORD_SYMBOL,
};
use crate::facts::{
    codes_cover, law_encoded_chunk, law_encoded_size, lemma_advanced_wf, lemma_by_frequency,
    lemma_codes_cover, lemma_hash_range, lemma_item_wf, lemma_long_lens, lemma_lz_advanced_wf,
    lemma_op_fits, lemma_parse, lemma_ranked, op_fits,
};
use crate::huffman::{
    code_bits, decoded_symbol, taken_len, HuffmanDecoder, HuffmanEncoder, CODE_LEN_MAX,
    INVALID_SYMBOL,
};
use crate::matchfinder::{Bucket, BucketMatcher, BucketView, MatcherView};
use crate::model::{
    alphabet, body_bits, by_frequency, chunk_size_max, copied, counts_pos, decoded_chunk,
    encoded_chunk, end_fits, fresh_symranks, has_contexts, item_bits, item_count, lesser, op_len,
    parse, rank_bytes, ranked, spec_hash1, spec_hash2, start_symranks, stored_ranks, symbols,
    ContextView, DecodeStep, DecodeView, Decoded, EncoderView, LZCfg, LZOp, LZView, MatchItem,
    ParseView, BUCKET_COUNT, CONTEXT_SIZE, RANKS_SIZE, SYMRANK_COUNT, WORD_COUNT,
};
use crate::mtf::{MTFCoder, MTFView};
use crate::roid::{lemma_roid_in_range, roid_decode, roid_encode};
use crate::stats::{
    collect_long_lens, collect_symbols, count_symbols, sort_by_frequency, write_ranks,
};

verus! {

/// The short context at `pos`: the lowest seven bits of the byte there, and
/// whether the byte before is alphanumeric.
pub fn hash1(buf: &[u8], pos: usize) -> (h: usize)
    requires
        1 <= pos < buf@.len(),
    ensures
        h == spec_hash1(buf@, pos as int),
        h < BUCKET_COUNT,
        h % 128 == buf@[pos as int] % 128,
        h >= 128 <==> 48 <= buf@[pos - 1] <= 57 || 65 <= buf@[pos - 1] <= 90 || 97 <= buf@[pos - 1]
            <= 122,
{
    let b: u8 = buf[pos - 1];
    let alphanumeric: bool = (0x30 <= b && b <= 0x39) || (0x41 <= b && b <= 0x5a) || (0x61 <= b && b
        <= 0x7a);
    (buf[pos] % 128) as usize + if alphanumeric {
        128
    } else {
        0
    }
}

/// The long context at `pos`: the lowest seven bits of the byte there and the
/// short context before it.
pub fn hash2(buf: &[u8], pos: usize) -> (h: usize)
    requires
        2 <= pos < buf@.len(),
    ensures
        h == spec_hash2(buf@, pos as int),
        h < WORD_COUNT,
        h % 128 == buf@[pos as int] % 128,
        (h / 128) % 128 == buf@[pos - 1] % 128,
        h >= 16384 <==> 48 <= buf@[pos - 2] <= 57 || 65 <= buf@[pos - 2] <= 90 || 97 <= buf@[pos - 2]
            <= 122,
{
    (buf[pos] % 128) as usize + 128 * hash1(buf, pos - 1)
}

/// What the encoder and the decoder keep alike.
struct LZContext {
    buckets: Vec<Bucket>,
    symranks: Vec<MTFCoder>,
    words: Vec<(u8, u8)>,
    first_block: bool,
    after_literal: bool,
}

spec fn bucket_views(v: Seq<Bucket>) -> Seq<BucketView> {
    v.map_values(|b: Bucket| b@)
}

spec fn symrank_views(v: Seq<MTFCoder>) -> Seq<MTFView> {
    v.map_values(|c: MTFCoder| c@)
}

spec fn matcher_views(v: Seq<BucketMatcher>) -> Seq<MatcherView> {
    v.map_values(|m: BucketMatcher| m@)
}

impl View for LZContext {
    type V = ContextView;

    closed spec fn view(&self) -> ContextView {
        ContextView {
            lz: LZView {
                buckets: bucket_views(self.buckets@),
                words: self.words@,
                after_literal: self.after_literal,
            },
            symranks: symrank_views(self.symranks@),
            first_block: self.first_block,
        }
    }
}

impl Default for LZContext {
    fn default() -> (ctx: LZContext)
        ensures
            ctx@ == ContextView::initial(),
            ctx@.wf(),
    {
        let mut vs: Vec<u16> = Vec::new();
        let mut i: usize = 0;
        while i < SYMRANK_NUM_SYMBOLS
            invariant
                i <= SYMRANK_NUM_SYMBOLS,
                vs@.len() == i,
                forall|k: int| 0 <= k < i ==> vs@[k] == k,
            decreases SYMRANK_NUM_SYMBOLS - i,
        {
            vs.push(i as u16);
            i = i + 1;
        }
        assert(vs@ =~= alphabet());
        let coder = MTFCoder::from_vs(&vs);
        let mut symranks: Vec<MTFCoder> = Vec::new();
        let mut j: usize = 0;
        while j < SYMRANK_COUNT
            invariant
                j <= SYMRANK_COUNT,
                symranks@.len() == j,
                forall|k: int| 0 <= k < j ==> symranks@[k] == coder,
            decreases SYMRANK_COUNT - j,
        {
            symranks.push(coder);
            j = j + 1;
        }
        let mut buckets: Vec<Bucket> = Vec::new();
        let mut k: usize = 0;
        while k < BUCKET_COUNT
            invariant
                k <= BUCKET_COUNT,
                buckets@.len() == k,
                forall|m: int| 0 <= m < k ==> (#[trigger] buckets@[m])@ == BucketView::empty(),
            decreases BUCKET_COUNT - k,
        {
            buckets.push(Bucket::default());
            k = k + 1;
        }
        let mut words: Vec<(u8, u8)> = Vec::new();
        let mut w: usize = 0;
        while w < WORD_COUNT
            invariant
                w <= WORD_COUNT,
                words@.len() == w,
                forall|m: int| 0 <= m < w ==> words@[m] == (0u8, 0u8),
            decreases WORD_COUNT - w,
        {
            words.push((0, 0));
            w = w + 1;
        }
        let ctx = LZContext { buckets, symranks, words, first_block: true, after_literal: true };
        proof {
            assert(ctx@.lz.buckets =~= ContextView::initial().lz.buckets);
            assert(ctx@.lz.words =~= ContextView::initial().lz.words);
            assert(ctx@.symranks =~= fresh_symranks(alphabet()));
            crate::matchfinder::lemma_bucket_empty_wf();
        }
        ctx
    }
}

impl LZContext {
    /// Takes note of the bytes at `pos`, which were coded by `op`.
    fn advance(&mut self, buf: &[u8], pos: usize, op: LZOp)
        requires
            old(self)@.wf(),
            CONTEXT_SIZE <= pos,
            pos + op_len(op) <= buf@.len(),
            op matches LZOp::Match { reduced_offset, match_len } ==> reduced_offset
                < LZ_MF_BUCKET_ITEM_SIZE && LZ_MATCH_MIN_LEN <= match_len,
        ensures
            final(self)@ == (ContextView {
                lz: old(self)@.lz.advanced(buf@, pos as int, op),
                ..old(self)@
            }),
            final(self)@.wf(),
    {
        let h: usize = hash1(buf, pos - 1);
        assert(self@.lz.buckets[h as int].wf());
        assert(self@.lz.buckets[h as int] == self.buckets@[h as int]@);
        let ghost before = self.buckets@;
        assert(buf@.len() == buf.len());
        proof {
            lemma_lz_advanced_wf(self@.lz, buf@, pos as int, op);
        }
        match op {
            LZOp::Match { reduced_offset, match_len } => {
                self.buckets[h].update(pos, reduced_offset, match_len);
                self.after_literal = false;
                let end: usize = pos + match_len;
                let w: usize = hash2(buf, end - 3);
                self.words[w] = (buf[end - 2], buf[end - 1]);
            },
            LZOp::Word => {
                self.buckets[h].update(pos, 0, 0);
                self.after_literal = false;
            },
            LZOp::Literal => {
                self.buckets[h].update(pos, 0, 0);
                self.after_literal = true;
                let end: usize = pos + 1;
                let w: usize = hash2(buf, end - 3);
                self.words[w] = (buf[end - 2], buf[end - 1]);
            },
        }
        assert(bucket_views(self.buckets@) =~= bucket_views(before).update(
            h as int,
            self.buckets@[h as int]@,
        ));
        assert(self@.lz =~= old(self)@.lz.advanced(buf@, pos as int, op));
    }

    /// Follows the text when it moves `forward_len` bytes towards its start.
    fn forward(&mut self, forward_len: usize)
        requires
            old(self)@.wf(),
        ensures
            final(self)@ == old(self)@.forwarded(forward_len as int),
            final(self)@.wf(),
    {
        let mut i: usize = 0;
        while i < BUCKET_COUNT
            invariant
                i <= BUCKET_COUNT,
                old(self)@.wf(),
                self.words == old(self).words,
                self.symranks == old(self).symranks,
                self.first_block == old(self).first_block,
                self.after_literal == old(self).after_literal,
                self.buckets@.len() == BUCKET_COUNT,
                old(self).buckets@.len() == BUCKET_COUNT,
                forall|k: int|
                    0 <= k < i ==> (#[trigger] self.buckets@[k])@ == old(self).buckets@[k]@.forwarded(
                        forward_len as int,
                    ) && self.buckets@[k]@.wf(),
                forall|k: int|
                    i <= k < BUCKET_COUNT ==> (#[trigger] self.buckets@[k]) == old(self).buckets@[k],
            decreases BUCKET_COUNT - i,
        {
            assert(old(self)@.lz.buckets[i as int].wf());
            self.buckets[i].forward(forward_len);
            i = i + 1;
        }
        assert(self@.lz.buckets =~= old(self)@.forwarded(forward_len as int).lz.buckets);
        assert forall|k: int| 0 <= k < BUCKET_COUNT implies (#[trigger] self@.lz.buckets[k]).wf() by {
            assert(self@.lz.buckets[k] == self.buckets@[k]@);
        }
    }
}

/// A Lempel-Ziv encoder.
pub struct LZEncoder {
    ctx: LZContext,
    bucket_matchers: Vec<BucketMatcher>,
}

impl View for LZEncoder {
    type V = EncoderView;

    closed spec fn view(&self) -> EncoderView {
        EncoderView { ctx: self.ctx@, matchers: matcher_views(self.bucket_matchers@) }
    }
}

impl Default for LZEncoder {
    fn default() -> (encoder: LZEncoder)
        ensures
            encoder@ == EncoderView::initial(),
            encoder@.wf(),
    {
        let ctx = LZContext::default();
        let mut bucket_matchers: Vec<BucketMatcher> = Vec::new();
        let mut i: usize = 0;
        while i < BUCKET_COUNT
            invariant
                i <= BUCKET_COUNT,
                bucket_matchers@.len() == i,
                forall|k: int| 0 <= k < i ==> (#[trigger] bucket_matchers@[k])@ == MatcherView::empty(),
            decreases BUCKET_COUNT - i,
        {
            bucket_matchers.push(BucketMatcher::default());
            i = i + 1;
        }
        let encoder = LZEncoder { ctx, bucket_matchers };
        assert(encoder@.matchers =~= EncoderView::initial().matchers);
        encoder
    }
}

impl LZEncoder {
    /// Follows the text when it moves `forward_len` bytes towards its start.
    pub fn forward(&mut self, forward_len: usize)
        requires
            old(self)@.wf(),
        ensures
            final(self)@ == old(self)@.forwarded(forward_len as int),
            final(self)@.wf(),
    {
        self.ctx.forward(forward_len);
        let mut i: usize = 0;
        while i < BUCKET_COUNT
            invariant
                i <= BUCKET_COUNT,
                old(self)@.wf(),
                self.ctx@ == old(self)@.ctx.forwarded(forward_len as int),
                self.ctx@.wf(),
                self.bucket_matchers@.len() == BUCKET_COUNT,
                old(self).bucket_matchers@.len() == BUCKET_COUNT,
                forall|k: int|
                    0 <= k < i ==> (#[trigger] self.bucket_matchers@[k])@ == old(
                        self,
                    ).bucket_matchers@[k]@.forwarded(self.ctx@.lz.buckets[k])
                        && self.bucket_matchers@[k]@.wf(),
                forall|k: int|
                    i <= k < BUCKET_COUNT ==> (#[trigger] self.bucket_matchers@[k]) == old(
                        self,
                    ).bucket_matchers@[k],
            decreases BUCKET_COUNT - i,
        {
            assert(old(self)@.matchers[i as int].wf());
            assert(self.ctx@.lz.buckets[i as int].wf());
            assert(self.ctx@.lz.buckets[i as int] == self.ctx.buckets@[i as int]@);
            self.bucket_matchers[i].forward(&self.ctx.buckets[i]);
            i = i + 1;
        }
        assert(self@.matchers =~= old(self)@.forwarded(forward_len as int).matchers);
        assert forall|k: int| 0 <= k < BUCKET_COUNT implies (#[trigger] self@.matchers[k]).wf() by {
            assert(self@.matchers[k] == self.bucket_matchers@[k]@);
        }
    }
}

impl LZContext {
    /// The item that codes `op` at `pos`.
    fn item(&self, buf: &[u8], pos: usize, op: LZOp) -> (item: MatchItem)
        requires
            self@.wf(),
            CONTEXT_SIZE <= pos,
            op_fits(self@.lz, buf@, pos as int, op),
        ensures
            item == self@.lz.item_at(buf@, pos as int, op),
            item.wf(),
    {
        proof {
            lemma_item_wf(self@.lz, buf@, pos as int, op);
            lemma_hash_range(buf@, pos as int);
        }
        let h: usize = hash1(buf, pos - 1);
        let symrank_context: u16 = h as u16 + if self.after_literal {
            256
        } else {
            0
        };
        let symrank_unlikely: u8 = self.words[hash2(buf, pos - 1)].0;
        match op {
            LZOp::Match { reduced_offset, match_len } => {
                let (roid, robitlen, robits) = roid_encode(reduced_offset);
                assert(self@.lz.buckets[h as int] == self.buckets@[h as int]@);
                assert(self@.lz.buckets[h as int].wf());
                let (_, match_len_expected, match_len_min) = self.buckets[h].get_match_pos_and_match_len(
                    reduced_offset,
                );
                let encoded_match_len: u8 = if match_len > match_len_expected {
                    (match_len - match_len_min) as u8
                } else if match_len < match_len_expected {
                    (match_len - match_len_min + 1) as u8
                } else {
                    0
                };
                let lenid: u8 = if encoded_match_len < LZ_LENID_SIZE as u8 - 1 {
                    encoded_match_len
                } else {
                    LZ_LENID_SIZE as u8 - 1
                };
                MatchItem::Match {
                    symbol: 256 + roid as u16 * LZ_LENID_SIZE as u16 + lenid as u16,
                    symrank_context,
                    symrank_unlikely,
                    robitlen,
                    robits,
                    encoded_match_len,
                }
            },
            LZOp::Word => MatchItem::Symbol { symbol: WORD_SYMBOL, symrank_context, symrank_unlikely },
            LZOp::Literal => MatchItem::Symbol {
                symbol: buf[pos] as u16,
                symrank_context,
                symrank_unlikely,
            },
        }
    }
}

impl LZEncoder {
    spec fn parse_view(&self) -> ParseView {
        ParseView { lz: self@.ctx.lz, matchers: self@.matchers }
    }

    /// Tells whether a match of at least `lazy_len` bytes starts behind `pos`.
    fn has_lazy_match(&self, sbuf: &[u8], pos: usize, lazy_len: usize, match_depth: usize) -> (r: bool)
        requires
            self@.wf(),
            1 <= pos < sbuf@.len(),
        ensures
            r == self.parse_view().lazy_match_after(
                sbuf@,
                pos as int,
                lazy_len as int,
                match_depth as nat,
            ),
    {
        let h: usize = hash1(sbuf, pos);
        assert(pos < sbuf.len());
        assert(self@.matchers[h as int] == self.bucket_matchers@[h as int]@);
        assert(self@.matchers[h as int].wf());
        assert(self@.ctx.lz.buckets[h as int] == self.ctx.buckets@[h as int]@);
        assert(self@.ctx.lz.buckets[h as int].wf());
        self.bucket_matchers[h].has_lazy_match(
            &self.ctx.buckets[h],
            sbuf,
            pos + 1,
            lazy_len,
            match_depth,
        )
    }

    /// Decides how the bytes at `spos` are coded.
    fn choose_op(&self, cfg: &LZCfg, sbuf: &[u8], spos: usize) -> (op: LZOp)
        requires
            self@.wf(),
            CONTEXT_SIZE <= spos < sbuf@.len(),
        ensures
            op == self.parse_view().op_at(*cfg, sbuf@, spos as int),
            op_fits(self@.ctx.lz, sbuf@, spos as int, op),
    {
        proof {
            lemma_op_fits(self.parse_view(), *cfg, sbuf@, spos as int);
        }
        let last_word_expected: (u8, u8) = self.ctx.words[hash2(sbuf, spos - 1)];
        let last_word_matched: bool = sbuf.len() - spos > 1 && sbuf[spos] == last_word_expected.0
            && sbuf[spos + 1] == last_word_expected.1;
        assert(last_word_matched == self@.ctx.lz.word_matched(sbuf@, spos as int));
        let h: usize = hash1(sbuf, spos - 1);
        assert(self@.matchers[h as int] == self.bucket_matchers@[h as int]@);
        assert(self@.matchers[h as int].wf());
        assert(self@.ctx.lz.buckets[h as int] == self.ctx.buckets@[h as int]@);
        assert(self@.ctx.lz.buckets[h as int].wf());
        let m = self.bucket_matchers[h].find_match(&self.ctx.buckets[h], sbuf, spos, cfg.match_depth);
        let mut lazy_match_id: u8 = 0;
        if m.match_len > 0 {
            proof {
                crate::matchfinder::law_found_match_is_match(
                    self@.matchers[h as int],
                    self@.ctx.lz.buckets[h as int],
                    sbuf@,
                    spos as int,
                    cfg.match_depth as nat,
                );
            }
            let (_, robitlen, _) = roid_encode(m.reduced_offset);
            if m.match_len < LZ_MATCH_MAX_LEN / 2 {
                let lazy_len1: usize = m.match_len + 1 + if robitlen < 8 {
                    1
                } else {
                    0
                };
                let lazy_len2: usize = lazy_len1 - if last_word_matched {
                    1
                } else {
                    0
                };
                if self.has_lazy_match(sbuf, spos, lazy_len1, cfg.lazy_match_depth1) {
                    lazy_match_id = 1;
                } else if self.has_lazy_match(sbuf, spos + 1, lazy_len2, cfg.lazy_match_depth2) {
                    lazy_match_id = 2;
                }
            }
            if lazy_match_id == 0 {
                return LZOp::Match { reduced_offset: m.reduced_offset, match_len: m.match_len };
            }
        }
        if lazy_match_id != 1 && last_word_matched {
            LZOp::Word
        } else {
            LZOp::Literal
        }
    }

    /// Takes note of the bytes at `spos`, which were coded by `op`.
    fn advance(&mut self, sbuf: &[u8], spos: usize, op: LZOp)
        requires
            old(self)@.wf(),
            CONTEXT_SIZE <= spos,
            op_fits(old(self)@.ctx.lz, sbuf@, spos as int, op),
        ensures
            final(self).parse_view() == old(self).parse_view().advanced(sbuf@, spos as int, op),
            final(self)@.ctx.symranks == old(self)@.ctx.symranks,
            final(self)@.ctx.first_block == old(self)@.ctx.first_block,
            final(self)@.wf(),
    {
        proof {
            lemma_advanced_wf(self.parse_view(), sbuf@, spos as int, op);
        }
        self.ctx.advance(sbuf, spos, op);
        let h: usize = hash1(sbuf, spos - 1);
        let ghost before = self.bucket_matchers@;
        assert(self@.matchers[h as int] == self.bucket_matchers@[h as int]@);
        assert(old(self)@.matchers[h as int].wf());
        assert(self@.ctx.lz.buckets[h as int] == self.ctx.buckets@[h as int]@);
        assert(self@.ctx.lz.buckets[h as int].wf());
        self.bucket_matchers[h].update(&self.ctx.buckets[h], sbuf, spos);
        assert(matcher_views(self.bucket_matchers@) =~= matcher_views(before).update(
            h as int,
            self.bucket_matchers@[h as int]@,
        ));
    }

    /// Divides the text from `spos` on into the items of a chunk.
    fn parse_items(&mut self, cfg: &LZCfg, sbuf: &[u8], spos: usize) -> (r: (Vec<MatchItem>, usize))
        requires
            old(self)@.wf(),
            has_contexts(sbuf@, spos as int),
        ensures
            ({
                let p = parse(
                    old(self).parse_view(),
                    *cfg,
                    sbuf@,
                    spos as int,
                    LZ_CHUNK_SIZE as nat,
                );
                &&& r.0@ == p.items
                &&& r.1 == p.pos
                &&& final(self).parse_view() == p.state
            }),
            final(self)@.ctx.symranks == old(self)@.ctx.symranks,
            final(self)@.ctx.first_block == old(self)@.ctx.first_block,
            final(self)@.wf(),
    {
        let mut items: Vec<MatchItem> = Vec::new();
        let mut pos: usize = spos;
        let ghost all = parse(self.parse_view(), *cfg, sbuf@, spos as int, LZ_CHUNK_SIZE as nat);
        assert(all.items =~= items@ + all.items);
        while pos < sbuf.len() && items.len() < LZ_CHUNK_SIZE
            invariant
                self@.wf(),
                has_contexts(sbuf@, pos as int),
                items@.len() <= LZ_CHUNK_SIZE,
                self@.ctx.symranks == old(self)@.ctx.symranks,
                self@.ctx.first_block == old(self)@.ctx.first_block,
                ({
                    let rest = parse(
                        self.parse_view(),
                        *cfg,
                        sbuf@,
                        pos as int,
                        (LZ_CHUNK_SIZE - items@.len()) as nat,
                    );
                    &&& all.items == items@ + rest.items
                    &&& all.pos == rest.pos
                    &&& all.state == rest.state
                }),
            decreases sbuf@.len() - pos,
        {
            let ghost done = items@;
            let op = self.choose_op(cfg, sbuf, pos);
            let item = self.ctx.item(sbuf, pos, op);
            items.push(item);
            self.advance(sbuf, pos, op);
            let ghost next = parse(
                self.parse_view(),
                *cfg,
                sbuf@,
                pos + op_len(op),
                (LZ_CHUNK_SIZE - items@.len()) as nat,
            );
            assert(done + (seq![item] + next.items) =~= items@ + next.items);
            match op {
                LZOp::Match { match_len, .. } => {
                    pos = pos + match_len;
                },
                LZOp::Word => {
                    pos = pos + 2;
                },
                LZOp::Literal => {
                    pos = pos + 1;
                },
            }
        }
        assert(all.items =~= items@);
        (items, pos)
    }
}

/// Ranks the symbols of the items, each in its context.
fn rank_items(symranks: &mut Vec<MTFCoder>, items: &Vec<MatchItem>) -> (ranks: Vec<u16>)
    requires
        old(symranks)@.len() == SYMRANK_COUNT,
        forall|i: int| 0 <= i < SYMRANK_COUNT ==> (#[trigger] old(symranks)@[i])@.wf(),
        forall|k: int| 0 <= k < items@.len() ==> (#[trigger] items@[k]).wf(),
    ensures
        ranks@ == ranked(symrank_views(old(symranks)@), items@).ranks,
        symrank_views(final(symranks)@) == ranked(symrank_views(old(symranks)@), items@).symranks,
{
    let mut ranks: Vec<u16> = Vec::new();
    let mut k: usize = 0;
    let ghost all = ranked(symrank_views(symranks@), items@);
    proof {
        assert(items@.skip(0) =~= items@);
        assert(all.ranks =~= ranks@ + all.ranks);
    }
    while k < items.len()
        invariant
            k <= items@.len(),
            ranks@.len() == k,
            symranks@.len() == SYMRANK_COUNT,
            forall|i: int| 0 <= i < SYMRANK_COUNT ==> (#[trigger] symranks@[i])@.wf(),
            forall|j: int| 0 <= j < items@.len() ==> (#[trigger] items@[j]).wf(),
            all.ranks == ranks@ + ranked(symrank_views(symranks@), items@.skip(k as int)).ranks,
            all.symranks == ranked(symrank_views(symranks@), items@.skip(k as int)).symranks,
        decreases items@.len() - k,
    {
        assert(items@[k as int].wf());
        let (symbol, context, unlikely): (u16, u16, u8) = match items[k] {
            MatchItem::Match { symbol, symrank_context, symrank_unlikely, .. } => (
                symbol,
                symrank_context,
                symrank_unlikely,
            ),
            MatchItem::Symbol { symbol, symrank_context, symrank_unlikely } => (
                symbol,
                symrank_context,
                symrank_unlikely,
            ),
        };
        let ghost before = symranks@;
        let ghost done = ranks@;
        let ghost rest = items@.skip(k as int);
        assert(symrank_views(before)[context as int] == before[context as int]@);
        let rank: u16 = symranks[context as usize].encode(symbol, unlikely as u16);
        ranks.push(rank);
        proof {
            assert(rest[0] == items@[k as int]);
            assert(rest.drop_first() =~= items@.skip(k + 1));
            assert(symrank_views(symranks@) =~= symrank_views(before).update(
                context as int,
                symranks@[context as int]@,
            ));
            let next = ranked(symrank_views(symranks@), items@.skip(k + 1));
            assert(done + (seq![rank] + next.ranks) =~= ranks@ + next.ranks);
        }
        k = k + 1;
    }
    assert(all.ranks =~= ranks@);
    ranks
}

/// Writes the bits of the items.
fn write_items(
    items: &Vec<MatchItem>,
    ranks: &Vec<u16>,
    encoder1: &HuffmanEncoder,
    encoder2: &HuffmanEncoder,
) -> (out: Vec<u8>)
    requires
        encoder1.wf(),
        encoder1.lens().len() == SYMRANK_NUM_SYMBOLS,
        encoder2.wf(),
        encoder2.lens().len() == LZ_MATCH_MAX_LEN,
        codes_cover(encoder1.lens(), encoder2.lens(), items@, ranks@),
        forall|k: int| 0 <= k < items@.len() ==> (#[trigger] items@[k]).wf(),
    ensures
        out@ == pack(body_bits(encoder1.lens(), encoder2.lens(), items@, ranks@)),
{
    let mut out: Vec<u8> = Vec::new();
    let mut bits = Bits::default();
    let ghost lens1 = encoder1.lens();
    let ghost lens2 = encoder2.lens();
    let ghost all = body_bits(lens1, lens2, items@, ranks@);
    let mut k: usize = 0;
    proof {
        assert(items@.skip(0) =~= items@);
        assert(ranks@.skip(0) =~= ranks@);
        assert(bytes_bits(out@) =~= Seq::<bool>::empty());
        assert(all =~= bytes_bits(out@) + bits.pending() + all);
    }
    while k < items.len()
        invariant
            k <= items@.len(),
            ranks@.len() == items@.len(),
            lens1 == encoder1.lens(),
            lens2 == encoder2.lens(),
            encoder1.wf(),
            lens1.len() == SYMRANK_NUM_SYMBOLS,
            encoder2.wf(),
            lens2.len() == LZ_MATCH_MAX_LEN,
            codes_cover(lens1, lens2, items@, ranks@),
            forall|j: int| 0 <= j < items@.len() ==> (#[trigger] items@[j]).wf(),
            bits.wf(),
            bits.pending().len() < 32,
            all == bytes_bits(out@) + bits.pending() + body_bits(
                lens1,
                lens2,
                items@.skip(k as int),
                ranks@.skip(k as int),
            ),
        decreases items@.len() - k,
    {
        let ghost done = bytes_bits(out@) + bits.pending();
        let ghost rest = body_bits(lens1, lens2, items@.skip(k + 1), ranks@.skip(k + 1));
        let ghost item = items@[k as int];
        let ghost rank = ranks@[k as int];
        proof {
            assert(item.wf());
            assert(rank < SYMRANK_NUM_SYMBOLS && lens1[rank as int] > 0);
            assert(items@.skip(k as int)[0] == item);
            assert(ranks@.skip(k as int)[0] == rank);
            assert(items@.skip(k as int).drop_first() =~= items@.skip(k + 1));
            assert(ranks@.skip(k as int).drop_first() =~= ranks@.skip(k + 1));
            assert(all == done + (item_bits(lens1, lens2, item, rank) + rest));
        }
        encoder1.encode_to_bits(ranks[k], &mut bits);
        match items[k] {
            MatchItem::Symbol { .. } => {
                assert(bytes_bits(out@) + bits.pending() =~= done + item_bits(lens1, lens2, item, rank));
                save_word(&mut bits, &mut out);
            },
            MatchItem::Match { robitlen, robits, encoded_match_len, .. } => {
                bits.put(robitlen, robits as u64);
                let ghost part = code_bits(lens1, rank as int) + to_bits(robits as nat, robitlen as nat);
                assert(bytes_bits(out@) + bits.pending() =~= done + part);
                save_word(&mut bits, &mut out);
                if encoded_match_len as usize >= LZ_LENID_SIZE - 1 {
                    let ghost written = bytes_bits(out@) + bits.pending();
                    encoder2.encode_to_bits(encoded_match_len as u16, &mut bits);
                    assert(bytes_bits(out@) + bits.pending() =~= written + code_bits(
                        lens2,
                        encoded_match_len as int,
                    ));
                    save_word(&mut bits, &mut out);
                }
                assert(bytes_bits(out@) + bits.pending() =~= done + item_bits(lens1, lens2, item, rank));
            },
        }
        assert(all =~= bytes_bits(out@) + bits.pending() + rest);
        k = k + 1;
    }
    assert(all =~= bytes_bits(out@) + bits.pending());
    let ghost p = bits.pending();
    let ghost before = out@;
    bits.save_all(&mut out);
    proof {
        lemma_pack_after_bytes(before, p);
    }
    out
}

/// Moves a full word from `bits` to `out`; the bits written so far stay the
/// same.
fn save_word(bits: &mut Bits, out: &mut Vec<u8>)
    requires
        old(bits).wf(),
        old(bits).pending().len() < 64,
    ensures
        final(bits).wf(),
        final(bits).pending().len() < 32,
        bytes_bits(final(out)@) + final(bits).pending() == bytes_bits(old(out)@) + old(bits).pending(),
{
    let ghost p = bits.pending();
    let ghost before = out@;
    bits.save_u32(out);
    proof {
        if p.len() >= 32 {
            let word = p.take(32);
            lemma_bytes_bits_concat(before, pack(word));
            assert(pack(word).len() == 4);
            assert forall|i: int| 0 <= i < 32 implies bytes_bits(pack(word))[i] == word[i] by {
                lemma_bits_of_pack(word, i);
            }
            assert(bytes_bits(pack(word)) =~= word);
            assert(bytes_bits(out@) + bits.pending() =~= bytes_bits(before) + p);
        }
    }
}

impl LZContext {
    /// Makes all ranking coders rank the symbols in the order of `vs`.
    fn init_symranks(&mut self, vs: &Vec<u16>)
        requires
            old(self)@.wf(),
            vs@.len() == SYMRANK_NUM_SYMBOLS,
            forall|i: int| 0 <= i < SYMRANK_NUM_SYMBOLS ==> (#[trigger] vs@[i]) < SYMRANK_NUM_SYMBOLS,
        ensures
            final(self)@ == (ContextView {
                lz: old(self)@.lz,
                symranks: fresh_symranks(vs@),
                first_block: false,
            }),
            final(self)@.wf(),
    {
        let coder = MTFCoder::from_vs(vs);
        let mut j: usize = 0;
        while j < SYMRANK_COUNT
            invariant
                j <= SYMRANK_COUNT,
                self@.lz == old(self)@.lz,
                self.symranks@.len() == SYMRANK_COUNT,
                forall|k: int| 0 <= k < j ==> self.symranks@[k] == coder,
            decreases SYMRANK_COUNT - j,
        {
            self.symranks[j] = coder;
            j = j + 1;
        }
        self.first_block = false;
        assert(self@.symranks =~= fresh_symranks(vs@));
    }
}

/// The room in the target suffices for the chunk: it holds the chunk, or what
/// any chunk can take.
pub open spec fn has_room(room: int, e: EncoderView, cfg: LZCfg, s: Seq<u8>, pos: int) -> bool {
    room >= chunk_size_max(s.len() - pos) || room >= encoded_chunk(e, cfg, s, pos).bytes.len()
}

/// Puts `bytes` at the start of `target`.
fn copy_to_start(bytes: &Vec<u8>, target: &mut [u8])
    requires
        bytes@.len() <= old(target)@.len(),
    ensures
        final(target)@ == bytes@ + old(target)@.skip(bytes@.len() as int),
{
    let mut i: usize = 0;
    while i < bytes.len()
        invariant
            i <= bytes@.len() <= target@.len(),
            target@.len() == old(target)@.len(),
            forall|k: int| 0 <= k < i ==> target@[k] == bytes@[k],
            forall|k: int| i <= k < target@.len() ==> target@[k] == old(target)@[k],
        decreases bytes@.len() - i,
    {
        target[i] = bytes[i];
        i = i + 1;
    }
    assert(target@ =~= bytes@ + old(target)@.skip(bytes@.len() as int));
}

impl LZEncoder {
    /// Encodes the next chunk of `sbuf`, which starts at `spos`, to the start
    /// of `tbuf`. Returns the position behind the chunk in `sbuf` and its size
    /// in `tbuf`. Where there is something to encode, the contexts at `spos`
    /// are made of the four bytes in front of it, which have to be there. The
    /// chunk has to end below `2^32`, and `tbuf` to have room for it.
    pub fn encode(&mut self, cfg: &LZCfg, sbuf: &[u8], tbuf: &mut [u8], spos: usize) -> (r: (usize, usize))
        requires
            old(self)@.wf(),
            has_contexts(sbuf@, spos as int),
            end_fits(old(self)@, *cfg, sbuf@, spos as int),
            has_room(old(tbuf)@.len() as int, old(self)@, *cfg, sbuf@, spos as int),
        ensures
            final(self)@ == encoded_chunk(old(self)@, *cfg, sbuf@, spos as int).state,
            final(self)@.wf(),
            r.0 == encoded_chunk(old(self)@, *cfg, sbuf@, spos as int).pos,
            r.1 == encoded_chunk(old(self)@, *cfg, sbuf@, spos as int).bytes.len(),
            final(tbuf)@ == encoded_chunk(old(self)@, *cfg, sbuf@, spos as int).bytes + old(
                tbuf,
            )@.skip(r.1 as int),
            r.1 <= final(tbuf)@.len() == old(tbuf)@.len(),
            !final(self)@.ctx.first_block,
    {
        proof {
            law_encoded_chunk(self@, *cfg, sbuf@, spos as int);
            law_encoded_size(self@, *cfg, sbuf@, spos as int);
            lemma_parse(self.parse_view(), *cfg, sbuf@, spos as int, LZ_CHUNK_SIZE as nat);
        }
        let ghost chunk = encoded_chunk(self@, *cfg, sbuf@, spos as int);
        reveal(encoded_chunk);
        let ghost first = self@.ctx.first_block;
        let mut out: Vec<u8> = Vec::new();

        // Lempel-Ziv encoding
        let (items, end) = self.parse_items(cfg, sbuf, spos);

        // initial ranks
        let ghost vs_all = by_frequency(symbols(items@));
        let ghost head = if first {
            rank_bytes(vs_all)
        } else {
            Seq::empty()
        };
        if self.ctx.first_block {
            let symbols = collect_symbols(&items);
            proof {
                assert forall|k: int| 0 <= k < symbols@.len() implies (#[trigger] symbols@[k])
                    < SYMRANK_NUM_SYMBOLS by {
                    assert(items@[k].wf());
                }
                lemma_by_frequency(symbols@);
            }
            let vs = sort_by_frequency(&symbols);
            write_ranks(&vs, &mut out);
            self.ctx.init_symranks(&vs);
        }
        assert(out@ =~= head);

        // end position and number of items
        let mut bits = Bits::default();
        let text_end: usize = if end <= sbuf.len() {
            end
        } else {
            sbuf.len()
        };
        proof {
            lemma2_to64();
            lemma_to_bits_len(text_end as nat, 32);
            lemma_to_bits_len(items@.len(), 32);
        }
        bits.put(32, text_end as u64);
        bits.put(32, items.len() as u64);
        let ghost counts = to_bits(text_end as nat, 32) + to_bits(items@.len(), 32);
        assert(bits.pending() =~= counts);
        bits.save_all(&mut out);

        // code tables and items
        let ghost symranks = self@.ctx.symranks;
        proof {
            lemma_ranked(symranks, items@);
            assert forall|i: int| 0 <= i < SYMRANK_COUNT implies (#[trigger] self.ctx.symranks@[i])@.wf() by {
                assert(self@.ctx.symranks[i].wf());
            }
        }
        let ranks = rank_items(&mut self.ctx.symranks, &items);
        proof {
            lemma_codes_cover(items@, ranks@);
            lemma_long_lens(items@);
        }
        let long = collect_long_lens(&items);
        let weights1 = count_symbols(&ranks, SYMRANK_NUM_SYMBOLS);
        let weights2 = count_symbols(&long, LZ_MATCH_MAX_LEN);
        let encoder1 = HuffmanEncoder::new(&weights1, &mut out);
        let encoder2 = HuffmanEncoder::new(&weights2, &mut out);
        let mut body = write_items(&items, &ranks, &encoder1, &encoder2);
        out.append(&mut body);
        assert(out@ == chunk.bytes);
        copy_to_start(&out, tbuf);
        (end, out.len())
    }
}

/// Why a chunk cannot be decoded.
#[derive(Clone, Copy, Debug, PartialEq, Eq, Structural)]
pub enum DecodeError {
    /// The chunk is cut short, its lists or tables are none, a rank is no symbol,
    /// a match is with a later position, or the text has no room.
    InvalidData,
}

/// A Lempel-Ziv decoder.
pub struct LZDecoder {
    ctx: LZContext,
}

impl View for LZDecoder {
    type V = ContextView;

    closed spec fn view(&self) -> ContextView {
        self.ctx@
    }
}

impl Default for LZDecoder {
    fn default() -> (decoder: LZDecoder)
        ensures
            decoder@ == ContextView::initial(),
            decoder@.wf(),
    {
        LZDecoder { ctx: LZContext::default() }
    }
}

/// Copies `len` bytes one by one from `from` to `to`.
fn copy_within(text: &mut [u8], from: usize, to: usize, len: usize)
    requires
        from < to,
        to + len <= old(text)@.len(),
    ensures
        final(text)@ == copied(old(text)@, from as int, to as int, len as int),
        final(text)@.len() == old(text)@.len(),
{
    let mut i: usize = 0;
    assert(text@.len() == text.len());
    while i < len
        invariant
            i <= len,
            from < to,
            to + len <= text@.len() <= usize::MAX,
            text@.len() == old(text)@.len(),
            copied(old(text)@, from as int, to as int, len as int) == copied(
                text@,
                from + i,
                to + i,
                len - i,
            ),
        decreases len - i,
    {
        let byte: u8 = text[from + i];
        text[to + i] = byte;
        i = i + 1;
    }
}

/// No bit of the chunk is left unused when `bits` was loaded up to `tpos`.
fn used_up(bits: &Bits, tbuf: &[u8], tpos: usize) -> (r: bool)
    requires
        bits.reads(tbuf@, tpos as int),
        tpos <= tbuf@.len() + 8,
    ensures
        r == (8 * tpos - bits.pending().len() >= 8 * tbuf@.len()),
{
    let len: u8 = bits.bit_len();
    tpos >= tbuf.len() && 8 * (tpos - tbuf.len()) >= len as usize
}

/// The next bits in the register are the next ones of the chunk.
proof fn lemma_reads_take(bits: Bits, t: Seq<u8>, pos: int, n: nat)
    requires
        bits.reads(t, pos),
        n <= bits.pending().len(),
    ensures
        bits.pending().take(n as int) == bits_at(t, 8 * pos - bits.pending().len(), n),
{
    let p = bits.pending();
    let used = 8 * pos - p.len();
    assert forall|i: int| 0 <= i < n implies p.take(n as int)[i] == bits_at(t, used, n)[i] by {
        assert(p[i] == bits_at(t, used, p.len())[i]);
    }
    assert(p.take(n as int) =~= bits_at(t, used, n));
}

/// What is left in the register after `n` bits are still those of the chunk.
proof fn lemma_reads_skip(before: Bits, after: Bits, t: Seq<u8>, pos: int, n: nat)
    requires
        before.reads(t, pos),
        n <= before.pending().len(),
        after.wf(),
        after.pending() == before.pending().skip(n as int),
    ensures
        after.reads(t, pos),
        after.pending().len() == before.pending().len() - n,
{
    let p = before.pending();
    let used = 8 * pos - p.len();
    assert forall|i: int| 0 <= i < p.len() - n implies after.pending()[i] == bits_at(
        t,
        used + n,
        (p.len() - n) as nat,
    )[i] by {
        assert(p[i + n] == bits_at(t, used, p.len())[i + n]);
    }
    assert(after.pending() =~= bits_at(t, used + n, (p.len() - n) as nat));
}

/// Reads the symbol whose code is next in the chunk.
fn read_symbol(
    decoder: &HuffmanDecoder,
    bits: &mut Bits,
    Ghost(t): Ghost<Seq<u8>>,
    Ghost(tpos): Ghost<int>,
) -> (symbol: u16)
    requires
        decoder.wf(),
        old(bits).reads(t, tpos),
        old(bits).pending().len() >= CODE_LEN_MAX,
    ensures
        symbol == decoded_symbol(
            decoder.lens(),
            value_at(t, 8 * tpos - old(bits).pending().len(), CODE_LEN_MAX as nat) as int,
        ),
        final(bits).reads(t, tpos),
        final(bits).pending().len() == old(bits).pending().len() - taken_len(decoder.lens(), symbol),
        symbol != INVALID_SYMBOL ==> {
            &&& symbol < decoder.lens().len()
            &&& 0 < decoder.lens()[symbol as int] <= CODE_LEN_MAX
        },
{
    proof {
        lemma_reads_take(*bits, t, tpos, CODE_LEN_MAX as nat);
    }
    let symbol: u16 = decoder.decode_from_bits(bits);
    proof {
        lemma_reads_skip(*old(bits), *bits, t, tpos, taken_len(decoder.lens(), symbol));
    }
    symbol
}

/// The decoder's state between items.
spec fn decode_view(ctx: ContextView, text: Seq<u8>, pos: int, tpos: int, bits: Bits) -> DecodeView {
    DecodeView {
        lz: ctx.lz,
        symranks: ctx.symranks,
        text,
        pos,
        loaded: tpos,
        used: 8 * tpos - bits.pending().len(),
    }
}

impl LZContext {
    /// Decodes a match of the offset class `roid` and the length class `lenid`.
    fn decode_match(
        &mut self,
        decoder2: &HuffmanDecoder,
        bits: &mut Bits,
        tbuf: &[u8],
        tpos: &mut usize,
        sbuf: &mut [u8],
        spos: &mut usize,
        roid: u8,
        lenid: u8,
    ) -> (ok: bool)
        requires
            old(self)@.wf(),
            decoder2.wf(),
            decoder2.lens().len() == LZ_MATCH_MAX_LEN,
            old(bits).reads(tbuf@, *old(tpos) as int),
            10 <= old(bits).pending().len(),
            *old(tpos) <= tbuf@.len() + 8,
            tbuf@.len() + 16 <= usize::MAX,
            CONTEXT_SIZE <= *old(spos) <= old(sbuf)@.len(),
            roid < LZ_ROID_SIZE,
            lenid < LZ_LENID_SIZE,
        ensures
            ({
                let step = decode_view(
                    old(self)@,
                    old(sbuf)@,
                    *old(spos) as int,
                    *old(tpos) as int,
                    *old(bits),
                ).match_decoded(decoder2.lens(), tbuf@, roid as int, lenid as int);
                &&& ok == step.ok
                &&& final(self)@.lz == step.state.lz
                &&& final(self)@.symranks == step.state.symranks
                &&& final(self)@.first_block == old(self)@.first_block
                &&& final(sbuf)@ == step.state.text
                &&& ok ==> step.state == decode_view(
                    final(self)@,
                    final(sbuf)@,
                    *final(spos) as int,
                    *final(tpos) as int,
                    *final(bits),
                )
            }),
            final(self)@.wf(),
            final(sbuf)@.len() == old(sbuf)@.len(),
            ok ==> {
                &&& final(bits).reads(tbuf@, *final(tpos) as int)
                &&& *final(tpos) <= tbuf@.len() + 8
                &&& CONTEXT_SIZE <= *final(spos) <= final(sbuf)@.len()
            },
    {
        let h: usize = hash1(sbuf, *spos - 1);
        assert(self@.lz.buckets[h as int] == self.buckets@[h as int]@);
        assert(self@.lz.buckets[h as int].wf());

        // reduced offset
        let (robase, robitlen) = roid_decode(roid);
        proof {
            lemma_reads_take(*bits, tbuf@, *tpos as int, robitlen as nat);
        }
        let extra: u64 = bits.get(robitlen);
        proof {
            lemma_reads_skip(*old(bits), *bits, tbuf@, *tpos as int, robitlen as nat);
            lemma_roid_in_range(roid as int, extra as int);
        }
        let reduced_offset: u16 = robase + extra as u16;

        // match position and match length
        let (match_pos, match_len_expected, match_len_min) = self.buckets[h].get_match_pos_and_match_len(
            reduced_offset,
        );
        let encoded_match_len: u128 = if lenid == LZ_LENID_SIZE as u8 - 1 {
            if used_up(bits, tbuf, *tpos) {
                return false;
            }
            bits.load_u32(tbuf, tpos);
            read_symbol(decoder2, bits, Ghost(tbuf@), Ghost(*tpos as int)) as u128
        } else {
            lenid as u128
        };
        let len: u128 = if encoded_match_len + match_len_min as u128 > match_len_expected as u128 {
            encoded_match_len + match_len_min as u128
        } else if encoded_match_len > 0 {
            encoded_match_len + match_len_min as u128 - 1
        } else {
            match_len_expected as u128
        };
        if match_pos >= *spos || len > (sbuf.len() - *spos) as u128 {
            return false;
        }
        let match_len: usize = len as usize;
        copy_within(sbuf, match_pos, *spos, match_len);
        self.advance(sbuf, *spos, LZOp::Match { reduced_offset, match_len });
        *spos = *spos + match_len;
        true
    }

    /// Decodes the next item of a chunk.
    fn decode_item(
        &mut self,
        decoder1: &HuffmanDecoder,
        decoder2: &HuffmanDecoder,
        bits: &mut Bits,
        tbuf: &[u8],
        tpos: &mut usize,
        sbuf: &mut [u8],
        spos: &mut usize,
    ) -> (ok: bool)
        requires
            old(self)@.wf(),
            decoder1.wf(),
            decoder1.lens().len() == SYMRANK_NUM_SYMBOLS,
            decoder2.wf(),
            decoder2.lens().len() == LZ_MATCH_MAX_LEN,
            old(bits).reads(tbuf@, *old(tpos) as int),
            *old(tpos) <= tbuf@.len() + 8,
            tbuf@.len() + 16 <= usize::MAX,
            CONTEXT_SIZE <= *old(spos) <= old(sbuf)@.len(),
        ensures
            ({
                let step = decode_view(
                    old(self)@,
                    old(sbuf)@,
                    *old(spos) as int,
                    *old(tpos) as int,
                    *old(bits),
                ).item_decoded(decoder1.lens(), decoder2.lens(), tbuf@);
                &&& ok == step.ok
                &&& final(self)@.lz == step.state.lz
                &&& final(self)@.symranks == step.state.symranks
                &&& final(self)@.first_block == old(self)@.first_block
                &&& final(sbuf)@ == step.state.text
                &&& ok ==> step.state == decode_view(
                    final(self)@,
                    final(sbuf)@,
                    *final(spos) as int,
                    *final(tpos) as int,
                    *final(bits),
                )
            }),
            final(self)@.wf(),
            final(sbuf)@.len() == old(sbuf)@.len(),
            ok ==> {
                &&& final(bits).reads(tbuf@, *final(tpos) as int)
                &&& *final(tpos) <= tbuf@.len() + 8
                &&& CONTEXT_SIZE <= *final(spos) <= final(sbuf)@.len()
            },
    {
        let last_word_expected: (u8, u8) = self.words[hash2(sbuf, *spos - 1)];
        let symrank_context: usize = hash1(sbuf, *spos - 1) + if self.after_literal {
            256
        } else {
            0
        };
        let symrank_unlikely: u8 = last_word_expected.0;

        if used_up(bits, tbuf, *tpos) {
            return false;
        }
        bits.load_u32(tbuf, tpos);
        let symbol: u16 = read_symbol(decoder1, bits, Ghost(tbuf@), Ghost(*tpos as int));
        if symbol > SYMRANK_NUM_SYMBOLS as u16 {
            return false;
        }
        let ghost before = self.symranks@;
        assert(self@.symranks[symrank_context as int] == before[symrank_context as int]@);
        assert(self@.symranks[symrank_context as int].wf());
        let value: u16 = self.symranks[symrank_context].decode(symbol, symrank_unlikely as u16);
        assert(symrank_views(self.symranks@) =~= symrank_views(before).update(
            symrank_context as int,
            self.symranks@[symrank_context as int]@,
        ));
        if value == WORD_SYMBOL {
            if sbuf.len() - *spos < 2 {
                return false;
            }
            sbuf[*spos] = last_word_expected.0;
            sbuf[*spos + 1] = last_word_expected.1;
            self.advance(sbuf, *spos, LZOp::Word);
            *spos = *spos + 2;
            true
        } else if value < 256 {
            if sbuf.len() - *spos < 1 {
                return false;
            }
            sbuf[*spos] = value as u8;
            self.advance(sbuf, *spos, LZOp::Literal);
            *spos = *spos + 1;
            true
        } else {
            let roid: u8 = ((value - 256) / LZ_LENID_SIZE as u16) as u8;
            let lenid: u8 = ((value - 256) % LZ_LENID_SIZE as u16) as u8;
            self.decode_match(decoder2, bits, tbuf, tpos, sbuf, spos, roid, lenid)
        }
    }
}

/// Reads the initial symbol ranks from the start of a chunk, or nothing when
/// they are not complete or not all symbols.
fn read_ranks(tbuf: &[u8]) -> (vs: Option<Vec<u16>>)
    ensures
        vs is None <==> (tbuf@.len() < RANKS_SIZE || exists|i: int|
            0 <= i < SYMRANK_NUM_SYMBOLS && (#[trigger] stored_ranks(tbuf@)[i]) >= SYMRANK_NUM_SYMBOLS),
        vs matches Some(v) ==> v@ == stored_ranks(tbuf@),
{
    if tbuf.len() < RANKS_SIZE {
        return None;
    }
    let mut vs: Vec<u16> = Vec::new();
    let mut i: usize = 0;
    while i < SYMRANK_NUM_SYMBOLS
        invariant
            i <= SYMRANK_NUM_SYMBOLS,
            tbuf@.len() >= RANKS_SIZE,
            vs@.len() == i,
            forall|k: int|
                0 <= k < i ==> (#[trigger] vs@[k]) == stored_ranks(tbuf@)[k] && vs@[k] < SYMRANK_NUM_SYMBOLS,
        decreases SYMRANK_NUM_SYMBOLS - i,
    {
        let v: u16 = tbuf[2 * i] as u16 + 256 * tbuf[2 * i + 1] as u16;
        assert(v == stored_ranks(tbuf@)[i as int]);
        if v as usize >= SYMRANK_NUM_SYMBOLS {
            return None;
        }
        vs.push(v);
        i = i + 1;
    }
    assert(vs@ =~= stored_ranks(tbuf@));
    Some(vs)
}

/// The next `n` items can be decoded to a text of `len` bytes from `pos` on:
/// where there are any, enough bytes stand in front of them for their contexts.
pub open spec fn can_decode(len: int, pos: int, n: nat) -> bool {
    n > 0 ==> CONTEXT_SIZE <= pos <= len
}

impl LZDecoder {
    /// Follows the text when it moves `forward_len` bytes towards its start.
    pub fn forward(&mut self, forward_len: usize)
        requires
            old(self)@.wf(),
        ensures
            final(self)@ == old(self)@.forwarded(forward_len as int),
            final(self)@.wf(),
    {
        self.ctx.forward(forward_len);
    }

    /// Decodes the chunk `tbuf` to the text in `sbuf` from `spos` on. Returns
    /// the position behind the chunk in `sbuf` and the number of bytes that it
    /// took of `tbuf`. Where there is an item to decode, the contexts at
    /// `spos` are made of the four bytes in front of it, which have to be there.
    /// Whatever comes out, the decoder takes the next chunk for a later one.
    pub fn decode(&mut self, tbuf: &[u8], sbuf: &mut [u8], spos: usize) -> (r: Result<
        (usize, usize),
        DecodeError,
    >)
        requires
            old(self)@.wf(),
            can_decode(old(sbuf)@.len() as int, spos as int, item_count(old(self)@, tbuf@)),
            tbuf@.len() + 16 <= usize::MAX,
        ensures
            final(self)@ == decoded_chunk(old(self)@, tbuf@, old(sbuf)@, spos as int).ctx,
            final(self)@.wf(),
            !final(self)@.first_block,
            final(sbuf)@ == decoded_chunk(old(self)@, tbuf@, old(sbuf)@, spos as int).text,
            final(sbuf)@.len() == old(sbuf)@.len(),
            match decoded_chunk(old(self)@, tbuf@, old(sbuf)@, spos as int).result {
                Some((end, size)) => r matches Ok((a, b)) && a == end && b == size,
                None => r == Err::<(usize, usize), DecodeError>(DecodeError::InvalidData),
            },
    {
        reveal(decoded_chunk);
        let mut bits = Bits::default();
        let mut pos: usize = spos;
        let mut tpos: usize = 0;

        // initial ranks
        if self.ctx.first_block {
            match read_ranks(tbuf) {
                Some(vs) => {
                    self.ctx.init_symranks(&vs);
                    tpos = RANKS_SIZE;
                },
                None => {
                    self.ctx.first_block = false;
                    return Err(DecodeError::InvalidData);
                },
            }
        }
        let ghost ctx = self@;
        let ghost at = counts_pos(old(self)@);
        assert(start_symranks(old(self)@, tbuf@) == Some(ctx.symranks));
        assert(tpos == at);

        // end position and number of items
        if tbuf.len() - tpos < 8 {
            return Err(DecodeError::InvalidData);
        }
        proof {
            assert(bits.pending() =~= bits_at(tbuf@, 8 * tpos, 0));
        }
        bits.load_u32(tbuf, &mut tpos);
        bits.load_u32(tbuf, &mut tpos);
        let ghost loaded = bits;
        proof {
            lemma_reads_take(bits, tbuf@, tpos as int, 32);
        }
        let sbuf_len: u64 = bits.get(32);
        proof {
            lemma_reads_skip(loaded, bits, tbuf@, tpos as int, 32);
            lemma_reads_take(bits, tbuf@, tpos as int, 32);
            lemma2_to64();
        }
        let ghost loaded2 = bits;
        let match_items_len: u64 = bits.get(32);
        proof {
            lemma_reads_skip(loaded2, bits, tbuf@, tpos as int, 32);
        }

        // code tables
        let decoder1 = match HuffmanDecoder::new(SYMRANK_NUM_SYMBOLS, tbuf, &mut tpos) {
            Some(decoder) => decoder,
            None => {
                return Err(DecodeError::InvalidData);
            },
        };
        let decoder2 = match HuffmanDecoder::new(LZ_MATCH_MAX_LEN, tbuf, &mut tpos) {
            Some(decoder) => decoder,
            None => {
                return Err(DecodeError::InvalidData);
            },
        };
        let ghost lens1 = decoder1.lens();
        let ghost lens2 = decoder2.lens();

        // items
        let ghost step = decode_view(self@, sbuf@, pos as int, tpos as int, bits).items_decoded(
            lens1,
            lens2,
            tbuf@,
            match_items_len as nat,
        );
        assert(bits.reads(tbuf@, tpos as int)) by {
            assert(bits.pending() =~= bits_at(tbuf@, 8 * tpos, 0));
        }
        let mut left: u64 = match_items_len;
        while left > 0
            invariant
                self@.wf(),
                !self@.first_block,
                lens1 == decoder1.lens(),
                lens2 == decoder2.lens(),
                decoder1.wf(),
                lens1.len() == SYMRANK_NUM_SYMBOLS,
                decoder2.wf(),
                lens2.len() == LZ_MATCH_MAX_LEN,
                bits.reads(tbuf@, tpos as int),
                tpos <= tbuf@.len() + 8,
                tbuf@.len() + 16 <= usize::MAX,
                can_decode(sbuf@.len() as int, pos as int, left as nat),
                sbuf@.len() == old(sbuf)@.len(),
                step == decode_view(self@, sbuf@, pos as int, tpos as int, bits).items_decoded(
                    lens1,
                    lens2,
                    tbuf@,
                    left as nat,
                ),
                decoded_chunk(old(self)@, tbuf@, old(sbuf)@, spos as int) == chunk_result(
                    step,
                    sbuf_len as int,
                    tbuf@,
                ),
            decreases left,
        {
            if !self.ctx.decode_item(&decoder1, &decoder2, &mut bits, tbuf, &mut tpos, sbuf, &mut pos) {
                return Err(DecodeError::InvalidData);
            }
            left = left - 1;
        }
        let end: usize = if pos as u64 <= sbuf_len {
            pos
        } else {
            sbuf_len as usize
        };
        let size: usize = if tpos <= tbuf.len() {
            tpos
        } else {
            tbuf.len()
        };
        Ok((end, size))
    }
}

/// What decoding gives when the items of a chunk were decoded to `step`.
spec fn chunk_result(step: DecodeStep, end: int, t: Seq<u8>) -> Decoded {
    Decoded {
        ctx: ContextView { lz: step.state.lz, symranks: step.state.symranks, first_block: false },
        text: step.state.text,
        result: if step.ok {
            Some((lesser(step.state.pos, end), lesser(step.state.loaded, t.len() as int)))
        } else {
            None
        },
    }
}

} // verus!
