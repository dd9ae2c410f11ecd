//! What encoding and decoding a chunk compute, as mathematical functions.
use vstd::prelude::*;

use crate::bits::{pack, to_bits, value_at};
use crate::codelen::code_lens;
use crate::consts::{
    LZ_CHUNK_OVERHEAD, LZ_CHUNK_SIZE, LZ_ITEM_MAX_SIZE, LZ_LENID_SIZE, LZ_MATCH_MAX_LEN,
    SYMRANK_NUM_SYMBOLS, WORD_SYMBOL,
};
use crate::huffman::{
    code_bits, decoded_symbol, is_code, stored_lens, table_bytes, taken_len, CODE_LEN_MAX,
};
use crate::matchfinder::{found_match, lazy_match_exists, BucketView, MatchResult, MatcherView};
use crate::mtf::MTFView;
use crate::roid::{roid_base, roid_bitlen, roid_of};

verus! {

/// Number of match buckets, one for each short context.
pub const BUCKET_COUNT: usize = 256;

/// Number of symbol ranking coders.
pub const SYMRANK_COUNT: usize = 512;

/// Number of predicted words, one for each long context.
pub const WORD_COUNT: usize = 32768;

/// Bytes in front of a position that its contexts are made of.
pub const CONTEXT_SIZE: usize = 4;

/// Bytes that the initial symbol ranks take in the first chunk.
pub const RANKS_SIZE: usize = 778;

/// Bytes of the end position and the number of items.
pub const COUNTS_SIZE: usize = 8;

/// Bytes of the code table for the ranks of symbols.
pub const RANK_TABLE_SIZE: usize = 195;

/// Bytes of the code table for long match lengths.
pub const LEN_TABLE_SIZE: usize = 120;

/// Bytes of the counts and both code tables.
pub const FRONT_SIZE: usize = 323;

/// Lempel-Ziv matching options.
#[derive(Clone, Copy, Debug)]
pub struct LZCfg {
    pub match_depth: usize,
    pub lazy_match_depth1: usize,
    pub lazy_match_depth2: usize,
}

/// How the bytes at a position are coded: as a match with an earlier item of
/// the bucket, as the predicted word, or as a single byte.
#[derive(Clone, Copy)]
pub enum LZOp {
    Match { reduced_offset: u16, match_len: usize },
    Word,
    Literal,
}

/// A coded symbol with the context that it is ranked in, and for a match the
/// extra bits of its offset and its coded length.
#[derive(Clone, Copy)]
pub enum MatchItem {
    Match {
        symbol: u16,
        symrank_context: u16,
        symrank_unlikely: u8,
        robitlen: u8,
        robits: u16,
        encoded_match_len: u8,
    },
    Symbol { symbol: u16, symrank_context: u16, symrank_unlikely: u8 },
}

impl MatchItem {
    /// The coded symbol.
    pub open spec fn symbol_of(self) -> u16 {
        match self {
            MatchItem::Match { symbol, .. } => symbol,
            MatchItem::Symbol { symbol, .. } => symbol,
        }
    }

    /// The context that the symbol is ranked in.
    pub open spec fn context_of(self) -> u16 {
        match self {
            MatchItem::Match { symrank_context, .. } => symrank_context,
            MatchItem::Symbol { symrank_context, .. } => symrank_context,
        }
    }

    /// The symbol that is thought to be least likely.
    pub open spec fn unlikely_of(self) -> u8 {
        match self {
            MatchItem::Match { symrank_unlikely, .. } => symrank_unlikely,
            MatchItem::Symbol { symrank_unlikely, .. } => symrank_unlikely,
        }
    }

    /// The fields are in the ranges that the coding tables have.
    pub open spec fn wf(self) -> bool {
        &&& self.symbol_of() < SYMRANK_NUM_SYMBOLS
        &&& self.context_of() < SYMRANK_COUNT
        &&& self matches MatchItem::Match { robitlen, robits, encoded_match_len, .. } ==> {
            &&& robitlen <= 10
            &&& robits < vstd::arithmetic::power2::pow2(robitlen as nat)
            &&& encoded_match_len < LZ_MATCH_MAX_LEN
        }
    }
}

/// An ASCII digit or letter.
pub open spec fn is_alphanumeric(b: u8) -> bool {
    0x30 <= b <= 0x39 || 0x41 <= b <= 0x5a || 0x61 <= b <= 0x7a
}

/// The short context at `pos`: the lowest seven bits of the byte there, and
/// whether the byte before is alphanumeric.
pub open spec fn spec_hash1(s: Seq<u8>, pos: int) -> int {
    s[pos] % 128 + if is_alphanumeric(s[pos - 1]) { 128int } else { 0int }
}

/// The long context at `pos`: the lowest seven bits of the byte there and the
/// short context before it.
pub open spec fn spec_hash2(s: Seq<u8>, pos: int) -> int {
    s[pos] % 128 + 128 * spec_hash1(s, pos - 1)
}

/// Two short contexts are equal exactly when the lowest seven bits at the
/// positions are, and whether the bytes before are alphanumeric.
pub proof fn law_short_contexts(a: Seq<u8>, p: int, b: Seq<u8>, q: int)
    requires
        1 <= p < a.len(),
        1 <= q < b.len(),
    ensures
        0 <= spec_hash1(a, p) < BUCKET_COUNT,
        spec_hash1(a, p) == spec_hash1(b, q) <==> a[p] % 128 == b[q] % 128 && is_alphanumeric(a[p - 1])
            == is_alphanumeric(b[q - 1]),
{
}

/// A long context is made of the lowest seven bits at the position and the
/// short context before it.
pub proof fn law_long_context_parts(s: Seq<u8>, pos: int)
    requires
        2 <= pos < s.len(),
    ensures
        0 <= spec_hash2(s, pos) < WORD_COUNT,
        spec_hash2(s, pos) / 128 == spec_hash1(s, pos - 1),
        spec_hash2(s, pos) % 128 == s[pos] % 128,
{
}

/// Only the three bytes that end at a position matter for its long context.
pub proof fn law_long_contexts(a: Seq<u8>, p: int, b: Seq<u8>, q: int)
    requires
        2 <= p < a.len(),
        2 <= q < b.len(),
        a[p - 2] == b[q - 2],
        a[p - 1] == b[q - 1],
        a[p] == b[q],
    ensures
        spec_hash2(a, p) == spec_hash2(b, q),
{
}

/// The code of a match length, given the expected and the least one: zero for
/// the expected length, and the others from one on.
pub open spec fn encoded_len(len: int, expected: int, min: int) -> int {
    if len > expected {
        len - min
    } else if len < expected {
        len - min + 1
    } else {
        0
    }
}

/// The match length that a code stands for.
pub open spec fn decoded_len(code: int, expected: int, min: int) -> int {
    if code + min > expected {
        code + min
    } else if code > 0 {
        code + min - 1
    } else {
        expected
    }
}

/// A code is read back from the match length that it stands for, which is at
/// least the least one.
pub proof fn law_len_code_round_trip(code: int, expected: int, min: int)
    requires
        0 <= code,
    ensures
        encoded_len(decoded_len(code, expected, min), expected, min) == code,
        min <= decoded_len(code, expected, min),
{
}

/// A match length of at least the least one is read back from its code.
pub proof fn law_len_round_trip(len: int, expected: int, min: int)
    requires
        min <= len,
    ensures
        decoded_len(encoded_len(len, expected, min), expected, min) == len,
        0 <= encoded_len(len, expected, min) <= len - min + 1,
{
}

/// The contexts at `pos` can be made: enough bytes stand in front of it, or the
/// text `s` ends there or before.
pub open spec fn has_contexts(s: Seq<u8>, pos: int) -> bool {
    CONTEXT_SIZE <= pos || s.len() <= pos
}

/// What the encoder and the decoder both know of the text so far.
#[verifier::ext_equal]
pub struct LZView {
    pub buckets: Seq<BucketView>,
    pub words: Seq<(u8, u8)>,
    pub after_literal: bool,
}

/// The number of bytes that an operation covers.
pub open spec fn op_len(op: LZOp) -> int {
    match op {
        LZOp::Match { match_len, .. } => match_len as int,
        LZOp::Word => 2,
        LZOp::Literal => 1,
    }
}

impl LZView {
    /// All tables have their full size.
    pub open spec fn wf(self) -> bool {
        &&& self.buckets.len() == BUCKET_COUNT
        &&& forall|i: int| 0 <= i < BUCKET_COUNT ==> (#[trigger] self.buckets[i]).wf()
        &&& self.words.len() == WORD_COUNT
    }

    /// The bucket that serves `pos`.
    pub open spec fn bucket_at(self, s: Seq<u8>, pos: int) -> BucketView {
        self.buckets[spec_hash1(s, pos - 1)]
    }

    /// The word that is predicted at `pos`.
    pub open spec fn word_at(self, s: Seq<u8>, pos: int) -> (u8, u8) {
        self.words[spec_hash2(s, pos - 1)]
    }

    /// The predicted word stands at `pos`.
    pub open spec fn word_matched(self, s: Seq<u8>, pos: int) -> bool {
        pos + 1 < s.len() && self.word_at(s, pos) == (s[pos], s[pos + 1])
    }

    /// The ranking context at `pos`.
    pub open spec fn symrank_context(self, s: Seq<u8>, pos: int) -> int {
        spec_hash1(s, pos - 1) + if self.after_literal { 256int } else { 0int }
    }

    /// The state after the bytes at `pos`, which stand in `s`, were coded by
    /// `op`. A predicted word need not be learned again.
    pub open spec fn advanced(self, s: Seq<u8>, pos: int, op: LZOp) -> LZView {
        let h = spec_hash1(s, pos - 1);
        let end = pos + op_len(op);
        LZView {
            buckets: self.buckets.update(
                h,
                match op {
                    LZOp::Match { reduced_offset, match_len } => self.buckets[h].updated(
                        pos,
                        reduced_offset as int,
                        match_len as int,
                    ),
                    _ => self.buckets[h].updated(pos, 0, 0),
                },
            ),
            words: if op is Word {
                self.words
            } else {
                self.words.update(spec_hash2(s, end - 3), (s[end - 2], s[end - 1]))
            },
            after_literal: op is Literal,
        }
    }

    /// The item that codes `op` at `pos`.
    pub open spec fn item_at(self, s: Seq<u8>, pos: int, op: LZOp) -> MatchItem {
        let symrank_context = self.symrank_context(s, pos) as u16;
        let symrank_unlikely = self.word_at(s, pos).0;
        match op {
            LZOp::Match { reduced_offset, match_len } => {
                let ro = reduced_offset as int;
                let roid = roid_of(ro);
                let len = encoded_len(
                    match_len as int,
                    self.bucket_at(s, pos).len_expected(ro),
                    self.bucket_at(s, pos).len_min(ro),
                );
                let lenid = if len < LZ_LENID_SIZE - 1 {
                    len
                } else {
                    LZ_LENID_SIZE - 1
                };
                MatchItem::Match {
                    symbol: (256 + roid * LZ_LENID_SIZE + lenid) as u16,
                    symrank_context,
                    symrank_unlikely,
                    robitlen: roid_bitlen(roid) as u8,
                    robits: (ro - roid_base(roid)) as u16,
                    encoded_match_len: len as u8,
                }
            },
            LZOp::Word => MatchItem::Symbol { symbol: WORD_SYMBOL, symrank_context, symrank_unlikely },
            LZOp::Literal => MatchItem::Symbol {
                symbol: s[pos] as u16,
                symrank_context,
                symrank_unlikely,
            },
        }
    }
}

/// The encoder's state while it divides the text into items.
#[verifier::ext_equal]
pub struct ParseView {
    pub lz: LZView,
    pub matchers: Seq<MatcherView>,
}

impl ParseView {
    /// There is a matcher for each bucket.
    pub open spec fn wf(self) -> bool {
        &&& self.lz.wf()
        &&& self.matchers.len() == BUCKET_COUNT
        &&& forall|i: int| 0 <= i < BUCKET_COUNT ==> (#[trigger] self.matchers[i]).wf()
    }

    /// The longest match at `pos`.
    pub open spec fn match_at(self, cfg: LZCfg, s: Seq<u8>, pos: int) -> MatchResult {
        let h = spec_hash1(s, pos - 1);
        found_match(self.matchers[h], self.lz.buckets[h], s, pos, cfg.match_depth as nat)
    }

    /// A match of at least `len` bytes starts right behind `pos`.
    pub open spec fn lazy_match_after(self, s: Seq<u8>, pos: int, len: int, depth: nat) -> bool {
        let h = spec_hash1(s, pos);
        lazy_match_exists(self.matchers[h], self.lz.buckets[h], s, pos + 1, len, depth)
    }

    /// How many bytes behind `pos` a match starts that is worth waiting for,
    /// when the match `m` was found at `pos`: one, two, or zero for none.
    pub open spec fn lazy_match_id(self, cfg: LZCfg, s: Seq<u8>, pos: int, m: MatchResult) -> int {
        let len1 = m.match_len + 1 + if roid_bitlen(roid_of(m.reduced_offset as int)) < 8 {
            1int
        } else {
            0int
        };
        let len2 = len1 - if self.lz.word_matched(s, pos) {
            1int
        } else {
            0int
        };
        if m.match_len >= LZ_MATCH_MAX_LEN / 2 {
            0
        } else if self.lazy_match_after(s, pos, len1, cfg.lazy_match_depth1 as nat) {
            1
        } else if self.lazy_match_after(s, pos + 1, len2, cfg.lazy_match_depth2 as nat) {
            2
        } else {
            0
        }
    }

    /// The operation that the encoder chooses at `pos`: the longest match
    /// unless a better one starts soon, else the predicted word unless a
    /// better match starts at its second byte, else a single byte.
    pub open spec fn op_at(self, cfg: LZCfg, s: Seq<u8>, pos: int) -> LZOp {
        let m = self.match_at(cfg, s, pos);
        let lazy = self.lazy_match_id(cfg, s, pos, m);
        if m.match_len > 0 && lazy == 0 {
            LZOp::Match { reduced_offset: m.reduced_offset, match_len: m.match_len }
        } else if !(m.match_len > 0 && lazy == 1) && self.lz.word_matched(s, pos) {
            LZOp::Word
        } else {
            LZOp::Literal
        }
    }

    /// The state after `op` was coded at `pos`.
    pub open spec fn advanced(self, s: Seq<u8>, pos: int, op: LZOp) -> ParseView {
        let h = spec_hash1(s, pos - 1);
        let lz = self.lz.advanced(s, pos, op);
        ParseView {
            lz,
            matchers: self.matchers.update(h, self.matchers[h].updated(lz.buckets[h], s, pos)),
        }
    }
}

/// What is left after dividing the text into items.
#[verifier::ext_equal]
pub struct Parsed {
    pub items: Seq<MatchItem>,
    pub state: ParseView,
    pub pos: int,
}

/// The items of the text from `pos` on, at most `budget` of them.
pub open spec fn parse(p: ParseView, cfg: LZCfg, s: Seq<u8>, pos: int, budget: nat) -> Parsed
    decreases budget,
{
    if budget == 0 || pos >= s.len() {
        Parsed { items: Seq::empty(), state: p, pos }
    } else {
        let op = p.op_at(cfg, s, pos);
        let rest = parse(p.advanced(s, pos, op), cfg, s, pos + op_len(op), (budget - 1) as nat);
        Parsed {
            items: seq![p.lz.item_at(s, pos, op)] + rest.items,
            state: rest.state,
            pos: rest.pos,
        }
    }
}

/// How often `v` occurs in `s`.
pub open spec fn occurrences(s: Seq<u16>, v: int) -> nat
    decreases s.len(),
{
    if s.len() == 0 {
        0
    } else {
        occurrences(s.drop_last(), v) + if s.last() == v { 1nat } else { 0nat }
    }
}

/// The number of occurrences of each of the `n` smallest symbols.
pub open spec fn weights(s: Seq<u16>, n: nat) -> Seq<u32> {
    Seq::new(n, |v: int| occurrences(s, v) as u32)
}

/// The symbols of the items.
pub open spec fn symbols(items: Seq<MatchItem>) -> Seq<u16> {
    items.map_values(|x: MatchItem| x.symbol_of())
}

/// Symbol `a` goes before `b`: it is more frequent, or as frequent and smaller.
pub open spec fn goes_before(s: Seq<u16>) -> spec_fn(u16, u16) -> bool {
    |a: u16, b: u16|
        occurrences(s, a as int) > occurrences(s, b as int) || (occurrences(s, a as int)
            == occurrences(s, b as int) && a <= b)
}

/// All symbols, from 0 on.
pub open spec fn alphabet() -> Seq<u16> {
    Seq::new(SYMRANK_NUM_SYMBOLS as nat, |i: int| i as u16)
}

/// All symbols, the most frequent ones in `s` first.
pub open spec fn by_frequency(s: Seq<u16>) -> Seq<u16> {
    alphabet().sort_by(goes_before(s))
}

/// The symbols `vs`, each in two bytes, the lower one first.
pub open spec fn rank_bytes(vs: Seq<u16>) -> Seq<u8> {
    Seq::new(
        2 * vs.len(),
        |i: int|
            if i % 2 == 0 {
                (vs[i / 2] % 256) as u8
            } else {
                (vs[i / 2] / 256) as u8
            },
    )
}

/// The symbols that are stored in the first bytes of `t`.
pub open spec fn stored_ranks(t: Seq<u8>) -> Seq<u16> {
    Seq::new(SYMRANK_NUM_SYMBOLS as nat, |i: int| (t[2 * i] + 256 * t[2 * i + 1]) as u16)
}

/// The same ranks in all ranking coders.
pub open spec fn fresh_symranks(vs: Seq<u16>) -> Seq<MTFView> {
    Seq::new(SYMRANK_COUNT as nat, |i: int| MTFView::from_vs(vs))
}

/// The ranks of coded symbols and the ranking coders behind them.
#[verifier::ext_equal]
pub struct Ranked {
    pub ranks: Seq<u16>,
    pub symranks: Seq<MTFView>,
}

/// Ranks the symbols of the items, each in its context.
pub open spec fn ranked(symranks: Seq<MTFView>, items: Seq<MatchItem>) -> Ranked
    decreases items.len(),
{
    if items.len() == 0 {
        Ranked { ranks: Seq::empty(), symranks }
    } else {
        let item = items[0];
        let c = item.context_of() as int;
        let v = item.symbol_of() as int;
        let rest = ranked(symranks.update(c, symranks[c].after_encode(v)), items.drop_first());
        Ranked {
            ranks: seq![symranks[c].encoded(v, item.unlikely_of() as int)] + rest.ranks,
            symranks: rest.symranks,
        }
    }
}

/// The coded match lengths that do not fit into their symbols.
pub open spec fn long_lens(items: Seq<MatchItem>) -> Seq<u16>
    decreases items.len(),
{
    if items.len() == 0 {
        Seq::empty()
    } else {
        let rest = long_lens(items.drop_last());
        match items.last() {
            MatchItem::Match { encoded_match_len, .. } if encoded_match_len >= LZ_LENID_SIZE
                - 1 => rest.push(encoded_match_len as u16),
            _ => rest,
        }
    }
}

/// The bits of an item with the rank of its symbol.
pub open spec fn item_bits(lens1: Seq<u8>, lens2: Seq<u8>, item: MatchItem, rank: u16) -> Seq<bool> {
    match item {
        MatchItem::Symbol { .. } => code_bits(lens1, rank as int),
        MatchItem::Match { robitlen, robits, encoded_match_len, .. } => code_bits(
            lens1,
            rank as int,
        ) + to_bits(robits as nat, robitlen as nat) + if encoded_match_len >= LZ_LENID_SIZE - 1 {
            code_bits(lens2, encoded_match_len as int)
        } else {
            Seq::empty()
        },
    }
}

/// The bits of all items.
pub open spec fn body_bits(
    lens1: Seq<u8>,
    lens2: Seq<u8>,
    items: Seq<MatchItem>,
    ranks: Seq<u16>,
) -> Seq<bool>
    decreases items.len(),
{
    if items.len() == 0 {
        Seq::empty()
    } else {
        item_bits(lens1, lens2, items[0], ranks[0]) + body_bits(
            lens1,
            lens2,
            items.drop_first(),
            ranks.drop_first(),
        )
    }
}

/// What the encoder and the decoder both keep from chunk to chunk.
#[verifier::ext_equal]
pub struct ContextView {
    pub lz: LZView,
    pub symranks: Seq<MTFView>,
    pub first_block: bool,
}

impl ContextView {
    /// There is a ranking coder for each context.
    pub open spec fn wf(self) -> bool {
        &&& self.lz.wf()
        &&& self.symranks.len() == SYMRANK_COUNT
        &&& forall|i: int| 0 <= i < SYMRANK_COUNT ==> (#[trigger] self.symranks[i]).wf()
    }

    /// From the first chunk on, every coder ranks every symbol once.
    pub open spec fn ranks_all(self) -> bool {
        self.first_block || forall|i: int|
            0 <= i < SYMRANK_COUNT ==> (#[trigger] self.symranks[i]).is_permutation()
    }

    /// The context before the first chunk.
    pub open spec fn initial() -> ContextView {
        ContextView {
            lz: LZView {
                buckets: Seq::new(BUCKET_COUNT as nat, |i: int| BucketView::empty()),
                words: Seq::new(WORD_COUNT as nat, |i: int| (0u8, 0u8)),
                after_literal: true,
            },
            symranks: fresh_symranks(alphabet()),
            first_block: true,
        }
    }

    /// The context after the text moved `forward_len` bytes towards its start.
    pub open spec fn forwarded(self, forward_len: int) -> ContextView {
        ContextView {
            lz: LZView {
                buckets: self.lz.buckets.map_values(|b: BucketView| b.forwarded(forward_len)),
                words: self.lz.words,
                after_literal: self.lz.after_literal,
            },
            symranks: self.symranks,
            first_block: self.first_block,
        }
    }
}

/// The mathematical state of an encoder.
#[verifier::ext_equal]
pub struct EncoderView {
    pub ctx: ContextView,
    pub matchers: Seq<MatcherView>,
}

impl EncoderView {
    /// There is a matcher for each bucket.
    pub open spec fn wf(self) -> bool {
        &&& self.ctx.wf()
        &&& self.matchers.len() == BUCKET_COUNT
        &&& forall|i: int| 0 <= i < BUCKET_COUNT ==> (#[trigger] self.matchers[i]).wf()
    }

    /// The encoder before the first chunk.
    pub open spec fn initial() -> EncoderView {
        EncoderView {
            ctx: ContextView::initial(),
            matchers: Seq::new(BUCKET_COUNT as nat, |i: int| MatcherView::empty()),
        }
    }

    /// The encoder after the text moved `forward_len` bytes towards its start.
    pub open spec fn forwarded(self, forward_len: int) -> EncoderView {
        let ctx = self.ctx.forwarded(forward_len);
        EncoderView {
            ctx,
            matchers: Seq::new(
                self.matchers.len(),
                |i: int| self.matchers[i].forwarded(ctx.lz.buckets[i]),
            ),
        }
    }
}

/// What encoding a chunk gives: its bytes, the encoder behind it and the
/// position in the text behind it.
#[verifier::ext_equal]
pub struct Encoded {
    pub bytes: Seq<u8>,
    pub state: EncoderView,
    pub pos: int,
}

/// The items of the next chunk of the text `s`, which starts at `pos`.
pub open spec fn chunk_parse(e: EncoderView, cfg: LZCfg, s: Seq<u8>, pos: int) -> Parsed {
    parse(
        ParseView { lz: e.ctx.lz, matchers: e.matchers },
        cfg,
        s,
        pos,
        LZ_CHUNK_SIZE as nat,
    )
}

/// The ranking coders that the items of a chunk are ranked with: those of the
/// first chunk start with the symbols by frequency.
pub open spec fn chunk_symranks(ctx: ContextView, items: Seq<MatchItem>) -> Seq<MTFView> {
    if ctx.first_block {
        fresh_symranks(by_frequency(symbols(items)))
    } else {
        ctx.symranks
    }
}

/// Encodes the next chunk of the text `s`, which starts at `pos`. The chunk
/// holds the symbols by frequency when it is the first one, the end position
/// and the number of items, two code tables, and the bits of the items.
#[verifier::opaque]
pub open spec fn encoded_chunk(e: EncoderView, cfg: LZCfg, s: Seq<u8>, pos: int) -> Encoded {
    let p = chunk_parse(e, cfg, s, pos);
    let r = ranked(chunk_symranks(e.ctx, p.items), p.items);
    let lens1 = code_lens(weights(r.ranks, SYMRANK_NUM_SYMBOLS as nat));
    let lens2 = code_lens(weights(long_lens(p.items), LZ_MATCH_MAX_LEN as nat));
    let head = if e.ctx.first_block {
        rank_bytes(by_frequency(symbols(p.items)))
    } else {
        Seq::empty()
    };
    let end = lesser(p.pos, s.len() as int) as nat;
    Encoded {
        bytes: head + pack(to_bits(end, 32) + to_bits(p.items.len(), 32)) + table_bytes(lens1)
            + table_bytes(lens2) + pack(body_bits(lens1, lens2, p.items, r.ranks)),
        state: EncoderView {
            ctx: ContextView { lz: p.state.lz, symranks: r.symranks, first_block: false },
            matchers: p.state.matchers,
        },
        pos: p.pos,
    }
}

/// The most bytes that a chunk takes when `n` bytes of text are left: the fixed
/// parts, and the most that an item takes for each item.
pub open spec fn chunk_size_max(n: int) -> int {
    LZ_CHUNK_OVERHEAD + LZ_ITEM_MAX_SIZE * if n < 0 {
        0
    } else {
        lesser(n, LZ_CHUNK_SIZE as int)
    }
}

/// The end position of the chunk of `s` at `pos` can be written down.
pub open spec fn end_fits(e: EncoderView, cfg: LZCfg, s: Seq<u8>, pos: int) -> bool {
    lesser(encoded_chunk(e, cfg, s, pos).pos, s.len() as int) <= u32::MAX
}

/// The decoder's state between items: its context, the text with the position
/// up to which it is decoded, the bytes that are loaded, and the bits that
/// are used up.
#[verifier::ext_equal]
pub struct DecodeView {
    pub lz: LZView,
    pub symranks: Seq<MTFView>,
    pub text: Seq<u8>,
    pub pos: int,
    pub loaded: int,
    pub used: int,
}

/// What a step of the decoder gives, and whether the chunk is still valid.
#[verifier::ext_equal]
pub struct DecodeStep {
    pub state: DecodeView,
    pub ok: bool,
}

/// The text with `len` bytes copied one by one from `from` to `to`.
pub open spec fn copied(text: Seq<u8>, from: int, to: int, len: int) -> Seq<u8>
    decreases len,
{
    if len <= 0 {
        text
    } else {
        copied(text.update(to, text[from]), from + 1, to + 1, len - 1)
    }
}

impl DecodeView {
    /// Loads four more bytes of the chunk when at most four are in stock.
    pub open spec fn load(self) -> DecodeView {
        DecodeView {
            loaded: if 8 * self.loaded - self.used <= 32 {
                self.loaded + 4
            } else {
                self.loaded
            },
            ..self
        }
    }

    /// The state after `op` was decoded to the bytes that `text` holds.
    pub open spec fn advanced(self, text: Seq<u8>, op: LZOp) -> DecodeView {
        DecodeView {
            lz: self.lz.advanced(text, self.pos, op),
            text,
            pos: self.pos + op_len(op),
            ..self
        }
    }

    /// The step that finds the chunk invalid.
    pub open spec fn failed(self) -> DecodeStep {
        DecodeStep { state: self, ok: false }
    }

    /// The reduced offset of a match of the offset class `roid`.
    pub open spec fn match_offset(self, t: Seq<u8>, roid: int) -> int {
        roid_base(roid) + value_at(t, self.used, roid_bitlen(roid))
    }

    /// The state behind the extra bits of the offset class `roid`.
    pub open spec fn after_offset(self, roid: int) -> DecodeView {
        DecodeView { used: self.used + roid_bitlen(roid), ..self }
    }

    /// The number that the next bits decode to as the code of a long length.
    pub open spec fn long_code(self, lens2: Seq<u8>, t: Seq<u8>) -> u16 {
        decoded_symbol(lens2, value_at(t, self.used, CODE_LEN_MAX as nat) as int)
    }

    /// The length of a match of the offset class `roid` and the length class
    /// `lenid`.
    pub open spec fn match_len(self, lens2: Seq<u8>, t: Seq<u8>, roid: int, lenid: int) -> int {
        let b = self.lz.bucket_at(self.text, self.pos);
        let ro = self.match_offset(t, roid);
        let code = if lenid == LZ_LENID_SIZE - 1 {
            self.after_offset(roid).long_code(lens2, t) as int
        } else {
            lenid
        };
        decoded_len(code, b.len_expected(ro), b.len_min(ro))
    }

    /// The position that a match of the offset class `roid` is copied from.
    pub open spec fn match_from(self, t: Seq<u8>, roid: int) -> int {
        self.lz.bucket_at(self.text, self.pos).match_pos(self.match_offset(t, roid))
    }

    /// Decodes a match of the offset class `roid` and the length class `lenid`.
    /// It is copied from the position of its item, whatever that and the length
    /// are, as long as the position is an earlier one and the text has room.
    pub open spec fn match_decoded(self, lens2: Seq<u8>, t: Seq<u8>, roid: int, lenid: int) -> DecodeStep {
        let d1 = self.after_offset(roid);
        let d2 = if lenid == LZ_LENID_SIZE - 1 {
            DecodeView { used: d1.used + taken_len(lens2, d1.long_code(lens2, t)), ..d1.load() }
        } else {
            d1
        };
        let from = self.match_from(t, roid);
        let len = self.match_len(lens2, t, roid, lenid);
        if lenid == LZ_LENID_SIZE - 1 && d1.used >= 8 * t.len() {
            d1.failed()
        } else if from >= self.pos || len > self.text.len() - self.pos {
            d2.failed()
        } else {
            DecodeStep {
                state: d2.advanced(
                    copied(self.text, from, self.pos, len),
                    LZOp::Match {
                        reduced_offset: self.match_offset(t, roid) as u16,
                        match_len: len as usize,
                    },
                ),
                ok: true,
            }
        }
    }

    /// Decodes the next item of the chunk `t`.
    pub open spec fn item_decoded(self, lens1: Seq<u8>, lens2: Seq<u8>, t: Seq<u8>) -> DecodeStep {
        let c = self.lz.symrank_context(self.text, self.pos);
        let word = self.lz.word_at(self.text, self.pos);
        let d1 = self.load();
        let symbol = decoded_symbol(lens1, value_at(t, self.used, CODE_LEN_MAX as nat) as int);
        let v = self.symranks[c].decoded(symbol, word.0 as int);
        let d2 = DecodeView {
            symranks: self.symranks.update(c, self.symranks[c].after_decode(symbol, word.0 as int)),
            used: d1.used + lens1[symbol as int],
            ..d1
        };
        if self.used >= 8 * t.len() {
            self.failed()
        } else if symbol > SYMRANK_NUM_SYMBOLS {
            d1.failed()
        } else if v == WORD_SYMBOL {
            if self.text.len() - self.pos < 2 {
                d2.failed()
            } else {
                DecodeStep {
                    state: d2.advanced(
                        self.text.update(self.pos, word.0).update(self.pos + 1, word.1),
                        LZOp::Word,
                    ),
                    ok: true,
                }
            }
        } else if v < 256 {
            if self.text.len() - self.pos < 1 {
                d2.failed()
            } else {
                DecodeStep {
                    state: d2.advanced(self.text.update(self.pos, v as u8), LZOp::Literal),
                    ok: true,
                }
            }
        } else {
            d2.match_decoded(lens2, t, (v - 256) / LZ_LENID_SIZE as int, (v - 256) % LZ_LENID_SIZE as int)
        }
    }

    /// Decodes the next `n` items of the chunk `t`.
    pub open spec fn items_decoded(self, lens1: Seq<u8>, lens2: Seq<u8>, t: Seq<u8>, n: nat) -> DecodeStep
        decreases n,
    {
        if n == 0 {
            DecodeStep { state: self, ok: true }
        } else {
            let step = self.item_decoded(lens1, lens2, t);
            if step.ok {
                step.state.items_decoded(lens1, lens2, t, (n - 1) as nat)
            } else {
                step
            }
        }
    }
}

/// What decoding a chunk gives: the decoder behind it, the text, and for a
/// valid chunk the position behind it and the number of bytes it took.
#[verifier::ext_equal]
pub struct Decoded {
    pub ctx: ContextView,
    pub text: Seq<u8>,
    pub result: Option<(int, int)>,
}

/// The ranking coders at the start of the chunk `t`, or nothing when the chunk
/// does not hold them as it should.
pub open spec fn start_symranks(ctx: ContextView, t: Seq<u8>) -> Option<Seq<MTFView>> {
    if !ctx.first_block {
        Some(ctx.symranks)
    } else if t.len() < RANKS_SIZE || exists|i: int|
        0 <= i < SYMRANK_NUM_SYMBOLS && (#[trigger] stored_ranks(t)[i]) >= SYMRANK_NUM_SYMBOLS {
        None
    } else {
        Some(fresh_symranks(stored_ranks(t)))
    }
}

/// Where the end position and the number of items stand in a chunk.
pub open spec fn counts_pos(ctx: ContextView) -> int {
    if ctx.first_block {
        RANKS_SIZE as int
    } else {
        0
    }
}

/// The number of items in the chunk `t`.
pub open spec fn item_count(ctx: ContextView, t: Seq<u8>) -> nat {
    value_at(t, 8 * counts_pos(ctx) + 32, 32)
}

/// The lesser of two numbers.
pub open spec fn lesser(a: int, b: int) -> int {
    if a <= b {
        a
    } else {
        b
    }
}

/// Decodes the chunk `t` to the text from `pos` on.
#[verifier::opaque]
pub open spec fn decoded_chunk(ctx: ContextView, t: Seq<u8>, text: Seq<u8>, pos: int) -> Decoded {
    let at = counts_pos(ctx);
    let at1 = at + COUNTS_SIZE;
    let at2 = at1 + RANK_TABLE_SIZE;
    let at3 = at2 + LEN_TABLE_SIZE;
    let lens1 = stored_lens(t, at1, SYMRANK_NUM_SYMBOLS as nat);
    let lens2 = stored_lens(t, at2, LZ_MATCH_MAX_LEN as nat);
    let end = value_at(t, 8 * at, 32) as int;
    let n = item_count(ctx, t);
    match start_symranks(ctx, t) {
        None => Decoded { ctx: ContextView { first_block: false, ..ctx }, text, result: None },
        Some(symranks) => {
            let ctx1 = ContextView { lz: ctx.lz, symranks, first_block: false };
            if t.len() < at3 || !is_code(lens1) || !is_code(lens2) {
                Decoded { ctx: ctx1, text, result: None }
            } else {
                let step = DecodeView {
                    lz: ctx1.lz,
                    symranks,
                    text,
                    pos,
                    loaded: at3,
                    used: 8 * at3,
                }.items_decoded(lens1, lens2, t, n);
                Decoded {
                    ctx: ContextView {
                        lz: step.state.lz,
                        symranks: step.state.symranks,
                        first_block: false,
                    },
                    text: step.state.text,
                    result: if step.ok {
                        Some((lesser(step.state.pos, end), lesser(step.state.loaded, t.len() as int)))
                    } else {
                        None
                    },
                }
            }
        },
    }
}

} // verus!
