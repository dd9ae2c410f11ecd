//! Match buckets, which the encoder and the decoder keep alike, and the hash
//! chains by which the encoder searches them.
use vstd::prelude::*;

use crate::consts::{LZ_MATCH_MAX_LEN, LZ_MATCH_MIN_LEN, LZ_MF_BUCKET_ITEM_SIZE};

verus! {

/// Number of hash chains in a matcher.
pub const CHAIN_COUNT: usize = 4096;

/// The end of a hash chain.
pub const NO_NODE: u16 = 4094;

/// A position in the source, the match length that is expected there, and the
/// least one that a match with it may have. The match finder takes an
/// item at position zero for an empty one.
#[derive(Clone, Copy)]
pub struct BucketItem {
    pub pos: usize,
    pub len_expected: usize,
    pub len_min: usize,
}

impl BucketItem {
    /// No length is below that of the shortest match.
    pub open spec fn wf(self) -> bool {
        &&& LZ_MATCH_MIN_LEN <= self.len_expected
        &&& LZ_MATCH_MIN_LEN <= self.len_min
    }
}

/// The mathematical state of a bucket: a ring of items, the newest at `head`.
#[verifier::ext_equal]
pub struct BucketView {
    pub head: int,
    pub items: Seq<BucketItem>,
}

impl BucketView {
    /// The ring has its full size.
    pub open spec fn wf(self) -> bool {
        &&& self.items.len() == LZ_MF_BUCKET_ITEM_SIZE
        &&& 0 <= self.head < LZ_MF_BUCKET_ITEM_SIZE
        &&& forall|i: int| 0 <= i < LZ_MF_BUCKET_ITEM_SIZE ==> (#[trigger] self.items[i]).wf()
    }

    /// A bucket of empty items.
    pub open spec fn empty() -> BucketView {
        BucketView {
            head: 0,
            items: Seq::new(
                LZ_MF_BUCKET_ITEM_SIZE as nat,
                |i: int|
                    BucketItem {
                        pos: 0,
                        len_expected: LZ_MATCH_MIN_LEN,
                        len_min: LZ_MATCH_MIN_LEN,
                    },
            ),
        }
    }

    /// The slot that is `reduced_offset` items older than the newest one.
    pub open spec fn node(self, reduced_offset: int) -> int {
        (self.head + LZ_MF_BUCKET_ITEM_SIZE - reduced_offset) % LZ_MF_BUCKET_ITEM_SIZE as int
    }

    /// The number of items by which the slot `node` is older than the newest.
    pub open spec fn reduced_offset(self, node: int) -> int {
        (self.head + LZ_MF_BUCKET_ITEM_SIZE - node) % LZ_MF_BUCKET_ITEM_SIZE as int
    }

    /// The source position of an item.
    pub open spec fn match_pos(self, reduced_offset: int) -> int {
        self.items[self.node(reduced_offset)].pos as int
    }

    /// The match length that is expected of an item.
    pub open spec fn len_expected(self, reduced_offset: int) -> int {
        self.items[self.node(reduced_offset)].len_expected as int
    }

    /// The least length of a match with an item.
    pub open spec fn len_min(self, reduced_offset: int) -> int {
        self.items[self.node(reduced_offset)].len_min as int
    }

    /// The bucket after `pos` was entered. When a match of `match_len` bytes
    /// was found there, the same length is expected of both its ends, and the
    /// older one is from then on good for longer matches only.
    pub open spec fn updated(self, pos: int, reduced_offset: int, match_len: int) -> BucketView {
        let node = self.node(reduced_offset);
        let known = if match_len > 0 {
            self.items.update(
                node,
                BucketItem {
                    pos: self.items[node].pos,
                    len_expected: match_len as usize,
                    len_min: (match_len + 1) as usize,
                },
            )
        } else {
            self.items
        };
        let head = (self.head + 1) % LZ_MF_BUCKET_ITEM_SIZE as int;
        BucketView {
            head,
            items: known.update(
                head,
                BucketItem {
                    pos: pos as usize,
                    len_expected: if match_len > 0 {
                        match_len as usize
                    } else {
                        LZ_MATCH_MIN_LEN
                    },
                    len_min: LZ_MATCH_MIN_LEN,
                },
            ),
        }
    }

    /// The bucket after the source moved `forward_len` bytes towards its
    /// start. What would fall off becomes empty.
    pub open spec fn forwarded(self, forward_len: int) -> BucketView {
        BucketView {
            head: self.head,
            items: self.items.map_values(
                |x: BucketItem|
                    BucketItem {
                        pos: if x.pos >= forward_len {
                            (x.pos - forward_len) as usize
                        } else {
                            0
                        },
                        len_expected: x.len_expected,
                        len_min: x.len_min,
                    },
            ),
        }
    }
}

/// The empty bucket is well-formed.
pub proof fn lemma_bucket_empty_wf()
    ensures
        BucketView::empty().wf(),
{
}

/// Entering a position keeps a bucket well-formed.
pub proof fn lemma_updated_wf(b: BucketView, pos: int, reduced_offset: int, match_len: int)
    requires
        b.wf(),
        match_len == 0 || LZ_MATCH_MIN_LEN <= match_len < usize::MAX,
    ensures
        b.updated(pos, reduced_offset, match_len).wf(),
{
}

/// A ring of the latest positions that share a context.
pub struct Bucket {
    head: u16,
    items: Vec<BucketItem>,
}

impl View for Bucket {
    type V = BucketView;

    closed spec fn view(&self) -> BucketView {
        BucketView { head: self.head as int, items: self.items@ }
    }
}

impl Default for Bucket {
    fn default() -> (bucket: Bucket)
        ensures
            bucket@ == BucketView::empty(),
            bucket@.wf(),
    {
        let mut items: Vec<BucketItem> = Vec::new();
        let mut i: usize = 0;
        while i < LZ_MF_BUCKET_ITEM_SIZE
            invariant
                i <= LZ_MF_BUCKET_ITEM_SIZE,
                items@.len() == i,
                forall|k: int| 0 <= k < i ==> items@[k] == BucketView::empty().items[k],
            decreases LZ_MF_BUCKET_ITEM_SIZE - i,
        {
            items.push(
                BucketItem {
                    pos: 0,
                    len_expected: LZ_MATCH_MIN_LEN,
                    len_min: LZ_MATCH_MIN_LEN,
                },
            );
            i = i + 1;
        }
        let bucket = Bucket { head: 0, items };
        assert(bucket@ =~= BucketView::empty());
        bucket
    }
}

impl Bucket {
    /// Enters the position `pos`, where a match of `match_len` bytes with the
    /// item at `reduced_offset` was found, or none when `match_len` is zero.
    pub fn update(&mut self, pos: usize, reduced_offset: u16, match_len: usize)
        requires
            old(self)@.wf(),
            reduced_offset < LZ_MF_BUCKET_ITEM_SIZE,
            match_len == 0 || LZ_MATCH_MIN_LEN <= match_len < usize::MAX,
        ensures
            final(self)@ == old(self)@.updated(pos as int, reduced_offset as int, match_len as int),
            final(self)@.wf(),
    {
        let size: usize = LZ_MF_BUCKET_ITEM_SIZE;
        let len_expected: usize = if match_len > 0 {
            let node: usize = (self.head as usize + size - reduced_offset as usize) % size;
            let pos_known: usize = self.items[node].pos;
            self.items[node] = BucketItem {
                pos: pos_known,
                len_expected: match_len,
                len_min: match_len + 1,
            };
            match_len
        } else {
            LZ_MATCH_MIN_LEN
        };
        let head: usize = (self.head as usize + 1) % size;
        self.items[head] = BucketItem {
            pos,
            len_expected,
            len_min: LZ_MATCH_MIN_LEN,
        };
        self.head = head as u16;
        proof {
            lemma_updated_wf(old(self)@, pos as int, reduced_offset as int, match_len as int);
            assert(self@ =~= old(self)@.updated(pos as int, reduced_offset as int, match_len as int));
        }
    }

    /// Follows the source when it moves `forward_len` bytes towards its start.
    pub fn forward(&mut self, forward_len: usize)
        requires
            old(self)@.wf(),
        ensures
            final(self)@ == old(self)@.forwarded(forward_len as int),
            final(self)@.wf(),
    {
        let mut i: usize = 0;
        while i < LZ_MF_BUCKET_ITEM_SIZE
            invariant
                i <= LZ_MF_BUCKET_ITEM_SIZE,
                old(self)@.wf(),
                self.head == old(self).head,
                self.items@.len() == LZ_MF_BUCKET_ITEM_SIZE,
                forall|k: int| 0 <= k < i ==> self.items@[k] == old(self)@.forwarded(forward_len as int).items[k],
                forall|k: int|
                    i <= k < LZ_MF_BUCKET_ITEM_SIZE ==> self.items@[k] == old(self)@.items[k],
            decreases LZ_MF_BUCKET_ITEM_SIZE - i,
        {
            let item = self.items[i];
            let pos: usize = if item.pos >= forward_len {
                item.pos - forward_len
            } else {
                0
            };
            self.items[i] = BucketItem {
                pos,
                len_expected: item.len_expected,
                len_min: item.len_min,
            };
            i = i + 1;
        }
        assert(self@ =~= old(self)@.forwarded(forward_len as int));
        assert forall|k: int| 0 <= k < LZ_MF_BUCKET_ITEM_SIZE implies (#[trigger] self@.items[k]).wf() by {
            assert(old(self)@.items[k].wf());
        }
    }

    /// The position, the expected match length and the least match length of
    /// the item at `reduced_offset`.
    pub fn get_match_pos_and_match_len(&self, reduced_offset: u16) -> (r: (usize, usize, usize))
        requires
            self@.wf(),
            reduced_offset < LZ_MF_BUCKET_ITEM_SIZE,
        ensures
            r.0 == self@.match_pos(reduced_offset as int),
            r.1 == self@.len_expected(reduced_offset as int),
            r.2 == self@.len_min(reduced_offset as int),
    {
        let size: usize = LZ_MF_BUCKET_ITEM_SIZE;
        let node: usize = (self.head as usize + size - reduced_offset as usize) % size;
        let item = self.items[node];
        (item.pos, item.len_expected, item.len_min)
    }
}

/// The number of bytes, at most `n`, that are equal from `p` and from `q` on.
pub open spec fn common_len(s: Seq<u8>, p: int, q: int, n: int) -> int
    decreases n,
{
    if n <= 0 || q >= s.len() || s[p] != s[q] {
        0
    } else {
        1 + common_len(s, p + 1, q + 1, n - 1)
    }
}

/// The byte `i` behind `p` is the byte `i` behind `q`.
pub open spec fn repeats_at(s: Seq<u8>, p: int, q: int, i: int) -> bool {
    s[p + i] == s[q + i]
}

/// The bytes that are counted as common are equal and inside the source.
pub proof fn lemma_common_len(s: Seq<u8>, p: int, q: int, n: int)
    requires
        0 <= p < q <= s.len(),
        0 <= n,
    ensures
        0 <= common_len(s, p, q, n) <= n,
        q + common_len(s, p, q, n) <= s.len(),
        forall|i: int| 0 <= i < common_len(s, p, q, n) ==> #[trigger] repeats_at(s, p, q, i),
    decreases n,
{
    if !(n <= 0 || q >= s.len() || s[p] != s[q]) {
        lemma_common_len(s, p + 1, q + 1, n - 1);
        assert forall|i: int| 0 <= i < common_len(s, p, q, n) implies #[trigger] repeats_at(
            s,
            p,
            q,
            i,
        ) by {
            if i > 0 {
                assert(repeats_at(s, p + 1, q + 1, i - 1));
            }
        }
    }
}

/// The hash of the four bytes from `pos` on.
pub open spec fn hash4(s: Seq<u8>, pos: int) -> int {
    (s[pos] + 31 * s[pos + 1] + 961 * s[pos + 2] + 29791 * s[pos + 3]) % CHAIN_COUNT as int
}

/// The mathematical state of a matcher: the newest slot of each hash chain
/// and the next older slot of each slot.
#[verifier::ext_equal]
pub struct MatcherView {
    pub heads: Seq<u16>,
    pub nexts: Seq<u16>,
}

/// What a search found; `match_len` is zero when there is no match.
#[derive(Clone, Copy)]
pub struct MatchResult {
    pub reduced_offset: u16,
    pub match_len: usize,
    pub match_len_expected: usize,
    pub match_len_min: usize,
}

impl MatcherView {
    /// Both tables have their full size.
    pub open spec fn wf(self) -> bool {
        &&& self.heads.len() == CHAIN_COUNT
        &&& self.nexts.len() == LZ_MF_BUCKET_ITEM_SIZE
    }

    /// A matcher of empty chains.
    pub open spec fn empty() -> MatcherView {
        MatcherView {
            heads: Seq::new(CHAIN_COUNT as nat, |i: int| NO_NODE),
            nexts: Seq::new(LZ_MF_BUCKET_ITEM_SIZE as nat, |i: int| NO_NODE),
        }
    }

    /// The matcher after the newest item of `b` was entered at `pos`.
    pub open spec fn updated(self, b: BucketView, s: Seq<u8>, pos: int) -> MatcherView {
        if pos + 4 <= s.len() {
            MatcherView {
                heads: self.heads.update(hash4(s, pos), b.head as u16),
                nexts: self.nexts.update(b.head, self.heads[hash4(s, pos)]),
            }
        } else {
            MatcherView { heads: self.heads, nexts: self.nexts.update(b.head, NO_NODE) }
        }
    }

    /// The slot when its item in `b` is not empty.
    pub open spec fn live(b: BucketView, node: u16) -> u16 {
        if node < LZ_MF_BUCKET_ITEM_SIZE && b.items[node as int].pos > 0 {
            node
        } else {
            NO_NODE
        }
    }

    /// The matcher without the items that are empty in `b`.
    pub open spec fn forwarded(self, b: BucketView) -> MatcherView {
        MatcherView {
            heads: self.heads.map_values(|x: u16| Self::live(b, x)),
            nexts: self.nexts.map_values(|x: u16| Self::live(b, x)),
        }
    }

    /// The first `depth` slots of the chain from `node` on. The chain ends
    /// where the positions, all below `limit`, no longer decrease.
    pub open spec fn chain(self, b: BucketView, node: int, limit: int, depth: nat) -> Seq<int>
        decreases depth,
    {
        if depth == 0 || node >= LZ_MF_BUCKET_ITEM_SIZE || b.items[node].pos == 0
            || b.items[node].pos >= limit {
            Seq::empty()
        } else {
            seq![node] + self.chain(
                b,
                self.nexts[node] as int,
                b.items[node].pos as int,
                (depth - 1) as nat,
            )
        }
    }

    /// The slots that a search at `pos` looks at.
    pub open spec fn candidates(self, b: BucketView, s: Seq<u8>, pos: int, depth: nat) -> Seq<int> {
        if pos + 4 <= s.len() {
            self.chain(b, self.heads[hash4(s, pos)] as int, pos, depth)
        } else {
            Seq::empty()
        }
    }
}

/// The length of the match between the item in slot `node` and `pos`.
pub open spec fn match_len_at(b: BucketView, s: Seq<u8>, pos: int, node: int) -> int {
    common_len(s, b.items[node].pos as int, pos, LZ_MATCH_MAX_LEN as int)
}

/// The length of a match with the item in slot `node` that it is good for, or
/// zero when the match is too short for it.
pub open spec fn usable_len_at(b: BucketView, s: Seq<u8>, pos: int, node: int) -> int {
    let len = match_len_at(b, s, pos, node);
    if len >= b.items[node].len_min {
        len
    } else {
        0
    }
}

/// The first one of the slots whose usable match is longest.
pub open spec fn longest(b: BucketView, s: Seq<u8>, pos: int, nodes: Seq<int>) -> int
    decreases nodes.len(),
{
    if nodes.len() <= 1 {
        nodes[0]
    } else {
        let best = longest(b, s, pos, nodes.drop_last());
        if usable_len_at(b, s, pos, nodes.last()) > usable_len_at(b, s, pos, best) {
            nodes.last()
        } else {
            best
        }
    }
}

/// The longest match at `pos` among the candidates.
pub open spec fn found_match(
    m: MatcherView,
    b: BucketView,
    s: Seq<u8>,
    pos: int,
    depth: nat,
) -> MatchResult {
    let nodes = m.candidates(b, s, pos, depth);
    let best = longest(b, s, pos, nodes);
    let len = usable_len_at(b, s, pos, best);
    if nodes.len() > 0 && len > 0 {
        MatchResult {
            reduced_offset: b.reduced_offset(best) as u16,
            match_len: len as usize,
            match_len_expected: b.items[best].len_expected,
            match_len_min: b.items[best].len_min,
        }
    } else {
        MatchResult { reduced_offset: 0, match_len: 0, match_len_expected: 0, match_len_min: 0 }
    }
}

/// One of the candidates at `pos` matches at least `min_len` bytes.
pub open spec fn lazy_match_exists(
    m: MatcherView,
    b: BucketView,
    s: Seq<u8>,
    pos: int,
    min_len: int,
    depth: nat,
) -> bool {
    let nodes = m.candidates(b, s, pos, depth);
    exists|k: int| 0 <= k < nodes.len() && match_len_at(b, s, pos, #[trigger] nodes[k]) >= min_len
}

/// All slots of a chain hold positions in front of `limit`.
proof fn lemma_chain(m: MatcherView, b: BucketView, node: int, limit: int, depth: nat)
    requires
        0 <= node,
    ensures
        forall|k: int|
            0 <= k < m.chain(b, node, limit, depth).len() ==> {
                let x = #[trigger] m.chain(b, node, limit, depth)[k];
                0 <= x < LZ_MF_BUCKET_ITEM_SIZE && 0 < b.items[x].pos < limit
            },
    decreases depth,
{
    let c = m.chain(b, node, limit, depth);
    if c.len() > 0 {
        let rest = m.chain(
            b,
            m.nexts[node] as int,
            b.items[node].pos as int,
            (depth - 1) as nat,
        );
        lemma_chain(
            m,
            b,
            m.nexts[node] as int,
            b.items[node].pos as int,
            (depth - 1) as nat,
        );
        assert forall|k: int| 0 <= k < c.len() implies {
            let x = #[trigger] c[k];
            0 <= x < LZ_MF_BUCKET_ITEM_SIZE && 0 < b.items[x].pos < limit
        } by {
            if k > 0 {
                assert(c[k] == rest[k - 1]);
            }
        }
    }
}

proof fn lemma_longest_is_candidate(b: BucketView, s: Seq<u8>, pos: int, nodes: Seq<int>)
    requires
        nodes.len() > 0,
    ensures
        nodes.contains(longest(b, s, pos, nodes)),
    decreases nodes.len(),
{
    if nodes.len() > 1 {
        lemma_longest_is_candidate(b, s, pos, nodes.drop_last());
        let r = longest(b, s, pos, nodes.drop_last());
        let i = choose|i: int| 0 <= i < nodes.drop_last().len() && nodes.drop_last()[i] == r;
        assert(nodes[i] == r);
        assert(nodes[nodes.len() - 1] == nodes.last());
    } else {
        assert(nodes[0] == longest(b, s, pos, nodes));
    }
}

/// No candidate has a longer usable match than the longest one.
pub proof fn law_longest_is_longest(b: BucketView, s: Seq<u8>, pos: int, nodes: Seq<int>, k: int)
    requires
        0 <= k < nodes.len(),
    ensures
        usable_len_at(b, s, pos, nodes[k]) <= usable_len_at(b, s, pos, longest(b, s, pos, nodes)),
    decreases nodes.len(),
{
    if nodes.len() > 1 && k < nodes.len() - 1 {
        law_longest_is_longest(b, s, pos, nodes.drop_last(), k);
    }
}

/// A found match refers to an earlier item of the bucket and repeats its
/// bytes, all of them inside the source.
pub proof fn law_found_match_is_match(m: MatcherView, b: BucketView, s: Seq<u8>, pos: int, depth: nat)
    requires
        m.wf(),
        b.wf(),
        0 <= pos <= s.len(),
        found_match(m, b, s, pos, depth).match_len > 0,
    ensures
        ({
            let r = found_match(m, b, s, pos, depth);
            let ro = r.reduced_offset as int;
            &&& r.reduced_offset < LZ_MF_BUCKET_ITEM_SIZE
            &&& LZ_MATCH_MIN_LEN <= r.match_len <= LZ_MATCH_MAX_LEN
            &&& pos + r.match_len <= s.len()
            &&& r.match_len_expected == b.len_expected(ro)
            &&& r.match_len_min == b.len_min(ro) <= r.match_len
            &&& 0 < b.match_pos(ro) < pos
            &&& forall|i: int| 0 <= i < r.match_len ==> #[trigger] repeats_at(s, b.match_pos(ro), pos, i)
        }),
{
    let nodes = m.candidates(b, s, pos, depth);
    let best = longest(b, s, pos, nodes);
    lemma_chain(m, b, m.heads[hash4(s, pos)] as int, pos, depth);
    lemma_longest_is_candidate(b, s, pos, nodes);
    lemma_common_len(s, b.items[best].pos as int, pos, LZ_MATCH_MAX_LEN as int);
    let ro = b.reduced_offset(best);
    assert(b.node(ro) == best);
}

/// The common length is at least `len` exactly when as many bytes are equal, it
/// is within the limit, and both runs are inside the source.
pub proof fn law_common_len(s: Seq<u8>, p: int, q: int, n: int, len: int)
    requires
        0 <= p < q <= s.len(),
        0 <= n,
        0 <= len,
    ensures
        common_len(s, p, q, n) >= len <==> len <= n && q + len <= s.len() && (forall|i: int|
            0 <= i < len ==> #[trigger] repeats_at(s, p, q, i)),
    decreases n,
{
    lemma_common_len(s, p, q, n);
    if len > 0 {
        if n > 0 && q < s.len() && s[p] == s[q] {
            law_common_len(s, p + 1, q + 1, n - 1, len - 1);
            if forall|i: int| 0 <= i < len ==> #[trigger] repeats_at(s, p, q, i) {
                assert forall|i: int| 0 <= i < len - 1 implies #[trigger] repeats_at(s, p + 1, q + 1, i) by {
                    assert(repeats_at(s, p, q, i + 1));
                }
            }
        } else if n > 0 && q < s.len() {
            assert(!repeats_at(s, p, q, 0));
        }
    }
}

/// The slots and the reduced offsets stand for each other.
pub proof fn law_slots(b: BucketView, x: int)
    requires
        b.wf(),
        0 <= x < LZ_MF_BUCKET_ITEM_SIZE,
    ensures
        0 <= b.node(x) < LZ_MF_BUCKET_ITEM_SIZE,
        b.reduced_offset(b.node(x)) == x,
        b.node(b.reduced_offset(x)) == x,
        b.node(0) == b.head,
{
}

/// The candidates at a position are items at earlier positions, from later to
/// earlier ones, and at most as many as the depth says.
pub proof fn law_candidates(m: MatcherView, b: BucketView, s: Seq<u8>, pos: int, depth: nat)
    ensures
        ({
            let nodes = m.candidates(b, s, pos, depth);
            &&& nodes.len() <= depth
            &&& pos + 4 > s.len() ==> nodes.len() == 0
            &&& forall|k: int|
                0 <= k < nodes.len() ==> 0 <= (#[trigger] nodes[k]) < LZ_MF_BUCKET_ITEM_SIZE && 0
                    < b.items[nodes[k]].pos < pos
            &&& forall|j: int, k: int|
                #![trigger nodes[j], nodes[k]]
                0 <= j < k < nodes.len() ==> b.items[nodes[k]].pos < b.items[nodes[j]].pos
        }),
{
    if pos + 4 <= s.len() {
        lemma_chain(m, b, m.heads[hash4(s, pos)] as int, pos, depth);
        lemma_chain_descends(m, b, m.heads[hash4(s, pos)] as int, pos, depth);
    }
}

proof fn lemma_chain_descends(m: MatcherView, b: BucketView, node: int, limit: int, depth: nat)
    requires
        0 <= node,
    ensures
        m.chain(b, node, limit, depth).len() <= depth,
        forall|j: int, k: int|
            #![trigger m.chain(b, node, limit, depth)[j], m.chain(b, node, limit, depth)[k]]
            0 <= j < k < m.chain(b, node, limit, depth).len() ==> b.items[m.chain(
                b,
                node,
                limit,
                depth,
            )[k]].pos < b.items[m.chain(b, node, limit, depth)[j]].pos,
    decreases depth,
{
    let c = m.chain(b, node, limit, depth);
    if c.len() > 0 {
        let next = m.nexts[node] as int;
        let below = b.items[node].pos as int;
        let rest = m.chain(b, next, below, (depth - 1) as nat);
        lemma_chain_descends(m, b, next, below, (depth - 1) as nat);
        lemma_chain(m, b, next, below, (depth - 1) as nat);
        assert forall|j: int, k: int|
            #![trigger c[j], c[k]]
            0 <= j < k < c.len() implies b.items[c[k]].pos < b.items[c[j]].pos by {
            assert(c[k] == rest[k - 1]);
            if j > 0 {
                assert(c[j] == rest[j - 1]);
            }
        }
    }
}

/// A chain does not change below the position of a slot whose link changed.
proof fn lemma_chain_kept(m: MatcherView, n: MatcherView, b: BucketView, node: int, limit: int, depth: nat)
    requires
        m.wf(),
        n.wf(),
        0 <= node,
        0 <= b.head < LZ_MF_BUCKET_ITEM_SIZE,
        forall|k: int| 0 <= k < LZ_MF_BUCKET_ITEM_SIZE && k != b.head ==> (#[trigger] n.nexts[k]) == m.nexts[k],
        limit <= b.items[b.head].pos,
    ensures
        n.chain(b, node, limit, depth) == m.chain(b, node, limit, depth),
    decreases depth,
{
    if !(depth == 0 || node >= LZ_MF_BUCKET_ITEM_SIZE || b.items[node].pos == 0 || b.items[node].pos >= limit) {
        assert(node != b.head);
        assert(n.nexts[node] == m.nexts[node]);
        lemma_chain_kept(m, n, b, m.nexts[node] as int, b.items[node].pos as int, (depth - 1) as nat);
    }
}

/// What was entered last is found first: once the newest item of a bucket was
/// entered at `pos`, it is the first candidate wherever its four bytes come
/// again, and the others are those that there were at `pos`.
pub proof fn law_entered_is_candidate(
    m: MatcherView,
    b: BucketView,
    s: Seq<u8>,
    pos: int,
    q: int,
    depth: nat,
)
    requires
        m.wf(),
        b.wf(),
        0 < pos < q,
        q + 4 <= s.len(),
        b.items[b.head].pos == pos,
        s[pos] == s[q],
        s[pos + 1] == s[q + 1],
        s[pos + 2] == s[q + 2],
        s[pos + 3] == s[q + 3],
        depth > 0,
    ensures
        m.updated(b, s, pos).candidates(b, s, q, depth) == seq![b.head] + m.candidates(
            b,
            s,
            pos,
            (depth - 1) as nat,
        ),
{
    let n = m.updated(b, s, pos);
    let h = hash4(s, pos);
    assert(h == hash4(s, q));
    assert(n.heads[h] == b.head);
    assert(n.nexts[b.head] == m.heads[h]);
    lemma_chain_kept(m, n, b, m.heads[h] as int, pos, (depth - 1) as nat);
    assert(n.chain(b, b.head, q, depth) == seq![b.head] + n.chain(
        b,
        m.heads[h] as int,
        pos,
        (depth - 1) as nat,
    ));
}

/// The hash of four bytes.
pub proof fn law_hash4(s: Seq<u8>, pos: int)
    ensures
        hash4(s, pos) == (s[pos] + 31 * s[pos + 1] + 31 * 31 * s[pos + 2] + 31 * 31 * 31 * s[pos + 3]) % 4096,
{
}

proof fn lemma_other_chain_kept(
    m: MatcherView,
    n: MatcherView,
    b: BucketView,
    node: int,
    limit: int,
    depth: nat,
)
    requires
        m.wf(),
        n.wf(),
        0 <= node,
        forall|k: int| 0 <= k < LZ_MF_BUCKET_ITEM_SIZE && k != b.head ==> (#[trigger] n.nexts[k]) == m.nexts[k],
        !m.chain(b, node, limit, depth).contains(b.head),
    ensures
        n.chain(b, node, limit, depth) == m.chain(b, node, limit, depth),
    decreases depth,
{
    let c = m.chain(b, node, limit, depth);
    if c.len() > 0 {
        let next = m.nexts[node] as int;
        let below = b.items[node].pos as int;
        let rest = m.chain(b, next, below, (depth - 1) as nat);
        assert(c[0] == node);
        assert(n.nexts[node] == m.nexts[node]);
        assert(!rest.contains(b.head)) by {
            if rest.contains(b.head) {
                let i = choose|i: int| 0 <= i < rest.len() && rest[i] == b.head;
                assert(c[i + 1] == b.head);
            }
        }
        lemma_other_chain_kept(m, n, b, next, below, (depth - 1) as nat);
    }
}

/// Entering a position changes nothing for four bytes of another hash, unless
/// the slot that is used again was one of their candidates, and nothing at all
/// where fewer than four bytes are left.
pub proof fn law_other_candidates_kept(
    m: MatcherView,
    b: BucketView,
    s: Seq<u8>,
    pos: int,
    q: int,
    depth: nat,
)
    requires
        m.wf(),
        b.wf(),
        0 <= pos <= s.len(),
        pos + 4 <= s.len() ==> hash4(s, q) != hash4(s, pos),
        0 <= q,
        !m.candidates(b, s, q, depth).contains(b.head),
    ensures
        m.updated(b, s, pos).candidates(b, s, q, depth) == m.candidates(b, s, q, depth),
{
    let n = m.updated(b, s, pos);
    if q + 4 <= s.len() {
        assert(n.heads[hash4(s, q)] == m.heads[hash4(s, q)]);
        lemma_other_chain_kept(m, n, b, m.heads[hash4(s, q)] as int, q, depth);
    }
}

proof fn lemma_longest_is_first(b: BucketView, s: Seq<u8>, pos: int, nodes: Seq<int>) -> (j: int)
    requires
        nodes.len() > 0,
    ensures
        0 <= j < nodes.len(),
        nodes[j] == longest(b, s, pos, nodes),
        forall|k: int|
            0 <= k < j ==> usable_len_at(b, s, pos, #[trigger] nodes[k]) < usable_len_at(b, s, pos, nodes[j]),
    decreases nodes.len(),
{
    if nodes.len() == 1 {
        0
    } else {
        let front = nodes.drop_last();
        let j = lemma_longest_is_first(b, s, pos, front);
        let last = nodes.len() - 1;
        if usable_len_at(b, s, pos, nodes[last]) > usable_len_at(b, s, pos, front[j]) {
            assert forall|k: int| 0 <= k < last implies usable_len_at(b, s, pos, #[trigger] nodes[k])
                < usable_len_at(b, s, pos, nodes[last]) by {
                law_longest_is_longest(b, s, pos, front, k);
                assert(front[k] == nodes[k]);
            }
            last
        } else {
            assert forall|k: int| 0 <= k < j implies usable_len_at(b, s, pos, #[trigger] nodes[k])
                < usable_len_at(b, s, pos, nodes[j]) by {
                assert(front[k] == nodes[k]);
            }
            j
        }
    }
}

/// The `len` bytes at `pos` repeat those of the item in slot `node`.
pub open spec fn is_run(b: BucketView, s: Seq<u8>, pos: int, node: int, len: int) -> bool {
    &&& len <= LZ_MATCH_MAX_LEN
    &&& pos + len <= s.len()
    &&& forall|i: int| 0 <= i < len ==> #[trigger] repeats_at(s, b.items[node].pos as int, pos, i)
}

/// The `len` bytes at `pos` repeat those of the item in slot `node`, and a match
/// with that item may be that short.
pub open spec fn good_run(b: BucketView, s: Seq<u8>, pos: int, node: int, len: int) -> bool {
    b.items[node].len_min <= len && is_run(b, s, pos, node, len)
}

/// The match that is found is the longest one: no candidate has a good run that
/// is longer, it is a good run of one of the candidates, and no earlier
/// candidate has as long a run. Nothing is found only where no candidate has a
/// good run.
pub proof fn law_found_match_is_longest(
    m: MatcherView,
    b: BucketView,
    s: Seq<u8>,
    pos: int,
    depth: nat,
)
    requires
        m.wf(),
        b.wf(),
        0 <= pos <= s.len(),
    ensures
        ({
            let nodes = m.candidates(b, s, pos, depth);
            let r = found_match(m, b, s, pos, depth);
            &&& forall|k: int, len: int|
                0 <= k < nodes.len() && #[trigger] good_run(b, s, pos, nodes[k], len) ==> len <= r.match_len
            &&& r.match_len > 0 ==> exists|j: int| #![trigger nodes[j]]
                {
                    &&& 0 <= j < nodes.len()
                    &&& b.node(r.reduced_offset as int) == nodes[j]
                    &&& good_run(b, s, pos, nodes[j], r.match_len as int)
                    &&& forall|k: int| 0 <= k < j ==> !good_run(b, s, pos, #[trigger] nodes[k], r.match_len as int)
                }
        }),
{
    let nodes = m.candidates(b, s, pos, depth);
    let r = found_match(m, b, s, pos, depth);
    law_candidates(m, b, s, pos, depth);
    assert forall|k: int, len: int|
        0 <= k < nodes.len() && #[trigger] good_run(b, s, pos, nodes[k], len) implies len <= r.match_len by {
        let x = nodes[k];
        assert(b.items[x].wf());
        law_common_len(s, b.items[x].pos as int, pos, LZ_MATCH_MAX_LEN as int, len);
        law_longest_is_longest(b, s, pos, nodes, k);
        let best = longest(b, s, pos, nodes);
        let j = lemma_longest_is_first(b, s, pos, nodes);
        lemma_common_len(s, b.items[best].pos as int, pos, LZ_MATCH_MAX_LEN as int);
    }
    if r.match_len > 0 {
        law_found_match_is_match(m, b, s, pos, depth);
        let j = lemma_longest_is_first(b, s, pos, nodes);
        let best = nodes[j];
        lemma_common_len(s, b.items[best].pos as int, pos, LZ_MATCH_MAX_LEN as int);
        assert(b.node(r.reduced_offset as int) == best);
        assert forall|k: int| 0 <= k < j implies !good_run(
            b,
            s,
            pos,
            #[trigger] nodes[k],
            r.match_len as int,
        ) by {
            law_common_len(
                s,
                b.items[nodes[k]].pos as int,
                pos,
                LZ_MATCH_MAX_LEN as int,
                r.match_len as int,
            );
        }
        assert(good_run(b, s, pos, nodes[j], r.match_len as int));
    }
}

/// There is a lazy match exactly when one of the candidates is repeated for at
/// least `min_len` bytes, whatever length a match with it should have.
pub proof fn law_lazy_match(
    m: MatcherView,
    b: BucketView,
    s: Seq<u8>,
    pos: int,
    min_len: int,
    depth: nat,
)
    requires
        0 <= pos <= s.len(),
        0 <= min_len,
    ensures
        ({
            let nodes = m.candidates(b, s, pos, depth);
            lazy_match_exists(m, b, s, pos, min_len, depth) <==> exists|k: int|
                0 <= k < nodes.len() && is_run(b, s, pos, #[trigger] nodes[k], min_len)
        }),
{
    let nodes = m.candidates(b, s, pos, depth);
    law_candidates(m, b, s, pos, depth);
    assert forall|k: int| 0 <= k < nodes.len() implies (match_len_at(b, s, pos, #[trigger] nodes[k]) >= min_len
        <==> is_run(b, s, pos, nodes[k], min_len)) by {
        law_common_len(s, b.items[nodes[k]].pos as int, pos, LZ_MATCH_MAX_LEN as int, min_len);
    }
}

/// A repetition that was entered last is found: at a later position with the
/// same bytes, the match is at least as long as they are.
pub proof fn law_repetition_found(
    m: MatcherView,
    b: BucketView,
    s: Seq<u8>,
    pos: int,
    q: int,
    len: int,
    depth: nat,
)
    requires
        m.wf(),
        b.wf(),
        0 < pos < q,
        b.items[b.head].pos == pos,
        4 <= b.items[b.head].len_min <= len <= LZ_MATCH_MAX_LEN,
        q + len <= s.len(),
        forall|i: int| 0 <= i < len ==> #[trigger] repeats_at(s, pos, q, i),
        depth > 0,
    ensures
        found_match(m.updated(b, s, pos), b, s, q, depth).match_len >= len,
        lazy_match_exists(m.updated(b, s, pos), b, s, q, len, depth),
{
    let n = m.updated(b, s, pos);
    assert(repeats_at(s, pos, q, 0));
    assert(repeats_at(s, pos, q, 1));
    assert(repeats_at(s, pos, q, 2));
    assert(repeats_at(s, pos, q, 3));
    law_entered_is_candidate(m, b, s, pos, q, depth);
    let nodes = n.candidates(b, s, q, depth);
    assert(nodes[0] == b.head);
    assert(good_run(b, s, q, nodes[0], len));
    law_found_match_is_longest(n, b, s, q, depth);
    law_lazy_match(n, b, s, q, len, depth);
}

/// Moving the source by `n` bytes moves every item by as much. Those that would
/// fall off, and those at the new start, are at zero.
pub proof fn law_bucket_forwarded(b: BucketView, n: int, r: int)
    requires
        b.wf(),
        0 <= n,
        0 <= r < LZ_MF_BUCKET_ITEM_SIZE,
    ensures
        b.forwarded(n).head == b.head,
        b.match_pos(r) >= n ==> b.forwarded(n).match_pos(r) == b.match_pos(r) - n,
        b.match_pos(r) < n ==> b.forwarded(n).match_pos(r) == 0,
        b.forwarded(n).len_expected(r) == b.len_expected(r),
        b.forwarded(n).len_min(r) == b.len_min(r),
{
    law_slots(b, r);
}

proof fn lemma_forwarded_chain(
    m: MatcherView,
    b: BucketView,
    node: int,
    limit: int,
    depth: nat,
    n: int,
)
    requires
        m.wf(),
        b.wf(),
        0 <= n,
        0 <= node,
    ensures
        ({
            let old = m.chain(b, node, limit, depth);
            let new = m.forwarded(b.forwarded(n)).chain(
                b.forwarded(n),
                if node < LZ_MF_BUCKET_ITEM_SIZE {
                    MatcherView::live(b.forwarded(n), node as u16) as int
                } else {
                    node
                },
                limit - n,
                depth,
            );
            &&& new.len() <= old.len()
            &&& new == old.take(new.len() as int)
            &&& forall|k: int| 0 <= k < new.len() ==> b.items[#[trigger] old[k]].pos > n
            &&& forall|k: int| new.len() <= k < old.len() ==> b.items[#[trigger] old[k]].pos <= n
        }),
    decreases depth,
{
    let b1 = b.forwarded(n);
    let m1 = m.forwarded(b1);
    let c = m.chain(b, node, limit, depth);
    let live = if node < LZ_MF_BUCKET_ITEM_SIZE {
        MatcherView::live(b1, node as u16) as int
    } else {
        node
    };
    let c1 = m1.chain(b1, live, limit - n, depth);
    if c.len() == 0 {
        assert(c1.len() == 0);
        assert(c1 =~= c.take(0));
    } else {
        let next = m.nexts[node] as int;
        let below = b.items[node].pos as int;
        let rest = m.chain(b, next, below, (depth - 1) as nat);
        assert(c == seq![node] + rest);
        if below > n {
            assert(b1.items[node].pos == below - n);
            assert(live == node);
            lemma_forwarded_chain(m, b, next, below, (depth - 1) as nat, n);
            let next1 = m1.nexts[node] as int;
            assert(next1 == MatcherView::live(b1, m.nexts[node]));
            let rest1 = m1.chain(b1, next1, below - n, (depth - 1) as nat);
            assert(c1 == seq![node] + rest1);
            if next >= LZ_MF_BUCKET_ITEM_SIZE {
                assert(rest1.len() == 0);
                assert(rest.len() == 0);
            }
            assert(c1 =~= c.take(c1.len() as int));
            assert forall|k: int| 0 <= k < c1.len() implies b.items[#[trigger] c[k]].pos > n by {
                if k > 0 {
                    assert(c[k] == rest[k - 1]);
                }
            }
            assert forall|k: int| c1.len() <= k < c.len() implies b.items[#[trigger] c[k]].pos <= n by {
                assert(c[k] == rest[k - 1]);
            }
        } else {
            assert(b1.items[node].pos == 0);
            assert(c1.len() == 0);
            assert(c1 =~= c.take(0));
            lemma_chain(m, b, next, below, (depth - 1) as nat);
            assert forall|k: int| 0 <= k < c.len() implies b.items[#[trigger] c[k]].pos <= n by {
                if k > 0 {
                    assert(c[k] == rest[k - 1]);
                }
            }
        }
    }
}

proof fn lemma_moved_common_len(s: Seq<u8>, p: int, q: int, max: int, n: int)
    requires
        0 <= n <= p < q <= s.len(),
    ensures
        common_len(s.skip(n), p - n, q - n, max) == common_len(s, p, q, max),
    decreases max,
{
    if !(max <= 0 || q >= s.len() || s[p] != s[q]) {
        lemma_moved_common_len(s, p + 1, q + 1, max - 1, n);
    }
}

/// Moving the source keeps what can be found: of the candidates at a position,
/// those that stay behind the new start are still candidates at the moved
/// position, in the same order, and each one has the same match there.
pub proof fn law_forward_keeps_candidates(
    m: MatcherView,
    b: BucketView,
    s: Seq<u8>,
    pos: int,
    depth: nat,
    n: int,
)
    requires
        m.wf(),
        b.wf(),
        0 <= n <= pos <= s.len(),
    ensures
        ({
            let old = m.candidates(b, s, pos, depth);
            let new = m.forwarded(b.forwarded(n)).candidates(b.forwarded(n), s.skip(n), pos - n, depth);
            &&& new.len() <= old.len()
            &&& forall|k: int| 0 <= k < new.len() ==> (#[trigger] new[k]) == old[k]
            &&& forall|k: int|
                0 <= k < old.len() ==> (k < new.len() <==> b.items[#[trigger] old[k]].pos > n)
            &&& forall|k: int|
                0 <= k < new.len() ==> match_len_at(b.forwarded(n), s.skip(n), pos - n, #[trigger] new[k])
                    == match_len_at(b, s, pos, old[k])
        }),
{
    let b1 = b.forwarded(n);
    let m1 = m.forwarded(b1);
    let old = m.candidates(b, s, pos, depth);
    let new = m1.candidates(b1, s.skip(n), pos - n, depth);
    if pos + 4 <= s.len() {
        let h = hash4(s, pos);
        assert(hash4(s.skip(n), pos - n) == h);
        let node = m.heads[h];
        lemma_forwarded_chain(m, b, node as int, pos, depth, n);
        assert(m1.heads[h] == MatcherView::live(b1, node));
        if node >= LZ_MF_BUCKET_ITEM_SIZE {
            assert(new.len() == 0);
        }
        lemma_chain(m, b, node as int, pos, depth);
        assert forall|k: int| 0 <= k < new.len() implies match_len_at(
            b1,
            s.skip(n),
            pos - n,
            #[trigger] new[k],
        ) == match_len_at(b, s, pos, old[k]) by {
            let x = old[k];
            assert(new[k] == x);
            lemma_moved_common_len(s, b.items[x].pos as int, pos, LZ_MATCH_MAX_LEN as int, n);
        }
    }
}

proof fn lemma_same_longest(b: BucketView, s: Seq<u8>, pos: int, b1: BucketView, s1: Seq<u8>, pos1: int, nodes: Seq<int>)
    requires
        nodes.len() > 0,
        forall|k: int|
            0 <= k < nodes.len() ==> usable_len_at(b, s, pos, #[trigger] nodes[k]) == usable_len_at(
                b1,
                s1,
                pos1,
                nodes[k],
            ),
    ensures
        longest(b, s, pos, nodes) == longest(b1, s1, pos1, nodes),
    decreases nodes.len(),
{
    if nodes.len() > 1 {
        let front = nodes.drop_last();
        assert forall|k: int| 0 <= k < front.len() implies usable_len_at(b, s, pos, #[trigger] front[k])
            == usable_len_at(b1, s1, pos1, front[k]) by {
            assert(front[k] == nodes[k]);
        }
        lemma_same_longest(b, s, pos, b1, s1, pos1, front);
        lemma_longest_is_candidate(b, s, pos, front);
        let r = longest(b, s, pos, front);
        let i = choose|i: int| 0 <= i < front.len() && front[i] == r;
        assert(nodes[i] == r);
        assert(nodes[nodes.len() - 1] == nodes.last());
    }
}

/// Where all candidates stay behind the new start, the same match is found at
/// the moved position.
pub proof fn law_forward_keeps_match(
    m: MatcherView,
    b: BucketView,
    s: Seq<u8>,
    pos: int,
    depth: nat,
    n: int,
)
    requires
        m.wf(),
        b.wf(),
        0 <= n <= pos <= s.len(),
        forall|k: int|
            0 <= k < m.candidates(b, s, pos, depth).len() ==> b.items[#[trigger] m.candidates(
                b,
                s,
                pos,
                depth,
            )[k]].pos > n,
    ensures
        found_match(m.forwarded(b.forwarded(n)), b.forwarded(n), s.skip(n), pos - n, depth)
            == found_match(m, b, s, pos, depth),
{
    let b1 = b.forwarded(n);
    let old = m.candidates(b, s, pos, depth);
    let new = m.forwarded(b1).candidates(b1, s.skip(n), pos - n, depth);
    law_forward_keeps_candidates(m, b, s, pos, depth, n);
    assert(new.len() == old.len()) by {
        if new.len() < old.len() {
            assert(b.items[old[new.len() as int]].pos > n);
        }
    }
    assert(new =~= old);
    law_candidates(m, b, s, pos, depth);
    if old.len() > 0 {
        assert forall|k: int| 0 <= k < old.len() implies usable_len_at(b, s, pos, #[trigger] old[k])
            == usable_len_at(b1, s.skip(n), pos - n, old[k]) by {
            assert(new[k] == old[k]);
        }
        lemma_same_longest(b, s, pos, b1, s.skip(n), pos - n, old);
        lemma_longest_is_candidate(b, s, pos, old);
        let r = longest(b, s, pos, old);
        let i = choose|i: int| 0 <= i < old.len() && old[i] == r;
        assert(old[i] == r);
    }
}

fn count_common(s: &[u8], p: usize, q: usize) -> (n: usize)
    requires
        p < q <= s@.len(),
    ensures
        n == common_len(s@, p as int, q as int, LZ_MATCH_MAX_LEN as int),
{
    let mut n: usize = 0;
    while n < LZ_MATCH_MAX_LEN && n < s.len() - q && s[p + n] == s[q + n]
        invariant
            p < q <= s@.len(),
            n <= LZ_MATCH_MAX_LEN,
            q + n <= s@.len(),
            common_len(s@, p as int, q as int, LZ_MATCH_MAX_LEN as int) == n + common_len(
                s@,
                p + n,
                q + n,
                LZ_MATCH_MAX_LEN - n,
            ),
        decreases LZ_MATCH_MAX_LEN - n,
    {
        n = n + 1;
    }
    n
}

fn compute_hash4(s: &[u8], pos: usize) -> (h: usize)
    requires
        pos + 4 <= s@.len(),
    ensures
        h == hash4(s@, pos as int),
        h < CHAIN_COUNT,
{
    let x: u32 = s[pos] as u32 + 31 * s[pos + 1] as u32 + 961 * s[pos + 2] as u32 + 29791 * s[pos
        + 3] as u32;
    (x % CHAIN_COUNT as u32) as usize
}

/// Hash chains through the items of a bucket.
pub struct BucketMatcher {
    heads: Vec<u16>,
    nexts: Vec<u16>,
}

impl View for BucketMatcher {
    type V = MatcherView;

    closed spec fn view(&self) -> MatcherView {
        MatcherView { heads: self.heads@, nexts: self.nexts@ }
    }
}

fn no_nodes(n: usize) -> (v: Vec<u16>)
    ensures
        v@ == Seq::new(n as nat, |i: int| NO_NODE),
{
    let mut v: Vec<u16> = Vec::new();
    let mut i: usize = 0;
    while i < n
        invariant
            i <= n,
            v@.len() == i,
            forall|k: int| 0 <= k < i ==> v@[k] == NO_NODE,
        decreases n - i,
    {
        v.push(NO_NODE);
        i = i + 1;
    }
    assert(v@ =~= Seq::new(n as nat, |i: int| NO_NODE));
    v
}

impl Default for BucketMatcher {
    fn default() -> (matcher: BucketMatcher)
        ensures
            matcher@ == MatcherView::empty(),
            matcher@.wf(),
    {
        BucketMatcher { heads: no_nodes(CHAIN_COUNT), nexts: no_nodes(LZ_MF_BUCKET_ITEM_SIZE) }
    }
}

fn keep_live(nodes: &mut Vec<u16>, bucket: &Bucket)
    requires
        bucket@.wf(),
    ensures
        final(nodes)@ == old(nodes)@.map_values(|x: u16| MatcherView::live(bucket@, x)),
{
    let mut i: usize = 0;
    while i < nodes.len()
        invariant
            i <= nodes@.len(),
            bucket@.wf(),
            nodes@.len() == old(nodes)@.len(),
            forall|k: int| 0 <= k < i ==> nodes@[k] == MatcherView::live(bucket@, old(nodes)@[k]),
            forall|k: int| i <= k < nodes@.len() ==> nodes@[k] == old(nodes)@[k],
        decreases nodes@.len() - i,
    {
        let node: u16 = nodes[i];
        if node as usize >= LZ_MF_BUCKET_ITEM_SIZE || bucket.items[node as usize].pos == 0 {
            nodes[i] = NO_NODE;
        }
        i = i + 1;
    }
    assert(nodes@ =~= old(nodes)@.map_values(|x: u16| MatcherView::live(bucket@, x)));
}

impl BucketMatcher {
    /// Enters the newest item of `bucket`, which is at `pos`.
    pub fn update(&mut self, bucket: &Bucket, buf: &[u8], pos: usize)
        requires
            old(self)@.wf(),
            bucket@.wf(),
            pos <= buf@.len(),
        ensures
            final(self)@ == old(self)@.updated(bucket@, buf@, pos as int),
            final(self)@.wf(),
    {
        if buf.len() - pos >= 4 {
            let h: usize = compute_hash4(buf, pos);
            let next: u16 = self.heads[h];
            self.nexts[bucket.head as usize] = next;
            self.heads[h] = bucket.head;
        } else {
            self.nexts[bucket.head as usize] = NO_NODE;
        }
        assert(self@ =~= old(self)@.updated(bucket@, buf@, pos as int));
    }

    /// Drops the items that are empty in `bucket`.
    pub fn forward(&mut self, bucket: &Bucket)
        requires
            old(self)@.wf(),
            bucket@.wf(),
        ensures
            final(self)@ == old(self)@.forwarded(bucket@),
            final(self)@.wf(),
    {
        keep_live(&mut self.heads, bucket);
        keep_live(&mut self.nexts, bucket);
    }

    /// Finds the longest match at `pos` among the `match_depth` latest items
    /// of its chain.
    pub fn find_match(&self, bucket: &Bucket, buf: &[u8], pos: usize, match_depth: usize) -> (r:
        MatchResult)
        requires
            self@.wf(),
            bucket@.wf(),
            pos <= buf@.len(),
        ensures
            r == found_match(self@, bucket@, buf@, pos as int, match_depth as nat),
    {
        let none = MatchResult {
            reduced_offset: 0,
            match_len: 0,
            match_len_expected: 0,
            match_len_min: 0,
        };
        if buf.len() - pos < 4 {
            return none;
        }
        let mut node: u16 = self.heads[compute_hash4(buf, pos)];
        let mut limit: usize = pos;
        let mut depth: usize = match_depth;
        let mut best: u16 = NO_NODE;
        let mut best_len: usize = 0;
        let ghost mut seen: Seq<int> = Seq::empty();
        let ghost all = self@.candidates(bucket@, buf@, pos as int, match_depth as nat);
        assert(all =~= seen + self@.chain(bucket@, node as int, limit as int, depth as nat));
        while depth > 0 && (node as usize) < LZ_MF_BUCKET_ITEM_SIZE && bucket.items[node as usize].pos
            != 0 && bucket.items[node as usize].pos < limit
            invariant
                self@.wf(),
                bucket@.wf(),
                limit <= pos <= buf@.len(),
                all == seen + self@.chain(bucket@, node as int, limit as int, depth as nat),
                seen.len() == 0 ==> best == NO_NODE && best_len == 0,
                seen.len() > 0 ==> {
                    &&& best == longest(bucket@, buf@, pos as int, seen)
                    &&& best_len == usable_len_at(bucket@, buf@, pos as int, best as int)
                    &&& best < LZ_MF_BUCKET_ITEM_SIZE
                },
            decreases depth,
        {
            let node_pos: usize = bucket.items[node as usize].pos;
            let common: usize = count_common(buf, node_pos, pos);
            let len: usize = if common >= bucket.items[node as usize].len_min {
                common
            } else {
                0
            };
            proof {
                let next = self@.chain(
                    bucket@,
                    self@.nexts[node as int] as int,
                    node_pos as int,
                    (depth - 1) as nat,
                );
                assert(all =~= seen.push(node as int) + next);
                assert(seen.push(node as int).drop_last() =~= seen);
                seen = seen.push(node as int);
            }
            if best == NO_NODE || len > best_len {
                best = node;
                best_len = len;
            }
            limit = node_pos;
            node = self.nexts[node as usize];
            depth = depth - 1;
        }
        assert(all =~= seen);
        if best_len > 0 {
            let size: usize = LZ_MF_BUCKET_ITEM_SIZE;
            MatchResult {
                reduced_offset: ((bucket.head as usize + size - best as usize) % size) as u16,
                match_len: best_len,
                match_len_expected: bucket.items[best as usize].len_expected,
                match_len_min: bucket.items[best as usize].len_min,
            }
        } else {
            none
        }
    }

    /// Tells whether one of the `match_depth` latest items of the chain at
    /// `pos` matches at least `min_match_len` bytes.
    pub fn has_lazy_match(
        &self,
        bucket: &Bucket,
        buf: &[u8],
        pos: usize,
        min_match_len: usize,
        match_depth: usize,
    ) -> (r: bool)
        requires
            self@.wf(),
            bucket@.wf(),
            pos <= buf@.len(),
        ensures
            r == lazy_match_exists(
                self@,
                bucket@,
                buf@,
                pos as int,
                min_match_len as int,
                match_depth as nat,
            ),
    {
        if buf.len() - pos < 4 {
            return false;
        }
        let mut node: u16 = self.heads[compute_hash4(buf, pos)];
        let mut limit: usize = pos;
        let mut depth: usize = match_depth;
        let ghost mut seen: Seq<int> = Seq::empty();
        let ghost all = self@.candidates(bucket@, buf@, pos as int, match_depth as nat);
        assert(all =~= seen + self@.chain(bucket@, node as int, limit as int, depth as nat));
        while depth > 0 && (node as usize) < LZ_MF_BUCKET_ITEM_SIZE && bucket.items[node as usize].pos
            != 0 && bucket.items[node as usize].pos < limit
            invariant
                self@.wf(),
                bucket@.wf(),
                limit <= pos <= buf@.len(),
                all == self@.candidates(bucket@, buf@, pos as int, match_depth as nat),
                all == seen + self@.chain(bucket@, node as int, limit as int, depth as nat),
                forall|k: int|
                    0 <= k < seen.len() ==> match_len_at(bucket@, buf@, pos as int, #[trigger] seen[k])
                        < min_match_len,
            decreases depth,
        {
            let node_pos: usize = bucket.items[node as usize].pos;
            let len: usize = count_common(buf, node_pos, pos);
            proof {
                let next = self@.chain(
                    bucket@,
                    self@.nexts[node as int] as int,
                    node_pos as int,
                    (depth - 1) as nat,
                );
                assert(all =~= seen.push(node as int) + next);
                assert(all[seen.len() as int] == node);
                seen = seen.push(node as int);
            }
            if len >= min_match_len {
                assert(match_len_at(bucket@, buf@, pos as int, all[seen.len() - 1]) >= min_match_len);
                return true;
            }
            limit = node_pos;
            node = self.nexts[node as usize];
            depth = depth - 1;
        }
        assert(all =~= seen);
        false
    }
}

} // verus!
