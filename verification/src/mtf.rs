//! Adaptive symbol ranking: a move-to-front variant that promotes a symbol
//! part of the way instead of all the way to the front.
use vstd::prelude::*;

use crate::consts::MTF_NUM_SYMBOLS;

verus! {

/// The mathematical state of a coder: `vs` lists the symbols by rank, `ixs`
/// gives the rank of each symbol.
#[verifier::ext_equal]
pub struct MTFView {
    pub vs: Seq<u16>,
    pub ixs: Seq<u16>,
}

/// The sequence `s` with the elements at `a` and `b` exchanged.
pub open spec fn swapped(s: Seq<u16>, a: int, b: int) -> Seq<u16> {
    s.update(a, s[b]).update(b, s[a])
}

/// The rank that a symbol at rank `i` is promoted to.
pub open spec fn next_rank(i: int) -> int {
    i * 3 / 5
}

impl MTFView {
    /// Both tables have full length and hold only symbols and ranks.
    pub open spec fn wf(self) -> bool {
        &&& self.vs.len() == MTF_NUM_SYMBOLS
        &&& self.ixs.len() == MTF_NUM_SYMBOLS
        &&& forall|i: int| 0 <= i < MTF_NUM_SYMBOLS ==> (#[trigger] self.vs[i]) < MTF_NUM_SYMBOLS
        &&& forall|v: int| 0 <= v < MTF_NUM_SYMBOLS ==> (#[trigger] self.ixs[v]) < MTF_NUM_SYMBOLS
    }

    /// The two tables are inverse permutations of each other.
    pub open spec fn is_permutation(self) -> bool {
        &&& self.wf()
        &&& forall|i: int| 0 <= i < MTF_NUM_SYMBOLS ==> self.ixs[(#[trigger] self.vs[i]) as int] == i
        &&& forall|v: int| 0 <= v < MTF_NUM_SYMBOLS ==> self.vs[(#[trigger] self.ixs[v]) as int] == v
    }

    /// Exchanges the symbol `v` at rank `i` with the one at rank `ni`.
    pub open spec fn exchanged(self, v: int, i: int, ni: int) -> MTFView {
        MTFView {
            vs: swapped(self.vs, i, ni),
            ixs: swapped(self.ixs, v, self.vs[ni] as int),
        }
    }

    /// The state after the symbol `v` was seen at rank `i`. A symbol near the
    /// front is promoted in one exchange, one further back in two, by way of
    /// the middle.
    pub open spec fn updated(self, v: int, i: int) -> MTFView {
        let ni1 = next_rank(i);
        if i < 32 {
            self.exchanged(v, i, ni1)
        } else {
            let ni2 = (i + ni1) / 2;
            self.exchanged(v, i, ni2).exchanged(v, ni2, ni1)
        }
    }

    /// The index that codes `v` when `vunlikely` is the least likely symbol:
    /// the rank of `v` once `vunlikely` is moved to the last rank.
    pub open spec fn encoded(self, v: int, vunlikely: int) -> u16 {
        let i = self.ixs[v];
        let iunlikely = self.ixs[vunlikely];
        if i < iunlikely {
            i
        } else if i > iunlikely {
            (i - 1) as u16
        } else {
            (MTF_NUM_SYMBOLS - 1) as u16
        }
    }

    /// The rank that the index `i` stands for when `vunlikely` is the least
    /// likely symbol.
    pub open spec fn decoded_rank(self, i: u16, vunlikely: int) -> u16 {
        let iunlikely = self.ixs[vunlikely];
        if i < iunlikely {
            i
        } else if i < MTF_NUM_SYMBOLS - 1 {
            (i + 1) as u16
        } else {
            iunlikely
        }
    }

    /// The symbol that the index `i` decodes to.
    pub open spec fn decoded(self, i: u16, vunlikely: int) -> u16 {
        self.vs[self.decoded_rank(i, vunlikely) as int]
    }

    /// The state after `v` was encoded.
    pub open spec fn after_encode(self, v: int) -> MTFView {
        self.updated(v, self.ixs[v] as int)
    }

    /// The state after the index `i` was decoded.
    pub open spec fn after_decode(self, i: u16, vunlikely: int) -> MTFView {
        self.updated(self.decoded(i, vunlikely) as int, self.decoded_rank(i, vunlikely) as int)
    }

    /// The rank of `v` in the first `n` entries of `vs`: the last place that
    /// holds `v`, or rank zero when there is none.
    pub open spec fn last_rank(vs: Seq<u16>, n: nat, v: int) -> u16
        decreases n,
    {
        if n == 0 {
            0
        } else if vs[n - 1] == v {
            (n - 1) as u16
        } else {
            Self::last_rank(vs, (n - 1) as nat, v)
        }
    }

    /// The state of a coder made from the symbols in `vs`, by rank.
    pub open spec fn from_vs(vs: Seq<u16>) -> MTFView {
        MTFView {
            vs: vs.take(MTF_NUM_SYMBOLS as int),
            ixs: Seq::new(
                MTF_NUM_SYMBOLS as nat,
                |v: int| Self::last_rank(vs, MTF_NUM_SYMBOLS as nat, v),
            ),
        }
    }
}

/// A symbol ranking coder.
#[derive(Clone, Copy)]
pub struct MTFCoder {
    vs: [u16; MTF_NUM_SYMBOLS],
    ixs: [u16; MTF_NUM_SYMBOLS],
}

impl View for MTFCoder {
    type V = MTFView;

    closed spec fn view(&self) -> MTFView {
        MTFView { vs: self.vs@, ixs: self.ixs@ }
    }
}

fn next_rank_of(i: u16) -> (r: u16)
    requires
        i < MTF_NUM_SYMBOLS,
    ensures
        r == next_rank(i as int),
        r < MTF_NUM_SYMBOLS,
{
    (i as u32 * 3 / 5) as u16
}

impl MTFCoder {
    /// Makes a coder that ranks the symbols in the order of `vs`.
    pub fn from_vs(vs: &[u16]) -> (coder: MTFCoder)
        requires
            vs@.len() >= MTF_NUM_SYMBOLS,
            forall|i: int| 0 <= i < MTF_NUM_SYMBOLS ==> vs@[i] < MTF_NUM_SYMBOLS,
        ensures
            coder@ == MTFView::from_vs(vs@),
            coder@.wf(),
            vs@.take(MTF_NUM_SYMBOLS as int).no_duplicates() ==> coder@.is_permutation(),
            coder@.vs.len() == MTF_NUM_SYMBOLS,
            coder@.ixs.len() == MTF_NUM_SYMBOLS,
            forall|i: int| 0 <= i < MTF_NUM_SYMBOLS ==> (#[trigger] coder@.vs[i]) == vs@[i],
            forall|i: int|
                0 <= i < MTF_NUM_SYMBOLS ==> i <= coder@.ixs[(#[trigger] vs@[i]) as int] && vs@[coder@.ixs[vs@[i] as int] as int]
                    == vs@[i],
            (forall|i: int, j: int| 0 <= i < j < MTF_NUM_SYMBOLS ==> vs@[i] != vs@[j]) ==> forall|i: int|
                0 <= i < MTF_NUM_SYMBOLS ==> coder@.ixs[(#[trigger] vs@[i]) as int] == i,
            forall|v: int|
                0 <= v < MTF_NUM_SYMBOLS && (forall|i: int| 0 <= i < MTF_NUM_SYMBOLS ==> vs@[i] != v) ==> (#[trigger] coder@.ixs[v])
                    == 0,
    {
        let mut mtf_vs: [u16; MTF_NUM_SYMBOLS] = [0u16; MTF_NUM_SYMBOLS];
        let mut mtf_ixs: [u16; MTF_NUM_SYMBOLS] = [0u16; MTF_NUM_SYMBOLS];
        let mut i: usize = 0;
        while i < MTF_NUM_SYMBOLS
            invariant
                i <= MTF_NUM_SYMBOLS,
                vs@.len() >= MTF_NUM_SYMBOLS,
                forall|k: int| 0 <= k < MTF_NUM_SYMBOLS ==> vs@[k] < MTF_NUM_SYMBOLS,
                forall|k: int| 0 <= k < i ==> mtf_vs@[k] == vs@[k],
                forall|v: int| 0 <= v < MTF_NUM_SYMBOLS ==> mtf_ixs@[v] == MTFView::last_rank(vs@, i as nat, v),
                forall|v: int| 0 <= v < MTF_NUM_SYMBOLS ==> mtf_ixs@[v] < MTF_NUM_SYMBOLS,
            decreases MTF_NUM_SYMBOLS - i,
        {
            mtf_vs[i] = vs[i];
            mtf_ixs[vs[i] as usize] = i as u16;
            i = i + 1;
        }
        let coder = MTFCoder { vs: mtf_vs, ixs: mtf_ixs };
        assert(coder@.vs =~= vs@.take(MTF_NUM_SYMBOLS as int));
        assert(coder@.ixs =~= MTFView::from_vs(vs@).ixs);
        proof {
            if vs@.take(MTF_NUM_SYMBOLS as int).no_duplicates() {
                law_from_vs_permutation(vs@);
            }
            law_from_vs_ranks(vs@);
        }
        coder
    }

    /// Encodes the symbol `v`, where `vunlikely` is thought to be the least
    /// likely one, and adapts the ranks.
    pub fn encode(&mut self, v: u16, vunlikely: u16) -> (index: u16)
        requires
            old(self)@.wf(),
            v < MTF_NUM_SYMBOLS,
            vunlikely < MTF_NUM_SYMBOLS,
        ensures
            index == old(self)@.encoded(v as int, vunlikely as int),
            final(self)@ == old(self)@.after_encode(v as int),
            final(self)@.wf(),
            old(self)@.is_permutation() ==> final(self)@.is_permutation(),
            index < MTF_NUM_SYMBOLS,
            old(self)@.ixs[v as int] < old(self)@.ixs[vunlikely as int] ==> index == old(self)@.ixs[v as int],
            old(self)@.ixs[v as int] > old(self)@.ixs[vunlikely as int] ==> index == old(self)@.ixs[v as int] - 1,
            old(self)@.ixs[v as int] == old(self)@.ixs[vunlikely as int] ==> index == MTF_NUM_SYMBOLS - 1,
    {
        let i: u16 = self.ixs[v as usize];
        let iunlikely: u16 = self.ixs[vunlikely as usize];
        assert(self@.ixs[v as int] == i);
        assert(self@.ixs[vunlikely as int] == iunlikely);
        self.update(v, i);
        if i < iunlikely {
            i
        } else if i > iunlikely {
            i - 1
        } else {
            MTF_NUM_SYMBOLS as u16 - 1
        }
    }

    /// Decodes the index `i`, where `vunlikely` is thought to be the least
    /// likely symbol, and adapts the ranks.
    pub fn decode(&mut self, i: u16, vunlikely: u16) -> (v: u16)
        requires
            old(self)@.wf(),
            vunlikely < MTF_NUM_SYMBOLS,
        ensures
            v == old(self)@.decoded(i, vunlikely as int),
            final(self)@ == old(self)@.after_decode(i, vunlikely as int),
            final(self)@.wf(),
            old(self)@.is_permutation() ==> final(self)@.is_permutation(),
            v < MTF_NUM_SYMBOLS,
            i < old(self)@.ixs[vunlikely as int] ==> v == old(self)@.vs[i as int],
            old(self)@.ixs[vunlikely as int] <= i < MTF_NUM_SYMBOLS - 1 ==> v == old(self)@.vs[i + 1],
            i >= MTF_NUM_SYMBOLS - 1 ==> v == old(self)@.vs[old(self)@.ixs[vunlikely as int] as int],
    {
        let iunlikely: u16 = self.ixs[vunlikely as usize];
        assert(self@.ixs[vunlikely as int] == iunlikely);
        let rank: u16 = if i < iunlikely {
            i
        } else if i < MTF_NUM_SYMBOLS as u16 - 1 {
            i + 1
        } else {
            iunlikely
        };
        let v: u16 = self.vs[rank as usize];
        assert(self@.vs[rank as int] == v);
        self.update(v, rank);
        v
    }

    fn exchange(&mut self, v: u16, i: u16, ni: u16)
        requires
            old(self)@.wf(),
            v < MTF_NUM_SYMBOLS,
            i < MTF_NUM_SYMBOLS,
            ni < MTF_NUM_SYMBOLS,
        ensures
            final(self)@ == old(self)@.exchanged(v as int, i as int, ni as int),
            final(self)@.wf(),
    {
        let nv: u16 = self.vs[ni as usize];
        assert(self@.vs[ni as int] == nv);
        let a: u16 = self.ixs[v as usize];
        let b: u16 = self.ixs[nv as usize];
        assert(self@.ixs[v as int] == a);
        assert(self@.ixs[nv as int] == b);
        self.ixs[v as usize] = b;
        self.ixs[nv as usize] = a;
        let c: u16 = self.vs[i as usize];
        assert(self@.vs[i as int] == c);
        self.vs[i as usize] = nv;
        self.vs[ni as usize] = c;
    }

    /// Promotes the symbol `v`, which was seen at rank `i`.
    pub fn update(&mut self, v: u16, i: u16)
        requires
            old(self)@.wf(),
            v < MTF_NUM_SYMBOLS,
            i < MTF_NUM_SYMBOLS,
        ensures
            final(self)@ == old(self)@.updated(v as int, i as int),
            final(self)@.wf(),
            old(self)@.is_permutation() && old(self)@.vs[i as int] == v
                ==> final(self)@.is_permutation(),
    {
        proof {
            if self@.is_permutation() && self@.vs[i as int] == v {
                law_updated_permutation(self@, v as int, i as int);
            }
        }
        let ni1: u16 = next_rank_of(i);
        if i < 32 {
            self.exchange(v, i, ni1);
        } else {
            let ni2: u16 = (i + ni1) / 2;
            self.exchange(v, i, ni2);
            self.exchange(v, ni2, ni1);
        }
    }
}

/// An exchange keeps the tables inverse to each other, whatever the two
/// ranks are, and leaves `v` at its new rank.
proof fn lemma_exchanged_permutation(m: MTFView, v: int, i: int, ni: int)
    requires
        m.is_permutation(),
        0 <= i < MTF_NUM_SYMBOLS,
        0 <= ni < MTF_NUM_SYMBOLS,
        0 <= v < MTF_NUM_SYMBOLS,
        m.vs[i] == v,
    ensures
        m.exchanged(v, i, ni).is_permutation(),
        m.exchanged(v, i, ni).vs[ni] == v,
{
    let n = m.exchanged(v, i, ni);
    assert(m.ixs[m.vs[i] as int] == i);
    assert(m.ixs[m.vs[ni] as int] == ni);
    assert forall|k: int| 0 <= k < MTF_NUM_SYMBOLS implies n.ixs[(#[trigger] n.vs[k]) as int] == k by {
        assert(m.ixs[m.vs[k] as int] == k);
    }
    assert forall|w: int| 0 <= w < MTF_NUM_SYMBOLS implies n.vs[(#[trigger] n.ixs[w]) as int] == w by {
        assert(m.vs[m.ixs[w] as int] == w);
    }
}

/// Encoding keeps the tables in range.
pub proof fn lemma_after_encode_wf(m: MTFView, v: int)
    requires
        m.wf(),
        0 <= v < MTF_NUM_SYMBOLS,
    ensures
        m.after_encode(v).wf(),
{
    let i = m.ixs[v] as int;
    assert(0 <= i < MTF_NUM_SYMBOLS);
    let ni1 = next_rank(i);
    if i >= 32 {
        let ni2 = (i + ni1) / 2;
        assert(m.exchanged(v, i, ni2).wf());
    }
}

/// Promoting a symbol keeps the two tables inverse to each other.
pub proof fn law_updated_permutation(m: MTFView, v: int, i: int)
    requires
        m.is_permutation(),
        0 <= i < MTF_NUM_SYMBOLS,
        0 <= v < MTF_NUM_SYMBOLS,
        m.vs[i] == v,
    ensures
        m.updated(v, i).is_permutation(),
        m.updated(v, i).vs[next_rank(i)] == v,
{
    let ni1 = next_rank(i);
    if i < 32 {
        lemma_exchanged_permutation(m, v, i, ni1);
    } else {
        let ni2 = (i + ni1) / 2;
        lemma_exchanged_permutation(m, v, i, ni2);
        lemma_exchanged_permutation(m.exchanged(v, i, ni2), v, ni2, ni1);
    }
}

/// Decoding undoes encoding: a decoder in the state of the encoder gets the
/// symbol back from its index, and both end in the same state.
pub proof fn law_decode_undoes_encode(m: MTFView, v: int, vunlikely: int)
    requires
        m.is_permutation(),
        0 <= v < MTF_NUM_SYMBOLS,
        0 <= vunlikely < MTF_NUM_SYMBOLS,
    ensures
        m.decoded(m.encoded(v, vunlikely), vunlikely) == v,
        m.after_decode(m.encoded(v, vunlikely), vunlikely) == m.after_encode(v),
        m.after_encode(v).is_permutation(),
{
    assert(m.vs[m.ixs[v] as int] == v);
    assert(m.vs[m.ixs[vunlikely] as int] == vunlikely);
    law_updated_permutation(m, v, m.ixs[v] as int);
}

/// Encoding undoes decoding: every index below the number of symbols is the
/// index of the symbol that it decodes to.
pub proof fn law_encode_undoes_decode(m: MTFView, i: u16, vunlikely: int)
    requires
        m.is_permutation(),
        i < MTF_NUM_SYMBOLS,
        0 <= vunlikely < MTF_NUM_SYMBOLS,
    ensures
        m.encoded(m.decoded(i, vunlikely) as int, vunlikely) == i,
        m.after_encode(m.decoded(i, vunlikely) as int) == m.after_decode(i, vunlikely),
        m.after_decode(i, vunlikely).is_permutation(),
{
    let rank = m.decoded_rank(i, vunlikely);
    assert(m.ixs[vunlikely] < MTF_NUM_SYMBOLS);
    assert(m.ixs[m.vs[rank as int] as int] == rank);
    law_updated_permutation(m, m.decoded(i, vunlikely) as int, rank as int);
}

/// Where a symbol occurs, its last rank is a place that holds it.
proof fn lemma_last_rank(vs: Seq<u16>, n: nat, i: int)
    requires
        0 <= i < n <= MTF_NUM_SYMBOLS,
        n <= vs.len(),
    ensures
        i <= MTFView::last_rank(vs, n, vs[i] as int) < n,
        vs[MTFView::last_rank(vs, n, vs[i] as int) as int] == vs[i],
    decreases n,
{
    if vs[n - 1] != vs[i] {
        lemma_last_rank(vs, (n - 1) as nat, i);
    }
}

/// A coder made from distinct symbols ranks every symbol once. Only as many
/// entries count as there are symbols.
pub proof fn law_from_vs_permutation(vs: Seq<u16>)
    requires
        vs.len() >= MTF_NUM_SYMBOLS,
        forall|i: int| 0 <= i < MTF_NUM_SYMBOLS ==> vs[i] < MTF_NUM_SYMBOLS,
        vs.take(MTF_NUM_SYMBOLS as int).no_duplicates(),
    ensures
        MTFView::from_vs(vs).is_permutation(),
{
    let m = MTFView::from_vs(vs);
    assert forall|i: int, j: int| 0 <= i < MTF_NUM_SYMBOLS && 0 <= j < MTF_NUM_SYMBOLS && i != j implies (
    #[trigger] vs[i]) != (#[trigger] vs[j]) by {
        assert(m.vs[i] != m.vs[j]);
    }
    assert forall|i: int| 0 <= i < MTF_NUM_SYMBOLS implies m.ixs[(#[trigger] m.vs[i]) as int] == i by {
        lemma_last_rank(vs, MTF_NUM_SYMBOLS as nat, i);
    }
    let ints = m.vs.map_values(|x: u16| x as int);
    let all = vstd::set_lib::set_int_range(0, MTF_NUM_SYMBOLS as int);
    assert(ints.no_duplicates());
    ints.unique_seq_to_set();
    vstd::set_lib::lemma_int_range(0, MTF_NUM_SYMBOLS as int);
    vstd::seq_lib::seq_to_set_is_finite(ints);
    vstd::set_lib::lemma_subset_equality(ints.to_set(), all);
    assert forall|v: int| 0 <= v < MTF_NUM_SYMBOLS implies (#[trigger] m.ixs[v]) < MTF_NUM_SYMBOLS
        && m.vs[m.ixs[v] as int] == v by {
        assert(ints.to_set().contains(v));
        let i = choose|i: int| 0 <= i < ints.len() && ints[i] == v;
        assert(vs[i] == v);
        lemma_last_rank(vs, MTF_NUM_SYMBOLS as nat, i);
    }
}

/// A coder made from `vs` ranks the symbols in the order of `vs`: each rank holds
/// the symbol that stands there, a symbol has the last rank where it stands,
/// the only one where none stands twice, and one that is missing has rank zero.
pub proof fn law_from_vs_ranks(vs: Seq<u16>)
    requires
        vs.len() >= MTF_NUM_SYMBOLS,
        forall|i: int| 0 <= i < MTF_NUM_SYMBOLS ==> vs[i] < MTF_NUM_SYMBOLS,
    ensures
        MTFView::from_vs(vs).vs.len() == MTF_NUM_SYMBOLS,
        MTFView::from_vs(vs).ixs.len() == MTF_NUM_SYMBOLS,
        forall|i: int| 0 <= i < MTF_NUM_SYMBOLS ==> (#[trigger] MTFView::from_vs(vs).vs[i]) == vs[i],
        forall|i: int|
            0 <= i < MTF_NUM_SYMBOLS ==> i <= MTFView::from_vs(vs).ixs[(#[trigger] vs[i]) as int]
                && MTFView::from_vs(vs).ixs[vs[i] as int] < MTF_NUM_SYMBOLS && vs[MTFView::from_vs(
                vs,
            ).ixs[vs[i] as int] as int] == vs[i],
        (forall|i: int, j: int| 0 <= i < j < MTF_NUM_SYMBOLS ==> vs[i] != vs[j]) ==> forall|i: int|
            0 <= i < MTF_NUM_SYMBOLS ==> MTFView::from_vs(vs).ixs[(#[trigger] vs[i]) as int] == i,
        forall|v: int|
            0 <= v < MTF_NUM_SYMBOLS && (forall|i: int| 0 <= i < MTF_NUM_SYMBOLS ==> vs[i] != v) ==> (#[trigger] MTFView::from_vs(
                vs,
            ).ixs[v]) == 0,
{
    let m = MTFView::from_vs(vs);
    assert forall|i: int| 0 <= i < MTF_NUM_SYMBOLS implies i <= m.ixs[(#[trigger] vs[i]) as int] && m.ixs[vs[i] as int] < MTF_NUM_SYMBOLS
        && vs[m.ixs[vs[i] as int] as int] == vs[i] by {
        lemma_last_rank(vs, MTF_NUM_SYMBOLS as nat, i);
    }
    assert forall|v: int| 0 <= v < MTF_NUM_SYMBOLS && (forall|i: int| 0 <= i < MTF_NUM_SYMBOLS ==> vs[i] != v) implies (
    #[trigger] m.ixs[v]) == 0 by {
        lemma_missing_rank(vs, MTF_NUM_SYMBOLS as nat, v);
    }
}

proof fn lemma_missing_rank(vs: Seq<u16>, n: nat, v: int)
    requires
        n <= MTF_NUM_SYMBOLS,
        forall|i: int| 0 <= i < n ==> vs[i] != v,
    ensures
        MTFView::last_rank(vs, n, v) == 0,
    decreases n,
{
    if n > 0 {
        lemma_missing_rank(vs, (n - 1) as nat, v);
    }
}

/// The unlikely symbol has the last index, and the others keep their order by
/// rank: one before it has its rank, one behind it a rank less.
pub proof fn law_encoded_order(m: MTFView, v: int, w: int, u: int)
    requires
        m.is_permutation(),
        0 <= v < MTF_NUM_SYMBOLS,
        0 <= w < MTF_NUM_SYMBOLS,
        0 <= u < MTF_NUM_SYMBOLS,
    ensures
        m.encoded(u, u) == MTF_NUM_SYMBOLS - 1,
        v != u ==> m.encoded(v, u) < MTF_NUM_SYMBOLS - 1,
        m.ixs[v] < m.ixs[u] ==> m.encoded(v, u) == m.ixs[v],
        m.ixs[v] > m.ixs[u] ==> m.encoded(v, u) == m.ixs[v] - 1,
        v != u && w != u ==> (m.encoded(v, u) < m.encoded(w, u) <==> m.ixs[v] < m.ixs[w]),
        m.encoded(v, u) == m.encoded(w, u) <==> v == w,
{
    assert(m.vs[m.ixs[v] as int] == v);
    assert(m.vs[m.ixs[w] as int] == w);
    assert(m.vs[m.ixs[u] as int] == u);
}

/// An index stands for the symbol at its rank when the unlikely symbol is taken
/// out of the ranks, and the last index for the unlikely symbol itself.
pub proof fn law_decoded_order(m: MTFView, i: u16, u: int)
    requires
        m.is_permutation(),
        0 <= u < MTF_NUM_SYMBOLS,
    ensures
        i < m.ixs[u] ==> m.decoded(i, u) == m.vs[i as int],
        m.ixs[u] <= i < MTF_NUM_SYMBOLS - 1 ==> m.decoded(i, u) == m.vs[i + 1],
        i >= MTF_NUM_SYMBOLS - 1 ==> m.decoded(i, u) == u,
{
    assert(m.vs[m.ixs[u] as int] == u);
}

/// Seeing the symbol `v` at rank `i` moves it to three fifths of the rank. Near
/// the front it changes places with the symbol there. Further back that symbol
/// goes half of the way back only, and the one from there takes the old rank.
/// All other symbols keep their ranks.
pub proof fn law_updated_ranks(m: MTFView, v: int, i: int)
    requires
        m.is_permutation(),
        0 <= i < MTF_NUM_SYMBOLS,
        m.vs[i] == v,
    ensures
        ({
            let to = i * 3 / 5;
            let mid = (i + to) / 2;
            let n = m.updated(v, i);
            &&& n.vs.len() == MTF_NUM_SYMBOLS
            &&& n.vs[to] == v
            &&& n.ixs[v] == to
            &&& i < 32 ==> n.vs[i] == m.vs[to]
            &&& i >= 32 ==> n.vs[mid] == m.vs[to] && n.vs[i] == m.vs[mid]
            &&& forall|k: int|
                0 <= k < MTF_NUM_SYMBOLS && k != i && k != to && (i < 32 || k != mid) ==> (#[trigger] n.vs[k]) == m.vs[k]
            &&& forall|k: int| 0 <= k < MTF_NUM_SYMBOLS ==> n.ixs[(#[trigger] n.vs[k]) as int] == k
        }),
{
    law_updated_permutation(m, v, i);
    let to = i * 3 / 5;
    assert(m.updated(v, i).ixs[m.updated(v, i).vs[to] as int] == to);
}

/// Encoding moves the symbol from its rank, and decoding its index moves the
/// decoded symbol from the rank where it was found.
pub proof fn law_coding_moves(m: MTFView, v: int, i: u16, u: int)
    requires
        m.is_permutation(),
        0 <= v < MTF_NUM_SYMBOLS,
        0 <= u < MTF_NUM_SYMBOLS,
        i < MTF_NUM_SYMBOLS,
    ensures
        m.after_encode(v).ixs[v] == m.ixs[v] * 3 / 5,
        forall|k: int| m.ixs[v] < k < MTF_NUM_SYMBOLS ==> (#[trigger] m.after_encode(v).vs[k]) == m.vs[k],
        m.after_decode(i, u).ixs[m.decoded(i, u) as int] == m.ixs[m.decoded(i, u) as int] * 3 / 5,
        forall|k: int|
            m.ixs[m.decoded(i, u) as int] < k < MTF_NUM_SYMBOLS ==> (#[trigger] m.after_decode(i, u).vs[k]) == m.vs[k],
{
    assert(m.vs[m.ixs[v] as int] == v);
    law_updated_ranks(m, v, m.ixs[v] as int);
    let w = m.decoded(i, u) as int;
    let rank = m.decoded_rank(i, u) as int;
    assert(m.ixs[u] < MTF_NUM_SYMBOLS);
    assert(m.ixs[m.vs[rank] as int] == rank);
    law_updated_ranks(m, w, rank);
}

/// Of any tables, an exchange moves two entries each: the ranks `i` and `ni`
/// change places, and so do the entries of `v` and of the symbol at `ni`.
pub proof fn law_exchange(m: MTFView, v: int, i: int, ni: int)
    requires
        m.wf(),
        0 <= v < MTF_NUM_SYMBOLS,
        0 <= i < MTF_NUM_SYMBOLS,
        0 <= ni < MTF_NUM_SYMBOLS,
    ensures
        ({
            let n = m.exchanged(v, i, ni);
            let nv = m.vs[ni] as int;
            &&& n.vs[i] == m.vs[ni]
            &&& n.vs[ni] == m.vs[i]
            &&& n.ixs[v] == m.ixs[nv]
            &&& n.ixs[nv] == m.ixs[v]
            &&& forall|k: int| 0 <= k < MTF_NUM_SYMBOLS && k != i && k != ni ==> (#[trigger] n.vs[k]) == m.vs[k]
            &&& forall|w: int| 0 <= w < MTF_NUM_SYMBOLS && w != v && w != nv ==> (#[trigger] n.ixs[w]) == m.ixs[w]
            &&& i < 32 ==> m.updated(v, i) == m.exchanged(v, i, i * 3 / 5)
            &&& i >= 32 ==> m.updated(v, i) == m.exchanged(v, i, (i + i * 3 / 5) / 2).exchanged(
                v,
                (i + i * 3 / 5) / 2,
                i * 3 / 5,
            )
        }),
{
}

} // verus!
