//! The lengths that a weight tree gives form a code.
use vstd::arithmetic::power2::{lemma2_to64, lemma_pow2_pos, lemma_pow2_unfold, pow2};
use vstd::prelude::*;

use crate::codelen::{
    code_lens, code_lens_from, depth_len, flattened, joined, leaf_lens, lemma_lightest_in_range,
    lemma_merged_once_len, lightest, lowered, merged, merged_once, serves, single_leaves, tree_lens,
    weight_sum, Leaf, TreeView,
};
use crate::huffman::{count_len, first_code, is_code, ALPHABET_MAX, CODE_LEN_MAX};

verus! {

/// How many of the leaves hold the symbol `s`.
spec fn leaf_count(leaves: Seq<Leaf>, s: int) -> nat
    decreases leaves.len(),
{
    if leaves.len() == 0 {
        0
    } else {
        leaf_count(leaves.drop_last(), s) + if leaves.last().symbol == s { 1nat } else { 0nat }
    }
}

/// How many leaves of the forest hold the symbol `s`.
spec fn forest_count(forest: Seq<TreeView>, s: int) -> nat
    decreases forest.len(),
{
    if forest.len() == 0 {
        0
    } else {
        forest_count(forest.drop_last(), s) + leaf_count(forest.last().leaves, s)
    }
}

/// The sum of `2^(m - depth)` over the leaves.
spec fn leaf_sum(leaves: Seq<Leaf>, m: nat) -> nat
    decreases leaves.len(),
{
    if leaves.len() == 0 {
        0
    } else {
        leaf_sum(leaves.drop_last(), m) + pow2((m - leaves.last().depth) as nat)
    }
}

spec fn no_deeper(leaves: Seq<Leaf>, m: int) -> bool {
    forall|i: int| 0 <= i < leaves.len() ==> (#[trigger] leaves[i]).depth <= m
}

/// The leaves fill the tree.
spec fn complete(leaves: Seq<Leaf>) -> bool {
    forall|m: nat| no_deeper(leaves, m as int) ==> #[trigger] leaf_sum(leaves, m) == pow2(m)
}

spec fn forest_complete(forest: Seq<TreeView>, depth: int) -> bool {
    forall|i: int|
        0 <= i < forest.len() ==> complete((#[trigger] forest[i]).leaves) && no_deeper(
            forest[i].leaves,
            depth,
        ) && forest[i].leaves.len() > 0
}

proof fn lemma_leaf_count_concat(a: Seq<Leaf>, b: Seq<Leaf>, s: int)
    ensures
        leaf_count(a + b, s) == leaf_count(a, s) + leaf_count(b, s),
    decreases b.len(),
{
    if b.len() == 0 {
        assert(a + b =~= a);
    } else {
        assert((a + b).drop_last() =~= a + b.drop_last());
        lemma_leaf_count_concat(a, b.drop_last(), s);
    }
}

proof fn lemma_leaf_sum_concat(a: Seq<Leaf>, b: Seq<Leaf>, m: nat)
    ensures
        leaf_sum(a + b, m) == leaf_sum(a, m) + leaf_sum(b, m),
    decreases b.len(),
{
    if b.len() == 0 {
        assert(a + b =~= a);
    } else {
        assert((a + b).drop_last() =~= a + b.drop_last());
        lemma_leaf_sum_concat(a, b.drop_last(), m);
    }
}

proof fn lemma_lowered(leaves: Seq<Leaf>, s: int, m: nat)
    requires
        no_deeper(leaves, ALPHABET_MAX as int),
    ensures
        leaf_count(lowered(leaves), s) == leaf_count(leaves, s),
        leaf_sum(lowered(leaves), m + 1) == leaf_sum(leaves, m),
    decreases leaves.len(),
{
    if leaves.len() > 0 {
        assert(lowered(leaves).drop_last() =~= lowered(leaves.drop_last()));
        assert(leaves[leaves.len() - 1].depth <= ALPHABET_MAX);
        assert(no_deeper(leaves.drop_last(), ALPHABET_MAX as int)) by {
            assert forall|i: int| 0 <= i < leaves.drop_last().len() implies (
            #[trigger] leaves.drop_last()[i]).depth <= ALPHABET_MAX by {
                assert(leaves.drop_last()[i] == leaves[i]);
            }
        }
        lemma_lowered(leaves.drop_last(), s, m);
    }
}

/// Joining two complete trees gives a complete tree one level deeper.
proof fn lemma_joined(a: TreeView, b: TreeView, depth: int)
    requires
        complete(a.leaves),
        complete(b.leaves),
        no_deeper(a.leaves, depth),
        no_deeper(b.leaves, depth),
        a.leaves.len() > 0,
        0 <= depth < ALPHABET_MAX,
    ensures
        complete(joined(a, b).leaves),
        no_deeper(joined(a, b).leaves, depth + 1),
        forall|s: int|
            #[trigger] leaf_count(joined(a, b).leaves, s) == leaf_count(a.leaves, s) + leaf_count(
                b.leaves,
                s,
            ),
{
    let la = lowered(a.leaves);
    let lb = lowered(b.leaves);
    let l = joined(a, b).leaves;
    assert(l == la + lb);
    assert(no_deeper(a.leaves, ALPHABET_MAX as int));
    assert(no_deeper(b.leaves, ALPHABET_MAX as int));
    assert forall|m: nat| no_deeper(l, m as int) implies #[trigger] leaf_sum(l, m) == pow2(m) by {
        assert(l[0] == la[0]);
        assert(la[0].depth == a.leaves[0].depth + 1);
        assert(m >= 1);
        let m1 = (m - 1) as nat;
        lemma_lowered(a.leaves, 0, m1);
        lemma_lowered(b.leaves, 0, m1);
        lemma_leaf_sum_concat(la, lb, m);
        assert forall|i: int| 0 <= i < a.leaves.len() implies (#[trigger] a.leaves[i]).depth <= m1 by {
            assert(l[i] == la[i]);
        }
        assert forall|i: int| 0 <= i < b.leaves.len() implies (#[trigger] b.leaves[i]).depth <= m1 by {
            assert(l[la.len() + i] == lb[i]);
        }
        assert(leaf_sum(a.leaves, m1) == pow2(m1));
        assert(leaf_sum(b.leaves, m1) == pow2(m1));
        lemma_pow2_unfold(m);
    }
    assert forall|s: int|
        #[trigger] leaf_count(l, s) == leaf_count(a.leaves, s) + leaf_count(b.leaves, s) by {
        lemma_lowered(a.leaves, s, 0);
        lemma_lowered(b.leaves, s, 0);
        lemma_leaf_count_concat(la, lb, s);
    }
}

proof fn lemma_forest_count_remove(forest: Seq<TreeView>, i: int, s: int)
    requires
        0 <= i < forest.len(),
    ensures
        forest_count(forest, s) == forest_count(forest.remove(i), s) + leaf_count(forest[i].leaves, s),
    decreases forest.len(),
{
    if i < forest.len() - 1 {
        lemma_forest_count_remove(forest.drop_last(), i, s);
        assert(forest.remove(i).drop_last() =~= forest.drop_last().remove(i));
    } else {
        assert(forest.remove(i) =~= forest.drop_last());
    }
}

/// Joining the lightest trees keeps the trees complete and the symbols.
proof fn lemma_merged_once(forest: Seq<TreeView>, depth: int)
    requires
        forest.len() >= 2,
        forest_complete(forest, depth),
        0 <= depth < ALPHABET_MAX,
    ensures
        forest_complete(merged_once(forest), depth + 1),
        forall|s: int| #[trigger] forest_count(merged_once(forest), s) == forest_count(forest, s),
{
    let i = lightest(forest, forest.len() as int);
    lemma_lightest_in_range(forest, forest.len() as int);
    let others = forest.remove(i);
    let j = lightest(others, others.len() as int);
    lemma_lightest_in_range(others, others.len() as int);
    let rest = others.remove(j);
    let a = forest[i];
    let b = others[j];
    assert(b == forest[if j < i { j } else { j + 1 }]);
    lemma_joined(a, b, depth);
    let after = merged_once(forest);
    assert(after == rest.push(joined(a, b)));
    assert forall|k: int| 0 <= k < after.len() implies complete((#[trigger] after[k]).leaves) && no_deeper(
        after[k].leaves,
        depth + 1,
    ) && after[k].leaves.len() > 0 by {
        if k < rest.len() {
            let k1 = if k < j { k } else { k + 1 };
            let k0 = if k1 < i { k1 } else { k1 + 1 };
            assert(after[k] == forest[k0]);
        }
    }
    assert forall|s: int| #[trigger] forest_count(after, s) == forest_count(forest, s) by {
        lemma_forest_count_remove(forest, i, s);
        lemma_forest_count_remove(others, j, s);
        assert(after.drop_last() =~= rest);
        assert(leaf_count(joined(a, b).leaves, s) == leaf_count(a.leaves, s) + leaf_count(b.leaves, s));
    }
}

proof fn lemma_merged(forest: Seq<TreeView>, depth: int)
    requires
        forest_complete(forest, depth),
        0 <= depth,
        depth + forest.len() <= ALPHABET_MAX,
    ensures
        forest_complete(merged(forest), ALPHABET_MAX as int),
        forall|s: int| #[trigger] forest_count(merged(forest), s) == forest_count(forest, s),
        merged(forest).len() <= 1,
    decreases forest.len(),
{
    if forest.len() >= 2 {
        lemma_merged_once(forest, depth);
        lemma_merged_once_len(forest);
        lemma_merged(merged_once(forest), depth + 1);
        assert forall|s: int| #[trigger] forest_count(merged(forest), s) == forest_count(forest, s) by {
            assert(forest_count(merged_once(forest), s) == forest_count(forest, s));
            assert(forest_count(merged(merged_once(forest)), s) == forest_count(merged_once(forest), s));
        }
    } else {
        assert forall|i: int| 0 <= i < forest.len() implies complete((#[trigger] forest[i]).leaves)
            && no_deeper(forest[i].leaves, ALPHABET_MAX as int) && forest[i].leaves.len() > 0 by {
            assert(no_deeper(forest[i].leaves, depth));
        }
    }
}

/// The single leaves are complete trees, one for each symbol with a weight.
proof fn lemma_single_leaves(weights: Seq<u32>, shift: nat, k: int)
    requires
        0 <= k <= weights.len() <= ALPHABET_MAX,
    ensures
        forest_complete(single_leaves(weights, shift, k), 0),
        single_leaves(weights, shift, k).len() <= k,
        forall|s: int|
            0 <= s < weights.len() ==> #[trigger] forest_count(single_leaves(weights, shift, k), s) == if s
                < k && weights[s] > 0 {
                1nat
            } else {
                0nat
            },
        forall|s: int|
            s < 0 || s >= weights.len() ==> #[trigger] forest_count(single_leaves(weights, shift, k), s) == 0,
    decreases k,
{
    if k > 0 {
        lemma_single_leaves(weights, shift, k - 1);
        let before = single_leaves(weights, shift, k - 1);
        let after = single_leaves(weights, shift, k);
        if weights[k - 1] > 0 {
            let leaves = seq![Leaf { symbol: (k - 1) as u16, depth: 0 }];
            assert(after.drop_last() =~= before);
            assert(after.last().leaves == leaves);
            assert(leaves.drop_last() =~= Seq::<Leaf>::empty());
            assert forall|s: int| #[trigger] leaf_count(leaves, s) == if s == k - 1 { 1nat } else { 0nat } by {
                assert(leaf_count(leaves.drop_last(), s) == 0);
            }
            assert forall|m: nat| no_deeper(leaves, m as int) implies #[trigger] leaf_sum(leaves, m) == pow2(
                m,
            ) by {
                assert(leaf_sum(leaves.drop_last(), m) == 0);
            }
            assert forall|i: int| 0 <= i < after.len() implies complete((#[trigger] after[i]).leaves)
                && no_deeper(after[i].leaves, 0) && after[i].leaves.len() > 0 by {
                if i < before.len() {
                    assert(after[i] == before[i]);
                }
            }
            assert forall|s: int| #[trigger] forest_count(after, s) == forest_count(before, s) + leaf_count(
                leaves,
                s,
            ) by {}
        }
    }
}

/// The sum of `2^(m - len)` over the first `k` symbols with a code shorter than
/// `m` bits.
spec fn len_sum(lens: Seq<u8>, m: int, k: int) -> nat
    decreases k,
{
    if k <= 0 {
        0
    } else {
        len_sum(lens, m, k - 1) + if 0 < lens[k - 1] < m {
            pow2((m - lens[k - 1]) as nat)
        } else {
            0nat
        }
    }
}

proof fn lemma_len_sum_step(lens: Seq<u8>, m: int, k: int)
    requires
        1 <= m,
        0 <= k <= lens.len(),
    ensures
        len_sum(lens, m + 1, k) == 2 * (len_sum(lens, m, k) + count_len(lens, m, k)),
    decreases k,
{
    lemma2_to64();
    if k > 0 {
        lemma_len_sum_step(lens, m, k - 1);
        let l = lens[k - 1];
        if 0 < l < m {
            lemma_pow2_unfold((m + 1 - l) as nat);
        }
    }
}

proof fn lemma_len_sum_one(lens: Seq<u8>, k: int)
    ensures
        len_sum(lens, 1, k) == 0,
    decreases k,
{
    if k > 0 {
        lemma_len_sum_one(lens, k - 1);
    }
}

/// The first code of a length is what the shorter codes take.
proof fn lemma_first_code_sum(lens: Seq<u8>, m: int)
    requires
        1 <= m,
    ensures
        first_code(lens, m) == len_sum(lens, m, lens.len() as int),
    decreases m,
{
    if m == 1 {
        lemma_len_sum_one(lens, lens.len() as int);
    } else {
        lemma_first_code_sum(lens, m - 1);
        lemma_len_sum_step(lens, m - 1, lens.len() as int);
    }
}

proof fn lemma_len_sum_update(lens: Seq<u8>, m: int, k: int, s: int, len: u8)
    requires
        0 <= s < lens.len(),
        lens[s] == 0,
        0 < len < m,
        0 <= k <= lens.len(),
    ensures
        len_sum(lens.update(s, len), m, k) == len_sum(lens, m, k) + if s < k {
            pow2((m - len) as nat)
        } else {
            0nat
        },
    decreases k,
{
    if k > 0 {
        lemma_len_sum_update(lens, m, k - 1, s, len);
    }
}

proof fn lemma_leaf_count_mono(leaves: Seq<Leaf>, k: int, s: int)
    requires
        0 <= k <= leaves.len(),
    ensures
        leaf_count(leaves.take(k), s) <= leaf_count(leaves, s),
    decreases leaves.len() - k,
{
    if k < leaves.len() {
        lemma_leaf_count_mono(leaves, k + 1, s);
        assert(leaves.take(k + 1).drop_last() =~= leaves.take(k));
    } else {
        assert(leaves.take(k) =~= leaves);
    }
}

/// The lengths of distinct leaves take what the leaves fill.
proof fn lemma_leaf_lens(leaves: Seq<Leaf>, n: nat, k: int)
    requires
        0 <= k <= leaves.len(),
        forall|s: int| #[trigger] leaf_count(leaves, s) <= 1,
        forall|i: int| 0 <= i < leaves.len() ==> (#[trigger] leaves[i]).symbol < n,
    ensures
        leaf_lens(leaves, n, k).len() == n,
        forall|s: int|
            0 <= s < n ==> ((#[trigger] leaf_lens(leaves, n, k)[s]) > 0 <==> leaf_count(leaves.take(k), s) > 0),
        forall|i: int|
            0 <= i < k ==> leaf_lens(leaves, n, k)[(#[trigger] leaves[i]).symbol as int] == depth_len(
                leaves[i].depth,
            ),
        forall|i: int| 0 <= i < k ==> leaf_count(leaves.take(k), (#[trigger] leaves[i]).symbol as int) > 0,
        no_deeper(leaves.take(k), CODE_LEN_MAX as int) && (forall|i: int|
            0 <= i < k ==> (#[trigger] leaves[i]).depth > 0) ==> len_sum(
            leaf_lens(leaves, n, k),
            CODE_LEN_MAX + 1,
            n as int,
        ) == leaf_sum(leaves.take(k), (CODE_LEN_MAX + 1) as nat),
    decreases k,
{
    let lens = leaf_lens(leaves, n, k);
    if k == 0 {
        assert(leaves.take(0) =~= Seq::<Leaf>::empty());
        lemma_len_sum_zero(n, CODE_LEN_MAX + 1, n as int);
    } else {
        lemma_leaf_lens(leaves, n, k - 1);
        let before = leaf_lens(leaves, n, k - 1);
        let leaf = leaves[k - 1];
        let s = leaf.symbol as int;
        assert(leaves.take(k).drop_last() =~= leaves.take(k - 1));
        assert(leaves.take(k).last() == leaf);
        lemma_leaf_count_mono(leaves, k, s);
        assert(leaf_count(leaves, s) <= 1);
        assert(leaf_count(leaves.take(k - 1), s) == 0);
        assert(!(before[s] > 0));
        assert forall|i: int| 0 <= i < k implies lens[(#[trigger] leaves[i]).symbol as int] == depth_len(
            leaves[i].depth,
        ) by {
            if i < k - 1 {
                assert(leaf_count(leaves.take(k - 1), leaves[i].symbol as int) > 0);
            }
        }
        assert forall|t: int| 0 <= t < n implies ((#[trigger] lens[t]) > 0 <==> leaf_count(
            leaves.take(k),
            t,
        ) > 0) by {
            if t != s {
                assert(lens[t] == before[t]);
            }
        }
        if no_deeper(leaves.take(k), CODE_LEN_MAX as int) && (forall|i: int|
            0 <= i < k ==> (#[trigger] leaves[i]).depth > 0) {
            assert(leaves.take(k)[k - 1].depth <= CODE_LEN_MAX);
            assert forall|i: int| 0 <= i < k - 1 implies (#[trigger] leaves.take(k - 1)[i]).depth <= CODE_LEN_MAX by {
                assert(leaves.take(k)[i] == leaves[i]);
            }
            lemma_len_sum_update(before, CODE_LEN_MAX + 1, n as int, s, depth_len(leaf.depth));
        }
    }
}

proof fn lemma_len_sum_zero(n: nat, m: int, k: int)
    requires
        0 <= k <= n,
    ensures
        len_sum(Seq::new(n, |i: int| 0u8), m, k) == 0,
    decreases k,
{
    if k > 0 {
        lemma_len_sum_zero(n, m, k - 1);
    }
}

proof fn lemma_leaf_has_count(leaves: Seq<Leaf>, i: int)
    requires
        0 <= i < leaves.len(),
    ensures
        leaf_count(leaves, leaves[i].symbol as int) > 0,
    decreases leaves.len(),
{
    if i < leaves.len() - 1 {
        lemma_leaf_has_count(leaves.drop_last(), i);
    }
}

/// In a complete tree with more than one leaf no leaf is the root.
proof fn lemma_no_root_leaf(leaves: Seq<Leaf>, i: int)
    requires
        complete(leaves),
        no_deeper(leaves, ALPHABET_MAX as int),
        leaves.len() >= 2,
        0 <= i < leaves.len(),
    ensures
        leaves[i].depth > 0,
{
    let m = ALPHABET_MAX as nat;
    assert(leaf_sum(leaves, m) == pow2(m));
    lemma_leaf_sum_parts(leaves, m, i);
    if leaves[i].depth == 0 {
        lemma_pow2_pos((m - leaves[if i == 0 { 1int } else { 0int }].depth) as nat);
        lemma_leaf_sum_parts(leaves.remove(i), m, 0);
    }
}

proof fn lemma_leaf_sum_parts(leaves: Seq<Leaf>, m: nat, i: int)
    requires
        0 <= i < leaves.len(),
    ensures
        leaf_sum(leaves, m) == leaf_sum(leaves.remove(i), m) + pow2((m - leaves[i].depth) as nat),
    decreases leaves.len(),
{
    if i < leaves.len() - 1 {
        lemma_leaf_sum_parts(leaves.drop_last(), m, i);
        assert(leaves.remove(i).drop_last() =~= leaves.drop_last().remove(i));
    } else {
        assert(leaves.remove(i) =~= leaves.drop_last());
    }
}

/// A weight tree gives a code for its symbols, and for no others, unless it is
/// deeper than a code may be long.
pub proof fn law_tree_lens_serve(weights: Seq<u32>, shift: nat)
    requires
        weights.len() <= ALPHABET_MAX,
        forall|s: int| 0 <= s < weights.len() ==> (#[trigger] tree_lens(weights, shift)[s]) <= CODE_LEN_MAX,
    ensures
        serves(tree_lens(weights, shift), weights),
        forall|s: int|
            0 <= s < weights.len() ==> ((#[trigger] tree_lens(weights, shift)[s]) > 0 <==> weights[s] > 0),
{
    let n = weights.len();
    let lens = tree_lens(weights, shift);
    let start = single_leaves(weights, shift, n as int);
    lemma_single_leaves(weights, shift, n as int);
    lemma_merged(start, 0);
    let forest = merged(start);
    lemma2_to64();
    if forest.len() == 0 {
        assert forall|s: int| 0 <= s < n implies weights[s] == 0 by {
            assert(forest_count(forest, s) == forest_count(start, s));
            assert(forest_count(forest, s) == 0);
        }
        lemma_first_code_sum(lens, CODE_LEN_MAX + 1);
        lemma_len_sum_zero(n, CODE_LEN_MAX + 1, n as int);
    } else {
        let leaves = forest[0].leaves;
        assert(forest.drop_last() =~= Seq::<TreeView>::empty());
        assert(forest.last() == forest[0]);
        assert forall|s: int| #[trigger] leaf_count(leaves, s) == forest_count(start, s) by {
            assert(forest_count(forest.drop_last(), s) == 0);
            assert(forest_count(forest, s) == forest_count(start, s));
        }
        assert forall|i: int| 0 <= i < leaves.len() implies (#[trigger] leaves[i]).symbol < n by {
            lemma_leaf_has_count(leaves, i);
            assert(leaf_count(leaves, leaves[i].symbol as int) == forest_count(
                start,
                leaves[i].symbol as int,
            ));
        }
        lemma_leaf_lens(leaves, n, leaves.len() as int);
        assert(leaves.take(leaves.len() as int) =~= leaves);
        assert forall|s: int| 0 <= s < n implies ((#[trigger] lens[s]) > 0 <==> weights[s] > 0) by {
            assert(leaf_count(leaves, s) == forest_count(start, s));
        }
        lemma_first_code_sum(lens, CODE_LEN_MAX + 1);
        if leaves.len() >= 2 {
            assert forall|i: int| 0 <= i < leaves.len() implies (#[trigger] leaves[i]).depth > 0
                && leaves[i].depth <= CODE_LEN_MAX by {
                lemma_no_root_leaf(leaves, i);
                assert(lens[leaves[i].symbol as int] == depth_len(leaves[i].depth));
            }
            assert(no_deeper(leaves, (CODE_LEN_MAX + 1) as int));
            assert(leaf_sum(leaves, 16) == pow2(16));
        } else {
            // a single leaf gets a code of one bit
            let leaf = leaves[0];
            assert(no_deeper(leaves, ALPHABET_MAX as int));
            assert(leaf_sum(leaves, ALPHABET_MAX as nat) == pow2(ALPHABET_MAX as nat));
            lemma_leaf_sum_parts(leaves, ALPHABET_MAX as nat, 0);
            assert(leaves.remove(0) =~= Seq::<Leaf>::empty());
            if leaf.depth > 0 {
                vstd::arithmetic::power2::lemma_pow2_strictly_increases(
                    (ALPHABET_MAX - leaf.depth) as nat,
                    ALPHABET_MAX as nat,
                );
            }
            let zeros = Seq::new(n, |i: int| 0u8);
            assert(leaf_lens(leaves, n, 0) == zeros);
            assert(lens == zeros.update(leaf.symbol as int, 1));
            lemma_len_sum_zero(n, CODE_LEN_MAX + 1, n as int);
            lemma_len_sum_update(zeros, CODE_LEN_MAX + 1, n as int, leaf.symbol as int, 1);
        }
    }
}

/// The weights are not flattened when their tree is within the length limit.
pub proof fn law_weights_kept(weights: Seq<u32>)
    requires
        weights.len() <= ALPHABET_MAX,
        forall|s: int| 0 <= s < weights.len() ==> (#[trigger] tree_lens(weights, 0)[s]) <= CODE_LEN_MAX,
    ensures
        code_lens(weights) == tree_lens(weights, 0),
{
    law_tree_lens_serve(weights, 0);
}

/// Where the tree `i` is after the lightest trees were joined: `last` for the
/// two that were.
spec fn place_after(forest: Seq<TreeView>, i: int) -> int {
    let a = lightest(forest, forest.len() as int);
    let others = forest.remove(a);
    let b = lightest(others, others.len() as int);
    let j = if i < a {
        i
    } else {
        i - 1
    };
    if i == a || j == b {
        forest.len() - 2
    } else if j < b {
        j
    } else {
        j - 1
    }
}

/// How deep the tree `i` ends up in the tree that all of them are joined to.
spec fn final_depth(forest: Seq<TreeView>, i: int) -> nat
    decreases forest.len(),
{
    if forest.len() <= 1 {
        0
    } else {
        proof {
            lemma_merged_once_len(forest);
        }
        let k = place_after(forest, i);
        final_depth(merged_once(forest), k) + if k == forest.len() - 2 {
            1nat
        } else {
            0nat
        }
    }
}

/// The tree `i` is taken before the tree `j` when both are there.
spec fn taken_before(forest: Seq<TreeView>, i: int, j: int) -> bool {
    forest[i].weight < forest[j].weight || (forest[i].weight == forest[j].weight && i < j)
}

proof fn lemma_lightest_is_first(forest: Seq<TreeView>, k: int, j: int)
    requires
        0 <= j < k,
        j != lightest(forest, k),
    ensures
        taken_before(forest, lightest(forest, k), j),
    decreases k,
{
    lemma_lightest_in_range(forest, k);
    if k > 1 {
        lemma_lightest_in_range(forest, k - 1);
        if j < k - 1 && j != lightest(forest, k - 1) {
            lemma_lightest_is_first(forest, k - 1, j);
        }
        if j < k - 1 && lightest(forest, k) == k - 1 && j != lightest(forest, k - 1) {
            lemma_lightest_is_first(forest, k - 1, j);
        }
    }
}

/// The weight of the tree that the two lightest ones are joined to.
spec fn joint_weight(forest: Seq<TreeView>) -> u64 {
    let a = lightest(forest, forest.len() as int);
    let others = forest.remove(a);
    let b = lightest(others, others.len() as int);
    weight_sum(forest[a].weight, others[b].weight)
}

/// What joining does to a tree: the two lightest ones come last, together, and
/// the others keep their weights and their order.
proof fn lemma_place_after(forest: Seq<TreeView>, i: int, j: int)
    requires
        forest.len() >= 2,
        0 <= i < forest.len(),
        0 <= j < forest.len(),
    ensures
        ({
            let next = merged_once(forest);
            let last = next.len() - 1;
            let pi = place_after(forest, i);
            let pj = place_after(forest, j);
            &&& next.len() == forest.len() - 1
            &&& 0 <= pi <= last
            &&& next[last].weight == joint_weight(forest)
            &&& pi != last ==> next[pi] == forest[i] && forest[i].weight <= u64::MAX
            &&& pi != last && pj != last ==> (pi < pj <==> i < j) && (pi == pj <==> i == j)
            &&& pi == last && pj != last ==> taken_before(forest, i, j)
        }),
{
    lemma_merged_once_len(forest);
    let n = forest.len() as int;
    let a = lightest(forest, n);
    lemma_lightest_in_range(forest, n);
    let others = forest.remove(a);
    let b = lightest(others, n - 1);
    lemma_lightest_in_range(others, n - 1);
    let rest = others.remove(b);
    assert(merged_once(forest) == rest.push(joined(forest[a], others[b])));
    if i != a {
        let k = if i < a { i } else { i - 1 };
        assert(others[k] == forest[i]);
        if k != b {
            assert(rest[if k < b { k } else { k - 1 }] == others[k]);
        }
    }
    if j != a {
        let k = if j < a { j } else { j - 1 };
        assert(others[k] == forest[j]);
        lemma_lightest_is_first(forest, n, j);
        if k != b {
            lemma_lightest_is_first(others, n - 1, k);
            let fb = if b < a { b } else { b + 1 };
            assert(others[b] == forest[fb]);
        }
    }
}

/// The weights of joined trees never get less.
proof fn lemma_joint_weight_grows(forest: Seq<TreeView>)
    requires
        forest.len() >= 3,
    ensures
        joint_weight(forest) <= joint_weight(merged_once(forest)),
{
    let n = forest.len() as int;
    let a = lightest(forest, n);
    lemma_lightest_in_range(forest, n);
    let others = forest.remove(a);
    let b = lightest(others, n - 1);
    lemma_lightest_in_range(others, n - 1);
    let rest = others.remove(b);
    let next = merged_once(forest);
    lemma_merged_once_len(forest);
    let low = others[b].weight;
    let fb = if b < a { b } else { b + 1 };
    assert(others[b] == forest[fb]);
    lemma_lightest_is_first(forest, n, fb);
    assert(forest[a].weight <= low);
    assert forall|k: int| 0 <= k < next.len() implies (#[trigger] next[k]).weight >= low by {
        if k < rest.len() {
            let j = if k < b { k } else { k + 1 };
            assert(rest[k] == others[j]);
            lemma_lightest_is_first(others, n - 1, j);
        }
    }
    let a1 = lightest(next, n - 1);
    lemma_lightest_in_range(next, n - 1);
    let others1 = next.remove(a1);
    let b1 = lightest(others1, n - 2);
    lemma_lightest_in_range(others1, n - 2);
    assert(others1[b1] == next[if b1 < a1 { b1 } else { b1 + 1 }]);
}

/// A tree that is taken later ends up no deeper, and none ends up more than one
/// level deeper than a tree that weighs no more than the next joined one.
proof fn lemma_depth_order(forest: Seq<TreeView>, i: int, j: int)
    requires
        0 <= i < forest.len(),
        0 <= j < forest.len(),
    ensures
        taken_before(forest, j, i) ==> final_depth(forest, i) <= final_depth(forest, j),
        forest.len() >= 2 && forest[j].weight <= joint_weight(forest) ==> final_depth(forest, i)
            <= final_depth(forest, j) + 1,
    decreases forest.len(),
{
    if forest.len() >= 2 {
        let next = merged_once(forest);
        lemma_place_after(forest, i, j);
        lemma_place_after(forest, j, i);
        let pi = place_after(forest, i);
        let pj = place_after(forest, j);
        if pi != pj {
            lemma_depth_order(next, pi, pj);
            lemma_joint_weight_grows(forest);
        }
    }
}

/// A leaf of the tree `i` is a leaf of the last tree, as much deeper as the tree
/// ends up.
proof fn lemma_leaf_at_end(forest: Seq<TreeView>, depth: int, i: int, k: int) -> (m: int)
    requires
        forest_complete(forest, depth),
        0 <= depth,
        depth + forest.len() <= ALPHABET_MAX,
        0 <= i < forest.len(),
        0 <= k < forest[i].leaves.len(),
    ensures
        merged(forest).len() == 1,
        0 <= m < merged(forest)[0].leaves.len(),
        merged(forest)[0].leaves[m].symbol == forest[i].leaves[k].symbol,
        merged(forest)[0].leaves[m].depth == forest[i].leaves[k].depth + final_depth(forest, i),
    decreases forest.len(),
{
    if forest.len() == 1 {
        k
    } else {
        let n = forest.len() as int;
        let next = merged_once(forest);
        lemma_merged_once(forest, depth);
        lemma_place_after(forest, i, i);
        let last = next.len() - 1;
        let p = place_after(forest, i);
        assert(no_deeper(forest[i].leaves, depth));
        assert(forest[i].leaves[k].depth <= depth);
        if p != last {
            lemma_leaf_at_end(next, depth + 1, p, k)
        } else {
            let a = lightest(forest, n);
            lemma_lightest_in_range(forest, n);
            let others = forest.remove(a);
            let b = lightest(others, n - 1);
            lemma_lightest_in_range(others, n - 1);
            let la = lowered(forest[a].leaves);
            let lb = lowered(others[b].leaves);
            assert(next[last].leaves == la + lb);
            let k1 = if i == a {
                k
            } else {
                la.len() + k
            };
            if i == a {
                assert(next[last].leaves[k1] == la[k]);
            } else {
                assert(others[b] == forest[i]);
                assert(next[last].leaves[k1] == lb[k]);
            }
            assert(next[last].leaves[k1].depth == forest[i].leaves[k].depth + 1);
            lemma_leaf_at_end(next, depth + 1, last, k1)
        }
    }
}

/// The number of symbols below `s` that have a weight.
spec fn used_below(weights: Seq<u32>, s: int) -> nat
    decreases s,
{
    if s <= 0 {
        0
    } else {
        used_below(weights, s - 1) + if weights[s - 1] > 0 {
            1nat
        } else {
            0nat
        }
    }
}

proof fn lemma_used_below(weights: Seq<u32>, a: int, b: int)
    requires
        0 <= a <= b <= weights.len(),
    ensures
        used_below(weights, a) <= used_below(weights, b),
        a < b && weights[a] > 0 ==> used_below(weights, a) < used_below(weights, b),
    decreases b - a,
{
    if a < b {
        lemma_used_below(weights, a, b - 1);
    }
}

/// Where the single leaf of a symbol is.
proof fn lemma_single_leaf(weights: Seq<u32>, shift: nat, k: int, s: int)
    requires
        0 <= s < k <= weights.len() <= ALPHABET_MAX,
        weights[s] > 0,
    ensures
        single_leaves(weights, shift, k).len() == used_below(weights, k),
        used_below(weights, s) < used_below(weights, k),
        single_leaves(weights, shift, k)[used_below(weights, s) as int] == (TreeView {
            weight: flattened(weights[s], shift),
            leaves: seq![Leaf { symbol: s as u16, depth: 0 }],
        }),
    decreases k,
{
    lemma_single_leaves_len(weights, shift, k);
    lemma_single_leaves_len(weights, shift, k - 1);
    lemma_used_below(weights, s, k);
    if s < k - 1 {
        lemma_single_leaf(weights, shift, k - 1, s);
    }
}

proof fn lemma_single_leaves_len(weights: Seq<u32>, shift: nat, k: int)
    requires
        0 <= k <= weights.len(),
    ensures
        single_leaves(weights, shift, k).len() == used_below(weights, k),
    decreases k,
{
    if k > 0 {
        lemma_single_leaves_len(weights, shift, k - 1);
    }
}

/// The leaves of a tree are distinct symbols, and the lengths are their depths.
proof fn lemma_tree_leaves(weights: Seq<u32>, shift: nat)
    requires
        weights.len() <= ALPHABET_MAX,
    ensures
        tree_lens(weights, shift).len() == weights.len(),
        ({
            let forest = merged(single_leaves(weights, shift, weights.len() as int));
            forest.len() > 0 ==> forall|i: int|
                0 <= i < forest[0].leaves.len() ==> tree_lens(weights, shift)[(
                #[trigger] forest[0].leaves[i]).symbol as int] == depth_len(forest[0].leaves[i].depth)
        }),
{
    let n = weights.len();
    let start = single_leaves(weights, shift, n as int);
    lemma_single_leaves(weights, shift, n as int);
    lemma_merged(start, 0);
    let forest = merged(start);
    if forest.len() > 0 {
        let leaves = forest[0].leaves;
        assert(forest.drop_last() =~= Seq::<TreeView>::empty());
        assert(forest.last() == forest[0]);
        assert forall|t: int| #[trigger] leaf_count(leaves, t) <= 1 by {
            assert(forest_count(forest.drop_last(), t) == 0);
            assert(forest_count(forest, t) == forest_count(start, t));
        }
        assert forall|k: int| 0 <= k < leaves.len() implies (#[trigger] leaves[k]).symbol < n by {
            lemma_leaf_has_count(leaves, k);
            let t = leaves[k].symbol as int;
            assert(forest_count(forest.drop_last(), t) == 0);
            assert(forest_count(forest, t) == forest_count(start, t));
        }
        lemma_leaf_lens(leaves, n, leaves.len() as int);
    }
}

/// The length of a symbol is the depth of its leaf.
proof fn lemma_tree_len(weights: Seq<u32>, shift: nat, s: int)
    requires
        weights.len() <= ALPHABET_MAX,
        0 <= s < weights.len(),
        weights[s] > 0,
    ensures
        ({
            let start = single_leaves(weights, shift, weights.len() as int);
            let i = used_below(weights, s) as int;
            &&& 0 <= i < start.len()
            &&& start[i].weight == flattened(weights[s], shift)
            &&& final_depth(start, i) <= ALPHABET_MAX
            &&& tree_lens(weights, shift)[s] == depth_len(final_depth(start, i) as u16)
        }),
{
    let n = weights.len();
    let start = single_leaves(weights, shift, n as int);
    lemma_single_leaves(weights, shift, n as int);
    lemma_single_leaf(weights, shift, n as int, s);
    lemma_merged(start, 0);
    let i = used_below(weights, s) as int;
    let forest = merged(start);
    let m = lemma_leaf_at_end(start, 0, i, 0);
    let leaves = forest[0].leaves;
    lemma_tree_leaves(weights, shift);
    assert(no_deeper(leaves, ALPHABET_MAX as int));
    assert(leaves[m].depth <= ALPHABET_MAX);
    assert(leaves[m].symbol == s);
}

/// Of two symbols, the one with the greater flattened weight never has the
/// longer code in their tree, and of two equal ones the greater symbol.
pub proof fn law_heavier_is_no_deeper(weights: Seq<u32>, shift: nat, x: int, y: int)
    requires
        weights.len() <= ALPHABET_MAX,
        0 <= x < weights.len(),
        0 <= y < weights.len(),
        weights[x] > 0,
        weights[y] > 0,
        flattened(weights[x], shift) > flattened(weights[y], shift) || (flattened(weights[x], shift)
            == flattened(weights[y], shift) && x > y),
    ensures
        tree_lens(weights, shift)[x] <= tree_lens(weights, shift)[y],
{
    let start = single_leaves(weights, shift, weights.len() as int);
    lemma_tree_len(weights, shift, x);
    lemma_tree_len(weights, shift, y);
    let i = used_below(weights, x) as int;
    let j = used_below(weights, y) as int;
    if x > y {
        lemma_used_below(weights, y, x);
    }
    lemma_depth_order(start, i, j);
}

/// Frequent symbols have short codes: unless the tree of the weights is too
/// deep, a symbol with a greater weight never has a longer code than another
/// one that has a weight.
pub proof fn law_frequent_is_short(weights: Seq<u32>, x: int, y: int)
    requires
        weights.len() <= ALPHABET_MAX,
        0 <= x < weights.len(),
        0 <= y < weights.len(),
        weights[x] > weights[y] > 0,
        forall|s: int| 0 <= s < weights.len() ==> (#[trigger] tree_lens(weights, 0)[s]) <= CODE_LEN_MAX,
    ensures
        0 < code_lens(weights)[x] <= code_lens(weights)[y] <= 15,
{
    lemma2_to64();
    law_weights_kept(weights);
    law_tree_lens_serve(weights, 0);
    assert(flattened(weights[x], 0) == weights[x]) by {
        assert(weights[x] as nat / 1 == weights[x]);
    }
    assert(flattened(weights[y], 0) == weights[y]) by {
        assert(weights[y] as nat / 1 == weights[y]);
    }
    law_heavier_is_no_deeper(weights, 0, x, y);
    assert(tree_lens(weights, 0)[y] <= CODE_LEN_MAX);
}

/// The sum of the weights times the depths.
spec fn cost(ps: Seq<(nat, nat)>) -> nat
    decreases ps.len(),
{
    if ps.len() == 0 {
        0
    } else {
        cost(ps.drop_last()) + ps.last().0 * ps.last().1
    }
}

/// The sum of `2^(m - depth)`.
spec fn room(ps: Seq<(nat, nat)>, m: nat) -> nat
    decreases ps.len(),
{
    if ps.len() == 0 {
        0
    } else {
        room(ps.drop_last(), m) + pow2((m - ps.last().1) as nat)
    }
}

spec fn depths_within(ps: Seq<(nat, nat)>, m: int) -> bool {
    forall|i: int| 0 <= i < ps.len() ==> (#[trigger] ps[i]).1 <= m
}

proof fn lemma_sums_update(ps: Seq<(nat, nat)>, i: int, x: (nat, nat), m: nat)
    requires
        0 <= i < ps.len(),
    ensures
        cost(ps.update(i, x)) == cost(ps) - ps[i].0 * ps[i].1 + x.0 * x.1,
        room(ps.update(i, x), m) == room(ps, m) - pow2((m - ps[i].1) as nat) + pow2((m - x.1) as nat),
    decreases ps.len(),
{
    if i < ps.len() - 1 {
        lemma_sums_update(ps.drop_last(), i, x, m);
        assert(ps.update(i, x).drop_last() =~= ps.drop_last().update(i, x));
    } else {
        assert(ps.update(i, x).drop_last() =~= ps.drop_last());
    }
}

proof fn lemma_sums_remove(ps: Seq<(nat, nat)>, i: int, m: nat)
    requires
        0 <= i < ps.len(),
    ensures
        cost(ps) == cost(ps.remove(i)) + ps[i].0 * ps[i].1,
        room(ps, m) == room(ps.remove(i), m) + pow2((m - ps[i].1) as nat),
    decreases ps.len(),
{
    if i < ps.len() - 1 {
        lemma_sums_remove(ps.drop_last(), i, m);
        assert(ps.remove(i).drop_last() =~= ps.drop_last().remove(i));
    } else {
        assert(ps.remove(i) =~= ps.drop_last());
    }
}

/// One level more doubles the room.
proof fn lemma_room_doubles(ps: Seq<(nat, nat)>, m: nat)
    requires
        m > 0,
        depths_within(ps, m - 1),
    ensures
        room(ps, m) == 2 * room(ps, (m - 1) as nat),
    decreases ps.len(),
{
    if ps.len() > 0 {
        let front = ps.drop_last();
        assert forall|i: int| 0 <= i < front.len() implies (#[trigger] front[i]).1 <= m - 1 by {
            assert(front[i] == ps[i]);
        }
        lemma_room_doubles(front, m);
        assert(ps[ps.len() - 1].1 <= m - 1);
        lemma_pow2_unfold((m - ps.last().1) as nat);
    }
}

proof fn lemma_room_at_least(ps: Seq<(nat, nat)>, m: nat)
    ensures
        room(ps, m) >= ps.len(),
    decreases ps.len(),
{
    if ps.len() > 0 {
        lemma_room_at_least(ps.drop_last(), m);
        lemma_pow2_pos((m - ps.last().1) as nat);
    }
}

/// A lighter entry that goes deeper in exchange with a heavier one costs no more.
proof fn lemma_swap(ps: Seq<(nat, nat)>, i: int, j: int, m: nat) -> (qs: Seq<(nat, nat)>)
    requires
        0 <= i < ps.len(),
        0 <= j < ps.len(),
        i != j,
        ps[i].0 <= ps[j].0,
        ps[i].1 <= ps[j].1,
    ensures
        qs.len() == ps.len(),
        qs[i] == (ps[i].0, ps[j].1),
        qs[j] == (ps[j].0, ps[i].1),
        forall|k: int| 0 <= k < ps.len() && k != i && k != j ==> qs[k] == ps[k],
        cost(qs) <= cost(ps),
        room(qs, m) == room(ps, m),
{
    let x = (ps[i].0, ps[j].1);
    let y = (ps[j].0, ps[i].1);
    let mid = ps.update(i, x);
    lemma_sums_update(ps, i, x, m);
    lemma_sums_update(mid, j, y, m);
    let (wi, wj, di, dj) = (ps[i].0 as int, ps[j].0 as int, ps[i].1 as int, ps[j].1 as int);
    assert(wi * dj + wj * di <= wi * di + wj * dj) by (nonlinear_arith)
        requires
            wi <= wj,
            di <= dj,
    ;
    mid.update(j, y)
}

/// The weights of the trees with the depths where they end up.
spec fn end_pairs(forest: Seq<TreeView>) -> Seq<(nat, nat)> {
    Seq::new(forest.len(), |i: int| (forest[i].weight as nat, final_depth(forest, i)))
}

/// The sum of the weights of the trees.
spec fn forest_weight(forest: Seq<TreeView>) -> nat
    decreases forest.len(),
{
    if forest.len() == 0 {
        0
    } else {
        forest_weight(forest.drop_last()) + forest.last().weight as nat
    }
}

proof fn lemma_forest_weight_remove(forest: Seq<TreeView>, i: int)
    requires
        0 <= i < forest.len(),
    ensures
        forest_weight(forest) == forest_weight(forest.remove(i)) + forest[i].weight,
    decreases forest.len(),
{
    if i < forest.len() - 1 {
        lemma_forest_weight_remove(forest.drop_last(), i);
        assert(forest.remove(i).drop_last() =~= forest.drop_last().remove(i));
    } else {
        assert(forest.remove(i) =~= forest.drop_last());
    }
}

/// The pairs of a forest, once its two lightest trees were joined at depth `d`.
spec fn joined_pairs(ps: Seq<(nat, nat)>, a: int, b: int, w: nat, d: nat) -> Seq<(nat, nat)> {
    ps.remove(a).remove(b).push((w, d))
}

/// Joining two trees of one depth saves their weights and keeps the room.
proof fn lemma_joined_sums(ps: Seq<(nat, nat)>, a: int, b: int, w: nat, d: nat, m: nat)
    requires
        ps.len() >= 2,
        0 <= a < ps.len(),
        0 <= b < ps.len() - 1,
        d < m,
        ps[a].1 == d + 1,
        ps.remove(a)[b].1 == d + 1,
        w == ps[a].0 + ps.remove(a)[b].0,
    ensures
        cost(ps) == cost(joined_pairs(ps, a, b, w, d)) + w,
        room(ps, m) == room(joined_pairs(ps, a, b, w, d), m),
{
    let others = ps.remove(a);
    let rest = others.remove(b);
    lemma_sums_remove(ps, a, m);
    lemma_sums_remove(others, b, m);
    assert(joined_pairs(ps, a, b, w, d).drop_last() =~= rest);
    lemma_pow2_unfold((m - d) as nat);
    let (x, y, e) = (ps[a].0 as int, others[b].0 as int, d as int);
    assert(x * (e + 1) + y * (e + 1) == (x + y) * e + (x + y)) by (nonlinear_arith);
}

/// What joining does to the weights and to where the trees end up.
proof fn lemma_end_pairs_joined(forest: Seq<TreeView>)
    requires
        forest.len() >= 2,
        forest_weight(forest) <= u64::MAX,
    ensures
        ({
            let next = merged_once(forest);
            &&& next.len() == forest.len() - 1
            &&& forest_weight(next) == forest_weight(forest)
            &&& cost(end_pairs(forest)) == cost(end_pairs(next)) + joint_weight(forest)
        }),
{
    let n = forest.len() as int;
    let next = merged_once(forest);
    lemma_merged_once_len(forest);
    let a = lightest(forest, n);
    lemma_lightest_in_range(forest, n);
    let others = forest.remove(a);
    let b = lightest(others, n - 1);
    lemma_lightest_in_range(others, n - 1);
    let rest = others.remove(b);
    lemma_forest_weight_remove(forest, a);
    lemma_forest_weight_remove(others, b);
    assert(next.drop_last() =~= rest);
    let w = joint_weight(forest) as nat;
    assert(w == forest[a].weight + others[b].weight);
    let ps = end_pairs(forest);
    let d = final_depth(next, n - 2);
    let c = if b < a { b } else { b + 1 };
    assert(others[b] == forest[c]);
    lemma_place_after(forest, a, c);
    lemma_place_after(forest, c, a);
    assert(ps.remove(a)[b] == ps[c]);
    lemma_joined_sums(ps, a, b, w, d, (d + 1) as nat);
    let qs = joined_pairs(ps, a, b, w, d);
    assert forall|k: int| 0 <= k < n - 1 implies qs[k] == end_pairs(next)[k] by {
        if k < n - 2 {
            let k1 = if k < b { k } else { k + 1 };
            let k0 = if k1 < a { k1 } else { k1 + 1 };
            assert(qs[k] == ps[k0]);
            assert(next[k] == forest[k0]);
            assert(place_after(forest, k0) == k);
        }
    }
    assert(qs =~= end_pairs(next));
}

/// Where two trees are deepest, it costs no more when they are the lightest ones.
proof fn lemma_lightest_deepest(
    forest: Seq<TreeView>,
    ps: Seq<(nat, nat)>,
    m: nat,
    p: int,
    q: int,
) -> (qs: Seq<(nat, nat)>)
    requires
        forest.len() >= 2,
        ps.len() == forest.len(),
        forall|i: int| 0 <= i < ps.len() ==> (#[trigger] ps[i]).0 == forest[i].weight,
        depths_within(ps, m as int),
        0 <= p < ps.len(),
        0 <= q < ps.len(),
        p != q,
        ps[p].1 == m,
        ps[q].1 == m,
    ensures
        ({
            let a = lightest(forest, forest.len() as int);
            let b = lightest(forest.remove(a), forest.len() - 1);
            &&& qs.len() == ps.len()
            &&& qs[a].1 == m
            &&& qs[if b < a { b } else { b + 1 }].1 == m
            &&& forall|k: int| 0 <= k < ps.len() ==> (#[trigger] qs[k]).0 == ps[k].0 && qs[k].1 <= m
            &&& cost(qs) <= cost(ps)
            &&& room(qs, m) == room(ps, m)
        }),
{
    let n = forest.len() as int;
    let a = lightest(forest, n);
    lemma_lightest_in_range(forest, n);
    let others = forest.remove(a);
    let b = lightest(others, n - 1);
    lemma_lightest_in_range(others, n - 1);
    let c = if b < a { b } else { b + 1 };
    assert(others[b] == forest[c]);
    let r = if p != c { p } else { q };
    let ps1 = if ps[a].1 < m {
        lemma_lightest_is_first(forest, n, r);
        lemma_swap(ps, a, r, m)
    } else {
        assert(ps[a].1 <= m);
        ps
    };
    assert forall|k: int| 0 <= k < n implies (#[trigger] ps1[k]).0 == ps[k].0 && ps1[k].1 <= m by {
        assert(ps[k].1 <= m);
    }
    if ps1[c].1 < m {
        let t = if ps[a].1 < m {
            if r == p { q } else { p }
        } else if p != a {
            p
        } else {
            q
        };
        assert(t != a && t != c && ps1[t].1 == m);
        let k = if t < a { t } else { t - 1 };
        assert(others[k] == forest[t]);
        lemma_lightest_is_first(others, n - 1, k);
        lemma_swap(ps1, c, t, m)
    } else {
        assert(ps1[c].1 <= m);
        ps1
    }
}

/// A single deepest tree can go up one level, which costs no more.
proof fn lemma_raise_deepest(ps: Seq<(nat, nat)>, m: nat, p: int) -> (qs: Seq<(nat, nat)>)
    requires
        m > 0,
        0 <= p < ps.len(),
        ps[p].1 == m,
        forall|i: int| 0 <= i < ps.len() && i != p ==> (#[trigger] ps[i]).1 < m,
        room(ps, m) <= pow2(m),
    ensures
        qs.len() == ps.len(),
        forall|i: int| 0 <= i < ps.len() ==> (#[trigger] qs[i]).0 == ps[i].0,
        depths_within(qs, m - 1),
        room(qs, (m - 1) as nat) <= pow2((m - 1) as nat),
        cost(qs) <= cost(ps),
{
    let x = (ps[p].0, (m - 1) as nat);
    let qs = ps.update(p, x);
    let rest = ps.remove(p);
    lemma2_to64();
    lemma_sums_update(ps, p, x, m);
    lemma_sums_remove(ps, p, m);
    assert forall|i: int| 0 <= i < rest.len() implies (#[trigger] rest[i]).1 <= m - 1 by {
        assert(rest[i] == ps[if i < p { i } else { i + 1 }]);
    }
    lemma_room_doubles(rest, m);
    lemma_room_doubles(qs, m);
    lemma_pow2_unfold(m);
    let (w, k) = (ps[p].0 as int, m as int);
    assert(w * (k - 1) <= w * k) by (nonlinear_arith)
        requires
            w >= 0,
    ;
    qs
}

/// Where two trees are deepest, joining the lightest ones gives depths for the
/// next forest that leave as much room, and save at least the joined weight.
proof fn lemma_join_deepest(
    forest: Seq<TreeView>,
    ps: Seq<(nat, nat)>,
    m: nat,
    p: int,
    q: int,
) -> (qs: Seq<(nat, nat)>)
    requires
        forest.len() >= 2,
        forest_weight(forest) <= u64::MAX,
        ps.len() == forest.len(),
        forall|i: int| 0 <= i < ps.len() ==> (#[trigger] ps[i]).0 == forest[i].weight,
        depths_within(ps, m as int),
        m > 0,
        0 <= p < ps.len(),
        0 <= q < ps.len(),
        p != q,
        ps[p].1 == m,
        ps[q].1 == m,
    ensures
        qs.len() == forest.len() - 1,
        merged_once(forest).len() == forest.len() - 1,
        forall|i: int| 0 <= i < qs.len() ==> (#[trigger] qs[i]).0 == merged_once(forest)[i].weight,
        depths_within(qs, m as int),
        room(qs, m) == room(ps, m),
        cost(qs) + joint_weight(forest) <= cost(ps),
{
    let n = forest.len() as int;
    let a = lightest(forest, n);
    lemma_lightest_in_range(forest, n);
    let others = forest.remove(a);
    let b = lightest(others, n - 1);
    lemma_lightest_in_range(others, n - 1);
    let c = if b < a { b } else { b + 1 };
    let ps2 = lemma_lightest_deepest(forest, ps, m, p, q);
    assert(ps2.remove(a)[b] == ps2[c]);
    assert(others[b] == forest[c]);
    let next = merged_once(forest);
    lemma_merged_once_len(forest);
    lemma_forest_weight_remove(forest, a);
    lemma_forest_weight_remove(others, b);
    let w = joint_weight(forest) as nat;
    assert(w == forest[a].weight + others[b].weight);
    assert(ps2[a].0 == ps[a].0 && ps2[c].0 == ps[c].0);
    lemma_joined_sums(ps2, a, b, w, (m - 1) as nat, m);
    let qs = joined_pairs(ps2, a, b, w, (m - 1) as nat);
    assert forall|k: int| 0 <= k < qs.len() implies (#[trigger] qs[k]).0 == next[k].weight && qs[k].1 <= m by {
        if k < n - 2 {
            let k1 = if k < b { k } else { k + 1 };
            let k0 = if k1 < a { k1 } else { k1 + 1 };
            assert(qs[k] == ps2[k0]);
            assert(ps2[k0].0 == ps[k0].0);
            assert(next[k] == forest[k0]);
        }
    }
    qs
}

/// No other depths that leave room for all trees cost less than those where the
/// trees end up.
proof fn lemma_joining_is_best(forest: Seq<TreeView>, ps: Seq<(nat, nat)>, m: nat)
    requires
        forest.len() >= 1,
        forest_weight(forest) <= u64::MAX,
        ps.len() == forest.len(),
        forall|i: int| 0 <= i < ps.len() ==> (#[trigger] ps[i]).0 == forest[i].weight,
        depths_within(ps, m as int),
        room(ps, m) <= pow2(m),
    ensures
        cost(end_pairs(forest)) <= cost(ps),
    decreases forest.len(), m,
{
    let n = forest.len() as int;
    if n == 1 {
        assert(end_pairs(forest).drop_last() =~= Seq::<(nat, nat)>::empty());
        assert(cost(end_pairs(forest).drop_last()) == 0);
        assert(end_pairs(forest)[0].1 == 0);
        let w = end_pairs(forest).last().0;
        assert(w * 0 == 0);
    } else if m == 0 {
        lemma2_to64();
        lemma_room_at_least(ps, m);
    } else if forall|i: int| 0 <= i < n ==> (#[trigger] ps[i]).1 < m {
        lemma_room_doubles(ps, m);
        lemma_pow2_unfold(m);
        lemma_joining_is_best(forest, ps, (m - 1) as nat);
    } else {
        let p = choose|p: int| 0 <= p < n && !((#[trigger] ps[p]).1 < m);
        assert(ps[p].1 <= m);
        if forall|i: int| 0 <= i < n && i != p ==> (#[trigger] ps[i]).1 < m {
            let qs = lemma_raise_deepest(ps, m, p);
            assert forall|i: int| 0 <= i < n implies (#[trigger] qs[i]).0 == forest[i].weight by {
                assert(ps[i].0 == forest[i].weight);
            }
            lemma_joining_is_best(forest, qs, (m - 1) as nat);
        } else {
            let q = choose|q: int| 0 <= q < n && q != p && !((#[trigger] ps[q]).1 < m);
            assert(ps[q].1 <= m);
            let qs = lemma_join_deepest(forest, ps, m, p, q);
            lemma_end_pairs_joined(forest);
            lemma_joining_is_best(merged_once(forest), qs, m);
        }
    }
}

/// The number of bits that the first `k` symbols take, each one as often as its
/// weight, once the weights are flattened.
pub open spec fn total_bits(weights: Seq<u32>, shift: nat, lens: Seq<u8>, k: int) -> nat
    decreases k,
{
    if k <= 0 {
        0
    } else {
        total_bits(weights, shift, lens, k - 1) + if weights[k - 1] > 0 {
            flattened(weights[k - 1], shift) as nat * lens[k - 1] as nat
        } else {
            0nat
        }
    }
}

/// The flattened weights and the lengths of the symbols that have a weight.
spec fn used_pairs(weights: Seq<u32>, shift: nat, lens: Seq<u8>, k: int) -> Seq<(nat, nat)>
    decreases k,
{
    if k <= 0 {
        Seq::empty()
    } else if weights[k - 1] > 0 {
        used_pairs(weights, shift, lens, k - 1).push(
            (flattened(weights[k - 1], shift) as nat, lens[k - 1] as nat),
        )
    } else {
        used_pairs(weights, shift, lens, k - 1)
    }
}

proof fn lemma_flattened(w: u32, shift: nat)
    ensures
        1 <= flattened(w, shift) <= if w == 0 {
            1
        } else {
            w as u64
        },
        shift == 0 && w > 0 ==> flattened(w, shift) == w,
{
    lemma2_to64();
    lemma_pow2_pos(shift);
    let q = pow2(shift) as int;
    vstd::arithmetic::div_mod::lemma_div_is_ordered_by_denominator(w as int, 1, q);
    assert(w as int / 1 == w);
    vstd::arithmetic::div_mod::lemma_div_pos_is_pos(w as int, q);
}

proof fn lemma_used_pairs(weights: Seq<u32>, shift: nat, lens: Seq<u8>, k: int)
    requires
        0 <= k <= weights.len() <= ALPHABET_MAX,
        lens.len() == weights.len(),
    ensures
        ({
            let ps = used_pairs(weights, shift, lens, k);
            let forest = single_leaves(weights, shift, k);
            &&& cost(ps) == total_bits(weights, shift, lens, k)
            &&& ps.len() == forest.len()
            &&& forest.len() == used_below(weights, k)
            &&& forall|i: int| 0 <= i < ps.len() ==> (#[trigger] ps[i]).0 == forest[i].weight
            &&& forest_weight(forest) <= k * u32::MAX
            &&& forall|s: int|
                0 <= s < k && (#[trigger] weights[s]) > 0 ==> used_below(weights, s) < ps.len()
                    && ps[used_below(weights, s) as int] == (
                    flattened(weights[s], shift) as nat,
                    lens[s] as nat,
                )
        }),
    decreases k,
{
    if k > 0 {
        lemma_used_pairs(weights, shift, lens, k - 1);
        let before = used_pairs(weights, shift, lens, k - 1);
        let ps = used_pairs(weights, shift, lens, k);
        let f0 = single_leaves(weights, shift, k - 1);
        let forest = single_leaves(weights, shift, k);
        lemma_flattened(weights[k - 1], shift);
        if weights[k - 1] > 0 {
            assert(ps.drop_last() =~= before);
            assert(forest.drop_last() =~= f0);
            assert forall|i: int| 0 <= i < ps.len() implies (#[trigger] ps[i]).0 == forest[i].weight by {
                if i < before.len() {
                    assert(ps[i] == before[i]);
                    assert(forest[i] == f0[i]);
                }
            }
        }
        assert forall|s: int| 0 <= s < k && (#[trigger] weights[s]) > 0 implies used_below(weights, s) < ps.len()
            && ps[used_below(weights, s) as int] == (flattened(weights[s], shift) as nat, lens[s] as nat) by {
            lemma_used_below(weights, s, k);
            if s < k - 1 {
                let i = used_below(weights, s) as int;
                assert(before[i] == (flattened(weights[s], shift) as nat, lens[s] as nat));
            }
        }
    }
}

/// A code leaves room for the symbols that have a weight.
proof fn lemma_used_room(weights: Seq<u32>, shift: nat, lens: Seq<u8>, k: int)
    requires
        0 <= k <= weights.len(),
        lens.len() == weights.len(),
        forall|s: int| 0 <= s < lens.len() ==> (#[trigger] lens[s]) <= 15,
        forall|s: int| 0 <= s < lens.len() ==> (weights[s] > 0 ==> (#[trigger] lens[s]) > 0),
    ensures
        room(used_pairs(weights, shift, lens, k), 16) <= len_sum(lens, 16, k),
        depths_within(used_pairs(weights, shift, lens, k), 16),
    decreases k,
{
    if k > 0 {
        lemma_used_room(weights, shift, lens, k - 1);
        let before = used_pairs(weights, shift, lens, k - 1);
        let ps = used_pairs(weights, shift, lens, k);
        assert(lens[k - 1] <= 15);
        if weights[k - 1] > 0 {
            assert(lens[k - 1] > 0);
            assert(ps.drop_last() =~= before);
            assert forall|i: int| 0 <= i < ps.len() implies (#[trigger] ps[i]).1 <= 16 by {
                if i < before.len() {
                    assert(ps[i] == before[i]);
                }
            }
        }
    }
}

/// The symbol whose leaf is the tree `i`.
proof fn lemma_used_symbol(weights: Seq<u32>, k: int, i: int) -> (s: int)
    requires
        0 <= k <= weights.len(),
        0 <= i < used_below(weights, k),
    ensures
        0 <= s < k,
        weights[s] > 0,
        used_below(weights, s) == i,
    decreases k,
{
    if weights[k - 1] > 0 && used_below(weights, k - 1) == i {
        k - 1
    } else {
        lemma_used_symbol(weights, k - 1, i)
    }
}

proof fn lemma_cost_order(ps: Seq<(nat, nat)>, qs: Seq<(nat, nat)>)
    requires
        ps.len() == qs.len(),
        forall|i: int| 0 <= i < ps.len() ==> (#[trigger] ps[i]).0 == qs[i].0 && ps[i].1 <= qs[i].1,
    ensures
        cost(ps) <= cost(qs),
    decreases ps.len(),
{
    if ps.len() > 0 {
        let (p, q) = (ps.drop_last(), qs.drop_last());
        assert forall|i: int| 0 <= i < p.len() implies (#[trigger] p[i]).0 == q[i].0 && p[i].1 <= q[i].1 by {
            assert(p[i] == ps[i]);
        }
        lemma_cost_order(p, q);
        let last = ps[ps.len() - 1];
        let (w, x, y) = (last.0 as int, last.1 as int, qs.last().1 as int);
        assert(w * x <= w * y) by (nonlinear_arith)
            requires
                w >= 0,
                x <= y,
        ;
    }
}

/// No code is better than the tree: every code for the same symbols takes at
/// least as many bits for all of them together, each one as often as its
/// flattened weight.
pub proof fn law_tree_is_best(weights: Seq<u32>, shift: nat, other: Seq<u8>)
    requires
        weights.len() <= ALPHABET_MAX,
        serves(other, weights),
    ensures
        total_bits(weights, shift, tree_lens(weights, shift), weights.len() as int) <= total_bits(
            weights,
            shift,
            other,
            weights.len() as int,
        ),
{
    let n = weights.len() as int;
    let lens = tree_lens(weights, shift);
    lemma_tree_leaves(weights, shift);
    lemma2_to64();
    lemma_used_pairs(weights, shift, lens, n);
    lemma_used_pairs(weights, shift, other, n);
    lemma_used_room(weights, shift, other, n);
    let forest = single_leaves(weights, shift, n);
    let ps = used_pairs(weights, shift, lens, n);
    let qs = used_pairs(weights, shift, other, n);
    if forest.len() >= 2 {
        lemma_first_code_sum(other, 16);
        let es = end_pairs(forest);
        assert forall|i: int| 0 <= i < ps.len() implies (#[trigger] ps[i]).0 == es[i].0 && ps[i].1 <= es[i].1 by {
            let s = lemma_used_symbol(weights, n, i);
            lemma_tree_len(weights, shift, s);
            lemma_some_depth(forest, i);
            assert(weights[s] > 0);
        }
        lemma_cost_order(ps, es);
        lemma_joining_is_best(forest, qs, 16);
    } else {
        assert forall|i: int| 0 <= i < ps.len() implies (#[trigger] ps[i]).0 == qs[i].0 && ps[i].1 <= qs[i].1 by {
            let s = lemma_used_symbol(weights, n, i);
            lemma_tree_len(weights, shift, s);
            assert(final_depth(forest, i) == 0);
            assert(other[s] > 0);
            assert(weights[s] > 0);
        }
        lemma_cost_order(ps, qs);
    }
}

/// Weights are flattened by halving them, but never to nothing.
pub proof fn law_flattened(w: u32, shift: nat)
    requires
        w > 0,
    ensures
        w as nat / pow2(shift) > 0 ==> flattened(w, shift) == w as nat / pow2(shift),
        w as nat / pow2(shift) == 0 ==> flattened(w, shift) == 1,
        flattened(w, 0) == w,
{
    lemma_flattened(w, 0);
    lemma_flattened(w, shift);
    lemma_pow2_pos(shift);
    vstd::arithmetic::div_mod::lemma_div_is_ordered_by_denominator(w as int, 1, pow2(shift) as int);
    assert(w as int / 1 == w);
}

/// The tree of the flattened weights is deeper than a code may be long.
pub open spec fn too_deep(weights: Seq<u32>, shift: nat) -> bool {
    exists|x: int| 0 <= x < weights.len() && (#[trigger] tree_lens(weights, shift)[x]) > CODE_LEN_MAX
}

/// The weights are flattened as little as it takes for their tree to be within
/// the length limit. Where that is never so, all codes have the same length.
pub proof fn law_least_flattened(weights: Seq<u32>, shift: nat, s: int)
    requires
        weights.len() <= ALPHABET_MAX,
        shift <= 32,
        forall|k: nat| k < shift ==> #[trigger] too_deep(weights, k),
        shift < 32 ==> !too_deep(weights, shift),
        0 <= s < weights.len(),
    ensures
        shift < 32 ==> code_lens(weights) == tree_lens(weights, shift),
        shift == 32 ==> code_lens(weights)[s] == if weights[s] > 0 {
            9u8
        } else {
            0u8
        },
{
    lemma_skips_deep(weights, 0, shift);
    if shift < 32 {
        law_tree_lens_serve(weights, shift);
    }
}

proof fn lemma_skips_deep(weights: Seq<u32>, from: nat, shift: nat)
    requires
        from <= shift <= 32,
        forall|k: nat| from <= k < shift ==> #[trigger] too_deep(weights, k),
    ensures
        code_lens_from(weights, from as int) == code_lens_from(weights, shift as int),
    decreases shift - from,
{
    if from < shift {
        assert(too_deep(weights, from));
        let x = choose|x: int|
            0 <= x < weights.len() && (#[trigger] tree_lens(weights, from)[x]) > CODE_LEN_MAX;
        assert(tree_lens(weights, from)[x] > CODE_LEN_MAX);
        assert(!serves(tree_lens(weights, from), weights));
        lemma_skips_deep(weights, from + 1, shift);
    }
}

/// Where there are two trees, none ends up at the root.
proof fn lemma_some_depth(forest: Seq<TreeView>, i: int)
    requires
        forest.len() >= 2,
        0 <= i < forest.len(),
    ensures
        final_depth(forest, i) > 0,
    decreases forest.len(),
{
    lemma_place_after(forest, i, i);
    if forest.len() >= 3 && place_after(forest, i) != forest.len() - 2 {
        lemma_some_depth(merged_once(forest), place_after(forest, i));
    }
}

/// The sum of `2^(15 - len)` over the first `k` symbols that have a code.
pub open spec fn code_room(lens: Seq<u8>, k: int) -> nat
    decreases k,
{
    if k <= 0 {
        0
    } else {
        code_room(lens, k - 1) + if lens[k - 1] > 0 {
            pow2((15 - lens[k - 1]) as nat)
        } else {
            0nat
        }
    }
}

/// Lengths form a code exactly when none is too long and the codes find room
/// among all bit patterns.
pub proof fn law_is_code(lens: Seq<u8>)
    ensures
        is_code(lens) <==> (forall|s: int| 0 <= s < lens.len() ==> (#[trigger] lens[s]) <= 15) && code_room(
            lens,
            lens.len() as int,
        ) <= 32768,
{
    if forall|s: int| 0 <= s < lens.len() ==> (#[trigger] lens[s]) <= 15 {
        lemma_code_room(lens, lens.len() as int);
        lemma_first_code_sum(lens, 16);
    }
}

proof fn lemma_code_room(lens: Seq<u8>, k: int)
    requires
        0 <= k <= lens.len(),
        forall|s: int| 0 <= s < lens.len() ==> (#[trigger] lens[s]) <= 15,
    ensures
        len_sum(lens, 16, k) == 2 * code_room(lens, k),
    decreases k,
{
    if k > 0 {
        lemma_code_room(lens, k - 1);
        assert(lens[k - 1] <= 15);
        if lens[k - 1] > 0 {
            lemma_pow2_unfold((16 - lens[k - 1]) as nat);
        }
    }
}

/// The codes of a tree with at least two leaves fill all bit patterns, unless it
/// is too deep.
pub proof fn law_tree_is_full(weights: Seq<u32>, shift: nat, x: int, y: int)
    requires
        weights.len() <= ALPHABET_MAX,
        !too_deep(weights, shift),
        0 <= x < y < weights.len(),
        weights[x] > 0,
        weights[y] > 0,
    ensures
        code_room(tree_lens(weights, shift), weights.len() as int) == 32768,
{
    let n = weights.len();
    let lens = tree_lens(weights, shift);
    let start = single_leaves(weights, shift, n as int);
    lemma_single_leaves(weights, shift, n as int);
    lemma_merged(start, 0);
    lemma_tree_leaves(weights, shift);
    lemma_tree_len(weights, shift, x);
    lemma_tree_len(weights, shift, y);
    lemma_used_below(weights, x, y);
    let forest = merged(start);
    let i = used_below(weights, x) as int;
    let j = used_below(weights, y) as int;
    let mx = lemma_leaf_at_end(start, 0, i, 0);
    let my = lemma_leaf_at_end(start, 0, j, 0);
    lemma_single_leaf(weights, shift, n as int, x);
    lemma_single_leaf(weights, shift, n as int, y);
    let leaves = forest[0].leaves;
    assert(leaves[mx].symbol == x && leaves[my].symbol == y);
    assert(forest.drop_last() =~= Seq::<TreeView>::empty());
    assert(forest.last() == forest[0]);
    assert forall|t: int| #[trigger] leaf_count(leaves, t) <= 1 by {
        assert(forest_count(forest.drop_last(), t) == 0);
        assert(forest_count(forest, t) == forest_count(start, t));
    }
    assert forall|k: int| 0 <= k < leaves.len() implies (#[trigger] leaves[k]).symbol < n by {
        lemma_leaf_has_count(leaves, k);
        let t = leaves[k].symbol as int;
        assert(forest_count(forest.drop_last(), t) == 0);
        assert(forest_count(forest, t) == forest_count(start, t));
    }
    lemma_leaf_lens(leaves, n, leaves.len() as int);
    assert(leaves.take(leaves.len() as int) =~= leaves);
    assert forall|k: int| 0 <= k < leaves.len() implies (#[trigger] leaves[k]).depth > 0 && leaves[k].depth
        <= CODE_LEN_MAX by {
        lemma_no_root_leaf(leaves, k);
        assert(lens[leaves[k].symbol as int] == depth_len(leaves[k].depth));
        assert(lens[leaves[k].symbol as int] <= CODE_LEN_MAX);
    }
    assert(no_deeper(leaves, (CODE_LEN_MAX + 1) as int));
    assert(leaf_sum(leaves, 16) == pow2(16));
    lemma2_to64();
    lemma_code_room(lens, n as int);
}

} // verus!
