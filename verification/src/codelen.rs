//! Code lengths for symbol weights: a weight tree whose depth is bounded by
//! flattening the weights.
use vstd::arithmetic::power2::{lemma2_to64, pow2};
use vstd::prelude::*;

use crate::huffman::{count_len, first_code, is_code, ALPHABET_MAX, CODE_LEN_MAX, CODE_SPACE};

verus! {

/// A symbol in a weight tree and its depth below the root.
#[derive(Clone, Copy)]
pub struct Leaf {
    pub symbol: u16,
    pub depth: u16,
}

/// A weight tree, known by its leaves.
#[verifier::ext_equal]
pub struct TreeView {
    pub weight: u64,
    pub leaves: Seq<Leaf>,
}

/// The leaves one level further down.
pub open spec fn lowered(leaves: Seq<Leaf>) -> Seq<Leaf> {
    leaves.map_values(|x: Leaf| Leaf { symbol: x.symbol, depth: (x.depth + 1) as u16 })
}

/// The sum of two weights, at most the largest machine word.
pub open spec fn weight_sum(a: u64, b: u64) -> u64 {
    if a + b > u64::MAX {
        u64::MAX
    } else {
        (a + b) as u64
    }
}

/// The tree with the children `a` and `b`.
pub open spec fn joined(a: TreeView, b: TreeView) -> TreeView {
    TreeView { weight: weight_sum(a.weight, b.weight), leaves: lowered(a.leaves) + lowered(b.leaves) }
}

/// The first lightest one of the first `k` trees.
pub open spec fn lightest(forest: Seq<TreeView>, k: int) -> int
    decreases k,
{
    if k <= 1 {
        0
    } else {
        let j = lightest(forest, k - 1);
        if forest[k - 1].weight < forest[j].weight {
            k - 1
        } else {
            j
        }
    }
}

/// The forest after its two lightest trees were joined.
pub open spec fn merged_once(forest: Seq<TreeView>) -> Seq<TreeView> {
    let a = lightest(forest, forest.len() as int);
    let others = forest.remove(a);
    let b = lightest(others, others.len() as int);
    others.remove(b).push(joined(forest[a], others[b]))
}

/// The lightest tree is one of those that are looked at.
pub proof fn lemma_lightest_in_range(forest: Seq<TreeView>, k: int)
    requires
        1 <= k,
    ensures
        0 <= lightest(forest, k) < k,
    decreases k,
{
    if k > 1 {
        lemma_lightest_in_range(forest, k - 1);
    }
}

/// Joining two trees leaves one tree less.
pub proof fn lemma_merged_once_len(forest: Seq<TreeView>)
    requires
        forest.len() >= 2,
    ensures
        merged_once(forest).len() == forest.len() - 1,
{
    let a = lightest(forest, forest.len() as int);
    lemma_lightest_in_range(forest, forest.len() as int);
    let others = forest.remove(a);
    lemma_lightest_in_range(others, others.len() as int);
}

/// The forest after joining the lightest trees until at most one is left.
pub open spec fn merged(forest: Seq<TreeView>) -> Seq<TreeView>
    decreases forest.len(),
{
    if forest.len() <= 1 {
        forest
    } else {
        proof {
            lemma_merged_once_len(forest);
        }
        merged(merged_once(forest))
    }
}

/// The weight `w` flattened by `shift` bits, but never to nothing.
pub open spec fn flattened(w: u32, shift: nat) -> u64 {
    let x = w as nat / pow2(shift);
    if x == 0 {
        1
    } else {
        x as u64
    }
}

/// One tree for each of the first `k` symbols that has a weight.
pub open spec fn single_leaves(weights: Seq<u32>, shift: nat, k: int) -> Seq<TreeView>
    decreases k,
{
    if k <= 0 {
        Seq::empty()
    } else {
        let rest = single_leaves(weights, shift, k - 1);
        if weights[k - 1] > 0 {
            rest.push(
                TreeView {
                    weight: flattened(weights[k - 1], shift),
                    leaves: seq![Leaf { symbol: (k - 1) as u16, depth: 0 }],
                },
            )
        } else {
            rest
        }
    }
}

/// The code length of a leaf at `depth`: a code has at least one bit, and a
/// leaf that is too deep gets a length that no code may have.
pub open spec fn depth_len(depth: u16) -> u8 {
    if depth == 0 {
        1
    } else if depth > CODE_LEN_MAX {
        (CODE_LEN_MAX + 1) as u8
    } else {
        depth as u8
    }
}

/// The code lengths of `n` symbols that the first `k` leaves give.
pub open spec fn leaf_lens(leaves: Seq<Leaf>, n: nat, k: int) -> Seq<u8>
    decreases k,
{
    if k <= 0 {
        Seq::new(n, |i: int| 0u8)
    } else {
        leaf_lens(leaves, n, k - 1).update(
            leaves[k - 1].symbol as int,
            depth_len(leaves[k - 1].depth),
        )
    }
}

/// The code lengths that the tree for the flattened weights gives.
pub open spec fn tree_lens(weights: Seq<u32>, shift: nat) -> Seq<u8> {
    let forest = merged(single_leaves(weights, shift, weights.len() as int));
    if forest.len() == 0 {
        Seq::new(weights.len(), |i: int| 0u8)
    } else {
        leaf_lens(forest[0].leaves, weights.len(), forest[0].leaves.len() as int)
    }
}

/// The lengths form a code that has a word for every symbol with a weight.
pub open spec fn serves(lens: Seq<u8>, weights: Seq<u32>) -> bool {
    &&& lens.len() == weights.len()
    &&& is_code(lens)
    &&& forall|s: int| 0 <= s < weights.len() ==> (weights[s] > 0 ==> (#[trigger] lens[s]) > 0)
}

/// The same length for every symbol that has a weight.
pub open spec fn flat_lens(weights: Seq<u32>) -> Seq<u8> {
    Seq::new(
        weights.len(),
        |i: int|
            if weights[i] > 0 {
                9u8
            } else {
                0u8
            },
    )
}

/// The code lengths of the least flattened tree, from `shift` on, that gives a
/// code within the length limit.
pub open spec fn code_lens_from(weights: Seq<u32>, shift: int) -> Seq<u8>
    decreases 32 - shift,
{
    if shift >= 32 {
        flat_lens(weights)
    } else if serves(tree_lens(weights, shift as nat), weights) {
        tree_lens(weights, shift as nat)
    } else {
        code_lens_from(weights, shift + 1)
    }
}

/// The code lengths for the symbol weights.
pub open spec fn code_lens(weights: Seq<u32>) -> Seq<u8> {
    code_lens_from(weights, 0)
}

proof fn lemma_count_bound(lens: Seq<u8>, l: int, k: int)
    requires
        0 <= k,
    ensures
        count_len(lens, l, k) <= k,
    decreases k,
{
    if k > 0 {
        lemma_count_bound(lens, l, k - 1);
    }
}

/// The codes of any lengths stay small enough for machine arithmetic.
pub proof fn lemma_first_code_bound(lens: Seq<u8>, l: int)
    requires
        1 <= l,
        lens.len() <= ALPHABET_MAX,
    ensures
        first_code(lens, l) <= ALPHABET_MAX * (pow2(l as nat) - 2),
        count_len(lens, l, lens.len() as int) <= ALPHABET_MAX,
    decreases l,
{
    lemma2_to64();
    lemma_count_bound(lens, l, lens.len() as int);
    if l > 1 {
        lemma_first_code_bound(lens, l - 1);
        vstd::arithmetic::power2::lemma_pow2_unfold(l as nat);
    }
}

proof fn lemma_flat_first_code(weights: Seq<u32>, l: int)
    requires
        weights.len() <= ALPHABET_MAX,
        1 <= l <= 16,
    ensures
        l <= 9 ==> first_code(flat_lens(weights), l) == 0,
        l >= 10 ==> first_code(flat_lens(weights), l) <= ALPHABET_MAX * pow2((l - 9) as nat),
    decreases l,
{
    let lens = flat_lens(weights);
    lemma2_to64();
    if l > 1 {
        lemma_flat_first_code(weights, l - 1);
        lemma_count_bound(lens, l - 1, lens.len() as int);
        if l - 1 != 9 {
            lemma_flat_count(weights, l - 1, lens.len() as int);
        }
        if l >= 10 {
            vstd::arithmetic::power2::lemma_pow2_unfold((l - 9) as nat);
        }
    }
}

proof fn lemma_flat_count(weights: Seq<u32>, l: int, k: int)
    requires
        0 <= k <= weights.len(),
        l != 9,
        l != 0,
    ensures
        count_len(flat_lens(weights), l, k) == 0,
    decreases k,
{
    if k > 0 {
        lemma_flat_count(weights, l, k - 1);
    }
}

/// The chosen lengths always form a code for the weights.
pub proof fn lemma_code_lens_serve(weights: Seq<u32>, shift: int)
    requires
        weights.len() <= ALPHABET_MAX,
    ensures
        serves(code_lens_from(weights, shift), weights),
    decreases 32 - shift,
{
    if shift >= 32 {
        lemma2_to64();
        lemma_flat_first_code(weights, 16);
    } else if !serves(tree_lens(weights, shift as nat), weights) {
        lemma_code_lens_serve(weights, shift + 1);
    }
}

/// A weight tree.
pub struct Tree {
    pub weight: u64,
    pub leaves: Vec<Leaf>,
}

impl View for Tree {
    type V = TreeView;

    open spec fn view(&self) -> TreeView {
        TreeView { weight: self.weight, leaves: self.leaves@ }
    }
}

/// The mathematical states of the trees.
pub open spec fn forest_view(forest: Seq<Tree>) -> Seq<TreeView> {
    forest.map_values(|t: Tree| t@)
}

/// No leaf is deeper than `depth`, and all symbols are below `n`.
spec fn leaves_within(leaves: Seq<Leaf>, depth: int, n: int) -> bool {
    forall|i: int|
        0 <= i < leaves.len() ==> (#[trigger] leaves[i]).depth <= depth && leaves[i].symbol < n
}

spec fn forest_within(forest: Seq<Tree>, depth: int, n: int) -> bool {
    forall|i: int| 0 <= i < forest.len() ==> leaves_within((#[trigger] forest[i]).leaves@, depth, n)
}

fn find_lightest(forest: &Vec<Tree>) -> (r: usize)
    requires
        forest@.len() > 0,
    ensures
        r == lightest(forest_view(forest@), forest@.len() as int),
        r < forest@.len(),
{
    let mut r: usize = 0;
    let mut k: usize = 1;
    while k < forest.len()
        invariant
            1 <= k <= forest@.len(),
            r == lightest(forest_view(forest@), k as int),
            r < k,
        decreases forest@.len() - k,
    {
        if forest[k].weight < forest[r].weight {
            r = k;
        }
        k = k + 1;
    }
    r
}

fn append_lowered(out: &mut Vec<Leaf>, leaves: &Vec<Leaf>, Ghost(depth): Ghost<int>, Ghost(n): Ghost<int>)
    requires
        leaves_within(leaves@, depth, n),
        leaves_within(old(out)@, depth + 1, n),
        depth < ALPHABET_MAX,
    ensures
        final(out)@ == old(out)@ + lowered(leaves@),
        leaves_within(final(out)@, depth + 1, n),
{
    let mut i: usize = 0;
    while i < leaves.len()
        invariant
            i <= leaves@.len(),
            leaves_within(leaves@, depth, n),
            leaves_within(out@, depth + 1, n),
            depth < ALPHABET_MAX,
            out@ == old(out)@ + lowered(leaves@.take(i as int)),
        decreases leaves@.len() - i,
    {
        let x = leaves[i];
        out.push(Leaf { symbol: x.symbol, depth: x.depth + 1 });
        assert(lowered(leaves@.take(i + 1)) =~= lowered(leaves@.take(i as int)).push(
            Leaf { symbol: x.symbol, depth: (x.depth + 1) as u16 },
        ));
        assert(out@ =~= old(out)@ + lowered(leaves@.take(i + 1)));
        i = i + 1;
    }
    assert(leaves@.take(leaves@.len() as int) =~= leaves@);
}

fn join(a: Tree, b: Tree, Ghost(depth): Ghost<int>, Ghost(n): Ghost<int>) -> (t: Tree)
    requires
        leaves_within(a.leaves@, depth, n),
        leaves_within(b.leaves@, depth, n),
        0 <= depth < ALPHABET_MAX,
    ensures
        t@ == joined(a@, b@),
        leaves_within(t.leaves@, depth + 1, n),
{
    let mut leaves: Vec<Leaf> = Vec::new();
    append_lowered(&mut leaves, &a.leaves, Ghost(depth), Ghost(n));
    append_lowered(&mut leaves, &b.leaves, Ghost(depth), Ghost(n));
    let weight: u64 = if a.weight > u64::MAX - b.weight {
        u64::MAX
    } else {
        a.weight + b.weight
    };
    let t = Tree { weight, leaves };
    assert(t@ =~= joined(a@, b@));
    t
}

fn merge_all(forest: &mut Vec<Tree>, Ghost(n): Ghost<int>)
    requires
        old(forest)@.len() <= ALPHABET_MAX,
        forest_within(old(forest)@, 0, n),
    ensures
        forest_view(final(forest)@) == merged(forest_view(old(forest)@)),
        forest_within(final(forest)@, ALPHABET_MAX as int, n),
        final(forest)@.len() <= 1,
{
    let ghost size = forest@.len();
    while forest.len() > 1
        invariant
            size <= ALPHABET_MAX,
            forest@.len() <= size,
            forest_within(forest@, size - forest@.len(), n),
            merged(forest_view(forest@)) == merged(forest_view(old(forest)@)),
        decreases forest@.len(),
    {
        let ghost f0 = forest@;
        let ghost depth = size - forest@.len();
        let i: usize = find_lightest(forest);
        let a = forest.remove(i);
        let ghost f1 = forest@;
        assert(forest_view(f1) =~= forest_view(f0).remove(i as int));
        let j: usize = find_lightest(forest);
        let b = forest.remove(j);
        let ghost f2 = forest@;
        assert(forest_view(f2) =~= forest_view(f1).remove(j as int));
        assert(a == f0[i as int]);
        assert(b == f1[j as int]);
        assert(forall|k: int| 0 <= k < f1.len() ==> f1[k] == f0[if k < i { k } else { k + 1 }]);
        assert(forall|k: int| 0 <= k < f2.len() ==> f2[k] == f1[if k < j { k } else { k + 1 }]);
        let t = join(a, b, Ghost(depth as int), Ghost(n));
        forest.push(t);
        assert(forest_view(forest@) =~= merged_once(forest_view(f0)));
        assert forall|k: int| 0 <= k < forest@.len() implies leaves_within(
            (#[trigger] forest@[k]).leaves@,
            depth + 1,
            n,
        ) by {
            if k < f2.len() {
                let k1 = if k < j { k } else { k + 1 };
                let k0 = if k1 < i { k1 } else { k1 + 1 };
                assert(forest@[k] == f0[k0]);
                assert(leaves_within(f0[k0].leaves@, depth as int, n));
            }
        }
    }
    assert forall|k: int| 0 <= k < forest@.len() implies leaves_within(
        (#[trigger] forest@[k]).leaves@,
        ALPHABET_MAX as int,
        n,
    ) by {
        assert(leaves_within(forest@[k].leaves@, size - forest@.len(), n));
    }
}

fn make_leaves(weights: &[u32], shift: u32) -> (forest: Vec<Tree>)
    requires
        weights@.len() <= ALPHABET_MAX,
        shift < 32,
    ensures
        forest_view(forest@) == single_leaves(weights@, shift as nat, weights@.len() as int),
        forest_within(forest@, 0, weights@.len() as int),
        forest@.len() <= weights@.len(),
{
    let mut forest: Vec<Tree> = Vec::new();
    let mut k: usize = 0;
    assert(forest_view(forest@) =~= single_leaves(weights@, shift as nat, 0));
    while k < weights.len()
        invariant
            k <= weights@.len(),
            weights@.len() <= ALPHABET_MAX,
            shift < 32,
            forest_view(forest@) == single_leaves(weights@, shift as nat, k as int),
            forest_within(forest@, 0, weights@.len() as int),
            forest@.len() <= k,
        decreases weights@.len() - k,
    {
        let w: u32 = weights[k];
        if w > 0 {
            let x: u32 = w >> shift;
            proof {
                vstd::bits::lemma_u32_shr_is_div(w, shift);
            }
            let weight: u64 = if x == 0 {
                1
            } else {
                x as u64
            };
            let mut leaves: Vec<Leaf> = Vec::new();
            leaves.push(Leaf { symbol: k as u16, depth: 0 });
            let ghost before = forest@;
            let t = Tree { weight, leaves };
            assert(t@.leaves =~= seq![Leaf { symbol: k as u16, depth: 0 }]);
            forest.push(t);
            assert(forest_view(forest@) =~= forest_view(before).push(t@));
        }
        k = k + 1;
    }
    forest
}

fn lens_of_leaves(leaves: &Vec<Leaf>, n: usize) -> (lens: Vec<u8>)
    requires
        leaves_within(leaves@, ALPHABET_MAX as int, n as int),
    ensures
        lens@ == leaf_lens(leaves@, n as nat, leaves@.len() as int),
        lens@.len() == n,
{
    let mut lens: Vec<u8> = Vec::new();
    let mut i: usize = 0;
    while i < n
        invariant
            i <= n,
            lens@.len() == i,
            forall|j: int| 0 <= j < i ==> lens@[j] == 0,
        decreases n - i,
    {
        lens.push(0);
        i = i + 1;
    }
    assert(lens@ =~= leaf_lens(leaves@, n as nat, 0));
    let mut k: usize = 0;
    while k < leaves.len()
        invariant
            k <= leaves@.len(),
            lens@.len() == n,
            leaves_within(leaves@, ALPHABET_MAX as int, n as int),
            lens@ == leaf_lens(leaves@, n as nat, k as int),
        decreases leaves@.len() - k,
    {
        let leaf = leaves[k];
        let len: u8 = if leaf.depth == 0 {
            1
        } else if leaf.depth > CODE_LEN_MAX as u16 {
            CODE_LEN_MAX + 1
        } else {
            leaf.depth as u8
        };
        lens[leaf.symbol as usize] = len;
        k = k + 1;
    }
    lens
}

fn compute_tree_lens(weights: &[u32], shift: u32) -> (lens: Vec<u8>)
    requires
        weights@.len() <= ALPHABET_MAX,
        shift < 32,
    ensures
        lens@ == tree_lens(weights@, shift as nat),
        lens@.len() == weights@.len(),
{
    let mut forest = make_leaves(weights, shift);
    merge_all(&mut forest, Ghost(weights@.len() as int));
    assert(forest_view(forest@).len() == forest@.len());
    if forest.len() == 0 {
        let empty: Vec<Leaf> = Vec::new();
        let lens = lens_of_leaves(&empty, weights.len());
        assert(lens@ =~= Seq::new(weights@.len(), |i: int| 0u8));
        lens
    } else {
        assert(forest_view(forest@)[0] == forest@[0]@);
        lens_of_leaves(&forest[0].leaves, weights.len())
    }
}

/// Tells whether the lengths leave room for all codes.
pub fn check_code(lens: &Vec<u8>) -> (ok: bool)
    requires
        lens@.len() <= ALPHABET_MAX,
    ensures
        ok == is_code(lens@),
{
    let mut i: usize = 0;
    while i < lens.len()
        invariant
            i <= lens@.len(),
            forall|j: int| 0 <= j < i ==> (#[trigger] lens@[j]) <= CODE_LEN_MAX,
        decreases lens@.len() - i,
    {
        if lens[i] > CODE_LEN_MAX {
            return false;
        }
        i = i + 1;
    }
    let mut next: u32 = 0;
    let mut l: u8 = 1;
    proof {
        lemma2_to64();
    }
    while l <= CODE_LEN_MAX
        invariant
            1 <= l <= CODE_LEN_MAX + 1,
            lens@.len() <= ALPHABET_MAX,
            next == first_code(lens@, l as int),
        decreases CODE_LEN_MAX + 1 - l,
    {
        proof {
            lemma_first_code_bound(lens@, l as int);
            vstd::arithmetic::power2::lemma_pow2_strictly_increases(l as nat, 16);
            lemma2_to64();
        }
        let ghost first = next;
        let mut s: usize = 0;
        while s < lens.len()
            invariant
                s <= lens@.len(),
                lens@.len() <= ALPHABET_MAX,
                first <= ALPHABET_MAX * 65536,
                next == first + count_len(lens@, l as int, s as int),
                next <= first + s,
            decreases lens@.len() - s,
        {
            if lens[s] == l {
                next = next + 1;
            }
            s = s + 1;
        }
        next = next * 2;
        l = l + 1;
    }
    next <= 2 * CODE_SPACE as u32
}

fn check_serves(lens: &Vec<u8>, weights: &[u32]) -> (ok: bool)
    requires
        lens@.len() == weights@.len(),
        weights@.len() <= ALPHABET_MAX,
    ensures
        ok == serves(lens@, weights@),
{
    if !check_code(lens) {
        return false;
    }
    let mut i: usize = 0;
    while i < lens.len()
        invariant
            i <= lens@.len(),
            lens@.len() == weights@.len(),
            forall|s: int| 0 <= s < i ==> (weights@[s] > 0 ==> (#[trigger] lens@[s]) > 0),
        decreases lens@.len() - i,
    {
        if weights[i] > 0 && lens[i] == 0 {
            assert(!(lens@[i as int] > 0));
            return false;
        }
        i = i + 1;
    }
    true
}

/// Computes the code lengths for the symbol weights.
pub fn compute_code_lens(weights: &[u32]) -> (lens: Vec<u8>)
    requires
        weights@.len() <= ALPHABET_MAX,
    ensures
        lens@ == code_lens(weights@),
        serves(lens@, weights@),
{
    let mut shift: u32 = 0;
    while shift < 32
        invariant
            shift <= 32,
            weights@.len() <= ALPHABET_MAX,
            code_lens(weights@) == code_lens_from(weights@, shift as int),
        decreases 32 - shift,
    {
        let lens = compute_tree_lens(weights, shift);
        if check_serves(&lens, weights) {
            return lens;
        }
        shift = shift + 1;
    }
    let mut lens: Vec<u8> = Vec::new();
    let mut i: usize = 0;
    while i < weights.len()
        invariant
            i <= weights@.len(),
            lens@.len() == i,
            forall|j: int| 0 <= j < i ==> lens@[j] == flat_lens(weights@)[j],
        decreases weights@.len() - i,
    {
        lens.push(
            if weights[i] > 0 {
                9
            } else {
                0
            },
        );
        i = i + 1;
    }
    proof {
        assert(lens@ =~= flat_lens(weights@));
        lemma_code_lens_serve(weights@, 32);
    }
    lens
}

} // verus!
