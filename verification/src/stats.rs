//! Symbol statistics of a chunk.
use std::collections::BTreeSet;

use vstd::prelude::*;

use crate::consts::{LZ_CHUNK_SIZE, LZ_LENID_SIZE, SYMRANK_NUM_SYMBOLS};
use crate::facts::{law_by_frequency, law_weights, lemma_goes_before_total, lemma_occurrences};
use crate::model::{
    alphabet, by_frequency, goes_before, long_lens, occurrences, rank_bytes, symbols, weights,
    MatchItem,
};

verus! {

/// Counts how often each of the `n` smallest symbols occurs.
pub fn count_symbols(s: &Vec<u16>, n: usize) -> (counts: Vec<u32>)
    requires
        s@.len() <= LZ_CHUNK_SIZE,
        forall|k: int| 0 <= k < s@.len() ==> (#[trigger] s@[k]) < n,
    ensures
        counts@ == weights(s@, n as nat),
        counts@.len() == n,
        forall|v: u16| v < n ==> (#[trigger] counts@[v as int]) == s@.to_multiset().count(v),
{
    let mut counts: Vec<u32> = Vec::new();
    let mut i: usize = 0;
    while i < n
        invariant
            i <= n,
            counts@.len() == i,
            forall|v: int| 0 <= v < i ==> counts@[v] == 0,
        decreases n - i,
    {
        counts.push(0);
        i = i + 1;
    }
    let mut k: usize = 0;
    while k < s.len()
        invariant
            k <= s@.len() <= LZ_CHUNK_SIZE,
            forall|j: int| 0 <= j < s@.len() ==> (#[trigger] s@[j]) < n,
            counts@.len() == n,
            forall|v: int| 0 <= v < n ==> (#[trigger] counts@[v]) == occurrences(s@.take(k as int), v),
        decreases s@.len() - k,
    {
        let v: usize = s[k] as usize;
        proof {
            assert(s@.take(k + 1).drop_last() =~= s@.take(k as int));
            lemma_occurrences(s@.take(k as int), v as int);
        }
        let count: u32 = counts[v];
        counts[v] = count + 1;
        k = k + 1;
    }
    assert(s@.take(k as int) =~= s@);
    assert(counts@ =~= weights(s@, n as nat));
    assert forall|v: u16| v < n implies (#[trigger] counts@[v as int]) == s@.to_multiset().count(v) by {
        law_weights(s@, n as nat, v);
    }
    counts
}

/// The symbols of the items.
pub fn collect_symbols(items: &Vec<MatchItem>) -> (r: Vec<u16>)
    ensures
        r@ == symbols(items@),
{
    let mut r: Vec<u16> = Vec::new();
    let mut k: usize = 0;
    while k < items.len()
        invariant
            k <= items@.len(),
            r@.len() == k,
            forall|j: int| 0 <= j < k ==> (#[trigger] r@[j]) == items@[j].symbol_of(),
        decreases items@.len() - k,
    {
        let symbol: u16 = match items[k] {
            MatchItem::Match { symbol, .. } => symbol,
            MatchItem::Symbol { symbol, .. } => symbol,
        };
        r.push(symbol);
        k = k + 1;
    }
    assert(r@ =~= symbols(items@));
    r
}

/// The coded match lengths that do not fit into their symbols.
pub fn collect_long_lens(items: &Vec<MatchItem>) -> (r: Vec<u16>)
    requires
        forall|k: int| 0 <= k < items@.len() ==> (#[trigger] items@[k]).wf(),
    ensures
        r@ == long_lens(items@),
{
    let mut r: Vec<u16> = Vec::new();
    let mut k: usize = 0;
    assert(r@ =~= long_lens(items@.take(0)));
    while k < items.len()
        invariant
            k <= items@.len(),
            r@ == long_lens(items@.take(k as int)),
        decreases items@.len() - k,
    {
        assert(items@.take(k + 1).drop_last() =~= items@.take(k as int));
        match items[k] {
            MatchItem::Match { encoded_match_len, .. } => {
                if encoded_match_len as usize >= LZ_LENID_SIZE - 1 {
                    r.push(encoded_match_len as u16);
                }
            },
            MatchItem::Symbol { .. } => {},
        }
        k = k + 1;
    }
    assert(items@.take(k as int) =~= items@);
    r
}

/// What a symbol is ordered by: how often it occurs in `s`, the most frequent
/// ones first, and then the symbol itself.
spec fn frequency_key(s: Seq<u16>, v: u16) -> (i32, u16) {
    ((0 - occurrences(s, v as int)) as i32, v)
}

/// The keys of the `n` smallest symbols.
spec fn frequency_keys(s: Seq<u16>, n: int) -> Set<(i32, u16)> {
    Set::new(|key: (i32, u16)| key.1 < n && key == frequency_key(s, key.1))
}

/// Every key is followed by greater ones only.
spec fn ascending(keys: Seq<(i32, u16)>) -> bool {
    forall|i: int, j: int|
        #![trigger keys[i], keys[j]]
        0 <= i < j < keys.len() ==> keys[i].0 < keys[j].0 || (keys[i].0 == keys[j].0 && keys[i].1
            < keys[j].1)
}

/// The keys of the set in ascending order.
fn keys_in_order(set: &BTreeSet<(i32, u16)>) -> (keys: Vec<(i32, u16)>)
    ensures
        ascending(keys@),
        keys@.to_set() == set@,
{
    broadcast use {vstd::std_specs::btree::group_btree_axioms, vstd::laws_cmp::group_laws_cmp};

    assert(vstd::laws_cmp::obeys_cmp::<(i32, u16)>());
    assert(vstd::laws_cmp::obeys_cmp::<&(i32, u16)>());
    let mut keys: Vec<(i32, u16)> = Vec::new();
    for key in it: set.iter()
        invariant
            keys@.len() == it.index(),
            forall|j: int| 0 <= j < keys@.len() ==> keys@[j] == *it.seq()[j],
    {
        keys.push(*key);
    }
    let ghost refs = vstd::std_specs::iter::IteratorSpec::remaining(&set.iter());
    assert(keys@ =~= refs.unref());
    assert(vstd::std_specs::btree::increasing_seq(refs));
    assert forall|i: int, j: int|
        #![trigger keys@[i], keys@[j]]
        0 <= i < j < keys@.len() implies keys@[i].0 < keys@[j].0 || (keys@[i].0 == keys@[j].0 && keys@[i].1
        < keys@[j].1) by {
        assert(vstd::std_specs::cmp::OrdSpec::cmp_spec(&refs[i], &refs[j]) is Less);
        assert(*refs[i] == keys@[i]);
        assert(*refs[j] == keys@[j]);
    }
    keys
}

/// Adds a key to the set.
fn add_key(set: &mut BTreeSet<(i32, u16)>, weight: i32, symbol: u16)
    ensures
        final(set)@ == old(set)@.insert((weight, symbol)),
{
    broadcast use vstd::laws_cmp::group_laws_cmp;

    set.insert((weight, symbol));
}

/// The symbols of the keys in ascending order are the symbols by frequency.
proof fn lemma_keys_by_frequency(s: Seq<u16>, keys: Seq<(i32, u16)>, vs: Seq<u16>)
    requires
        s.len() <= LZ_CHUNK_SIZE,
        ascending(keys),
        keys.to_set() == frequency_keys(s, SYMRANK_NUM_SYMBOLS as int),
        vs.len() == keys.len(),
        forall|j: int| 0 <= j < keys.len() ==> (#[trigger] vs[j]) == keys[j].1,
    ensures
        vs == by_frequency(s),
{
    let all = alphabet();
    assert forall|j: int| 0 <= j < keys.len() implies (#[trigger] keys[j]).1 < SYMRANK_NUM_SYMBOLS && keys[j]
        == frequency_key(s, keys[j].1) by {
        assert(keys.to_set().contains(keys[j]));
    }
    assert(vs.no_duplicates()) by {
        assert forall|i: int, j: int| 0 <= i < vs.len() && 0 <= j < vs.len() && i != j implies vs[i] != vs[j] by {
            assert(keys[i] == frequency_key(s, keys[i].1));
            assert(keys[j] == frequency_key(s, keys[j].1));
        }
    }
    assert forall|i: int, j: int| 0 <= i < j < vs.len() implies #[trigger] goes_before(s)(vs[i], vs[j]) by {
        lemma_occurrences(s, vs[i] as int);
        lemma_occurrences(s, vs[j] as int);
        assert(keys[i] == frequency_key(s, vs[i]));
        assert(keys[j] == frequency_key(s, vs[j]));
    }
    assert forall|v: u16| vs.contains(v) <==> all.contains(v) by {
        if all.contains(v) {
            let key = frequency_key(s, v);
            assert(keys.to_set().contains(key));
            let j = choose|j: int| 0 <= j < keys.len() && keys[j] == key;
            assert(vs[j] == v);
        }
        if vs.contains(v) {
            let j = choose|j: int| 0 <= j < vs.len() && vs[j] == v;
            assert(keys[j].1 < SYMRANK_NUM_SYMBOLS);
            assert(all[v as int] == v);
        }
    }
    assert(all.no_duplicates());
    vs.to_multiset_ensures();
    all.to_multiset_ensures();
    vs.lemma_multiset_has_no_duplicates();
    all.lemma_multiset_has_no_duplicates();
    assert forall|v: u16| vs.to_multiset().count(v) == all.to_multiset().count(v) by {
        assert(vs.contains(v) <==> vs.to_multiset().count(v) > 0);
        assert(all.contains(v) <==> all.to_multiset().count(v) > 0);
    }
    assert(vs.to_multiset() =~= all.to_multiset());
    lemma_goes_before_total(s);
    all.lemma_sort_by_ensures(goes_before(s));
    vstd::seq_lib::lemma_sorted_unique(vs, by_frequency(s), goes_before(s));
}

/// All symbols, the most frequent ones first.
pub fn sort_by_frequency(symbols: &Vec<u16>) -> (vs: Vec<u16>)
    requires
        symbols@.len() <= LZ_CHUNK_SIZE,
        forall|k: int| 0 <= k < symbols@.len() ==> (#[trigger] symbols@[k]) < SYMRANK_NUM_SYMBOLS,
    ensures
        vs@ == by_frequency(symbols@),
        vs@.len() == SYMRANK_NUM_SYMBOLS,
        vs@.no_duplicates(),
        forall|j: int, k: int|
            #![trigger vs@[j], vs@[k]]
            0 <= j < k < SYMRANK_NUM_SYMBOLS ==> symbols@.to_multiset().count(vs@[j])
                > symbols@.to_multiset().count(vs@[k]) || (symbols@.to_multiset().count(vs@[j])
                == symbols@.to_multiset().count(vs@[k]) && vs@[j] < vs@[k]),
{
    let counts = count_symbols(symbols, SYMRANK_NUM_SYMBOLS);
    let ghost s = symbols@;
    let mut set: BTreeSet<(i32, u16)> = BTreeSet::new();
    let mut i: usize = 0;
    assert(set@ =~= frequency_keys(s, 0));
    while i < SYMRANK_NUM_SYMBOLS
        invariant
            i <= SYMRANK_NUM_SYMBOLS,
            s.len() <= LZ_CHUNK_SIZE,
            counts@ == weights(s, SYMRANK_NUM_SYMBOLS as nat),
            set@ == frequency_keys(s, i as int),
        decreases SYMRANK_NUM_SYMBOLS - i,
    {
        proof {
            lemma_occurrences(s, i as int);
        }
        add_key(&mut set, -(counts[i] as i32), i as u16);
        assert(set@ =~= frequency_keys(s, i + 1));
        i = i + 1;
    }
    let keys = keys_in_order(&set);
    let mut vs: Vec<u16> = Vec::new();
    let mut k: usize = 0;
    while k < keys.len()
        invariant
            k <= keys@.len(),
            vs@.len() == k,
            forall|j: int| 0 <= j < k ==> (#[trigger] vs@[j]) == keys@[j].1,
        decreases keys@.len() - k,
    {
        vs.push(keys[k].1);
        k = k + 1;
    }
    proof {
        lemma_keys_by_frequency(s, keys@, vs@);
        law_by_frequency(s);
    }
    vs
}

/// Appends the symbols `vs` to `out`, each in two bytes.
pub fn write_ranks(vs: &Vec<u16>, out: &mut Vec<u8>)
    ensures
        final(out)@ == old(out)@ + rank_bytes(vs@),
{
    let mut k: usize = 0;
    assert(out@ =~= old(out)@ + rank_bytes(vs@.take(0)));
    while k < vs.len()
        invariant
            k <= vs@.len(),
            out@ == old(out)@ + rank_bytes(vs@.take(k as int)),
        decreases vs@.len() - k,
    {
        let v: u16 = vs[k];
        out.push((v % 256) as u8);
        out.push((v / 256) as u8);
        proof {
            let a = rank_bytes(vs@.take(k as int));
            let b = rank_bytes(vs@.take(k + 1));
            assert forall|i: int| 0 <= i < b.len() implies b[i] == a.push((v % 256) as u8).push(
                (v / 256) as u8,
            )[i] by {
                if i < 2 * k {
                    assert(vs@.take(k as int)[i / 2] == vs@.take(k + 1)[i / 2]);
                }
            }
            assert(b =~= a.push((v % 256) as u8).push((v / 256) as u8));
            assert(out@ =~= old(out)@ + b);
        }
        k = k + 1;
    }
    assert(vs@.take(k as int) =~= vs@);
}

} // verus!
