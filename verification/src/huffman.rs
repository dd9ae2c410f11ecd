//! Canonical prefix codes with a bounded code length.
use vstd::arithmetic::power2::{
    lemma2_to64, lemma_pow2_adds, lemma_pow2_pos, lemma_pow2_unfold, pow2,
};
use vstd::prelude::*;

use crate::bits::{
    bits_value, lemma_bits_value_bound, lemma_bits_value_concat, lemma_value_of_to_bits, to_bits,
    Bits,
};
use crate::codelen::{check_code, code_lens, compute_code_lens, lemma_first_code_bound, serves};

verus! {

/// Longest code, in bits.
pub const CODE_LEN_MAX: u8 = 15;

/// Number of bit patterns of the greatest code length.
pub const CODE_SPACE: usize = 32768;

/// Largest alphabet.
pub const ALPHABET_MAX: usize = 512;

/// What a bit pattern decodes to that is the code of no symbol.
pub const INVALID_SYMBOL: u16 = 65535;

/// The number of symbols below `k` whose code has `l` bits.
pub open spec fn count_len(lens: Seq<u8>, l: int, k: int) -> nat
    decreases k,
{
    if k <= 0 {
        0
    } else {
        count_len(lens, l, k - 1) + if lens[k - 1] == l { 1nat } else { 0nat }
    }
}

/// The first code of `l` bits: codes of a length follow each other, and those
/// of the next length start behind them with one bit appended.
pub open spec fn first_code(lens: Seq<u8>, l: int) -> nat
    decreases l,
{
    if l <= 1 {
        0
    } else {
        2 * (first_code(lens, l - 1) + count_len(lens, l - 1, lens.len() as int))
    }
}

/// The code of the symbol `s`.
pub open spec fn code(lens: Seq<u8>, s: int) -> nat {
    first_code(lens, lens[s] as int) + count_len(lens, lens[s] as int, s)
}

/// The bits of the code of `s`.
pub open spec fn code_bits(lens: Seq<u8>, s: int) -> Seq<bool> {
    to_bits(code(lens, s), lens[s] as nat)
}

/// The lengths leave room for all codes.
pub open spec fn is_code(lens: Seq<u8>) -> bool {
    &&& forall|s: int| 0 <= s < lens.len() ==> (#[trigger] lens[s]) <= CODE_LEN_MAX
    &&& first_code(lens, CODE_LEN_MAX + 1) <= 2 * CODE_SPACE
}

/// The bit pattern `w` of the greatest code length starts with the code of `s`.
pub open spec fn starts_with(lens: Seq<u8>, s: int, w: int) -> bool {
    &&& 0 <= s < lens.len()
    &&& 0 < lens[s] <= CODE_LEN_MAX
    &&& w / pow2((CODE_LEN_MAX - lens[s]) as nat) as int == code(lens, s)
}

/// The symbol whose code the bit pattern `w` starts with.
pub open spec fn decoded_symbol(lens: Seq<u8>, w: int) -> u16 {
    if exists|s: int| starts_with(lens, s, w) {
        (choose|s: int| starts_with(lens, s, w)) as u16
    } else {
        INVALID_SYMBOL
    }
}

/// The number of bits that a decoded symbol takes: none where no code was found.
pub open spec fn taken_len(lens: Seq<u8>, symbol: u16) -> nat {
    if symbol == INVALID_SYMBOL {
        0
    } else {
        lens[symbol as int] as nat
    }
}

/// The code lengths as they are stored, two to a byte.
pub open spec fn table_bytes(lens: Seq<u8>) -> Seq<u8> {
    Seq::new(
        ((lens.len() + 1) / 2) as nat,
        |k: int|
            (lens[2 * k] * 16 + if 2 * k + 1 < lens.len() {
                lens[2 * k + 1] as int
            } else {
                0
            }) as u8,
    )
}

/// The `n` code lengths that are stored in `t` from `pos` on.
pub open spec fn stored_lens(t: Seq<u8>, pos: int, n: nat) -> Seq<u8> {
    Seq::new(
        n,
        |i: int|
            if i % 2 == 0 {
                t[pos + i / 2] / 16
            } else {
                t[pos + i / 2] % 16
            },
    )
}

/// The code lengths are read back from where they are stored.
pub proof fn lemma_stored_lens(t: Seq<u8>, pos: int, lens: Seq<u8>)
    requires
        forall|s: int| 0 <= s < lens.len() ==> (#[trigger] lens[s]) <= CODE_LEN_MAX,
        0 <= pos,
        pos + table_bytes(lens).len() <= t.len(),
        t.subrange(pos, pos + table_bytes(lens).len()) == table_bytes(lens),
    ensures
        stored_lens(t, pos, lens.len()) == lens,
{
    let b = table_bytes(lens);
    assert forall|i: int| 0 <= i < lens.len() implies stored_lens(t, pos, lens.len())[i] == lens[i] by {
        let k = i / 2;
        assert(t.subrange(pos, pos + b.len())[k] == b[k]);
        assert(lens[2 * k] <= 15);
        if 2 * k + 1 < lens.len() {
            assert(lens[2 * k + 1] <= 15);
        }
        assert(t[pos + k] == b[k]);
    }
    assert(stored_lens(t, pos, lens.len()) =~= lens);
}

/// Codes of different lengths do not run into each other.
proof fn lemma_first_code_grows(lens: Seq<u8>, l1: int, l2: int)
    requires
        1 <= l1 < l2,
    ensures
        first_code(lens, l2) >= pow2((l2 - l1) as nat) * (first_code(lens, l1) + count_len(
            lens,
            l1,
            lens.len() as int,
        )),
    decreases l2 - l1,
{
    lemma2_to64();
    if l2 > l1 + 1 {
        lemma_first_code_grows(lens, l1, l2 - 1);
        lemma_pow2_unfold((l2 - l1) as nat);
        let q = pow2((l2 - 1 - l1) as nat) as int;
        let x = (first_code(lens, l1) + count_len(lens, l1, lens.len() as int)) as int;
        assert((2 * q) * x == 2 * (q * x)) by (nonlinear_arith);
    }
}

proof fn lemma_count_mono(lens: Seq<u8>, l: int, a: int, b: int)
    requires
        0 <= a <= b,
    ensures
        count_len(lens, l, a) <= count_len(lens, l, b) <= count_len(lens, l, a) + (b - a),
    decreases b - a,
{
    if a < b {
        lemma_count_mono(lens, l, a, b - 1);
    }
}

/// Every code fits its length.
proof fn lemma_code_fits(lens: Seq<u8>, s: int)
    requires
        is_code(lens),
        0 <= s < lens.len(),
        lens[s] > 0,
    ensures
        code(lens, s) + 1 <= pow2(lens[s] as nat),
{
    let l = lens[s] as int;
    lemma2_to64();
    lemma_first_code_grows(lens, l, 16);
    lemma_count_mono(lens, l, s + 1, lens.len() as int);
    let x = (first_code(lens, l) + count_len(lens, l, lens.len() as int)) as int;
    lemma_pow2_adds((16 - l) as nat, l as nat);
    lemma_pow2_pos((16 - l) as nat);
    let q = pow2((16 - l) as nat) as int;
    let y = pow2(l as nat) as int;
    assert(x <= y) by (nonlinear_arith)
        requires
            q * x <= 65536,
            q * y == 65536,
            q > 0,
    ;
}

/// No bit pattern starts with the codes of two symbols.
proof fn lemma_prefix_free(lens: Seq<u8>, a: int, b: int, w: int)
    requires
        starts_with(lens, a, w),
        starts_with(lens, b, w),
        0 <= w,
    ensures
        a == b,
{
    let la = lens[a] as int;
    let lb = lens[b] as int;
    if la == lb {
        if a < b {
            lemma_count_mono(lens, la, a + 1, b);
        } else if b < a {
            lemma_count_mono(lens, la, b + 1, a);
        }
    } else if la < lb {
        lemma_shorter_code_before(lens, a, b, w);
    } else {
        lemma_shorter_code_before(lens, b, a, w);
    }
}

proof fn lemma_shorter_code_before(lens: Seq<u8>, a: int, b: int, w: int)
    requires
        starts_with(lens, a, w),
        starts_with(lens, b, w),
        0 <= w,
    ensures
        lens[a] >= lens[b],
{
    if lens[a] < lens[b] {
        let la = lens[a] as int;
        let lb = lens[b] as int;
        lemma_first_code_grows(lens, la, lb);
        lemma_count_mono(lens, la, a + 1, lens.len() as int);
        let q = pow2((lb - la) as nat) as int;
        let wa = pow2((15 - la) as nat) as int;
        let wb = pow2((15 - lb) as nat) as int;
        lemma_pow2_adds((lb - la) as nat, (15 - lb) as nat);
        lemma_pow2_pos((lb - la) as nat);
        lemma_pow2_pos((15 - la) as nat);
        lemma_pow2_pos((15 - lb) as nat);
        let ca = code(lens, a) as int;
        let cb = code(lens, b) as int;
        let x = (first_code(lens, la) + count_len(lens, la, lens.len() as int)) as int;
        assert(ca + 1 <= x);
        assert(q * (ca + 1) <= q * x) by (nonlinear_arith)
            requires
                ca + 1 <= x,
                q > 0,
        ;
        assert(cb >= q * (ca + 1));
        vstd::arithmetic::div_mod::lemma_fundamental_div_mod(w, wa);
        vstd::arithmetic::div_mod::lemma_fundamental_div_mod(w, wb);
        assert(w < wa * (ca + 1)) by (nonlinear_arith)
            requires
                w == wa * (w / wa) + w % wa,
                w % wa < wa,
                w / wa == ca,
        ;
        assert(w >= wb * cb) by (nonlinear_arith)
            requires
                w == wb * (w / wb) + w % wb,
                w % wb >= 0,
                w / wb == cb,
        ;
        assert(wb * cb >= wb * (q * (ca + 1))) by (nonlinear_arith)
            requires
                cb >= q * (ca + 1),
                wb > 0,
        ;
        assert(wb * (q * (ca + 1)) == wa * (ca + 1)) by (nonlinear_arith)
            requires
                wa == q * wb,
        ;
    }
}

/// A bit pattern that starts with the code of a symbol decodes to it.
pub proof fn lemma_decoded_symbol(lens: Seq<u8>, s: int, w: int)
    requires
        starts_with(lens, s, w),
        0 <= w,
        lens.len() <= ALPHABET_MAX,
    ensures
        decoded_symbol(lens, w) == s,
{
    let t = choose|t: int| starts_with(lens, t, w);
    lemma_prefix_free(lens, s, t, w);
}

/// What the code of a symbol starts, whatever follows, decodes to the symbol.
pub proof fn law_decode_undoes_code(lens: Seq<u8>, s: int, rest: Seq<bool>)
    requires
        is_code(lens),
        lens.len() <= ALPHABET_MAX,
        0 <= s < lens.len(),
        lens[s] > 0,
        lens[s] + rest.len() == CODE_LEN_MAX,
    ensures
        decoded_symbol(lens, bits_value(code_bits(lens, s) + rest) as int) == s,
{
    let l = lens[s] as nat;
    lemma_code_fits(lens, s);
    lemma_value_of_to_bits(code(lens, s), l);
    lemma_bits_value_concat(code_bits(lens, s), rest);
    lemma_bits_value_bound(rest);
    let w = bits_value(code_bits(lens, s) + rest) as int;
    let q = pow2(rest.len()) as int;
    let c = code(lens, s) as int;
    let r = bits_value(rest) as int;
    vstd::arithmetic::div_mod::lemma_fundamental_div_mod_converse(w, q, c, r);
    lemma_decoded_symbol(lens, s, w);
}

/// Codes are given out in order. The first one is zero, the codes of a length
/// follow each other in the order of their symbols, and a longer code lies
/// behind everything that starts with a shorter one.
pub proof fn law_code_order(lens: Seq<u8>, a: int, b: int)
    requires
        0 <= a < lens.len(),
        0 <= b < lens.len(),
        lens[a] > 0,
        lens[b] > 0,
    ensures
        lens[a] == lens[b] && a < b ==> code(lens, a) < code(lens, b),
        lens[a] == lens[b] && a < b && (forall|k: int| a < k < b ==> (#[trigger] lens[k]) != lens[a])
            ==> code(lens, b) == code(lens, a) + 1,
        lens[a] < lens[b] ==> code(lens, b) >= pow2((lens[b] - lens[a]) as nat) * (code(lens, a) + 1),
        (forall|k: int| 0 <= k < lens.len() && lens[k] > 0 ==> (#[trigger] lens[k]) > lens[a] || (lens[k]
            == lens[a] && k >= a)) ==> code(lens, a) == 0,
        code_bits(lens, a).len() == lens[a],
{
    let la = lens[a] as int;
    crate::bits::lemma_to_bits_len(code(lens, a), lens[a] as nat);
    if lens[a] == lens[b] && a < b {
        lemma_count_mono(lens, la, a + 1, b);
        if forall|k: int| a < k < b ==> (#[trigger] lens[k]) != lens[a] {
            lemma_count_none(lens, la, a + 1, b);
        }
    }
    if lens[a] < lens[b] {
        lemma_first_code_grows(lens, la, lens[b] as int);
        lemma_count_mono(lens, la, a + 1, lens.len() as int);
        let q = pow2((lens[b] - lens[a]) as nat) as int;
        let x = (first_code(lens, la) + count_len(lens, la, lens.len() as int)) as int;
        let c = code(lens, a) as int;
        assert(q * (c + 1) <= q * x) by (nonlinear_arith)
            requires
                c + 1 <= x,
                q >= 0,
        ;
    }
    if forall|k: int|
        0 <= k < lens.len() && lens[k] > 0 ==> (#[trigger] lens[k]) > lens[a] || (lens[k] == lens[a] && k >= a) {
        lemma_count_none(lens, la, 0, a);
        lemma_first_code_zero(lens, la);
    }
}

proof fn lemma_count_none(lens: Seq<u8>, l: int, a: int, b: int)
    requires
        0 <= a <= b <= lens.len(),
        forall|k: int| a <= k < b ==> (#[trigger] lens[k]) != l,
    ensures
        count_len(lens, l, b) == count_len(lens, l, a),
    decreases b - a,
{
    if a < b {
        lemma_count_none(lens, l, a, b - 1);
        assert(lens[b - 1] != l);
    }
}

proof fn lemma_first_code_zero(lens: Seq<u8>, l: int)
    requires
        forall|k: int| 0 <= k < lens.len() && lens[k] > 0 ==> (#[trigger] lens[k]) >= l,
    ensures
        first_code(lens, l) == 0,
    decreases l,
{
    if l > 1 {
        lemma_first_code_zero(lens, l - 1);
        lemma_count_none(lens, l - 1, 0, lens.len() as int);
    }
}

/// A bit pattern decodes to the symbol whose code it starts with, and to none
/// only where it starts with no code.
pub proof fn law_decoded_symbol(lens: Seq<u8>, w: nat, s: int)
    requires
        w < CODE_SPACE,
        lens.len() <= ALPHABET_MAX,
        forall|k: int| 0 <= k < lens.len() ==> (#[trigger] lens[k]) <= 15,
    ensures
        decoded_symbol(lens, w as int) != INVALID_SYMBOL ==> {
            let v = decoded_symbol(lens, w as int) as int;
            &&& v < lens.len()
            &&& lens[v] > 0
            &&& w / pow2((15 - lens[v]) as nat) == code(lens, v)
        },
        0 <= s < lens.len() && lens[s] > 0 && w / pow2((15 - lens[s]) as nat) == code(lens, s)
            ==> decoded_symbol(lens, w as int) == s,
{
    if exists|v: int| starts_with(lens, v, w as int) {
        let v = choose|v: int| starts_with(lens, v, w as int);
        assert(starts_with(lens, v, w as int));
    }
    if 0 <= s < lens.len() && lens[s] > 0 && w / pow2((15 - lens[s]) as nat) == code(lens, s) {
        assert(lens[s] <= 15);
        assert(starts_with(lens, s, w as int));
        lemma_decoded_symbol(lens, s, w as int);
    }
}

fn assign_codes(lens: &Vec<u8>) -> (codes: Vec<u32>)
    requires
        lens@.len() <= ALPHABET_MAX,
        is_code(lens@),
    ensures
        codes@.len() == lens@.len(),
        forall|s: int| 0 <= s < lens@.len() && lens@[s] > 0 ==> (#[trigger] codes@[s]) == code(lens@, s),
{
    let mut codes: Vec<u32> = Vec::new();
    let mut i: usize = 0;
    while i < lens.len()
        invariant
            i <= lens@.len(),
            codes@.len() == i,
        decreases lens@.len() - i,
    {
        codes.push(0);
        i = i + 1;
    }
    let mut next: u32 = 0;
    let mut l: u8 = 1;
    while l <= CODE_LEN_MAX
        invariant
            1 <= l <= CODE_LEN_MAX + 1,
            lens@.len() <= ALPHABET_MAX,
            codes@.len() == lens@.len(),
            next == first_code(lens@, l as int),
            forall|s: int|
                0 <= s < lens@.len() && 0 < lens@[s] < l ==> (#[trigger] codes@[s]) == code(lens@, s),
        decreases CODE_LEN_MAX + 1 - l,
    {
        proof {
            lemma_first_code_bound(lens@, l as int);
            vstd::arithmetic::power2::lemma_pow2_strictly_increases(l as nat, 16);
            lemma2_to64();
        }
        let ghost first = next;
        let mut s: usize = 0;
        while s < lens.len()
            invariant
                s <= lens@.len(),
                1 <= l,
                lens@.len() <= ALPHABET_MAX,
                codes@.len() == lens@.len(),
                first == first_code(lens@, l as int),
                first <= ALPHABET_MAX * 65536,
                next == first + count_len(lens@, l as int, s as int),
                next <= first + s,
                forall|k: int|
                    0 <= k < lens@.len() && 0 < lens@[k] < l ==> (#[trigger] codes@[k]) == code(lens@, k),
                forall|k: int|
                    0 <= k < s && lens@[k] == l ==> (#[trigger] codes@[k]) == code(lens@, k),
            decreases lens@.len() - s,
        {
            if lens[s] == l {
                codes[s] = next;
                next = next + 1;
            }
            s = s + 1;
        }
        next = next * 2;
        l = l + 1;
    }
    codes
}

/// Appends the code lengths to `out`, two to a byte.
fn write_table(lens: &Vec<u8>, out: &mut Vec<u8>)
    requires
        lens@.len() <= ALPHABET_MAX,
        is_code(lens@),
    ensures
        final(out)@ == old(out)@ + table_bytes(lens@),
{
    let half: usize = (lens.len() + 1) / 2;
    let mut k: usize = 0;
    assert(out@ =~= old(out)@ + table_bytes(lens@).take(0));
    while k < half
        invariant
            k <= half,
            half == (lens@.len() + 1) / 2,
            lens@.len() <= ALPHABET_MAX,
            is_code(lens@),
            out@ == old(out)@ + table_bytes(lens@).take(k as int),
        decreases half - k,
    {
        let high: u8 = lens[2 * k];
        let low: u8 = if 2 * k + 1 < lens.len() {
            lens[2 * k + 1]
        } else {
            0
        };
        assert(lens@[2 * k as int] <= CODE_LEN_MAX);
        out.push(high * 16 + low);
        assert(table_bytes(lens@).take(k + 1) =~= table_bytes(lens@).take(k as int).push(
            table_bytes(lens@)[k as int],
        ));
        assert(out@ =~= old(out)@ + table_bytes(lens@).take(k + 1));
        k = k + 1;
    }
    assert(table_bytes(lens@).take(half as int) =~= table_bytes(lens@));
}

/// Writes symbols as bits.
pub struct HuffmanEncoder {
    lens: Vec<u8>,
    codes: Vec<u32>,
}

impl HuffmanEncoder {
    /// The code length of each symbol.
    pub closed spec fn lens(self) -> Seq<u8> {
        self.lens@
    }

    /// The lengths form a code, and the codes are theirs.
    pub closed spec fn wf(self) -> bool {
        &&& self.lens@.len() <= ALPHABET_MAX
        &&& is_code(self.lens@)
        &&& self.codes@.len() == self.lens@.len()
        &&& forall|s: int|
            0 <= s < self.lens@.len() && self.lens@[s] > 0 ==> (#[trigger] self.codes@[s]) == code(
                self.lens@,
                s,
            )
    }

    /// Makes a code for the symbol weights and appends its lengths to `out`.
    pub fn new(weights: &[u32], out: &mut Vec<u8>) -> (encoder: HuffmanEncoder)
        requires
            weights@.len() <= ALPHABET_MAX,
        ensures
            encoder.wf(),
            encoder.lens() == code_lens(weights@),
            serves(encoder.lens(), weights@),
            final(out)@ == old(out)@ + table_bytes(encoder.lens()),
    {
        let lens = compute_code_lens(weights);
        let codes = assign_codes(&lens);
        write_table(&lens, out);
        HuffmanEncoder { lens, codes }
    }

    /// Appends the code of `symbol` to `bits`.
    pub fn encode_to_bits(&self, symbol: u16, bits: &mut Bits)
        requires
            self.wf(),
            symbol < self.lens().len(),
            self.lens()[symbol as int] > 0,
            old(bits).wf(),
            old(bits).pending().len() + CODE_LEN_MAX <= 64,
        ensures
            final(bits).wf(),
            final(bits).pending() == old(bits).pending() + code_bits(self.lens(), symbol as int),
            final(bits).pending().len() == old(bits).pending().len() + self.lens()[symbol as int],
            self.lens()[symbol as int] <= CODE_LEN_MAX,
    {
        proof {
            lemma_code_fits(self.lens@, symbol as int);
            assert(self.codes@[symbol as int] == code(self.lens@, symbol as int));
        }
        bits.put(self.lens[symbol as usize], self.codes[symbol as usize] as u64);
    }
}

/// Reads symbols from bits.
pub struct HuffmanDecoder {
    lens: Vec<u8>,
    table: Vec<u16>,
}

/// The entry `x` for the bit pattern `w` is right as far as the first `k`
/// symbols go.
spec fn entry_for(lens: Seq<u8>, k: int, w: int, x: u16) -> bool {
    if x == INVALID_SYMBOL {
        forall|s: int| 0 <= s < k ==> !starts_with(lens, s, w)
    } else {
        x < k && starts_with(lens, x as int, w)
    }
}

/// The bit patterns that start with the code of `s` are those from the code
/// filled up with zeros to the code filled up with ones.
proof fn lemma_code_range(lens: Seq<u8>, s: int)
    requires
        is_code(lens),
        0 <= s < lens.len(),
        lens[s] > 0,
    ensures
        (code(lens, s) + 1) * pow2((CODE_LEN_MAX - lens[s]) as nat) <= CODE_SPACE,
        forall|w: int|
            0 <= w ==> (#[trigger] starts_with(lens, s, w) <==> code(lens, s) * pow2(
                (CODE_LEN_MAX - lens[s]) as nat,
            ) <= w < (code(lens, s) + 1) * pow2((CODE_LEN_MAX - lens[s]) as nat)),
{
    let l = lens[s] as nat;
    let q = pow2((CODE_LEN_MAX - lens[s]) as nat) as int;
    let c = code(lens, s) as int;
    lemma_code_fits(lens, s);
    lemma_pow2_pos((15 - l) as nat);
    lemma_pow2_adds(l, (15 - l) as nat);
    lemma2_to64();
    let y = pow2(l) as int;
    assert((c + 1) * q <= y * q) by (nonlinear_arith)
        requires
            c + 1 <= y,
            q > 0,
    ;
    assert forall|w: int| 0 <= w implies (#[trigger] starts_with(lens, s, w) <==> c * q <= w < (c
        + 1) * q) by {
        vstd::arithmetic::div_mod::lemma_fundamental_div_mod(w, q);
        let d = w / q;
        let m = w % q;
        assert(c * q <= w < (c + 1) * q <==> d == c) by (nonlinear_arith)
            requires
                w == q * d + m,
                0 <= m < q,
        ;
    }
}

fn fill_table(lens: &Vec<u8>, codes: &Vec<u32>) -> (table: Vec<u16>)
    requires
        lens@.len() <= ALPHABET_MAX,
        is_code(lens@),
        codes@.len() == lens@.len(),
        forall|s: int| 0 <= s < lens@.len() && lens@[s] > 0 ==> (#[trigger] codes@[s]) == code(lens@, s),
    ensures
        table@.len() == CODE_SPACE,
        forall|w: int| 0 <= w < CODE_SPACE ==> (#[trigger] table@[w]) == decoded_symbol(lens@, w),
{
    let mut table: Vec<u16> = Vec::new();
    let mut i: usize = 0;
    while i < CODE_SPACE
        invariant
            i <= CODE_SPACE,
            table@.len() == i,
            forall|w: int| 0 <= w < i ==> (#[trigger] table@[w]) == INVALID_SYMBOL,
        decreases CODE_SPACE - i,
    {
        table.push(INVALID_SYMBOL);
        i = i + 1;
    }
    let mut s: usize = 0;
    while s < lens.len()
        invariant
            s <= lens@.len(),
            lens@.len() <= ALPHABET_MAX,
            is_code(lens@),
            codes@.len() == lens@.len(),
            forall|k: int| 0 <= k < lens@.len() && lens@[k] > 0 ==> (#[trigger] codes@[k]) == code(lens@, k),
            table@.len() == CODE_SPACE,
            forall|w: int| 0 <= w < CODE_SPACE ==> entry_for(lens@, s as int, w, #[trigger] table@[w]),
        decreases lens@.len() - s,
    {
        if lens[s] > 0 {
            let free: u32 = (CODE_LEN_MAX - lens[s]) as u32;
            let width: u32 = 1u32 << free;
            proof {
                lemma2_to64();
                assert(lens@[s as int] <= CODE_LEN_MAX);
                vstd::arithmetic::power2::lemma_pow2_strictly_increases(free as nat, 16);
                vstd::bits::lemma_u32_shl_is_mul(1, free);
                lemma_code_range(lens@, s as int);
                assert(codes@[s as int] == code(lens@, s as int));
                lemma_pow2_pos(free as nat);
                let c = codes@[s as int] as int;
                let q = width as int;
                assert((c + 1) * q == c * q + q) by (nonlinear_arith);
                assert(c * q >= 0) by (nonlinear_arith)
                    requires
                        c >= 0,
                        q >= 0,
                ;
            }
            let from: usize = (codes[s] * width) as usize;
            let to: usize = from + width as usize;
            let ghost before = table@;
            let mut w: usize = from;
            while w < to
                invariant
                    from <= w <= to <= CODE_SPACE,
                    s < lens@.len() <= ALPHABET_MAX,
                    table@.len() == CODE_SPACE,
                    before.len() == CODE_SPACE,
                    forall|v: int| 0 <= v < CODE_SPACE && !(from <= v < w) ==> table@[v] == before[v],
                    forall|v: int| from <= v < w ==> table@[v] == s,
                decreases to - w,
            {
                table[w] = s as u16;
                w = w + 1;
            }
            assert forall|v: int| 0 <= v < CODE_SPACE implies entry_for(
                lens@,
                s + 1,
                v,
                #[trigger] table@[v],
            ) by {
                assert(starts_with(lens@, s as int, v) <==> from <= v < to);
                assert(entry_for(lens@, s as int, v, before[v]));
            }
        } else {
            assert forall|v: int| 0 <= v < CODE_SPACE implies entry_for(
                lens@,
                s + 1,
                v,
                #[trigger] table@[v],
            ) by {
                assert(entry_for(lens@, s as int, v, table@[v]));
            }
        }
        s = s + 1;
    }
    assert forall|w: int| 0 <= w < CODE_SPACE implies (#[trigger] table@[w]) == decoded_symbol(lens@, w) by {
        assert(entry_for(lens@, s as int, w, table@[w]));
        if table@[w] != INVALID_SYMBOL {
            lemma_decoded_symbol(lens@, table@[w] as int, w);
        }
    }
    table
}

impl HuffmanDecoder {
    /// The code length of each symbol.
    pub closed spec fn lens(self) -> Seq<u8> {
        self.lens@
    }

    /// The lengths form a code, and the table decodes it.
    pub closed spec fn wf(self) -> bool {
        &&& self.lens@.len() <= ALPHABET_MAX
        &&& is_code(self.lens@)
        &&& self.table@.len() == CODE_SPACE
        &&& forall|w: int|
            0 <= w < CODE_SPACE ==> (#[trigger] self.table@[w]) == decoded_symbol(self.lens@, w)
    }

    /// Reads the code lengths of `n` symbols from `t`. There is no decoder when
    /// `t` ends before them or they leave no room for all codes.
    pub fn new(n: usize, t: &[u8], pos: &mut usize) -> (decoder: Option<HuffmanDecoder>)
        requires
            n <= ALPHABET_MAX,
            *old(pos) <= t@.len(),
        ensures
            decoder is Some <==> *old(pos) + (n + 1) / 2 <= t@.len() && is_code(
                stored_lens(t@, *old(pos) as int, n as nat),
            ),
            decoder is None ==> *final(pos) == *old(pos),
            decoder matches Some(d) ==> {
                &&& d.wf()
                &&& d.lens() == stored_lens(t@, *old(pos) as int, n as nat)
                &&& *final(pos) == *old(pos) + (n + 1) / 2
            },
    {
        let half: usize = (n + 1) / 2;
        if t.len() - *pos < half {
            return None;
        }
        let mut lens: Vec<u8> = Vec::new();
        let mut i: usize = 0;
        while i < n
            invariant
                i <= n,
                n <= ALPHABET_MAX,
                half == (n + 1) / 2,
                *pos + half <= t@.len() <= usize::MAX,
                lens@.len() == i,
                forall|j: int|
                    0 <= j < i ==> (#[trigger] lens@[j]) == stored_lens(t@, *pos as int, n as nat)[j],
            decreases n - i,
        {
            let byte: u8 = t[*pos + i / 2];
            lens.push(
                if i % 2 == 0 {
                    byte / 16
                } else {
                    byte % 16
                },
            );
            i = i + 1;
        }
        assert(lens@ =~= stored_lens(t@, *pos as int, n as nat));
        if !check_code(&lens) {
            return None;
        }
        *pos = *pos + half;
        let codes = assign_codes(&lens);
        let table = fill_table(&lens, &codes);
        Some(HuffmanDecoder { lens, table })
    }

    /// Takes the code of a symbol from `bits`.
    pub fn decode_from_bits(&self, bits: &mut Bits) -> (symbol: u16)
        requires
            self.wf(),
            old(bits).wf(),
            old(bits).pending().len() >= CODE_LEN_MAX,
        ensures
            symbol == decoded_symbol(
                self.lens(),
                bits_value(old(bits).pending().take(CODE_LEN_MAX as int)) as int,
            ),
            symbol != INVALID_SYMBOL ==> {
                &&& symbol < self.lens().len()
                &&& 0 < self.lens()[symbol as int] <= CODE_LEN_MAX
            },
            final(bits).wf(),
            final(bits).pending() == old(bits).pending().skip(taken_len(self.lens(), symbol) as int),
    {
        let w: u64 = bits.peek(CODE_LEN_MAX);
        proof {
            lemma2_to64();
        }
        let symbol: u16 = self.table[w as usize];
        assert(self.table@[w as int] == decoded_symbol(self.lens@, w as int));
        if symbol == INVALID_SYMBOL {
            assert(bits.pending().skip(0) =~= bits.pending());
            return symbol;
        }
        proof {
            let s = choose|s: int| starts_with(self.lens@, s, w as int);
            assert(starts_with(self.lens@, s, w as int));
        }
        bits.skip(self.lens[symbol as usize]);
        symbol
    }
}

} // verus!
