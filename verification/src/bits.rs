//! Bit streams, most significant bit first, and the register through which
//! they are written and read.
use vstd::arithmetic::power2::{lemma_pow2_pos, lemma_pow2_unfold, pow2};
use vstd::prelude::*;

verus! {

/// The lowest `n` bits of `v`, most significant first.
pub open spec fn to_bits(v: nat, n: nat) -> Seq<bool>
    decreases n,
{
    if n == 0 {
        Seq::empty()
    } else {
        to_bits(v / 2, (n - 1) as nat).push(v % 2 == 1)
    }
}

/// The number that the bits `s` write down, most significant first.
pub open spec fn bits_value(s: Seq<bool>) -> nat
    decreases s.len(),
{
    if s.len() == 0 {
        0
    } else {
        2 * bits_value(s.drop_last()) + if s.last() { 1nat } else { 0nat }
    }
}

/// The bit at `i`, where the stream goes on with zeros after its end.
pub open spec fn bit_or_zero(s: Seq<bool>, i: int) -> bool {
    0 <= i < s.len() && s[i]
}

/// The byte made of the eight bits from `i` on.
pub open spec fn byte_at(s: Seq<bool>, i: int) -> u8 {
    bits_value(Seq::new(8, |j: int| bit_or_zero(s, i + j))) as u8
}

/// The bits of the bytes `t`, in order.
pub open spec fn bytes_bits(t: Seq<u8>) -> Seq<bool> {
    Seq::new(8 * t.len(), |i: int| to_bits(t[i / 8] as nat, 8)[i % 8])
}

/// The bytes that hold the bits `s`, the last one filled up with zeros.
pub open spec fn pack(s: Seq<bool>) -> Seq<u8> {
    Seq::new(((s.len() + 7) / 8) as nat, |k: int| byte_at(s, 8 * k))
}

/// The `n` bits of the bytes `t` from bit `p` on, zeros after the end.
pub open spec fn bits_at(t: Seq<u8>, p: int, n: nat) -> Seq<bool> {
    Seq::new(n, |i: int| bit_or_zero(bytes_bits(t), p + i))
}

/// The number that the `n` bits of `t` from bit `p` on write down.
pub open spec fn value_at(t: Seq<u8>, p: int, n: nat) -> nat {
    bits_value(bits_at(t, p, n))
}

/// There are as many bits as were asked for.
pub proof fn lemma_to_bits_len(v: nat, n: nat)
    ensures
        to_bits(v, n).len() == n,
    decreases n,
{
    if n > 0 {
        lemma_to_bits_len(v / 2, (n - 1) as nat);
    }
}

/// Reading back the lowest `n` bits of a number below `2^n` gives it again.
pub proof fn lemma_value_of_to_bits(v: nat, n: nat)
    requires
        v < pow2(n),
    ensures
        bits_value(to_bits(v, n)) == v,
        to_bits(v, n).len() == n,
    decreases n,
{
    lemma_to_bits_len(v, n);
    if n == 0 {
        assert(pow2(0) == 1) by {
            vstd::arithmetic::power2::lemma2_to64();
        }
    } else {
        lemma_pow2_unfold(n);
        lemma_value_of_to_bits(v / 2, (n - 1) as nat);
        assert(to_bits(v, n).drop_last() =~= to_bits(v / 2, (n - 1) as nat));
    }
}

/// The value of `n` bits is below `2^n`.
pub proof fn lemma_bits_value_bound(s: Seq<bool>)
    ensures
        bits_value(s) < pow2(s.len()),
    decreases s.len(),
{
    if s.len() == 0 {
        vstd::arithmetic::power2::lemma2_to64();
    } else {
        lemma_bits_value_bound(s.drop_last());
        lemma_pow2_unfold(s.len());
    }
}

/// Writing down the value of bits gives them again.
pub proof fn lemma_to_bits_of_value(s: Seq<bool>)
    ensures
        to_bits(bits_value(s), s.len()) == s,
    decreases s.len(),
{
    if s.len() == 0 {
        assert(to_bits(bits_value(s), s.len()) =~= s);
    } else {
        lemma_to_bits_of_value(s.drop_last());
        assert(bits_value(s) / 2 == bits_value(s.drop_last()));
        assert(to_bits(bits_value(s), s.len()) =~= s);
    }
}

/// Bits in front weigh more by the number of bits behind them.
pub proof fn lemma_bits_value_concat(a: Seq<bool>, b: Seq<bool>)
    ensures
        bits_value(a + b) == bits_value(a) * pow2(b.len()) + bits_value(b),
    decreases b.len(),
{
    if b.len() == 0 {
        vstd::arithmetic::power2::lemma2_to64();
        assert(a + b =~= a);
    } else {
        lemma_bits_value_concat(a, b.drop_last());
        lemma_pow2_unfold(b.len());
        assert((a + b).drop_last() =~= a + b.drop_last());
        let x = bits_value(a) as int;
        let q = pow2((b.len() - 1) as nat) as int;
        assert(x * (2 * q) == 2 * (x * q)) by (nonlinear_arith);
    }
}

/// The bit of weight `2^k` in a machine word.
spec fn word_bit(v: u64, k: int) -> bool {
    (v >> (k as u64)) & 1 == 1
}

proof fn lemma_to_bits_word(v: u64, n: nat, i: int)
    requires
        n <= 64,
        0 <= i < n,
    ensures
        to_bits(v as nat, n).len() == n,
        to_bits(v as nat, n)[i] == word_bit(v, n - 1 - i),
    decreases n,
{
    lemma_to_bits_len(v as nat, n);
    lemma_to_bits_len(v as nat / 2, (n - 1) as nat);
    if i == n - 1 {
        assert((v >> 0u64) & 1 == v % 2) by (bit_vector);
    } else {
        let h: u64 = v / 2;
        lemma_to_bits_word(h, (n - 1) as nat, i);
        let k: u64 = (n - 2 - i) as u64;
        assert(((v / 2) >> k) & 1 == (v >> ((k + 1) as u64)) & 1) by (bit_vector)
            requires
                k < 63,
        ;
    }
}

/// Shifting and masking a word selects a run of its bits.
proof fn lemma_word_field(v: u64, len: nat, shift: u64, n: u64)
    requires
        n <= 32,
        shift + n <= len <= 64,
        shift < 64,
    ensures
        to_bits(((v >> shift) & (((1u64 << n) - 1) as u64)) as nat, n as nat) == to_bits(
            v as nat,
            len,
        ).subrange(len - shift - n, len - shift),
        ((v >> shift) & (((1u64 << n) - 1) as u64)) < pow2(n as nat),
{
    let r: u64 = (v >> shift) & (((1u64 << n) - 1) as u64);
    lemma_to_bits_len(v as nat, len);
    lemma_to_bits_len(r as nat, n as nat);
    assert forall|i: int| 0 <= i < n implies to_bits(r as nat, n as nat)[i] == to_bits(
        v as nat,
        len,
    ).subrange(len - shift - n, len - shift)[i] by {
        lemma_to_bits_word(r, n as nat, i);
        lemma_to_bits_word(v, len, len - shift - n + i);
        let j: u64 = (n - 1 - i) as u64;
        assert((((v >> shift) & (((1u64 << n) - 1) as u64)) >> j) & 1 == (v >> ((shift + j) as u64))
            & 1) by (bit_vector)
            requires
                n <= 32,
                j < n,
                shift + n <= 64,
        ;
    }
    assert(to_bits(r as nat, n as nat) =~= to_bits(v as nat, len).subrange(
        len - shift - n,
        len - shift,
    ));
    assert((v >> shift) & (((1u64 << n) - 1) as u64) < (1u64 << n)) by (bit_vector)
        requires
            n <= 32,
    ;
    vstd::bits::lemma_u64_pow2_no_overflow(n as nat);
    vstd::bits::lemma_u64_shl_is_mul(1, n);
}

/// The bits behind the first `k` are those of the shorter reading.
proof fn lemma_to_bits_suffix(v: u64, len: nat, k: nat)
    requires
        k <= len <= 64,
    ensures
        to_bits(v as nat, (len - k) as nat) == to_bits(v as nat, len).skip(k as int),
{
    lemma_to_bits_len(v as nat, len);
    lemma_to_bits_len(v as nat, (len - k) as nat);
    assert forall|i: int| 0 <= i < len - k implies to_bits(v as nat, (len - k) as nat)[i]
        == to_bits(v as nat, len).skip(k as int)[i] by {
        lemma_to_bits_word(v, (len - k) as nat, i);
        lemma_to_bits_word(v, len, i + k);
    }
    assert(to_bits(v as nat, (len - k) as nat) =~= to_bits(v as nat, len).skip(k as int));
}

proof fn lemma_word_append(v: u64, len: nat, x: u64, n: u64)
    requires
        n <= 32,
        len + n <= 64,
        x < pow2(n as nat),
    ensures
        to_bits(((v << n) | x) as nat, len + n as nat) == to_bits(v as nat, len) + to_bits(
            x as nat,
            n as nat,
        ),
{
    let r: u64 = (v << n) | x;
    vstd::bits::lemma_u64_pow2_no_overflow(n as nat);
    vstd::bits::lemma_u64_shl_is_mul(1, n);
    assert(x < (1u64 << n));
    lemma_to_bits_len(r as nat, len + n as nat);
    lemma_to_bits_len(v as nat, len);
    lemma_to_bits_len(x as nat, n as nat);
    let rhs = to_bits(v as nat, len) + to_bits(x as nat, n as nat);
    assert forall|i: int| 0 <= i < len + n implies to_bits(r as nat, len + n as nat)[i] == rhs[i] by {
        lemma_to_bits_word(r, len + n as nat, i);
        let j: u64 = (len + n - 1 - i) as u64;
        if i < len {
            lemma_to_bits_word(v, len, i);
            assert((((v << n) | x) >> j) & 1 == (v >> ((j - n) as u64)) & 1) by (bit_vector)
                requires
                    n <= 32,
                    n <= j < 64,
                    x < (1u64 << n),
            ;
        } else {
            lemma_to_bits_word(x, n as nat, i - len);
            assert((((v << n) | x) >> j) & 1 == (x >> j) & 1) by (bit_vector)
                requires
                    n <= 32,
                    j < n,
            ;
        }
    }
    assert(to_bits(r as nat, len + n as nat) =~= rhs);
}

/// A byte is the value of its bits.
proof fn lemma_byte_of_bits(s: Seq<bool>, b: u8)
    requires
        s.len() >= 8,
        s.take(8) == to_bits(b as nat, 8),
    ensures
        byte_at(s, 0) == b,
{
    vstd::arithmetic::power2::lemma2_to64();
    lemma_value_of_to_bits(b as nat, 8);
    assert(Seq::new(8, |j: int| bit_or_zero(s, 0 + j)) =~= s.take(8));
}

/// Packing goes byte by byte.
proof fn lemma_pack_step(s: Seq<bool>)
    requires
        s.len() >= 8,
    ensures
        pack(s) == seq![byte_at(s, 0)] + pack(s.skip(8)),
{
    assert forall|k: int| 1 <= k < pack(s).len() implies pack(s)[k] == pack(s.skip(8))[k - 1] by {
        assert(Seq::new(8, |j: int| bit_or_zero(s, 8 * k + j)) =~= Seq::new(
            8,
            |j: int| bit_or_zero(s.skip(8), 8 * (k - 1) + j),
        ));
    }
    assert(pack(s) =~= seq![byte_at(s, 0)] + pack(s.skip(8)));
}

/// Whole bytes in front of a bit stream stay as they are when it is packed.
pub proof fn lemma_pack_after_bytes(a: Seq<u8>, s: Seq<bool>)
    ensures
        pack(bytes_bits(a) + s) == a + pack(s),
{
    let all = bytes_bits(a) + s;
    vstd::arithmetic::power2::lemma2_to64();
    assert forall|k: int| 0 <= k < pack(all).len() implies pack(all)[k] == (a + pack(s))[k] by {
        if k < a.len() {
            lemma_value_of_to_bits(a[k] as nat, 8);
            assert(Seq::new(8, |j: int| bit_or_zero(all, 8 * k + j)) =~= to_bits(a[k] as nat, 8));
        } else {
            assert(Seq::new(8, |j: int| bit_or_zero(all, 8 * k + j)) =~= Seq::new(
                8,
                |j: int| bit_or_zero(s, 8 * (k - a.len()) + j),
            ));
        }
    }
    assert(pack(all) =~= a + pack(s));
}

/// The bytes of a packed stream hold its bits, and zeros behind them.
pub proof fn lemma_bits_of_pack(s: Seq<bool>, i: int)
    requires
        0 <= i,
    ensures
        bit_or_zero(bytes_bits(pack(s)), i) == bit_or_zero(s, i),
{
    if i < 8 * pack(s).len() {
        let k = i / 8;
        let eight = Seq::new(8, |j: int| bit_or_zero(s, 8 * k + j));
        vstd::arithmetic::power2::lemma2_to64();
        lemma_bits_value_bound(eight);
        lemma_to_bits_of_value(eight);
        assert(pack(s)[k] as nat == bits_value(eight));
        assert(eight[i % 8] == bit_or_zero(s, i));
    }
}

/// The bits of concatenated bytes.
pub proof fn lemma_bytes_bits_concat(a: Seq<u8>, b: Seq<u8>)
    ensures
        bytes_bits(a + b) == bytes_bits(a) + bytes_bits(b),
{
    assert forall|i: int| 0 <= i < 8 * (a + b).len() implies bytes_bits(a + b)[i] == (bytes_bits(a)
        + bytes_bits(b))[i] by {
        if i >= 8 * a.len() {
            assert((i - 8 * a.len()) / 8 == i / 8 - a.len());
            assert((i - 8 * a.len()) % 8 == i % 8);
        }
    }
    assert(bytes_bits(a + b) =~= bytes_bits(a) + bytes_bits(b));
}

/// A shift register of up to 64 bits.
pub struct Bits {
    value: u64,
    len: u8,
}

impl Default for Bits {
    fn default() -> (bits: Bits)
        ensures
            bits.wf(),
            bits.pending() == Seq::<bool>::empty(),
    {
        let bits = Bits { value: 0, len: 0 };
        assert(bits.pending() =~= Seq::<bool>::empty());
        bits
    }
}

impl Bits {
    /// The register holds at most 64 bits.
    pub closed spec fn wf(self) -> bool {
        self.len <= 64
    }

    /// The bits in the register, the next one first.
    pub closed spec fn pending(self) -> Seq<bool> {
        to_bits(self.value as nat, self.len as nat)
    }

    /// The register holds the bits of `t` up to byte `pos`.
    pub open spec fn reads(self, t: Seq<u8>, pos: int) -> bool {
        &&& self.wf()
        &&& self.pending().len() <= 8 * pos
        &&& self.pending() == bits_at(t, 8 * pos - self.pending().len(), self.pending().len())
    }

    /// The number of bits in the register.
    pub fn bit_len(&self) -> (n: u8)
        requires
            self.wf(),
        ensures
            n == self.pending().len(),
            n <= 64,
    {
        proof {
            lemma_to_bits_len(self.value as nat, self.len as nat);
        }
        self.len
    }

    /// Appends the lowest `n` bits of `value`.
    pub fn put(&mut self, n: u8, value: u64)
        requires
            old(self).wf(),
            n <= 32,
            old(self).pending().len() + n <= 64,
            value < pow2(n as nat),
        ensures
            final(self).wf(),
            final(self).pending() == old(self).pending() + to_bits(value as nat, n as nat),
            final(self).pending().len() == old(self).pending().len() + n,
    {
        proof {
            lemma_to_bits_len(self.value as nat, self.len as nat);
            lemma_to_bits_len(value as nat, n as nat);
            lemma_word_append(self.value, self.len as nat, value, n as u64);
        }
        self.value = (self.value << (n as u64)) | value;
        self.len = self.len + n;
    }

    /// Reads the next `n` bits and leaves them in the register.
    pub fn peek(&self, n: u8) -> (value: u64)
        requires
            self.wf(),
            0 < n <= 32,
            n <= self.pending().len(),
        ensures
            value == bits_value(self.pending().take(n as int)),
            value < pow2(n as nat),
    {
        proof {
            lemma_to_bits_len(self.value as nat, self.len as nat);
            let shift: u64 = (self.len - n) as u64;
            lemma_word_field(self.value, self.len as nat, shift, n as u64);
            let r: u64 = (self.value >> shift) & (((1u64 << (n as u64)) - 1) as u64);
            lemma_value_of_to_bits(r as nat, n as nat);
            assert(self.pending().subrange(0, n as int) =~= self.pending().take(n as int));
            let k: u64 = n as u64;
            assert((1u64 << k) >= 1u64) by (bit_vector)
                requires
                    k <= 32,
            ;
        }
        (self.value >> ((self.len - n) as u64)) & ((1u64 << (n as u64)) - 1)
    }

    /// Drops the next `n` bits.
    pub fn skip(&mut self, n: u8)
        requires
            old(self).wf(),
            n <= old(self).pending().len(),
        ensures
            final(self).wf(),
            final(self).pending() == old(self).pending().skip(n as int),
            final(self).pending().len() == old(self).pending().len() - n,
    {
        proof {
            lemma_to_bits_len(self.value as nat, self.len as nat);
            lemma_to_bits_suffix(self.value, self.len as nat, n as nat);
        }
        self.len = self.len - n;
    }

    /// Takes the next `n` bits out of the register.
    pub fn get(&mut self, n: u8) -> (value: u64)
        requires
            old(self).wf(),
            n <= 32,
            n <= old(self).pending().len(),
        ensures
            final(self).wf(),
            value == bits_value(old(self).pending().take(n as int)),
            value < pow2(n as nat),
            final(self).pending() == old(self).pending().skip(n as int),
            final(self).pending().len() == old(self).pending().len() - n,
    {
        if n == 0 {
            proof {
                lemma_pow2_pos(0);
                assert(self.pending().take(0) =~= Seq::<bool>::empty());
                assert(self.pending().skip(0) =~= self.pending());
            }
            0
        } else {
            let value: u64 = self.peek(n);
            self.skip(n);
            value
        }
    }

    fn save_byte(&mut self, out: &mut Vec<u8>)
        requires
            old(self).wf(),
            old(self).pending().len() >= 8,
        ensures
            final(self).wf(),
            final(self).pending() == old(self).pending().skip(8),
            final(self).pending().len() == old(self).pending().len() - 8,
            final(out)@ == old(out)@.push(byte_at(old(self).pending(), 0)),
    {
        let byte: u64 = self.get(8);
        proof {
            vstd::arithmetic::power2::lemma2_to64();
            lemma_to_bits_of_value(old(self).pending().take(8));
            lemma_byte_of_bits(old(self).pending(), byte as u8);
        }
        out.push(byte as u8);
    }

    /// Moves the first 32 bits of the register to `out`, when it holds as many.
    pub fn save_u32(&mut self, out: &mut Vec<u8>)
        requires
            old(self).wf(),
        ensures
            final(self).wf(),
            old(self).pending().len() < 32 ==> *final(self) == *old(self) && final(out)@ == old(
                out,
            )@,
            old(self).pending().len() >= 32 ==> {
                &&& final(self).pending() == old(self).pending().skip(32)
                &&& final(self).pending().len() == old(self).pending().len() - 32
                &&& final(out)@ == old(out)@ + pack(old(self).pending().take(32))
            },
    {
        if self.bit_len() >= 32 {
            self.save_byte(out);
            self.save_byte(out);
            self.save_byte(out);
            self.save_byte(out);
            proof {
                let p = old(self).pending();
                let b = pack(p.take(32));
                assert forall|k: int| 0 <= k < 4 implies b[k] == byte_at(p.skip(8 * k), 0) by {
                    assert(Seq::new(8, |j: int| bit_or_zero(p.take(32), 8 * k + j)) =~= Seq::new(
                        8,
                        |j: int| bit_or_zero(p.skip(8 * k), 0 + j),
                    ));
                }
                assert(p.skip(0) =~= p);
                assert(p.skip(8).skip(8) =~= p.skip(16));
                assert(p.skip(16).skip(8) =~= p.skip(24));
                assert(p.skip(24).skip(8) =~= p.skip(32));
                assert(out@ =~= old(out)@ + b);
            }
        }
    }

    /// Moves all bits of the register to `out`, the last byte filled up with
    /// zeros.
    pub fn save_all(&mut self, out: &mut Vec<u8>)
        requires
            old(self).wf(),
        ensures
            final(self).wf(),
            final(self).pending() == Seq::<bool>::empty(),
            final(out)@ == old(out)@ + pack(old(self).pending()),
    {
        while self.bit_len() >= 8
            invariant
                self.wf(),
                out@ + pack(self.pending()) == old(out)@ + pack(old(self).pending()),
            decreases self.pending().len(),
        {
            proof {
                lemma_pack_step(self.pending());
            }
            let ghost before = out@;
            let ghost p = self.pending();
            self.save_byte(out);
            assert(out@ + pack(self.pending()) =~= before + (seq![byte_at(p, 0)] + pack(
                self.pending(),
            )));
        }
        let rest: u8 = self.bit_len();
        if rest > 0 {
            let ghost p = self.pending();
            proof {
                lemma_pow2_pos((8 - rest) as nat);
            }
            self.put(8 - rest, 0);
            let ghost q = self.pending();
            proof {
                assert forall|j: int| 0 <= j < 8 implies bit_or_zero(p, j) == bit_or_zero(q, j) by {
                    if j >= p.len() {
                        lemma_zero_bits((8 - rest) as nat, j - p.len());
                    }
                }
                assert(Seq::new(8, |j: int| bit_or_zero(p, 0 + j)) =~= Seq::new(
                    8,
                    |j: int| bit_or_zero(q, 0 + j),
                ));
                assert(pack(p) =~= seq![byte_at(q, 0)]);
            }
            self.save_byte(out);
        } else {
            assert(pack(self.pending()) =~= Seq::<u8>::empty());
        }
        assert(self.pending() =~= Seq::<bool>::empty());
    }

    fn load_byte(&mut self, t: &[u8], pos: &mut usize)
        requires
            old(self).reads(t@, *old(pos) as int),
            old(self).pending().len() <= 56,
            *old(pos) < usize::MAX,
        ensures
            *final(pos) == *old(pos) + 1,
            final(self).reads(t@, *final(pos) as int),
            final(self).pending().len() == old(self).pending().len() + 8,
    {
        let byte: u8 = if *pos < t.len() {
            t[*pos]
        } else {
            0
        };
        proof {
            vstd::arithmetic::power2::lemma2_to64();
        }
        self.put(8, byte as u64);
        *pos = *pos + 1;
        proof {
            let len = old(self).pending().len();
            lemma_to_bits_len(byte as nat, 8);
            assert forall|i: int| 0 <= i < len + 8 implies self.pending()[i] == bits_at(
                t@,
                8 * (*old(pos)) - len,
                len + 8,
            )[i] by {
                if i < len {
                    assert(old(self).pending()[i] == bits_at(t@, 8 * (*old(pos)) - len, len)[i]);
                } else if *old(pos) >= t@.len() {
                    lemma_zero_bits(8, i - len);
                } else {
                    assert((8 * (*old(pos)) - len + i) / 8 == *old(pos));
                }
            }
            assert(self.pending() =~= bits_at(t@, 8 * (*old(pos)) - len, len + 8));
        }
    }

    /// Loads the next 32 bits of `t` when the register has room for them.
    pub fn load_u32(&mut self, t: &[u8], pos: &mut usize)
        requires
            old(self).reads(t@, *old(pos) as int),
            *old(pos) + 4 <= usize::MAX,
        ensures
            final(self).reads(t@, *final(pos) as int),
            old(self).pending().len() <= 32 ==> {
                &&& *final(pos) == *old(pos) + 4
                &&& final(self).pending().len() == old(self).pending().len() + 32
            },
            old(self).pending().len() > 32 ==> {
                &&& *final(pos) == *old(pos)
                &&& *final(self) == *old(self)
            },
    {
        if self.bit_len() <= 32 {
            self.load_byte(t, pos);
            self.load_byte(t, pos);
            self.load_byte(t, pos);
            self.load_byte(t, pos);
        }
    }
}

proof fn lemma_zero_bits(n: nat, i: int)
    requires
        0 <= i < n,
    ensures
        to_bits(0, n).len() == n,
        !to_bits(0, n)[i],
    decreases n,
{
    lemma_to_bits_len(0, n);
    lemma_to_bits_len(0, (n - 1) as nat);
    if i < n - 1 {
        lemma_zero_bits((n - 1) as nat, i);
    }
}

} // verus!
