//! The mathematical model shared by every sink, source and codec in this
//! crate: a stored value is a finite sequence of booleans, and an unsigned
//! integer corresponds to such a sequence by its binary notation with the
//! least significant bit first.

use vstd::prelude::*;
use vstd::arithmetic::power2::*;
use vstd::arithmetic::div_mod::*;

verus! {

/// The `n` least significant binary digits of `v`, least significant first.
pub open spec fn bits_of_uint(v: nat, n: nat) -> Seq<bool>
    decreases n,
{
    if n == 0 {
        Seq::empty()
    } else {
        seq![v % 2 == 1] + bits_of_uint(v / 2, (n - 1) as nat)
    }
}

/// The unsigned integer written in binary by `bits`, least significant first.
pub open spec fn uint_of_bits(bits: Seq<bool>) -> nat
    decreases bits.len(),
{
    if bits.len() == 0 {
        0
    } else {
        (if bits[0] {
            1nat
        } else {
            0nat
        }) + 2 * uint_of_bits(bits.skip(1))
    }
}

pub broadcast proof fn lemma_bits_of_uint_len(v: nat, n: nat)
    ensures
        (#[trigger] bits_of_uint(v, n)).len() == n,
    decreases n,
{
    if n > 0 {
        lemma_bits_of_uint_len(v / 2, (n - 1) as nat);
    }
}

/// Reading bits back as an integer undoes writing an integer as bits,
/// up to the `n`-bit range.
pub proof fn lemma_uint_of_bits_of_uint(v: nat, n: nat)
    ensures
        uint_of_bits(bits_of_uint(v, n)) == v % pow2(n),
    decreases n,
{
    lemma_bits_of_uint_len(v, n);
    if n == 0 {
        assert(pow2(0) == 1) by {
            lemma2_to64();
        }
        assert(v % 1 == 0) by {
            lemma_small_mod(0, 1);
            lemma_mod_multiples_basic(v as int, 1);
        }
    } else {
        let rest = bits_of_uint(v / 2, (n - 1) as nat);
        assert(bits_of_uint(v, n).skip(1) == rest);
        lemma_uint_of_bits_of_uint(v / 2, (n - 1) as nat);
        // v % 2^n == 2 * ((v / 2) % 2^(n-1)) + v % 2
        lemma_pow2_unfold(n);
        lemma_pow2_pos((n - 1) as nat);
        lemma_breakdown(v as int, 2, pow2((n - 1) as nat) as int);
        assert(pow2(n) == 2 * pow2((n - 1) as nat));
    }
}

/// An `n`-bit sequence denotes an integer below `2^n`.
pub proof fn lemma_uint_of_bits_bound(bits: Seq<bool>)
    ensures
        uint_of_bits(bits) < pow2(bits.len()),
    decreases bits.len(),
{
    if bits.len() == 0 {
        assert(pow2(0) == 1) by {
            lemma2_to64();
        }
    } else {
        lemma_uint_of_bits_bound(bits.skip(1));
        lemma_pow2_unfold(bits.len());
        assert(pow2(bits.len()) == 2 * pow2((bits.len() - 1) as nat));
    }
}

/// Only the `n` low binary digits of `v` reach the bit sequence.
pub proof fn lemma_bits_of_uint_mod(v: nat, n: nat)
    ensures
        bits_of_uint(v % pow2(n), n) == bits_of_uint(v, n),
    decreases n,
{
    if n == 0 {
        assert(pow2(0) == 1) by {
            lemma2_to64();
        }
        assert(bits_of_uint(v % 1, 0) =~= bits_of_uint(v, 0));
    } else {
        lemma_pow2_unfold(n);
        lemma_pow2_pos((n - 1) as nat);
        let p1 = pow2((n - 1) as nat) as int;
        let w = v % pow2(n);
        assert(pow2(n) == 2 * p1);
        // v % (2 * p1) == 2 * ((v / 2) % p1) + v % 2
        lemma_breakdown(v as int, 2, p1);
        assert(w == 2 * ((v / 2) % pow2((n - 1) as nat)) + v % 2);
        lemma_fundamental_div_mod_converse(
            w as int,
            2,
            ((v / 2) % pow2((n - 1) as nat)) as int,
            (v % 2) as int,
        );
        assert(w % 2 == v % 2);
        assert(w / 2 == (v / 2) % pow2((n - 1) as nat));
        lemma_bits_of_uint_mod(v / 2, (n - 1) as nat);
        assert(bits_of_uint(w, n) == seq![w % 2 == 1] + bits_of_uint(w / 2, (n - 1) as nat));
        assert(bits_of_uint(v, n) == seq![v % 2 == 1] + bits_of_uint(v / 2, (n - 1) as nat));
    }
}

/// Decomposing a bit sequence at any point splits its value into a low part
/// and a high part scaled by a power of two.
pub proof fn lemma_uint_of_bits_concat(a: Seq<bool>, b: Seq<bool>)
    ensures
        uint_of_bits(a + b) == uint_of_bits(a) + pow2(a.len()) * uint_of_bits(b),
    decreases a.len(),
{
    if a.len() == 0 {
        assert(a + b == b);
        assert(pow2(0) == 1) by {
            lemma2_to64();
        }
    } else {
        assert((a + b).skip(1) == a.skip(1) + b);
        lemma_uint_of_bits_concat(a.skip(1), b);
        lemma_pow2_unfold(a.len());
        assert(pow2(a.len()) == 2 * pow2((a.len() - 1) as nat));
        assert(2 * (uint_of_bits(a.skip(1)) + pow2((a.len() - 1) as nat) * uint_of_bits(b)) == 2
            * uint_of_bits(a.skip(1)) + (2 * pow2((a.len() - 1) as nat)) * uint_of_bits(b))
            by (nonlinear_arith);
    }
}

/// Bit `i` of the sequence for `v` is the parity of `v / 2^i`.
pub proof fn lemma_bits_of_uint_index(v: nat, n: nat, i: nat)
    requires
        i < n,
    ensures
        bits_of_uint(v, n)[i as int] == (v / pow2(i) % 2 == 1),
    decreases i,
{
    lemma_bits_of_uint_len(v, n);
    if i == 0 {
        assert(pow2(0) == 1) by {
            lemma2_to64();
        }
        assert(v / 1 == v) by {
            lemma_div_basics(v as int);
        }
    } else {
        lemma_bits_of_uint_index(v / 2, (n - 1) as nat, (i - 1) as nat);
        lemma_bits_of_uint_len(v / 2, (n - 1) as nat);
        assert(bits_of_uint(v, n)[i as int] == bits_of_uint(v / 2, (n - 1) as nat)[i - 1]);
        // v / 2 / 2^(i-1) == v / 2^i
        lemma_pow2_unfold(i);
        lemma_pow2_pos((i - 1) as nat);
        lemma_div_denominator(v as int, 2, pow2((i - 1) as nat) as int);
        assert(pow2(i) == 2 * pow2((i - 1) as nat));
    }
}

/// Every power of two below the 128th fits in a 128-bit word.
pub proof fn lemma_pow2_fits_u128(n: nat)
    requires
        n < 128,
    ensures
        pow2(n) <= 0x80000000000000000000000000000000,
{
    lemma_pow2_adds(63, 64);
    lemma2_to64();
    lemma2_to64_rest();
    assert(pow2(127) == 0x80000000000000000000000000000000);
    if n < 127 {
        lemma_pow2_strictly_increases(n, 127);
    }
}

/// All eight bits of one byte, least significant first.
pub open spec fn bits_of_byte(b: u8) -> Seq<bool> {
    bits_of_uint(b as nat, 8)
}

/// The bits of a byte sequence: each byte contributes eight bits, least
/// significant first, in byte order.
pub open spec fn bits_of_bytes(s: Seq<u8>) -> Seq<bool>
    decreases s.len(),
{
    if s.len() == 0 {
        Seq::empty()
    } else {
        bits_of_byte(s[0]) + bits_of_bytes(s.skip(1))
    }
}

pub broadcast proof fn lemma_bits_of_bytes_len(s: Seq<u8>)
    ensures
        (#[trigger] bits_of_bytes(s)).len() == 8 * s.len(),
    decreases s.len(),
{
    if s.len() > 0 {
        lemma_bits_of_uint_len(s[0] as nat, 8);
        lemma_bits_of_bytes_len(s.skip(1));
    }
}

/// Appending one byte appends its eight bits.
pub proof fn lemma_bits_of_bytes_push(s: Seq<u8>, b: u8)
    ensures
        bits_of_bytes(s.push(b)) == bits_of_bytes(s) + bits_of_byte(b),
    decreases s.len(),
{
    if s.len() == 0 {
        let t = s.push(b);
        assert(t[0] == b);
        assert(t.skip(1) =~= Seq::<u8>::empty());
        assert(bits_of_bytes(t.skip(1)) == Seq::<bool>::empty());
        assert(bits_of_bytes(t) == bits_of_byte(b) + Seq::<bool>::empty());
        assert(bits_of_byte(b) + Seq::<bool>::empty() =~= bits_of_byte(b));
        assert(bits_of_bytes(s) == Seq::<bool>::empty());
        assert(Seq::<bool>::empty() + bits_of_byte(b) =~= bits_of_byte(b));
    } else {
        assert(s.push(b).skip(1) =~= s.skip(1).push(b));
        lemma_bits_of_bytes_push(s.skip(1), b);
        assert(bits_of_bytes(s.push(b)) == bits_of_byte(s[0]) + (bits_of_bytes(s.skip(1))
            + bits_of_byte(b)));
        assert(bits_of_byte(s[0]) + (bits_of_bytes(s.skip(1)) + bits_of_byte(b)) =~= (bits_of_byte(
            s[0],
        ) + bits_of_bytes(s.skip(1))) + bits_of_byte(b));
    }
}


/// All thirty-two bits of one word, least significant first.
pub open spec fn bits_of_word(w: u32) -> Seq<bool> {
    bits_of_uint(w as nat, 32)
}

/// The bits of a word sequence: each word contributes thirty-two bits, least
/// significant first, in word order.
pub open spec fn bits_of_words(s: Seq<u32>) -> Seq<bool>
    decreases s.len(),
{
    if s.len() == 0 {
        Seq::empty()
    } else {
        bits_of_word(s[0]) + bits_of_words(s.skip(1))
    }
}

pub broadcast proof fn lemma_bits_of_words_len(s: Seq<u32>)
    ensures
        (#[trigger] bits_of_words(s)).len() == 32 * s.len(),
    decreases s.len(),
{
    if s.len() > 0 {
        lemma_bits_of_uint_len(s[0] as nat, 32);
        lemma_bits_of_words_len(s.skip(1));
    }
}

/// Appending one word appends its thirty-two bits.
pub proof fn lemma_bits_of_words_push(s: Seq<u32>, w: u32)
    ensures
        bits_of_words(s.push(w)) == bits_of_words(s) + bits_of_word(w),
    decreases s.len(),
{
    if s.len() == 0 {
        let t = s.push(w);
        assert(t[0] == w);
        assert(t.skip(1) =~= Seq::<u32>::empty());
        assert(bits_of_words(t.skip(1)) == Seq::<bool>::empty());
        assert(bits_of_words(t) == bits_of_word(w) + Seq::<bool>::empty());
        assert(bits_of_word(w) + Seq::<bool>::empty() =~= bits_of_word(w));
        assert(bits_of_words(s) == Seq::<bool>::empty());
        assert(Seq::<bool>::empty() + bits_of_word(w) =~= bits_of_word(w));
    } else {
        assert(s.push(w).skip(1) =~= s.skip(1).push(w));
        lemma_bits_of_words_push(s.skip(1), w);
        assert(bits_of_words(s.push(w)) == bits_of_word(s[0]) + (bits_of_words(s.skip(1))
            + bits_of_word(w)));
        assert(bits_of_word(s[0]) + (bits_of_words(s.skip(1)) + bits_of_word(w)) =~= (bits_of_word(
            s[0],
        ) + bits_of_words(s.skip(1))) + bits_of_word(w));
    }
}

/// The bytes that pack a bit sequence, eight bits per byte in order, the
/// last byte padded with `false` bits when the sequence length is not a
/// multiple of eight.
pub open spec fn bytes_of_bits(bits: Seq<bool>) -> Seq<u8>
    decreases bits.len(),
{
    if bits.len() == 0 {
        Seq::empty()
    } else if bits.len() < 8 {
        seq![uint_of_bits(bits) as u8]
    } else {
        seq![uint_of_bits(bits.take(8)) as u8] + bytes_of_bits(bits.skip(8))
    }
}

/// Unpacking a byte sequence into bits and packing it again gives the
/// original bytes back.
pub proof fn lemma_bytes_of_bits_of_bytes(s: Seq<u8>)
    ensures
        bytes_of_bits(bits_of_bytes(s)) == s,
    decreases s.len(),
{
    if s.len() == 0 {
        assert(bytes_of_bits(bits_of_bytes(s)) =~= s);
    } else {
        let all = bits_of_bytes(s);
        lemma_bits_of_bytes_len(s);
        lemma_bits_of_bytes_len(s.skip(1));
        lemma_bits_of_uint_len(s[0] as nat, 8);
        assert(all.take(8) =~= bits_of_byte(s[0]));
        assert(all.skip(8) =~= bits_of_bytes(s.skip(1)));
        lemma_uint_of_bits_of_uint(s[0] as nat, 8);
        assert(pow2(8) == 256) by {
            lemma2_to64();
        }
        lemma_small_mod(s[0] as nat, 256);
        assert(uint_of_bits(all.take(8)) == s[0] as nat);
        lemma_bytes_of_bits_of_bytes(s.skip(1));
        assert(bytes_of_bits(all) =~= s);
    }
}

/// Computes a small power of two.
pub fn pow2_u128(e: usize) -> (r: u128)
    requires
        e < 128,
    ensures
        r == pow2(e as nat),
{
    proof {
        lemma2_to64();
        lemma2_to64_rest();
    }
    let mut r: u128 = 1;
    let mut i: usize = 0;
    while i < e
        invariant
            i <= e,
            e < 128,
            r == pow2(i as nat),
        decreases e - i,
    {
        proof {
            lemma_pow2_unfold((i + 1) as nat);
            lemma_pow2_fits_u128((i + 1) as nat);
        }
        r = r * 2;
        i = i + 1;
    }
    r
}


/// Appends to `out` the `n` low binary digits of `v`, least significant
/// first.
pub fn push_bits_of_u128(out: &mut Vec<bool>, v: u128, n: usize)
    requires
        n <= 128,
    ensures
        final(out)@ == old(out)@ + bits_of_uint(v as nat, n as nat),
{
    proof {
        lemma_bits_of_uint_len(v as nat, n as nat);
        lemma2_to64();
        lemma_div_basics(v as int);
        assert(v as nat / pow2(0) == v as nat);
    }
    let mut cur: u128 = v;
    let mut j: usize = 0;
    while j < n
        invariant
            j <= n,
            n <= 128,
            cur == v as nat / pow2(j as nat),
            after_borrow(*out)@ == old(out)@ + bits_of_uint(v as nat, n as nat).take(j as int),
            bits_of_uint(v as nat, n as nat).len() == n,
        decreases n - j,
    {
        proof {
            lemma_bits_of_uint_index(v as nat, n as nat, j as nat);
            let bs = bits_of_uint(v as nat, n as nat);
            assert(bs.take(j + 1) =~= bs.take(j as int).push(bs[j as int]));
            // cur / 2 == v / 2^(j + 1)
            lemma_pow2_pos(j as nat);
            lemma_div_denominator(v as int, pow2(j as nat) as int, 2);
            lemma_pow2_unfold((j + 1) as nat);
            assert(pow2(j as nat) * 2 == pow2((j + 1) as nat));
        }
        out.push(cur % 2 == 1);
        cur = cur / 2;
        j = j + 1;
    }
    proof {
        let bs = bits_of_uint(v as nat, n as nat);
        assert(bs.take(n as int) =~= bs);
    }
}

/// The unsigned integer written in binary by the slice, least significant
/// bit first.
pub fn uint_from_bits(bits: &[bool]) -> (r: u128)
    requires
        bits@.len() <= 128,
    ensures
        r == uint_of_bits(bits@),
{
    let n: usize = bits.len();
    let mut r: u128 = 0;
    let mut i: usize = n;
    proof {
        assert(bits@.skip(n as int) =~= Seq::<bool>::empty());
    }
    while i > 0
        invariant
            i <= n,
            n == bits@.len() <= 128,
            r == uint_of_bits(bits@.skip(i as int)),
        decreases i,
    {
        proof {
            let tail = bits@.skip(i - 1);
            assert(tail[0] == bits@[i - 1]);
            assert(tail.skip(1) =~= bits@.skip(i as int));
            lemma_uint_of_bits_bound(tail);
            lemma_pow2_fits_u128((tail.len() - 1) as nat);
            lemma_pow2_unfold(tail.len());
        }
        i = i - 1;
        r = 2 * r + if bits[i] {
            1
        } else {
            0
        };
    }
    proof {
        assert(bits@.skip(0) =~= bits@);
    }
    r
}


/// Appending a bit with weight `2^k` to a `k`-bit value extends its bit
/// sequence by that bit.
pub proof fn lemma_bits_of_uint_snoc_bit(v: nat, k: nat, b: bool)
    requires
        v < pow2(k),
    ensures
        bits_of_uint(v + if b {
            pow2(k)
        } else {
            0nat
        }, k + 1) == bits_of_uint(v, k).push(b),
    decreases k,
{
    let w: nat = v + if b {
        pow2(k)
    } else {
        0nat
    };
    if k == 0 {
        assert(pow2(0) == 1) by {
            lemma2_to64();
        }
        assert(v == 0);
        assert(w == if b {
            1nat
        } else {
            0nat
        });
        assert(bits_of_uint(w, 1) == seq![w % 2 == 1] + bits_of_uint(w / 2, 0));
        assert(bits_of_uint(w, 1) =~= bits_of_uint(v, 0).push(b));
    } else {
        lemma_pow2_unfold(k);
        lemma_pow2_pos((k - 1) as nat);
        let c: nat = if b {
            pow2((k - 1) as nat)
        } else {
            0nat
        };
        assert(w == 2 * (c + v / 2) + v % 2) by {
            lemma_fundamental_div_mod(v as int, 2);
        }
        lemma_fundamental_div_mod_converse(w as int, 2, (c + v / 2) as int, (v % 2) as int);
        assert(w % 2 == v % 2);
        assert(w / 2 == c + v / 2);
        assert(v / 2 < pow2((k - 1) as nat)) by {
            lemma_multiply_divide_lt(v as int, 2, pow2((k - 1) as nat) as int);
        }
        lemma_bits_of_uint_snoc_bit(v / 2, (k - 1) as nat, b);
        assert(bits_of_uint(w, k + 1) == seq![w % 2 == 1] + bits_of_uint(w / 2, k));
        assert(bits_of_uint(v, k) == seq![v % 2 == 1] + bits_of_uint(v / 2, (k - 1) as nat));
        assert(bits_of_uint(w, k + 1) =~= bits_of_uint(v, k).push(b));
    }
}

/// Packing a bit sequence that starts with whole bytes keeps those bytes.
pub proof fn lemma_bytes_of_bits_concat(s: Seq<u8>, tail: Seq<bool>)
    ensures
        bytes_of_bits(bits_of_bytes(s) + tail) == s + bytes_of_bits(tail),
    decreases s.len(),
{
    if s.len() == 0 {
        assert(bits_of_bytes(s) + tail =~= tail);
        assert(s + bytes_of_bits(tail) =~= bytes_of_bits(tail));
    } else {
        let all = bits_of_bytes(s) + tail;
        lemma_bits_of_bytes_len(s);
        lemma_bits_of_bytes_len(s.skip(1));
        lemma_bits_of_uint_len(s[0] as nat, 8);
        assert(all.len() >= 8);
        assert(all.take(8) =~= bits_of_byte(s[0]));
        assert(all.skip(8) =~= bits_of_bytes(s.skip(1)) + tail);
        lemma_uint_of_bits_of_uint(s[0] as nat, 8);
        assert(pow2(8) == 256) by {
            lemma2_to64();
        }
        lemma_small_mod(s[0] as nat, 256);
        assert(uint_of_bits(all.take(8)) == s[0] as nat);
        lemma_bytes_of_bits_concat(s.skip(1), tail);
        assert(bytes_of_bits(all) == seq![s[0]] + (s.skip(1) + bytes_of_bits(tail)));
        assert(seq![s[0]] + (s.skip(1) + bytes_of_bits(tail)) =~= s + bytes_of_bits(tail));
    }
}

/// The words that pack a bit sequence, thirty-two bits per word in order,
/// the last word padded with `false` bits when the sequence length is not a
/// multiple of thirty-two.
pub open spec fn words_of_bits(bits: Seq<bool>) -> Seq<u32>
    decreases bits.len(),
{
    if bits.len() == 0 {
        Seq::empty()
    } else if bits.len() < 32 {
        seq![uint_of_bits(bits) as u32]
    } else {
        seq![uint_of_bits(bits.take(32)) as u32] + words_of_bits(bits.skip(32))
    }
}

/// Packing a bit sequence that starts with whole words keeps those words.
pub proof fn lemma_words_of_bits_concat(s: Seq<u32>, tail: Seq<bool>)
    ensures
        words_of_bits(bits_of_words(s) + tail) == s + words_of_bits(tail),
    decreases s.len(),
{
    if s.len() == 0 {
        assert(bits_of_words(s) + tail =~= tail);
        assert(s + words_of_bits(tail) =~= words_of_bits(tail));
    } else {
        let all = bits_of_words(s) + tail;
        lemma_bits_of_words_len(s);
        lemma_bits_of_words_len(s.skip(1));
        lemma_bits_of_uint_len(s[0] as nat, 32);
        assert(all.len() >= 32);
        assert(all.take(32) =~= bits_of_word(s[0]));
        assert(all.skip(32) =~= bits_of_words(s.skip(1)) + tail);
        lemma_uint_of_bits_of_uint(s[0] as nat, 32);
        assert(pow2(32) == 0x100000000) by {
            lemma2_to64();
        }
        lemma_small_mod(s[0] as nat, 0x100000000);
        assert(uint_of_bits(all.take(32)) == s[0] as nat);
        lemma_words_of_bits_concat(s.skip(1), tail);
        assert(words_of_bits(all) == seq![s[0]] + (s.skip(1) + words_of_bits(tail)));
        assert(seq![s[0]] + (s.skip(1) + words_of_bits(tail)) =~= s + words_of_bits(tail));
    }
}


/// One step of reading a packed byte stream: the bit at offset `off` comes
/// from the first byte, and skipping past it either stays in that byte or
/// moves to the next one.
pub proof fn lemma_bits_of_bytes_step(s: Seq<u8>, off: nat)
    requires
        s.len() > 0,
        off < 8,
    ensures
        bits_of_bytes(s).len() == 8 * s.len(),
        bits_of_bytes(s).skip(off as int)[0] == bits_of_uint(s[0] as nat, 8)[off as int],
        off < 7 ==> bits_of_bytes(s).skip(off as int).skip(1) == bits_of_bytes(s).skip(
            off as int + 1,
        ),
        off == 7 ==> bits_of_bytes(s).skip(off as int).skip(1) == bits_of_bytes(s.skip(1)),
{
    lemma_bits_of_bytes_len(s);
    lemma_bits_of_bytes_len(s.skip(1));
    lemma_bits_of_uint_len(s[0] as nat, 8);
    let total = bits_of_bytes(s);
    assert(total == bits_of_byte(s[0]) + bits_of_bytes(s.skip(1)));
    assert(total[off as int] == bits_of_uint(s[0] as nat, 8)[off as int]);
    assert(total.skip(off as int)[0] == total[off as int]);
    if off < 7 {
        assert(total.skip(off as int).skip(1) =~= total.skip(off as int + 1));
    } else {
        assert(total.skip(7).skip(1) =~= total.skip(8));
        assert(total.skip(8) =~= bits_of_bytes(s.skip(1)));
    }
}


/// The value of `v` reduced to `n` bits, as an unsigned integer.
pub open spec fn int_mod_pow2(v: int, n: nat) -> nat {
    (v % (pow2(n) as int)) as nat
}

/// The signed reading of the unsigned `n`-bit reconstruction `u`: itself when
/// it lies below the midpoint of the `n`-bit range, and `u - 2^n` otherwise.
pub open spec fn signed_of(u: nat, n: nat) -> int {
    if n == 0 {
        0
    } else if u < pow2((n - 1) as nat) {
        u as int
    } else {
        u as int - pow2(n) as int
    }
}

/// The value of `v` reduced to the signed `n`-bit range.
pub open spec fn signed_truncate(v: int, n: nat) -> int {
    signed_of(int_mod_pow2(v, n), n)
}

/// Reducing modulo a larger power of two first does not change a reduction
/// modulo a smaller one.
pub proof fn lemma_int_mod_pow2_twice(v: int, n: nat, m: nat)
    requires
        n <= m,
    ensures
        int_mod_pow2(int_mod_pow2(v, m) as int, n) == int_mod_pow2(v, n),
{
    lemma_pow2_pos(n);
    lemma_pow2_pos((m - n) as nat);
    lemma_pow2_adds(n, (m - n) as nat);
    assert(pow2(m) == pow2(n) * pow2((m - n) as nat));
    lemma_mod_mod(v, pow2(n) as int, pow2((m - n) as nat) as int);
    lemma_mod_bound(v, pow2(m) as int);
}

/// A value already inside the signed `n`-bit range is its own reduction.
pub proof fn lemma_signed_truncate_identity(v: int, n: nat)
    requires
        n >= 1,
        -(pow2((n - 1) as nat) as int) <= v < pow2((n - 1) as nat) as int,
    ensures
        signed_truncate(v, n) == v,
{
    lemma_pow2_pos(n);
    lemma_pow2_pos((n - 1) as nat);
    lemma_pow2_unfold(n);
    assert(pow2(n) == 2 * pow2((n - 1) as nat));
    if v >= 0 {
        lemma_small_mod(v as nat, pow2(n));
        assert(int_mod_pow2(v, n) == v);
    } else {
        lemma_mod_add_multiples_vanish(v, pow2(n) as int);
        lemma_small_mod((v + pow2(n)) as nat, pow2(n));
        assert(int_mod_pow2(v, n) == v + pow2(n));
    }
}

/// The signed reading of the low `n` bits of `v` when `v` is negative but
/// within one range width of zero.
pub proof fn lemma_int_mod_pow2_negative(v: int, n: nat)
    requires
        -(pow2(n) as int) <= v < 0,
    ensures
        int_mod_pow2(v, n) == v + pow2(n),
{
    lemma_pow2_pos(n);
    lemma_mod_add_multiples_vanish(v, pow2(n) as int);
    lemma_small_mod((v + pow2(n)) as nat, pow2(n));
}


/// The `n`-bit two's-complement pattern of `-a - 1`: the bitwise complement
/// of the pattern of `a`.
pub proof fn lemma_neg_mod_pow2(a: nat, n: nat)
    ensures
        int_mod_pow2(-(a as int) - 1, n) == pow2(n) - 1 - (a % pow2(n)),
{
    lemma_pow2_pos(n);
    let m = pow2(n) as int;
    lemma_fundamental_div_mod(a as int, m);
    let q = a as int / m;
    let r = a as int % m;
    lemma_mod_bound(a as int, m);
    assert(-(a as int) - 1 == m * (-q - 1) + (m - 1 - r)) by (nonlinear_arith)
        requires
            a as int == m * q + r,
    ;
    lemma_fundamental_div_mod_converse(-(a as int) - 1, m, -q - 1, m - 1 - r);
}

} // verus!
