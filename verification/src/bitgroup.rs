//! The generic bit-grouped packing engine shared by the base32 and base64
//! codecs: a byte sequence is read as a big-endian bitstream, sliced into
//! windows of `w` bits (the trailing window left-aligned and zero-filled), and
//! each window becomes one symbol value below `2^w`. Decoding replays the
//! symbols as bits and regroups them into bytes, discarding a trailing group
//! shorter than a byte.

use vstd::prelude::*;

verus! {

use vstd::arithmetic::power::pow;
use vstd::arithmetic::power::lemma_pow_adds;
use vstd::arithmetic::power::lemma_pow_positive;
use vstd::arithmetic::power::lemma_pow_increases;
use vstd::arithmetic::div_mod::lemma_small_mod;
use vstd::arithmetic::div_mod::lemma_mod_multiples_vanish;
use crate::radix::digits_ok;
use crate::radix::digits_to_nat;
use crate::radix::nat_to_digits;
use crate::radix::zeros;
use crate::radix::append_digits;
use crate::radix::lemma_digits_to_nat_bound;
use crate::radix::lemma_nat_to_digits_ok;
use crate::radix::lemma_digits_to_nat_of_nat_to_digits;
use crate::radix::lemma_nat_to_digits_of_digits_to_nat;
use crate::radix::lemma_nat_to_digits_shift;

/// The bits of `bytes` as one big-endian bitstream, most significant bit of
/// each byte first; every element is 0 or 1.
pub open spec fn bits_of_bytes(bytes: Seq<u8>) -> Seq<u8>
    decreases bytes.len(),
{
    if bytes.len() == 0 {
        Seq::empty()
    } else {
        nat_to_digits(bytes[0] as nat, 2, 8) + bits_of_bytes(bytes.skip(1))
    }
}

/// The symbol values obtained by slicing `bits` into consecutive windows of
/// `w` bits; a trailing window shorter than `w` is left-aligned and
/// zero-filled on the right.
pub open spec fn symbols_of_bits(bits: Seq<u8>, w: nat) -> Seq<u8>
    decreases bits.len(),
    when w >= 1
{
    if bits.len() == 0 {
        Seq::empty()
    } else if bits.len() >= w {
        seq![digits_to_nat(bits.take(w as int), 2) as u8] + symbols_of_bits(
            bits.skip(w as int),
            w,
        )
    } else {
        seq![(digits_to_nat(bits, 2) * pow(2, (w - bits.len()) as nat)) as u8]
    }
}

/// The bitstream a decoder accumulates from symbol values, `w` bits per
/// symbol.
pub open spec fn bits_of_symbols(syms: Seq<u8>, w: nat) -> Seq<u8>
    decreases syms.len(),
{
    if syms.len() == 0 {
        Seq::empty()
    } else {
        nat_to_digits(syms[0] as nat, 2, w) + bits_of_symbols(syms.skip(1), w)
    }
}

/// Regroups a bitstream into bytes, one per complete 8-bit group; a trailing
/// group shorter than 8 bits is discarded.
pub open spec fn bytes_of_bits(bits: Seq<u8>) -> Seq<u8>
    decreases bits.len(),
{
    if bits.len() < 8 {
        Seq::empty()
    } else {
        seq![digits_to_nat(bits.take(8), 2) as u8] + bytes_of_bits(bits.skip(8))
    }
}

/// How many zero bits the encoder's left-alignment appends to a bitstream of
/// length `n` sliced into windows of `w` bits.
pub open spec fn fill_len(n: nat, w: nat) -> nat {
    if n % w == 0 {
        0
    } else {
        (w - n % w) as nat
    }
}

pub proof fn lemma_pow2_small()
    ensures
        pow(2, 0) == 1,
        pow(2, 1) == 2,
        pow(2, 2) == 4,
        pow(2, 3) == 8,
        pow(2, 4) == 16,
        pow(2, 5) == 32,
        pow(2, 6) == 64,
        pow(2, 7) == 128,
        pow(2, 8) == 256,
{
    reveal_with_fuel(pow, 9);
}

pub proof fn lemma_bits_of_bytes_ok(bytes: Seq<u8>)
    ensures
        bits_of_bytes(bytes).len() == 8 * bytes.len(),
        digits_ok(bits_of_bytes(bytes), 2),
    decreases bytes.len(),
{
    if bytes.len() > 0 {
        lemma_nat_to_digits_ok(bytes[0] as nat, 2, 8);
        lemma_bits_of_bytes_ok(bytes.skip(1));
    }
}

/// One symbol per started window of `w` bits.
pub proof fn lemma_symbols_of_bits_len(bits: Seq<u8>, w: nat)
    requires
        1 <= w,
    ensures
        symbols_of_bits(bits, w).len() == (bits.len() + w - 1) / w as int,
    decreases bits.len(),
{
    let n = bits.len() as int;
    let wi = w as int;
    if n == 0 {
        assert((0 + wi - 1) / wi == 0) by {
            vstd::arithmetic::div_mod::lemma_basic_div(wi - 1, wi);
        }
    } else if n >= wi {
        lemma_symbols_of_bits_len(bits.skip(wi), w);
        let x = n - 1;
        let q0 = x / wi;
        let r0 = x % wi;
        vstd::arithmetic::div_mod::lemma_fundamental_div_mod(x, wi);
        assert(x + wi == (q0 + 1) * wi + r0) by (nonlinear_arith)
            requires
                x == wi * q0 + r0,
        ;
        vstd::arithmetic::div_mod::lemma_fundamental_div_mod_converse_div(x + wi, wi, q0 + 1, r0);
        assert(symbols_of_bits(bits, w).len() == 1 + (n - wi + wi - 1) / wi);
        assert((n - wi + wi - 1) / wi == q0);
    } else {
        assert((n + wi - 1) / wi == 1) by {
            vstd::arithmetic::div_mod::lemma_fundamental_div_mod_converse_div(
                n + wi - 1,
                wi,
                1,
                n - 1,
            );
        }
    }
}

/// A decoder's replayed bitstream has `w` bits per symbol, all of them bits.
pub proof fn lemma_bits_of_symbols_ok(syms: Seq<u8>, w: nat)
    requires
        1 <= w <= 8,
    ensures
        bits_of_symbols(syms, w).len() == syms.len() * w,
        digits_ok(bits_of_symbols(syms, w), 2),
    decreases syms.len(),
{
    if syms.len() == 0 {
        assert(0 * w == 0) by (nonlinear_arith);
    } else {
        lemma_nat_to_digits_ok(syms[0] as nat, 2, w);
        lemma_bits_of_symbols_ok(syms.skip(1), w);
        assert(w + (syms.len() - 1) * w == syms.len() * w) by (nonlinear_arith);
    }
}

pub proof fn lemma_bits_of_bytes_push(bytes: Seq<u8>, x: u8)
    ensures
        bits_of_bytes(bytes.push(x)) == bits_of_bytes(bytes) + nat_to_digits(x as nat, 2, 8),
    decreases bytes.len(),
{
    lemma_nat_to_digits_ok(x as nat, 2, 8);
    lemma_bits_of_bytes_ok(bytes);
    lemma_bits_of_bytes_ok(bytes.push(x));
    if bytes.len() == 0 {
        assert(bytes.push(x)[0] == x);
        assert(bytes.push(x).skip(1) =~= Seq::<u8>::empty());
        assert(bits_of_bytes(bytes.push(x)) =~= bits_of_bytes(bytes) + nat_to_digits(
            x as nat,
            2,
            8,
        ));
    } else {
        lemma_nat_to_digits_ok(bytes[0] as nat, 2, 8);
        assert(bytes.push(x).skip(1) =~= bytes.skip(1).push(x));
        lemma_bits_of_bytes_push(bytes.skip(1), x);
        assert(bytes.push(x)[0] == bytes[0]);
        assert(bits_of_bytes(bytes.push(x)) =~= bits_of_bytes(bytes) + nat_to_digits(
            x as nat,
            2,
            8,
        ));
    }
}

pub proof fn lemma_bits_of_symbols_push(syms: Seq<u8>, x: u8, w: nat)
    requires
        1 <= w <= 8,
    ensures
        bits_of_symbols(syms.push(x), w) == bits_of_symbols(syms, w) + nat_to_digits(
            x as nat,
            2,
            w,
        ),
    decreases syms.len(),
{
    lemma_nat_to_digits_ok(x as nat, 2, w);
    lemma_bits_of_symbols_ok(syms, w);
    lemma_bits_of_symbols_ok(syms.push(x), w);
    if syms.len() == 0 {
        assert(syms.push(x)[0] == x);
        assert(syms.push(x).skip(1) =~= Seq::<u8>::empty());
        assert(bits_of_symbols(Seq::<u8>::empty(), w) == Seq::<u8>::empty());
        assert(bits_of_symbols(syms, w) == Seq::<u8>::empty());
        assert(bits_of_symbols(syms.push(x), w) == nat_to_digits(x as nat, 2, w)
            + bits_of_symbols(syms.push(x).skip(1), w));
        assert(bits_of_symbols(syms.push(x), w) =~= bits_of_symbols(syms, w) + nat_to_digits(
            x as nat,
            2,
            w,
        ));
    } else {
        lemma_nat_to_digits_ok(syms[0] as nat, 2, w);
        assert(syms.push(x).skip(1) =~= syms.skip(1).push(x));
        lemma_bits_of_symbols_push(syms.skip(1), x, w);
        lemma_bits_of_symbols_ok(syms.skip(1), w);
        assert(syms.push(x)[0] == syms[0]);
        assert(bits_of_symbols(syms.push(x), w) == nat_to_digits(syms[0] as nat, 2, w)
            + bits_of_symbols(syms.push(x).skip(1), w));
        assert(bits_of_symbols(syms, w) == nat_to_digits(syms[0] as nat, 2, w) + bits_of_symbols(
            syms.skip(1),
            w,
        ));
        assert(bits_of_symbols(syms.push(x).skip(1), w) == bits_of_symbols(syms.skip(1), w)
            + nat_to_digits(x as nat, 2, w));
        assert(bits_of_symbols(syms.push(x), w) =~= bits_of_symbols(syms, w) + nat_to_digits(
            x as nat,
            2,
            w,
        ));
    }
}

/// Every symbol value produced by window slicing is below `2^w`.
pub proof fn lemma_symbols_of_bits_bound(bits: Seq<u8>, w: nat)
    requires
        1 <= w <= 8,
        digits_ok(bits, 2),
    ensures
        digits_ok(symbols_of_bits(bits, w), pow(2, w) as nat),
    decreases bits.len(),
{
    lemma_pow2_small();
    lemma_pow_increases(2, w, 8);
    let s = symbols_of_bits(bits, w);
    let p2w = pow(2, w) as nat;
    if bits.len() == 0 {
    } else if bits.len() >= w {
        let head = bits.take(w as int);
        let tail = bits.skip(w as int);
        assert(digits_ok(head, 2)) by {
            assert(forall|m: int| 0 <= m < head.len() ==> (#[trigger] head[m]) == bits[m]);
        }
        assert(digits_ok(tail, 2)) by {
            assert(forall|m: int|
                0 <= m < tail.len() ==> (#[trigger] tail[m]) == bits[m + w as int]);
        }
        lemma_digits_to_nat_bound(head, 2);
        lemma_symbols_of_bits_bound(tail, w);
        let rest = symbols_of_bits(tail, w);
        assert(s == seq![digits_to_nat(head, 2) as u8] + rest);
        assert forall|i: int| 0 <= i < s.len() implies (#[trigger] s[i]) < p2w by {
            if i == 0 {
                assert(s[0] == digits_to_nat(head, 2) as u8);
            } else {
                assert(s[i] == rest[i - 1]);
            }
        }
    } else {
        lemma_digits_to_nat_bound(bits, 2);
        let e = (w - bits.len()) as nat;
        let v = digits_to_nat(bits, 2);
        assert(v * pow(2, e) < pow(2, w)) by {
            lemma_pow_positive(2, e);
            lemma_pow_adds(2, bits.len(), e);
            assert(v * pow(2, e) < pow(2, bits.len()) * pow(2, e)) by (nonlinear_arith)
                requires
                    v < pow(2, bits.len()),
                    pow(2, e) > 0,
            ;
        }
        assert(s == seq![(v * pow(2, e)) as u8]);
        assert(s[0] == (v * pow(2, e)) as u8);
    }
}

/// Replaying the symbols of a bitstream yields the bitstream plus the
/// encoder's zero fill.
pub proof fn lemma_bits_of_symbols_of_bits(bits: Seq<u8>, w: nat)
    requires
        1 <= w <= 8,
        digits_ok(bits, 2),
    ensures
        bits_of_symbols(symbols_of_bits(bits, w), w) == bits + zeros(fill_len(bits.len(), w)),
    decreases bits.len(),
{
    lemma_pow2_small();
    lemma_pow_increases(2, w, 8);
    if bits.len() == 0 {
        assert(bits.len() % w == 0) by {
            lemma_small_mod(0, w);
        }
        assert(bits_of_symbols(symbols_of_bits(bits, w), w) =~= bits + zeros(0));
    } else if bits.len() >= w {
        let head = bits.take(w as int);
        let tail = bits.skip(w as int);
        assert(digits_ok(head, 2)) by {
            assert(forall|m: int| 0 <= m < head.len() ==> (#[trigger] head[m]) == bits[m]);
        }
        assert(digits_ok(tail, 2)) by {
            assert(forall|m: int|
                0 <= m < tail.len() ==> (#[trigger] tail[m]) == bits[m + w as int]);
        }
        let v = digits_to_nat(head, 2);
        lemma_digits_to_nat_bound(head, 2);
        let syms = symbols_of_bits(bits, w);
        let rest = symbols_of_bits(tail, w);
        assert(syms == seq![v as u8] + rest);
        assert(syms.len() == 1 + rest.len());
        assert(syms[0] == v as u8);
        assert(syms.skip(1) =~= rest);
        assert(v as u8 as nat == v);
        lemma_nat_to_digits_of_digits_to_nat(head, 2);
        assert(nat_to_digits(v, 2, w) == head);
        lemma_bits_of_symbols_of_bits(tail, w);
        assert(bits_of_symbols(syms, w) == head + (tail + zeros(fill_len(tail.len(), w))));
        assert((bits.len() - w) % (w as int) == bits.len() as int % (w as int)) by {
            lemma_mod_multiples_vanish(1, bits.len() - w, w as int);
        }
        assert(fill_len(tail.len(), w) == fill_len(bits.len(), w));
        assert(head + (tail + zeros(fill_len(bits.len(), w))) =~= bits + zeros(
            fill_len(bits.len(), w),
        ));
    } else {
        let n = bits.len();
        let e = (w - n) as nat;
        let v = digits_to_nat(bits, 2);
        lemma_digits_to_nat_bound(bits, 2);
        lemma_pow_positive(2, e);
        assert(v * pow(2, e) < pow(2, w)) by {
            lemma_pow_adds(2, n, e);
            assert(v * pow(2, e) < pow(2, n) * pow(2, e)) by (nonlinear_arith)
                requires
                    v < pow(2, n),
                    pow(2, e) > 0,
            ;
        }
        let sym = (v * pow(2, e)) as u8;
        assert(sym as nat == v * pow(2, e));
        lemma_nat_to_digits_shift(v, 2, n, e);
        lemma_nat_to_digits_of_digits_to_nat(bits, 2);
        assert(nat_to_digits(sym as nat, 2, w) == bits + zeros(e));
        let syms = symbols_of_bits(bits, w);
        assert(syms == seq![sym]);
        assert(syms[0] == sym);
        assert(syms.skip(1) =~= Seq::<u8>::empty());
        assert(bits_of_symbols(syms, w) == nat_to_digits(sym as nat, 2, w) + bits_of_symbols(
            syms.skip(1),
            w,
        ));
        assert(n as int % (w as int) == n as int) by {
            lemma_small_mod(n, w);
        }
        assert(fill_len(n, w) == e);
        assert(bits_of_symbols(syms, w) =~= bits + zeros(fill_len(bits.len(), w)));
    }
}

proof fn lemma_digits_to_nat_of_byte_bits(x: u8)
    ensures
        digits_to_nat(nat_to_digits(x as nat, 2, 8), 2) == x as nat,
{
    lemma_pow2_small();
    lemma_digits_to_nat_of_nat_to_digits(x as nat, 2, 8);
}

/// Regrouping the bits of `bytes` plus fewer than 8 fill bits recovers
/// exactly `bytes`; the fill is discarded with the incomplete final group.
pub proof fn lemma_bytes_of_bits_of_bytes(bytes: Seq<u8>, p: nat)
    requires
        p < 8,
    ensures
        bytes_of_bits(bits_of_bytes(bytes) + zeros(p)) == bytes,
    decreases bytes.len(),
{
    lemma_pow2_small();
    lemma_bits_of_bytes_ok(bytes);
    if bytes.len() == 0 {
        assert(bits_of_bytes(bytes) + zeros(p) =~= zeros(p));
        assert(bytes_of_bits(zeros(p)) =~= bytes);
    } else {
        let head = nat_to_digits(bytes[0] as nat, 2, 8);
        lemma_nat_to_digits_ok(bytes[0] as nat, 2, 8);
        lemma_bits_of_bytes_ok(bytes.skip(1));
        let s = bits_of_bytes(bytes) + zeros(p);
        assert(s.len() >= 8);
        assert(s.take(8) =~= head);
        assert(s.skip(8) =~= bits_of_bytes(bytes.skip(1)) + zeros(p));
        lemma_digits_to_nat_of_byte_bits(bytes[0]);
        assert(digits_to_nat(s.take(8), 2) as u8 == bytes[0]);
        lemma_bytes_of_bits_of_bytes(bytes.skip(1), p);
        assert(bytes_of_bits(s) =~= bytes);
    }
}

/// Slicing into windows splits at any window boundary.
pub proof fn lemma_symbols_of_bits_split(s: Seq<u8>, w: nat, i: int)
    requires
        1 <= w,
        0 <= i <= s.len(),
        i % (w as int) == 0,
    ensures
        symbols_of_bits(s, w) == symbols_of_bits(s.take(i), w) + symbols_of_bits(s.skip(i), w),
    decreases i,
{
    if i == 0 {
        assert(s.take(0) =~= Seq::<u8>::empty());
        assert(s.skip(0) =~= s);
        assert(symbols_of_bits(s, w) =~= symbols_of_bits(s.take(0), w) + symbols_of_bits(
            s.skip(0),
            w,
        ));
    } else {
        if i < w {
            lemma_small_mod(i as nat, w);
            assert(false);
        }
        assert((i - w) % (w as int) == 0) by {
            lemma_mod_multiples_vanish(1, i - w, w as int);
        }
        lemma_symbols_of_bits_split(s.skip(w as int), w, i - w);
        assert(s.skip(w as int).take(i - w) =~= s.take(i).skip(w as int));
        assert(s.skip(w as int).skip(i - w) =~= s.skip(i));
        assert(s.take(i).take(w as int) =~= s.take(w as int));
        assert(symbols_of_bits(s, w) == seq![digits_to_nat(s.take(w as int), 2) as u8]
            + symbols_of_bits(s.skip(w as int), w));
        assert(symbols_of_bits(s.take(i), w) == seq![digits_to_nat(s.take(w as int), 2) as u8]
            + symbols_of_bits(s.take(i).skip(w as int), w));
        assert(symbols_of_bits(s, w) =~= symbols_of_bits(s.take(i), w) + symbols_of_bits(
            s.skip(i),
            w,
        ));
    }
}

/// Regrouping into bytes splits at any byte boundary.
pub proof fn lemma_bytes_of_bits_split(s: Seq<u8>, i: int)
    requires
        0 <= i <= s.len(),
        i % 8 == 0,
    ensures
        bytes_of_bits(s) == bytes_of_bits(s.take(i)) + bytes_of_bits(s.skip(i)),
    decreases i,
{
    if i == 0 {
        assert(s.take(0) =~= Seq::<u8>::empty());
        assert(s.skip(0) =~= s);
        assert(bytes_of_bits(s) =~= bytes_of_bits(s.take(0)) + bytes_of_bits(s.skip(0)));
    } else {
        if i < 8 {
            lemma_small_mod(i as nat, 8);
            assert(false);
        }
        assert((i - 8) % 8 == 0);
        lemma_bytes_of_bits_split(s.skip(8), i - 8);
        assert(s.skip(8).take(i - 8) =~= s.take(i).skip(8));
        assert(s.skip(8).skip(i - 8) =~= s.skip(i));
        assert(s.take(i).take(8) =~= s.take(8));
        assert(bytes_of_bits(s) == seq![digits_to_nat(s.take(8), 2) as u8] + bytes_of_bits(
            s.skip(8),
        ));
        assert(bytes_of_bits(s.take(i)) == seq![digits_to_nat(s.take(8), 2) as u8]
            + bytes_of_bits(s.take(i).skip(8)));
        assert(bytes_of_bits(s) =~= bytes_of_bits(s.take(i)) + bytes_of_bits(s.skip(i)));
    }
}

/// Decoding the symbols an encoder produced recovers the original bytes.
pub proof fn lemma_bitgroup_round_trip(bytes: Seq<u8>, w: nat)
    requires
        1 <= w <= 8,
    ensures
        bytes_of_bits(bits_of_symbols(symbols_of_bits(bits_of_bytes(bytes), w), w)) == bytes,
{
    let bits = bits_of_bytes(bytes);
    lemma_bits_of_bytes_ok(bytes);
    lemma_bits_of_symbols_of_bits(bits, w);
    let p = fill_len(bits.len(), w);
    assert(p < 8);
    lemma_bytes_of_bits_of_bytes(bytes, p);
}

/// Turns a byte sequence into its big-endian bitstream.
pub fn bytes_to_bits(data: &[u8]) -> (bits: Vec<u8>)
    ensures
        bits@ == bits_of_bytes(data@),
{
    let mut bits: Vec<u8> = Vec::new();
    let n = data.len();
    let mut i: usize = 0;
    while i < n
        invariant
            n == data@.len(),
            i <= n,
            bits@ == bits_of_bytes(data@.take(i as int)),
        decreases n - i,
    {
        append_digits(&mut bits, data[i] as u32, 2, 8);
        proof {
            assert(data@.take(i + 1) =~= data@.take(i as int).push(data@[i as int]));
            lemma_bits_of_bytes_push(data@.take(i as int), data@[i as int]);
        }
        i += 1;
    }
    proof {
        assert(data@.take(n as int) =~= data@);
    }
    bits
}

/// Slices a bitstream into `w`-bit symbol values, zero-filling the trailing
/// window.
pub fn bits_to_symbols(bits: &Vec<u8>, w: usize) -> (syms: Vec<u8>)
    requires
        1 <= w <= 8,
        digits_ok(bits@, 2),
    ensures
        syms@ == symbols_of_bits(bits@, w as nat),
{
    let mut syms: Vec<u8> = Vec::new();
    let n = bits.len();
    let mut i: usize = 0;
    proof {
        lemma_pow2_small();
    }
    while i < n
        invariant
            1 <= w <= 8,
            n == bits@.len(),
            i <= n,
            i as int % w as int == 0 || i == n,
            digits_ok(bits@, 2),
            syms@ == symbols_of_bits(bits@.take(i as int), w as nat),
        decreases n - i,
    {
        let ghost start = i as int;
        let mut val: u8 = 0;
        let mut j: usize = 0;
        while j < w && i < n
            invariant
                1 <= w <= 8,
                n == bits@.len(),
                j <= w,
                i == start + j,
                0 <= start,
                start + j <= n,
                digits_ok(bits@, 2),
                val as nat == digits_to_nat(bits@.subrange(start, start + j), 2),
            decreases w - j,
        {
            proof {
                lemma_pow2_small();
                let win = bits@.subrange(start, start + j);
                assert(digits_ok(win, 2)) by {
                    assert(forall|m: int|
                        0 <= m < win.len() ==> (#[trigger] win[m]) == bits@[start + m]);
                }
                lemma_digits_to_nat_bound(win, 2);
                lemma_pow_increases(2, j as nat, 7);
                let win2 = bits@.subrange(start, start + j + 1);
                assert(win2.drop_last() =~= win);
                assert(win2.last() == bits@[start + j]);
            }
            val = val * 2 + bits[i];
            i += 1;
            j += 1;
        }
        let ghost jwin = j as int;
        let ghost win = bits@.subrange(start, start + jwin);
        proof {
            lemma_pow2_small();
            assert(digits_ok(win, 2)) by {
                assert(forall|m: int|
                    0 <= m < win.len() ==> (#[trigger] win[m]) == bits@[start + m]);
            }
            lemma_digits_to_nat_bound(win, 2);
            lemma_pow_increases(2, jwin as nat, 8);
            assert(pow(2, 0) == 1);
            assert(val as nat == digits_to_nat(win, 2) * pow(2, 0));
        }
        if j < w {
            // The trailing window is short: left-align it by zero-filling.
            while j < w
                invariant
                    1 <= w <= 8,
                    0 <= jwin <= j <= w,
                    win == bits@.subrange(start, start + jwin),
                    digits_ok(win, 2),
                    val as nat == digits_to_nat(win, 2) * pow(2, (j - jwin) as nat),
                    (val as int) < pow(2, j as nat),
                decreases w - j,
            {
                proof {
                    lemma_pow2_small();
                    lemma_pow_increases(2, j as nat, 7);
                    assert(pow(2, (j + 1 - jwin) as nat) == 2 * pow(2, (j - jwin) as nat)) by {
                        lemma_pow_adds(2, 1, (j - jwin) as nat);
                        reveal_with_fuel(pow, 2);
                    }
                    assert(digits_to_nat(win, 2) * (2 * pow(2, (j - jwin) as nat)) == (
                    digits_to_nat(win, 2) * pow(2, (j - jwin) as nat)) * 2) by (nonlinear_arith);
                    assert(pow(2, (j + 1) as nat) == 2 * pow(2, j as nat)) by {
                        lemma_pow_adds(2, 1, j as nat);
                        reveal_with_fuel(pow, 2);
                    }
                }
                val = val * 2;
                j += 1;
            }
        }
        syms.push(val);
        proof {
            lemma_pow2_small();
            if jwin == w as int {
                // A full window ends at a window boundary.
                let sfull = bits@.take(start + jwin);
                lemma_symbols_of_bits_split(sfull, w as nat, start);
                assert(sfull.take(start) =~= bits@.take(start));
                assert(sfull.skip(start) =~= win);
                assert(win.take(w as int) =~= win);
                assert(win.skip(w as int) =~= Seq::<u8>::empty());
                assert(symbols_of_bits(win, w as nat) == seq![digits_to_nat(win.take(w as int), 2)
                    as u8] + symbols_of_bits(win.skip(w as int), w as nat));
                assert(val as nat == digits_to_nat(win, 2));
                assert(symbols_of_bits(win, w as nat) =~= seq![val]);
                assert(syms@ =~= symbols_of_bits(bits@.take(i as int), w as nat));
                assert(i as int % w as int == 0) by {
                    lemma_mod_multiples_vanish(1, start, w as int);
                }
            } else {
                // The stream ended inside the window: this was the last one.
                assert(i == n);
                assert(bits@.take(i as int) =~= bits@);
                lemma_symbols_of_bits_split(bits@, w as nat, start);
                assert(bits@.skip(start) =~= win);
                assert(0 < win.len() < w);
                assert(symbols_of_bits(win, w as nat) == seq![(digits_to_nat(win, 2) * pow(
                    2,
                    (w - win.len()) as nat,
                )) as u8]);
                assert(val as nat == digits_to_nat(win, 2) * pow(2, (w - win.len()) as nat));
                assert(syms@ =~= symbols_of_bits(bits@, w as nat));
            }
        }
    }
    proof {
        assert(bits@.take(n as int) =~= bits@);
    }
    syms
}

/// Replays symbol values as a bitstream, `w` bits per symbol.
pub fn symbols_to_bits(syms: &Vec<u8>, w: usize) -> (bits: Vec<u8>)
    requires
        1 <= w <= 8,
    ensures
        bits@ == bits_of_symbols(syms@, w as nat),
{
    let mut bits: Vec<u8> = Vec::new();
    let n = syms.len();
    let mut i: usize = 0;
    while i < n
        invariant
            1 <= w <= 8,
            n == syms@.len(),
            i <= n,
            bits@ == bits_of_symbols(syms@.take(i as int), w as nat),
        decreases n - i,
    {
        append_digits(&mut bits, syms[i] as u32, 2, w);
        proof {
            assert(syms@.take(i + 1) =~= syms@.take(i as int).push(syms@[i as int]));
            lemma_bits_of_symbols_push(syms@.take(i as int), syms@[i as int], w as nat);
        }
        i += 1;
    }
    proof {
        assert(syms@.take(n as int) =~= syms@);
    }
    bits
}

/// Regroups a bitstream into bytes, dropping a trailing group shorter than 8
/// bits.
pub fn bits_to_bytes(bits: &Vec<u8>) -> (bytes: Vec<u8>)
    requires
        digits_ok(bits@, 2),
    ensures
        bytes@ == bytes_of_bits(bits@),
{
    let mut out: Vec<u8> = Vec::new();
    let n = bits.len();
    let mut i: usize = 0;
    while n - i >= 8
        invariant
            n == bits@.len(),
            i <= n,
            i as int % 8 == 0,
            digits_ok(bits@, 2),
            out@ == bytes_of_bits(bits@.take(i as int)),
        decreases n - i,
    {
        let ghost start = i as int;
        let mut val: u8 = 0;
        let mut j: usize = 0;
        while j < 8
            invariant
                n == bits@.len(),
                0 <= start,
                start + 8 <= n,
                j <= 8,
                i == start + j,
                digits_ok(bits@, 2),
                val as nat == digits_to_nat(bits@.subrange(start, start + j), 2),
            decreases 8 - j,
        {
            proof {
                lemma_pow2_small();
                let win = bits@.subrange(start, start + j);
                assert(digits_ok(win, 2)) by {
                    assert(forall|m: int|
                        0 <= m < win.len() ==> (#[trigger] win[m]) == bits@[start + m]);
                }
                lemma_digits_to_nat_bound(win, 2);
                lemma_pow_increases(2, j as nat, 7);
                let win2 = bits@.subrange(start, start + j + 1);
                assert(win2.drop_last() =~= win);
                assert(win2.last() == bits@[start + j]);
            }
            val = val * 2 + bits[i];
            i += 1;
            j += 1;
        }
        out.push(val);
        proof {
            lemma_pow2_small();
            let win = bits@.subrange(start, start + 8);
            assert(digits_ok(win, 2)) by {
                assert(forall|m: int|
                    0 <= m < win.len() ==> (#[trigger] win[m]) == bits@[start + m]);
            }
            lemma_digits_to_nat_bound(win, 2);
            let sfull = bits@.take(start + 8);
            lemma_bytes_of_bits_split(sfull, start);
            assert(sfull.take(start) =~= bits@.take(start));
            assert(sfull.skip(start) =~= win);
            assert(win.take(8) =~= win);
            assert(win.skip(8) =~= Seq::<u8>::empty());
            assert(bytes_of_bits(win) == seq![digits_to_nat(win.take(8), 2) as u8]
                + bytes_of_bits(win.skip(8)));
            assert(val as nat == digits_to_nat(win, 2));
            assert(bytes_of_bits(win) =~= seq![val]);
            assert(out@ =~= bytes_of_bits(bits@.take(i as int)));
            assert(i as int % 8 == 0) by {
                lemma_mod_multiples_vanish(1, start, 8);
            }
        }
    }
    proof {
        lemma_bytes_of_bits_split(bits@, i as int);
        assert(bits@.skip(i as int).len() < 8);
        assert(bytes_of_bits(bits@.skip(i as int)) =~= Seq::<u8>::empty());
        assert(out@ =~= bytes_of_bits(bits@));
    }
    out
}

} // verus!
