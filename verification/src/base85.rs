//! The base85 codec: 4-byte chunks become 5 characters in a positional
//! base-85 numeral system (digit `d` printed as the character `d + 33`), a
//! full chunk of zero bytes becomes the single compression character `z`, and
//! a short final chunk of `n` bytes becomes `n + 1` characters.

use vstd::prelude::*;

verus! {

use vstd::arithmetic::power::pow;
use vstd::arithmetic::power::lemma_pow_increases;
use vstd::arithmetic::div_mod::lemma_small_mod;
use vstd::arithmetic::div_mod::lemma_mod_multiples_vanish;
use crate::MyError;
use crate::radix::digits_ok;
use crate::radix::digits_to_nat;
use crate::radix::nat_to_digits;
use crate::radix::zeros;
use crate::radix::append_digits;
use crate::radix::lemma_digits_to_nat_bound;
use crate::radix::lemma_nat_to_digits_ok;
use crate::text::push_char;

/// The character printed for a base-85 digit.
pub open spec fn b85_char_of(d: u8) -> char {
    ((d + 33) as u8) as char
}

/// The base-85 digit a character denotes, or `None` outside the digit range
/// `!`..=`u`.
pub open spec fn b85_digit_of(c: char) -> Option<u8> {
    if 33 <= c as u32 && c as u32 <= 117 {
        Some(((c as u32) - 33) as u8)
    } else {
        None
    }
}

/// The 32-bit value of a chunk of up to 4 bytes, left-aligned: short chunks
/// are padded with zero bytes on the right.
pub open spec fn b85_chunk_value(chunk: Seq<u8>) -> nat {
    (digits_to_nat(chunk, 256) * pow(256, (4 - chunk.len()) as nat)) as nat
}

/// The characters one chunk of 1 to 4 bytes encodes to: `z` for a full zero
/// chunk, else the most significant `len + 1` of the value's 5 base-85
/// digits.
pub open spec fn b85_chunk_chars(chunk: Seq<u8>) -> Seq<char> {
    let v = b85_chunk_value(chunk);
    if chunk.len() == 4 && v == 0 {
        seq!['z']
    } else {
        nat_to_digits(v, 85, 5).take(chunk.len() as int + 1).map_values(|d: u8| b85_char_of(d))
    }
}

/// The full encoded text for `bytes`, chunk by chunk.
pub open spec fn b85_encoded(bytes: Seq<u8>) -> Seq<char>
    decreases bytes.len(),
{
    if bytes.len() == 0 {
        Seq::empty()
    } else if bytes.len() >= 4 {
        b85_chunk_chars(bytes.take(4)) + b85_encoded(bytes.skip(4))
    } else {
        b85_chunk_chars(bytes)
    }
}

/// The value of a final short digit group, padded on the right with the
/// maximal digit 84 up to 5 digits.
pub open spec fn b85_group_value(group: Seq<u8>) -> nat {
    digits_to_nat(group + Seq::new((5 - group.len()) as nat, |i: int| 84u8), 85)
}

/// Decoding state machine over the text, carrying the partial digit group:
/// `z` is only legal on an empty group and yields 4 zero bytes, every 5th
/// digit completes a group worth 4 bytes, and a final partial group of `n`
/// digits is padded with maximal digits and truncated to `n - 1` bytes.
/// `None` marks a malformed container: a character outside the digit range,
/// `z` inside a group, or a group value exceeding 32 bits.
pub open spec fn b85_decode_spec(s: Seq<char>, group: Seq<u8>) -> Option<Seq<u8>>
    decreases s.len(),
{
    if s.len() == 0 {
        if group.len() == 0 {
            Some(Seq::empty())
        } else {
            let v = b85_group_value(group);
            if v > 0xFFFFFFFF {
                None
            } else {
                Some(nat_to_digits(v, 256, 4).take(group.len() - 1))
            }
        }
    } else if s[0] == 'z' {
        if group.len() != 0 {
            None
        } else {
            match b85_decode_spec(s.skip(1), Seq::empty()) {
                None => None,
                Some(rest) => Some(zeros(4) + rest),
            }
        }
    } else {
        match b85_digit_of(s[0]) {
            None => None,
            Some(d) => {
                if group.len() == 4 {
                    let v = digits_to_nat(group.push(d), 85);
                    if v > 0xFFFFFFFF {
                        None
                    } else {
                        match b85_decode_spec(s.skip(1), Seq::empty()) {
                            None => None,
                            Some(rest) => Some(nat_to_digits(v, 256, 4) + rest),
                        }
                    }
                } else {
                    b85_decode_spec(s.skip(1), group.push(d))
                }
            },
        }
    }
}

proof fn lemma_pow85_small()
    ensures
        pow(85, 0) == 1,
        pow(85, 1) == 85,
        pow(85, 2) == 7225,
        pow(85, 3) == 614125,
        pow(85, 4) == 52200625,
        pow(85, 5) == 4437053125,
{
    reveal_with_fuel(pow, 6);
}

proof fn lemma_pow256_small()
    ensures
        pow(256, 0) == 1,
        pow(256, 1) == 256,
        pow(256, 2) == 65536,
        pow(256, 3) == 16777216,
        pow(256, 4) == 4294967296,
{
    reveal_with_fuel(pow, 5);
}

/// Chunked encoding splits at any chunk boundary.
pub proof fn lemma_b85_encoded_split(s: Seq<u8>, i: int)
    requires
        0 <= i <= s.len(),
        i % 4 == 0,
    ensures
        b85_encoded(s) == b85_encoded(s.take(i)) + b85_encoded(s.skip(i)),
    decreases i,
{
    if i == 0 {
        assert(s.take(0) =~= Seq::<u8>::empty());
        assert(s.skip(0) =~= s);
        assert(b85_encoded(s) =~= b85_encoded(s.take(0)) + b85_encoded(s.skip(0)));
    } else {
        if i < 4 {
            lemma_small_mod(i as nat, 4);
            assert(false);
        }
        assert((i - 4) % 4 == 0);
        lemma_b85_encoded_split(s.skip(4), i - 4);
        assert(s.skip(4).take(i - 4) =~= s.take(i).skip(4));
        assert(s.skip(4).skip(i - 4) =~= s.skip(i));
        assert(s.take(i).take(4) =~= s.take(4));
        assert(b85_encoded(s) == b85_chunk_chars(s.take(4)) + b85_encoded(s.skip(4)));
        assert(b85_encoded(s.take(i)) == b85_chunk_chars(s.take(4)) + b85_encoded(
            s.take(i).skip(4),
        ));
        assert(b85_encoded(s) =~= b85_encoded(s.take(i)) + b85_encoded(s.skip(i)));
    }
}

proof fn lemma_b85_digit_round_trip(d: u8)
    requires
        d < 85,
    ensures
        b85_digit_of(b85_char_of(d)) == Some(d),
        b85_char_of(d) != 'z',
{
}

/// Stepping the decoder through the printed digits of one full group: the
/// fifth digit flushes the group's 4 bytes.
proof fn lemma_b85_decode_digits_full(digits: Seq<u8>, rest: Seq<char>, acc: Seq<u8>)
    requires
        digits_ok(acc + digits, 85),
        (acc + digits).len() == 5,
        1 <= digits.len(),
        digits_to_nat(acc + digits, 85) <= 0xFFFFFFFF,
    ensures
        b85_decode_spec(digits.map_values(|d: u8| b85_char_of(d)) + rest, acc) == (
        match b85_decode_spec(rest, Seq::empty()) {
            Option::None => Option::<Seq<u8>>::None,
            Option::Some(r2) => Option::Some(
                nat_to_digits(digits_to_nat(acc + digits, 85), 256, 4) + r2,
            ),
        }),
    decreases digits.len(),
{
    let s = digits.map_values(|d: u8| b85_char_of(d)) + rest;
    let d0 = digits[0];
    assert((acc + digits)[acc.len() as int] == d0);
    assert(d0 < 85);
    lemma_b85_digit_round_trip(d0);
    assert(s[0] == b85_char_of(d0));
    if digits.len() == 1 {
        assert(acc.len() == 4);
        assert(acc.push(d0) =~= acc + digits);
        assert(s.skip(1) =~= rest);
    } else {
        assert(acc.len() < 4);
        assert(s.skip(1) =~= digits.skip(1).map_values(|d: u8| b85_char_of(d)) + rest);
        assert(acc.push(d0) + digits.skip(1) =~= acc + digits);
        lemma_b85_decode_digits_full(digits.skip(1), rest, acc.push(d0));
    }
}

/// Stepping the decoder through the printed digits of a final short group:
/// the end of input pads and truncates it.
proof fn lemma_b85_decode_digits_tail(digits: Seq<u8>, acc: Seq<u8>)
    requires
        digits_ok(acc + digits, 85),
        1 <= (acc + digits).len() <= 4,
    ensures
        b85_decode_spec(digits.map_values(|d: u8| b85_char_of(d)), acc) == ({
            let g = acc + digits;
            let v = b85_group_value(g);
            if v > 0xFFFFFFFF {
                Option::<Seq<u8>>::None
            } else {
                Option::Some(nat_to_digits(v, 256, 4).take(g.len() - 1))
            }
        }),
    decreases digits.len(),
{
    let s = digits.map_values(|d: u8| b85_char_of(d));
    if digits.len() == 0 {
        assert(s =~= Seq::<char>::empty());
        assert(acc + digits =~= acc);
        assert(acc.len() >= 1);
    } else {
        let d0 = digits[0];
        assert((acc + digits)[acc.len() as int] == d0);
        assert(d0 < 85);
        lemma_b85_digit_round_trip(d0);
        assert(s[0] == b85_char_of(d0));
        assert(acc.len() < 4);
        assert(s.skip(1) =~= digits.skip(1).map_values(|d: u8| b85_char_of(d)));
        assert(acc.push(d0) + digits.skip(1) =~= acc + digits);
        lemma_b85_decode_digits_tail(digits.skip(1), acc.push(d0));
    }
}

/// Round trip: decoding an encoded container always succeeds and yields the
/// original byte sequence exactly.
pub proof fn lemma_base85_round_trip(bytes: Seq<u8>)
    ensures
        b85_decode_spec(b85_encoded(bytes), Seq::empty()) == Some(bytes),
    decreases bytes.len(),
{
    lemma_pow85_small();
    lemma_pow256_small();
    if bytes.len() == 0 {
        assert(b85_encoded(bytes) == Seq::<char>::empty());
        assert(bytes =~= Seq::<u8>::empty());
    } else if bytes.len() >= 4 {
        let chunk = bytes.take(4);
        let restb = bytes.skip(4);
        assert(digits_ok(chunk, 256));
        lemma_digits_to_nat_bound(chunk, 256);
        let v = b85_chunk_value(chunk);
        assert(v == digits_to_nat(chunk, 256));
        lemma_base85_round_trip(restb);
        let enc_rest = b85_encoded(restb);
        crate::radix::lemma_nat_to_digits_of_digits_to_nat(chunk, 256);
        if v == 0 {
            assert(b85_chunk_chars(chunk) == seq!['z']);
            let s = b85_encoded(bytes);
            assert(s == seq!['z'] + enc_rest);
            assert(s[0] == 'z');
            assert(s.skip(1) =~= enc_rest);
            crate::radix::lemma_nat_to_digits_zero(256, 4);
            assert(chunk == zeros(4));
            assert(zeros(4) + restb =~= bytes);
        } else {
            let digits = nat_to_digits(v, 85, 5);
            lemma_nat_to_digits_ok(v, 85, 5);
            crate::radix::lemma_digits_to_nat_of_nat_to_digits(v, 85, 5);
            assert(digits.take(5) =~= digits);
            assert(b85_chunk_chars(chunk) == digits.map_values(|d: u8| b85_char_of(d)));
            assert(Seq::<u8>::empty() + digits =~= digits);
            lemma_b85_decode_digits_full(digits, enc_rest, Seq::empty());
            assert(nat_to_digits(digits_to_nat(digits, 85), 256, 4) == chunk);
            assert(chunk + restb =~= bytes);
        }
    } else {
        let count = bytes.len() as int;
        let k = (4 - count) as nat;
        assert(digits_ok(bytes, 256));
        lemma_digits_to_nat_bound(bytes, 256);
        let cv = digits_to_nat(bytes, 256);
        let v = b85_chunk_value(bytes);
        assert(v == (cv * pow(256, k)) as nat);
        let p85 = pow(85, k);
        let p256 = pow(256, k);
        if count == 1 {
            assert(p85 == 614125 && p256 == 16777216);
        } else if count == 2 {
            assert(p85 == 7225 && p256 == 65536);
        } else {
            assert(p85 == 85 && p256 == 256);
        }
        assert(cv * pow(256, k) + p256 <= pow(256, 4)) by (nonlinear_arith)
            requires
                cv < pow(256, count as nat),
                pow(256, count as nat) * pow(256, k) == pow(256, 4),
                p256 == pow(256, k),
                p256 > 0,
        ;
        assert(pow(256, count as nat) * pow(256, k) == pow(256, 4)) by {
            vstd::arithmetic::power::lemma_pow_adds(256, count as nat, k);
        }
        let digits = nat_to_digits(v, 85, 5);
        lemma_nat_to_digits_ok(v, 85, 5);
        crate::radix::lemma_digits_to_nat_of_nat_to_digits(v, 85, 5);
        assert(b85_chunk_chars(bytes) == digits.take(count + 1).map_values(
            |d: u8| b85_char_of(d),
        ));
        let group = digits.take(count + 1);
        let taild = digits.skip(count + 1);
        assert(digits_ok(group, 85)) by {
            assert(forall|m: int| 0 <= m < group.len() ==> (#[trigger] group[m]) == digits[m]);
        }
        assert(digits_ok(taild, 85)) by {
            assert(forall|m: int|
                0 <= m < taild.len() ==> (#[trigger] taild[m]) == digits[m + count + 1]);
        }
        assert(Seq::<u8>::empty() + group =~= group);
        lemma_b85_decode_digits_tail(group, Seq::<u8>::empty());
        assert(b85_encoded(bytes) == b85_chunk_chars(bytes));
        assert(group.map_values(|d: u8| b85_char_of(d)) =~= digits.take(count + 1).map_values(
            |d: u8| b85_char_of(d),
        ));
        // The padded group value: the trailing digits are replaced by maximal
        // ones, which moves the value up by less than one low-byte unit.
        let pads = Seq::new((5 - group.len()) as nat, |i: int| 84u8);
        assert(pads.len() == k);
        let gv = b85_group_value(group);
        assert(gv == digits_to_nat(group + pads, 85));
        crate::radix::lemma_digits_to_nat_concat(group, pads, 85);
        assert(pads =~= Seq::new(k, |i: int| 84u8));
        crate::radix::lemma_digits_to_nat_all_max(85, k);
        assert(digits_to_nat(pads, 85) == p85 - 1);
        assert(group + taild =~= digits);
        crate::radix::lemma_digits_to_nat_concat(group, taild, 85);
        assert(taild.len() == k);
        lemma_digits_to_nat_bound(taild, 85);
        let dt = digits_to_nat(taild, 85);
        assert(digits_to_nat(group, 85) * p85 + dt == v);
        assert(gv == digits_to_nat(group, 85) * p85 + p85 - 1);
        let delta = (p85 - 1 - dt) as nat;
        assert(gv == v + delta);
        assert(delta < p256);
        assert(v + delta < pow(256, 4));
        assert(gv <= 0xFFFFFFFF);
        // The padded value's high digits are still the original bytes.
        crate::radix::lemma_nat_to_digits_concat(cv, delta, 256, count as nat, k);
        assert((cv * pow(256, k) + delta) as nat == gv);
        let gb = nat_to_digits(gv, 256, 4);
        assert(gb == nat_to_digits(cv, 256, count as nat) + nat_to_digits(delta, 256, k));
        crate::radix::lemma_nat_to_digits_of_digits_to_nat(bytes, 256);
        lemma_nat_to_digits_ok(cv, 256, count as nat);
        assert(gb.take(group.len() - 1) =~= nat_to_digits(cv, 256, count as nat));
        assert(nat_to_digits(cv, 256, count as nat) == bytes);
    }
}

/// Every character one chunk encodes to is a digit character or `z`.
proof fn lemma_b85_chunk_chars_closed(chunk: Seq<u8>)
    requires
        1 <= chunk.len() <= 4,
    ensures
        forall|i: int|
            0 <= i < b85_chunk_chars(chunk).len() ==> b85_digit_of(
                #[trigger] b85_chunk_chars(chunk)[i],
            ) is Some || b85_chunk_chars(chunk)[i] == 'z',
{
    let v = b85_chunk_value(chunk);
    let cc = b85_chunk_chars(chunk);
    if chunk.len() == 4 && v == 0 {
    } else {
        lemma_nat_to_digits_ok(v, 85, 5);
        let digits = nat_to_digits(v, 85, 5);
        assert forall|i: int| 0 <= i < cc.len() implies b85_digit_of(#[trigger] cc[i]) is Some
            || cc[i] == 'z' by {
            assert(cc[i] == b85_char_of(digits[i]));
            assert(digits[i] < 85);
            lemma_b85_digit_round_trip(digits[i]);
        }
    }
}

/// Alphabet closure: every character of an encoded container is a base-85
/// digit character or the compression symbol `z`.
pub proof fn lemma_base85_alphabet(bytes: Seq<u8>)
    ensures
        forall|i: int|
            0 <= i < b85_encoded(bytes).len() ==> b85_digit_of(
                #[trigger] b85_encoded(bytes)[i],
            ) is Some || b85_encoded(bytes)[i] == 'z',
    decreases bytes.len(),
{
    if bytes.len() == 0 {
    } else if bytes.len() >= 4 {
        let cc = b85_chunk_chars(bytes.take(4));
        lemma_b85_chunk_chars_closed(bytes.take(4));
        lemma_base85_alphabet(bytes.skip(4));
        let rest = b85_encoded(bytes.skip(4));
        assert forall|i: int| 0 <= i < b85_encoded(bytes).len() implies b85_digit_of(
            #[trigger] b85_encoded(bytes)[i],
        ) is Some || b85_encoded(bytes)[i] == 'z' by {
            if i < cc.len() {
                assert(b85_encoded(bytes)[i] == cc[i]);
            } else {
                assert(b85_encoded(bytes)[i] == rest[i - cc.len()]);
            }
        }
    } else {
        lemma_b85_chunk_chars_closed(bytes);
    }
}

/// `z` in the text stands for exactly 4 zero bytes wherever it is decoded.
pub proof fn lemma_base85_z_decodes(s: Seq<char>)
    ensures
        b85_decode_spec(seq!['z'] + s, Seq::empty()) == (match b85_decode_spec(
            s,
            Seq::empty(),
        ) {
            Option::None => Option::<Seq<u8>>::None,
            Option::Some(rest) => Option::Some(zeros(4) + rest),
        }),
{
    let t = seq!['z'] + s;
    assert(t[0] == 'z');
    assert(t.skip(1) =~= s);
}

/// Zero-run compression: a full chunk of 4 zero bytes at a chunk boundary
/// encodes as the single character `z`.
pub proof fn lemma_base85_zero_run(a: Seq<u8>, b: Seq<u8>)
    requires
        a.len() % 4 == 0,
    ensures
        b85_encoded(a + zeros(4) + b) == b85_encoded(a) + seq!['z'] + b85_encoded(b),
{
    lemma_pow256_small();
    let s = a + zeros(4) + b;
    lemma_b85_encoded_split(s, a.len() as int);
    assert(s.take(a.len() as int) =~= a);
    assert(s.skip(a.len() as int) =~= zeros(4) + b);
    let z4 = zeros(4) + b;
    assert(z4.take(4) =~= zeros(4));
    assert(z4.skip(4) =~= b);
    assert(digits_ok(zeros(4), 256));
    crate::radix::lemma_nat_to_digits_zero(256, 4);
    crate::radix::lemma_digits_to_nat_of_nat_to_digits(0, 256, 4);
    assert(digits_to_nat(zeros(4), 256) == 0);
    assert(b85_chunk_value(zeros(4)) == 0);
    assert(b85_chunk_chars(zeros(4)) == seq!['z']);
    assert(b85_encoded(z4) == seq!['z'] + b85_encoded(b));
    assert(b85_encoded(s) =~= b85_encoded(a) + seq!['z'] + b85_encoded(b));
}

/// An encoded base85 container.
#[derive(Debug)]
pub struct Base85 {
    pub container: String,
}

impl Default for Base85 {
    fn default() -> (r: Self)
        ensures
            r.container@ == Seq::<char>::empty(),
    {
        Base85 { container: String::new() }
    }
}

impl Base85 {
    pub fn new() -> (r: Self)
        ensures
            r.container@ == Seq::<char>::empty(),
    {
        Base85 { container: String::new() }
    }

    /// The container in its display form, wrapped in parentheses.
    pub fn display_string(&self) -> (r: String)
        ensures
            r@ == seq!['('] + self.container@ + seq![')'],
    {
        let mut s = String::new();
        push_char(&mut s, '(');
        s.append(self.container.as_str());
        push_char(&mut s, ')');
        proof {
            assert(s@ =~= seq!['('] + self.container@ + seq![')']);
        }
        s
    }

    /// Encodes a byte sequence; encoding never fails.
    pub fn encode(data: &[u8]) -> (r: Result<Base85, MyError>)
        ensures
            r matches Ok(e) && e.container@ == b85_encoded(data@),
    {
        let mut out = Base85::new();
        let n = data.len();
        let mut i: usize = 0;
        while i < n
            invariant
                n == data@.len(),
                i <= n,
                i as int % 4 == 0 || i == n,
                out.container@ == b85_encoded(data@.take(i as int)),
            decreases n - i,
        {
            let ghost start = i as int;
            let mut buf: u32 = 0;
            let mut j: usize = 0;
            while j < 4 && i < n
                invariant
                    n == data@.len(),
                    j <= 4,
                    i == start + j,
                    0 <= start,
                    start + j <= n,
                    buf as nat == digits_to_nat(data@.subrange(start, start + j), 256),
                decreases 4 - j,
            {
                proof {
                    lemma_pow256_small();
                    let win = data@.subrange(start, start + j);
                    assert(digits_ok(win, 256));
                    lemma_digits_to_nat_bound(win, 256);
                    lemma_pow_increases(256, j as nat, 3);
                    let win2 = data@.subrange(start, start + j + 1);
                    assert(win2.drop_last() =~= win);
                    assert(win2.last() == data@[start + j]);
                }
                buf = buf * 256 + (data[i] as u32);
                i += 1;
                j += 1;
            }
            let count = j;
            let ghost chunk = data@.subrange(start, start + count as int);
            proof {
                lemma_pow256_small();
                assert(digits_ok(chunk, 256));
                lemma_digits_to_nat_bound(chunk, 256);
                assert(pow(256, 0) == 1);
                assert(buf as nat == digits_to_nat(chunk, 256) * pow(256, 0));
            }
            let mut m = count;
            while m < 4
                invariant
                    count <= m <= 4,
                    1 <= count,
                    chunk == data@.subrange(start, start + count as int),
                    chunk.len() == count,
                    digits_ok(chunk, 256),
                    buf as nat == digits_to_nat(chunk, 256) * pow(256, (m - count) as nat),
                decreases 4 - m,
            {
                proof {
                    lemma_pow256_small();
                    lemma_digits_to_nat_bound(chunk, 256);
                    lemma_pow_increases(256, count as nat, m as nat);
                    lemma_pow_increases(256, m as nat, 3);
                    assert(pow(256, ((m + 1) - count) as nat) == 256 * pow(
                        256,
                        (m - count) as nat,
                    )) by {
                        reveal_with_fuel(pow, 2);
                    }
                    assert(pow(256, ((m + 1) - count) as nat) > 0) by {
                        vstd::arithmetic::power::lemma_pow_positive(
                            256,
                            ((m + 1) - count) as nat,
                        );
                    }
                    assert(digits_to_nat(chunk, 256) * pow(256, (m - count) as nat) * 256
                        == digits_to_nat(chunk, 256) * (256 * pow(256, (m - count) as nat)))
                        by (nonlinear_arith);
                    assert(pow(256, count as nat) * pow(256, ((m + 1) - count) as nat) <= pow(
                        256,
                        4,
                    )) by {
                        vstd::arithmetic::power::lemma_pow_adds(
                            256,
                            count as nat,
                            ((m + 1) - count) as nat,
                        );
                        lemma_pow_increases(256, (m + 1) as nat, 4);
                    }
                    assert(digits_to_nat(chunk, 256) * pow(256, ((m + 1) - count) as nat) < pow(
                        256,
                        4,
                    )) by (nonlinear_arith)
                        requires
                            digits_to_nat(chunk, 256) < pow(256, count as nat),
                            pow(256, ((m + 1) - count) as nat) > 0,
                            pow(256, count as nat) * pow(256, ((m + 1) - count) as nat) <= pow(
                                256,
                                4,
                            ),
                    ;
                }
                buf = buf * 256;
                m += 1;
            }
            proof {
                assert(buf as nat == b85_chunk_value(chunk));
            }
            if count == 4 && buf == 0 {
                let ghost prevc = out.container@;
                push_char(&mut out.container, 'z');
                proof {
                    assert(b85_chunk_chars(chunk) == seq!['z']);
                    assert(out.container@ =~= prevc + b85_chunk_chars(chunk));
                }
            } else {
                let mut digs: Vec<u8> = Vec::new();
                append_digits(&mut digs, buf, 85, 5);
                proof {
                    lemma_nat_to_digits_ok(buf as nat, 85, 5);
                    assert(digs@ =~= nat_to_digits(buf as nat, 85, 5));
                }
                let outlen = count + 1;
                let ghost cc = b85_chunk_chars(chunk);
                proof {
                    assert(cc == digs@.take(outlen as int).map_values(|d: u8| b85_char_of(d)));
                    assert(cc.len() == outlen);
                }
                let ghost prevc = out.container@;
                let mut t: usize = 0;
                proof {
                    assert(out.container@ =~= prevc + cc.take(0));
                }
                while t < outlen
                    invariant
                        t <= outlen,
                        outlen == count + 1,
                        count <= 4,
                        digs@ == nat_to_digits(buf as nat, 85, 5),
                        digs@.len() == 5,
                        digits_ok(digs@, 85),
                        cc == digs@.take(outlen as int).map_values(|d: u8| b85_char_of(d)),
                        cc.len() == outlen,
                        out.container@ == prevc + cc.take(t as int),
                    decreases outlen - t,
                {
                    let d = digs[t];
                    push_char(&mut out.container, (d + 33) as char);
                    t += 1;
                    proof {
                        assert(cc[t - 1] == b85_char_of(digs@[t - 1]));
                        assert(out.container@ =~= prevc + cc.take(t as int));
                    }
                }
                proof {
                    assert(cc.take(outlen as int) =~= cc);
                }
            }
            proof {
                if count == 4 {
                    let sfull = data@.take(start + 4);
                    lemma_b85_encoded_split(sfull, start);
                    assert(sfull.take(start) =~= data@.take(start));
                    assert(sfull.skip(start) =~= chunk);
                    assert(chunk.take(4) =~= chunk);
                    assert(chunk.skip(4) =~= Seq::<u8>::empty());
                    assert(b85_encoded(chunk) == b85_chunk_chars(chunk) + b85_encoded(
                        chunk.skip(4),
                    ));
                    assert(b85_encoded(chunk) =~= b85_chunk_chars(chunk));
                    assert(out.container@ =~= b85_encoded(data@.take(i as int)));
                    assert(i as int % 4 == 0) by {
                        lemma_mod_multiples_vanish(1, start, 4);
                    }
                } else {
                    assert(i == n);
                    assert(data@.take(i as int) =~= data@);
                    lemma_b85_encoded_split(data@, start);
                    assert(data@.skip(start) =~= chunk);
                    assert(0 < chunk.len() < 4);
                    assert(b85_encoded(chunk) == b85_chunk_chars(chunk));
                    assert(out.container@ =~= b85_encoded(data@));
                }
            }
        }
        proof {
            assert(data@.take(n as int) =~= data@);
        }
        Ok(out)
    }

    /// Decodes the container: `Ok` with the original bytes exactly when the
    /// container is well-formed, `Err` with no partial output otherwise.
    pub fn decode(&self) -> (r: Result<Vec<u8>, MyError>)
        ensures
            r is Ok <==> b85_decode_spec(self.container@, Seq::empty()) is Some,
            r matches Ok(v) ==> Some(v@) == b85_decode_spec(self.container@, Seq::empty()),
            r is Err ==> r == Err::<Vec<u8>, MyError>(MyError::DecodingError),
    {
        let s = self.container.as_str();
        let n = s.unicode_len();
        let mut out: Vec<u8> = Vec::new();
        let mut group: Vec<u8> = Vec::new();
        let mut i: usize = 0;
        proof {
            lemma_pow85_small();
            assert(self.container@.skip(0) =~= self.container@);
            match b85_decode_spec(self.container@, Seq::empty()) {
                Option::None => {},
                Option::Some(rest) => {
                    assert(Seq::<u8>::empty() + rest =~= rest);
                },
            }
            assert(group@ =~= Seq::<u8>::empty());
        }
        while i < n
            invariant
                n == self.container@.len(),
                s@ == self.container@,
                i <= n,
                group@.len() < 5,
                digits_ok(group@, 85),
                b85_decode_spec(self.container@, Seq::empty()) == (match b85_decode_spec(
                    self.container@.skip(i as int),
                    group@,
                ) {
                    Option::None => Option::<Seq<u8>>::None,
                    Option::Some(rest) => Option::Some(out@ + rest),
                }),
            decreases n - i,
        {
            let c = s.get_char(i);
            let ghost tail = self.container@.skip(i as int);
            proof {
                assert(tail[0] == c);
            }
            if c == 'z' {
                // The compression symbol is legal only at a chunk boundary.
                if group.len() > 0 {
                    proof {
                        assert(b85_decode_spec(tail, group@) is None);
                    }
                    return Err(MyError::DecodingError);
                }
                let ghost prev = out@;
                out.push(0);
                out.push(0);
                out.push(0);
                out.push(0);
                i += 1;
                proof {
                    assert(out@ =~= prev + zeros(4));
                    assert(tail.skip(1) =~= self.container@.skip(i as int));
                    assert(group@ =~= Seq::<u8>::empty());
                    match b85_decode_spec(self.container@.skip(i as int), Seq::empty()) {
                        Option::None => {
                            assert(b85_decode_spec(tail, Seq::empty()) is None);
                        },
                        Option::Some(r2) => {
                            assert(b85_decode_spec(tail, Seq::empty()) == Option::Some(
                                zeros(4) + r2,
                            ));
                            assert(prev + (zeros(4) + r2) =~= out@ + r2);
                        },
                    }
                }
            } else {
                let u = c as u32;
                if 33 <= u && u <= 117 {
                    let d = (u - 33) as u8;
                    proof {
                        assert(b85_digit_of(c) == Some(d));
                    }
                    if group.len() == 4 {
                        // A fifth digit completes the group: emit 4 bytes.
                        let ghost full = group@.push(d);
                        let mut val: u64 = 0;
                        let mut t: usize = 0;
                        proof {
                            lemma_pow85_small();
                            assert(group@.take(0) =~= Seq::<u8>::empty());
                        }
                        while t < 4
                            invariant
                                t <= 4,
                                group@.len() == 4,
                                digits_ok(group@, 85),
                                val as nat == digits_to_nat(group@.take(t as int), 85),
                                (val as int) < pow(85, t as nat),
                            decreases 4 - t,
                        {
                            proof {
                                lemma_pow85_small();
                                assert(digits_ok(group@.take(t as int), 85));
                                assert(group@.take(t + 1).drop_last() =~= group@.take(t as int));
                                assert(group@.take(t + 1).last() == group@[t as int]);
                                lemma_digits_to_nat_bound(group@.take(t + 1), 85);
                            }
                            val = val * 85 + (group[t] as u64);
                            t += 1;
                        }
                        proof {
                            lemma_pow85_small();
                            assert(group@.take(4) =~= group@);
                            assert(full.drop_last() =~= group@);
                            assert(full.last() == d);
                        }
                        val = val * 85 + (d as u64);
                        proof {
                            assert(val as nat == digits_to_nat(full, 85));
                        }
                        if val > 0xFFFFFFFF {
                            proof {
                                assert(b85_decode_spec(tail, group@) is None);
                            }
                            return Err(MyError::DecodingError);
                        }
                        let ghost prev = out@;
                        append_digits(&mut out, val as u32, 256, 4);
                        group.clear();
                        i += 1;
                        proof {
                            assert(out@ =~= prev + nat_to_digits(val as nat, 256, 4));
                            assert(tail.skip(1) =~= self.container@.skip(i as int));
                            assert(group@ =~= Seq::<u8>::empty());
                            match b85_decode_spec(self.container@.skip(i as int), Seq::empty()) {
                                Option::None => {
                                    assert(b85_decode_spec(tail, full.drop_last()) is None);
                                },
                                Option::Some(r2) => {
                                    assert(b85_decode_spec(tail, full.drop_last())
                                        == Option::Some(nat_to_digits(val as nat, 256, 4) + r2));
                                    assert(prev + (nat_to_digits(val as nat, 256, 4) + r2) =~= out@
                                        + r2);
                                },
                            }
                        }
                    } else {
                        let ghost prevg = group@;
                        group.push(d);
                        i += 1;
                        proof {
                            assert(tail.skip(1) =~= self.container@.skip(i as int));
                            assert(b85_decode_spec(tail, prevg) == b85_decode_spec(
                                self.container@.skip(i as int),
                                group@,
                            ));
                        }
                    }
                } else {
                    proof {
                        assert(b85_digit_of(c) is None);
                        assert(b85_decode_spec(tail, group@) is None);
                    }
                    return Err(MyError::DecodingError);
                }
            }
        }
        proof {
            assert(self.container@.skip(n as int) =~= Seq::<char>::empty());
        }
        if group.len() > 0 {
            // A final partial group: pad with maximal digits, then truncate.
            let glen = group.len();
            let ghost padded = group@ + Seq::new((5 - glen) as nat, |k: int| 84u8);
            proof {
                assert(digits_ok(padded, 85));
                assert(padded.len() == 5);
            }
            let mut val: u64 = 0;
            let mut t: usize = 0;
            proof {
                lemma_pow85_small();
                assert(padded.take(0) =~= Seq::<u8>::empty());
            }
            while t < glen
                invariant
                    t <= glen,
                    glen == group@.len(),
                    0 < glen < 5,
                    digits_ok(group@, 85),
                    digits_ok(padded, 85),
                    padded.len() == 5,
                    padded == group@ + Seq::new((5 - glen) as nat, |k: int| 84u8),
                    val as nat == digits_to_nat(padded.take(t as int), 85),
                    (val as int) < pow(85, t as nat),
                decreases glen - t,
            {
                proof {
                    lemma_pow85_small();
                    assert(digits_ok(padded.take(t as int), 85));
                    assert(padded.take(t + 1).drop_last() =~= padded.take(t as int));
                    assert(padded.take(t + 1).last() == padded[t as int]);
                    assert(padded[t as int] == group@[t as int]);
                    lemma_digits_to_nat_bound(padded.take(t + 1), 85);
                }
                val = val * 85 + (group[t] as u64);
                t += 1;
            }
            while t < 5
                invariant
                    glen <= t <= 5,
                    glen == group@.len(),
                    0 < glen < 5,
                    digits_ok(padded, 85),
                    padded.len() == 5,
                    padded == group@ + Seq::new((5 - glen) as nat, |k: int| 84u8),
                    val as nat == digits_to_nat(padded.take(t as int), 85),
                    (val as int) < pow(85, t as nat),
                decreases 5 - t,
            {
                proof {
                    lemma_pow85_small();
                    assert(digits_ok(padded.take(t as int), 85));
                    assert(padded.take(t + 1).drop_last() =~= padded.take(t as int));
                    assert(padded.take(t + 1).last() == padded[t as int]);
                    assert(padded[t as int] == 84);
                    lemma_digits_to_nat_bound(padded.take(t + 1), 85);
                }
                val = val * 85 + 84;
                t += 1;
            }
            proof {
                assert(padded.take(5) =~= padded);
                assert(b85_group_value(group@) == digits_to_nat(padded, 85));
            }
            if val > 0xFFFFFFFF {
                return Err(MyError::DecodingError);
            }
            let mut tmp: Vec<u8> = Vec::new();
            append_digits(&mut tmp, val as u32, 256, 4);
            proof {
                lemma_nat_to_digits_ok(val as nat, 256, 4);
                assert(tmp@ =~= nat_to_digits(val as nat, 256, 4));
            }
            let keep = glen - 1;
            let ghost prev = out@;
            let mut t2: usize = 0;
            proof {
                assert(out@ =~= prev + tmp@.take(0));
            }
            while t2 < keep
                invariant
                    t2 <= keep,
                    keep <= 3,
                    tmp@.len() == 4,
                    out@ == prev + tmp@.take(t2 as int),
                decreases keep - t2,
            {
                out.push(tmp[t2]);
                t2 += 1;
                proof {
                    assert(out@ =~= prev + tmp@.take(t2 as int));
                }
            }
            proof {
                assert(b85_decode_spec(Seq::<char>::empty(), group@) == Option::Some(
                    nat_to_digits(b85_group_value(group@), 256, 4).take(glen - 1),
                ));
                assert(tmp@.take(keep as int) == nat_to_digits(
                    b85_group_value(group@),
                    256,
                    4,
                ).take(glen - 1));
            }
        } else {
            proof {
                assert(group@ =~= Seq::<u8>::empty());
                assert(b85_decode_spec(Seq::<char>::empty(), Seq::<u8>::empty())
                    == Option::Some(Seq::<u8>::empty()));
                assert(out@ + Seq::<u8>::empty() =~= out@);
            }
        }
        Ok(out)
    }
}

} // verus!
