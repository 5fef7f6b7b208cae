//! The base64 codec: the 6-bit alphabet `A`–`Z`, `a`–`z`, `0`–`9`, `+`, `/`,
//! framed to a multiple of 4 symbols with `=` padding.

use vstd::prelude::*;

verus! {

use vstd::arithmetic::div_mod::lemma_fundamental_div_mod;
use vstd::arithmetic::div_mod::lemma_fundamental_div_mod_converse_div;
use vstd::arithmetic::div_mod::lemma_mod_multiples_vanish;
use vstd::arithmetic::div_mod::lemma_small_mod;
use crate::MyError;
use crate::bitgroup::bits_of_bytes;
use crate::bitgroup::bits_of_symbols;
use crate::bitgroup::bytes_of_bits;
use crate::bitgroup::symbols_of_bits;
use crate::bitgroup::bits_to_bytes;
use crate::bitgroup::bits_to_symbols;
use crate::bitgroup::bytes_to_bits;
use crate::bitgroup::symbols_to_bits;
use crate::bitgroup::lemma_bitgroup_round_trip;
use crate::bitgroup::lemma_bits_of_bytes_ok;
use crate::bitgroup::lemma_bits_of_symbols_ok;
use crate::bitgroup::lemma_pow2_small;
use crate::bitgroup::lemma_symbols_of_bits_bound;
use crate::bitgroup::lemma_symbols_of_bits_len;
use crate::radix::digits_ok;
use crate::text::push_char;

/// The character standing for a 6-bit value: `A`–`Z` for 0–25, `a`–`z` for
/// 26–51, `0`–`9` for 52–61, then `+` and `/`.
pub open spec fn b64_char_of(v: u8) -> char {
    if v < 26 {
        ((v + 65) as u8) as char
    } else if v < 52 {
        (((v - 26) + 97) as u8) as char
    } else if v < 62 {
        (((v - 52) + 48) as u8) as char
    } else if v == 62 {
        '+'
    } else {
        '/'
    }
}

/// The 6-bit value of a character, or `None` outside the alphabet.
pub open spec fn b64_val_of(c: char) -> Option<u8> {
    if 65 <= c as u32 && c as u32 <= 90 {
        Some(((c as u32) - 65) as u8)
    } else if 97 <= c as u32 && c as u32 <= 122 {
        Some((((c as u32) - 97) + 26) as u8)
    } else if 48 <= c as u32 && c as u32 <= 57 {
        Some((((c as u32) - 48) + 52) as u8)
    } else if c == '+' {
        Some(62u8)
    } else if c == '/' {
        Some(63u8)
    } else {
        None
    }
}

pub open spec fn b64_in_alphabet(c: char) -> bool {
    b64_val_of(c) is Some
}

/// The symbol values of the encoded form of `bytes`.
pub open spec fn b64_symbols(bytes: Seq<u8>) -> Seq<u8> {
    symbols_of_bits(bits_of_bytes(bytes), 6)
}

pub open spec fn b64_chars(syms: Seq<u8>) -> Seq<char> {
    syms.map_values(|v: u8| b64_char_of(v))
}

/// How many `=` characters pad an unpadded encoding of length `n` up to a
/// multiple of 4; a remainder of 1 never arises and takes no padding.
pub open spec fn b64_pad_count(n: nat) -> nat {
    if n % 4 == 3 {
        1
    } else if n % 4 == 2 {
        2
    } else {
        0
    }
}

/// The full encoded container for `bytes`: alphabet characters, then padding.
pub open spec fn b64_encoded(bytes: Seq<u8>) -> Seq<char> {
    let u = b64_chars(b64_symbols(bytes));
    u + Seq::new(b64_pad_count(u.len()), |i: int| '=')
}

/// Scans an encoded container up to its first `=`: the symbol values read, or
/// `None` at the first character outside the alphabet.
pub open spec fn b64_scan(s: Seq<char>) -> Option<Seq<u8>>
    decreases s.len(),
{
    if s.len() == 0 {
        Some(Seq::empty())
    } else if s[0] == '=' {
        Some(Seq::empty())
    } else {
        match b64_val_of(s[0]) {
            None => None,
            Some(v) => match b64_scan(s.skip(1)) {
                None => None,
                Some(rest) => Some(seq![v] + rest),
            },
        }
    }
}

/// The bytes a well-formed container decodes to.
pub open spec fn b64_decoded(s: Seq<char>) -> Seq<u8> {
    bytes_of_bits(bits_of_symbols(b64_scan(s).unwrap(), 6))
}

/// The character for symbol value `v`.
fn b64_forward(v: u8) -> (c: char)
    requires
        v < 64,
    ensures
        c == b64_char_of(v),
{
    if v < 26 {
        (v + 65) as char
    } else if v < 52 {
        ((v - 26) + 97) as char
    } else if v < 62 {
        ((v - 52) + 48) as char
    } else if v == 62 {
        '+'
    } else {
        '/'
    }
}

/// The symbol value of `c`, or `None` outside the alphabet.
fn b64_inverse(c: char) -> (r: Option<u8>)
    ensures
        r == b64_val_of(c),
{
    let u = c as u32;
    if 65 <= u && u <= 90 {
        Some((u - 65) as u8)
    } else if 97 <= u && u <= 122 {
        Some(((u - 97) + 26) as u8)
    } else if 48 <= u && u <= 57 {
        Some(((u - 48) + 52) as u8)
    } else if c == '+' {
        Some(62u8)
    } else if c == '/' {
        Some(63u8)
    } else {
        None
    }
}

proof fn lemma_b64_val_of_char_of(v: u8)
    requires
        v < 64,
    ensures
        b64_val_of(b64_char_of(v)) == Some(v),
        b64_char_of(v) != '=',
{
}

proof fn lemma_b64_scan_clean(syms: Seq<u8>, pads: Seq<char>)
    requires
        digits_ok(syms, 64),
        forall|i: int| 0 <= i < pads.len() ==> pads[i] == '=',
    ensures
        b64_scan(b64_chars(syms) + pads) == Some(syms),
    decreases syms.len(),
{
    let s = b64_chars(syms) + pads;
    if syms.len() == 0 {
        assert(syms =~= Seq::<u8>::empty());
        if pads.len() == 0 {
            assert(s =~= Seq::<char>::empty());
        } else {
            assert(s[0] == '=');
        }
    } else {
        lemma_b64_val_of_char_of(syms[0]);
        assert(s[0] == b64_char_of(syms[0]));
        assert(s.skip(1) =~= b64_chars(syms.skip(1)) + pads);
        lemma_b64_scan_clean(syms.skip(1), pads);
        assert(seq![syms[0]] + syms.skip(1) =~= syms);
    }
}

/// Round trip: decoding an encoded container always succeeds and yields the
/// original byte sequence exactly.
pub proof fn lemma_base64_round_trip(bytes: Seq<u8>)
    ensures
        b64_scan(b64_encoded(bytes)) == Some(b64_symbols(bytes)),
        b64_decoded(b64_encoded(bytes)) == bytes,
{
    lemma_bits_of_bytes_ok(bytes);
    lemma_symbols_of_bits_bound(bits_of_bytes(bytes), 6);
    lemma_pow2_small();
    let syms = b64_symbols(bytes);
    let pads = Seq::new(b64_pad_count(b64_chars(syms).len()), |i: int| '=');
    lemma_b64_scan_clean(syms, pads);
    lemma_bitgroup_round_trip(bytes, 6);
}

proof fn lemma_u_rem_4(q: int, c: int)
    requires
        0 <= c < 4,
    ensures
        (4 * q + c) % 4 == c,
{
    lemma_mod_multiples_vanish(q, c, 4);
    lemma_small_mod(c as nat, 4);
}

/// Padding presence: the encoded container's length is always a multiple of
/// the framing width 4.
pub proof fn lemma_base64_padded_length(bytes: Seq<u8>)
    ensures
        b64_encoded(bytes).len() % 4 == 0,
{
    let n = bytes.len() as int;
    lemma_bits_of_bytes_ok(bytes);
    lemma_symbols_of_bits_len(bits_of_bytes(bytes), 6);
    let u = b64_chars(b64_symbols(bytes)).len() as int;
    assert(u == (8 * n + 5) / 6);
    let q = n / 3;
    let s = n % 3;
    lemma_fundamental_div_mod(n, 3);
    if s == 0 {
        assert(8 * n + 5 == (4 * q) * 6 + 5) by (nonlinear_arith)
            requires
                n == 3 * q,
        ;
        lemma_fundamental_div_mod_converse_div(8 * n + 5, 6, 4 * q, 5);
        lemma_u_rem_4(q, 0);
        assert(b64_encoded(bytes).len() == 4 * q + 0);
    } else if s == 1 {
        assert(8 * n + 5 == (4 * q + 2) * 6 + 1) by (nonlinear_arith)
            requires
                n == 3 * q + 1,
        ;
        lemma_fundamental_div_mod_converse_div(8 * n + 5, 6, 4 * q + 2, 1);
        lemma_u_rem_4(q, 2);
        assert(b64_encoded(bytes).len() == 4 * (q + 1) + 0);
        lemma_u_rem_4(q + 1, 0);
    } else {
        assert(8 * n + 5 == (4 * q + 3) * 6 + 3) by (nonlinear_arith)
            requires
                n == 3 * q + 2,
        ;
        lemma_fundamental_div_mod_converse_div(8 * n + 5, 6, 4 * q + 3, 3);
        lemma_u_rem_4(q, 3);
        assert(b64_encoded(bytes).len() == 4 * (q + 1) + 0);
        lemma_u_rem_4(q + 1, 0);
    }
}

/// Alphabet closure: every character of an encoded container belongs to the
/// alphabet, except the `=` padding suffix.
pub proof fn lemma_base64_alphabet(bytes: Seq<u8>)
    ensures
        forall|i: int|
            0 <= i < b64_encoded(bytes).len() ==> b64_in_alphabet(
                #[trigger] b64_encoded(bytes)[i],
            ) || b64_encoded(bytes)[i] == '=',
{
    lemma_bits_of_bytes_ok(bytes);
    lemma_symbols_of_bits_bound(bits_of_bytes(bytes), 6);
    lemma_pow2_small();
    let syms = b64_symbols(bytes);
    let u = b64_chars(syms);
    assert forall|i: int| 0 <= i < b64_encoded(bytes).len() implies b64_in_alphabet(
        #[trigger] b64_encoded(bytes)[i],
    ) || b64_encoded(bytes)[i] == '=' by {
        if i < u.len() {
            assert(b64_encoded(bytes)[i] == u[i]);
            assert(u[i] == b64_char_of(syms[i]));
            lemma_b64_val_of_char_of(syms[i]);
        } else {
            assert(b64_encoded(bytes)[i] == '=');
        }
    }
}

/// An encoded base64 container.
#[derive(Debug)]
pub struct Base64 {
    pub container: String,
}

impl Default for Base64 {
    fn default() -> (r: Self)
        ensures
            r.container@ == Seq::<char>::empty(),
    {
        Base64 { container: String::new() }
    }
}

impl Base64 {
    pub fn new() -> (r: Self)
        ensures
            r.container@ == Seq::<char>::empty(),
    {
        Base64 { container: String::new() }
    }

    /// Appends one alphabet character; a character outside the alphabet is a
    /// caller error, ruled out by the precondition.
    pub fn append(&mut self, to_add: char) -> (r: Result<(), MyError>)
        requires
            b64_in_alphabet(to_add),
        ensures
            r is Ok,
            final(self).container@ == old(self).container@.push(to_add),
    {
        push_char(&mut self.container, to_add);
        Ok(())
    }

    /// Pads the container with `=` up to a multiple of 4 characters.
    pub fn pad(&mut self)
        ensures
            final(self).container@ == old(self).container@ + Seq::new(
                b64_pad_count(old(self).container@.len()),
                |i: int| '=',
            ),
    {
        let len = self.container.as_str().unicode_len();
        let rem = len % 4;
        let count: usize = if rem == 3 {
            1
        } else if rem == 2 {
            2
        } else {
            0
        };
        let mut k: usize = 0;
        while k < count
            invariant
                k <= count,
                count == b64_pad_count(old(self).container@.len()),
                self.container@ == old(self).container@ + Seq::new(k as nat, |i: int| '='),
            decreases count - k,
        {
            push_char(&mut self.container, '=');
            k += 1;
            proof {
                assert(self.container@ =~= old(self).container@ + Seq::new(
                    k as nat,
                    |i: int| '=',
                ));
            }
        }
    }

    pub fn get_chunk_size() -> (r: usize)
        ensures
            r == 6,
    {
        6
    }

    pub fn get_byte_size() -> (r: usize)
        ensures
            r == 8,
    {
        8
    }

    pub fn get_container(&self) -> (r: &String)
        ensures
            r@ == self.container@,
    {
        &self.container
    }

    /// The encoding table: the character for each 6-bit value in order.
    pub fn get_encode_table() -> (r: Vec<char>)
        ensures
            r@.len() == 64,
            forall|i: int| 0 <= i < 64 ==> r@[i] == b64_char_of(i as u8),
    {
        let mut table: Vec<char> = Vec::new();
        let mut v: u8 = 0;
        while v < 64
            invariant
                v <= 64,
                table@.len() == v as int,
                forall|i: int| 0 <= i < v as int ==> table@[i] == b64_char_of(i as u8),
            decreases 64 - v,
        {
            table.push(b64_forward(v));
            v += 1;
        }
        table
    }

    /// The container in its display form, wrapped in parentheses.
    pub fn display_string(&self) -> (r: String)
        ensures
            r@ == seq!['('] + self.container@ + seq![')'],
    {
        let mut s = String::new();
        push_char(&mut s, '(');
        s.append(self.container.as_str());
        push_char(&mut s, ')');
        proof {
            assert(s@ =~= seq!['('] + self.container@ + seq![')']);
        }
        s
    }

    /// Encodes a byte sequence; encoding never fails.
    pub fn encode(data: &[u8]) -> (r: Result<Base64, MyError>)
        ensures
            r matches Ok(e) && e.container@ == b64_encoded(data@),
    {
        let bits = bytes_to_bits(data);
        proof {
            lemma_bits_of_bytes_ok(data@);
        }
        let syms = bits_to_symbols(&bits, 6);
        proof {
            lemma_symbols_of_bits_bound(bits@, 6);
            lemma_pow2_small();
        }
        let mut out = Base64::new();
        let m = syms.len();
        let mut i: usize = 0;
        while i < m
            invariant
                m == syms@.len(),
                i <= m,
                digits_ok(syms@, 64),
                out.container@ == b64_chars(syms@.take(i as int)),
            decreases m - i,
        {
            let c = b64_forward(syms[i]);
            proof {
                lemma_b64_val_of_char_of(syms@[i as int]);
            }
            let _ = out.append(c);
            i += 1;
            proof {
                assert(syms@.take(i as int) =~= syms@.take(i - 1).push(syms@[i - 1]));
                assert(out.container@ =~= b64_chars(syms@.take(i as int)));
            }
        }
        proof {
            assert(syms@.take(m as int) =~= syms@);
        }
        out.pad();
        proof {
            assert(out.container@ =~= b64_encoded(data@));
        }
        Ok(out)
    }

    /// Decodes the container: `Ok` with the original bytes exactly when every
    /// character before the first `=` belongs to the alphabet, `Err` with no
    /// partial output otherwise.
    pub fn decode(&self) -> (r: Result<Vec<u8>, MyError>)
        ensures
            r is Ok <==> b64_scan(self.container@) is Some,
            r matches Ok(v) ==> v@ == b64_decoded(self.container@),
            r is Err ==> r == Err::<Vec<u8>, MyError>(MyError::DecodingError),
    {
        let s = self.container.as_str();
        let n = s.unicode_len();
        let mut syms: Vec<u8> = Vec::new();
        let mut i: usize = 0;
        let mut stopped = false;
        proof {
            assert(self.container@.skip(0) =~= self.container@);
            match b64_scan(self.container@) {
                Option::None => {},
                Option::Some(rest) => {
                    assert(Seq::<u8>::empty() + rest =~= rest);
                },
            }
        }
        while i < n && !stopped
            invariant
                n == self.container@.len(),
                s@ == self.container@,
                i <= n,
                !stopped ==> b64_scan(self.container@) == (match b64_scan(
                    self.container@.skip(i as int),
                ) {
                    Option::None => Option::<Seq<u8>>::None,
                    Option::Some(rest) => Option::Some(syms@ + rest),
                }),
                stopped ==> b64_scan(self.container@) == Option::Some(syms@),
            decreases n - i + (if stopped {
                0int
            } else {
                1int
            }),
        {
            let c = s.get_char(i);
            let ghost tail = self.container@.skip(i as int);
            proof {
                assert(tail[0] == c);
            }
            if c == '=' {
                stopped = true;
            } else {
                match b64_inverse(c) {
                    None => {
                        proof {
                            assert(b64_scan(tail) is None);
                        }
                        return Err(MyError::DecodingError);
                    },
                    Some(v) => {
                        let ghost prev = syms@;
                        syms.push(v);
                        i += 1;
                        proof {
                            assert(tail.skip(1) =~= self.container@.skip(i as int));
                            match b64_scan(self.container@.skip(i as int)) {
                                Option::None => {
                                    assert(b64_scan(tail) is None);
                                },
                                Option::Some(r2) => {
                                    assert(b64_scan(tail) == Option::Some(seq![v] + r2));
                                    assert(prev + (seq![v] + r2) =~= syms@ + r2);
                                },
                            }
                        }
                    },
                }
            }
        }
        proof {
            if !stopped {
                assert(self.container@.skip(n as int) =~= Seq::<char>::empty());
                assert(b64_scan(self.container@.skip(n as int)) == Option::Some(
                    Seq::<u8>::empty(),
                ));
                assert(syms@ + Seq::<u8>::empty() =~= syms@);
            }
            assert(b64_scan(self.container@) == Option::Some(syms@));
            lemma_bits_of_symbols_ok(syms@, 6);
        }
        let bits = symbols_to_bits(&syms, 6);
        let bytes = bits_to_bytes(&bits);
        Ok(bytes)
    }
}

} // verus!
