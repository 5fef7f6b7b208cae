//! Positional numeral conversion shared by every codec: a byte sequence, a
//! bitstream and a base-85 chunk are all big-endian digit strings in some
//! radix, so one pair of spec functions (`digits_to_nat` / `nat_to_digits`)
//! models them all, with the inversion lemmas the round-trip proofs need.

use vstd::prelude::*;

verus! {

use vstd::arithmetic::power::pow;
use vstd::arithmetic::power::lemma_pow_positive;
use vstd::arithmetic::div_mod::lemma_fundamental_div_mod;
use vstd::arithmetic::div_mod::lemma_fundamental_div_mod_converse;
use vstd::arithmetic::div_mod::lemma_div_denominator;

/// Every element of `ds` is a valid digit in radix `r`.
pub open spec fn digits_ok(ds: Seq<u8>, r: nat) -> bool {
    forall|i: int| 0 <= i < ds.len() ==> (#[trigger] ds[i]) < r
}

/// The number denoted by the big-endian digit string `ds` in radix `r`.
pub open spec fn digits_to_nat(ds: Seq<u8>, r: nat) -> nat
    decreases ds.len(),
{
    if ds.len() == 0 {
        0
    } else {
        digits_to_nat(ds.drop_last(), r) * r + ds.last() as nat
    }
}

/// The `k`-digit big-endian representation of `v % r^k` in radix `r`.
pub open spec fn nat_to_digits(v: nat, r: nat, k: nat) -> Seq<u8>
    decreases k,
{
    if k == 0 {
        Seq::empty()
    } else {
        nat_to_digits(v / r, r, (k - 1) as nat).push((v % r) as u8)
    }
}

/// A run of `n` zero digits.
pub open spec fn zeros(n: nat) -> Seq<u8> {
    Seq::new(n, |i: int| 0u8)
}

pub proof fn lemma_digits_to_nat_bound(ds: Seq<u8>, r: nat)
    requires
        1 <= r,
        digits_ok(ds, r),
    ensures
        digits_to_nat(ds, r) < pow(r as int, ds.len()),
    decreases ds.len(),
{
    reveal(pow);
    if ds.len() == 0 {
    } else {
        let dl = ds.drop_last();
        assert(digits_ok(dl, r));
        lemma_digits_to_nat_bound(dl, r);
        lemma_pow_positive(r as int, (ds.len() - 1) as nat);
        let p = pow(r as int, (ds.len() - 1) as nat);
        assert(pow(r as int, ds.len()) == r * p);
        assert(digits_to_nat(dl, r) * r + ds.last() < p * r) by (nonlinear_arith)
            requires
                digits_to_nat(dl, r) < p,
                ds.last() < r,
                0 < r,
                0 < p,
        ;
    }
}

pub proof fn lemma_nat_to_digits_ok(v: nat, r: nat, k: nat)
    requires
        2 <= r <= 256,
    ensures
        nat_to_digits(v, r, k).len() == k,
        digits_ok(nat_to_digits(v, r, k), r),
    decreases k,
{
    reveal(pow);
    if k > 0 {
        lemma_nat_to_digits_ok(v / r, r, (k - 1) as nat);
    }
}

/// Digit `i` of the `k`-digit representation of `v` reads the `i`-th power
/// slot from the most significant end.
pub proof fn lemma_nat_to_digits_index(v: nat, r: nat, k: nat, i: int)
    requires
        2 <= r <= 256,
        0 <= i < k,
    ensures
        nat_to_digits(v, r, k)[i] == ((v as int / pow(r as int, (k - 1 - i) as nat)) % r as int) as u8,
    decreases k,
{
    reveal(pow);
    lemma_nat_to_digits_ok(v, r, k);
    lemma_nat_to_digits_ok(v / r, r, (k - 1) as nat);
    if i == k - 1 {
        assert(pow(r as int, 0) == 1);
    } else {
        lemma_nat_to_digits_index(v / r, r, (k - 1) as nat, i);
        let e = (k - 2 - i) as nat;
        let q = pow(r as int, e);
        lemma_pow_positive(r as int, e);
        lemma_div_denominator(v as int, r as int, q);
        assert(pow(r as int, (k - 1 - i) as nat) == r * q);
        assert(nat_to_digits(v, r, k)[i] == nat_to_digits(v / r, r, (k - 1) as nat)[i]);
        assert((v / r) as int == v as int / r as int);
    }
}

pub proof fn lemma_digits_to_nat_of_nat_to_digits(v: nat, r: nat, k: nat)
    requires
        2 <= r <= 256,
        v < pow(r as int, k),
    ensures
        digits_to_nat(nat_to_digits(v, r, k), r) == v,
    decreases k,
{
    reveal(pow);
    if k == 0 {
    } else {
        let p = pow(r as int, (k - 1) as nat);
        lemma_pow_positive(r as int, (k - 1) as nat);
        assert(pow(r as int, k) == r * p);
        assert(v / r < p) by (nonlinear_arith)
            requires
                v < r * p,
                2 <= r,
                0 < p,
        ;
        lemma_digits_to_nat_of_nat_to_digits(v / r, r, (k - 1) as nat);
        lemma_nat_to_digits_ok(v, r, k);
        lemma_nat_to_digits_ok(v / r, r, (k - 1) as nat);
        let ds = nat_to_digits(v, r, k);
        assert(ds == nat_to_digits(v / r, r, (k - 1) as nat).push((v % r) as u8));
        assert(ds.drop_last() =~= nat_to_digits(v / r, r, (k - 1) as nat));
        assert(ds.last() == (v % r) as u8);
        assert((v % r) as u8 as nat == v % r);
        assert(digits_to_nat(ds, r) == (v / r) * r + v % r);
        lemma_fundamental_div_mod(v as int, r as int);
    }
}

pub proof fn lemma_nat_to_digits_of_digits_to_nat(ds: Seq<u8>, r: nat)
    requires
        2 <= r <= 256,
        digits_ok(ds, r),
    ensures
        nat_to_digits(digits_to_nat(ds, r), r, ds.len()) == ds,
    decreases ds.len(),
{
    reveal(pow);
    if ds.len() == 0 {
        assert(nat_to_digits(digits_to_nat(ds, r), r, ds.len()) =~= ds);
    } else {
        let dl = ds.drop_last();
        let v = digits_to_nat(ds, r);
        assert(digits_ok(dl, r));
        lemma_fundamental_div_mod_converse(
            v as int,
            r as int,
            digits_to_nat(dl, r) as int,
            ds.last() as int,
        );
        lemma_nat_to_digits_of_digits_to_nat(dl, r);
        assert(nat_to_digits(v, r, ds.len()) =~= ds);
    }
}

pub proof fn lemma_digits_to_nat_concat(a: Seq<u8>, b: Seq<u8>, r: nat)
    requires
        1 <= r,
    ensures
        digits_to_nat(a + b, r) == digits_to_nat(a, r) * pow(r as int, b.len()) + digits_to_nat(
            b,
            r,
        ),
    decreases b.len(),
{
    reveal(pow);
    if b.len() == 0 {
        assert(a + b =~= a);
    } else {
        assert((a + b).drop_last() =~= a + b.drop_last());
        assert((a + b).last() == b.last());
        lemma_digits_to_nat_concat(a, b.drop_last(), r);
        let x = digits_to_nat(a, r) as int;
        let y = digits_to_nat(b.drop_last(), r) as int;
        let p = pow(r as int, (b.len() - 1) as nat);
        let z = b.last() as int;
        assert(pow(r as int, b.len()) == r * p);
        assert(digits_to_nat(a + b, r) == digits_to_nat((a + b).drop_last(), r) * r + z);
        assert(digits_to_nat((a + b).drop_last(), r) as int == x * p + y);
        assert(digits_to_nat(b, r) as int == y * r as int + z);
        assert((x * p + y) * r as int + z == x * (r as int * p) + (y * r as int + z))
            by (nonlinear_arith);
    }
}

/// Multiplying by `r^j` appends `j` zero digits on the low end.
pub proof fn lemma_nat_to_digits_shift(v: nat, r: nat, m: nat, j: nat)
    requires
        2 <= r <= 256,
    ensures
        nat_to_digits((v * pow(r as int, j)) as nat, r, m + j) == nat_to_digits(v, r, m) + zeros(
            j,
        ),
    decreases j,
{
    reveal(pow);
    lemma_nat_to_digits_ok(v, r, m);
    if j == 0 {
        assert((v * pow(r as int, 0)) as nat == v);
        assert(nat_to_digits(v, r, m) + zeros(0) =~= nat_to_digits(v, r, m));
    } else {
        let p = pow(r as int, (j - 1) as nat);
        lemma_pow_positive(r as int, (j - 1) as nat);
        assert(pow(r as int, j) == r * p);
        let x = (v * pow(r as int, j)) as nat;
        assert(v * (r as int * p) == (v * p) * r as int + 0) by (nonlinear_arith);
        lemma_fundamental_div_mod_converse(x as int, r as int, (v * p) as int, 0);
        assert(x / r == (v * p) as nat);
        assert(x % r == 0);
        lemma_nat_to_digits_shift(v, r, m, (j - 1) as nat);
        lemma_nat_to_digits_ok((v * p) as nat, r, (m + j - 1) as nat);
        assert(nat_to_digits(x, r, m + j) == nat_to_digits((v * p) as nat, r, (m + j - 1) as nat)
            .push(0u8));
        assert(nat_to_digits(x, r, m + j) =~= nat_to_digits(v, r, m) + zeros(j));
    }
}

/// The digits of `a * r^j + b` are the digits of `a` followed by those of
/// `b`, provided `b` fits in its `j` low digits.
pub proof fn lemma_nat_to_digits_concat(a: nat, b: nat, r: nat, m: nat, j: nat)
    requires
        2 <= r <= 256,
        b < pow(r as int, j),
    ensures
        nat_to_digits((a * pow(r as int, j) + b) as nat, r, m + j) == nat_to_digits(a, r, m)
            + nat_to_digits(b, r, j),
    decreases j,
{
    reveal(pow);
    lemma_nat_to_digits_ok(a, r, m);
    if j == 0 {
        assert((a * pow(r as int, 0) + 0) as nat == a);
        assert(nat_to_digits(a, r, m) + nat_to_digits(b, r, 0) =~= nat_to_digits(a, r, m));
    } else {
        let p = pow(r as int, (j - 1) as nat);
        lemma_pow_positive(r as int, (j - 1) as nat);
        assert(pow(r as int, j) == r * p);
        let x = (a * pow(r as int, j) + b) as nat;
        lemma_fundamental_div_mod(b as int, r as int);
        assert(a * (r as int * p) + b == (a * p + b as int / r as int) * r as int + b as int
            % r as int) by (nonlinear_arith)
            requires
                r >= 2,
                b as int == (b as int / r as int) * r as int + b as int % r as int,
        ;
        lemma_fundamental_div_mod_converse(
            x as int,
            r as int,
            a as int * p + b as int / r as int,
            b as int % r as int,
        );
        assert(b / r < pow(r as int, (j - 1) as nat)) by {
            vstd::arithmetic::div_mod::lemma_multiply_divide_lt(b as int, r as int, p);
        }
        lemma_nat_to_digits_concat(a, b / r, r, m, (j - 1) as nat);
        lemma_nat_to_digits_ok((a * p + b as int / r as int) as nat, r, (m + j - 1) as nat);
        assert(x / r == (a * p + b as int / r as int) as nat);
        assert(x % r == b % r);
        assert(nat_to_digits(x, r, m + j) == nat_to_digits(
            (a * p + b as int / r as int) as nat,
            r,
            (m + j - 1) as nat,
        ).push((b % r) as u8));
        lemma_nat_to_digits_ok(b / r, r, (j - 1) as nat);
        assert(nat_to_digits(b, r, j) == nat_to_digits(b / r, r, (j - 1) as nat).push(
            (b % r) as u8,
        ));
        assert(nat_to_digits(x, r, m + j) =~= nat_to_digits(a, r, m) + nat_to_digits(b, r, j));
    }
}

/// Zero has all-zero digits.
pub proof fn lemma_nat_to_digits_zero(r: nat, k: nat)
    requires
        2 <= r <= 256,
    ensures
        nat_to_digits(0, r, k) == zeros(k),
    decreases k,
{
    if k == 0 {
        assert(nat_to_digits(0, r, k) =~= zeros(0));
    } else {
        lemma_nat_to_digits_zero(r, (k - 1) as nat);
        lemma_nat_to_digits_ok(0, r, k);
        assert(nat_to_digits(0, r, k) =~= zeros(k));
    }
}

/// A run of maximal digits denotes `r^p - 1`.
pub proof fn lemma_digits_to_nat_all_max(r: nat, p: nat)
    requires
        2 <= r <= 256,
    ensures
        digits_to_nat(Seq::new(p, |i: int| (r - 1) as u8), r) == pow(r as int, p) - 1,
    decreases p,
{
    reveal(pow);
    let s = Seq::new(p, |i: int| (r - 1) as u8);
    if p == 0 {
    } else {
        let dl = Seq::new((p - 1) as nat, |i: int| (r - 1) as u8);
        assert(s.drop_last() =~= dl);
        lemma_digits_to_nat_all_max(r, (p - 1) as nat);
        let q = pow(r as int, (p - 1) as nat);
        lemma_pow_positive(r as int, (p - 1) as nat);
        assert(pow(r as int, p) == r * q);
        assert((q - 1) * r as int + (r - 1) == r as int * q - 1) by (nonlinear_arith);
    }
}

/// Appends the `k`-digit big-endian radix-`r` representation of `v` to `out`.
pub fn append_digits(out: &mut Vec<u8>, v: u32, r: u32, k: usize)
    requires
        2 <= r <= 256,
    ensures
        final(out)@ == old(out)@ + nat_to_digits(v as nat, r as nat, k as nat),
{
    let ghost ds = nat_to_digits(v as nat, r as nat, k as nat);
    proof {
        reveal(pow);
        lemma_nat_to_digits_ok(v as nat, r as nat, k as nat);
    }
    let mut tmp: Vec<u8> = Vec::new();
    let mut x: u32 = v;
    let mut i: usize = 0;
    while i < k
        invariant
            2 <= r <= 256,
            i <= k,
            tmp@.len() == i,
            x as int == v as int / pow(r as int, i as nat),
            ds == nat_to_digits(v as nat, r as nat, k as nat),
            ds.len() == k,
            forall|m: int| 0 <= m < i ==> tmp@[m] == ds[k - 1 - m],
        decreases k - i,
    {
        proof {
            reveal(pow);
            lemma_nat_to_digits_index(v as nat, r as nat, k as nat, k - 1 - i);
            let e = i as nat;
            let q = pow(r as int, e);
            lemma_pow_positive(r as int, e);
            lemma_div_denominator(v as int, q, r as int);
            assert(pow(r as int, (i + 1) as nat) == r * q);
            assert(q * r as int == r as int * q) by (nonlinear_arith);
        }
        tmp.push((x % r) as u8);
        x = x / r;
        i += 1;
    }
    let mut j: usize = k;
    while j > 0
        invariant
            tmp@.len() == k,
            j <= k,
            ds.len() == k,
            forall|m: int| 0 <= m < k ==> tmp@[m] == ds[k - 1 - m],
            out@ == old(out)@ + ds.take(k - j),
        decreases j,
    {
        j -= 1;
        out.push(tmp[j]);
        proof {
            assert(out@ =~= old(out)@ + ds.take(k - j));
        }
    }
    proof {
        assert(out@ =~= old(out)@ + ds);
    }
}

} // verus!
