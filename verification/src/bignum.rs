//! The arbitrary-precision signed integer type and its operations.

use crate::mag::{
    chunk_at, lemma_canonical_len_bound, lemma_canonical_unique, lemma_canonical_zero,
    lemma_mag_prefix_complete, lemma_mag_val_lex, lemma_mag_val_lower, lemma_mag_val_push,
    lemma_mag_val_upper, lemma_pow_base_add, lemma_pow_base_mono, lemma_pow_base_pos, mag_bounded,
    mag_canonical, mag_prefix_val, mag_val, lemma_radix_fits_accumulator, pow_base, BASE,
    CHUNK_DIGITS,
};
use crate::text::{
    all_digits, dec_rep, digit_char, digit_of, digits_val, is_digit_char, is_space_char,
    lemma_char_code, lemma_dec_rep_append_padded, lemma_digits_val_concat, lemma_digits_val_lower,
    lemma_digits_val_zeros, lemma_pow10_chunk, lemma_pow10_chunks, lemma_pow10_mono, padded_digits,
    pow10, rev_digit_chars, text_int, text_of_int, trim_back, trim_front, trim_spec, valid_number,
};
use core::cmp::Ordering;
use vstd::prelude::*;
use vstd::string::{StrSliceExecFns, StringExecFns};

verus! {

/// An error raised at the library boundary.
#[derive(Debug, Clone, PartialEq, Eq, Structural)]
pub enum BigNumError {
    /// The text handed to construction is not an optionally signed decimal
    /// number.
    InvalidFormat,
    /// The requested operator is none of addition, subtraction and
    /// multiplication.
    UnsupportedOperation,
}

/// An arbitrary-precision signed integer: a sign and a chunked magnitude.
///
/// Instances are immutable; operations borrow their operands and return a
/// newly owned result in canonical form.
#[derive(Debug, Clone)]
pub struct BigNum {
    /// Magnitude chunks, least-significant first, each below `BASE`.
    num: Vec<u64>,
    /// True exactly for strictly negative values; zero is never negative.
    neg: bool,
}

impl BigNum {
    /// The magnitude chunks, least-significant chunk first.
    pub closed spec fn mag(self) -> Seq<u64> {
        self.num@
    }

    /// Whether the value is marked negative.
    pub closed spec fn is_neg(self) -> bool {
        self.neg
    }

    /// The representation invariant: bounded chunks, canonical form, and a
    /// never-negative zero.
    pub open spec fn wf(self) -> bool {
        &&& mag_bounded(self.mag())
        &&& mag_canonical(self.mag())
        &&& (self.is_neg() ==> mag_val(self.mag()) != 0)
    }

    /// The mathematical value.
    pub open spec fn as_int(self) -> int {
        if self.is_neg() {
            -(mag_val(self.mag()) as int)
        } else {
            mag_val(self.mag()) as int
        }
    }

    /// The canonical zero.
    pub fn new_zero() -> (r: Self)
        ensures
            r.wf(),
            r.as_int() == 0,
            r.mag() =~= seq![0u64],
            !r.is_neg(),
    {
        let mut v: Vec<u64> = Vec::new();
        v.push(0u64);
        proof {
            assert(v@ =~= seq![0u64]);
            lemma_canonical_zero(v@);
        }
        BigNum { num: v, neg: false }
    }

    /// The number of chunks in the magnitude.
    pub fn len(&self) -> (r: usize)
        ensures
            r == self.mag().len(),
    {
        self.num.len()
    }

    /// Whether the value is zero.
    pub fn is_zero(&self) -> (r: bool)
        requires
            self.wf(),
        ensures
            r == (self.as_int() == 0),
    {
        proof {
            lemma_canonical_zero(self.num@);
        }
        self.num.len() == 1 && self.num[0] == 0
    }

    /// The same magnitude under the requested sign; a zero magnitude ignores
    /// the request, keeping zero non-negative.
    pub fn with_neg(&self, neg: bool) -> (r: Self)
        requires
            self.wf(),
        ensures
            r.wf(),
            r.mag() == self.mag(),
            r.as_int() == if neg {
                -(mag_val(self.mag()) as int)
            } else {
                mag_val(self.mag()) as int
            },
    {
        let z = self.is_zero();
        let r = BigNum { num: vec_copy(&self.num), neg: neg && !z };
        proof {
            assert(r.mag() =~= self.mag());
        }
        r
    }
}

/// A fresh copy of a chunk vector.
fn vec_copy(v: &Vec<u64>) -> (r: Vec<u64>)
    ensures
        r@ == v@,
{
    let mut r: Vec<u64> = Vec::new();
    let mut i: usize = 0;
    while i < v.len()
        invariant
            i <= v.len(),
            r@ =~= v@.take(i as int),
        decreases v.len() - i,
    {
        r.push(v[i]);
        proof {
            assert(v@.take(i + 1) =~= v@.take(i as int).push(v@[i as int]));
        }
        i += 1;
    }
    proof {
        assert(v@.take(v@.len() as int) =~= v@);
    }
    r
}

/// Strip most-significant zero chunks down to canonical form.
fn mag_normalize(v: &mut Vec<u64>)
    requires
        old(v)@.len() >= 1,
    ensures
        mag_canonical(final(v)@),
        mag_val(final(v)@) == mag_val(old(v)@),
        final(v)@.len() <= old(v)@.len(),
        forall|j: int| 0 <= j < final(v)@.len() ==> final(v)@[j] == old(v)@[j],
{
    while v.len() > 1 && v[v.len() - 1] == 0
        invariant
            v@.len() >= 1,
            v@.len() <= old(v)@.len(),
            mag_val(v@) == mag_val(old(v)@),
            forall|j: int| 0 <= j < v@.len() ==> v@[j] == old(v)@[j],
        decreases v@.len(),
    {
        proof {
            let s = v@;
            assert(s =~= s.drop_last().push(s.last()));
            lemma_mag_val_push(s.drop_last(), s.last());
            assert((s.last() as nat) * pow_base(s.drop_last().len()) == 0);
        }
        v.pop();
    }
}

/// Compare two bounded canonical chunk vectors: by length first, then chunk
/// by chunk from the most-significant end.
fn mag_cmp(x: &Vec<u64>, y: &Vec<u64>) -> (r: Ordering)
    requires
        mag_bounded(x@),
        mag_canonical(x@),
        mag_bounded(y@),
        mag_canonical(y@),
    ensures
        (r == Ordering::Less <==> mag_val(x@) < mag_val(y@)),
        (r == Ordering::Equal <==> mag_val(x@) == mag_val(y@)),
        (r == Ordering::Greater <==> mag_val(x@) > mag_val(y@)),
{
    let ghost s = x@;
    let ghost t = y@;
    if x.len() < y.len() {
        proof {
            lemma_mag_val_upper(s);
            lemma_mag_val_lower(t);
            lemma_pow_base_mono(s.len(), (t.len() - 1) as nat);
        }
        Ordering::Less
    } else if x.len() > y.len() {
        proof {
            lemma_mag_val_upper(t);
            lemma_mag_val_lower(s);
            lemma_pow_base_mono(t.len(), (s.len() - 1) as nat);
        }
        Ordering::Greater
    } else {
        let n = x.len();
        let mut k = n;
        while k > 0
            invariant
                k <= n,
                n == s.len(),
                n == t.len(),
                mag_bounded(s),
                mag_bounded(t),
                x@ == s,
                y@ == t,
                forall|j: int| k <= j < n ==> s[j] == t[j],
            decreases k,
        {
            let i = k - 1;
            if x[i] < y[i] {
                proof {
                    lemma_mag_val_lex(s, t, i as int);
                }
                return Ordering::Less;
            }
            if x[i] > y[i] {
                proof {
                    lemma_mag_val_lex(t, s, i as int);
                }
                return Ordering::Greater;
            }
            k = i;
        }
        proof {
            assert(s =~= t);
        }
        Ordering::Equal
    }
}

/// Compare the magnitudes of two values, ignoring their signs: first by chunk
/// count, then chunk by chunk from the most-significant end.
pub fn compare_bignum(a: &BigNum, b: &BigNum) -> (r: Ordering)
    requires
        a.wf(),
        b.wf(),
    ensures
        (r == Ordering::Less <==> mag_val(a.mag()) < mag_val(b.mag())),
        (r == Ordering::Equal <==> mag_val(a.mag()) == mag_val(b.mag())),
        (r == Ordering::Greater <==> mag_val(a.mag()) > mag_val(b.mag())),
{
    mag_cmp(&a.num, &b.num)
}

/// The chunk at position `i`, reading past the end as zero.
fn chunk_get(v: &Vec<u64>, i: usize) -> (r: u64)
    ensures
        r == chunk_at(v@, i as int),
{
    if i < v.len() {
        v[i]
    } else {
        0
    }
}

/// Magnitude addition: walk both vectors from the least-significant end,
/// propagating the carry; a final carry grows the result by one chunk.
fn mag_sum(a: &Vec<u64>, b: &Vec<u64>) -> (r: Vec<u64>)
    requires
        mag_bounded(a@),
        mag_bounded(b@),
    ensures
        mag_bounded(r@),
        mag_val(r@) == mag_val(a@) + mag_val(b@),
        a@.len() <= r@.len(),
        b@.len() <= r@.len(),
        r@.len() <= 1 + (if a@.len() >= b@.len() {
            a@.len()
        } else {
            b@.len()
        }),
{
    let n = if a.len() >= b.len() {
        a.len()
    } else {
        b.len()
    };
    let mut r: Vec<u64> = Vec::new();
    let mut carry: u64 = 0;
    let mut i: usize = 0;
    while i < n
        invariant
            i <= n,
            a@.len() <= n,
            b@.len() <= n,
            n == a@.len() || n == b@.len(),
            mag_bounded(a@),
            mag_bounded(b@),
            carry <= 1,
            r@.len() == i,
            mag_bounded(r@),
            mag_val(r@) + (carry as nat) * pow_base(i as nat) == mag_prefix_val(a@, i as nat)
                + mag_prefix_val(b@, i as nat),
        decreases n - i,
    {
        let av = chunk_get(a, i);
        let bv = chunk_get(b, i);
        let t = av + bv + carry;
        let chunk = t % BASE;
        let c2 = t / BASE;
        proof {
            let p = pow_base(i as nat);
            let bb = BASE as nat;
            vstd::arithmetic::div_mod::lemma_fundamental_div_mod(t as int, BASE as int);
            assert(t == BASE * c2 + chunk);
            lemma_mag_val_push(r@, chunk);
            assert(pow_base((i + 1) as nat) == bb * p);
            assert((chunk as nat) * p + (c2 as nat) * (bb * p) == ((chunk as nat) + bb * (c2 as nat))
                * p) by (nonlinear_arith);
            assert(((av as nat) + (bv as nat) + (carry as nat)) * p == (av as nat) * p + (bv as nat)
                * p + (carry as nat) * p) by (nonlinear_arith);
        }
        r.push(chunk);
        carry = c2;
        i += 1;
    }
    proof {
        lemma_mag_prefix_complete(a@, n as nat);
        lemma_mag_prefix_complete(b@, n as nat);
        assert(mag_val(r@) + (carry as nat) * pow_base(n as nat) == mag_val(a@) + mag_val(b@));
    }
    if carry != 0 {
        proof {
            lemma_mag_val_push(r@, carry);
            assert(mag_val(r@.push(carry)) == mag_val(r@) + (carry as nat) * pow_base(n as nat));
        }
        r.push(carry);
        proof {
            assert(mag_val(r@) == mag_val(a@) + mag_val(b@));
        }
    } else {
        proof {
            assert((carry as nat) * pow_base(n as nat) == 0) by (nonlinear_arith)
                requires
                    carry == 0,
            ;
        }
    }
    r
}

/// Magnitude subtraction of the smaller value from the larger, with borrow
/// propagation; the result may keep most-significant zero chunks.
fn mag_diff(a: &Vec<u64>, b: &Vec<u64>) -> (r: Vec<u64>)
    requires
        mag_bounded(a@),
        mag_bounded(b@),
        b@.len() <= a@.len(),
        mag_val(b@) <= mag_val(a@),
    ensures
        mag_bounded(r@),
        mag_val(r@) == mag_val(a@) - mag_val(b@),
        r@.len() == a@.len(),
{
    let n = a.len();
    let mut r: Vec<u64> = Vec::new();
    let mut borrow: u64 = 0;
    let mut i: usize = 0;
    while i < n
        invariant
            i <= n,
            n == a@.len(),
            b@.len() <= n,
            mag_bounded(a@),
            mag_bounded(b@),
            borrow <= 1,
            r@.len() == i,
            mag_bounded(r@),
            mag_val(r@) as int == mag_prefix_val(a@, i as nat) - mag_prefix_val(b@, i as nat) + (
            borrow as int) * (pow_base(i as nat) as int),
        decreases n - i,
    {
        let av = a[i];
        let bv = chunk_get(b, i);
        let chunk: u64;
        let nb: u64;
        if av >= bv + borrow {
            chunk = av - bv - borrow;
            nb = 0;
        } else {
            chunk = av + BASE - bv - borrow;
            nb = 1;
        }
        proof {
            let p = pow_base(i as nat) as int;
            let bb = BASE as int;
            assert(chunk as int == av as int - bv as int - borrow as int + bb * (nb as int));
            lemma_mag_val_push(r@, chunk);
            assert(pow_base((i + 1) as nat) == (BASE as nat) * pow_base(i as nat));
            assert((chunk as int) * p == (av as int) * p - (bv as int) * p - (borrow as int) * p + (
            nb as int) * (bb * p)) by (nonlinear_arith)
                requires
                    chunk as int == av as int - bv as int - borrow as int + bb * (nb as int),
            ;
        }
        r.push(chunk);
        borrow = nb;
        i += 1;
    }
    proof {
        lemma_mag_prefix_complete(a@, n as nat);
        lemma_mag_prefix_complete(b@, n as nat);
        lemma_mag_val_upper(r@);
        if borrow == 1 {
            lemma_pow_base_pos(n as nat);
            assert(false);
        }
    }
    r
}

/// Multiply a magnitude by a single chunk value, propagating the carry in
/// double-width arithmetic.
fn mag_scale(a: &Vec<u64>, d: u64) -> (r: Vec<u64>)
    requires
        mag_bounded(a@),
        d < BASE,
    ensures
        mag_bounded(r@),
        mag_val(r@) == mag_val(a@) * (d as nat),
        a@.len() <= r@.len(),
        r@.len() <= a@.len() + 1,
{
    let wide_base: u128 = BASE as u128;
    let mut r: Vec<u64> = Vec::new();
    let mut carry: u64 = 0;
    let mut i: usize = 0;
    proof {
        assert(r@ =~= Seq::<u64>::empty());
        assert(mag_val(r@) == 0);
        assert(mag_prefix_val(a@, 0nat) == 0);
        assert(mag_prefix_val(a@, 0nat) * (d as nat) == 0) by (nonlinear_arith)
            requires
                mag_prefix_val(a@, 0nat) == 0,
        ;
    }
    while i < a.len()
        invariant
            i <= a@.len(),
            mag_bounded(a@),
            d < BASE,
            carry < BASE,
            wide_base == BASE as u128,
            r@.len() == i,
            mag_bounded(r@),
            mag_val(r@) + (carry as nat) * pow_base(i as nat) == mag_prefix_val(a@, i as nat) * (
            d as nat),
        decreases a@.len() - i,
    {
        let av = a[i];
        proof {
            assert((av as u128) * (d as u128) <= ((BASE - 1) as u128) * ((BASE - 1) as u128))
                by (nonlinear_arith)
                requires
                    av <= BASE - 1,
                    d <= BASE - 1,
            ;
            lemma_radix_fits_accumulator();
        }
        let t: u128 = av as u128 * d as u128 + carry as u128;
        let chunk: u64 = (t % wide_base) as u64;
        let c2: u64 = (t / wide_base) as u64;
        proof {
            let p = pow_base(i as nat);
            let bb = BASE as nat;
            assert((t as u128) <= ((BASE - 1) as u128) * (BASE as u128)) by (nonlinear_arith)
                requires
                    (av as u128) * (d as u128) <= ((BASE - 1) as u128) * ((BASE - 1) as u128),
                    carry <= BASE - 1,
                    t == av as u128 * d as u128 + carry as u128,
            ;
            vstd::arithmetic::div_mod::lemma_fundamental_div_mod(t as int, BASE as int);
            assert(t / wide_base < BASE as u128) by (nonlinear_arith)
                requires
                    t as int == (BASE as int) * ((t / wide_base) as int) + (t % wide_base) as int,
                    t <= ((BASE - 1) as u128) * (BASE as u128),
                    wide_base == BASE as u128,
                    (t % wide_base) as int >= 0,
            ;
            assert(t as nat == bb * (c2 as nat) + chunk as nat);
            lemma_mag_val_push(r@, chunk);
            assert(pow_base((i + 1) as nat) == bb * p);
            assert((chunk as nat) * p + (c2 as nat) * (bb * p) == ((chunk as nat) + bb * (c2 as nat))
                * p) by (nonlinear_arith);
            assert(((av as nat) * (d as nat) + (carry as nat)) * p == (av as nat) * (d as nat) * p
                + (carry as nat) * p) by (nonlinear_arith);
            assert((mag_prefix_val(a@, i as nat) + (av as nat) * p) * (d as nat) == mag_prefix_val(
                a@,
                i as nat,
            ) * (d as nat) + (av as nat) * (d as nat) * p) by (nonlinear_arith);
        }
        r.push(chunk);
        carry = c2;
        i += 1;
    }
    proof {
        lemma_mag_prefix_complete(a@, a@.len());
        assert(mag_val(r@) + (carry as nat) * pow_base(a@.len()) == mag_val(a@) * (d as nat));
    }
    if carry != 0 {
        proof {
            lemma_mag_val_push(r@, carry);
            assert(mag_val(r@.push(carry)) == mag_val(r@) + (carry as nat) * pow_base(a@.len()));
        }
        r.push(carry);
        proof {
            assert(mag_val(r@) == mag_val(a@) * (d as nat));
        }
    } else {
        proof {
            assert((carry as nat) * pow_base(a@.len()) == 0);
        }
    }
    r
}

/// Append `k` zero chunks at the least-significant end: multiply the value by
/// the weight `pow_base(k)`.
fn mag_shift(v: &Vec<u64>, k: usize) -> (r: Vec<u64>)
    requires
        mag_bounded(v@),
    ensures
        mag_bounded(r@),
        mag_val(r@) == pow_base(k as nat) * mag_val(v@),
        r@.len() == k + v@.len(),
{
    let mut r: Vec<u64> = Vec::new();
    let mut i: usize = 0;
    while i < k
        invariant
            i <= k,
            r@.len() == i,
            mag_bounded(r@),
            mag_val(r@) == 0,
        decreases k - i,
    {
        proof {
            lemma_mag_val_push(r@, 0);
        }
        r.push(0u64);
        i += 1;
    }
    let mut j: usize = 0;
    proof {
        assert(mag_prefix_val(v@, 0nat) == 0);
        assert(pow_base(k as nat) * mag_prefix_val(v@, 0nat) == 0) by (nonlinear_arith)
            requires
                mag_prefix_val(v@, 0nat) == 0,
        ;
    }
    while j < v.len()
        invariant
            j <= v@.len(),
            mag_bounded(v@),
            r@.len() == k + j,
            mag_bounded(r@),
            mag_val(r@) == pow_base(k as nat) * mag_prefix_val(v@, j as nat),
        decreases v@.len() - j,
    {
        let x = v[j];
        proof {
            lemma_mag_val_push(r@, x);
            lemma_pow_base_add(k as nat, j as nat);
            let pk = pow_base(k as nat);
            let pj = pow_base(j as nat);
            assert((x as nat) * (pk * pj) == pk * ((x as nat) * pj)) by (nonlinear_arith);
            assert(pk * mag_prefix_val(v@, j as nat) + pk * ((x as nat) * pj) == pk * (
            mag_prefix_val(v@, j as nat) + (x as nat) * pj)) by (nonlinear_arith);
        }
        r.push(x);
        j += 1;
    }
    proof {
        lemma_mag_prefix_complete(v@, v@.len());
    }
    r
}

impl BigNum {
    /// The signed difference of two magnitudes: compare, subtract the smaller
    /// from the larger, and record a negative sign exactly when the first
    /// magnitude is the smaller; equal magnitudes give canonical zero.
    fn signed_diff_mag(x: &Vec<u64>, y: &Vec<u64>) -> (r: BigNum)
        requires
            mag_bounded(x@),
            mag_canonical(x@),
            mag_bounded(y@),
            mag_canonical(y@),
        ensures
            r.wf(),
            r.as_int() == mag_val(x@) - mag_val(y@),
            r.mag().len() <= (if x@.len() >= y@.len() {
                x@.len()
            } else {
                y@.len()
            }),
    {
        match mag_cmp(x, y) {
            Ordering::Equal => {
                let r = BigNum::new_zero();
                proof {
                    assert(r.mag().len() == 1);
                }
                r
            },
            Ordering::Greater => {
                proof {
                    lemma_mag_val_upper(x@);
                    lemma_canonical_len_bound(y@, x@.len());
                }
                let mut v = mag_diff(x, y);
                mag_normalize(&mut v);
                BigNum { num: v, neg: false }
            },
            Ordering::Less => {
                proof {
                    lemma_mag_val_upper(y@);
                    lemma_canonical_len_bound(x@, y@.len());
                }
                let mut v = mag_diff(y, x);
                mag_normalize(&mut v);
                proof {
                    lemma_canonical_zero(v@);
                }
                BigNum { num: v, neg: true }
            },
        }
    }

    /// Signed addition.
    pub fn add(&self, rhs: &BigNum) -> (r: BigNum)
        requires
            self.wf(),
            rhs.wf(),
        ensures
            r.wf(),
            r.as_int() == self.as_int() + rhs.as_int(),
            r.mag().len() <= 1 + (if self.mag().len() >= rhs.mag().len() {
                self.mag().len()
            } else {
                rhs.mag().len()
            }),
    {
        if self.is_zero() {
            return rhs.with_neg(rhs.neg);
        }
        if rhs.is_zero() {
            return self.with_neg(self.neg);
        }
        if self.neg == rhs.neg {
            let mut v = mag_sum(&self.num, &rhs.num);
            mag_normalize(&mut v);
            let r = BigNum { num: v, neg: self.neg };
            proof {
                lemma_canonical_zero(self.num@);
            }
            r
        } else if self.neg {
            BigNum::signed_diff_mag(&rhs.num, &self.num)
        } else {
            BigNum::signed_diff_mag(&self.num, &rhs.num)
        }
    }

    /// Signed subtraction.
    pub fn sub(&self, rhs: &BigNum) -> (r: BigNum)
        requires
            self.wf(),
            rhs.wf(),
        ensures
            r.wf(),
            r.as_int() == self.as_int() - rhs.as_int(),
            r.mag().len() <= 1 + (if self.mag().len() >= rhs.mag().len() {
                self.mag().len()
            } else {
                rhs.mag().len()
            }),
    {
        if rhs.is_zero() {
            return self.with_neg(self.neg);
        }
        if self.is_zero() {
            return rhs.with_neg(!rhs.neg);
        }
        if self.neg == rhs.neg {
            if self.neg {
                BigNum::signed_diff_mag(&rhs.num, &self.num)
            } else {
                BigNum::signed_diff_mag(&self.num, &rhs.num)
            }
        } else {
            let mut v = mag_sum(&self.num, &rhs.num);
            mag_normalize(&mut v);
            let r = BigNum { num: v, neg: self.neg };
            proof {
                lemma_canonical_zero(self.num@);
            }
            r
        }
    }

    /// Signed multiplication by schoolbook long multiplication: for each chunk
    /// of the right operand, scale the left magnitude, shift it to the chunk's
    /// position, and accumulate.
    pub fn mul(&self, rhs: &BigNum) -> (r: BigNum)
        requires
            self.wf(),
            rhs.wf(),
        ensures
            r.wf(),
            r.as_int() == self.as_int() * rhs.as_int(),
            r.mag().len() <= self.mag().len() + rhs.mag().len(),
    {
        let a_zero = self.is_zero();
        let b_zero = rhs.is_zero();
        if a_zero || b_zero {
            let r = BigNum::new_zero();
            proof {
                assert(self.as_int() * rhs.as_int() == 0) by (nonlinear_arith)
                    requires
                        self.as_int() == 0 || rhs.as_int() == 0,
                ;
            }
            return r;
        }
        let ghost av = mag_val(self.num@);
        let ghost bv = mag_val(rhs.num@);
        let mut acc: Vec<u64> = Vec::new();
        acc.push(0u64);
        proof {
            assert(acc@ =~= seq![0u64]);
            lemma_canonical_zero(acc@);
            assert(mag_val(acc@) == 0);
            assert(mag_prefix_val(rhs.num@, 0nat) == 0);
            assert(av * mag_prefix_val(rhs.num@, 0nat) == 0) by (nonlinear_arith)
                requires
                    mag_prefix_val(rhs.num@, 0nat) == 0,
            ;
        }
        let mut k: usize = 0;
        while k < rhs.num.len()
            invariant
                k <= rhs.num@.len(),
                mag_bounded(self.num@),
                mag_bounded(rhs.num@),
                av == mag_val(self.num@),
                acc@.len() >= 1,
                mag_bounded(acc@),
                mag_val(acc@) == av * mag_prefix_val(rhs.num@, k as nat),
            decreases rhs.num@.len() - k,
        {
            let d = rhs.num[k];
            let part = mag_scale(&self.num, d);
            let shifted = mag_shift(&part, k);
            let next = mag_sum(&acc, &shifted);
            proof {
                let pk = pow_base(k as nat);
                assert(pk * (av * (d as nat)) == av * ((d as nat) * pk)) by (nonlinear_arith);
                assert(av * mag_prefix_val(rhs.num@, k as nat) + av * ((d as nat) * pk) == av * (
                mag_prefix_val(rhs.num@, k as nat) + (d as nat) * pk)) by (nonlinear_arith);
            }
            acc = next;
            k += 1;
        }
        proof {
            lemma_mag_prefix_complete(rhs.num@, rhs.num@.len());
        }
        let neg = self.neg != rhs.neg;
        let mut v = acc;
        mag_normalize(&mut v);
        let r = BigNum { num: v, neg };
        proof {
            lemma_canonical_zero(self.num@);
            lemma_canonical_zero(rhs.num@);
            assert(av * bv >= 1) by (nonlinear_arith)
                requires
                    av >= 1,
                    bv >= 1,
            ;
            lemma_mag_val_upper(self.num@);
            lemma_mag_val_upper(rhs.num@);
            lemma_pow_base_add(self.num@.len(), rhs.num@.len());
            assert(av * bv < pow_base(self.num@.len()) * pow_base(rhs.num@.len()))
                by (nonlinear_arith)
                requires
                    av < pow_base(self.num@.len()),
                    bv < pow_base(rhs.num@.len()),
                    av >= 0,
                    bv >= 0,
            ;
            lemma_canonical_len_bound(v@, self.num@.len() + rhs.num@.len());
            assert(r.as_int() == self.as_int() * rhs.as_int()) by (nonlinear_arith)
                requires
                    r.as_int() == (if r.is_neg() {
                        -(mag_val(r.mag()) as int)
                    } else {
                        mag_val(r.mag()) as int
                    }),
                    mag_val(r.mag()) == av * bv,
                    r.is_neg() == (self.is_neg() != rhs.is_neg()),
                    self.as_int() == (if self.is_neg() {
                        -(av as int)
                    } else {
                        av as int
                    }),
                    rhs.as_int() == (if rhs.is_neg() {
                        -(bv as int)
                    } else {
                        bv as int
                    }),
                    av >= 1,
                    bv >= 1,
            ;
        }
        r
    }
}

/// Append one digit character, taken from a table of the ten digits.
fn append_digit(out: &mut String, d: u64)
    requires
        d < 10,
    ensures
        final(out)@ == old(out)@.push(digit_char(d as nat)),
{
    let tbl = "0123456789";
    proof {
        reveal_strlit("0123456789");
    }
    let i = d as usize;
    let c = tbl.substring_ascii(i, i + 1);
    proof {
        assert(tbl@[d as int] == digit_char(d as nat));
        assert(c@ =~= seq![digit_char(d as nat)]);
    }
    out.append(c);
    proof {
        assert(old(out)@ + seq![digit_char(d as nat)] =~= old(out)@.push(digit_char(d as nat)));
    }
}

/// Append collected digit values in reverse: most-significant first.
fn append_rev_digits(out: &mut String, tmp: &Vec<u64>)
    requires
        forall|j: int| 0 <= j < tmp@.len() ==> tmp@[j] < 10,
    ensures
        final(out)@ == old(out)@ + rev_digit_chars(tmp@),
{
    let n = tmp.len();
    let mut k = n;
    while k > 0
        invariant
            k <= n,
            n == tmp@.len(),
            forall|j: int| 0 <= j < tmp@.len() ==> tmp@[j] < 10,
            out@ == old(out)@ + rev_digit_chars(tmp@).take(n - k),
        decreases k,
    {
        k -= 1;
        append_digit(out, tmp[k]);
        proof {
            let rc = rev_digit_chars(tmp@);
            assert(rc[n - k - 1] == digit_char(tmp@[k as int] as nat));
            assert(rc.take(n - k) =~= rc.take(n - k - 1).push(rc[n - k - 1]));
            assert(old(out)@ + rc.take(n - k) =~= (old(out)@ + rc.take(n - k - 1)).push(
                rc[n - k - 1],
            ));
        }
    }
    proof {
        assert(rev_digit_chars(tmp@).take(n as int) =~= rev_digit_chars(tmp@));
    }
}

/// Append the decimal digits of a chunk value with no padding.
fn push_decimal(out: &mut String, v: u64)
    ensures
        final(out)@ == old(out)@ + dec_rep(v as nat),
{
    if v == 0 {
        append_digit(out, 0);
        proof {
            assert(dec_rep(0) =~= seq![digit_char(0)]);
            assert(old(out)@.push(digit_char(0)) =~= old(out)@ + dec_rep(0));
        }
        return ;
    }
    let mut tmp: Vec<u64> = Vec::new();
    let mut m = v;
    proof {
        assert(rev_digit_chars(tmp@) =~= Seq::<char>::empty());
        assert(dec_rep(v as nat) + rev_digit_chars(tmp@) =~= dec_rep(v as nat));
    }
    while m > 0
        invariant
            forall|j: int| 0 <= j < tmp@.len() ==> tmp@[j] < 10,
            m > 0 ==> dec_rep(v as nat) == dec_rep(m as nat) + rev_digit_chars(tmp@),
            m == 0 ==> dec_rep(v as nat) == rev_digit_chars(tmp@),
        decreases m,
    {
        let d = m % 10;
        let m2 = m / 10;
        proof {
            vstd::arithmetic::div_mod::lemma_fundamental_div_mod(m as int, 10);
            let rc = rev_digit_chars(tmp@);
            let rc2 = rev_digit_chars(tmp@.push(d));
            assert(rc2 =~= seq![digit_char(d as nat)] + rc);
            if m < 10 {
                assert(m2 == 0);
                assert(d == m);
                assert(dec_rep(m as nat) =~= seq![digit_char(d as nat)]);
                assert(dec_rep(v as nat) == seq![digit_char(d as nat)] + rc);
            } else {
                assert(m2 > 0);
                assert(dec_rep(m as nat) == dec_rep(m2 as nat).push(digit_char(d as nat)));
                assert(dec_rep(m2 as nat).push(digit_char(d as nat)) =~= dec_rep(m2 as nat) + seq![
                    digit_char(d as nat),
                ]);
                assert((dec_rep(m2 as nat) + seq![digit_char(d as nat)]) + rc =~= dec_rep(
                    m2 as nat,
                ) + (seq![digit_char(d as nat)] + rc));
            }
        }
        tmp.push(d);
        m = m2;
    }
    append_rev_digits(out, &tmp);
}

/// Append exactly `CHUNK_DIGITS` decimal digits of a chunk value, zero-padded
/// on the left so that interior chunks keep their full place value.
fn push_padded(out: &mut String, v: u64)
    requires
        v < BASE,
    ensures
        final(out)@ == old(out)@ + padded_digits(v as nat, 18),
{
    let mut tmp: Vec<u64> = Vec::new();
    let mut m = v;
    let mut c: usize = 0;
    proof {
        assert(rev_digit_chars(tmp@) =~= Seq::<char>::empty());
        assert(padded_digits(v as nat, 18) + rev_digit_chars(tmp@) =~= padded_digits(v as nat, 18));
    }
    while c < CHUNK_DIGITS
        invariant
            c <= 18,
            tmp@.len() == c,
            forall|j: int| 0 <= j < tmp@.len() ==> tmp@[j] < 10,
            padded_digits(v as nat, 18) == padded_digits(m as nat, (18 - c) as nat)
                + rev_digit_chars(tmp@),
        decreases 18 - c,
    {
        let d = m % 10;
        let m2 = m / 10;
        proof {
            vstd::arithmetic::div_mod::lemma_fundamental_div_mod(m as int, 10);
            let rc = rev_digit_chars(tmp@);
            let rc2 = rev_digit_chars(tmp@.push(d));
            assert(rc2 =~= seq![digit_char(d as nat)] + rc);
            assert(padded_digits(m as nat, (18 - c) as nat) == padded_digits(
                m2 as nat,
                (17 - c) as nat,
            ).push(digit_char(d as nat)));
            assert(padded_digits(m2 as nat, (17 - c) as nat).push(digit_char(d as nat))
                =~= padded_digits(m2 as nat, (17 - c) as nat) + seq![digit_char(d as nat)]);
            assert((padded_digits(m2 as nat, (17 - c) as nat) + seq![digit_char(d as nat)]) + rc
                =~= padded_digits(m2 as nat, (17 - c) as nat) + (seq![digit_char(d as nat)] + rc));
        }
        tmp.push(d);
        m = m2;
        c += 1;
    }
    proof {
        assert(padded_digits(m as nat, 0) =~= Seq::<char>::empty());
        assert(Seq::<char>::empty() + rev_digit_chars(tmp@) =~= rev_digit_chars(tmp@));
    }
    append_rev_digits(out, &tmp);
}

impl BigNum {
    /// The canonical decimal rendering: a minus sign for negative values, the
    /// most-significant chunk unpadded, every further chunk zero-padded to the
    /// full chunk width.
    pub fn render(&self) -> (r: String)
        requires
            self.wf(),
        ensures
            r@ == text_of_int(self.as_int()),
    {
        let ghost s = self.num@;
        let ghost sign: Seq<char> = if self.neg {
            seq!['-']
        } else {
            Seq::<char>::empty()
        };
        let mut out = String::new();
        if self.neg {
            proof {
                reveal_strlit("-");
            }
            out.append("-");
            proof {
                assert(out@ =~= sign);
            }
        } else {
            proof {
                assert(out@ =~= sign);
            }
        }
        let n = self.num.len();
        let top = self.num[n - 1];
        push_decimal(&mut out, top);
        proof {
            assert(s.skip(n - 1).len() == 1);
            assert(s.skip(n - 1)[0] == s[n - 1]);
            assert(s.skip(n - 1).skip(1) =~= Seq::<u64>::empty());
            assert(mag_val(Seq::<u64>::empty()) == 0);
            assert(mag_val(s.skip(n - 1)) == s[n - 1] as nat);
        }
        let mut j = n - 1;
        while j > 0
            invariant
                j < n,
                n == s.len(),
                s == self.num@,
                mag_bounded(s),
                mag_canonical(s),
                sign == (if self.is_neg() {
                    seq!['-']
                } else {
                    Seq::<char>::empty()
                }),
                out@ == sign + dec_rep(mag_val(s.skip(j as int))),
            decreases j,
        {
            j -= 1;
            let x = self.num[j];
            push_padded(&mut out, x);
            proof {
                let hi = s.skip(j + 1);
                let a = mag_val(hi);
                assert(hi.len() >= 1);
                assert(hi[hi.len() - 1] == s[n - 1]);
                assert(s[n - 1] != 0);
                lemma_mag_val_lower(hi);
                lemma_pow_base_pos((hi.len() - 1) as nat);
                assert(a >= 1);
                assert(s.skip(j as int)[0] == s[j as int]);
                assert(s.skip(j as int).skip(1) =~= hi);
                assert(mag_val(s.skip(j as int)) == x as nat + (BASE as nat) * a);
                lemma_pow10_chunk();
                assert(a * pow10(18) == (BASE as nat) * a) by (nonlinear_arith)
                    requires
                        pow10(18) == BASE as nat,
                ;
                lemma_dec_rep_append_padded(a, x as nat, 18);
                assert((sign + dec_rep(a)) + padded_digits(x as nat, 18) =~= sign + (dec_rep(a)
                    + padded_digits(x as nat, 18)));
            }
        }
        proof {
            assert(s.skip(0) =~= s);
            lemma_canonical_zero(s);
            if self.neg {
                assert(self.as_int() < 0);
                assert(text_of_int(self.as_int()) == seq!['-'] + dec_rep(mag_val(s)));
            } else {
                assert(self.as_int() >= 0);
                assert(Seq::<char>::empty() + dec_rep(mag_val(s)) =~= dec_rep(mag_val(s)));
            }
        }
        out
    }
}

/// Whether the character at `i` is accepted whitespace.
fn space_at(st: &str, i: usize) -> (r: bool)
    requires
        i < st@.len(),
    ensures
        r == is_space_char(st@[i as int]),
{
    let c = st.get_char(i);
    c == ' ' || c == '\t' || c == '\n' || c == '\r'
}

/// Whether the character at `i` is the digit zero.
fn zero_at(st: &str, i: usize) -> (r: bool)
    requires
        i < st@.len(),
    ensures
        r == (st@[i as int] == '0'),
{
    let c = st.get_char(i);
    c == '0'
}

/// Read the digits in `[j, zend)` as one chunk value.
fn parse_chunk(st: &str, j: usize, zend: usize) -> (r: u64)
    requires
        j < zend <= st@.len(),
        zend - j <= 18,
        forall|i: int| j <= i < zend ==> is_digit_char(st@[i]),
    ensures
        r as nat == digits_val(st@.subrange(j as int, zend as int)),
        r < BASE,
{
    let mut d: u64 = 0;
    let mut k = j;
    proof {
        assert(st@.subrange(j as int, j as int) =~= Seq::<char>::empty());
    }
    while k < zend
        invariant
            j <= k <= zend,
            zend <= st@.len(),
            zend - j <= 18,
            forall|i: int| j <= i < zend ==> is_digit_char(st@[i]),
            d as nat == digits_val(st@.subrange(j as int, k as int)),
            d < pow10((k - j) as nat),
        decreases zend - k,
    {
        let c = st.get_char(k);
        proof {
            lemma_char_code(c);
        }
        let u = c as u32;
        let dig = (u - 48) as u64;
        proof {
            assert(dig as nat == digit_of(c));
            let pre = st@.subrange(j as int, k as int);
            assert(st@.subrange(j as int, k + 1) =~= pre.push(st@[k as int]));
            assert(st@.subrange(j as int, k + 1).drop_last() =~= pre);
            assert(digits_val(st@.subrange(j as int, k + 1)) == digits_val(pre) * 10 + digit_of(c));
            assert(pow10((k + 1 - j) as nat) == 10 * pow10((k - j) as nat));
            assert(d * 10 <= (pow10((k - j) as nat) - 1) * 10) by (nonlinear_arith)
                requires
                    d as nat <= pow10((k - j) as nat) - 1,
            ;
            lemma_pow10_mono((k + 1 - j) as nat, 18);
            lemma_pow10_chunk();
        }
        d = d * 10 + dig;
        k += 1;
    }
    proof {
        lemma_pow10_mono((zend - j) as nat, 18);
        lemma_pow10_chunk();
    }
    d
}

impl BigNum {
    /// Construct a value from decimal text: optional surrounding whitespace,
    /// an optional minus sign, then decimal digits. Leading zeros are
    /// dropped, and a minus sign on zero is ignored. Anything else is an
    /// `InvalidFormat` error.
    pub fn new_with(s: String) -> (r: Result<BigNum, BigNumError>)
        ensures
            (match r {
                Ok(v) => valid_number(trim_spec(s@)) && v.wf() && v.as_int() == text_int(
                    trim_spec(s@),
                ),
                Err(e) => e == BigNumError::InvalidFormat && !valid_number(trim_spec(s@)),
            }),
    {
        let st = s.as_str();
        let n = st.unicode_len();
        let mut lo: usize = 0;
        proof {
            assert(st@.skip(0) =~= st@);
        }
        while lo < n && space_at(st, lo)
            invariant
                lo <= n,
                n == st@.len(),
                st@ == s@,
                trim_front(s@) == trim_front(st@.skip(lo as int)),
            decreases n - lo,
        {
            proof {
                let u = st@.skip(lo as int);
                assert(u[0] == st@[lo as int]);
                assert(u.skip(1) =~= st@.skip(lo + 1));
            }
            lo += 1;
        }
        proof {
            let u = st@.skip(lo as int);
            if lo < n {
                assert(u[0] == st@[lo as int]);
            } else {
                assert(u =~= Seq::<char>::empty());
            }
            assert(trim_front(u) == u);
            assert(trim_front(s@) == st@.skip(lo as int));
        }
        let mut hi: usize = n;
        while hi > lo && space_at(st, hi - 1)
            invariant
                lo <= hi <= n,
                n == st@.len(),
                st@ == s@,
                trim_front(s@) == st@.skip(lo as int),
                trim_back(st@.skip(lo as int)) == trim_back(st@.subrange(lo as int, hi as int)),
            decreases hi,
        {
            proof {
                let u = st@.subrange(lo as int, hi as int);
                assert(u.last() == st@[hi - 1]);
                assert(u.drop_last() =~= st@.subrange(lo as int, hi - 1));
            }
            hi -= 1;
        }
        let ghost t = st@.subrange(lo as int, hi as int);
        proof {
            assert(st@.skip(lo as int) =~= st@.subrange(lo as int, n as int));
            if hi > lo {
                assert(t.last() == st@[hi - 1]);
            } else {
                assert(t =~= Seq::<char>::empty());
            }
            assert(trim_back(t) == t);
            assert(trim_spec(s@) == t);
        }
        if lo == hi {
            return Err(BigNumError::InvalidFormat);
        }
        let first = st.get_char(lo);
        proof {
            assert(t[0] == st@[lo as int]);
        }
        let neg = first == '-';
        let ds = if neg {
            lo + 1
        } else {
            lo
        };
        if ds >= hi {
            proof {
                assert(t.len() == 1);
            }
            return Err(BigNumError::InvalidFormat);
        }
        let mut k = ds;
        while k < hi
            invariant
                ds <= k <= hi,
                hi <= n,
                n == st@.len(),
                st@ == s@,
                lo < hi,
                lo <= ds <= lo + 1,
                ds < hi,
                t == st@.subrange(lo as int, hi as int),
                trim_spec(s@) == t,
                neg ==> (ds == lo + 1 && st@[lo as int] == '-'),
                !neg ==> (ds == lo && st@[lo as int] != '-'),
                forall|i2: int| ds <= i2 < k ==> is_digit_char(st@[i2]),
            decreases hi - k,
        {
            let c = st.get_char(k);
            proof {
                lemma_char_code(c);
            }
            let u = c as u32;
            if u < 48 || u > 57 {
                proof {
                    assert(!is_digit_char(st@[k as int]));
                    if neg {
                        assert(t.skip(1)[k - lo - 1] == st@[k as int]);
                        assert(!all_digits(t.skip(1)));
                    } else {
                        assert(t[k - lo] == st@[k as int]);
                        assert(!all_digits(t));
                    }
                }
                return Err(BigNumError::InvalidFormat);
            }
            k += 1;
        }
        proof {
            if neg {
                assert(t.len() >= 2);
                assert(forall|i2: int|
                    0 <= i2 < t.skip(1).len() ==> t.skip(1)[i2] == st@[lo + 1 + i2]);
                assert(all_digits(t.skip(1)));
            } else {
                assert(forall|i2: int| 0 <= i2 < t.len() ==> t[i2] == st@[lo + i2]);
                assert(all_digits(t));
            }
            assert(valid_number(t));
        }
        let mut z = ds;
        while z < hi && zero_at(st, z)
            invariant
                ds <= z <= hi,
                hi <= n,
                n == st@.len(),
                st@ == s@,
                forall|i2: int| ds <= i2 < z ==> st@[i2] == '0',
            decreases hi - z,
        {
            z += 1;
        }
        let ghost dall = st@.subrange(ds as int, hi as int);
        let ghost dsig = st@.subrange(z as int, hi as int);
        proof {
            assert(dall =~= st@.subrange(ds as int, z as int) + dsig);
            lemma_digits_val_concat(st@.subrange(ds as int, z as int), dsig);
            lemma_digits_val_zeros(st@.subrange(ds as int, z as int));
            assert(digits_val(st@.subrange(ds as int, z as int)) * pow10(dsig.len()) == 0)
                by (nonlinear_arith)
                requires
                    digits_val(st@.subrange(ds as int, z as int)) == 0,
            ;
            assert(digits_val(dall) == digits_val(dsig));
            if neg {
                assert(t.skip(1) =~= dall);
            } else {
                assert(t =~= dall);
            }
        }
        if z == hi {
            proof {
                assert(dsig =~= Seq::<char>::empty());
                assert(digits_val(dsig) == 0);
            }
            return Ok(BigNum::new_zero());
        }
        let mut num: Vec<u64> = Vec::new();
        let mut zpos = hi;
        proof {
            assert(st@.subrange(zpos as int, hi as int) =~= Seq::<char>::empty());
            assert(num@ =~= Seq::<u64>::empty());
            assert(mag_val(num@) == 0);
            assert(digits_val(Seq::<char>::empty()) == 0);
        }
        while zpos > z
            invariant
                z <= zpos <= hi,
                hi <= n,
                n == st@.len(),
                st@ == s@,
                z < hi,
                st@[z as int] != '0',
                forall|i2: int| z <= i2 < hi ==> is_digit_char(st@[i2]),
                mag_bounded(num@),
                mag_val(num@) == digits_val(st@.subrange(zpos as int, hi as int)),
                zpos > z ==> hi - zpos == 18 * num@.len(),
                zpos == z ==> (num@.len() >= 1 && num@[num@.len() - 1] != 0),
            decreases zpos - z,
        {
            let j2 = if zpos - z > CHUNK_DIGITS {
                zpos - CHUNK_DIGITS
            } else {
                z
            };
            let chunk = parse_chunk(st, j2, zpos);
            proof {
                let pre = st@.subrange(j2 as int, zpos as int);
                let suf = st@.subrange(zpos as int, hi as int);
                assert(st@.subrange(j2 as int, hi as int) =~= pre + suf);
                lemma_digits_val_concat(pre, suf);
                lemma_mag_val_push(num@, chunk);
                lemma_pow10_chunks(num@.len());
                assert(pow_base(num@.len()) == pow10((hi - zpos) as nat));
                if j2 == z {
                    assert(pre[0] == st@[z as int]);
                    lemma_digits_val_lower(pre);
                }
            }
            num.push(chunk);
            zpos = j2;
        }
        proof {
            assert(mag_canonical(num@));
            assert(mag_val(num@) == digits_val(dsig));
            assert(dsig[0] == st@[z as int]);
            lemma_digits_val_lower(dsig);
            assert(mag_val(num@) >= 1);
        }
        let v = BigNum { num, neg };
        Ok(v)
    }
}

/// A well-formed value's sign is determined by its mathematical value, and
/// its magnitude is that value's absolute value.
pub proof fn lemma_sign_value(v: BigNum)
    requires
        v.wf(),
    ensures
        v.is_neg() <==> v.as_int() < 0,
        mag_val(v.mag()) == (if v.as_int() < 0 {
            -v.as_int()
        } else {
            v.as_int()
        }),
{
}

/// Canonical form is unique: well-formed values with the same mathematical
/// value have the same chunks and the same sign.
pub proof fn lemma_bignum_unique(a: BigNum, b: BigNum)
    requires
        a.wf(),
        b.wf(),
        a.as_int() == b.as_int(),
    ensures
        a.mag() == b.mag(),
        a.is_neg() == b.is_neg(),
{
    lemma_sign_value(a);
    lemma_sign_value(b);
    lemma_canonical_unique(a.mag(), b.mag());
}

/// Addition is commutative: the sums taken in either order are the same
/// value, chunk for chunk and sign for sign.
pub proof fn lemma_add_commutative(a: BigNum, b: BigNum, r1: BigNum, r2: BigNum)
    requires
        a.wf(),
        b.wf(),
        r1.wf(),
        r2.wf(),
        r1.as_int() == a.as_int() + b.as_int(),
        r2.as_int() == b.as_int() + a.as_int(),
    ensures
        r1.mag() == r2.mag(),
        r1.is_neg() == r2.is_neg(),
{
    lemma_bignum_unique(r1, r2);
}

/// Multiplication is commutative: the products taken in either order are the
/// same value.
pub proof fn lemma_mul_commutative(a: BigNum, b: BigNum, r1: BigNum, r2: BigNum)
    requires
        a.wf(),
        b.wf(),
        r1.wf(),
        r2.wf(),
        r1.as_int() == a.as_int() * b.as_int(),
        r2.as_int() == b.as_int() * a.as_int(),
    ensures
        r1.mag() == r2.mag(),
        r1.is_neg() == r2.is_neg(),
{
    assert(a.as_int() * b.as_int() == b.as_int() * a.as_int()) by (nonlinear_arith);
    lemma_bignum_unique(r1, r2);
}

/// Adding zero gives the same value back.
pub proof fn lemma_add_identity(a: BigNum, z: BigNum, r: BigNum)
    requires
        a.wf(),
        z.wf(),
        r.wf(),
        z.as_int() == 0,
        r.as_int() == a.as_int() + z.as_int(),
    ensures
        r.mag() == a.mag(),
        r.is_neg() == a.is_neg(),
{
    lemma_bignum_unique(r, a);
}

/// Multiplying by zero gives the canonical zero.
pub proof fn lemma_mul_zero(a: BigNum, z: BigNum, r: BigNum)
    requires
        a.wf(),
        z.wf(),
        r.wf(),
        z.as_int() == 0,
        r.as_int() == a.as_int() * z.as_int(),
    ensures
        r.as_int() == 0,
        r.mag() =~= seq![0u64],
        !r.is_neg(),
{
    assert(a.as_int() * 0 == 0) by (nonlinear_arith);
    lemma_sign_value(r);
    lemma_canonical_zero(r.mag());
    assert(r.mag().len() == 1 && r.mag()[0] == 0);
}

/// Multiplying by one gives the same value back.
pub proof fn lemma_mul_identity(a: BigNum, one: BigNum, r: BigNum)
    requires
        a.wf(),
        one.wf(),
        r.wf(),
        one.as_int() == 1,
        r.as_int() == a.as_int() * one.as_int(),
    ensures
        r.mag() == a.mag(),
        r.is_neg() == a.is_neg(),
{
    assert(a.as_int() * 1 == a.as_int()) by (nonlinear_arith);
    lemma_bignum_unique(r, a);
}

/// Subtracting one addend from a sum gives back the other addend.
pub proof fn lemma_sub_inverts_add(a: BigNum, b: BigNum, s: BigNum, r: BigNum)
    requires
        a.wf(),
        b.wf(),
        s.wf(),
        r.wf(),
        s.as_int() == a.as_int() + b.as_int(),
        r.as_int() == s.as_int() - b.as_int(),
    ensures
        r.mag() == a.mag(),
        r.is_neg() == a.is_neg(),
{
    lemma_bignum_unique(r, a);
}

/// Negating one factor keeps the product's magnitude and, for a nonzero
/// product, flips its sign.
pub proof fn lemma_mul_negated_factor(a: BigNum, b: BigNum, nb: BigNum, p: BigNum, q: BigNum)
    requires
        a.wf(),
        b.wf(),
        nb.wf(),
        p.wf(),
        q.wf(),
        nb.as_int() == -b.as_int(),
        p.as_int() == a.as_int() * b.as_int(),
        q.as_int() == a.as_int() * nb.as_int(),
    ensures
        q.mag() == p.mag(),
        p.as_int() != 0 ==> q.is_neg() == !p.is_neg(),
{
    assert(q.as_int() == -p.as_int()) by (nonlinear_arith)
        requires
            p.as_int() == a.as_int() * b.as_int(),
            q.as_int() == a.as_int() * nb.as_int(),
            nb.as_int() == -b.as_int(),
    ;
    lemma_sign_value(p);
    lemma_sign_value(q);
    lemma_canonical_unique(p.mag(), q.mag());
}

/// Negating both factors leaves the product unchanged.
pub proof fn lemma_mul_negated_both(
    a: BigNum,
    b: BigNum,
    na: BigNum,
    nb: BigNum,
    p: BigNum,
    q: BigNum,
)
    requires
        a.wf(),
        b.wf(),
        na.wf(),
        nb.wf(),
        p.wf(),
        q.wf(),
        na.as_int() == -a.as_int(),
        nb.as_int() == -b.as_int(),
        p.as_int() == a.as_int() * b.as_int(),
        q.as_int() == na.as_int() * nb.as_int(),
    ensures
        q.mag() == p.mag(),
        q.is_neg() == p.is_neg(),
{
    assert(q.as_int() == p.as_int()) by (nonlinear_arith)
        requires
            p.as_int() == a.as_int() * b.as_int(),
            q.as_int() == na.as_int() * nb.as_int(),
            na.as_int() == -a.as_int(),
            nb.as_int() == -b.as_int(),
    ;
    lemma_bignum_unique(q, p);
}

} // verus!
