//! The mathematical model of a magnitude: a sequence of chunks, least
//! significant first, each holding a value below the grouping radix `BASE`.

use vstd::arithmetic::div_mod::lemma_fundamental_div_mod_converse;
use vstd::prelude::*;

verus! {

/// Grouping radix: each chunk holds eighteen decimal digits.
pub const BASE: u64 = 1_000_000_000_000_000_000;

/// Number of decimal digits packed into one chunk.
pub const CHUNK_DIGITS: usize = 18;

/// `BASE` to the power `n`.
pub open spec fn pow_base(n: nat) -> nat
    decreases n,
{
    if n == 0 {
        1
    } else {
        (BASE as nat) * pow_base((n - 1) as nat)
    }
}

/// The numeric value of a chunk sequence, least-significant chunk first.
pub open spec fn mag_val(s: Seq<u64>) -> nat
    decreases s.len(),
{
    if s.len() == 0 {
        0
    } else {
        s[0] as nat + (BASE as nat) * mag_val(s.skip(1))
    }
}

/// The chunk at position `i`, reading past either end as zero.
pub open spec fn chunk_at(s: Seq<u64>, i: int) -> u64 {
    if 0 <= i < s.len() {
        s[i]
    } else {
        0
    }
}

/// The value contributed by the low `n` chunk positions.
pub open spec fn mag_prefix_val(s: Seq<u64>, n: nat) -> nat
    decreases n,
{
    if n == 0 {
        0
    } else {
        mag_prefix_val(s, (n - 1) as nat) + (chunk_at(s, n - 1) as nat) * pow_base((n - 1) as nat)
    }
}

/// Every chunk is a valid base-`BASE` digit.
pub open spec fn mag_bounded(s: Seq<u64>) -> bool {
    forall|i: int| 0 <= i < s.len() ==> s[i] < BASE
}

/// Canonical form: at least one chunk, and no most-significant zero chunk
/// except in the single-chunk zero.
pub open spec fn mag_canonical(s: Seq<u64>) -> bool {
    s.len() >= 1 && (s.len() == 1 || s[s.len() - 1] != 0)
}

/// The chunk radix obeys the multiply-accumulate width requirement: the
/// largest chunk product plus the largest carry fits the double-width
/// accumulator.
pub proof fn lemma_radix_fits_accumulator()
    ensures
        ((BASE - 1) as u128) * ((BASE - 1) as u128) + (BASE as u128) < u128::MAX,
{
    assert(((BASE - 1) as u128) * ((BASE - 1) as u128) + (BASE as u128) < u128::MAX)
        by (nonlinear_arith);
}

pub proof fn lemma_pow_base_pos(n: nat)
    ensures
        pow_base(n) >= 1,
    decreases n,
{
    if n > 0 {
        lemma_pow_base_pos((n - 1) as nat);
    }
}

pub proof fn lemma_pow_base_add(m: nat, n: nat)
    ensures
        pow_base(m + n) == pow_base(m) * pow_base(n),
    decreases m,
{
    if m == 0 {
        assert(pow_base(0) == 1);
        assert(1 * pow_base(n) == pow_base(n));
        assert(pow_base(m + n) == pow_base(m) * pow_base(n));
    } else {
        lemma_pow_base_add((m - 1) as nat, n);
        assert(pow_base((m + n - 1) as nat) == pow_base((m - 1) as nat) * pow_base(n));
        assert(pow_base(m + n) == (BASE as nat) * pow_base((m + n - 1) as nat));
        assert(pow_base(m) == (BASE as nat) * pow_base((m - 1) as nat));
        assert((BASE as nat) * (pow_base((m - 1) as nat) * pow_base(n)) == ((BASE as nat)
            * pow_base((m - 1) as nat)) * pow_base(n)) by (nonlinear_arith);
        assert(pow_base(m + n) == pow_base(m) * pow_base(n));
    }
}

pub proof fn lemma_pow_base_mono(m: nat, n: nat)
    requires
        m <= n,
    ensures
        pow_base(m) <= pow_base(n),
{
    lemma_pow_base_add(m, (n - m) as nat);
    lemma_pow_base_pos((n - m) as nat);
    assert(pow_base(m) * 1 <= pow_base(m) * pow_base((n - m) as nat)) by (nonlinear_arith)
        requires
            1 <= pow_base((n - m) as nat),
    ;
}

/// Appending a chunk at the most-significant end adds its value scaled by the
/// weight of its position.
pub proof fn lemma_mag_val_push(s: Seq<u64>, x: u64)
    ensures
        mag_val(s.push(x)) == mag_val(s) + (x as nat) * pow_base(s.len()),
    decreases s.len(),
{
    if s.len() == 0 {
        assert(mag_val(Seq::<u64>::empty()) == 0);
        assert(s.push(x).skip(1) =~= Seq::<u64>::empty());
        assert(s.push(x)[0] == x);
        assert(mag_val(s.push(x)) == x as nat);
        assert((x as nat) * 1 == x as nat);
    } else {
        assert(s.push(x).skip(1) =~= s.skip(1).push(x));
        lemma_mag_val_push(s.skip(1), x);
        let b = BASE as nat;
        let p = pow_base((s.len() - 1) as nat);
        assert(s.skip(1).len() == s.len() - 1);
        assert(mag_val(s.skip(1).push(x)) == mag_val(s.skip(1)) + (x as nat) * p);
        assert(mag_val(s.push(x)) == s[0] as nat + b * (mag_val(s.skip(1)) + (x as nat) * p));
        assert(b * (mag_val(s.skip(1)) + (x as nat) * p) == b * mag_val(s.skip(1)) + (x as nat) * (b
            * p)) by (nonlinear_arith);
        assert(pow_base(s.len()) == b * p);
        assert(mag_val(s.push(x)) == (s[0] as nat + b * mag_val(s.skip(1))) + (x as nat) * (b * p));
    }
}

pub proof fn lemma_mag_prefix_take(s: Seq<u64>, n: nat)
    requires
        n <= s.len(),
    ensures
        mag_prefix_val(s, n) == mag_val(s.take(n as int)),
    decreases n,
{
    if n == 0 {
        assert(s.take(0) =~= Seq::<u64>::empty());
    } else {
        lemma_mag_prefix_take(s, (n - 1) as nat);
        assert(s.take(n as int) =~= s.take(n - 1).push(s[n - 1]));
        lemma_mag_val_push(s.take(n - 1), s[n - 1]);
    }
}

/// Once `n` covers the whole sequence, the prefix value is the full value.
pub proof fn lemma_mag_prefix_complete(s: Seq<u64>, n: nat)
    requires
        n >= s.len(),
    ensures
        mag_prefix_val(s, n) == mag_val(s),
    decreases n,
{
    if n == s.len() {
        lemma_mag_prefix_take(s, n);
        assert(s.take(n as int) =~= s);
    } else {
        lemma_mag_prefix_complete(s, (n - 1) as nat);
        assert(chunk_at(s, n - 1) == 0);
    }
}

/// A bounded sequence of `n` chunks stays below `pow_base(n)`.
pub proof fn lemma_mag_val_upper(s: Seq<u64>)
    requires
        mag_bounded(s),
    ensures
        mag_val(s) < pow_base(s.len()),
    decreases s.len(),
{
    if s.len() == 0 {
    } else {
        assert(mag_bounded(s.skip(1))) by {
            assert(forall|i: int| 0 <= i < s.skip(1).len() ==> s.skip(1)[i] == s[i + 1]);
        }
        lemma_mag_val_upper(s.skip(1));
        let b = BASE as nat;
        let p = pow_base((s.len() - 1) as nat);
        assert(b * mag_val(s.skip(1)) <= b * (p - 1)) by (nonlinear_arith)
            requires
                mag_val(s.skip(1)) <= p - 1,
                b >= 0,
        ;
        assert(b * (p - 1) == b * p - b) by (nonlinear_arith);
        assert(pow_base(s.len()) == b * p);
    }
}

/// A nonzero most-significant chunk puts the value at or above the weight of
/// its position.
pub proof fn lemma_mag_val_lower(s: Seq<u64>)
    requires
        s.len() >= 1,
        s[s.len() - 1] != 0,
    ensures
        mag_val(s) >= pow_base((s.len() - 1) as nat),
{
    let s0 = s.drop_last();
    assert(s =~= s0.push(s.last()));
    lemma_mag_val_push(s0, s.last());
    let p = pow_base(s0.len());
    assert((s.last() as nat) * p >= 1 * p) by (nonlinear_arith)
        requires
            s.last() >= 1,
            p >= 0,
    ;
}

/// A canonical nonzero magnitude has a positive value.
pub proof fn lemma_canonical_nonzero(s: Seq<u64>)
    requires
        mag_canonical(s),
        !(s.len() == 1 && s[0] == 0),
    ensures
        mag_val(s) >= 1,
{
    if s.len() == 1 {
        assert(s =~= Seq::<u64>::empty().push(s[0]));
        lemma_mag_val_push(Seq::<u64>::empty(), s[0]);
    } else {
        lemma_mag_val_lower(s);
        lemma_pow_base_pos((s.len() - 1) as nat);
    }
}

/// A canonical magnitude has value zero exactly when it is the single zero
/// chunk.
pub proof fn lemma_canonical_zero(s: Seq<u64>)
    requires
        mag_canonical(s),
    ensures
        (mag_val(s) == 0) <==> (s.len() == 1 && s[0] == 0),
{
    if s.len() == 1 && s[0] == 0 {
        assert(mag_val(Seq::<u64>::empty()) == 0);
        assert(s.skip(1) =~= Seq::<u64>::empty());
        assert(mag_val(s) == s[0] as nat + (BASE as nat) * mag_val(s.skip(1)));
    } else {
        lemma_canonical_nonzero(s);
    }
}

/// A canonical value below `pow_base(n)` needs at most `n` chunks.
pub proof fn lemma_canonical_len_bound(s: Seq<u64>, n: nat)
    requires
        mag_canonical(s),
        mag_val(s) < pow_base(n),
        n >= 1,
    ensures
        s.len() <= n,
{
    if s.len() > n {
        lemma_mag_val_lower(s);
        lemma_pow_base_mono(n, (s.len() - 1) as nat);
    }
}

/// Splitting a sequence splits its value at the corresponding weight.
pub proof fn lemma_mag_val_split(s: Seq<u64>, n: nat)
    requires
        n <= s.len(),
    ensures
        mag_val(s) == mag_val(s.take(n as int)) + pow_base(n) * mag_val(s.skip(n as int)),
    decreases n,
{
    if n == 0 {
        assert(mag_val(Seq::<u64>::empty()) == 0);
        assert(s.take(0) =~= Seq::<u64>::empty());
        assert(s.skip(0) =~= s);
        assert(pow_base(0) == 1);
        assert(1 * mag_val(s) == mag_val(s));
    } else {
        lemma_mag_val_split(s, (n - 1) as nat);
        let lo = s.skip(n - 1);
        assert(lo.len() >= 1);
        assert(lo[0] == s[n - 1]);
        assert(lo.skip(1) =~= s.skip(n as int));
        assert(mag_val(lo) == s[n - 1] as nat + (BASE as nat) * mag_val(s.skip(n as int)));
        assert(s.take(n as int) =~= s.take(n - 1).push(s[n - 1]));
        lemma_mag_val_push(s.take(n - 1), s[n - 1]);
        let b = BASE as nat;
        let p = pow_base((n - 1) as nat);
        let r = mag_val(s.skip(n as int));
        assert(s.take(n - 1).len() == n - 1);
        assert(mag_val(s.take(n as int)) == mag_val(s.take(n - 1)) + (s[n - 1] as nat) * p);
        assert(mag_val(s) == mag_val(s.take(n - 1)) + p * (s[n - 1] as nat + b * r));
        assert(p * (s[n - 1] as nat + b * r) == (s[n - 1] as nat) * p + (b * p) * r)
            by (nonlinear_arith);
        assert(pow_base(n) == b * p);
    }
}

/// Comparing chunk by chunk from the most-significant end decides the value
/// order: below the first differing position the smaller side cannot catch up.
pub proof fn lemma_mag_val_lex(s: Seq<u64>, t: Seq<u64>, i: int)
    requires
        s.len() == t.len(),
        0 <= i < s.len(),
        mag_bounded(s),
        s[i] < t[i],
        forall|j: int| i < j < s.len() ==> s[j] == t[j],
    ensures
        mag_val(s) < mag_val(t),
{
    let p = pow_base(i as nat);
    let b = BASE as nat;
    lemma_mag_val_split(s, i as nat);
    lemma_mag_val_split(t, i as nat);
    assert(s.skip(i)[0] == s[i]);
    assert(t.skip(i)[0] == t[i]);
    assert(s.skip(i).skip(1) =~= s.skip(i + 1));
    assert(t.skip(i).skip(1) =~= t.skip(i + 1));
    assert(s.skip(i + 1) =~= t.skip(i + 1));
    let r = mag_val(s.skip(i + 1));
    assert(mag_val(s.skip(i)) == s[i] as nat + b * r);
    assert(mag_val(t.skip(i)) == t[i] as nat + b * r);
    assert(mag_bounded(s.take(i))) by {
        assert(forall|j: int| 0 <= j < s.take(i).len() ==> s.take(i)[j] == s[j]);
    }
    lemma_mag_val_upper(s.take(i));
    assert(s.take(i).len() == i);
    assert(mag_val(s) < p + p * (s[i] as nat + b * r));
    assert(p + p * (s[i] as nat + b * r) == p * (1 + s[i] as nat + b * r)) by (nonlinear_arith);
    assert(p * (1 + s[i] as nat + b * r) <= p * (t[i] as nat + b * r)) by (nonlinear_arith)
        requires
            s[i] as nat + 1 <= t[i] as nat,
            p >= 0,
            b >= 0,
            r >= 0,
    ;
    assert(mag_val(t) >= p * (t[i] as nat + b * r));
}

/// Two canonical bounded sequences with the same value are the same sequence.
pub proof fn lemma_canonical_unique(s: Seq<u64>, t: Seq<u64>)
    requires
        mag_bounded(s),
        mag_canonical(s),
        mag_bounded(t),
        mag_canonical(t),
        mag_val(s) == mag_val(t),
    ensures
        s == t,
    decreases s.len(),
{
    if s.len() < t.len() {
        lemma_mag_val_lower(t);
        lemma_mag_val_upper(s);
        lemma_pow_base_mono(s.len(), (t.len() - 1) as nat);
    } else if s.len() > t.len() {
        lemma_mag_val_lower(s);
        lemma_mag_val_upper(t);
        lemma_pow_base_mono(t.len(), (s.len() - 1) as nat);
    } else {
        let v = mag_val(s) as int;
        lemma_fundamental_div_mod_converse(v, BASE as int, mag_val(s.skip(1)) as int, s[0] as int);
        lemma_fundamental_div_mod_converse(v, BASE as int, mag_val(t.skip(1)) as int, t[0] as int);
        assert(s[0] == t[0]);
        assert(mag_val(s.skip(1)) == mag_val(t.skip(1)));
        if s.len() == 1 {
            assert(s =~= t);
        } else {
            assert(mag_bounded(s.skip(1))) by {
                assert(forall|i: int| 0 <= i < s.skip(1).len() ==> s.skip(1)[i] == s[i + 1]);
            }
            assert(mag_bounded(t.skip(1))) by {
                assert(forall|i: int| 0 <= i < t.skip(1).len() ==> t.skip(1)[i] == t[i + 1]);
            }
            assert(s.skip(1)[s.skip(1).len() - 1] == s[s.len() - 1]);
            assert(t.skip(1)[t.skip(1).len() - 1] == t[t.len() - 1]);
            lemma_canonical_unique(s.skip(1), t.skip(1));
            assert forall|i: int| 0 <= i < s.len() implies s[i] == t[i] by {
                if i > 0 {
                    assert(s.skip(1)[i - 1] == s[i]);
                    assert(t.skip(1)[i - 1] == t[i]);
                }
            }
            assert(s =~= t);
        }
    }
}

} // verus!
