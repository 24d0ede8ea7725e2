//! The decimal-text model: what a numeric string means, and what the unique
//! canonical rendering of a value looks like.

use crate::mag::{pow_base, BASE};
use vstd::arithmetic::div_mod::{lemma_fundamental_div_mod, lemma_fundamental_div_mod_converse};
use vstd::prelude::*;

verus! {

/// Whitespace accepted around a number.
pub open spec fn is_space_char(c: char) -> bool {
    c == ' ' || c == '\t' || c == '\n' || c == '\r'
}

/// A decimal digit character.
pub open spec fn is_digit_char(c: char) -> bool {
    c == '0' || c == '1' || c == '2' || c == '3' || c == '4' || c == '5' || c == '6' || c == '7'
        || c == '8' || c == '9'
}

/// The numeric value of a digit character.
pub open spec fn digit_of(c: char) -> nat {
    if c == '1' {
        1
    } else if c == '2' {
        2
    } else if c == '3' {
        3
    } else if c == '4' {
        4
    } else if c == '5' {
        5
    } else if c == '6' {
        6
    } else if c == '7' {
        7
    } else if c == '8' {
        8
    } else if c == '9' {
        9
    } else {
        0
    }
}

/// The character for a digit value below ten.
pub open spec fn digit_char(d: nat) -> char {
    if d == 1 {
        '1'
    } else if d == 2 {
        '2'
    } else if d == 3 {
        '3'
    } else if d == 4 {
        '4'
    } else if d == 5 {
        '5'
    } else if d == 6 {
        '6'
    } else if d == 7 {
        '7'
    } else if d == 8 {
        '8'
    } else if d == 9 {
        '9'
    } else {
        '0'
    }
}

/// A character read from a string decides digit-hood by its code point.
pub proof fn lemma_char_code(c: char)
    ensures
        is_digit_char(c) <==> (48 <= c as u32 <= 57),
        is_digit_char(c) ==> digit_of(c) == c as u32 - 48,
{
    assert(('0' as u32) == 48);
    assert(('1' as u32) == 49);
    assert(('2' as u32) == 50);
    assert(('3' as u32) == 51);
    assert(('4' as u32) == 52);
    assert(('5' as u32) == 53);
    assert(('6' as u32) == 54);
    assert(('7' as u32) == 55);
    assert(('8' as u32) == 56);
    assert(('9' as u32) == 57);
}

pub open spec fn all_digits(s: Seq<char>) -> bool {
    forall|i: int| 0 <= i < s.len() ==> is_digit_char(s[i])
}

/// Ten to the power `n`.
pub open spec fn pow10(n: nat) -> nat
    decreases n,
{
    if n == 0 {
        1
    } else {
        10 * pow10((n - 1) as nat)
    }
}

/// The number named by a digit string, most-significant digit first.
pub open spec fn digits_val(s: Seq<char>) -> nat
    decreases s.len(),
{
    if s.len() == 0 {
        0
    } else {
        digits_val(s.drop_last()) * 10 + digit_of(s.last())
    }
}

/// Drop accepted whitespace from the front.
pub open spec fn trim_front(s: Seq<char>) -> Seq<char>
    decreases s.len(),
{
    if s.len() > 0 && is_space_char(s[0]) {
        trim_front(s.skip(1))
    } else {
        s
    }
}

/// Drop accepted whitespace from the back.
pub open spec fn trim_back(s: Seq<char>) -> Seq<char>
    decreases s.len(),
{
    if s.len() > 0 && is_space_char(s.last()) {
        trim_back(s.drop_last())
    } else {
        s
    }
}

pub open spec fn trim_spec(s: Seq<char>) -> Seq<char> {
    trim_back(trim_front(s))
}

/// A well-formed number: an optional leading minus sign followed by at least
/// one decimal digit, and nothing else.
pub open spec fn valid_number(t: Seq<char>) -> bool {
    if t.len() == 0 {
        false
    } else if t[0] == '-' {
        t.len() >= 2 && all_digits(t.skip(1))
    } else {
        all_digits(t)
    }
}

/// The signed value named by a well-formed number.
pub open spec fn text_int(t: Seq<char>) -> int {
    if t.len() > 0 && t[0] == '-' {
        -(digits_val(t.skip(1)) as int)
    } else {
        digits_val(t) as int
    }
}

/// The canonical decimal digits of `n`, without leading zeros; zero is "0".
pub open spec fn dec_rep(n: nat) -> Seq<char>
    decreases n,
{
    if n < 10 {
        seq![digit_char(n)]
    } else {
        dec_rep(n / 10).push(digit_char(n % 10))
    }
}

/// Exactly `w` digits of `n`, zero-padded on the left.
pub open spec fn padded_digits(n: nat, w: nat) -> Seq<char>
    decreases w,
{
    if w == 0 {
        Seq::empty()
    } else {
        padded_digits(n / 10, (w - 1) as nat).push(digit_char(n % 10))
    }
}

/// The characters of a digit-value sequence read in reverse: the digits were
/// collected least-significant first, the text wants them most-significant
/// first.
pub open spec fn rev_digit_chars(s: Seq<u64>) -> Seq<char> {
    Seq::new(s.len(), |i: int| digit_char(s[s.len() - 1 - i] as nat))
}

/// The canonical rendering of a signed value.
pub open spec fn text_of_int(i: int) -> Seq<char> {
    if i < 0 {
        seq!['-'] + dec_rep((-i) as nat)
    } else {
        dec_rep(i as nat)
    }
}

/// A number already in canonical form: no superfluous leading zero and no
/// negative zero.
pub open spec fn canonical_text(t: Seq<char>) -> bool {
    &&& valid_number(t)
    &&& (if t[0] == '-' {
        t[1] != '0'
    } else {
        t.len() == 1 || t[0] != '0'
    })
}

pub proof fn lemma_pow10_pos(n: nat)
    ensures
        pow10(n) >= 1,
    decreases n,
{
    if n > 0 {
        lemma_pow10_pos((n - 1) as nat);
    }
}

/// One chunk's worth of decimal digits spans exactly the chunk radix.
pub proof fn lemma_pow10_chunk()
    ensures
        pow10(18) == BASE as nat,
{
    reveal_with_fuel(pow10, 20);
}

pub proof fn lemma_pow10_add(m: nat, n: nat)
    ensures
        pow10(m + n) == pow10(m) * pow10(n),
    decreases m,
{
    if m == 0 {
        assert(1 * pow10(n) == pow10(n));
    } else {
        lemma_pow10_add((m - 1) as nat, n);
        assert(pow10((m + n - 1) as nat) == pow10((m - 1) as nat) * pow10(n));
        assert(pow10(m + n) == 10 * pow10((m + n - 1) as nat));
        assert(10 * (pow10((m - 1) as nat) * pow10(n)) == (10 * pow10((m - 1) as nat)) * pow10(n))
            by (nonlinear_arith);
    }
}

pub proof fn lemma_pow10_mono(m: nat, n: nat)
    requires
        m <= n,
    ensures
        pow10(m) <= pow10(n),
{
    lemma_pow10_add(m, (n - m) as nat);
    lemma_pow10_pos((n - m) as nat);
    assert(pow10(m) * 1 <= pow10(m) * pow10((n - m) as nat)) by (nonlinear_arith)
        requires
            1 <= pow10((n - m) as nat),
    ;
    assert(pow10(m) * 1 == pow10(m));
}

/// `18 * k` decimal digits weigh exactly `k` chunks.
pub proof fn lemma_pow10_chunks(k: nat)
    ensures
        pow10(18 * k) == pow_base(k),
    decreases k,
{
    if k == 0 {
    } else {
        lemma_pow10_chunks((k - 1) as nat);
        lemma_pow10_add(18, (18 * k - 18) as nat);
        lemma_pow10_chunk();
        assert(18 * k == 18 + 18 * (k - 1));
        assert(pow_base(k) == (BASE as nat) * pow_base((k - 1) as nat));
    }
}

/// Concatenating digit strings concatenates their values positionally.
pub proof fn lemma_digits_val_concat(u: Seq<char>, w: Seq<char>)
    ensures
        digits_val(u + w) == digits_val(u) * pow10(w.len()) + digits_val(w),
    decreases w.len(),
{
    if w.len() == 0 {
        assert(u + w =~= u);
        assert(digits_val(u) * 1 == digits_val(u));
    } else {
        let w0 = w.drop_last();
        let c = w.last();
        assert((u + w).drop_last() =~= u + w0);
        assert((u + w).last() == c);
        assert((u + w).len() > 0);
        assert(digits_val(u + w) == digits_val(u + w0) * 10 + digit_of(c));
        lemma_digits_val_concat(u, w0);
        let dv = digits_val(u);
        let p0 = pow10(w0.len());
        assert((dv * p0 + digits_val(w0)) * 10 == dv * (10 * p0) + digits_val(w0) * 10)
            by (nonlinear_arith);
        assert(pow10(w.len()) == 10 * p0);
    }
}

/// A digit string of length `n` names a value below `pow10(n)`.
pub proof fn lemma_digits_val_upper(w: Seq<char>)
    requires
        all_digits(w),
    ensures
        digits_val(w) < pow10(w.len()),
    decreases w.len(),
{
    if w.len() == 0 {
    } else {
        let w0 = w.drop_last();
        assert(all_digits(w0)) by {
            assert(forall|i: int| 0 <= i < w0.len() ==> w0[i] == w[i]);
        }
        lemma_digits_val_upper(w0);
        assert(digit_of(w.last()) <= 9);
        let p0 = pow10(w0.len());
        assert(digits_val(w0) * 10 <= (p0 - 1) * 10) by (nonlinear_arith)
            requires
                digits_val(w0) <= p0 - 1,
        ;
        assert(pow10(w.len()) == 10 * p0);
    }
}

/// A digit string that does not start with zero names a positive value.
pub proof fn lemma_digits_val_lower(w: Seq<char>)
    requires
        all_digits(w),
        w.len() >= 1,
        w[0] != '0',
    ensures
        digits_val(w) >= 1,
    decreases w.len(),
{
    if w.len() == 1 {
        assert(w.drop_last().len() == 0);
        assert(digits_val(w) == digits_val(w.drop_last()) * 10 + digit_of(w.last()));
        assert(digits_val(w.drop_last()) == 0);
        assert(w.last() == w[0]);
        assert(digit_of(w[0]) >= 1);
    } else {
        let w0 = w.drop_last();
        assert(all_digits(w0)) by {
            assert(forall|i: int| 0 <= i < w0.len() ==> w0[i] == w[i]);
        }
        assert(w0[0] == w[0]);
        lemma_digits_val_lower(w0);
        assert(digits_val(w0) * 10 >= 10) by (nonlinear_arith)
            requires
                digits_val(w0) >= 1,
        ;
    }
}

/// An all-zero digit string names zero.
pub proof fn lemma_digits_val_zeros(w: Seq<char>)
    requires
        forall|i: int| 0 <= i < w.len() ==> w[i] == '0',
    ensures
        digits_val(w) == 0,
    decreases w.len(),
{
    if w.len() > 0 {
        let w0 = w.drop_last();
        assert(forall|i: int| 0 <= i < w0.len() ==> w0[i] == w[i]);
        lemma_digits_val_zeros(w0);
        assert(digit_of(w.last()) == 0);
    }
}

/// A digit character survives the trip through its value.
pub proof fn lemma_char_digit_roundtrip(c: char)
    requires
        is_digit_char(c),
    ensures
        digit_char(digit_of(c)) == c,
{
}

/// Rendering the value of a canonical digit string gives the string back.
pub proof fn lemma_dec_rep_digits(w: Seq<char>)
    requires
        all_digits(w),
        w.len() >= 1,
        w.len() == 1 || w[0] != '0',
    ensures
        dec_rep(digits_val(w)) == w,
    decreases w.len(),
{
    if w.len() == 1 {
        assert(digits_val(w.drop_last()) == 0);
        assert(digits_val(w) == digit_of(w.last()));
        assert(digit_of(w[0]) < 10);
        lemma_char_digit_roundtrip(w[0]);
        assert(dec_rep(digits_val(w)) =~= w);
    } else {
        let w0 = w.drop_last();
        let d = digit_of(w.last());
        assert(all_digits(w0)) by {
            assert(forall|i: int| 0 <= i < w0.len() ==> w0[i] == w[i]);
        }
        assert(w0[0] == w[0]);
        lemma_digits_val_lower(w0);
        let n = digits_val(w);
        assert(n == digits_val(w0) * 10 + d);
        assert(n >= 10) by (nonlinear_arith)
            requires
                n == digits_val(w0) * 10 + d,
                digits_val(w0) >= 1,
                d >= 0,
        ;
        lemma_fundamental_div_mod_converse(n as int, 10, digits_val(w0) as int, d as int);
        assert(n / 10 == digits_val(w0));
        assert(n % 10 == d);
        lemma_dec_rep_digits(w0);
        lemma_char_digit_roundtrip(w.last());
        assert(dec_rep(n) == dec_rep(n / 10).push(digit_char(n % 10)));
        assert(dec_rep(n) =~= w);
    }
}

/// Rendering `a` followed by `w` zero-padded digits of `b` renders
/// `a * pow10(w) + b`: the padding preserves place value across the seam.
pub proof fn lemma_dec_rep_append_padded(a: nat, b: nat, w: nat)
    requires
        a >= 1,
        b < pow10(w),
    ensures
        dec_rep(a * pow10(w) + b) == dec_rep(a) + padded_digits(b, w),
    decreases w,
{
    if w == 0 {
        assert(b == 0);
        assert(a * 1 == a);
        assert(dec_rep(a) + padded_digits(b, 0) =~= dec_rep(a));
    } else {
        let pw = pow10(w);
        let pw0 = pow10((w - 1) as nat);
        let n = a * pw + b;
        lemma_fundamental_div_mod(b as int, 10);
        assert(pw == 10 * pw0);
        assert(n as int == 10 * ((a * pw0 + b / 10) as int) + (b % 10) as int) by (nonlinear_arith)
            requires
                n == a * pw + b,
                pw == 10 * pw0,
                b as int == 10 * ((b / 10) as int) + (b % 10) as int,
        ;
        assert(0 <= ((b % 10) as int) && ((b % 10) as int) < 10);
        lemma_fundamental_div_mod_converse(
            n as int,
            10,
            (a * pw0 + b / 10) as int,
            (b % 10) as int,
        );
        assert(n / 10 == a * pw0 + b / 10);
        assert(n % 10 == b % 10);
        assert(b / 10 < pw0) by (nonlinear_arith)
            requires
                b < 10 * pw0,
                b as int == 10 * ((b / 10) as int) + (b % 10) as int,
                (b % 10) as int >= 0,
        ;
        lemma_pow10_pos((w - 1) as nat);
        assert(a * pw0 >= 1) by (nonlinear_arith)
            requires
                a >= 1,
                pw0 >= 1,
        ;
        assert(n >= 10) by (nonlinear_arith)
            requires
                n as int == 10 * ((a * pw0 + b / 10) as int) + (b % 10) as int,
                a * pw0 + b / 10 >= 1,
                (b % 10) as int >= 0,
        ;
        lemma_dec_rep_append_padded(a, b / 10, (w - 1) as nat);
        assert(dec_rep(n) == dec_rep(n / 10).push(digit_char(n % 10)));
        assert(padded_digits(b, w) == padded_digits(b / 10, (w - 1) as nat).push(
            digit_char(b % 10),
        ));
        assert((dec_rep(a) + padded_digits(b / 10, (w - 1) as nat)).push(digit_char(b % 10))
            =~= dec_rep(a) + padded_digits(b / 10, (w - 1) as nat).push(digit_char(b % 10)));
    }
}

/// The canonical digits of a value are digits, nonempty, and free of leading
/// zeros.
pub proof fn lemma_dec_rep_canonical(n: nat)
    ensures
        all_digits(dec_rep(n)),
        dec_rep(n).len() >= 1,
        n >= 1 ==> dec_rep(n)[0] != '0',
        n == 0 ==> dec_rep(n) == seq!['0'],
    decreases n,
{
    if n < 10 {
        assert(dec_rep(n) =~= seq![digit_char(n)]);
        if n == 0 {
            assert(dec_rep(n) =~= seq!['0']);
        }
    } else {
        lemma_dec_rep_canonical(n / 10);
        let lo = dec_rep(n / 10);
        let w = dec_rep(n);
        assert(w == lo.push(digit_char(n % 10)));
        assert(n / 10 >= 1);
        assert(w[0] == lo[0]);
        assert forall|i: int| 0 <= i < w.len() implies is_digit_char(w[i]) by {
            if i < lo.len() {
                assert(w[i] == lo[i]);
            } else {
                assert(w[i] == digit_char(n % 10));
            }
        }
    }
}

/// Whatever value is rendered, the rendering is a canonical number: no
/// superfluous leading zero and no negative zero.
pub proof fn lemma_rendered_text_canonical(i: int)
    ensures
        canonical_text(text_of_int(i)),
{
    if i < 0 {
        lemma_dec_rep_canonical((-i) as nat);
        let t = seq!['-'] + dec_rep((-i) as nat);
        assert(t[0] == '-');
        assert(t.len() >= 2);
        assert(t.skip(1) =~= dec_rep((-i) as nat));
        assert(t[1] == dec_rep((-i) as nat)[0]);
        assert(all_digits(t.skip(1)));
        assert(valid_number(t));
    } else {
        lemma_dec_rep_canonical(i as nat);
        let t = dec_rep(i as nat);
        assert(!is_digit_char('-'));
        assert(t[0] != '-');
        assert(valid_number(t));
        if i >= 1 {
            assert(t[0] != '0');
        }
    }
}

/// Round trip: a number already in canonical form renders, after parsing,
/// back to exactly itself.
pub proof fn lemma_text_round_trip(t: Seq<char>)
    requires
        canonical_text(t),
    ensures
        text_of_int(text_int(t)) == t,
{
    if t[0] == '-' {
        let w = t.skip(1);
        assert(w.len() >= 1);
        assert(w[0] == t[1]);
        lemma_digits_val_lower(w);
        assert(text_int(t) == -(digits_val(w) as int));
        assert(text_int(t) < 0);
        lemma_dec_rep_digits(w);
        assert(text_of_int(text_int(t)) == seq!['-'] + w);
        assert(seq!['-'] + w =~= t);
    } else {
        assert(text_int(t) == digits_val(t) as int);
        lemma_dec_rep_digits(t);
    }
}

} // verus!
