use vstd::prelude::*;
use vstd::arithmetic::div_mod::{lemma_fundamental_div_mod, lemma_mod_breakdown, lemma_small_mod};
use vstd::string::StringExecFns;

verus! {

/// The character for one decimal digit.
pub open spec fn digit_char(d: nat) -> char {
    if d == 0 {
        '0'
    } else if d == 1 {
        '1'
    } else if d == 2 {
        '2'
    } else if d == 3 {
        '3'
    } else if d == 4 {
        '4'
    } else if d == 5 {
        '5'
    } else if d == 6 {
        '6'
    } else if d == 7 {
        '7'
    } else if d == 8 {
        '8'
    } else {
        '9'
    }
}

pub open spec fn is_digit_char(c: char) -> bool {
    c == '0' || c == '1' || c == '2' || c == '3' || c == '4' || c == '5' || c == '6' || c == '7'
        || c == '8' || c == '9'
}

/// Numeric value of a digit character.
pub open spec fn digit_val(c: char) -> nat {
    if c == '0' {
        0
    } else if c == '1' {
        1
    } else if c == '2' {
        2
    } else if c == '3' {
        3
    } else if c == '4' {
        4
    } else if c == '5' {
        5
    } else if c == '6' {
        6
    } else if c == '7' {
        7
    } else if c == '8' {
        8
    } else {
        9
    }
}

/// Decimal representation of `n`, most significant digit first, no
/// leading zeros (a lone zero for `n == 0`).
pub open spec fn dec_rep(n: nat) -> Seq<char>
    decreases n,
{
    if n < 10 {
        seq![digit_char(n)]
    } else {
        dec_rep(n / 10).push(digit_char(n % 10))
    }
}

/// `n` modulo 10^w written in exactly `w` digits, zero padded.
pub open spec fn pad_rep(n: nat, w: nat) -> Seq<char>
    decreases w,
{
    if w == 0 {
        Seq::empty()
    } else {
        pad_rep(n / 10, (w - 1) as nat).push(digit_char(n % 10))
    }
}

/// The `w`-digit representation of `n` with trailing zeros removed.
pub open spec fn trimmed_rep(n: nat, w: nat) -> Seq<char>
    decreases w,
{
    if w == 0 {
        Seq::empty()
    } else if n % 10 == 0 {
        trimmed_rep(n / 10, (w - 1) as nat)
    } else {
        pad_rep(n, w)
    }
}

/// Value of a digit string read most significant digit first.
pub open spec fn digits_val(t: Seq<char>) -> nat
    decreases t.len(),
{
    if t.len() == 0 {
        0
    } else {
        digits_val(t.drop_last()) * 10 + digit_val(t.last())
    }
}

pub open spec fn all_digits(t: Seq<char>) -> bool {
    forall|i: int| 0 <= i < t.len() ==> is_digit_char(#[trigger] t[i])
}

/// 10^k.
pub open spec fn p10(k: nat) -> nat
    decreases k,
{
    if k == 0 {
        1
    } else {
        10 * p10((k - 1) as nat)
    }
}

pub proof fn lemma_p10_pos(k: nat)
    ensures
        p10(k) >= 1,
    decreases k,
{
    if k > 0 {
        lemma_p10_pos((k - 1) as nat);
    }
}

pub proof fn lemma_p10_table()
    ensures
        p10(0) == 1,
        p10(1) == 10,
        p10(2) == 100,
        p10(3) == 1000,
        p10(4) == 10000,
        p10(5) == 100000,
        p10(6) == 1000000,
{
    assert(p10(0) == 1);
    assert(p10(1) == 10);
    assert(p10(2) == 100);
    assert(p10(3) == 1000);
    assert(p10(4) == 10000);
    assert(p10(5) == 100000);
    assert(p10(6) == 1000000);
}

pub proof fn lemma_p10_mono(a: nat, b: nat)
    requires
        a <= b,
    ensures
        p10(a) <= p10(b),
    decreases b,
{
    if a < b {
        lemma_p10_mono(a, (b - 1) as nat);
        lemma_p10_pos((b - 1) as nat);
    }
}

pub proof fn lemma_p10_add(a: nat, b: nat)
    ensures
        p10(a) * p10(b) == p10((a + b) as nat),
    decreases a,
{
    if a == 0 {
        assert(p10(0) == 1);
        assert(1 * p10(b) == p10(b));
    } else {
        lemma_p10_add((a - 1) as nat, b);
        assert((10 * p10((a - 1) as nat)) * p10(b) == 10 * (p10((a - 1) as nat) * p10(
            b,
        ))) by (nonlinear_arith);
        assert(((a - 1) as nat + b) as nat + 1 == (a + b) as nat);
        assert(p10((a + b) as nat) == 10 * p10((((a + b) as nat) - 1) as nat));
    }
}

pub proof fn lemma_digit_char_val(d: nat)
    requires
        d < 10,
    ensures
        is_digit_char(digit_char(d)),
        digit_val(digit_char(d)) == d,
{
}

pub proof fn lemma_dec_rep_digits(n: nat)
    ensures
        all_digits(dec_rep(n)),
        dec_rep(n).len() >= 1,
    decreases n,
{
    if n < 10 {
        lemma_digit_char_val(n);
    } else {
        lemma_dec_rep_digits(n / 10);
        lemma_digit_char_val(n % 10);
        assert(dec_rep(n) == dec_rep(n / 10).push(digit_char(n % 10)));
        assert forall|i: int| 0 <= i < dec_rep(n).len() implies is_digit_char(
            #[trigger] dec_rep(n)[i],
        ) by {
            if i < dec_rep(n / 10).len() {
                assert(dec_rep(n)[i] == dec_rep(n / 10)[i]);
            }
        }
    }
}

pub proof fn lemma_dec_rep_val(n: nat)
    ensures
        digits_val(dec_rep(n)) == n,
    decreases n,
{
    if n < 10 {
        lemma_digit_char_val(n);
        let t = dec_rep(n);
        assert(t =~= seq![digit_char(n)]);
        assert(t.len() == 1);
        assert(t.last() == digit_char(n));
        assert(t.drop_last() =~= Seq::<char>::empty());
        assert(digits_val(t.drop_last()) == 0);
        assert(digits_val(t) == digits_val(t.drop_last()) * 10 + digit_val(t.last()));
        assert(digits_val(t) == n);
    } else {
        lemma_dec_rep_val(n / 10);
        lemma_digit_char_val(n % 10);
        let t = dec_rep(n);
        assert(t == dec_rep(n / 10).push(digit_char(n % 10)));
        assert(t.last() == digit_char(n % 10));
        assert(t.drop_last() =~= dec_rep(n / 10));
        assert(digits_val(t) == digits_val(dec_rep(n / 10)) * 10 + digit_val(digit_char(n % 10)));
        assert(digits_val(t) == (n / 10) * 10 + (n % 10));
        lemma_fundamental_div_mod(n as int, 10);
        assert(n == 10 * (n / 10) + (n % 10));
    }
}

pub proof fn lemma_pad_rep_len_digits(n: nat, w: nat)
    ensures
        pad_rep(n, w).len() == w,
        all_digits(pad_rep(n, w)),
    decreases w,
{
    if w > 0 {
        lemma_pad_rep_len_digits(n / 10, (w - 1) as nat);
        lemma_digit_char_val(n % 10);
        assert forall|i: int| 0 <= i < pad_rep(n, w).len() implies is_digit_char(
            #[trigger] pad_rep(n, w)[i],
        ) by {
            if i < pad_rep(n / 10, (w - 1) as nat).len() {
                assert(pad_rep(n, w)[i] == pad_rep(n / 10, (w - 1) as nat)[i]);
            }
        }
    }
}

pub proof fn lemma_pad_rep_val(n: nat, w: nat)
    ensures
        digits_val(pad_rep(n, w)) == n % p10(w),
    decreases w,
{
    if w == 0 {
        assert(n % 1 == 0) by {
            lemma_fundamental_div_mod(n as int, 1);
        }
    } else {
        lemma_pad_rep_val(n / 10, (w - 1) as nat);
        lemma_digit_char_val(n % 10);
        assert(pad_rep(n, w).drop_last() =~= pad_rep(n / 10, (w - 1) as nat));
        lemma_p10_pos((w - 1) as nat);
        lemma_mod_breakdown(n as int, 10, p10((w - 1) as nat) as int);
    }
}

/// A digit string of width `w` names a value below 10^w.
pub proof fn lemma_digits_val_bound(t: Seq<char>)
    requires
        all_digits(t),
    ensures
        digits_val(t) < p10(t.len()),
    decreases t.len(),
{
    if t.len() > 0 {
        assert(all_digits(t.drop_last())) by {
            assert(forall|i: int|
                0 <= i < t.drop_last().len() ==> #[trigger] t.drop_last()[i] == t[i]);
        }
        lemma_digits_val_bound(t.drop_last());
        assert(digit_val(t.last()) <= 9);
    }
}

/// Reading only a prefix of a digit string never reads a larger value.
pub proof fn lemma_digits_val_prefix_le(t: Seq<char>, i: int)
    requires
        0 <= i <= t.len(),
    ensures
        digits_val(t.take(i)) <= digits_val(t),
    decreases t.len() - i,
{
    if i == t.len() {
        assert(t.take(i) =~= t);
    } else {
        lemma_digits_val_prefix_le(t.drop_last(), i);
        assert(t.drop_last().take(i) =~= t.take(i));
    }
}

/// What the trimmed representation of a fraction denotes: scaling its
/// digit value back by the dropped width recovers the fraction.
pub proof fn lemma_trimmed_rep_val(n: nat, w: nat)
    requires
        0 < n,
        n < p10(w),
    ensures
        all_digits(trimmed_rep(n, w)),
        1 <= trimmed_rep(n, w).len() <= w,
        digits_val(trimmed_rep(n, w)) * p10((w - trimmed_rep(n, w).len()) as nat) == n,
    decreases w,
{
    if w == 0 {
        assert(false);
    } else if n % 10 == 0 {
        lemma_fundamental_div_mod(n as int, 10);
        assert(n == 10 * (n / 10));
        assert(n / 10 >= 1);
        assert(n / 10 < p10((w - 1) as nat)) by {
            if n / 10 >= p10((w - 1) as nat) {
                assert(n >= 10 * p10((w - 1) as nat));
            }
        }
        lemma_trimmed_rep_val(n / 10, (w - 1) as nat);
        let tr = trimmed_rep(n / 10, (w - 1) as nat);
        assert(trimmed_rep(n, w) == tr);
        assert(tr.len() <= w - 1);
        assert(digits_val(tr) * p10((w - 1 - tr.len()) as nat) == n / 10);
        assert((w - tr.len()) as nat == ((w - 1 - tr.len()) as nat + 1) as nat);
        assert(p10(((w - 1 - tr.len()) as nat + 1) as nat) == 10 * p10((w - 1 - tr.len()) as nat));
        assert(p10((w - tr.len()) as nat) == 10 * p10((w - 1 - tr.len()) as nat));
        assert(digits_val(tr) * (10 * p10((w - 1 - tr.len()) as nat)) == 10 * (digits_val(tr)
            * p10((w - 1 - tr.len()) as nat))) by (nonlinear_arith);
        assert(digits_val(tr) * p10((w - tr.len()) as nat) == 10 * (n / 10));
        assert(digits_val(tr) * p10((w - tr.len()) as nat) == n);
    } else {
        lemma_pad_rep_len_digits(n, w);
        lemma_pad_rep_val(n, w);
        lemma_p10_pos(w);
        lemma_small_mod(n, p10(w));
        assert(trimmed_rep(n, w) == pad_rep(n, w));
        assert(digits_val(pad_rep(n, w)) == n);
        assert((w - pad_rep(n, w).len()) as nat == 0);
        assert(p10(0) == 1);
        assert(digits_val(pad_rep(n, w)) * 1 == n);
    }
}

/// The numeric value of a digit character, if it is one.
pub(crate) fn digit_of(c: char) -> (r: Option<u64>)
    ensures
        is_digit_char(c) ==> r == Some(digit_val(c) as u64),
        !is_digit_char(c) ==> r is None,
{
    if c == '0' {
        Some(0)
    } else if c == '1' {
        Some(1)
    } else if c == '2' {
        Some(2)
    } else if c == '3' {
        Some(3)
    } else if c == '4' {
        Some(4)
    } else if c == '5' {
        Some(5)
    } else if c == '6' {
        Some(6)
    } else if c == '7' {
        Some(7)
    } else if c == '8' {
        Some(8)
    } else if c == '9' {
        Some(9)
    } else {
        None
    }
}

/// Exponentiates ten to a small power.
pub(crate) fn pow10_small(k: u64) -> (r: u64)
    requires
        k <= 6,
    ensures
        r as nat == p10(k as nat),
{
    proof {
        lemma_p10_table();
    }
    if k == 0 {
        1
    } else if k == 1 {
        10
    } else if k == 2 {
        100
    } else if k == 3 {
        1000
    } else if k == 4 {
        10000
    } else if k == 5 {
        100000
    } else {
        1000000
    }
}

/// The one-character string for a decimal digit.
pub(crate) fn digit_str(d: u64) -> (r: &'static str)
    requires
        d < 10,
    ensures
        r@ == seq![digit_char(d as nat)],
{
    let r: &'static str = if d == 0 {
        "0"
    } else if d == 1 {
        "1"
    } else if d == 2 {
        "2"
    } else if d == 3 {
        "3"
    } else if d == 4 {
        "4"
    } else if d == 5 {
        "5"
    } else if d == 6 {
        "6"
    } else if d == 7 {
        "7"
    } else if d == 8 {
        "8"
    } else {
        "9"
    };
    proof {
        reveal_strlit("0");
        reveal_strlit("1");
        reveal_strlit("2");
        reveal_strlit("3");
        reveal_strlit("4");
        reveal_strlit("5");
        reveal_strlit("6");
        reveal_strlit("7");
        reveal_strlit("8");
        reveal_strlit("9");
        assert(r@ =~= seq![digit_char(d as nat)]);
    }
    r
}

/// Appends the decimal representation of `n`.
pub(crate) fn push_digits(out: &mut String, n: u64)
    ensures
        final(out)@ == old(out)@ + dec_rep(n as nat),
    decreases n,
{
    if n >= 10 {
        push_digits(out, n / 10);
    }
    let s = digit_str(n % 10);
    out.append(s);
    proof {
        if n < 10 {
            lemma_small_mod(n as nat, 10);
            assert(final(out)@ =~= old(out)@ + dec_rep(n as nat));
        } else {
            assert(final(out)@ =~= old(out)@ + dec_rep(n as nat));
        }
    }
}

/// Appends exactly `w` digits: `n` modulo 10^w, zero padded.
pub(crate) fn push_pad(out: &mut String, n: u64, w: u64)
    ensures
        final(out)@ == old(out)@ + pad_rep(n as nat, w as nat),
    decreases w,
{
    if w > 0 {
        push_pad(out, n / 10, w - 1);
        let s = digit_str(n % 10);
        out.append(s);
        proof {
            assert(final(out)@ =~= old(out)@ + pad_rep(n as nat, w as nat));
        }
    } else {
        proof {
            assert(old(out)@ + pad_rep(n as nat, 0) =~= old(out)@);
        }
    }
}

/// Appends the `w`-digit representation of `n` with trailing zeros
/// removed.
pub(crate) fn push_trimmed(out: &mut String, n: u64, w: u64)
    ensures
        final(out)@ == old(out)@ + trimmed_rep(n as nat, w as nat),
    decreases w,
{
    if w == 0 {
        proof {
            assert(old(out)@ + trimmed_rep(n as nat, 0) =~= old(out)@);
        }
    } else if n % 10 == 0 {
        push_trimmed(out, n / 10, w - 1);
    } else {
        push_pad(out, n, w);
    }
}

} // verus!
