//! Exact arithmetic on numbers written as strings of decimal digits, and on
//! decimals through them.
use vstd::prelude::*;

use super::number::{
    all_digits, canonical_frac, canonical_int, char_digit, copy_chars, digit_char, digit_to_char,
    digit_value, digits_value, is_digit, lemma_digits_value_grows, lemma_digits_value_nonneg,
    lemma_strip_leading, lemma_strip_trailing, nat_digits, strip_leading, strip_leading_zeros,
    strip_trailing, strip_trailing_zeros, u64_digits, Decimal,
};

verus! {

/// Ten to the power `n`.
pub open spec fn pow10(n: nat) -> nat
    decreases n,
{
    if n == 0 {
        1
    } else {
        10 * pow10((n - 1) as nat)
    }
}

/// `n` zero digits.
pub open spec fn zeros(n: nat) -> Seq<char> {
    Seq::new(n, |i: int| '0')
}

/// The `f` lowest digits of `v`, zeros in front.
pub open spec fn fixed_digits(v: nat, f: nat) -> Seq<char>
    decreases f,
{
    if f == 0 {
        Seq::empty()
    } else {
        fixed_digits(v / 10, (f - 1) as nat).push(digit_char((v % 10) as int))
    }
}

/// The number of a decimal, multiplied by `10^f` (`f` at least the number
/// of its digits after the point).
pub open spec fn scaled_value(d: (Seq<char>, Seq<char>), f: nat) -> int {
    digits_value(d.0) * pow10(f) + digits_value(d.1) * pow10((f - d.1.len()) as nat)
}

/// The canonical decimal whose number, multiplied by `10^f`, is `s`.
pub open spec fn decimal_of_scaled(s: nat, f: nat) -> (Seq<char>, Seq<char>) {
    (nat_digits(s / pow10(f)), strip_trailing_zeros(fixed_digits(s % pow10(f), f)))
}

pub proof fn lemma_pow10_pos(n: nat)
    ensures
        pow10(n) >= 1,
    decreases n,
{
    if n > 0 {
        lemma_pow10_pos((n - 1) as nat);
    }
}

pub proof fn lemma_pow10_add(a: nat, b: nat)
    ensures
        pow10(a + b) == pow10(a) * pow10(b),
    decreases b,
{
    if b == 0 {
        assert(a + b == a);
        assert(pow10(b) == 1);
    } else {
        lemma_pow10_add(a, (b - 1) as nat);
        assert((a + b - 1) as nat == a + (b - 1) as nat);
        assert(pow10(a + b) == 10 * pow10((a + b - 1) as nat));
        assert(pow10(b) == 10 * pow10((b - 1) as nat));
        let x = pow10(a);
        let y = pow10((b - 1) as nat);
        assert(pow10(a + (b - 1) as nat) == x * y);
        assert(10 * (x * y) == x * (10 * y)) by (nonlinear_arith);
        assert(pow10(a + b) == x * pow10(b));
    }
}

proof fn lemma_digit_char_value(c: char)
    requires
        is_digit(c),
    ensures
        digit_char(digit_value(c)) == c,
{
}

proof fn lemma_digit_value_char(d: int)
    requires
        0 <= d < 10,
    ensures
        digit_value(digit_char(d)) == d,
        is_digit(digit_char(d)),
{
}

/// The digits of `a` then `b` write `a`'s number shifted past `b`'s digits,
/// plus `b`'s.
pub proof fn lemma_digits_value_append(a: Seq<char>, b: Seq<char>)
    ensures
        digits_value(a + b) == digits_value(a) * pow10(b.len()) + digits_value(b),
    decreases b.len(),
{
    if b.len() == 0 {
        assert(a + b =~= a);
        assert(b =~= Seq::<char>::empty());
        assert(digits_value(b) == 0);
        assert(pow10(b.len()) == 1);
    } else {
        let b1 = b.drop_last();
        lemma_digits_value_append(a, b1);
        assert((a + b).drop_last() =~= a + b1);
        assert((a + b).last() == b.last());
        let x = digits_value(a);
        let p = pow10(b1.len());
        let y = digits_value(b1);
        assert(digits_value(a + b) == digits_value((a + b).drop_last()) * 10 + digit_value((a + b).last()));
        assert(digits_value(b) == y * 10 + digit_value(b.last()));
        assert(pow10(b.len()) == 10 * p);
        assert((x * p + y) * 10 == x * (10 * p) + y * 10) by (nonlinear_arith);
        assert(digits_value(a + b1) == x * p + y);
    }
}

/// A digit in front adds its value times the place.
proof fn lemma_digits_value_prepend(c: char, s: Seq<char>)
    ensures
        digits_value(seq![c] + s) == digit_value(c) * pow10(s.len()) + digits_value(s),
{
    lemma_digits_value_append(seq![c], s);
    assert(seq![c].drop_last() =~= Seq::<char>::empty());
    assert(digits_value(Seq::<char>::empty()) == 0);
    assert(digits_value(seq![c]) == digits_value(seq![c].drop_last()) * 10 + digit_value(seq![c].last()));
}

pub proof fn lemma_digits_value_bound(s: Seq<char>)
    requires
        all_digits(s),
    ensures
        0 <= digits_value(s) < pow10(s.len()),
    decreases s.len(),
{
    if s.len() > 0 {
        let t = s.drop_last();
        assert(all_digits(t)) by {
            assert forall|i: int| 0 <= i < t.len() implies is_digit(#[trigger] t[i]) by {
                assert(t[i] == s[i]);
            }
        }
        lemma_digits_value_bound(t);
        assert(is_digit(s[s.len() - 1]));
    }
}

proof fn lemma_zeros_value(n: nat)
    ensures
        digits_value(zeros(n)) == 0,
        all_digits(zeros(n)),
    decreases n,
{
    if n > 0 {
        lemma_zeros_value((n - 1) as nat);
        assert(zeros(n).drop_last() =~= zeros((n - 1) as nat));
    }
}

/// Zeros in front change nothing.
proof fn lemma_zeros_in_front(n: nat, s: Seq<char>)
    ensures
        digits_value(zeros(n) + s) == digits_value(s),
{
    lemma_digits_value_append(zeros(n), s);
    lemma_zeros_value(n);
}

/// Zeros behind multiply by ten for each.
proof fn lemma_zeros_behind(s: Seq<char>, n: nat)
    ensures
        digits_value(s + zeros(n)) == digits_value(s) * pow10(n),
{
    lemma_digits_value_append(s, zeros(n));
    lemma_zeros_value(n);
}

pub proof fn lemma_nat_digits_value(n: nat)
    ensures
        digits_value(nat_digits(n)) == n,
        all_digits(nat_digits(n)),
    decreases n,
{
    if n < 10 {
        lemma_digit_value_char(n as int);
        let s = nat_digits(n);
        assert(s == seq![digit_char(n as int)]);
        assert(s.drop_last() =~= Seq::<char>::empty());
        assert(digits_value(Seq::<char>::empty()) == 0);
        assert(digits_value(s) == digits_value(s.drop_last()) * 10 + digit_value(s.last()));
        assert(all_digits(s)) by {
            assert forall|i: int| 0 <= i < s.len() implies is_digit(#[trigger] s[i]) by {
                assert(i == 0);
            }
        }
    } else {
        lemma_nat_digits_value(n / 10);
        lemma_digit_value_char((n % 10) as int);
        let s = nat_digits(n);
        assert(s == nat_digits(n / 10).push(digit_char((n % 10) as int)));
        assert(s.drop_last() =~= nat_digits(n / 10));
        assert(digits_value(s) == digits_value(s.drop_last()) * 10 + digit_value(s.last()));
        assert(all_digits(nat_digits(n))) by {
            let s = nat_digits(n);
            assert forall|i: int| 0 <= i < s.len() implies is_digit(#[trigger] s[i]) by {
                if i < s.len() - 1 {
                    assert(s[i] == nat_digits(n / 10)[i]);
                }
            }
        }
    }
}

/// Digits of a given length write their number in exactly one way.
proof fn lemma_fixed_unique(x: Seq<char>)
    requires
        all_digits(x),
    ensures
        x == fixed_digits(digits_value(x) as nat, x.len()),
    decreases x.len(),
{
    if x.len() > 0 {
        let y = x.drop_last();
        assert(all_digits(y)) by {
            assert forall|i: int| 0 <= i < y.len() implies is_digit(#[trigger] y[i]) by {
                assert(y[i] == x[i]);
            }
        }
        lemma_fixed_unique(y);
        lemma_digits_value_nonneg(y);
        let c = x[x.len() - 1];
        assert(is_digit(c));
        lemma_digit_char_value(c);
        let v = digits_value(x);
        assert(v == digits_value(y) * 10 + digit_value(c));
        assert(v / 10 == digits_value(y));
        assert(v % 10 == digit_value(c));
        assert(x =~= y.push(c));
    }
}

proof fn lemma_leading_nonzero(y: Seq<char>)
    requires
        all_digits(y),
        y.len() > 0,
        y[0] != '0',
    ensures
        digits_value(y) >= 1,
{
    lemma_digits_value_grows(y, 1);
    let t = y.take(1);
    assert(t.drop_last() =~= Seq::<char>::empty());
    assert(t.last() == y[0]);
    assert(is_digit(y[0]));
    assert(digits_value(Seq::<char>::empty()) == 0);
    assert(digits_value(t) == digits_value(t.drop_last()) * 10 + digit_value(t.last()));
}

/// A canonical string of digits is the one its number writes.
proof fn lemma_canonical_unique(x: Seq<char>)
    requires
        canonical_int(x),
    ensures
        x == nat_digits(digits_value(x) as nat),
    decreases x.len(),
{
    lemma_digits_value_nonneg(x);
    let c = x[x.len() - 1];
    assert(is_digit(c));
    lemma_digit_char_value(c);
    if x.len() == 1 {
        assert(x.drop_last() =~= Seq::<char>::empty());
        assert(digits_value(Seq::<char>::empty()) == 0);
        assert(digits_value(x) == digit_value(c));
        assert(x =~= seq![c]);
        assert(nat_digits(digits_value(x) as nat) == seq![digit_char(digit_value(c))]);
    } else {
        let y = x.drop_last();
        assert(y[0] == x[0]);
        assert(all_digits(y)) by {
            assert forall|i: int| 0 <= i < y.len() implies is_digit(#[trigger] y[i]) by {
                assert(y[i] == x[i]);
            }
        }
        lemma_canonical_unique(y);
        lemma_leading_nonzero(y);
        let v = digits_value(x);
        assert(v == digits_value(y) * 10 + digit_value(c));
        assert(v / 10 == digits_value(y));
        assert(v % 10 == digit_value(c));
        assert(v >= 10);
        assert(nat_digits(v as nat) == nat_digits((v as nat) / 10).push(digit_char(((v as nat) % 10) as int)));
        assert((v as nat) / 10 == digits_value(y) as nat);
        assert(x =~= y.push(c));
    }
}

proof fn lemma_strip_leading_value(s: Seq<char>)
    ensures
        digits_value(strip_leading_zeros(s)) == digits_value(s),
    decreases s.len(),
{
    if s.len() > 1 && s[0] == '0' {
        lemma_strip_leading_value(s.drop_first());
        lemma_digits_value_prepend(s[0], s.drop_first());
        assert(seq![s[0]] + s.drop_first() =~= s);
    }
}


/// `n` zero digits.
fn zero_digits(n: usize) -> (r: Vec<char>)
    ensures
        r@ == zeros(n as nat),
{
    let mut r: Vec<char> = Vec::new();
    let mut i: usize = 0;
    while i < n
        invariant
            i <= n,
            r@ == zeros(i as nat),
        decreases n - i,
    {
        r.push('0');
        i = i + 1;
        assert(r@ =~= zeros(i as nat));
    }
    r
}

/// `x` with zeros in front, up to `n` digits.
fn left_pad(x: &Vec<char>, n: usize) -> (r: Vec<char>)
    requires
        all_digits(x@),
    ensures
        all_digits(r@),
        digits_value(r@) == digits_value(x@),
        r@.len() == if x@.len() < n { n as nat } else { x@.len() },
{
    if x.len() < n {
        let mut r = zero_digits(n - x.len());
        let ghost z = r@;
        let mut rest = copy_chars(x);
        r.append(&mut rest);
        proof {
            lemma_zeros_in_front((n - x@.len()) as nat, x@);
            lemma_zeros_value((n - x@.len()) as nat);
            assert(r@ == z + x@);
            assert(all_digits(r@)) by {
                assert forall|i: int| 0 <= i < r@.len() implies is_digit(#[trigger] r@[i]) by {
                    if i < z.len() {
                        assert(r@[i] == z[i]);
                    } else {
                        assert(r@[i] == x@[i - z.len()]);
                    }
                }
            }
        }
        r
    } else {
        copy_chars(x)
    }
}

/// The digits of the sum of two numbers written in digits.
pub fn add_digits(a: &Vec<char>, b: &Vec<char>) -> (r: Vec<char>)
    requires
        all_digits(a@),
        all_digits(b@),
    ensures
        all_digits(r@),
        digits_value(r@) == digits_value(a@) + digits_value(b@),
{
    let n = if a.len() < b.len() { b.len() } else { a.len() };
    let pa = left_pad(a, n);
    let pb = left_pad(b, n);
    let mut out: Vec<char> = Vec::new();
    let mut carry: u32 = 0;
    let mut k: usize = n;
    assert(pa@.skip(n as int) =~= Seq::<char>::empty());
    assert(pb@.skip(n as int) =~= Seq::<char>::empty());
    assert(digits_value(Seq::<char>::empty()) == 0);
    while k > 0
        invariant
            k <= n,
            pa@.len() == n,
            pb@.len() == n,
            all_digits(pa@),
            all_digits(pb@),
            all_digits(out@),
            out@.len() == n - k,
            carry <= 1,
            digits_value(out@) + carry * pow10((n - k) as nat) == digits_value(pa@.skip(k as int))
                + digits_value(pb@.skip(k as int)),
        decreases k,
    {
        assert(is_digit(pa@[k - 1]));
        assert(is_digit(pb@[k - 1]));
        let x = char_digit(pa[k - 1]);
        let y = char_digit(pb[k - 1]);
        let t = x + y + carry;
        let d = digit_to_char((t % 10) as u64);
        let ghost old_out = out@;
        let ghost p = pow10((n - k) as nat);
        let ghost c0 = carry;
        out.insert(0, d);
        carry = t / 10;
        proof {
            assert(pa@.skip(k - 1) =~= seq![pa@[k - 1]] + pa@.skip(k as int));
            assert(pb@.skip(k - 1) =~= seq![pb@[k - 1]] + pb@.skip(k as int));
            assert(out@ =~= seq![d] + old_out);
            lemma_digits_value_prepend(pa@[k - 1], pa@.skip(k as int));
            lemma_digits_value_prepend(pb@[k - 1], pb@.skip(k as int));
            lemma_digits_value_prepend(d, old_out);
            assert(pa@.skip(k as int).len() == n - k);
            assert(pow10((n - (k - 1)) as nat) == 10 * p);
            let dv = digit_value(d);
            assert(dv + 10 * carry == t);
            assert(dv * p + (10 * carry) * p == (x + y + c0) * p) by (nonlinear_arith)
                requires
                    dv + 10 * carry == x + y + c0,
            ;
            assert((x + y + c0) * p == x * p + y * p + c0 * p) by (nonlinear_arith);
            assert(carry * (10 * p) == (10 * carry) * p) by (nonlinear_arith);
            assert(all_digits(out@)) by {
                assert forall|i: int| 0 <= i < out@.len() implies is_digit(#[trigger] out@[i]) by {
                    if i > 0 {
                        assert(out@[i] == old_out[i - 1]);
                    }
                }
            }
        }
        k = k - 1;
    }
    assert(pa@.skip(0) =~= pa@);
    assert(pb@.skip(0) =~= pb@);
    if carry == 1 {
        let ghost old_out = out@;
        out.insert(0, '1');
        proof {
            assert(out@ =~= seq!['1'] + old_out);
            lemma_digits_value_prepend('1', old_out);
            assert(all_digits(out@)) by {
                assert forall|i: int| 0 <= i < out@.len() implies is_digit(#[trigger] out@[i]) by {
                    if i > 0 {
                        assert(out@[i] == old_out[i - 1]);
                    }
                }
            }
        }
    }
    out
}

/// The digits of `10^f` times a decimal's number: its digits before the
/// point, after it, then zeros up to `f` digits after the point.
pub fn scaled_digits(d: &Decimal, f: usize) -> (r: Vec<char>)
    requires
        d.wf(),
        d@.1.len() <= f,
    ensures
        all_digits(r@),
        digits_value(r@) == scaled_value(d@, f as nat),
{
    proof {
        d.lemma_wf();
    }
    let mut r = copy_chars(d.int_digits());
    let mut frac = copy_chars(d.frac_digits());
    let k = f - frac.len();
    let mut z = zero_digits(k);
    r.append(&mut frac);
    let ghost mid = r@;
    r.append(&mut z);
    proof {
        let ip = d@.0;
        let fp = d@.1;
        assert(mid == ip + fp);
        assert(r@ == (ip + fp) + zeros(k as nat));
        lemma_zeros_behind(ip + fp, k as nat);
        lemma_digits_value_append(ip, fp);
        lemma_pow10_add(fp.len(), k as nat);
        assert(fp.len() + k as nat == f as nat);
        let x = digits_value(ip);
        let y = digits_value(fp);
        let p1 = pow10(fp.len());
        let p2 = pow10(k as nat);
        assert((x * p1 + y) * p2 == x * (p1 * p2) + y * p2) by (nonlinear_arith);
        lemma_zeros_value(k as nat);
        assert(all_digits(r@)) by {
            assert forall|i: int| 0 <= i < r@.len() implies is_digit(#[trigger] r@[i]) by {
                if i < ip.len() {
                    assert(r@[i] == ip[i]);
                } else if i < ip.len() + fp.len() {
                    assert(r@[i] == fp[i - ip.len()]);
                } else {
                    assert(r@[i] == zeros(k as nat)[i - ip.len() - fp.len()]);
                }
            }
        }
    }
    r
}

/// The digits of `10^f` times a natural number.
pub fn scaled_nat_digits(v: u64, f: usize) -> (r: Vec<char>)
    ensures
        all_digits(r@),
        digits_value(r@) == v * pow10(f as nat),
{
    let mut r = u64_digits(v);
    let mut z = zero_digits(f);
    let ghost ds = r@;
    r.append(&mut z);
    proof {
        lemma_nat_digits_value(v as nat);
        lemma_zeros_behind(ds, f as nat);
        lemma_zeros_value(f as nat);
        assert(all_digits(r@)) by {
            assert forall|i: int| 0 <= i < r@.len() implies is_digit(#[trigger] r@[i]) by {
                if i < ds.len() {
                    assert(r@[i] == ds[i]);
                } else {
                    assert(r@[i] == zeros(f as nat)[i - ds.len()]);
                }
            }
        }
    }
    r
}

/// The canonical decimal whose number, times `10^f`, is what `x` writes.
pub fn decimal_of_digits(x: &Vec<char>, f: usize) -> (d: Decimal)
    requires
        all_digits(x@),
    ensures
        d.wf(),
        d@ == decimal_of_scaled(digits_value(x@) as nat, f as nat),
{
    let mut ip: Vec<char> = Vec::new();
    let mut fp: Vec<char> = Vec::new();
    if x.len() > f {
        let cut = x.len() - f;
        let mut i: usize = 0;
        while i < x.len()
            invariant
                cut == x@.len() - f,
                0 < cut <= x@.len(),
                i <= x@.len(),
                ip@ == x@.take(if i < cut { i as int } else { cut as int }),
                fp@ == if i < cut { Seq::<char>::empty() } else { x@.subrange(cut as int, i as int) },
            decreases x@.len() - i,
        {
            if i < cut {
                ip.push(x[i]);
                assert(ip@ =~= x@.take(if i + 1 < cut { (i + 1) as int } else { cut as int }));
            } else {
                fp.push(x[i]);
                assert(fp@ =~= x@.subrange(cut as int, (i + 1) as int));
            }
            i = i + 1;
        }
        assert(x@ =~= ip@ + fp@);
    } else {
        ip.push('0');
        fp = left_pad(x, f);
        proof {
            lemma_digits_value_prepend('0', fp@);
            assert(seq!['0'] == ip@);
        }
    }
    proof {
        assert(digits_value(ip@ + fp@) == digits_value(x@));
        assert(all_digits(ip@)) by {
            assert forall|j: int| 0 <= j < ip@.len() implies is_digit(#[trigger] ip@[j]) by {
                if x@.len() > f {
                    assert(ip@[j] == x@[j]);
                }
            }
        }
        assert(all_digits(fp@)) by {
            assert forall|j: int| 0 <= j < fp@.len() implies is_digit(#[trigger] fp@[j]) by {
                if x@.len() > f {
                    assert(fp@[j] == x@[j + ip@.len()]);
                }
            }
        }
        assert(fp@.len() == f);
        lemma_digits_value_append(ip@, fp@);
        lemma_digits_value_bound(fp@);
        lemma_digits_value_nonneg(ip@);
        lemma_pow10_pos(f as nat);
        let v = digits_value(x@);
        let p = pow10(f as nat);
        vstd::arithmetic::div_mod::lemma_fundamental_div_mod_converse(v, p as int, digits_value(ip@), digits_value(fp@));
        lemma_strip_leading(ip@);
        lemma_strip_leading_value(ip@);
        lemma_canonical_unique(strip_leading_zeros(ip@));
        lemma_fixed_unique(fp@);
        lemma_strip_trailing(fp@);
        assert((v as nat) / p == digits_value(ip@) as nat);
        assert((v as nat) % p == digits_value(fp@) as nat);
    }
    let ip2 = strip_leading(&ip);
    let fp2 = strip_trailing(&fp);
    match Decimal::from_parts(ip2, fp2) {
        Some(d) => d,
        None => {
            proof {
                assert(false);
            }
            Decimal::from_u64(0)
        },
    }
}

/// The digits of `10^n` times the number `x` writes.
pub fn shift_digits(x: &Vec<char>, n: usize) -> (r: Vec<char>)
    requires
        all_digits(x@),
    ensures
        all_digits(r@),
        digits_value(r@) == digits_value(x@) * pow10(n as nat),
{
    let mut r = copy_chars(x);
    let mut z = zero_digits(n);
    r.append(&mut z);
    proof {
        lemma_zeros_behind(x@, n as nat);
        lemma_zeros_value(n as nat);
        assert(all_digits(r@)) by {
            assert forall|i: int| 0 <= i < r@.len() implies is_digit(#[trigger] r@[i]) by {
                if i < x@.len() {
                    assert(r@[i] == x@[i]);
                } else {
                    assert(r@[i] == zeros(n as nat)[i - x@.len()]);
                }
            }
        }
    }
    r
}

/// The digits of `x`'s number divided by `c`, rounded down.
pub fn divide_digits(x: &Vec<char>, c: u64) -> (r: Vec<char>)
    requires
        all_digits(x@),
        c > 0,
    ensures
        all_digits(r@),
        digits_value(r@) == digits_value(x@) / (c as int),
{
    let mut q: Vec<char> = Vec::new();
    let mut rem: u64 = 0;
    let mut i: usize = 0;
    assert(x@.take(0) =~= Seq::<char>::empty());
    assert(digits_value(Seq::<char>::empty()) == 0);
    while i < x.len()
        invariant
            i <= x@.len(),
            c > 0,
            all_digits(x@),
            all_digits(q@),
            rem < c,
            digits_value(x@.take(i as int)) == digits_value(q@) * c + rem,
        decreases x@.len() - i,
    {
        assert(is_digit(x@[i as int]));
        let dgt = char_digit(x[i]);
        let t: u128 = (rem as u128) * 10 + (dgt as u128);
        let qd: u128 = t / (c as u128);
        let r2: u128 = t % (c as u128);
        assert(qd < 10) by (nonlinear_arith)
            requires
                t == rem * 10 + dgt,
                rem < c,
                dgt < 10,
                qd == t / (c as u128),
                c > 0,
        ;
        let ch = digit_to_char(qd as u64);
        let ghost old_q = q@;
        q.push(ch);
        proof {
            assert(x@.take(i + 1).drop_last() =~= x@.take(i as int));
            assert(x@.take(i + 1).last() == x@[i as int]);
            assert(q@.drop_last() =~= old_q);
            let a = digits_value(old_q);
            assert(t == qd * c + r2) by (nonlinear_arith)
                requires
                    qd == t / (c as u128),
                    r2 == t % (c as u128),
                    c > 0,
            ;
            assert((a * c + rem) * 10 + dgt == (a * 10 + qd) * c + r2) by (nonlinear_arith)
                requires
                    t == rem * 10 + dgt,
                    t == qd * c + r2,
            ;
            assert(all_digits(q@)) by {
                assert forall|j: int| 0 <= j < q@.len() implies is_digit(#[trigger] q@[j]) by {
                    if j < old_q.len() {
                        assert(q@[j] == old_q[j]);
                    }
                }
            }
        }
        rem = r2 as u64;
        i = i + 1;
    }
    proof {
        assert(x@.take(i as int) =~= x@);
        lemma_digits_value_nonneg(q@);
        vstd::arithmetic::div_mod::lemma_fundamental_div_mod_converse(
            digits_value(x@),
            c as int,
            digits_value(q@),
            rem as int,
        );
    }
    q
}


proof fn lemma_fixed_value(v: nat, f: nat)
    requires
        v < pow10(f),
    ensures
        digits_value(fixed_digits(v, f)) == v,
        all_digits(fixed_digits(v, f)),
        fixed_digits(v, f).len() == f,
    decreases f,
{
    if f == 0 {
        assert(digits_value(Seq::<char>::empty()) == 0);
    } else {
        let p = pow10((f - 1) as nat);
        assert(pow10(f) == 10 * p);
        assert(v / 10 < p);
        lemma_fixed_value(v / 10, (f - 1) as nat);
        lemma_digit_value_char((v % 10) as int);
        let x = fixed_digits(v, f);
        let y = fixed_digits(v / 10, (f - 1) as nat);
        assert(x == y.push(digit_char((v % 10) as int)));
        assert(x.drop_last() =~= y);
        assert(digits_value(x) == digits_value(y) * 10 + digit_value(x.last()));
        assert(all_digits(x)) by {
            assert forall|i: int| 0 <= i < x.len() implies is_digit(#[trigger] x[i]) by {
                if i < y.len() {
                    assert(x[i] == y[i]);
                }
            }
        }
    }
}

proof fn lemma_strip_trailing_value(x: Seq<char>)
    ensures
        strip_trailing_zeros(x).len() <= x.len(),
        digits_value(strip_trailing_zeros(x)) * pow10((x.len() - strip_trailing_zeros(x).len()) as nat)
            == digits_value(x),
    decreases x.len(),
{
    let y = strip_trailing_zeros(x);
    if x.len() > 0 && x.last() == '0' {
        let x1 = x.drop_last();
        lemma_strip_trailing_value(x1);
        assert(y == strip_trailing_zeros(x1));
        let k = (x1.len() - y.len()) as nat;
        assert((x.len() - y.len()) as nat == k + 1);
        assert(pow10(k + 1) == 10 * pow10(k));
        assert(digits_value(x) == digits_value(x1) * 10 + digit_value(x.last()));
        let a = digits_value(y);
        let b = pow10(k);
        assert(a * (10 * b) == (a * b) * 10) by (nonlinear_arith);
        assert(digit_value('0') == 0);
        assert(a * pow10((x.len() - y.len()) as nat) == a * (10 * b));
    } else {
        assert(y == x);
        assert((x.len() - y.len()) as nat == 0);
        assert(pow10(0) == 1);
        assert(digits_value(y) * 1 == digits_value(y));
    }
}

/// The decimal of a scaled number is canonical, has at most `f` digits
/// after the point, and stands for that number: scaled back by `10^f`, it
/// gives the number again.
pub proof fn law_decimal_of_scaled(s: nat, f: nat)
    ensures
        canonical_int(decimal_of_scaled(s, f).0),
        canonical_frac(decimal_of_scaled(s, f).1),
        decimal_of_scaled(s, f).1.len() <= f,
        scaled_value(decimal_of_scaled(s, f), f) == s,
{
    let p = pow10(f);
    lemma_pow10_pos(f);
    let d = decimal_of_scaled(s, f);
    crate::sql::number::lemma_nat_digits_canonical(s / p);
    lemma_nat_digits_value(s / p);
    let x = fixed_digits(s % p, f);
    lemma_fixed_value(s % p, f);
    lemma_strip_trailing(x);
    lemma_strip_trailing_value(x);
    vstd::arithmetic::div_mod::lemma_fundamental_div_mod(s as int, p as int);
    assert(digits_value(d.0) == s / p);
    assert(digits_value(d.1) * pow10((f - d.1.len()) as nat) == s % p);
    assert(scaled_value(d, f) == (s / p) * p + s % p);
    assert((s / p) * p == p * (s / p)) by (nonlinear_arith);
}

} // verus!
