//! Numbers as the SQL text writes them: integers, and decimals, which stand
//! for the floating-point values of the language.
use vstd::prelude::*;

use super::text::{chars_lt, lemma_chars_lt_irreflexive, lemma_chars_lt_total, Order3};

verus! {

pub open spec fn is_digit(c: char) -> bool {
    '0' <= c && c <= '9'
}

pub open spec fn all_digits(s: Seq<char>) -> bool {
    forall|i: int| 0 <= i < s.len() ==> is_digit(#[trigger] s[i])
}

pub open spec fn digit_value(c: char) -> int {
    (c as int) - ('0' as int)
}

/// The number that a string of decimal digits writes.
pub open spec fn digits_value(s: Seq<char>) -> int
    decreases s.len(),
{
    if s.len() == 0 {
        0
    } else {
        digits_value(s.drop_last()) * 10 + digit_value(s.last())
    }
}

pub proof fn lemma_digits_value_nonneg(s: Seq<char>)
    requires
        all_digits(s),
    ensures
        digits_value(s) >= 0,
    decreases s.len(),
{
    if s.len() > 0 {
        lemma_digits_value_nonneg(s.drop_last());
        assert(is_digit(s[s.len() - 1]));
    }
}

/// Reads a string of digits as an `i64`; `None` where it does not fit.
pub fn parse_digits_i64(s: &Vec<char>) -> (r: Option<i64>)
    requires
        all_digits(s@),
    ensures
        r matches Some(v) ==> v == digits_value(s@),
        r is None <==> digits_value(s@) > i64::MAX,
{
    let mut acc: i64 = 0;
    let mut i: usize = 0;
    while i < s.len()
        invariant
            i <= s@.len(),
            all_digits(s@),
            acc == digits_value(s@.take(i as int)),
            acc >= 0,
        decreases s@.len() - i,
    {
        assert(s@.take(i + 1).drop_last() =~= s@.take(i as int));
        assert(is_digit(s@[i as int]));
        let d = (s[i] as u32 - '0' as u32) as i64;
        assert(d == digit_value(s@[i as int]));
        if acc > (i64::MAX - d) / 10 {
            proof {
                lemma_digits_value_grows(s@, (i + 1) as int);
            }
            return None;
        }
        acc = acc * 10 + d;
        i = i + 1;
    }
    assert(s@.take(i as int) =~= s@);
    Some(acc)
}

/// Digits after a prefix never make the number smaller.
pub proof fn lemma_digits_value_grows(s: Seq<char>, k: int)
    requires
        all_digits(s),
        0 <= k <= s.len(),
    ensures
        digits_value(s) >= digits_value(s.take(k)),
    decreases s.len() - k,
{
    if k < s.len() {
        lemma_digits_value_grows(s, k + 1);
        assert(s.take(k + 1).drop_last() =~= s.take(k));
        lemma_digits_value_nonneg(s.take(k));
        assert(is_digit(s[k]));
    } else {
        assert(s.take(k) =~= s);
    }
}

/// The character of a digit.
pub open spec fn digit_char(d: int) -> char {
    if d == 0 {
        '0'
    } else if d == 1 {
        '1'
    } else if d == 2 {
        '2'
    } else if d == 3 {
        '3'
    } else if d == 4 {
        '4'
    } else if d == 5 {
        '5'
    } else if d == 6 {
        '6'
    } else if d == 7 {
        '7'
    } else if d == 8 {
        '8'
    } else {
        '9'
    }
}

/// The value of a digit character.
pub fn char_digit(c: char) -> (d: u32)
    requires
        is_digit(c),
    ensures
        d == digit_value(c),
        d < 10,
        digit_char(d as int) == c,
{
    if c == '0' {
        0
    } else if c == '1' {
        1
    } else if c == '2' {
        2
    } else if c == '3' {
        3
    } else if c == '4' {
        4
    } else if c == '5' {
        5
    } else if c == '6' {
        6
    } else if c == '7' {
        7
    } else if c == '8' {
        8
    } else {
        9
    }
}

/// The character of a digit.
pub fn digit_to_char(d: u64) -> (c: char)
    requires
        d < 10,
    ensures
        c == digit_char(d as int),
        is_digit(c),
        digit_value(c) == d,
{
    if d == 0 {
        '0'
    } else if d == 1 {
        '1'
    } else if d == 2 {
        '2'
    } else if d == 3 {
        '3'
    } else if d == 4 {
        '4'
    } else if d == 5 {
        '5'
    } else if d == 6 {
        '6'
    } else if d == 7 {
        '7'
    } else if d == 8 {
        '8'
    } else {
        '9'
    }
}

/// The decimal digits of a natural number, without leading zeros ("0" for 0).
pub open spec fn nat_digits(n: nat) -> Seq<char>
    decreases n,
{
    if n < 10 {
        seq![digit_char(n as int)]
    } else {
        nat_digits(n / 10).push(digit_char((n % 10) as int))
    }
}

/// The text of an integer, as Rust writes it.
pub open spec fn int_text(v: int) -> Seq<char> {
    if v < 0 {
        seq!['-'] + nat_digits((-v) as nat)
    } else {
        nat_digits(v as nat)
    }
}

/// The digits of a natural number.
pub fn u64_digits(v: u64) -> (r: Vec<char>)
    ensures
        r@ == nat_digits(v as nat),
{
    let mut n = v;
    let mut acc: Vec<char> = Vec::new();
    while n >= 10
        invariant
            nat_digits(v as nat) == nat_digits(n as nat) + acc@,
        decreases n,
    {
        let c = digit_to_char(n % 10);
        let ghost old_acc = acc@;
        acc.insert(0, c);
        assert(nat_digits(n as nat) == nat_digits((n / 10) as nat).push(c));
        assert(nat_digits(n as nat) + old_acc =~= nat_digits((n / 10) as nat) + acc@);
        n = n / 10;
    }
    let c = digit_to_char(n);
    let ghost old_acc = acc@;
    acc.insert(0, c);
    assert(nat_digits(n as nat) + old_acc =~= acc@);
    acc
}

/// The text of an `i64`.
pub fn i64_to_string(v: i64) -> (s: String)
    ensures
        s@ == int_text(v as int),
{
    if v < 0 {
        let n: u64 = if v == i64::MIN {
            9223372036854775808u64
        } else {
            (-v) as u64
        };
        let digits = u64_digits(n);
        let mut out = String::new();
        super::text::push_char(&mut out, '-');
        let rest = super::text::string_of(&digits);
        let out = out.concat(rest.as_str());
        assert(out@ =~= int_text(v as int));
        out
    } else {
        let digits = u64_digits(v as u64);
        super::text::string_of(&digits)
    }
}

/// A decimal number as written in SQL text, in canonical form: the digits
/// before the point without leading zeros ("0" where there are none), and
/// the digits after it without trailing zeros (none for a whole number).
/// It stands for the floating-point values of the language; two decimals
/// are equal exactly when their numbers are.
#[derive(Debug, Clone, PartialEq)]
pub struct Decimal {
    int_part: Vec<char>,
    frac_part: Vec<char>,
}

pub open spec fn canonical_int(s: Seq<char>) -> bool {
    s.len() > 0 && all_digits(s) && (s.len() == 1 || s[0] != '0')
}

pub open spec fn canonical_frac(s: Seq<char>) -> bool {
    all_digits(s) && (s.len() == 0 || s.last() != '0')
}

/// Both parts of a decimal are canonical.
pub open spec fn decimal_wf(d: (Seq<char>, Seq<char>)) -> bool {
    canonical_int(d.0) && canonical_frac(d.1)
}

/// Removes leading zeros, keeping at least one digit.
pub open spec fn strip_leading_zeros(s: Seq<char>) -> Seq<char>
    decreases s.len(),
{
    if s.len() > 1 && s[0] == '0' {
        strip_leading_zeros(s.drop_first())
    } else {
        s
    }
}

/// Removes trailing zeros.
pub open spec fn strip_trailing_zeros(s: Seq<char>) -> Seq<char>
    decreases s.len(),
{
    if s.len() > 0 && s.last() == '0' {
        strip_trailing_zeros(s.drop_last())
    } else {
        s
    }
}

/// The two parts of a number literal: digits, then optionally a point and
/// more digits.
pub open spec fn literal_parts(n: Seq<char>) -> Option<(Seq<char>, Seq<char>)> {
    if n.len() > 0 && all_digits(n) {
        Some((n, Seq::empty()))
    } else if exists|d: int|
        0 < d < n.len() && n[d] == '.' && all_digits(n.take(d)) && all_digits(n.skip(d + 1)) {
        let d = choose|d: int|
            0 < d < n.len() && n[d] == '.' && all_digits(n.take(d)) && all_digits(n.skip(d + 1));
        Some((n.take(d), n.skip(d + 1)))
    } else {
        None
    }
}

impl View for Decimal {
    type V = (Seq<char>, Seq<char>);

    closed spec fn view(&self) -> (Seq<char>, Seq<char>) {
        (self.int_part@, self.frac_part@)
    }
}

pub open spec fn decimal_text(d: (Seq<char>, Seq<char>)) -> Seq<char> {
    if d.1.len() == 0 {
        d.0
    } else {
        d.0 + seq!['.'] + d.1
    }
}

/// Decimal `a` is less than decimal `b` (both canonical): a shorter whole
/// part, or an equal-length one that sorts first, or the same whole part and
/// a fraction that sorts first.
pub open spec fn decimal_lt(a: (Seq<char>, Seq<char>), b: (Seq<char>, Seq<char>)) -> bool {
    if a.0.len() != b.0.len() {
        a.0.len() < b.0.len()
    } else if a.0 != b.0 {
        chars_lt(a.0, b.0)
    } else {
        chars_lt(a.1, b.1)
    }
}

pub proof fn lemma_strip_leading(s: Seq<char>)
    requires
        s.len() > 0,
        all_digits(s),
    ensures
        canonical_int(strip_leading_zeros(s)),
    decreases s.len(),
{
    if s.len() > 1 && s[0] == '0' {
        lemma_strip_leading(s.drop_first());
    }
}

pub proof fn lemma_strip_trailing(s: Seq<char>)
    requires
        all_digits(s),
    ensures
        canonical_frac(strip_trailing_zeros(s)),
    decreases s.len(),
{
    if s.len() > 0 && s.last() == '0' {
        lemma_strip_trailing(s.drop_last());
    }
}

impl Decimal {
    pub closed spec fn wf(&self) -> bool {
        canonical_int(self.int_part@) && canonical_frac(self.frac_part@)
    }

    /// Reads a number literal: digits, optionally a point and more digits.
    pub fn parse(text: &str) -> (r: Option<Decimal>)
        ensures
            match literal_parts(text@) {
                Some((ip, fp)) => r matches Some(d) && d@ == (strip_leading_zeros(ip), strip_trailing_zeros(fp))
                    && d.wf(),
                None => r is None,
            },
    {
        let chars = super::text::chars_of(text);
        let mut ip: Vec<char> = Vec::new();
        let mut fp: Vec<char> = Vec::new();
        let mut i: usize = 0;
        while i < chars.len() && chars[i] != '.'
            invariant
                chars@ == text@,
                i <= chars@.len(),
                ip@ == chars@.take(i as int),
                forall|j: int| 0 <= j < i ==> chars@[j] != '.',
            decreases chars@.len() - i,
        {
            ip.push(chars[i]);
            i = i + 1;
            assert(ip@ =~= chars@.take(i as int));
        }
        let has_dot = i < chars.len();
        if has_dot {
            let mut j = i + 1;
            while j < chars.len()
                invariant
                    chars@ == text@,
                    i < j <= chars@.len(),
                    fp@ == chars@.subrange(i + 1, j as int),
                decreases chars@.len() - j,
            {
                fp.push(chars[j]);
                j = j + 1;
                assert(fp@ =~= chars@.subrange(i + 1, j as int));
            }
            assert(fp@ =~= chars@.skip(i + 1));
        }
        if !digits_only(&ip) || ip.len() == 0 || !digits_only(&fp) {
            proof {
                if literal_parts(text@) is Some {
                    let n = text@;
                    if n.len() > 0 && all_digits(n) {
                        assert(!has_dot) by {
                            if has_dot {
                                assert(is_digit(n[i as int]));
                            }
                        }
                        assert(n =~= chars@.take(i as int));
                    } else {
                        let d = choose|d: int|
                            0 < d < n.len() && n[d] == '.' && all_digits(n.take(d)) && all_digits(n.skip(d + 1));
                        if d < i {
                            assert(chars@[d] != '.');
                        }
                        if d > i {
                            assert(is_digit(n.take(d)[i as int]));
                        }
                        assert(d == i);
                    }
                }
            }
            return None;
        }
        proof {
            let n = text@;
            if !has_dot {
                assert(n =~= ip@);
                assert(literal_parts(n) == Some((ip@, Seq::<char>::empty())));
            } else {
                assert(!all_digits(n)) by {
                    assert(!is_digit(n[i as int]));
                }
                assert(0 < i < n.len() && n[i as int] == '.' && all_digits(n.take(i as int)) && all_digits(n.skip(i + 1)));
                let d = choose|d: int|
                    0 < d < n.len() && n[d] == '.' && all_digits(n.take(d)) && all_digits(n.skip(d + 1));
                if d < i {
                    assert(chars@[d] != '.');
                }
                if d > i {
                    assert(is_digit(n.take(d)[i as int]));
                }
                assert(d == i);
            }
            lemma_strip_leading(ip@);
            lemma_strip_trailing(fp@);
        }
        let ip2 = strip_leading(&ip);
        let fp2 = strip_trailing(&fp);
        Some(Decimal { int_part: ip2, frac_part: fp2 })
    }

    /// Compares two decimals by their numbers.
    pub fn compare(&self, other: &Decimal) -> (c: Order3)
        ensures
            c == Order3::Less <==> decimal_lt(self@, other@),
            c == Order3::Equal <==> self@ == other@,
            c == Order3::Greater <==> decimal_lt(other@, self@),
    {
        proof {
            lemma_chars_lt_total(self@.0, other@.0);
            lemma_chars_lt_total(self@.1, other@.1);
            lemma_chars_lt_irreflexive(self@.0);
            lemma_chars_lt_irreflexive(self@.1);
        }
        if self.int_part.len() < other.int_part.len() {
            return Order3::Less;
        }
        if self.int_part.len() > other.int_part.len() {
            return Order3::Greater;
        }
        let a = super::text::string_of(&self.int_part);
        let b = super::text::string_of(&other.int_part);
        let ci = super::text::compare_str(a.as_str(), b.as_str());
        if ci != Order3::Equal {
            return ci;
        }
        let fa = super::text::string_of(&self.frac_part);
        let fb = super::text::string_of(&other.frac_part);
        let cf = super::text::compare_str(fa.as_str(), fb.as_str());
        proof {
            if cf == Order3::Equal {
                assert(self@ == other@);
            }
        }
        cf
    }

    /// The text of the decimal: whole part, then a point and the fraction
    /// where there is one.
    pub fn to_string(&self) -> (s: String)
        ensures
            s@ == decimal_text(self@),
    {
        let a = super::text::string_of(&self.int_part);
        if self.frac_part.len() == 0 {
            a
        } else {
            let mut a = a;
            super::text::push_char(&mut a, '.');
            let f = super::text::string_of(&self.frac_part);
            a.concat(f.as_str())
        }
    }

    /// A copy.
    pub fn copy(&self) -> (r: Decimal)
        ensures
            r@ == self@,
            r.wf() == self.wf(),
    {
        Decimal { int_part: copy_chars(&self.int_part), frac_part: copy_chars(&self.frac_part) }
    }

    /// A decimal is well-formed exactly when its parts are canonical.
    pub proof fn lemma_wf(&self)
        ensures
            self.wf() == decimal_wf(self@),
    {
    }

    /// Whether the decimal is well-formed.
    pub fn check_wf(&self) -> (b: bool)
        ensures
            b == self.wf(),
    {
        let int_ok = self.int_part.len() > 0 && digits_only(&self.int_part) && (
        self.int_part.len() == 1 || self.int_part[0] != '0');
        let frac_ok = digits_only(&self.frac_part) && (self.frac_part.len() == 0
            || self.frac_part[self.frac_part.len() - 1] != '0');
        int_ok && frac_ok
    }

    /// The digits before the point.
    pub fn int_digits(&self) -> (r: &Vec<char>)
        ensures
            r@ == self@.0,
    {
        &self.int_part
    }

    /// The digits after the point.
    pub fn frac_digits(&self) -> (r: &Vec<char>)
        ensures
            r@ == self@.1,
    {
        &self.frac_part
    }

    /// The decimal of the given parts, where they are canonical.
    pub fn from_parts(int_part: Vec<char>, frac_part: Vec<char>) -> (r: Option<Decimal>)
        ensures
            r is Some <==> decimal_wf((int_part@, frac_part@)),
            r matches Some(d) ==> d@ == (int_part@, frac_part@) && d.wf(),
    {
        let int_ok = int_part.len() > 0 && digits_only(&int_part) && (int_part.len() == 1
            || int_part[0] != '0');
        let frac_ok = digits_only(&frac_part) && (frac_part.len() == 0 || frac_part[frac_part.len()
            - 1] != '0');
        if int_ok && frac_ok {
            Some(Decimal { int_part, frac_part })
        } else {
            None
        }
    }

    /// The decimal of a natural number.
    pub fn from_u64(v: u64) -> (d: Decimal)
        ensures
            d@ == (nat_digits(v as nat), Seq::<char>::empty()),
            d.wf(),
    {
        proof {
            lemma_nat_digits_canonical(v as nat);
        }
        Decimal { int_part: u64_digits(v), frac_part: Vec::new() }
    }
}

pub proof fn lemma_nat_digits_canonical(n: nat)
    ensures
        canonical_int(nat_digits(n)),
        n > 0 ==> nat_digits(n)[0] != '0',
    decreases n,
{
    if n < 10 {
        assert(is_digit(digit_char(n as int)));
        assert(all_digits(nat_digits(n))) by {
            assert(nat_digits(n)[0] == digit_char(n as int));
        }
    } else {
        lemma_nat_digits_canonical(n / 10);
        let s = nat_digits(n);
        assert(s[0] == nat_digits(n / 10)[0]);
        assert(all_digits(s)) by {
            assert forall|i: int| 0 <= i < s.len() implies is_digit(#[trigger] s[i]) by {
                if i < s.len() - 1 {
                    assert(s[i] == nat_digits(n / 10)[i]);
                }
            }
        }
    }
}

pub fn copy_chars(v: &Vec<char>) -> (r: Vec<char>)
    ensures
        r@ == v@,
{
    let mut r: Vec<char> = Vec::new();
    let mut i: usize = 0;
    while i < v.len()
        invariant
            i <= v@.len(),
            r@ == v@.take(i as int),
        decreases v@.len() - i,
    {
        r.push(v[i]);
        i = i + 1;
        assert(r@ =~= v@.take(i as int));
    }
    assert(v@.take(i as int) =~= v@);
    r
}

/// Whether every character is a digit.
pub fn digits_only(v: &Vec<char>) -> (r: bool)
    ensures
        r == all_digits(v@),
{
    let mut i: usize = 0;
    while i < v.len()
        invariant
            i <= v@.len(),
            forall|j: int| 0 <= j < i ==> is_digit(#[trigger] v@[j]),
        decreases v@.len() - i,
    {
        if !(v[i] >= '0' && v[i] <= '9') {
            return false;
        }
        i = i + 1;
    }
    true
}

pub fn strip_leading(v: &Vec<char>) -> (r: Vec<char>)
    requires
        v@.len() > 0,
    ensures
        r@ == strip_leading_zeros(v@),
{
    let mut start: usize = 0;
    assert(v@.skip(0) =~= v@);
    while start < v.len() - 1 && v[start] == '0'
        invariant
            start < v@.len(),
            strip_leading_zeros(v@) == strip_leading_zeros(v@.skip(start as int)),
        decreases v@.len() - start,
    {
        assert(v@.skip(start as int).drop_first() =~= v@.skip(start + 1));
        start = start + 1;
    }
    let mut r: Vec<char> = Vec::new();
    let mut i = start;
    while i < v.len()
        invariant
            start <= i <= v@.len(),
            r@ == v@.subrange(start as int, i as int),
        decreases v@.len() - i,
    {
        r.push(v[i]);
        i = i + 1;
        assert(r@ =~= v@.subrange(start as int, i as int));
    }
    assert(r@ =~= v@.skip(start as int));
    r
}

pub fn strip_trailing(v: &Vec<char>) -> (r: Vec<char>)
    ensures
        r@ == strip_trailing_zeros(v@),
{
    let mut end: usize = v.len();
    assert(v@.take(end as int) =~= v@);
    while end > 0 && v[end - 1] == '0'
        invariant
            end <= v@.len(),
            strip_trailing_zeros(v@) == strip_trailing_zeros(v@.take(end as int)),
        decreases end,
    {
        assert(v@.take(end as int).drop_last() =~= v@.take(end - 1));
        end = end - 1;
    }
    let mut r: Vec<char> = Vec::new();
    let mut i: usize = 0;
    while i < end
        invariant
            i <= end <= v@.len(),
            r@ == v@.take(i as int),
        decreases end - i,
    {
        r.push(v[i]);
        i = i + 1;
        assert(r@ =~= v@.take(i as int));
    }
    r
}

} // verus!
