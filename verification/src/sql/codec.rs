//! How rows and tables are written as bytes in the store, and read back.
use vstd::prelude::*;

use crate::storage::keycode::{be_u64, lemma_be_u64_roundtrip, push_u64, read_u64, u64_be};
use super::number::{decimal_wf, Decimal};
use super::text::string_of;
use super::schema::{Column, ColumnModel, Table, TableModel};
use super::types::{row_view, row_wf, DataType, Row, Value, ValueModel};

verus! {

/// `char::from_u32`: the character with the given code, where there is one.
#[verifier::external_body]
fn char_from_u32(v: u32) -> (r: Option<char>)
    ensures
        r is Some <==> (v <= 0x10FFFF && !(0xD800 <= v <= 0xDFFF)),
        r matches Some(c) ==> c as u32 == v,
{
    char::from_u32(v)
}

/// The character with code `v`, where there is one.
pub open spec fn char_of(v: u64) -> Option<char> {
    if v <= 0x10FFFF && !(0xD800 <= v <= 0xDFFF) {
        Some(v as char)
    } else {
        None
    }
}

proof fn lemma_char_of(c: char)
    ensures
        char_of(c as u64) == Some(c),
{
    let v = c as u64;
    assert(v <= 0x10FFFF && !(0xD800 <= v <= 0xDFFF));
    assert((v as char) == c);
}

/// The bytes of the characters of a string, each as eight bytes.
pub open spec fn chars_body(s: Seq<char>) -> Seq<u8>
    decreases s.len(),
{
    if s.len() == 0 {
        Seq::empty()
    } else {
        chars_body(s.drop_last()) + u64_be(s.last() as u64)
    }
}

/// A string: its length, then its characters.
pub open spec fn chars_bytes(s: Seq<char>) -> Seq<u8> {
    u64_be(s.len() as u64) + chars_body(s)
}

/// Reads `n` characters from the front of `b`.
pub open spec fn read_chars_n(b: Seq<u8>, n: nat) -> Option<(Seq<char>, nat)>
    decreases n,
{
    if n == 0 {
        Some((Seq::empty(), 0))
    } else {
        match read_chars_n(b, (n - 1) as nat) {
            Some((s, k)) => if b.len() >= k + 8 {
                match char_of(be_u64(b.subrange(k as int, k as int + 8))) {
                    Some(c) => Some((s.push(c), k + 8)),
                    None => None,
                }
            } else {
                None
            },
            None => None,
        }
    }
}

/// Reads a string from the front of `b`: it and the bytes it took.
pub open spec fn read_chars(b: Seq<u8>) -> Option<(Seq<char>, nat)> {
    if b.len() >= 8 {
        match read_chars_n(b.skip(8), be_u64(b) as nat) {
            Some((s, k)) => Some((s, k + 8)),
            None => None,
        }
    } else {
        None
    }
}

proof fn lemma_read_chars_n(s: Seq<char>, rest: Seq<u8>)
    ensures
        read_chars_n(chars_body(s) + rest, s.len()) == Some((s, (8 * s.len()) as nat)),
        chars_body(s).len() == 8 * s.len(),
    decreases s.len(),
{
    if s.len() > 0 {
        let p = s.drop_last();
        let c = s.last();
        lemma_be_u64_roundtrip(c as u64);
        assert(chars_body(s) + rest =~= chars_body(p) + (u64_be(c as u64) + rest));
        lemma_read_chars_n(p, u64_be(c as u64) + rest);
        let b = chars_body(s) + rest;
        let k = 8 * p.len();
        assert(b.subrange(k as int, k as int + 8) =~= u64_be(c as u64));
        lemma_char_of(c);
        assert(p.push(c) =~= s);
    }
}

pub proof fn lemma_read_chars(s: Seq<char>, rest: Seq<u8>)
    requires
        s.len() <= u64::MAX,
    ensures
        read_chars(chars_bytes(s) + rest) == Some((s, chars_bytes(s).len())),
{
    let b = chars_bytes(s) + rest;
    lemma_be_u64_roundtrip(s.len() as u64);
    lemma_read_chars_n(s, rest);
    assert(b.skip(8) =~= chars_body(s) + rest);
    assert(b.subrange(0, 8) =~= u64_be(s.len() as u64));
}

/// Appends a string's bytes.
pub fn push_chars(out: &mut Vec<u8>, s: &Vec<char>)
    ensures
        final(out)@ == old(out)@ + chars_bytes(s@),
{
    push_u64(out, s.len() as u64);
    let ghost start = out@;
    let mut i: usize = 0;
    while i < s.len()
        invariant
            i <= s@.len(),
            out@ == start + chars_body(s@.take(i as int)),
        decreases s@.len() - i,
    {
        push_u64(out, s[i] as u64);
        assert(s@.take(i + 1).drop_last() =~= s@.take(i as int));
        i = i + 1;
        assert(out@ =~= start + chars_body(s@.take(i as int)));
    }
    assert(s@.take(i as int) =~= s@);
    assert(final(out)@ =~= old(out)@ + chars_bytes(s@));
}

/// Reads a string at `pos`, exactly as `read_chars` says.
fn read_chars_at(data: &[u8], pos: usize) -> (r: Option<(Vec<char>, usize)>)
    requires
        pos <= data@.len(),
    ensures
        match read_chars(data@.skip(pos as int)) {
            Some((s, n)) => r matches Some((v, end)) && v@ == s && end == pos + n,
            None => r is None,
        },
        r matches Some((v, end)) ==> end <= data@.len(),
{
    let ghost b = data@.skip(pos as int);
    if data.len() - pos < 8 {
        return None;
    }
    let n = read_u64(data, pos);
    assert(data@.subrange(pos as int, pos + 8) =~= b.subrange(0, 8));
    assert(be_u64(b) == be_u64(b.subrange(0, 8)));
    assert(n == be_u64(b));
    let ghost t = b.skip(8);
    assert(t =~= data@.skip(pos + 8));
    let mut v: Vec<char> = Vec::new();
    let mut k: usize = pos + 8;
    let mut i: u64 = 0;
    while i < n
        invariant
            pos + 8 <= k <= data@.len(),
            i <= n,
            t == data@.skip(pos + 8),
            b == data@.skip(pos as int),
            t == b.skip(8),
            b.len() >= 8,
            n == be_u64(b),
            read_chars_n(t, i as nat) == Some((v@, (k - pos - 8) as nat)),
        decreases n - i,
    {
        if data.len() - k < 8 {
            proof {
                assert(t.len() == data@.len() - pos - 8);
                lemma_read_chars_n_fails_after(t, (i + 1) as nat, n as nat);
            }
            return None;
        }
        let code = read_u64(data, k);
        assert(data@.subrange(k as int, k + 8) =~= t.subrange(k - pos - 8, k - pos));
        if code > 0x10FFFF {
            proof {
                lemma_read_chars_n_fails_after(t, (i + 1) as nat, n as nat);
            }
            return None;
        }
        match char_from_u32(code as u32) {
            Some(c) => {
                proof {
                    lemma_char_of(c);
                }
                v.push(c);
            },
            None => {
                proof {
                    lemma_read_chars_n_fails_after(t, (i + 1) as nat, n as nat);
                }
                return None;
            },
        }
        k = k + 8;
        i = i + 1;
    }
    Some((v, k))
}

proof fn lemma_read_chars_n_fails_after(b: Seq<u8>, i: nat, n: nat)
    requires
        i <= n,
        read_chars_n(b, i) is None,
    ensures
        read_chars_n(b, n) is None,
    decreases n - i,
{
    if i < n {
        lemma_read_chars_n_fails_after(b, (i + 1) as nat, n);
    }
}

/// A value is well-formed: its decimal, if any, is canonical.
pub open spec fn value_wf(v: ValueModel) -> bool {
    match v {
        ValueModel::Float(d) => decimal_wf(d),
        _ => true,
    }
}

/// An integer moved into the unsigned range, keeping its order.
pub open spec fn i64_code(i: i64) -> u64 {
    (i as int + 0x8000_0000_0000_0000) as u64
}

/// The integer an unsigned code stands for.
pub open spec fn code_i64(u: u64) -> i64 {
    (u as int - 0x8000_0000_0000_0000) as i64
}

/// The bytes of a value: a tag, then its contents.
pub open spec fn value_bytes(v: ValueModel) -> Seq<u8> {
    match v {
        ValueModel::Null => seq![0u8],
        ValueModel::Boolean(b) => seq![1u8, if b { 1u8 } else { 0u8 }],
        ValueModel::Integer(i) => seq![2u8] + u64_be(i64_code(i)),
        ValueModel::Float(d) => seq![3u8] + chars_bytes(d.0) + chars_bytes(d.1),
        ValueModel::String(t) => seq![4u8] + chars_bytes(t),
    }
}

/// Reads a value from the front of `b`: it and the bytes it took.
#[verifier::opaque]
pub open spec fn read_value(b: Seq<u8>) -> Option<(ValueModel, nat)> {
    if b.len() == 0 {
        None
    } else if b[0] == 0 {
        Some((ValueModel::Null, 1))
    } else if b[0] == 1 {
        if b.len() >= 2 && b[1] <= 1 {
            Some((ValueModel::Boolean(b[1] == 1), 2))
        } else {
            None
        }
    } else if b[0] == 2 {
        if b.len() >= 9 {
            Some((ValueModel::Integer(code_i64(be_u64(b.subrange(1, 9)))), 9))
        } else {
            None
        }
    } else if b[0] == 3 {
        match read_chars(b.skip(1)) {
            Some((ip, n)) => match read_chars(b.skip(1 + n as int)) {
                Some((fp, m)) => if decimal_wf((ip, fp)) {
                    Some((ValueModel::Float((ip, fp)), 1 + n + m))
                } else {
                    None
                },
                None => None,
            },
            None => None,
        }
    } else if b[0] == 4 {
        match read_chars(b.skip(1)) {
            Some((t, n)) => Some((ValueModel::String(t), 1 + n)),
            None => None,
        }
    } else {
        None
    }
}

proof fn lemma_chars_bytes_len(s: Seq<char>, rest: Seq<u8>)
    requires
        s.len() <= u64::MAX,
    ensures
        read_chars(chars_bytes(s) + rest) == Some((s, chars_bytes(s).len())),
        chars_bytes(s).len() == 8 + 8 * s.len(),
{
    lemma_read_chars(s, rest);
    lemma_read_chars_n(s, rest);
    lemma_be_u64_roundtrip(s.len() as u64);
}

proof fn lemma_read_float(d: (Seq<char>, Seq<char>), rest: Seq<u8>)
    requires
        decimal_wf(d),
        d.0.len() <= u64::MAX,
        d.1.len() <= u64::MAX,
    ensures
        read_value(value_bytes(ValueModel::Float(d)) + rest) == Some(
            (ValueModel::Float(d), value_bytes(ValueModel::Float(d)).len()),
        ),
{
    reveal(read_value);
    let b = value_bytes(ValueModel::Float(d)) + rest;
    let ip = chars_bytes(d.0);
    let fp = chars_bytes(d.1);
    lemma_chars_bytes_len(d.0, fp + rest);
    lemma_chars_bytes_len(d.1, rest);
    assert(b[0] == 3u8);
    assert(b.skip(1) =~= ip + (fp + rest));
    assert(b.skip(1 + ip.len() as int) =~= fp + rest);
}

proof fn lemma_read_string(t: Seq<char>, rest: Seq<u8>)
    requires
        t.len() <= u64::MAX,
    ensures
        read_value(value_bytes(ValueModel::String(t)) + rest) == Some(
            (ValueModel::String(t), value_bytes(ValueModel::String(t)).len()),
        ),
{
    reveal(read_value);
    let b = value_bytes(ValueModel::String(t)) + rest;
    lemma_chars_bytes_len(t, rest);
    assert(b[0] == 4u8);
    assert(b.skip(1) =~= chars_bytes(t) + rest);
}

proof fn lemma_read_integer(i: i64, rest: Seq<u8>)
    ensures
        read_value(value_bytes(ValueModel::Integer(i)) + rest) == Some(
            (ValueModel::Integer(i), value_bytes(ValueModel::Integer(i)).len()),
        ),
{
    reveal(read_value);
    let b = value_bytes(ValueModel::Integer(i)) + rest;
    lemma_be_u64_roundtrip(i64_code(i));
    assert(b[0] == 2u8);
    assert(b.subrange(1, 9) =~= u64_be(i64_code(i)));
}

/// A value whose texts fit the length field.
pub open spec fn value_fits(v: ValueModel) -> bool {
    match v {
        ValueModel::Float(d) => d.0.len() <= u64::MAX && d.1.len() <= u64::MAX,
        ValueModel::String(t) => t.len() <= u64::MAX,
        _ => true,
    }
}

/// Reading the bytes of a well-formed value gives it back.
pub proof fn lemma_read_value(v: ValueModel, rest: Seq<u8>)
    requires
        value_wf(v),
        value_fits(v),
    ensures
        read_value(value_bytes(v) + rest) == Some((v, value_bytes(v).len())),
{
    reveal(read_value);
    match v {
        ValueModel::Null => {
            assert((value_bytes(v) + rest)[0] == 0u8);
        },
        ValueModel::Boolean(x) => {
            let b = value_bytes(v) + rest;
            assert(b[0] == 1u8);
        },
        ValueModel::Integer(i) => lemma_read_integer(i, rest),
        ValueModel::Float(d) => lemma_read_float(d, rest),
        ValueModel::String(t) => lemma_read_string(t, rest),
    }
}

fn i64_to_code(i: i64) -> (u: u64)
    ensures
        u == i64_code(i),
{
    ((i as i128) + 0x8000_0000_0000_0000i128) as u64
}

fn code_to_i64(u: u64) -> (i: i64)
    ensures
        i == code_i64(u),
{
    ((u as i128) - 0x8000_0000_0000_0000i128) as i64
}

/// Appends a value's bytes.
pub fn encode_value(out: &mut Vec<u8>, v: &Value)
    ensures
        final(out)@ == old(out)@ + value_bytes(v@),
{
    match v {
        Value::Null => {
            out.push(0u8);
        },
        Value::Boolean(b) => {
            out.push(1u8);
            out.push(if *b { 1u8 } else { 0u8 });
        },
        Value::Integer(i) => {
            out.push(2u8);
            push_u64(out, i64_to_code(*i));
        },
        Value::Float(d) => {
            out.push(3u8);
            push_chars(out, d.int_digits());
            push_chars(out, d.frac_digits());
        },
        Value::String(t) => {
            out.push(4u8);
            let cs = super::text::chars_of(t.as_str());
            push_chars(out, &cs);
        },
    }
    assert(final(out)@ =~= old(out)@ + value_bytes(v@));
}

/// Reads a value at `pos`, exactly as `read_value` says.
#[verifier::rlimit(40)]
#[verifier::spinoff_prover]
pub fn decode_value(data: &[u8], pos: usize) -> (r: Option<(Value, usize)>)
    requires
        pos <= data@.len(),
    ensures
        match read_value(data@.skip(pos as int)) {
            Some((m, n)) => r matches Some((v, end)) && v@ == m && v.wf() && end == pos + n,
            None => r is None,
        },
        r matches Some((v, end)) ==> end <= data@.len(),
{
    reveal(read_value);
    let ghost b = data@.skip(pos as int);
    if pos >= data.len() {
        return None;
    }
    let tag = data[pos];
    assert(b[0] == tag);
    if tag == 0 {
        Some((Value::Null, pos + 1))
    } else if tag == 1 {
        if data.len() - pos >= 2 && data[pos + 1] <= 1 {
            Some((Value::Boolean(data[pos + 1] == 1), pos + 2))
        } else {
            None
        }
    } else if tag == 2 {
        if data.len() - pos >= 9 {
            let u = read_u64(data, pos + 1);
            assert(data@.subrange(pos + 1, pos + 9) =~= b.subrange(1, 9));
            Some((Value::Integer(code_to_i64(u)), pos + 9))
        } else {
            None
        }
    } else if tag == 3 {
        assert(data@.skip(pos + 1) =~= b.skip(1));
        match read_chars_at(data, pos + 1) {
            Some((ip, p1)) => {
                assert(data@.skip(p1 as int) =~= b.skip(p1 - pos));
                match read_chars_at(data, p1) {
                    Some((fp, p2)) => {
                        match Decimal::from_parts(ip, fp) {
                            Some(d) => Some((Value::Float(d), p2)),
                            None => None,
                        }
                    },
                    None => None,
                }
            },
            None => None,
        }
    } else if tag == 4 {
        assert(data@.skip(pos + 1) =~= b.skip(1));
        match read_chars_at(data, pos + 1) {
            Some((cs, p1)) => Some((Value::String(string_of(&cs)), p1)),
            None => None,
        }
    } else {
        None
    }
}

/// The values of a row, one after another.
pub open spec fn values_body(r: Seq<ValueModel>) -> Seq<u8>
    decreases r.len(),
{
    if r.len() == 0 {
        Seq::empty()
    } else {
        values_body(r.drop_last()) + value_bytes(r.last())
    }
}

/// A row: its length, then its values.
pub open spec fn row_bytes(r: Seq<ValueModel>) -> Seq<u8> {
    u64_be(r.len() as u64) + values_body(r)
}

/// Reads `n` values from the front of `b`.
pub open spec fn read_values_n(b: Seq<u8>, n: nat) -> Option<(Seq<ValueModel>, nat)>
    decreases n,
{
    if n == 0 {
        Some((Seq::empty(), 0))
    } else {
        match read_values_n(b, (n - 1) as nat) {
            Some((s, k)) => if k <= b.len() {
                match read_value(b.skip(k as int)) {
                    Some((v, m)) => Some((s.push(v), k + m)),
                    None => None,
                }
            } else {
                None
            },
            None => None,
        }
    }
}

/// Reads a row from the front of `b`: it and the bytes it took.
pub open spec fn read_row(b: Seq<u8>) -> Option<(Seq<ValueModel>, nat)> {
    if b.len() >= 8 {
        match read_values_n(b.skip(8), be_u64(b) as nat) {
            Some((s, k)) => Some((s, k + 8)),
            None => None,
        }
    } else {
        None
    }
}

/// Every value of the row is well-formed and fits.
pub open spec fn row_fits(r: Seq<ValueModel>) -> bool {
    forall|i: int| 0 <= i < r.len() ==> value_wf(#[trigger] r[i]) && value_fits(r[i])
}

proof fn lemma_read_values_n(r: Seq<ValueModel>, rest: Seq<u8>)
    requires
        row_fits(r),
    ensures
        read_values_n(values_body(r) + rest, r.len()) == Some((r, values_body(r).len())),
    decreases r.len(),
{
    if r.len() > 0 {
        let p = r.drop_last();
        let v = r.last();
        assert(value_wf(r[r.len() - 1]) && value_fits(r[r.len() - 1]));
        assert(values_body(r) + rest =~= values_body(p) + (value_bytes(v) + rest));
        assert(row_fits(p)) by {
            assert forall|i: int| 0 <= i < p.len() implies value_wf(#[trigger] p[i]) && value_fits(
                p[i],
            ) by {
                assert(p[i] == r[i]);
            }
        }
        lemma_read_values_n(p, value_bytes(v) + rest);
        let b = values_body(r) + rest;
        let k = values_body(p).len();
        assert(b.skip(k as int) =~= value_bytes(v) + rest);
        lemma_read_value(v, rest);
        assert(p.push(v) =~= r);
    }
}

/// Reading the bytes of a row gives it back.
pub proof fn lemma_read_row(r: Seq<ValueModel>, rest: Seq<u8>)
    requires
        row_fits(r),
        r.len() <= u64::MAX,
    ensures
        read_row(row_bytes(r) + rest) == Some((r, row_bytes(r).len())),
{
    let b = row_bytes(r) + rest;
    lemma_be_u64_roundtrip(r.len() as u64);
    lemma_read_values_n(r, rest);
    assert(b.skip(8) =~= values_body(r) + rest);
    assert(b.subrange(0, 8) =~= u64_be(r.len() as u64));
}

/// Appends a row's bytes.
pub fn encode_row(out: &mut Vec<u8>, row: &Row)
    ensures
        final(out)@ == old(out)@ + row_bytes(row_view(row@)),
{
    push_u64(out, row.len() as u64);
    let ghost start = out@;
    let mut i: usize = 0;
    while i < row.len()
        invariant
            i <= row@.len(),
            out@ == start + values_body(row_view(row@.take(i as int))),
        decreases row@.len() - i,
    {
        encode_value(out, &row[i]);
        assert(row_view(row@.take(i + 1)).drop_last() =~= row_view(row@.take(i as int)));
        i = i + 1;
        assert(out@ =~= start + values_body(row_view(row@.take(i as int))));
    }
    assert(row@.take(i as int) =~= row@);
    assert(final(out)@ =~= old(out)@ + row_bytes(row_view(row@)));
}

proof fn lemma_values_step(t: Seq<u8>, i: nat, s: Seq<ValueModel>, k: nat)
    requires
        read_values_n(t, i) == Some((s, k)),
        k <= t.len(),
    ensures
        match read_value(t.skip(k as int)) {
            Some((v, m)) => read_values_n(t, i + 1) == Some((s.push(v), k + m)),
            None => read_values_n(t, i + 1) is None,
        },
{
    assert(read_values_n(t, i + 1) == match read_values_n(t, i) {
        Some((s, k)) => if k <= t.len() {
            match read_value(t.skip(k as int)) {
                Some((v, m)) => Some((s.push(v), k + m)),
                None => None,
            }
        } else {
            None
        },
        None => None,
    });
}

proof fn lemma_read_values_n_fails_after(b: Seq<u8>, i: nat, n: nat)
    requires
        i <= n,
        read_values_n(b, i) is None,
    ensures
        read_values_n(b, n) is None,
    decreases n - i,
{
    if i < n {
        lemma_read_values_n_fails_after(b, (i + 1) as nat, n);
    }
}

/// Reads a row at `pos`, exactly as `read_row` says.
pub fn decode_row(data: &[u8], pos: usize) -> (r: Option<(Row, usize)>)
    requires
        pos <= data@.len(),
    ensures
        match read_row(data@.skip(pos as int)) {
            Some((m, n)) => r matches Some((row, end)) && row_view(row@) == m && row_wf(row@)
                && end == pos + n,
            None => r is None,
        },
{
    let ghost b = data@.skip(pos as int);
    if data.len() - pos < 8 {
        return None;
    }
    let n = read_u64(data, pos);
    assert(data@.subrange(pos as int, pos + 8) =~= b.subrange(0, 8));
    assert(be_u64(b) == be_u64(b.subrange(0, 8)));
    let ghost t = b.skip(8);
    assert(t =~= data@.skip(pos + 8));
    let mut row: Row = Vec::new();
    let mut k: usize = pos + 8;
    let mut i: u64 = 0;
    while i < n
        invariant
            pos + 8 <= k <= data@.len(),
            i <= n,
            t == data@.skip(pos + 8),
            b == data@.skip(pos as int),
            t == b.skip(8),
            b.len() >= 8,
            n == be_u64(b),
            read_values_n(t, i as nat) == Some((row_view(row@), (k - pos - 8) as nat)),
            row_wf(row@),
        decreases n - i,
    {
        let ghost rk = (k - pos - 8) as nat;
        assert(t.skip(rk as int) =~= data@.skip(k as int));
        proof {
            lemma_values_step(t, i as nat, row_view(row@), rk);
        }
        match decode_value(data, k) {
            Some((v, e)) => {
                let ghost old_row = row@;
                row.push(v);
                proof {
                    assert(row_view(row@) =~= row_view(old_row).push(v@));
                    assert forall|j: int| 0 <= j < row@.len() implies (#[trigger] row@[j]).wf() by {
                        if j < old_row.len() {
                            assert(row@[j] == old_row[j]);
                        }
                    }
                }
                k = e;
            },
            None => {
                proof {
                    lemma_read_values_n_fails_after(t, (i + 1) as nat, n as nat);
                }
                return None;
            },
        }
        i = i + 1;
    }
    Some((row, k))
}

pub open spec fn datatype_byte(t: DataType) -> u8 {
    match t {
        DataType::Boolean => 0,
        DataType::Integer => 1,
        DataType::Float => 2,
        DataType::String => 3,
    }
}

pub open spec fn byte_datatype(b: u8) -> Option<DataType> {
    if b == 0 {
        Some(DataType::Boolean)
    } else if b == 1 {
        Some(DataType::Integer)
    } else if b == 2 {
        Some(DataType::Float)
    } else if b == 3 {
        Some(DataType::String)
    } else {
        None
    }
}

pub open spec fn bool_byte(b: bool) -> u8 {
    if b {
        1
    } else {
        0
    }
}

/// A column's default: absent, or present and its value.
pub open spec fn default_bytes(d: Option<ValueModel>) -> Seq<u8> {
    match d {
        None => seq![0u8],
        Some(v) => seq![1u8] + value_bytes(v),
    }
}

/// A column: its name, type, whether it may be null, whether it is the
/// primary key, and its default.
pub open spec fn column_bytes(c: ColumnModel) -> Seq<u8> {
    chars_bytes(c.name) + seq![
        datatype_byte(c.datatype),
        bool_byte(c.nullable),
        bool_byte(c.primary_key),
    ] + default_bytes(c.default)
}

/// Reads a column from the front of `b`: it and the bytes it took.
#[verifier::opaque]
pub open spec fn read_column(b: Seq<u8>) -> Option<(ColumnModel, nat)> {
    match read_chars(b) {
        Some((name, n0)) => {
            let n = n0 as int;
            if b.len() >= n + 4 && byte_datatype(b[n as int]) is Some && b[n + 1]
            <= 1 && b[n + 2] <= 1 {
            let datatype = byte_datatype(b[n as int])->0;
            let nullable = b[n + 1] == 1;
            let primary_key = b[n + 2] == 1;
            if b[n + 3] == 0 {
                Some(
                    (
                        ColumnModel { name, datatype, nullable, default: None, primary_key },
                        (n + 4) as nat,
                    ),
                )
            } else if b[n + 3] == 1 {
                match read_value(b.skip(n + 4)) {
                    Some((v, m)) => Some(
                        (
                            ColumnModel { name, datatype, nullable, default: Some(v), primary_key },
                            (n + 4 + m) as nat,
                        ),
                    ),
                    None => None,
                }
            } else {
                None
            }
        } else {
            None
        }},
        None => None,
    }
}

/// A column whose name and default fit their length fields.
pub open spec fn column_fits(c: ColumnModel) -> bool {
    &&& c.name.len() <= u64::MAX
    &&& c.default matches Some(v) ==> value_wf(v) && value_fits(v)
}

proof fn lemma_read_column(c: ColumnModel, rest: Seq<u8>)
    requires
        column_fits(c),
    ensures
        read_column(column_bytes(c) + rest) == Some((c, column_bytes(c).len())),
{
    reveal(read_column);
    let b = column_bytes(c) + rest;
    let nb = chars_bytes(c.name);
    let tail = seq![datatype_byte(c.datatype), bool_byte(c.nullable), bool_byte(c.primary_key)]
        + default_bytes(c.default) + rest;
    assert(b =~= nb + tail);
    lemma_chars_bytes_len(c.name, tail);
    let n = nb.len() as int;
    assert(b[n as int] == datatype_byte(c.datatype));
    assert(b[n + 1] == bool_byte(c.nullable));
    assert(b[n + 2] == bool_byte(c.primary_key));
    match c.default {
        None => {
            assert(b[n + 3] == 0u8);
        },
        Some(v) => {
            assert(b[n + 3] == 1u8);
            assert(b.skip(n + 4) =~= value_bytes(v) + rest);
            lemma_read_value(v, rest);
        },
    }
}

/// The columns of a table, one after another.
pub open spec fn columns_body(cs: Seq<ColumnModel>) -> Seq<u8>
    decreases cs.len(),
{
    if cs.len() == 0 {
        Seq::empty()
    } else {
        columns_body(cs.drop_last()) + column_bytes(cs.last())
    }
}

/// A table: its name, the number of its columns, then the columns.
pub open spec fn table_bytes(t: TableModel) -> Seq<u8> {
    chars_bytes(t.name) + u64_be(t.columns.len() as u64) + columns_body(t.columns)
}

/// Reads `n` columns from the front of `b`.
pub open spec fn read_columns_n(b: Seq<u8>, n: nat) -> Option<(Seq<ColumnModel>, nat)>
    decreases n,
{
    if n == 0 {
        Some((Seq::empty(), 0))
    } else {
        match read_columns_n(b, (n - 1) as nat) {
            Some((s, k)) => if k <= b.len() {
                match read_column(b.skip(k as int)) {
                    Some((c, m)) => Some((s.push(c), k + m)),
                    None => None,
                }
            } else {
                None
            },
            None => None,
        }
    }
}

/// Reads a table from the front of `b`.
pub open spec fn read_table(b: Seq<u8>) -> Option<TableModel> {
    match read_chars(b) {
        Some((name, n)) => if b.len() >= n + 8 {
            match read_columns_n(b.skip(n as int + 8), be_u64(b.skip(n as int)) as nat) {
                Some((columns, k)) => Some(TableModel { name, columns }),
                None => None,
            }
        } else {
            None
        },
        None => None,
    }
}

/// Every column of the table fits.
pub open spec fn table_fits(t: TableModel) -> bool {
    &&& t.name.len() <= u64::MAX
    &&& t.columns.len() <= u64::MAX
    &&& forall|i: int| 0 <= i < t.columns.len() ==> column_fits(#[trigger] t.columns[i])
}

proof fn lemma_read_columns_n(cs: Seq<ColumnModel>, rest: Seq<u8>)
    requires
        forall|i: int| 0 <= i < cs.len() ==> column_fits(#[trigger] cs[i]),
    ensures
        read_columns_n(columns_body(cs) + rest, cs.len()) == Some((cs, columns_body(cs).len())),
    decreases cs.len(),
{
    if cs.len() > 0 {
        let p = cs.drop_last();
        let c = cs.last();
        assert(column_fits(cs[cs.len() - 1]));
        assert(columns_body(cs) + rest =~= columns_body(p) + (column_bytes(c) + rest));
        assert forall|i: int| 0 <= i < p.len() implies column_fits(#[trigger] p[i]) by {
            assert(p[i] == cs[i]);
        }
        lemma_read_columns_n(p, column_bytes(c) + rest);
        let b = columns_body(cs) + rest;
        let k = columns_body(p).len();
        assert(b.skip(k as int) =~= column_bytes(c) + rest);
        lemma_read_column(c, rest);
        assert(p.push(c) =~= cs);
    }
}

/// Reading the bytes of a table gives it back.
#[verifier::rlimit(40)]
#[verifier::spinoff_prover]
pub proof fn lemma_read_table(t: TableModel, rest: Seq<u8>)
    requires
        table_fits(t),
    ensures
        read_table(table_bytes(t) + rest) == Some(t),
{
    let b = table_bytes(t) + rest;
    let nb = chars_bytes(t.name);
    let tail = u64_be(t.columns.len() as u64) + columns_body(t.columns) + rest;
    assert(b =~= nb + tail);
    lemma_chars_bytes_len(t.name, tail);
    let n = nb.len();
    lemma_be_u64_roundtrip(t.columns.len() as u64);
    assert(b.skip(n as int).subrange(0, 8) =~= u64_be(t.columns.len() as u64));
    assert(be_u64(b.skip(n as int)) == be_u64(b.skip(n as int).subrange(0, 8)));
    assert(b.skip(n as int + 8) =~= columns_body(t.columns) + rest);
    lemma_read_columns_n(t.columns, rest);
}

fn datatype_to_byte(t: DataType) -> (b: u8)
    ensures
        b == datatype_byte(t),
{
    match t {
        DataType::Boolean => 0,
        DataType::Integer => 1,
        DataType::Float => 2,
        DataType::String => 3,
    }
}

fn byte_to_datatype(b: u8) -> (t: Option<DataType>)
    ensures
        t == byte_datatype(b),
{
    if b == 0 {
        Some(DataType::Boolean)
    } else if b == 1 {
        Some(DataType::Integer)
    } else if b == 2 {
        Some(DataType::Float)
    } else if b == 3 {
        Some(DataType::String)
    } else {
        None
    }
}

fn encode_column(out: &mut Vec<u8>, c: &Column)
    ensures
        final(out)@ == old(out)@ + column_bytes(c@),
{
    let name = super::text::chars_of(c.name.as_str());
    push_chars(out, &name);
    out.push(datatype_to_byte(c.datatype));
    out.push(if c.nullable { 1u8 } else { 0u8 });
    out.push(if c.primary_key { 1u8 } else { 0u8 });
    match &c.default {
        None => {
            out.push(0u8);
        },
        Some(v) => {
            out.push(1u8);
            encode_value(out, v);
        },
    }
    assert(final(out)@ =~= old(out)@ + column_bytes(c@));
}

/// The bytes a table is stored as.
pub fn encode_table(t: &Table) -> (r: Vec<u8>)
    ensures
        r@ == table_bytes(t@),
{
    let mut out: Vec<u8> = Vec::new();
    let name = super::text::chars_of(t.name.as_str());
    push_chars(&mut out, &name);
    push_u64(&mut out, t.columns.len() as u64);
    let ghost start = out@;
    let ghost cs = t@.columns;
    let mut i: usize = 0;
    while i < t.columns.len()
        invariant
            i <= t.columns@.len(),
            cs == t@.columns,
            cs.len() == t.columns@.len(),
            out@ == start + columns_body(cs.take(i as int)),
        decreases t.columns@.len() - i,
    {
        encode_column(&mut out, &t.columns[i]);
        assert(cs.take(i + 1).drop_last() =~= cs.take(i as int));
        assert(cs[i as int] == t.columns@[i as int]@);
        i = i + 1;
        assert(out@ =~= start + columns_body(cs.take(i as int)));
    }
    assert(cs.take(i as int) =~= cs);
    assert(out@ =~= table_bytes(t@));
    out
}

fn decode_column(data: &[u8], pos: usize) -> (r: Option<(Column, usize)>)
    requires
        pos <= data@.len(),
    ensures
        match read_column(data@.skip(pos as int)) {
            Some((m, n)) => r matches Some((c, end)) && c@ == m && end == pos + n && (
            c.default matches Some(v) ==> v.wf()),
            None => r is None,
        },
        r matches Some((c, end)) ==> end <= data@.len(),
{
    reveal(read_column);
    let ghost b = data@.skip(pos as int);
    let (name, p1) = match read_chars_at(data, pos) {
        Some(x) => x,
        None => {
            return None;
        },
    };
    let ghost n = p1 - pos;
    if data.len() - p1 < 4 {
        return None;
    }
    assert(b[n as int] == data[p1 as int]);
    assert(b[n + 1] == data[p1 + 1]);
    assert(b[n + 2] == data[p1 + 2]);
    assert(b[n + 3] == data[p1 + 3]);
    let datatype = match byte_to_datatype(data[p1]) {
        Some(t) => t,
        None => {
            return None;
        },
    };
    if data[p1 + 1] > 1 || data[p1 + 2] > 1 {
        return None;
    }
    let nullable = data[p1 + 1] == 1;
    let primary_key = data[p1 + 2] == 1;
    let name = string_of(&name);
    if data[p1 + 3] == 0 {
        Some((Column { name, datatype, nullable, default: None, primary_key }, p1 + 4))
    } else if data[p1 + 3] == 1 {
        assert(b.skip(n + 4) =~= data@.skip(p1 + 4));
        match decode_value(data, p1 + 4) {
            Some((v, e)) => Some(
                (Column { name, datatype, nullable, default: Some(v), primary_key }, e),
            ),
            None => None,
        }
    } else {
        None
    }
}

proof fn lemma_columns_step(t: Seq<u8>, i: nat, s: Seq<ColumnModel>, k: nat)
    requires
        read_columns_n(t, i) == Some((s, k)),
        k <= t.len(),
    ensures
        match read_column(t.skip(k as int)) {
            Some((c, m)) => read_columns_n(t, i + 1) == Some((s.push(c), k + m)),
            None => read_columns_n(t, i + 1) is None,
        },
{
    assert(read_columns_n(t, i + 1) == match read_columns_n(t, i) {
        Some((s, k)) => if k <= t.len() {
            match read_column(t.skip(k as int)) {
                Some((c, m)) => Some((s.push(c), k + m)),
                None => None,
            }
        } else {
            None
        },
        None => None,
    });
}

proof fn lemma_read_columns_n_fails_after(b: Seq<u8>, i: nat, n: nat)
    requires
        i <= n,
        read_columns_n(b, i) is None,
    ensures
        read_columns_n(b, n) is None,
    decreases n - i,
{
    if i < n {
        lemma_read_columns_n_fails_after(b, (i + 1) as nat, n);
    }
}

/// The table stored in `data`, exactly as `read_table` says.
pub fn decode_table(data: &[u8]) -> (r: Option<Table>)
    ensures
        match read_table(data@) {
            Some(m) => r matches Some(t) && t@ == m,
            None => r is None,
        },
{
    let ghost b = data@;
    assert(data@.skip(0) =~= b);
    let (name, p1) = match read_chars_at(data, 0) {
        Some(x) => x,
        None => {
            return None;
        },
    };
    if data.len() - p1 < 8 {
        return None;
    }
    let n = read_u64(data, p1);
    assert(data@.subrange(p1 as int, p1 + 8) =~= b.skip(p1 as int).subrange(0, 8));
    assert(be_u64(b.skip(p1 as int)) == be_u64(b.skip(p1 as int).subrange(0, 8)));
    let ghost t = b.skip(p1 + 8);
    let mut columns: Vec<Column> = Vec::new();
    let mut k: usize = p1 + 8;
    let mut i: u64 = 0;
    while i < n
        invariant
            p1 + 8 <= k <= data@.len(),
            i <= n,
            t == data@.skip(p1 + 8),
            b == data@,
            n == be_u64(b.skip(p1 as int)),
            read_chars(b) == Some((name@, p1 as nat)),
            read_columns_n(t, i as nat) == Some(
                (columns@.map_values(|c: Column| c@), (k - p1 - 8) as nat),
            ),
        decreases n - i,
    {
        let ghost rk = (k - p1 - 8) as nat;
        assert(t.skip(rk as int) =~= data@.skip(k as int));
        proof {
            lemma_columns_step(t, i as nat, columns@.map_values(|c: Column| c@), rk);
        }
        match decode_column(data, k) {
            Some((c, e)) => {
                let ghost old_cols = columns@;
                columns.push(c);
                proof {
                    assert(columns@.map_values(|c: Column| c@) =~= old_cols.map_values(
                        |c: Column| c@,
                    ).push(c@));
                }
                k = e;
            },
            None => {
                proof {
                    lemma_read_columns_n_fails_after(t, (i + 1) as nat, n as nat);
                }
                return None;
            },
        }
        i = i + 1;
    }
    Some(Table { name: string_of(&name), columns })
}

} // verus!
