//! An order-preserving encoding of the parts that keys are made of.
use vstd::prelude::*;

verus! {

/// The eight bytes of `v`, most significant first.
pub open spec fn u64_be(v: u64) -> Seq<u8> {
    seq![
        (v >> 56u64) as u8,
        (v >> 48u64) as u8,
        (v >> 40u64) as u8,
        (v >> 32u64) as u8,
        (v >> 24u64) as u8,
        (v >> 16u64) as u8,
        (v >> 8u64) as u8,
        v as u8,
    ]
}

/// The number whose big-endian bytes are the first eight of `b`.
pub open spec fn be_u64(b: Seq<u8>) -> u64 {
    ((b[0] as u64) << 56u64) | ((b[1] as u64) << 48u64) | ((b[2] as u64) << 40u64) | ((b[3] as u64)
        << 32u64) | ((b[4] as u64) << 24u64) | ((b[5] as u64) << 16u64) | ((b[6] as u64) << 8u64)
        | (b[7] as u64)
}

pub proof fn lemma_be_u64_roundtrip(v: u64)
    ensures
        be_u64(u64_be(v)) == v,
        u64_be(v).len() == 8,
{
    let b = u64_be(v);
    let (b0, b1, b2, b3, b4, b5, b6, b7) = (b[0], b[1], b[2], b[3], b[4], b[5], b[6], b[7]);
    assert(b0 == (v >> 56u64) as u8 && b1 == (v >> 48u64) as u8 && b2 == (v >> 40u64) as u8 && b3
        == (v >> 32u64) as u8 && b4 == (v >> 24u64) as u8 && b5 == (v >> 16u64) as u8 && b6 == (v
        >> 8u64) as u8 && b7 == v as u8);
    assert(((b0 as u64) << 56u64) | ((b1 as u64) << 48u64) | ((b2 as u64) << 40u64) | ((b3 as u64)
        << 32u64) | ((b4 as u64) << 24u64) | ((b5 as u64) << 16u64) | ((b6 as u64) << 8u64) | (
    b7 as u64) == v) by (bit_vector)
        requires
            b0 == (v >> 56u64) as u8,
            b1 == (v >> 48u64) as u8,
            b2 == (v >> 40u64) as u8,
            b3 == (v >> 32u64) as u8,
            b4 == (v >> 24u64) as u8,
            b5 == (v >> 16u64) as u8,
            b6 == (v >> 8u64) as u8,
            b7 == v as u8,
    ;
}

pub proof fn lemma_u64_be_of_bytes(b: Seq<u8>)
    requires
        b.len() == 8,
    ensures
        u64_be(be_u64(b)) == b,
{
    let (b0, b1, b2, b3, b4, b5, b6, b7) = (b[0], b[1], b[2], b[3], b[4], b[5], b[6], b[7]);
    let v = be_u64(b);
    assert(v == ((b0 as u64) << 56u64) | ((b1 as u64) << 48u64) | ((b2 as u64) << 40u64) | ((
    b3 as u64) << 32u64) | ((b4 as u64) << 24u64) | ((b5 as u64) << 16u64) | ((b6 as u64) << 8u64)
        | (b7 as u64));
    assert(b0 == (v >> 56u64) as u8 && b1 == (v >> 48u64) as u8 && b2 == (v >> 40u64) as u8 && b3
        == (v >> 32u64) as u8 && b4 == (v >> 24u64) as u8 && b5 == (v >> 16u64) as u8 && b6 == (v
        >> 8u64) as u8 && b7 == v as u8) by (bit_vector)
        requires
            v == ((b0 as u64) << 56u64) | ((b1 as u64) << 48u64) | ((b2 as u64) << 40u64) | ((
            b3 as u64) << 32u64) | ((b4 as u64) << 24u64) | ((b5 as u64) << 16u64) | ((b6 as u64)
                << 8u64) | (b7 as u64),
    ;
    assert(u64_be(v) =~= b);
}

/// Appends the big-endian bytes of `v` to `out`.
pub fn push_u64(out: &mut Vec<u8>, v: u64)
    ensures
        final(out)@ == old(out)@ + u64_be(v),
{
    out.push((v >> 56u64) as u8);
    out.push((v >> 48u64) as u8);
    out.push((v >> 40u64) as u8);
    out.push((v >> 32u64) as u8);
    out.push((v >> 24u64) as u8);
    out.push((v >> 16u64) as u8);
    out.push((v >> 8u64) as u8);
    out.push(v as u8);
    assert(final(out)@ =~= old(out)@ + u64_be(v));
}

/// Reads the eight bytes at `pos` as a big-endian number.
pub fn read_u64(data: &[u8], pos: usize) -> (v: u64)
    requires
        pos + 8 <= data@.len(),
    ensures
        v == be_u64(data@.subrange(pos as int, pos + 8)),
{
    ((data[pos] as u64) << 56u64) | ((data[pos + 1] as u64) << 48u64) | ((data[pos + 2] as u64)
        << 40u64) | ((data[pos + 3] as u64) << 32u64) | ((data[pos + 4] as u64) << 24u64) | ((
    data[pos + 5] as u64) << 16u64) | ((data[pos + 6] as u64) << 8u64) | (data[pos + 7] as u64)
}

/// How one byte is written inside an escaped byte string: a zero byte
/// becomes `0, 255`, any other byte stands for itself.
pub open spec fn escape_unit(b: u8) -> Seq<u8> {
    if b == 0 {
        seq![0u8, 255u8]
    } else {
        seq![b]
    }
}

/// The escaped bytes of `s`, without the terminator.
pub open spec fn escape_body(s: Seq<u8>) -> Seq<u8>
    decreases s.len(),
{
    if s.len() == 0 {
        Seq::empty()
    } else {
        escape_unit(s[0]) + escape_body(s.drop_first())
    }
}

/// A byte string as it stands in a key: escaped, then terminated by `0, 0`.
/// No escaped string is a proper prefix of another, so what follows it in a
/// key can be told apart, and the order of byte strings is kept.
pub open spec fn escape(s: Seq<u8>) -> Seq<u8> {
    escape_body(s) + seq![0u8, 0u8]
}

/// Reads an escaped byte string from the front of `s`: the string and the
/// number of bytes it took, or `None` where `s` does not start with one.
pub open spec fn unescape(s: Seq<u8>) -> Option<(Seq<u8>, nat)>
    decreases s.len(),
{
    if s.len() == 0 {
        None
    } else if s[0] != 0 {
        match unescape(s.drop_first()) {
            Some((r, n)) => Some((seq![s[0]] + r, n + 1)),
            None => None,
        }
    } else if s.len() < 2 {
        None
    } else if s[1] == 0 {
        Some((Seq::empty(), 2))
    } else if s[1] == 255 {
        match unescape(s.subrange(2, s.len() as int)) {
            Some((r, n)) => Some((seq![0u8] + r, n + 2)),
            None => None,
        }
    } else {
        None
    }
}

pub proof fn lemma_escape_body_push(s: Seq<u8>, b: u8)
    ensures
        escape_body(s.push(b)) == escape_body(s) + escape_unit(b),
    decreases s.len(),
{
    if s.len() == 0 {
        assert(s.push(b).drop_first() =~= Seq::<u8>::empty());
        assert(s.push(b)[0] == b);
        assert(escape_body(Seq::<u8>::empty()) =~= Seq::<u8>::empty());
        assert(escape_body(s.push(b)) =~= escape_unit(b));
    } else {
        assert(s.push(b).drop_first() =~= s.drop_first().push(b));
        lemma_escape_body_push(s.drop_first(), b);
        assert(escape_body(s.push(b)) =~= escape_body(s) + escape_unit(b));
    }
}

/// Reading an escaped string back gives the string, whatever follows it.
pub proof fn lemma_unescape_escape(s: Seq<u8>, rest: Seq<u8>)
    ensures
        unescape(escape(s) + rest) == Some((s, escape(s).len())),
    decreases s.len(),
{
    let e = escape(s) + rest;
    if s.len() == 0 {
        assert(escape(s) =~= seq![0u8, 0u8]);
        assert(e[0] == 0 && e[1] == 0);
    } else {
        lemma_unescape_escape(s.drop_first(), rest);
        let tail = escape(s.drop_first()) + rest;
        if s[0] == 0 {
            assert(e =~= seq![0u8, 255u8] + tail);
            assert(e.subrange(2, e.len() as int) =~= tail);
            assert(seq![0u8] + s.drop_first() =~= s);
        } else {
            assert(e =~= seq![s[0]] + tail);
            assert(e.drop_first() =~= tail);
            assert(seq![s[0]] + s.drop_first() =~= s);
        }
    }
}

/// Whatever is read as an escaped string was written as one.
pub proof fn lemma_unescape_canonical(s: Seq<u8>)
    ensures
        unescape(s) matches Some((r, n)) ==> n <= s.len() && s.subrange(0, n as int) == escape(r),
    decreases s.len(),
{
    if unescape(s) is None {
        return;
    }
    let (r, n) = unescape(s)->0;
    if s[0] != 0 {
        lemma_unescape_canonical(s.drop_first());
        let (r1, n1) = unescape(s.drop_first())->0;
        assert(r.drop_first() =~= r1);
        assert(s.subrange(0, n as int) =~= seq![s[0]] + s.drop_first().subrange(0, n1 as int));
        assert(escape(r) =~= escape_unit(r[0]) + escape(r1));
    } else if s[1] == 0 {
        assert(s.subrange(0, 2) =~= escape(Seq::<u8>::empty()));
    } else {
        let t = s.subrange(2, s.len() as int);
        lemma_unescape_canonical(t);
        let (r1, n1) = unescape(t)->0;
        assert(r.drop_first() =~= r1);
        assert(s.subrange(0, n as int) =~= seq![0u8, 255u8] + t.subrange(0, n1 as int));
        assert(escape(r) =~= escape_unit(r[0]) + escape(r1));
    }
}

/// Appends `s` to `out`, escaped and terminated.
pub fn push_escaped(out: &mut Vec<u8>, s: &[u8])
    ensures
        final(out)@ == old(out)@ + escape(s@),
{
    let ghost start = out@;
    let mut i: usize = 0;
    while i < s.len()
        invariant
            i <= s@.len(),
            out@ == start + escape_body(s@.take(i as int)),
        decreases s@.len() - i,
    {
        let b = s[i];
        if b == 0 {
            out.push(0u8);
            out.push(255u8);
        } else {
            out.push(b);
        }
        proof {
            lemma_escape_body_push(s@.take(i as int), b);
            assert(s@.take(i as int).push(b) =~= s@.take(i + 1));
        }
        i = i + 1;
        assert(out@ =~= start + escape_body(s@.take(i as int)));
    }
    assert(s@.take(i as int) =~= s@);
    out.push(0u8);
    out.push(0u8);
    assert(final(out)@ =~= old(out)@ + escape(s@));
}

/// Reads an escaped byte string that starts at `pos`: the string and the
/// position just after its terminator, exactly as `unescape` says.
pub fn read_escaped(data: &[u8], pos: usize) -> (r: Option<(Vec<u8>, usize)>)
    requires
        pos <= data@.len(),
    ensures
        match unescape(data@.skip(pos as int)) {
            Some((s, n)) => r matches Some((v, end)) && v@ == s && end == pos + n,
            None => r is None,
        },
{
    let mut acc: Vec<u8> = Vec::new();
    let mut i: usize = pos;
    loop
        invariant
            pos <= i <= data@.len(),
            unescape(data@.skip(pos as int)) == (match unescape(data@.skip(i as int)) {
                Some((s, n)) => Some((acc@ + s, (n + (i - pos)) as nat)),
                None => None::<(Seq<u8>, nat)>,
            }),
        decreases data@.len() - i,
    {
        let ghost rest = data@.skip(i as int);
        if i >= data.len() {
            return None;
        }
        let b = data[i];
        if b != 0 {
            assert(rest.drop_first() =~= data@.skip(i + 1));
            let ghost old_acc = acc@;
            acc.push(b);
            proof {
                match unescape(rest.drop_first()) {
                    Some((s, n)) => {
                        assert(old_acc + (seq![b] + s) =~= acc@ + s);
                    },
                    None => {},
                }
            }
            i = i + 1;
        } else {
            if i + 1 >= data.len() {
                return None;
            }
            let c = data[i + 1];
            if c == 0 {
                assert(acc@ + Seq::<u8>::empty() =~= acc@);
                return Some((acc, i + 2));
            } else if c == 255 {
                assert(rest.subrange(2, rest.len() as int) =~= data@.skip(i + 2));
                let ghost old_acc = acc@;
                acc.push(0u8);
                proof {
                    match unescape(data@.skip(i + 2)) {
                        Some((s, n)) => {
                            assert(old_acc + (seq![0u8] + s) =~= acc@ + s);
                        },
                        None => {},
                    }
                }
                i = i + 2;
            } else {
                return None;
            }
        }
    }
}


pub proof fn lemma_escape_body_concat(a: Seq<u8>, b: Seq<u8>)
    ensures
        escape_body(a + b) == escape_body(a) + escape_body(b),
    decreases a.len(),
{
    if a.len() == 0 {
        assert(a + b =~= b);
        assert(escape_body(a) =~= Seq::<u8>::empty());
        assert(escape_body(a) + escape_body(b) =~= escape_body(b));
    } else {
        lemma_escape_body_concat(a.drop_first(), b);
        assert((a + b).drop_first() =~= a.drop_first() + b);
        assert((a + b)[0] == a[0]);
        assert(escape_body(a + b) =~= escape_body(a) + escape_body(b));
    }
}

} // verus!
