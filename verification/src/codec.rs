//! The binary encoding behind the persistent stores.
//!
//! A container is written whole and read whole: a record count followed
//! by the records, each a length-prefixed string key and its entry.
//! Multi-byte integers are little-endian; characters are stored as the
//! four bytes of their Unicode scalar value.  Decoding is strict: a
//! malformed or truncated buffer, or trailing bytes, fail the whole
//! operation.

use vstd::prelude::*;
use vstd::utf8::is_scalar;

verus! {

/// The eight little-endian bytes of `x`.
pub open spec fn enc_u64(x: u64) -> Seq<u8> {
    seq![
        (x & 0xff) as u8,
        ((x >> 8) & 0xff) as u8,
        ((x >> 16) & 0xff) as u8,
        ((x >> 24) & 0xff) as u8,
        ((x >> 32) & 0xff) as u8,
        ((x >> 40) & 0xff) as u8,
        ((x >> 48) & 0xff) as u8,
        ((x >> 56) & 0xff) as u8,
    ]
}

/// The value of the eight little-endian bytes at `p`.
pub open spec fn combine_u64(b: Seq<u8>, p: int) -> u64 {
    (b[p] as u64) | ((b[p + 1] as u64) << 8) | ((b[p + 2] as u64) << 16) | ((b[p + 3] as u64)
        << 24) | ((b[p + 4] as u64) << 32) | ((b[p + 5] as u64) << 40) | ((b[p + 6] as u64) << 48)
        | ((b[p + 7] as u64) << 56)
}

/// Reads a `u64` at `p`: eight little-endian bytes.
pub open spec fn dec_u64(b: Seq<u8>, p: int) -> Option<(u64, int)> {
    if 0 <= p && p + 8 <= b.len() {
        Some((combine_u64(b, p), p + 8))
    } else {
        None
    }
}

/// Reading back the eight bytes of `x` yields `x`.
pub proof fn lemma_dec_u64_of_enc(b: Seq<u8>, p: int, x: u64)
    requires
        0 <= p,
        p + 8 <= b.len(),
        b.subrange(p, p + 8) == enc_u64(x),
    ensures
        dec_u64(b, p) == Some((x, p + 8)),
{
    assert(b[p] == enc_u64(x)[0] && b[p + 1] == enc_u64(x)[1] && b[p + 2] == enc_u64(x)[2] && b[p
        + 3] == enc_u64(x)[3] && b[p + 4] == enc_u64(x)[4] && b[p + 5] == enc_u64(x)[5] && b[p + 6]
        == enc_u64(x)[6] && b[p + 7] == enc_u64(x)[7]) by {
        assert(forall|i: int| 0 <= i < 8 ==> #[trigger] b.subrange(p, p + 8)[i] == b[p + i]);
    }
    assert((((x & 0xff) as u8) as u64) | ((((x >> 8) & 0xff) as u8 as u64) << 8) | ((((x >> 16)
        & 0xff) as u8 as u64) << 16) | ((((x >> 24) & 0xff) as u8 as u64) << 24) | ((((x >> 32)
        & 0xff) as u8 as u64) << 32) | ((((x >> 40) & 0xff) as u8 as u64) << 40) | ((((x >> 48)
        & 0xff) as u8 as u64) << 48) | ((((x >> 56) & 0xff) as u8 as u64) << 56) == x)
        by (bit_vector);
}

/// The four little-endian bytes of the scalar value of `c`.
pub open spec fn enc_char(c: char) -> Seq<u8> {
    seq![
        ((c as u32) & 0xff) as u8,
        (((c as u32) >> 8) & 0xff) as u8,
        (((c as u32) >> 16) & 0xff) as u8,
        (((c as u32) >> 24) & 0xff) as u8,
    ]
}

/// The value of the four little-endian bytes at `p`.
pub open spec fn combine_u32(b: Seq<u8>, p: int) -> u32 {
    (b[p] as u32) | ((b[p + 1] as u32) << 8) | ((b[p + 2] as u32) << 16) | ((b[p + 3] as u32)
        << 24)
}

/// Reads a character at `p`: four little-endian bytes that must form a
/// Unicode scalar value.
pub open spec fn dec_char(b: Seq<u8>, p: int) -> Option<(char, int)> {
    if 0 <= p && p + 4 <= b.len() && is_scalar(combine_u32(b, p)) {
        Some(((combine_u32(b, p) as char), p + 4))
    } else {
        None
    }
}

/// Reading back the four bytes of `c` yields `c`.
pub proof fn lemma_dec_char_of_enc(b: Seq<u8>, p: int, c: char)
    requires
        0 <= p,
        p + 4 <= b.len(),
        b.subrange(p, p + 4) == enc_char(c),
    ensures
        dec_char(b, p) == Some((c, p + 4)),
{
    assert(b[p] == enc_char(c)[0] && b[p + 1] == enc_char(c)[1] && b[p + 2] == enc_char(c)[2] && b[
        p + 3] == enc_char(c)[3]) by {
        assert(forall|i: int| 0 <= i < 4 ==> #[trigger] b.subrange(p, p + 4)[i] == b[p + i]);
    }
    let u = c as u32;
    assert((((u & 0xff) as u8) as u32) | ((((u >> 8) & 0xff) as u8 as u32) << 8) | ((((u >> 16)
        & 0xff) as u8 as u32) << 16) | ((((u >> 24) & 0xff) as u8 as u32) << 24) == u)
        by (bit_vector);
    vstd::utf8::char_is_scalar(c);
    vstd::utf8::char_u32_cast(c, u);
}

/// The concatenated encodings of the elements of `s`.
pub open spec fn enc_seq<T>(s: Seq<T>, enc_elem: spec_fn(T) -> Seq<u8>) -> Seq<u8>
    decreases s.len(),
{
    if s.len() == 0 {
        Seq::empty()
    } else {
        enc_elem(s.first()) + enc_seq(s.drop_first(), enc_elem)
    }
}

/// Encoding one more element appends its bytes.
pub proof fn lemma_enc_seq_push<T>(s: Seq<T>, x: T, enc_elem: spec_fn(T) -> Seq<u8>)
    ensures
        enc_seq(s.push(x), enc_elem) == enc_seq(s, enc_elem) + enc_elem(x),
    decreases s.len(),
{
    if s.len() == 0 {
        assert(s.push(x).drop_first() =~= Seq::<T>::empty());
        assert(s.push(x).first() == x);
        assert(enc_seq(s.push(x), enc_elem) == enc_elem(x) + enc_seq(
            Seq::<T>::empty(),
            enc_elem,
        ));
        assert(enc_elem(x) + Seq::<u8>::empty() =~= enc_elem(x));
        assert(Seq::<u8>::empty() + enc_elem(x) =~= enc_elem(x));
        assert(enc_seq(s, enc_elem) == Seq::<u8>::empty());
    } else {
        assert(s.push(x).drop_first() =~= s.drop_first().push(x));
        lemma_enc_seq_push(s.drop_first(), x, enc_elem);
        assert(enc_seq(s.push(x), enc_elem) =~= enc_seq(s, enc_elem) + enc_elem(x));
    }
}

/// Reads `n` consecutive elements starting at `p`.
pub open spec fn dec_seq<T>(
    b: Seq<u8>,
    p: int,
    n: nat,
    dec_elem: spec_fn(Seq<u8>, int) -> Option<(T, int)>,
) -> Option<(Seq<T>, int)>
    decreases n,
{
    if n == 0 {
        Some((Seq::empty(), p))
    } else {
        match dec_elem(b, p) {
            None => None,
            Some((x, p1)) => match dec_seq(b, p1, (n - 1) as nat, dec_elem) {
                None => None,
                Some((s, p2)) => Some((seq![x] + s, p2)),
            },
        }
    }
}

/// Reading `n` elements splits into reading the first `i` and then the
/// remaining `n - i` from where the first part stopped.
pub proof fn lemma_dec_seq_split<T>(
    b: Seq<u8>,
    p: int,
    i: nat,
    n: nat,
    dec_elem: spec_fn(Seq<u8>, int) -> Option<(T, int)>,
)
    requires
        i <= n,
    ensures
        dec_seq(b, p, n, dec_elem) == (match dec_seq(b, p, i, dec_elem) {
            None => None,
            Some((s1, p1)) => match dec_seq(b, p1, (n - i) as nat, dec_elem) {
                None => None::<(Seq<T>, int)>,
                Some((s2, p2)) => Some((s1 + s2, p2)),
            },
        }),
    decreases i,
{
    if i == 0 {
        match dec_seq(b, p, n, dec_elem) {
            None => {},
            Some((s, q)) => {
                assert(Seq::<T>::empty() + s =~= s);
            },
        }
    } else {
        match dec_elem(b, p) {
            None => {},
            Some((x, p1)) => {
                lemma_dec_seq_split(b, p1, (i - 1) as nat, (n - 1) as nat, dec_elem);
                match dec_seq(b, p1, (i - 1) as nat, dec_elem) {
                    None => {},
                    Some((s1, q1)) => {
                        match dec_seq(b, q1, (n - i) as nat, dec_elem) {
                            None => {},
                            Some((s2, q2)) => {
                                assert(seq![x] + (s1 + s2) =~= (seq![x] + s1) + s2);
                            },
                        }
                    },
                }
            },
        }
    }
}

/// What it means for a decoder to invert an encoder on the value `x`:
/// wherever the encoding of `x` sits in a buffer, decoding there yields
/// `x` and stops right after it.
pub open spec fn elem_roundtrip<T>(
    enc_elem: spec_fn(T) -> Seq<u8>,
    dec_elem: spec_fn(Seq<u8>, int) -> Option<(T, int)>,
    x: T,
) -> bool {
    forall|b: Seq<u8>, p: int|
        0 <= p && p + enc_elem(x).len() <= b.len() && b.subrange(p, p + enc_elem(x).len())
            == enc_elem(x) ==> #[trigger] dec_elem(b, p) == Some((x, p + enc_elem(x).len()))
}

/// Reading back an encoded sequence yields the sequence, element by
/// element.
pub proof fn lemma_dec_seq_of_enc<T>(
    b: Seq<u8>,
    p: int,
    s: Seq<T>,
    enc_elem: spec_fn(T) -> Seq<u8>,
    dec_elem: spec_fn(Seq<u8>, int) -> Option<(T, int)>,
)
    requires
        forall|i: int| 0 <= i < s.len() ==> elem_roundtrip(enc_elem, dec_elem, #[trigger] s[i]),
        0 <= p,
        p + enc_seq(s, enc_elem).len() <= b.len(),
        b.subrange(p, p + enc_seq(s, enc_elem).len()) == enc_seq(s, enc_elem),
    ensures
        dec_seq(b, p, s.len(), dec_elem) == Some((s, p + enc_seq(s, enc_elem).len())),
    decreases s.len(),
{
    if s.len() > 0 {
        let whole = enc_seq(s, enc_elem);
        let e0 = enc_elem(s.first());
        let rest = enc_seq(s.drop_first(), enc_elem);
        assert(whole == e0 + rest);
        assert forall|i: int| 0 <= i < e0.len() implies #[trigger] b.subrange(p, p + e0.len())[i]
            == e0[i] by {
            assert(b.subrange(p, p + whole.len())[i] == b[p + i]);
            assert(whole[i] == e0[i]);
        }
        assert(b.subrange(p, p + e0.len()) =~= e0);
        assert(elem_roundtrip(enc_elem, dec_elem, s.first()));
        assert(dec_elem(b, p) == Some((s.first(), p + e0.len())));
        assert forall|i: int| 0 <= i < rest.len() implies #[trigger] b.subrange(
            p + e0.len(),
            p + e0.len() + rest.len(),
        )[i] == rest[i] by {
            assert(b.subrange(p, p + whole.len())[e0.len() + i] == b[p + e0.len() + i]);
            assert(whole[e0.len() + i] == rest[i]);
        }
        assert(b.subrange(p + e0.len(), p + e0.len() + rest.len()) =~= rest);
        assert(forall|i: int|
            0 <= i < s.drop_first().len() ==> elem_roundtrip(
                enc_elem,
                dec_elem,
                #[trigger] s.drop_first()[i],
            ));
        lemma_dec_seq_of_enc(b, p + e0.len(), s.drop_first(), enc_elem, dec_elem);
        assert(seq![s.first()] + s.drop_first() =~= s);
    }
}

/// The element coders for characters, as function values.
pub open spec fn enc_char_f() -> spec_fn(char) -> Seq<u8> {
    |c: char| enc_char(c)
}

/// The character decoder as a function value.
pub open spec fn dec_char_f() -> spec_fn(Seq<u8>, int) -> Option<(char, int)> {
    |b: Seq<u8>, p: int| dec_char(b, p)
}

/// A length-prefixed string: the character count as a `u64`, then each
/// character.
pub open spec fn enc_str(s: Seq<char>) -> Seq<u8> {
    enc_u64(s.len() as u64) + enc_seq(s, enc_char_f())
}

/// Reads a length-prefixed string at `p`.
pub open spec fn dec_str(b: Seq<u8>, p: int) -> Option<(Seq<char>, int)> {
    match dec_u64(b, p) {
        None => None,
        Some((n, p1)) => dec_seq(b, p1, n as nat, dec_char_f()),
    }
}

/// Reading back an encoded string yields the string.
pub proof fn lemma_dec_str_of_enc(b: Seq<u8>, p: int, s: Seq<char>)
    requires
        s.len() <= u64::MAX,
        0 <= p,
        p + enc_str(s).len() <= b.len(),
        b.subrange(p, p + enc_str(s).len()) == enc_str(s),
    ensures
        dec_str(b, p) == Some((s, p + enc_str(s).len())),
{
    let whole = enc_str(s);
    let head = enc_u64(s.len() as u64);
    let body = enc_seq(s, enc_char_f());
    assert forall|i: int| 0 <= i < 8 implies #[trigger] b.subrange(p, p + 8)[i] == head[i] by {
        assert(b.subrange(p, p + whole.len())[i] == b[p + i]);
        assert(whole[i] == head[i]);
    }
    assert(b.subrange(p, p + 8) =~= head);
    lemma_dec_u64_of_enc(b, p, s.len() as u64);
    assert forall|i: int| 0 <= i < body.len() implies #[trigger] b.subrange(
        p + 8,
        p + 8 + body.len(),
    )[i] == body[i] by {
        assert(b.subrange(p, p + whole.len())[8 + i] == b[p + 8 + i]);
        assert(whole[8 + i] == body[i]);
    }
    assert(b.subrange(p + 8, p + 8 + body.len()) =~= body);
    assert forall|i: int| 0 <= i < s.len() implies elem_roundtrip(
        enc_char_f(),
        dec_char_f(),
        #[trigger] s[i],
    ) by {
        assert forall|b2: Seq<u8>, p2: int|
            0 <= p2 && p2 + enc_char_f()(s[i]).len() <= b2.len() && b2.subrange(
                p2,
                p2 + enc_char_f()(s[i]).len(),
            ) == enc_char_f()(s[i]) implies #[trigger] dec_char_f()(b2, p2) == Some(
            (s[i], p2 + enc_char_f()(s[i]).len()),
        ) by {
            lemma_dec_char_of_enc(b2, p2, s[i]);
        }
    }
    lemma_dec_seq_of_enc(b, p + 8, s, enc_char_f(), dec_char_f());
    assert((s.len() as u64) as nat == s.len());
}

/// Relies on `char::from_u32`: it returns `Some` exactly for Unicode
/// scalar values, yielding the character with that code point.
#[verifier::external_body]
fn char_from_u32(u: u32) -> (r: Option<char>)
    ensures
        r is Some <==> is_scalar(u),
        r matches Some(c) ==> c as u32 == u,
{
    char::from_u32(u)
}

/// Relies on `String::push`: it appends the given character to the end
/// of the string.
#[verifier::external_body]
fn push_char(s: &mut String, c: char)
    ensures
        final(s)@ == old(s)@.push(c),
{
    s.push(c);
}

/// Appends the eight little-endian bytes of `x`.
pub fn write_u64(out: &mut Vec<u8>, x: u64)
    ensures
        final(out)@ == old(out)@ + enc_u64(x),
{
    out.push((x & 0xff) as u8);
    out.push(((x >> 8) & 0xff) as u8);
    out.push(((x >> 16) & 0xff) as u8);
    out.push(((x >> 24) & 0xff) as u8);
    out.push(((x >> 32) & 0xff) as u8);
    out.push(((x >> 40) & 0xff) as u8);
    out.push(((x >> 48) & 0xff) as u8);
    out.push(((x >> 56) & 0xff) as u8);
    proof {
        assert(out@ =~= old(out)@ + enc_u64(x));
    }
}

/// Appends the four little-endian bytes of the scalar value of `c`.
pub fn write_char(out: &mut Vec<u8>, c: char)
    ensures
        final(out)@ == old(out)@ + enc_char(c),
{
    let u = c as u32;
    out.push((u & 0xff) as u8);
    out.push(((u >> 8) & 0xff) as u8);
    out.push(((u >> 16) & 0xff) as u8);
    out.push(((u >> 24) & 0xff) as u8);
    proof {
        assert(out@ =~= old(out)@ + enc_char(c));
    }
}

/// Appends the length-prefixed encoding of `s`.
pub fn write_str(out: &mut Vec<u8>, s: &str)
    ensures
        final(out)@ == old(out)@ + enc_str(s@),
        s@.len() <= u64::MAX,
{
    let n = s.unicode_len();
    write_u64(out, n as u64);
    let ghost base = out@;
    let mut i: usize = 0;
    while i < n
        invariant
            n == s@.len(),
            i <= n,
            out@ == base + enc_seq(s@.take(i as int), enc_char_f()),
        decreases n - i,
    {
        let c = s.get_char(i);
        write_char(out, c);
        proof {
            lemma_enc_seq_push(s@.take(i as int), s@[i as int], enc_char_f());
            assert(s@.take(i + 1) =~= s@.take(i as int).push(s@[i as int]));
            assert(out@ =~= base + enc_seq(s@.take(i + 1), enc_char_f()));
        }
        i += 1;
    }
    proof {
        assert(s@.take(n as int) =~= s@);
        assert(out@ =~= old(out)@ + enc_str(s@));
    }
}

/// Reads a `u64` at `pos`, as [`dec_u64`] prescribes.
pub fn read_u64(raw: &[u8], pos: usize) -> (r: Option<(u64, usize)>)
    requires
        pos <= raw@.len(),
    ensures
        r is None <==> dec_u64(raw@, pos as int) is None,
        r matches Some((x, q)) ==> dec_u64(raw@, pos as int) == Some((x, q as int)) && q <= raw@.len(),
{
    if raw.len() - pos < 8 {
        return None;
    }
    let x = (raw[pos] as u64) | ((raw[pos + 1] as u64) << 8) | ((raw[pos + 2] as u64) << 16) | ((
    raw[pos + 3] as u64) << 24) | ((raw[pos + 4] as u64) << 32) | ((raw[pos + 5] as u64) << 40) | ((
    raw[pos + 6] as u64) << 48) | ((raw[pos + 7] as u64) << 56);
    Some((x, pos + 8))
}

/// Reads a character at `pos`, as [`dec_char`] prescribes.
pub fn read_char(raw: &[u8], pos: usize) -> (r: Option<(char, usize)>)
    requires
        pos <= raw@.len(),
    ensures
        r is None <==> dec_char(raw@, pos as int) is None,
        r matches Some((c, q)) ==> dec_char(raw@, pos as int) == Some((c, q as int)) && q
            <= raw@.len(),
{
    if raw.len() - pos < 4 {
        return None;
    }
    let u = (raw[pos] as u32) | ((raw[pos + 1] as u32) << 8) | ((raw[pos + 2] as u32) << 16) | ((
    raw[pos + 3] as u32) << 24);
    match char_from_u32(u) {
        Some(c) => {
            proof {
                vstd::utf8::char_u32_cast(c, u);
            }
            Some((c, pos + 4))
        },
        None => None,
    }
}

/// Reads a length-prefixed string at `pos`, as [`dec_str`] prescribes.
pub fn read_string(raw: &[u8], pos: usize) -> (r: Option<(String, usize)>)
    requires
        pos <= raw@.len(),
    ensures
        r is None <==> dec_str(raw@, pos as int) is None,
        r matches Some((s, q)) ==> dec_str(raw@, pos as int) == Some((s@, q as int)) && q
            <= raw@.len(),
{
    let (count, start) = match read_u64(raw, pos) {
        Some(v) => v,
        None => {
            return None;
        },
    };
    let mut s = String::new();
    let mut cur: usize = start;
    let mut i: u64 = 0;
    while i < count
        invariant
            cur <= raw@.len(),
            i <= count,
            s@.len() == i,
            dec_u64(raw@, pos as int) == Some((count, start as int)),
            dec_seq(raw@, start as int, i as nat, dec_char_f()) == Some((s@, cur as int)),
        decreases count - i,
    {
        match read_char(raw, cur) {
            Some((c, q)) => {
                proof {
                    lemma_dec_seq_split(raw@, start as int, i as nat, (i + 1) as nat, dec_char_f());
                    assert(dec_char_f()(raw@, cur as int) == Some((c, q as int)));
                    assert(dec_seq(raw@, q as int, 0, dec_char_f()) == Some(
                        (Seq::<char>::empty(), q as int),
                    ));
                    assert(seq![c] + Seq::<char>::empty() =~= seq![c]);
                    assert(dec_seq(raw@, cur as int, 1, dec_char_f()) == Some(
                        (seq![c], q as int),
                    ));
                    assert(s@ + seq![c] =~= s@.push(c));
                }
                push_char(&mut s, c);
                cur = q;
            },
            None => {
                proof {
                    lemma_dec_seq_split(raw@, start as int, i as nat, count as nat, dec_char_f());
                }
                return None;
            },
        }
        i += 1;
    }
    Some((s, cur))
}

} // verus!
