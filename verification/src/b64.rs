//! Base64 decoding of the encrypted partial key, four characters at a time,
//! keeping what a malformed group still yields.

use vstd::prelude::*;
use vstd::slice::slice_subrange;

verus! {

/// The 6-bit value of a base64 character (`A-Z`, `a-z`, `0-9`, `+`, `/`).
pub open spec fn b64_value(c: u8) -> Option<u8> {
    if 65 <= c <= 90 {
        Some((c - 65) as u8)
    } else if 97 <= c <= 122 {
        Some((c - 71) as u8)
    } else if 48 <= c <= 57 {
        Some((c + 4) as u8)
    } else if c == 43 {
        Some(62u8)
    } else if c == 47 {
        Some(63u8)
    } else {
        None
    }
}

pub open spec fn is_b64(c: u8) -> bool {
    b64_value(c) is Some
}

/// The padding character `=`.
pub open spec fn is_pad(c: u8) -> bool {
    c == 61
}

/// Decodes the group at the start of `s` (the whole rest of the input):
/// whether the group is complete and valid, and the bytes it yields. A
/// malformed group still yields the bytes before the fault; padding is only
/// accepted as the last group.
pub open spec fn decode_4(s: Seq<u8>) -> (bool, Seq<u8>) {
    if s.len() < 2 || !is_b64(s[0]) || !is_b64(s[1]) {
        (false, Seq::empty())
    } else {
        let v0 = b64_value(s[0]).unwrap();
        let v1 = b64_value(s[1]).unwrap();
        let o1 = (v0 << 2u8) | (v1 >> 4u8);
        if s.len() == 2 {
            (false, seq![o1])
        } else if is_pad(s[2]) {
            (s.len() == 4 && is_pad(s[3]), seq![o1])
        } else if !is_b64(s[2]) {
            (false, seq![o1])
        } else {
            let v2 = b64_value(s[2]).unwrap();
            let o2 = ((v1 << 4u8) & 0xf0u8) | (v2 >> 2u8);
            if s.len() == 3 {
                (false, seq![o1, o2])
            } else if is_pad(s[3]) {
                (s.len() == 4, seq![o1, o2])
            } else if !is_b64(s[3]) {
                (false, seq![o1, o2])
            } else {
                let v3 = b64_value(s[3]).unwrap();
                let o3 = ((v2 << 6u8) & 0xc0u8) | v3;
                (true, seq![o1, o2, o3])
            }
        }
    }
}

/// Decodes `s` group by group: whether all of it decoded, and the bytes
/// produced, up to and including what the first malformed group yields.
pub open spec fn b64_decode(s: Seq<u8>) -> (bool, Seq<u8>)
    decreases s.len(),
{
    if s.len() == 0 {
        (true, Seq::empty())
    } else {
        let (ok, o) = decode_4(s);
        if ok && s.len() >= 4 {
            let (rest_ok, rest) = b64_decode(s.skip(4));
            (rest_ok, o + rest)
        } else {
            (false, o)
        }
    }
}

/// A complete group is four characters long.
proof fn lemma_decode_4_len(s: Seq<u8>)
    ensures
        decode_4(s).0 ==> s.len() >= 4,
{
}

fn b64_value_exec(c: u8) -> (v: Option<u8>)
    ensures
        v == b64_value(c),
{
    if 65 <= c && c <= 90 {
        Some(c - 65)
    } else if 97 <= c && c <= 122 {
        Some(c - 71)
    } else if 48 <= c && c <= 57 {
        Some(c + 4)
    } else if c == 43 {
        Some(62)
    } else if c == 47 {
        Some(63)
    } else {
        None
    }
}

fn decode_4_exec(s: &[u8], out: &mut Vec<u8>) -> (ok: bool)
    ensures
        ok == decode_4(s@).0,
        final(out)@ == old(out)@ + decode_4(s@).1,
{
    let ghost out0 = out@;
    if s.len() < 2 {
        assert(out@ =~= out0 + decode_4(s@).1);
        return false;
    }
    let v0 = match b64_value_exec(s[0]) {
        Some(v) => v,
        None => {
            assert(out@ =~= out0 + decode_4(s@).1);
            return false;
        },
    };
    let v1 = match b64_value_exec(s[1]) {
        Some(v) => v,
        None => {
            assert(out@ =~= out0 + decode_4(s@).1);
            return false;
        },
    };
    out.push((v0 << 2u8) | (v1 >> 4u8));
    if s.len() == 2 {
        assert(out@ =~= out0 + decode_4(s@).1);
        return false;
    }
    if s[2] == 61 {
        assert(out@ =~= out0 + decode_4(s@).1);
        return s.len() == 4 && s[3] == 61;
    }
    let v2 = match b64_value_exec(s[2]) {
        Some(v) => v,
        None => {
            assert(out@ =~= out0 + decode_4(s@).1);
            return false;
        },
    };
    out.push(((v1 << 4u8) & 0xf0u8) | (v2 >> 2u8));
    if s.len() == 3 {
        assert(out@ =~= out0 + decode_4(s@).1);
        return false;
    }
    if s[3] == 61 {
        assert(out@ =~= out0 + decode_4(s@).1);
        return s.len() == 4;
    }
    let v3 = match b64_value_exec(s[3]) {
        Some(v) => v,
        None => {
            assert(out@ =~= out0 + decode_4(s@).1);
            return false;
        },
    };
    out.push(((v2 << 6u8) & 0xc0u8) | v3);
    assert(out@ =~= out0 + decode_4(s@).1);
    true
}

/// Decodes base64 text four characters at a time. Returns whether the whole
/// input decoded, together with the bytes produced: on a malformed group the
/// result still holds the bytes of the groups before it and those that the
/// malformed group yields up to its fault.
pub fn base64_decode_ctx(buffer: &[u8]) -> (res: (bool, Vec<u8>))
    ensures
        res.0 == b64_decode(buffer@).0,
        res.1@ == b64_decode(buffer@).1,
{
    let len = buffer.len();
    let mut out: Vec<u8> = Vec::new();
    let mut pos: usize = 0;
    assert(buffer@.skip(0) =~= buffer@);
    assert(out@ + b64_decode(buffer@).1 =~= b64_decode(buffer@).1);
    while pos < len
        invariant
            len == buffer@.len(),
            pos <= len,
            b64_decode(buffer@) == (b64_decode(buffer@.skip(pos as int)).0, out@ + b64_decode(
                buffer@.skip(pos as int),
            ).1),
        decreases len - pos,
    {
        let rest = slice_subrange(buffer, pos, len);
        assert(rest@ =~= buffer@.skip(pos as int));
        let ghost before = out@;
        let ok = decode_4_exec(rest, &mut out);
        proof {
            lemma_decode_4_len(rest@);
        }
        if !ok {
            assert(out@ =~= before + b64_decode(rest@).1);
            return (false, out);
        }
        proof {
            assert(rest@.skip(4) =~= buffer@.skip(pos + 4));
            assert(out@ + b64_decode(buffer@.skip(pos + 4)).1 =~= before + b64_decode(rest@).1);
        }
        pos = pos + 4;
    }
    proof {
        assert(buffer@.skip(pos as int) =~= Seq::<u8>::empty());
        assert(out@ + Seq::<u8>::empty() =~= out@);
    }
    (true, out)
}

/// The decoding state carried between calls when newlines are skipped: up
/// to four characters of an unfinished group. A count of four means the
/// group was used up.
pub struct Base64DecodeContext {
    pub i: usize,
    pub buf: Vec<u8>,
}

impl Base64DecodeContext {
    pub open spec fn wf(&self) -> bool {
        self.i <= 4 && self.buf@.len() == 4
    }

    /// The characters of the unfinished group.
    pub open spec fn pending(&self) -> Seq<u8> {
        if self.i == 4 {
            Seq::empty()
        } else {
            self.buf@.take(self.i as int)
        }
    }

    /// A context with no unfinished group.
    pub fn new() -> (ctx: Base64DecodeContext)
        ensures
            ctx.wf(),
            ctx.pending() == Seq::<u8>::empty(),
    {
        Base64DecodeContext { i: 0, buf: vec![0u8; 4] }
    }
}

/// `s` with every line feed removed.
pub open spec fn without_newlines(s: Seq<u8>) -> Seq<u8>
    decreases s.len(),
{
    if s.len() == 0 {
        s
    } else if s.last() == 10 {
        without_newlines(s.drop_last())
    } else {
        without_newlines(s.drop_last()).push(s.last())
    }
}

/// Decodes `t` in groups of exactly four characters, a padded group being
/// complete wherever it stands: whether every whole group decoded, the bytes
/// produced (up to and including what a malformed group yields), and the
/// characters after the last whole group (none after a malformed group).
pub open spec fn decode_groups(t: Seq<u8>) -> (bool, Seq<u8>, Seq<u8>)
    decreases t.len(),
{
    if t.len() < 4 {
        (true, Seq::empty(), t)
    } else {
        let (ok, o) = decode_4(t.take(4));
        if ok {
            let (rest_ok, rest, left) = decode_groups(t.skip(4));
            (rest_ok, o + rest, left)
        } else {
            (false, o, Seq::empty())
        }
    }
}

/// Decodes base64 text that may be broken into lines, carrying an unfinished
/// group from one call to the next in `ctx`. Line feeds are skipped; the
/// characters of `ctx`'s unfinished group and of `buffer` are decoded four at
/// a time; characters left over after the last whole group are kept in `ctx`
/// for the next call. An empty `buffer` ends the input: the unfinished group
/// is decoded as far as it goes, and the call succeeds only if there is
/// none.
pub fn base64_decode_lines(ctx: &mut Base64DecodeContext, buffer: &[u8]) -> (res: (bool, Vec<u8>))
    requires
        old(ctx).wf(),
    ensures
        final(ctx).wf(),
        buffer@.len() == 0 ==> {
            &&& res.0 == (old(ctx).pending().len() == 0)
            &&& res.1@ == (if old(ctx).pending().len() == 0 {
                Seq::empty()
            } else {
                decode_4(old(ctx).pending()).1
            })
            &&& final(ctx).pending() == old(ctx).pending()
        },
        buffer@.len() > 0 ==> {
            let g = decode_groups(old(ctx).pending() + without_newlines(buffer@));
            &&& res.0 == g.0
            &&& res.1@ == g.1
            &&& final(ctx).pending() == g.2
        },
{
    let pending_len: usize = if ctx.i == 4 { 0 } else { ctx.i };
    let ghost pending = old(ctx).pending();
    assert(ctx.buf@.take(pending_len as int) == pending);
    if buffer.len() == 0 {
        let mut out: Vec<u8> = Vec::new();
        if pending_len == 0 {
            return (true, out);
        }
        let group = slice_subrange(ctx.buf.as_slice(), 0, pending_len);
        let _ok = decode_4_exec(group, &mut out);
        proof {
            assert(out@ =~= decode_4(pending).1);
        }
        return (false, out);
    }
    let mut t: Vec<u8> = Vec::new();
    let mut k: usize = 0;
    while k < pending_len
        invariant
            k <= pending_len,
            pending_len <= 4,
            ctx.buf@.len() == 4,
            ctx.buf@.take(pending_len as int) == pending,
            t@ == pending.take(k as int),
        decreases pending_len - k,
    {
        t.push(ctx.buf[k]);
        proof {
            assert(t@ =~= pending.take(k + 1));
        }
        k = k + 1;
    }
    let mut j: usize = 0;
    let blen = buffer.len();
    assert(t@ =~= pending + without_newlines(buffer@.take(0)));
    while j < blen
        invariant
            blen == buffer@.len(),
            j <= blen,
            t@ == pending + without_newlines(buffer@.take(j as int)),
        decreases blen - j,
    {
        proof {
            assert(buffer@.take(j + 1).drop_last() =~= buffer@.take(j as int));
        }
        if buffer[j] != 10 {
            t.push(buffer[j]);
        }
        proof {
            assert(t@ =~= pending + without_newlines(buffer@.take(j + 1)));
        }
        j = j + 1;
    }
    proof {
        assert(buffer@.take(blen as int) =~= buffer@);
    }
    let ghost whole = t@;
    let tlen = t.len();
    let mut out: Vec<u8> = Vec::new();
    let mut pos: usize = 0;
    assert(whole.skip(0) =~= whole);
    assert(out@ + decode_groups(whole).1 =~= decode_groups(whole).1);
    while tlen - pos >= 4
        invariant
            tlen == t@.len(),
            whole == t@,
            pos <= tlen,
            ctx.buf@.len() == 4,
            buffer@.len() > 0,
            whole == pending + without_newlines(buffer@),
            pending == old(ctx).pending(),
            decode_groups(whole) == (decode_groups(whole.skip(pos as int)).0, out@ + decode_groups(
                whole.skip(pos as int),
            ).1, decode_groups(whole.skip(pos as int)).2),
        decreases tlen - pos,
    {
        let group = slice_subrange(t.as_slice(), pos, pos + 4);
        let ghost rest = whole.skip(pos as int);
        assert(group@ =~= rest.take(4));
        let ghost before = out@;
        let ok = decode_4_exec(group, &mut out);
        if !ok {
            assert(out@ =~= before + decode_groups(rest).1);
            assert(decode_groups(rest).0 == false);
            assert(decode_groups(rest).2 == Seq::<u8>::empty());
            ctx.i = 0;
            assert(ctx.pending() =~= Seq::<u8>::empty());
            return (false, out);
        }
        proof {
            assert(rest.skip(4) =~= whole.skip(pos + 4));
            assert(out@ + decode_groups(whole.skip(pos + 4)).1 =~= before + decode_groups(rest).1);
        }
        pos = pos + 4;
    }
    let ghost rest = whole.skip(pos as int);
    let r: usize = tlen - pos;
    let mut nb: Vec<u8> = Vec::new();
    let mut m: usize = 0;
    while m < 4
        invariant
            m <= 4,
            r < 4,
            pos + r == tlen,
            tlen == t@.len(),
            whole == t@,
            rest == whole.skip(pos as int),
            nb@.len() == m,
            forall|q: int| 0 <= q < m && q < r ==> #[trigger] nb@[q] == rest[q],
        decreases 4 - m,
    {
        if m < r {
            nb.push(t[pos + m]);
        } else {
            nb.push(0);
        }
        m = m + 1;
    }
    proof {
        assert(nb@.take(r as int) =~= rest);
        assert(out@ + Seq::<u8>::empty() =~= out@);
    }
    ctx.buf = nb;
    ctx.i = r;
    (true, out)
}

/// The base64 character of a 6-bit value.
pub open spec fn b64_char(v: u8) -> u8 {
    if v < 26 {
        (65 + v) as u8
    } else if v < 52 {
        (71 + v) as u8
    } else if v < 62 {
        (v - 4) as u8
    } else if v == 62 {
        43u8
    } else {
        47u8
    }
}

/// The four characters that encode one to three bytes, padded with `=`.
pub open spec fn encode_group(g: Seq<u8>) -> Seq<u8> {
    let a = g[0];
    let b = if g.len() > 1 { g[1] } else { 0u8 };
    let c = if g.len() > 2 { g[2] } else { 0u8 };
    seq![
        b64_char(a >> 2u8),
        b64_char(((a & 3u8) << 4u8) | (b >> 4u8)),
        if g.len() > 1 { b64_char(((b & 15u8) << 2u8) | (c >> 6u8)) } else { 61u8 },
        if g.len() > 2 { b64_char(c & 63u8) } else { 61u8 },
    ]
}

/// The standard padded base64 encoding of `x` (RFC 4648).
pub open spec fn b64_encode(x: Seq<u8>) -> Seq<u8>
    decreases x.len(),
{
    if x.len() == 0 {
        Seq::empty()
    } else if x.len() <= 3 {
        encode_group(x)
    } else {
        encode_group(x.take(3)) + b64_encode(x.skip(3))
    }
}

proof fn lemma_char_value(v: u8)
    requires
        v < 64,
    ensures
        b64_value(b64_char(v)) == Some(v),
        !is_pad(b64_char(v)),
{
}

proof fn lemma_group_bits(a: u8, b: u8, c: u8)
    by (bit_vector)
    ensures
        a >> 2u8 < 64,
        ((a & 3u8) << 4u8) | (b >> 4u8) < 64,
        ((b & 15u8) << 2u8) | (c >> 6u8) < 64,
        c & 63u8 < 64,
        ((a >> 2u8) << 2u8) | ((((a & 3u8) << 4u8) | (b >> 4u8)) >> 4u8) == a,
        (((((a & 3u8) << 4u8) | (b >> 4u8)) << 4u8) & 0xf0u8) | ((((b & 15u8) << 2u8) | (c >> 6u8)) >> 2u8)
            == b,
        (((((b & 15u8) << 2u8) | (c >> 6u8)) << 6u8) & 0xc0u8) | (c & 63u8) == c,
{
}

/// A group of encoded characters decodes back to its bytes; it is complete
/// when the encoding ends with it or it holds three bytes.
proof fn lemma_decode_group(g: Seq<u8>, rest: Seq<u8>)
    requires
        1 <= g.len() <= 3,
        g.len() < 3 ==> rest.len() == 0,
    ensures
        decode_4(encode_group(g) + rest) == (true, g),
{
    let a = g[0];
    let b = if g.len() > 1 { g[1] } else { 0u8 };
    let c = if g.len() > 2 { g[2] } else { 0u8 };
    lemma_group_bits(a, b, c);
    lemma_char_value(a >> 2u8);
    lemma_char_value(((a & 3u8) << 4u8) | (b >> 4u8));
    lemma_char_value(((b & 15u8) << 2u8) | (c >> 6u8));
    lemma_char_value(c & 63u8);
    let s = encode_group(g) + rest;
    assert(s[0] == encode_group(g)[0] && s[1] == encode_group(g)[1]);
    assert(s[2] == encode_group(g)[2] && s[3] == encode_group(g)[3]);
    if g.len() == 1 {
        assert(seq![a] =~= g);
    } else if g.len() == 2 {
        assert(seq![a, b] =~= g);
    } else {
        assert(seq![a, b, c] =~= g);
    }
}

/// Decoding the standard encoding of any bytes gives them back, and the
/// whole input decodes.
pub proof fn lemma_decode_encode(x: Seq<u8>)
    ensures
        b64_decode(b64_encode(x)) == (true, x),
    decreases x.len(),
{
    if x.len() == 0 {
    } else if x.len() <= 3 {
        let e = encode_group(x);
        lemma_decode_group(x, Seq::empty());
        assert(e + Seq::<u8>::empty() =~= e);
        assert(e.skip(4) =~= Seq::<u8>::empty());
        assert(b64_decode(Seq::<u8>::empty()) == (true, Seq::<u8>::empty()));
        assert(decode_4(e) == (true, x));
        assert(x + Seq::<u8>::empty() =~= x);
        assert(b64_decode(e) == (true, x + Seq::<u8>::empty()));
    } else {
        let g = x.take(3);
        let rest = b64_encode(x.skip(3));
        lemma_decode_group(g, rest);
        lemma_decode_encode(x.skip(3));
        let e = encode_group(g) + rest;
        assert(e == b64_encode(x));
        assert(e.skip(4) =~= rest);
        assert(g + x.skip(3) =~= x);
        assert(b64_decode(e) == (true, g + x.skip(3)));
    }
}

/// Decoding, four characters at a time, any text whose line feeds removed
/// leave the standard encoding of some bytes gives those bytes back, leaves
/// nothing over, and succeeds.
pub proof fn lemma_decode_lines_encode(x: Seq<u8>, text: Seq<u8>)
    requires
        without_newlines(text) == b64_encode(x),
    ensures
        decode_groups(Seq::empty() + without_newlines(text)) == (true, x, Seq::<u8>::empty()),
{
    assert(Seq::<u8>::empty() + without_newlines(text) =~= b64_encode(x));
    lemma_decode_groups_encode(x);
}

proof fn lemma_decode_groups_encode(x: Seq<u8>)
    ensures
        decode_groups(b64_encode(x)) == (true, x, Seq::<u8>::empty()),
    decreases x.len(),
{
    if x.len() == 0 {
    } else if x.len() <= 3 {
        let e = encode_group(x);
        lemma_decode_group(x, Seq::empty());
        assert(e + Seq::<u8>::empty() =~= e);
        assert(e.take(4) =~= e);
        assert(e.skip(4) =~= Seq::<u8>::empty());
        assert(decode_groups(Seq::<u8>::empty()) == (true, Seq::<u8>::empty(), Seq::<u8>::empty()));
        assert(x + Seq::<u8>::empty() =~= x);
        assert(decode_groups(e) == (true, x + Seq::<u8>::empty(), Seq::<u8>::empty()));
    } else {
        let g = x.take(3);
        let rest = b64_encode(x.skip(3));
        lemma_decode_group(g, Seq::empty());
        lemma_decode_groups_encode(x.skip(3));
        let e = encode_group(g) + rest;
        assert(encode_group(g) + Seq::<u8>::empty() =~= encode_group(g));
        assert(e == b64_encode(x));
        assert(e.take(4) =~= encode_group(g));
        assert(e.skip(4) =~= rest);
        assert(g + x.skip(3) =~= x);
        assert(decode_groups(e) == (true, g + x.skip(3), Seq::<u8>::empty()));
    }
}

} // verus!
