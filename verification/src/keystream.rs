//! A byte-oriented stream cipher with a 256-entry permutation state
//! (key scheduling followed by keystream generation), used to decrypt
//! cached audio.

use vstd::prelude::*;
use vstd::slice::slice_subrange;

verus! {

/// The abstract cipher state: the permutation table and the two indices.
pub type KsState = (Seq<u32>, u32, u32);

/// `d` holds each of the values `0..256` exactly once.
pub open spec fn is_perm(d: Seq<u32>) -> bool {
    &&& d.len() == 256
    &&& forall|i: int| 0 <= i < 256 ==> #[trigger] d[i] < 256
    &&& forall|i: int, j: int| 0 <= i < 256 && 0 <= j < 256 && i != j ==> #[trigger] d[i] != #[trigger] d[j]
}

/// A state is valid when its table is a permutation and both indices are bytes.
pub open spec fn valid_state(s: KsState) -> bool {
    &&& is_perm(s.0)
    &&& s.1 < 256
    &&& s.2 < 256
}

/// One step of keystream generation: advance `x`, mix `y`, swap the two
/// entries, and emit the entry at their sum.
pub open spec fn prga_step(s: KsState) -> (KsState, u8) {
    let d = s.0;
    let x1 = ((s.1 + 1) % 256) as u32;
    let tx = d[x1 as int];
    let y1 = ((tx + s.2) % 256) as u32;
    let ty = d[y1 as int];
    let d1 = d.update(x1 as int, ty).update(y1 as int, tx);
    ((d1, x1, y1), d1[((tx + ty) % 256) as int] as u8)
}

/// The state after `n` keystream steps.
pub open spec fn advance(s: KsState, n: nat) -> KsState
    decreases n,
{
    if n == 0 {
        s
    } else {
        prga_step(advance(s, (n - 1) as nat)).0
    }
}

/// The first `n` keystream bytes produced from state `s`.
pub open spec fn keystream(s: KsState, n: nat) -> Seq<u8>
    decreases n,
{
    if n == 0 {
        Seq::empty()
    } else {
        keystream(s, (n - 1) as nat).push(prga_step(advance(s, (n - 1) as nat)).1)
    }
}

/// Bytewise exclusive or of two sequences of the same length.
pub open spec fn xor_seq(a: Seq<u8>, b: Seq<u8>) -> Seq<u8>
    recommends
        a.len() == b.len(),
{
    Seq::new(a.len(), |i: int| a[i] ^ b[i])
}

/// The table after key scheduling has processed entries `0..i`, together with
/// the running second index.
pub open spec fn ksa(key: Seq<u8>, i: nat) -> (Seq<u32>, u32)
    decreases i,
{
    if i == 0 {
        (Seq::new(256, |k: int| k as u32), 0)
    } else {
        let (d, j) = ksa(key, (i - 1) as nat);
        let p = (i - 1) as int;
        let tmp = d[p];
        let j1 = ((key[p % (key.len() as int)] + tmp + j) % 256) as u32;
        (d.update(p, d[j1 as int]).update(j1 as int, tmp), j1)
    }
}

/// The state that key scheduling produces for `key`.
pub open spec fn initial_state(key: Seq<u8>) -> KsState {
    (ksa(key, 256).0, 0, 0)
}

/// The cipher context: the permutation table, the two indices and the
/// number of bytes processed so far.
pub struct CipherCtx {
    pub data: Vec<u32>,
    pub x: u32,
    pub y: u32,
    pub offset: u64,
}

impl CipherCtx {
    pub open spec fn state(&self) -> KsState {
        (self.data@, self.x, self.y)
    }

    pub open spec fn wf(&self) -> bool {
        valid_state(self.state())
    }
}

proof fn lemma_low_byte(a: u32)
    by (bit_vector)
    ensures
        a & 0xff == a % 256,
{
}

/// Swapping two entries of a permutation gives a permutation.
proof fn lemma_swap_perm(d: Seq<u32>, a: int, b: int)
    requires
        is_perm(d),
        0 <= a < 256,
        0 <= b < 256,
    ensures
        is_perm(d.update(a, d[b]).update(b, d[a])),
{
    let e = d.update(a, d[b]).update(b, d[a]);
    assert forall|i: int| 0 <= i < 256 implies #[trigger] e[i] < 256 by {
    }
    assert forall|i: int, j: int| 0 <= i < 256 && 0 <= j < 256 && i != j implies #[trigger] e[i]
        != #[trigger] e[j] by {
        let si = if i == b { a } else if i == a { b } else { i };
        let sj = if j == b { a } else if j == a { b } else { j };
        assert(e[i] == d[si]);
        assert(e[j] == d[sj]);
        assert(si != sj);
    }
}

/// A keystream step keeps the state valid.
pub proof fn lemma_step_valid(s: KsState)
    requires
        valid_state(s),
    ensures
        valid_state(prga_step(s).0),
{
    let d = s.0;
    let x1 = ((s.1 + 1) % 256) as u32;
    let tx = d[x1 as int];
    let y1 = ((tx + s.2) % 256) as u32;
    lemma_swap_perm(d, x1 as int, y1 as int);
}

/// Every state reached by keystream generation from a valid state is valid.
pub proof fn lemma_advance_valid(s: KsState, n: nat)
    requires
        valid_state(s),
    ensures
        valid_state(advance(s, n)),
    decreases n,
{
    if n > 0 {
        lemma_advance_valid(s, (n - 1) as nat);
        lemma_step_valid(advance(s, (n - 1) as nat));
    }
}

/// Key scheduling keeps the table a permutation and the index a byte.
proof fn lemma_ksa_perm(key: Seq<u8>, i: nat)
    requires
        key.len() > 0,
        i <= 256,
    ensures
        is_perm(ksa(key, i).0),
        ksa(key, i).1 < 256,
    decreases i,
{
    if i == 0 {
        let d = ksa(key, 0).0;
        assert forall|a: int, b: int| 0 <= a < 256 && 0 <= b < 256 && a != b implies #[trigger] d[a]
            != #[trigger] d[b] by {
        }
    } else {
        lemma_ksa_perm(key, (i - 1) as nat);
        let (d, j) = ksa(key, (i - 1) as nat);
        let p = (i - 1) as int;
        let tmp = d[p];
        let j1 = ((key[p % (key.len() as int)] + tmp + j) % 256) as u32;
        lemma_swap_perm(d, p, j1 as int);
    }
}

/// Key scheduling: fill the table with `0..256`, then walk it once, mixing
/// in the key bytes cyclically and swapping entries.
pub fn cipher_ctx_init(data: &[u8]) -> (ctx: CipherCtx)
    requires
        data@.len() > 0,
    ensures
        ctx.wf(),
        ctx.state() == initial_state(data@),
        ctx.offset == 0,
{
    let len = data.len();
    let mut d: Vec<u32> = Vec::new();
    let mut i: u32 = 0;
    while i < 256
        invariant
            i <= 256,
            d@.len() == i,
            forall|k: int| 0 <= k < i ==> d@[k] == k as u32,
        decreases 256 - i,
    {
        d.push(i);
        i = i + 1;
    }
    assert(d@ =~= ksa(data@, 0).0);
    let mut id1: usize = 0;
    let mut id2: u32 = 0;
    let mut i: usize = 0;
    while i < 256
        invariant
            len == data@.len(),
            len > 0,
            i <= 256,
            id1 < len,
            id1 as int == (i as int) % (len as int),
            (d@, id2) == ksa(data@, i as nat),
            id2 < 256,
            is_perm(d@),
        decreases 256 - i,
    {
        proof {
            lemma_ksa_perm(data@, (i + 1) as nat);
        }
        let tmp = d[i];
        let sum: u32 = data[id1] as u32 + tmp + id2;
        proof {
            lemma_low_byte(sum);
        }
        let next2: u32 = sum & 0xff;
        let ghost before = d@;
        let moved = d[next2 as usize];
        d.set(i, moved);
        d.set(next2 as usize, tmp);
        id2 = next2;
        proof {
            assert(d@ =~= before.update(i as int, before[next2 as int]).update(next2 as int, tmp));
            lemma_next_cyclic(i as int, id1 as int, len as int);
        }
        id1 = if id1 + 1 == len { 0 } else { id1 + 1 };
        i = i + 1;
    }
    CipherCtx { data: d, x: 0, y: 0, offset: 0 }
}


/// Keystream generation: each input byte is combined with the next keystream
/// byte; the context advances by one step per byte and counts the bytes.
pub fn cipher_ctx_crypto(ctx: &mut CipherCtx, indata: &[u8]) -> (outdata: Vec<u8>)
    requires
        old(ctx).wf(),
        old(ctx).offset + indata@.len() <= u64::MAX,
    ensures
        final(ctx).wf(),
        final(ctx).state() == advance(old(ctx).state(), indata@.len()),
        final(ctx).offset == old(ctx).offset + indata@.len(),
        outdata@ == xor_seq(indata@, keystream(old(ctx).state(), indata@.len())),
        final(ctx).x == (old(ctx).x + indata@.len()) % 256,
        indata@.len() > 0 ==> outdata@.last() == indata@.last() ^ (final(ctx).data@[((final(ctx).data@[final(ctx).x as int]
            + final(ctx).data@[final(ctx).y as int]) % 256) as int] as u8),
{
    let ghost s0 = ctx.state();
    let ghost off0 = ctx.offset;
    let len = indata.len();
    let mut out: Vec<u8> = Vec::new();
    let mut x = ctx.x;
    let mut y = ctx.y;
    let mut i: usize = 0;
    while i < len
        invariant
            len == indata@.len(),
            i <= len,
            valid_state(s0),
            (ctx.data@, x, y) == advance(s0, i as nat),
            valid_state((ctx.data@, x, y)),
            out@.len() == i,
            forall|k: int| 0 <= k < i ==> #[trigger] out@[k] == indata@[k] ^ keystream(s0, i as nat)[k],
            keystream(s0, i as nat).len() == i,
            ctx.offset == off0,
            off0 + len <= u64::MAX,
        decreases len - i,
    {
        let ghost s = (ctx.data@, x, y);
        proof {
            lemma_step_valid(s);
        }
        let x_next: u32 = x + 1;
        proof {
            lemma_low_byte(x_next);
        }
        x = x_next & 0xff;
        let tx = ctx.data[x as usize];
        let y_next: u32 = tx + y;
        proof {
            lemma_low_byte(y_next);
        }
        y = y_next & 0xff;
        let ty = ctx.data[y as usize];
        ctx.data.set(x as usize, ty);
        ctx.data.set(y as usize, tx);
        let sum: u32 = tx + ty;
        proof {
            lemma_low_byte(sum);
        }
        let k = ctx.data[(sum & 0xff) as usize];
        out.push(indata[i] ^ (k as u8));
        proof {
            assert((ctx.data@, x, y) == prga_step(s).0);
            assert(k as u8 == prga_step(s).1);
            let ks1 = keystream(s0, (i + 1) as nat);
            assert(ks1 == keystream(s0, i as nat).push(k as u8));
            assert forall|j: int| 0 <= j < i + 1 implies #[trigger] out@[j] == indata@[j] ^ ks1[j] by {
                if j < i {
                    assert(ks1[j] == keystream(s0, i as nat)[j]);
                }
            }
        }
        i = i + 1;
    }
    ctx.x = x;
    ctx.y = y;
    ctx.offset = ctx.offset + len as u64;
    proof {
        assert(out@ =~= xor_seq(indata@, keystream(s0, len as nat)));
        lemma_advance_x(s0, len as nat);
        if len > 0 {
            lemma_keystream_byte(s0, (len - 1) as nat);
        }
    }
    out
}

/// Decrypts `cipher` with the context, returning a buffer of the same length.
pub fn decrypt(ctx: &mut CipherCtx, cipher: &[u8]) -> (plain: Vec<u8>)
    requires
        old(ctx).wf(),
        old(ctx).offset + cipher@.len() <= u64::MAX,
    ensures
        final(ctx).wf(),
        final(ctx).state() == advance(old(ctx).state(), cipher@.len()),
        final(ctx).offset == old(ctx).offset + cipher@.len(),
        plain@ == xor_seq(cipher@, keystream(old(ctx).state(), cipher@.len())),
        plain@.len() == cipher@.len(),
{
    cipher_ctx_crypto(ctx, cipher)
}

/// The size of the buffer that `consume` works through at a time.
pub const CONSUME_DEFAULT_BUF_SIZE: i64 = 65536;

/// Skips `offset` bytes of keystream, decrypting in chunks of at most
/// `CONSUME_DEFAULT_BUF_SIZE` bytes and discarding the output.
pub fn consume(ctx: &mut CipherCtx, offset: i64)
    requires
        old(ctx).wf(),
        offset >= 0,
        old(ctx).offset + offset <= u64::MAX,
    ensures
        final(ctx).wf(),
        final(ctx).state() == advance(old(ctx).state(), offset as nat),
        final(ctx).offset == old(ctx).offset + offset,
{
    let consume_buf_size: i64 = if CONSUME_DEFAULT_BUF_SIZE > offset { offset } else { CONSUME_DEFAULT_BUF_SIZE };
    let consume_in_buf: Vec<u8> = vec![0u8; consume_buf_size as usize];
    let ghost s0 = ctx.state();
    let ghost off0 = ctx.offset;
    let mut remain_size: i64 = offset;
    while remain_size != 0
        invariant
            0 <= remain_size <= offset,
            consume_in_buf@.len() == consume_buf_size,
            consume_buf_size == (if CONSUME_DEFAULT_BUF_SIZE > offset { offset } else { CONSUME_DEFAULT_BUF_SIZE }),
            ctx.wf(),
            valid_state(s0),
            ctx.state() == advance(s0, (offset - remain_size) as nat),
            ctx.offset == off0 + (offset - remain_size),
            off0 + offset <= u64::MAX,
        decreases remain_size,
    {
        let current: i64 = if CONSUME_DEFAULT_BUF_SIZE > remain_size { remain_size } else { CONSUME_DEFAULT_BUF_SIZE };
        let chunk = slice_subrange(consume_in_buf.as_slice(), 0, current as usize);
        let _discarded = decrypt(ctx, chunk);
        proof {
            lemma_advance_add(s0, (offset - remain_size) as nat, current as nat);
        }
        remain_size = remain_size - current;
    }
}

/// Advancing by `a` then by `b` steps is advancing by `a + b` steps.
pub proof fn lemma_advance_add(s: KsState, a: nat, b: nat)
    ensures
        advance(advance(s, a), b) == advance(s, a + b),
    decreases b,
{
    if b > 0 {
        lemma_advance_add(s, a, (b - 1) as nat);
    }
}

/// The fixed tail that completes every content key.
pub const DRM_KEY_SUFFIX: [u8; 14] = [109, 101, 108, 111, 110, 100, 114, 109, 107, 101, 121, 33, 64, 35];

/// The bytes of `DRM_KEY_SUFFIX`.
pub open spec fn drm_key_suffix() -> Seq<u8> {
    seq![109u8, 101u8, 108u8, 111u8, 110u8, 100u8, 114u8, 109u8, 107u8, 101u8, 121u8, 33u8, 64u8, 35u8]
}

/// The running mask at position `i`: it starts at 0xFF and counts down
/// modulo 256.
pub open spec fn key_mask(i: int) -> u8 {
    ((255 - i) % 256) as u8
}

/// The intermediate key: each byte of `src` masked with the running mask
/// and with the context tag.
pub open spec fn obfuscate(src: Seq<u8>, tag: u8) -> Seq<u8> {
    Seq::new(src.len(), |i: int| src[i] ^ key_mask(i) ^ tag)
}

proof fn lemma_xor_cancel(a: u8, m: u8, t: u8)
    by (bit_vector)
    ensures
        (a ^ m ^ t) ^ (m ^ t) == a,
{
}

proof fn lemma_mask_down(i: int, m: u8)
    requires
        i >= 0,
        m as int == (255 - i) % 256,
    ensures
        vstd::wrapping::u8_specs::wrapping_sub(m, 1) as int == (255 - (i + 1)) % 256,
{
}

proof fn lemma_mask_up(i: int, m: u8)
    requires
        i >= 1,
        m as int == (255 - i) % 256,
    ensures
        vstd::wrapping::u8_specs::wrapping_add(m, 1) as int == (255 - (i - 1)) % 256,
{
}

/// Builds the content key from the partial key: the partial key followed by
/// `DRM_KEY_SUFFIX`, first masked position by position with a running mask
/// and the low byte `ctx_tag` of the context, then unmasked again from the
/// end. The masking cancels, so the key depends on the partial key alone.
pub fn generate_key(ctx_tag: u8, partial_key_buf: &[u8]) -> (key_buf: Vec<u8>)
    requires
        partial_key_buf@.len() + 14 <= usize::MAX,
    ensures
        key_buf@ == partial_key_buf@ + drm_key_suffix(),
{
    let partial_key_len = partial_key_buf.len();
    let key_len = partial_key_len + 14;
    let mut key_buf: Vec<u8> = vec![0u8; key_len];
    let ghost src = partial_key_buf@ + drm_key_suffix();
    let mut mask: u8 = 0xFF;
    let mut index: usize = 0;
    while index < partial_key_len
        invariant
            partial_key_len == partial_key_buf@.len(),
            key_len == partial_key_len + 14,
            key_buf@.len() == key_len,
            src == partial_key_buf@ + drm_key_suffix(),
            index <= partial_key_len,
            mask as int == (255 - index) % 256,
            forall|k: int| 0 <= k < index ==> #[trigger] key_buf@[k] == obfuscate(src, ctx_tag)[k],
        decreases partial_key_len - index,
    {
        key_buf.set(index, partial_key_buf[index] ^ mask ^ ctx_tag);
        proof {
            lemma_mask_down(index as int, mask);
        }
        mask = mask.wrapping_sub(1);
        index = index + 1;
    }
    let mut k: usize = 0;
    while k < 14
        invariant
            partial_key_len == partial_key_buf@.len(),
            key_len == partial_key_len + 14,
            key_buf@.len() == key_len,
            src == partial_key_buf@ + drm_key_suffix(),
            k <= 14,
            index == partial_key_len + k,
            mask as int == (255 - index) % 256,
            forall|j: int| 0 <= j < index ==> #[trigger] key_buf@[j] == obfuscate(src, ctx_tag)[j],
        decreases 14 - k,
    {
        key_buf.set(index, DRM_KEY_SUFFIX[k] ^ mask ^ ctx_tag);
        proof {
            lemma_mask_down(index as int, mask);
        }
        mask = mask.wrapping_sub(1);
        index = index + 1;
        k = k + 1;
    }
    let mut mask: u8 = 0xFFu8.wrapping_sub(((key_len - 1) % 256) as u8);
    let mut index: usize = key_len;
    while index > 0
        invariant
            key_len == partial_key_buf@.len() + 14,
            key_buf@.len() == key_len,
            src == partial_key_buf@ + drm_key_suffix(),
            src.len() == key_len,
            index <= key_len,
            index > 0 ==> mask as int == (255 - (index - 1)) % 256,
            forall|j: int| 0 <= j < index ==> #[trigger] key_buf@[j] == obfuscate(src, ctx_tag)[j],
            forall|j: int| index <= j < key_len ==> #[trigger] key_buf@[j] == src[j],
        decreases index,
    {
        let i = index - 1;
        let cur = key_buf[i];
        key_buf.set(i, cur ^ (mask ^ ctx_tag));
        proof {
            lemma_xor_cancel(src[i as int], key_mask(i as int), ctx_tag);
            if i > 0 {
                lemma_mask_up(i as int, mask);
            }
        }
        mask = mask.wrapping_add(1);
        index = i;
    }
    proof {
        assert(key_buf@ =~= src);
    }
    key_buf
}

/// Builds the content key from the partial key and runs key scheduling on it.
pub fn initialize_decryptor(ctx_tag: u8, partial_key_buf: &[u8]) -> (ctx: CipherCtx)
    requires
        partial_key_buf@.len() + 14 <= usize::MAX,
    ensures
        ctx.wf(),
        ctx.state() == initial_state(partial_key_buf@ + drm_key_suffix()),
        ctx.offset == 0,
{
    let key = generate_key(ctx_tag, partial_key_buf);
    cipher_ctx_init(key.as_slice())
}

/// The keystream of `a + b` steps is the keystream of `a` steps followed by
/// the keystream of `b` steps from the state reached after `a`.
pub proof fn lemma_keystream_split(s: KsState, a: nat, b: nat)
    ensures
        keystream(s, a + b) == keystream(s, a) + keystream(advance(s, a), b),
    decreases b,
{
    lemma_keystream_len(s, a);
    if b == 0 {
        assert(keystream(s, a) + keystream(advance(s, a), 0) =~= keystream(s, a));
    } else {
        lemma_keystream_split(s, a, (b - 1) as nat);
        lemma_advance_add(s, a, (b - 1) as nat);
        let left = keystream(s, a + b);
        let right = keystream(s, a) + keystream(advance(s, a), b);
        assert(left =~= right);
    }
}

/// The keystream of `n` steps has `n` bytes.
pub proof fn lemma_keystream_len(s: KsState, n: nat)
    ensures
        keystream(s, n).len() == n,
    decreases n,
{
    if n > 0 {
        lemma_keystream_len(s, (n - 1) as nat);
    }
}

proof fn lemma_xor_twice(a: u8, k: u8)
    by (bit_vector)
    ensures
        (a ^ k) ^ k == a,
{
}

/// Decryption is its own inverse: applying the keystream of a state twice
/// gives back the input.
pub proof fn lemma_decrypt_involution(s: KsState, m: Seq<u8>)
    ensures
        xor_seq(xor_seq(m, keystream(s, m.len())), keystream(s, m.len())) == m,
{
    lemma_keystream_len(s, m.len());
    let ks = keystream(s, m.len());
    let once = xor_seq(m, ks);
    assert forall|i: int| 0 <= i < m.len() implies #[trigger] xor_seq(once, ks)[i] == m[i] by {
        lemma_xor_twice(m[i], ks[i]);
    }
    assert(xor_seq(once, ks) =~= m);
}

/// Decrypting `a` and then `b` with one context gives the decryption of
/// `a + b` in one call: the context carries the keystream position.
pub proof fn lemma_decrypt_streaming(s: KsState, a: Seq<u8>, b: Seq<u8>)
    ensures
        xor_seq(a, keystream(s, a.len())) + xor_seq(b, keystream(advance(s, a.len()), b.len()))
            == xor_seq(a + b, keystream(s, (a + b).len())),
{
    lemma_keystream_split(s, a.len(), b.len());
    lemma_keystream_len(s, a.len());
    lemma_keystream_len(advance(s, a.len()), b.len());
    let lhs = xor_seq(a, keystream(s, a.len())) + xor_seq(b, keystream(advance(s, a.len()), b.len()));
    let rhs = xor_seq(a + b, keystream(s, (a + b).len()));
    assert(lhs =~= rhs);
}

/// Skipping `n` keystream bytes and then decrypting `c` gives the part after
/// the first `n` bytes of decrypting any `n`-byte prefix followed by `c`.
pub proof fn lemma_seek(s: KsState, prefix: Seq<u8>, c: Seq<u8>)
    ensures
        xor_seq(c, keystream(advance(s, prefix.len()), c.len())) == xor_seq(
            prefix + c,
            keystream(s, (prefix + c).len()),
        ).subrange(prefix.len() as int, (prefix + c).len() as int),
{
    lemma_decrypt_streaming(s, prefix, c);
    lemma_keystream_len(s, prefix.len());
    let whole = xor_seq(prefix + c, keystream(s, (prefix + c).len()));
    let head = xor_seq(prefix, keystream(s, prefix.len()));
    let tail = xor_seq(c, keystream(advance(s, prefix.len()), c.len()));
    assert(whole.subrange(prefix.len() as int, whole.len() as int) =~= tail);
}

proof fn lemma_next_cyclic(i: int, r: int, len: int)
    requires
        len > 0,
        i >= 0,
        0 <= r < len,
        r == i % len,
    ensures
        (if r + 1 == len { 0 } else { r + 1 }) == (i + 1) % len,
{
    vstd::arithmetic::div_mod::lemma_fundamental_div_mod(i, len);
    let q = i / len;
    assert(i + 1 == len * q + (r + 1));
    vstd::arithmetic::div_mod::lemma_mod_multiples_vanish(q, r + 1, len);
    if r + 1 == len {
        vstd::arithmetic::div_mod::lemma_mod_self_0(len);
    } else {
        vstd::arithmetic::div_mod::lemma_small_mod((r + 1) as nat, len as nat);
    }
}

/// One keystream step, described by its result: `x` moves on by one modulo
/// 256; the entries at the new `x` and the new `y` are swapped and nothing
/// else in the table changes; the new `y` adds the entry that was at the new
/// `x` (which now sits at `y`); and the byte emitted is the entry of the
/// swapped table at the sum of the two swapped entries.
pub proof fn lemma_step_effect(s: KsState)
    requires
        valid_state(s),
    ensures
        ({
            let (t, k) = prga_step(s);
            &&& t.1 == (s.1 + 1) % 256
            &&& t.0.len() == 256
            &&& t.0[t.1 as int] == s.0[t.2 as int]
            &&& t.0[t.2 as int] == s.0[t.1 as int]
            &&& forall|i: int| 0 <= i < 256 && i != t.1 && i != t.2 ==> #[trigger] t.0[i] == s.0[i]
            &&& t.2 == (s.2 + t.0[t.2 as int]) % 256
            &&& k == t.0[((t.0[t.1 as int] + t.0[t.2 as int]) % 256) as int] as u8
        }),
{
}

/// After `n` keystream steps the index `x` has moved on by `n` modulo 256.
pub proof fn lemma_advance_x(s: KsState, n: nat)
    requires
        valid_state(s),
    ensures
        advance(s, n).1 == (s.1 + n) % 256,
    decreases n,
{
    if n > 0 {
        lemma_advance_x(s, (n - 1) as nat);
        lemma_advance_valid(s, (n - 1) as nat);
        lemma_step_effect(advance(s, (n - 1) as nat));
    }
}

/// Keystream byte `n` is the entry of the table after `n + 1` steps at the
/// sum of that table's entries at `x` and `y`: it is read after the swap.
pub proof fn lemma_keystream_byte(s: KsState, n: nat)
    requires
        valid_state(s),
    ensures
        keystream(s, n + 1).len() == n + 1,
        ({
            let t = advance(s, n + 1);
            keystream(s, n + 1)[n as int] == t.0[((t.0[t.1 as int] + t.0[t.2 as int]) % 256) as int] as u8
        }),
{
    lemma_keystream_len(s, n);
    lemma_advance_valid(s, n);
    lemma_step_effect(advance(s, n));
}

/// Every key byte takes part in key scheduling: for a key of at most 256
/// bytes, two keys that differ only at position `k` give the same table
/// before step `k` and a different second index right after it.
pub proof fn lemma_ksa_uses_every_key_byte(key1: Seq<u8>, key2: Seq<u8>, k: nat)
    requires
        key1.len() == key2.len(),
        0 < key1.len() <= 256,
        k < key1.len(),
        key1[k as int] != key2[k as int],
        forall|p: int| 0 <= p < key1.len() && p != k ==> key1[p] == key2[p],
    ensures
        ksa(key1, k) == ksa(key2, k),
        ksa(key1, k + 1).1 != ksa(key2, k + 1).1,
{
    lemma_ksa_prefix_equal(key1, key2, k, k);
    lemma_ksa_perm(key1, k);
    let (d, j) = ksa(key1, k);
    let p = k as int;
    assert(p % (key1.len() as int) == p) by {
        vstd::arithmetic::div_mod::lemma_small_mod(k, key1.len());
    }
    assert(p % (key2.len() as int) == p);
    let a = key1[p];
    let b = key2[p];
    let t = d[p];
    assert((a + t + j) % 256 != (b + t + j) % 256) by {
        assert(a < 256 && b < 256 && a != b);
    }
}

/// Keys that agree on their first `k` positions schedule alike for the
/// first `i <= k` steps, as long as those positions lie within the keys.
proof fn lemma_ksa_prefix_equal(key1: Seq<u8>, key2: Seq<u8>, k: nat, i: nat)
    requires
        key1.len() == key2.len(),
        0 < key1.len(),
        k <= key1.len(),
        i <= k,
        forall|p: int| 0 <= p < k ==> key1[p] == key2[p],
    ensures
        ksa(key1, i) == ksa(key2, i),
    decreases i,
{
    if i > 0 {
        lemma_ksa_prefix_equal(key1, key2, k, (i - 1) as nat);
        let p = (i - 1) as int;
        assert(p % (key1.len() as int) == p) by {
            vstd::arithmetic::div_mod::lemma_small_mod(p as nat, key1.len());
        }
    }
}

} // verus!
