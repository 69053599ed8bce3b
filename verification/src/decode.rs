//! Unlocking cached tracks: the fixed key and initial vector that protect
//! the partial key, its decryption, and the set-up of the stream cipher.

use vstd::prelude::*;
use vstd::slice::slice_subrange;
use vstd::slice::slice_to_vec;
use crate::aes::{aes_set_decrypt_key_impl, decrypt_schedule, encrypt_schedule};
use crate::b64::{b64_decode, b64_encode, base64_decode_ctx, decode_4, lemma_decode_encode};
use crate::cbc::{
    cbc_decrypt, cbc_encrypt, covered_len, crypto_cbc128_decrypt, lemma_cbc_decrypt_encrypt, lemma_cbc_encrypt_len,
};
use crate::keystream::{
    CipherCtx, advance, consume, decrypt, drm_key_suffix, initial_state, initialize_decryptor,
    keystream, lemma_advance_add, lemma_seek, xor_seq,
};

verus! {

/// The text `PartialKeyEncKey`.
pub const DECODE_STR: [u8; 16] = [80, 97, 114, 116, 105, 97, 108, 75, 101, 121, 69, 110, 99, 75, 101, 121];

/// The text `!@melon!@melon!@`.
pub const DECODE_MELON: [u8; 16] = [33, 64, 109, 101, 108, 111, 110, 33, 64, 109, 101, 108, 111, 110, 33, 64];

/// The bytes whose running exclusive or gives the initial vector.
pub const DECODE_CHAR: [u8; 16] = [10, 99, 3, 101, 89, 28, 115, 21, 101, 13, 65, 67, 98, 90, 95, 65];

/// The exclusive or of the first `n` bytes of `DECODE_CHAR`.
pub open spec fn char_chain(n: nat) -> u8
    decreases n,
{
    if n == 0 {
        0
    } else {
        DECODE_CHAR@[n - 1] ^ char_chain((n - 1) as nat)
    }
}

/// The AES key that protects the partial key.
pub open spec fn pk_key() -> Seq<u8> {
    Seq::new(
        16,
        |i: int| ((DECODE_STR@[i] ^ ((0xbb - i) as u8)) ^ DECODE_MELON@[i]) ^ char_chain(16),
    )
}

/// The initial vector that protects the partial key.
pub open spec fn pk_iv() -> Seq<u8> {
    Seq::new(16, |i: int| char_chain((i + 1) as nat) ^ char_chain(16))
}

/// Derives the fixed AES key and initial vector from the three constant
/// tables: the key from the text tables under a mask counting down from
/// 0xbb, the initial vector as running exclusive ors of `DECODE_CHAR`, and
/// both finally combined with the exclusive or of all of `DECODE_CHAR`.
pub fn partial_key() -> (res: (Vec<u8>, Vec<u8>))
    ensures
        res.0@ == pk_key(),
        res.1@ == pk_iv(),
{
    let mut mask: u8 = 0xbb;
    let mut key_buf: Vec<u8> = vec![0u8; 16];
    let mut iv_buf: Vec<u8> = vec![0u8; 16];
    let mut buf: u8 = 0;
    let mut i: usize = 0;
    while i < 16
        invariant
            i <= 16,
            mask == 0xbb - i,
            key_buf@.len() == 16,
            forall|k: int| 0 <= k < i ==> #[trigger] key_buf@[k] == (DECODE_STR@[k] ^ ((0xbb - k) as u8))
                ^ DECODE_MELON@[k],
        decreases 16 - i,
    {
        key_buf.set(i, DECODE_STR[i] ^ mask ^ DECODE_MELON[i]);
        mask = mask - 1;
        i = i + 1;
    }
    let mut i: usize = 0;
    while i < 16
        invariant
            i <= 16,
            buf == char_chain(i as nat),
            iv_buf@.len() == 16,
            forall|k: int| 0 <= k < i ==> #[trigger] iv_buf@[k] == char_chain((k + 1) as nat),
        decreases 16 - i,
    {
        buf = DECODE_CHAR[i] ^ (buf & 0xFF);
        proof {
            assert(buf == char_chain((i + 1) as nat)) by {
                lemma_and_ff(char_chain(i as nat));
            }
        }
        iv_buf.set(i, buf);
        i = i + 1;
    }
    let ghost key0 = key_buf@;
    let ghost iv0 = iv_buf@;
    let mut i: usize = 0;
    while i < 16
        invariant
            i <= 16,
            buf == char_chain(16),
            key_buf@.len() == 16,
            iv_buf@.len() == 16,
            forall|k: int| 0 <= k < 16 ==> #[trigger] key0[k] == (DECODE_STR@[k] ^ ((0xbb - k) as u8))
                ^ DECODE_MELON@[k],
            forall|k: int| 0 <= k < 16 ==> #[trigger] iv0[k] == char_chain((k + 1) as nat),
            forall|k: int| 0 <= k < i ==> #[trigger] key_buf@[k] == key0[k] ^ buf,
            forall|k: int| 0 <= k < i ==> #[trigger] iv_buf@[k] == iv0[k] ^ buf,
            forall|k: int| i <= k < 16 ==> #[trigger] key_buf@[k] == key0[k],
            forall|k: int| i <= k < 16 ==> #[trigger] iv_buf@[k] == iv0[k],
        decreases 16 - i,
    {
        proof {
            lemma_and_ff(buf);
        }
        let kb = key_buf[i] ^ (buf & 0xFF);
        key_buf.set(i, kb);
        let ib = iv_buf[i] ^ (buf & 0xFF);
        iv_buf.set(i, ib);
        i = i + 1;
    }
    proof {
        assert(key_buf@ =~= pk_key());
        assert(iv_buf@ =~= pk_iv());
    }
    (key_buf, iv_buf)
}

proof fn lemma_and_ff(b: u8)
    by (bit_vector)
    ensures
        b & 0xFF == b,
{
}

/// The decryption schedule of the key that protects the partial key.
pub open spec fn pk_schedule() -> Seq<u32> {
    decrypt_schedule(encrypt_schedule(pk_key(), 4), 10)
}

/// The partial key that an encrypted, base64-encoded key holds: the base64
/// text decoded (as far as it decodes), decrypted in CBC mode with the fixed
/// key and initial vector, and stripped of as many trailing bytes as its last
/// byte says. There is none when the decoded data is empty or not whole
/// blocks, or when the last byte exceeds the length.
#[verifier::opaque]
pub open spec fn partial_key_plain(buffer: Seq<u8>) -> Option<Seq<u8>> {
    let cipher = b64_decode(buffer).1;
    if cipher.len() == 0 || cipher.len() % 16 != 0 {
        None
    } else {
        let out = cbc_decrypt(pk_schedule(), 10, pk_iv(), cipher);
        let pad = out[out.len() - 1];
        if pad > out.len() {
            None
        } else {
            Some(out.take(out.len() - pad))
        }
    }
}

/// Four decoded bytes take at least three input characters each.
proof fn lemma_b64_len(s: Seq<u8>)
    ensures
        4 * b64_decode(s).1.len() <= 3 * s.len(),
    decreases s.len(),
{
    if s.len() > 0 {
        let (ok, o) = decode_4(s);
        if ok && s.len() >= 4 {
            lemma_b64_len(s.skip(4));
        }
    }
}

/// A recovered partial key is short enough to extend with the key suffix.
proof fn lemma_partial_key_len(buffer: Seq<u8>)
    requires
        buffer.len() <= usize::MAX,
    ensures
        partial_key_plain(buffer) matches Some(p) ==> p.len() + 14 <= usize::MAX,
{
    reveal(partial_key_plain);
    lemma_b64_len(buffer);
}

/// PKCS#7 padding to whole blocks: one to sixteen bytes, each holding the
/// padding's length.
pub open spec fn pkcs7_pad(p: Seq<u8>) -> Seq<u8> {
    let n = 16 - p.len() % 16;
    p + Seq::new(n as nat, |i: int| n as u8)
}

/// A partial key encrypted the way the service protects it (padded,
/// CBC-encrypted with the fixed key and initial vector, base64-encoded) is
/// recovered unchanged.
pub proof fn lemma_partial_key_round_trip(partial: Seq<u8>)
    ensures
        partial_key_plain(
            b64_encode(cbc_encrypt(encrypt_schedule(pk_key(), 4), 10, pk_iv(), pkcs7_pad(partial))),
        ) == Some(partial),
{
    reveal(partial_key_plain);
    let padded = pkcs7_pad(partial);
    let n = 16 - partial.len() % 16;
    assert(padded.len() % 16 == 0);
    let ek = encrypt_schedule(pk_key(), 4);
    let c = cbc_encrypt(ek, 10, pk_iv(), padded);
    lemma_cbc_encrypt_len(ek, 10, pk_iv(), padded);
    lemma_decode_encode(c);
    lemma_cbc_decrypt_encrypt(ek, 10, pk_iv(), padded);
    assert(padded[padded.len() - 1] == n as u8);
    assert(padded.take(padded.len() - n) =~= partial);
}

/// Recovers the partial key from its encrypted, base64-encoded form.
/// Returns `None` where the decoded data cannot be decrypted as whole blocks
/// or its padding byte exceeds its length.
pub fn decrypt_partial_key(buffer: &[u8]) -> (res: Option<Vec<u8>>)
    ensures
        res matches Some(v) ==> partial_key_plain(buffer@) == Some(v@),
        res is None ==> partial_key_plain(buffer@) is None,
{
    reveal(partial_key_plain);
    let (key_buf, iv_buf) = partial_key();
    let key = match aes_set_decrypt_key_impl(key_buf.as_slice(), 128) {
        Ok(k) => k,
        Err(_) => {
            return None;
        },
    };
    let (_complete, cipher) = base64_decode_ctx(buffer);
    let cipher_len = cipher.len();
    if cipher_len == 0 || cipher_len % 16 != 0 {
        return None;
    }
    let mut iv = iv_buf;
    proof {
        assert(covered_len(cipher_len as int) == cipher_len);
    }
    let out = crypto_cbc128_decrypt(cipher.as_slice(), cipher_len, &mut iv, &key);
    proof {
        assert(cipher@.take(cipher_len as int) =~= cipher@);
        let whole = cbc_decrypt(key.rd_key@, key.rounds as int, pk_iv(), cipher@);
        assert(whole.take(cipher_len as int) =~= whole);
    }
    let pad = out[cipher_len - 1] as usize;
    if pad > cipher_len {
        return None;
    }
    let plain_len = cipher_len - pad;
    let plain = slice_to_vec(slice_subrange(out.as_slice(), 0, plain_len));
    proof {
        assert(plain@ =~= out@.take(plain_len as int));
    }
    Some(plain)
}

/// The stream cipher state for a track whose partial key is `partial`,
/// after skipping `offset` bytes of keystream.
pub open spec fn track_state(partial: Seq<u8>, offset: nat) -> crate::keystream::KsState {
    advance(initial_state(partial + drm_key_suffix()), offset)
}

/// Starting a track at byte `a + b` is starting it at `a` and then running
/// the keystream `b` bytes on.
pub proof fn lemma_track_state_add(partial: Seq<u8>, a: nat, b: nat)
    ensures
        track_state(partial, a + b) == advance(track_state(partial, a), b),
{
    lemma_advance_add(initial_state(partial + drm_key_suffix()), a, b);
}

/// Decrypting `c` from a track started at `prefix.len()` gives exactly the
/// bytes after the first `prefix.len()` of decrypting `prefix + c` from the
/// start of the track, whatever `prefix` holds.
pub proof fn lemma_track_seek(partial: Seq<u8>, prefix: Seq<u8>, c: Seq<u8>)
    ensures
        xor_seq(c, keystream(track_state(partial, prefix.len()), c.len())) == xor_seq(
            prefix + c,
            keystream(track_state(partial, 0), (prefix + c).len()),
        ).subrange(prefix.len() as int, (prefix + c).len() as int),
{
    let s = initial_state(partial + drm_key_suffix());
    assert(advance(s, 0) == s);
    lemma_seek(s, prefix, c);
}

/// Sets up the stream cipher for a track: recovers the partial key from
/// `buffer`, builds the content key and runs key scheduling, then skips
/// `offset` bytes of keystream when an offset is given. `key` is not read.
pub fn initialize(buffer: &[u8], key: String, offset: Option<i64>) -> (res: Option<CipherCtx>)
    requires
        offset matches Some(o) ==> o >= 0,
    ensures
        partial_key_plain(buffer@) is None <==> res is None,
        res matches Some(ctx) ==> {
            &&& ctx.wf()
            &&& ctx.state() == track_state(
                partial_key_plain(buffer@).unwrap(),
                match offset {
                    Some(o) => o as nat,
                    None => 0,
                },
            )
            &&& ctx.offset == match offset {
                Some(o) => o as nat,
                None => 0,
            }
        },
{
    let partial = match decrypt_partial_key(buffer) {
        Some(p) => p,
        None => {
            return None;
        },
    };
    let buffer_len = buffer.len();
    proof {
        assert(buffer@.len() == buffer_len);
        lemma_partial_key_len(buffer@);
    }
    let mut ctx = initialize_decryptor(0, partial.as_slice());
    match offset {
        Some(value) => {
            consume(&mut ctx, value);
        },
        None => {},
    }
    Some(ctx)
}

/// Decrypts a whole cached track whose encrypted partial key is `key`,
/// starting at the beginning of the keystream.
pub fn decrypt_mcache(key: &[u8], data: &[u8]) -> (res: Option<Vec<u8>>)
    ensures
        partial_key_plain(key@) is None <==> res is None,
        res matches Some(plain) ==> plain@ == xor_seq(
            data@,
            keystream(track_state(partial_key_plain(key@).unwrap(), 0), data@.len()),
        ),
{
    let mut ctx = match initialize(key, String::new(), Some(0)) {
        Some(c) => c,
        None => {
            return None;
        },
    };
    let data_len = data.len();
    assert(ctx.offset + data_len <= u64::MAX);
    Some(decrypt(&mut ctx, data))
}

} // verus!
