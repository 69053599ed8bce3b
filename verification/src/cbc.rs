//! Cipher block chaining decryption over the AES block decryption.

use vstd::prelude::*;
use vstd::slice::slice_subrange;
use vstd::slice::slice_to_vec;
use crate::aes::{AesKey, aes_decrypt_block, decrypt_block, decrypt_schedule, encrypt_block, lemma_decrypt_encrypt};

verus! {

/// Block `b` (16 bytes) of `input`.
pub open spec fn cbc_block(input: Seq<u8>, b: int) -> Seq<u8> {
    input.subrange(16 * b, 16 * b + 16)
}

/// The chaining value combined with block `b`: the initial vector for the
/// first block, the previous ciphertext block otherwise.
pub open spec fn cbc_prev(iv: Seq<u8>, input: Seq<u8>, b: int) -> Seq<u8> {
    if b == 0 {
        iv
    } else {
        cbc_block(input, b - 1)
    }
}

/// CBC decryption: each plaintext block is the decryption of its ciphertext
/// block combined with the previous ciphertext block (the initial vector for
/// the first one).
pub open spec fn cbc_decrypt(rk: Seq<u32>, rounds: int, iv: Seq<u8>, input: Seq<u8>) -> Seq<u8> {
    Seq::new(
        input.len(),
        |i: int|
            decrypt_block(rk, rounds, cbc_block(input, i / 16))[i % 16] ^ cbc_prev(iv, input, i / 16)[i
                % 16],
    )
}

/// The chaining value after decrypting `input`: its last ciphertext block,
/// or `iv` itself when `input` is empty.
pub open spec fn cbc_next_iv(iv: Seq<u8>, input: Seq<u8>) -> Seq<u8> {
    if input.len() == 0 {
        iv
    } else {
        cbc_block(input, input.len() / 16 - 1)
    }
}

/// Decrypts whole 16-byte blocks in CBC mode and leaves the chaining value
/// for a following call in `ivec`.
fn cbc_decrypt_blocks(input: &[u8], ivec: &mut Vec<u8>, key: &AesKey) -> (out: Vec<u8>)
    requires
        input@.len() % 16 == 0,
        old(ivec)@.len() == 16,
        key.wf(),
    ensures
        out@ == cbc_decrypt(key.rd_key@, key.rounds as int, old(ivec)@, input@),
        final(ivec)@ == cbc_next_iv(old(ivec)@, input@),
{
    let len = input.len();
    let ghost iv0 = ivec@;
    let mut out: Vec<u8> = Vec::new();
    let mut iv: Vec<u8> = ivec.clone();
    let mut pos: usize = 0;
    while pos < len
        invariant
            len == input@.len(),
            len % 16 == 0,
            pos % 16 == 0,
            pos <= len,
            key.wf(),
            iv@.len() == 16,
            iv@ == cbc_prev(iv0, input@, pos as int / 16),
            out@.len() == pos,
            forall|j: int| 0 <= j < pos ==> #[trigger] out@[j] == cbc_decrypt(key.rd_key@, key.rounds as int, iv0, input@)[j],
        decreases len - pos,
    {
        let block = slice_subrange(input, pos, pos + 16);
        assert(block@ == cbc_block(input@, pos as int / 16));
        let d = aes_decrypt_block(block, key);
        let mut n: usize = 0;
        while n < 16
            invariant
                len == input@.len(),
                pos + 16 <= len,
                pos % 16 == 0,
                n <= 16,
                d@.len() == 16,
                iv@.len() == 16,
                d@ == decrypt_block(key.rd_key@, key.rounds as int, cbc_block(input@, pos as int / 16)),
                iv@ == cbc_prev(iv0, input@, pos as int / 16),
                out@.len() == pos + n,
                forall|j: int| 0 <= j < pos + n ==> #[trigger] out@[j] == cbc_decrypt(key.rd_key@, key.rounds as int, iv0, input@)[j],
            decreases 16 - n,
        {
            out.push(d[n] ^ iv[n]);
            proof {
                let j = pos + n;
                assert(j / 16 == pos as int / 16);
                assert(j % 16 == n as int);
            }
            n = n + 1;
        }
        iv = slice_to_vec(block);
        pos = pos + 16;
    }
    proof {
        assert(out@ =~= cbc_decrypt(key.rd_key@, key.rounds as int, iv0, input@));
        if len > 0 {
            assert(iv@ == cbc_block(input@, len as int / 16 - 1));
        }
    }
    *ivec = iv;
    out
}

/// The number of bytes of whole blocks that cover `len` bytes.
pub open spec fn covered_len(len: int) -> int {
    16 * ((len + 15) / 16)
}

/// Decrypts the first `len` bytes of `input` in CBC mode. A trailing partial
/// block is decrypted from the whole 16-byte block that holds it (so `input`
/// must hold that block), only its first `len % 16` bytes are returned, and
/// that whole ciphertext block becomes the chaining value left in `ivec`
/// for a following call.
pub fn crypto_cbc128_decrypt(input: &[u8], len: usize, ivec: &mut Vec<u8>, key: &AesKey) -> (out: Vec<u8>)
    requires
        len <= input@.len(),
        input@.len() >= covered_len(len as int),
        old(ivec)@.len() == 16,
        key.wf(),
    ensures
        out@ == cbc_decrypt(key.rd_key@, key.rounds as int, old(ivec)@, input@.take(covered_len(len as int))).take(
            len as int,
        ),
        final(ivec)@ == cbc_next_iv(old(ivec)@, input@.take(covered_len(len as int))),
{
    let in_len = input.len();
    let blocks: usize = len / 16 + if len % 16 == 0 { 0 } else { 1 };
    assert(16 * blocks == covered_len(len as int));
    assert(16 * blocks <= in_len);
    let full: usize = 16 * blocks;
    let whole = slice_subrange(input, 0, full);
    assert(whole@ =~= input@.take(covered_len(len as int)));
    let decrypted = cbc_decrypt_blocks(whole, ivec, key);
    let out = slice_to_vec(slice_subrange(decrypted.as_slice(), 0, len));
    assert(out@ =~= decrypted@.take(len as int));
    out
}

/// Decrypting whole blocks `a` and then the first `lb` bytes of `b` in two
/// calls, carrying the chaining value, gives the first `a.len() + lb` bytes
/// of decrypting `a + b` in one call, and leaves the same chaining value.
pub proof fn lemma_cbc_split_partial(rk: Seq<u32>, rounds: int, iv: Seq<u8>, a: Seq<u8>, b: Seq<u8>, lb: int)
    requires
        a.len() % 16 == 0,
        0 <= lb <= b.len(),
        b.len() >= covered_len(lb),
    ensures
        covered_len(a.len() + lb) == a.len() + covered_len(lb),
        cbc_decrypt(rk, rounds, iv, (a + b).take(covered_len(a.len() + lb))).take(a.len() + lb)
            == cbc_decrypt(rk, rounds, iv, a) + cbc_decrypt(
            rk,
            rounds,
            cbc_next_iv(iv, a),
            b.take(covered_len(lb)),
        ).take(lb),
        cbc_next_iv(iv, (a + b).take(covered_len(a.len() + lb))) == cbc_next_iv(
            cbc_next_iv(iv, a),
            b.take(covered_len(lb)),
        ),
{
    let na = a.len() / 16;
    vstd::arithmetic::div_mod::lemma_fundamental_div_mod(a.len() as int, 16);
    assert(a.len() == na * 16);
    vstd::arithmetic::div_mod::lemma_hoist_over_denominator(lb + 15, na as int, 16);
    assert((a.len() + lb + 15) / 16 == na + (lb + 15) / 16);
    let bc = b.take(covered_len(lb));
    assert(covered_len(lb) % 16 == 0) by {
        vstd::arithmetic::div_mod::lemma_mod_multiples_basic((lb + 15) / 16, 16);
    }
    assert((a + b).take(covered_len(a.len() + lb)) =~= a + bc);
    lemma_cbc_split(rk, rounds, iv, a, bc);
    let whole = cbc_decrypt(rk, rounds, iv, a + bc);
    let first = cbc_decrypt(rk, rounds, iv, a);
    let second = cbc_decrypt(rk, rounds, cbc_next_iv(iv, a), bc);
    assert(whole.take(a.len() + lb) =~= first + second.take(lb));
}

/// Decrypting `a` and then `b` in two calls, carrying the chaining value,
/// gives the decryption of `a + b` in one call.
pub proof fn lemma_cbc_split(rk: Seq<u32>, rounds: int, iv: Seq<u8>, a: Seq<u8>, b: Seq<u8>)
    requires
        a.len() % 16 == 0,
        b.len() % 16 == 0,
    ensures
        cbc_decrypt(rk, rounds, iv, a + b) == cbc_decrypt(rk, rounds, iv, a) + cbc_decrypt(
            rk,
            rounds,
            cbc_next_iv(iv, a),
            b,
        ),
        cbc_next_iv(iv, a + b) == cbc_next_iv(cbc_next_iv(iv, a), b),
{
    let ab = a + b;
    let lhs = cbc_decrypt(rk, rounds, iv, ab);
    let rhs = cbc_decrypt(rk, rounds, iv, a) + cbc_decrypt(rk, rounds, cbc_next_iv(iv, a), b);
    assert forall|i: int| 0 <= i < ab.len() implies #[trigger] lhs[i] == rhs[i] by {
        let blk = i / 16;
        if i < a.len() {
            assert(cbc_block(ab, blk) =~= cbc_block(a, blk));
            if blk > 0 {
                assert(cbc_block(ab, blk - 1) =~= cbc_block(a, blk - 1));
            }
        } else {
            let k = i - a.len();
            let na = a.len() / 16;
            assert(blk == na + k / 16);
            assert(i % 16 == k % 16);
            assert(cbc_block(ab, blk) =~= cbc_block(b, k / 16));
            if k / 16 > 0 {
                assert(cbc_block(ab, blk - 1) =~= cbc_block(b, k / 16 - 1));
            } else if na > 0 {
                assert(cbc_block(ab, blk - 1) =~= cbc_block(a, na - 1));
            }
        }
    }
    assert(lhs =~= rhs);
    if b.len() > 0 {
        assert(cbc_block(ab, ab.len() / 16 - 1) =~= cbc_block(b, b.len() / 16 - 1));
    } else {
        assert(ab =~= a);
    }
}

/// Bytewise exclusive or of two 16-byte blocks.
pub open spec fn xor_block(a: Seq<u8>, b: Seq<u8>) -> Seq<u8> {
    Seq::new(16, |i: int| a[i] ^ b[i])
}

/// CBC encryption of whole blocks: each ciphertext block is the encryption
/// of its plaintext block combined with the previous ciphertext block (the
/// initial vector for the first one).
pub open spec fn cbc_encrypt(ek: Seq<u32>, rounds: int, iv: Seq<u8>, plain: Seq<u8>) -> Seq<u8>
    decreases plain.len(),
{
    if plain.len() < 16 {
        Seq::empty()
    } else {
        let c0 = encrypt_block(ek, rounds, xor_block(plain.take(16), iv));
        c0 + cbc_encrypt(ek, rounds, c0, plain.skip(16))
    }
}

proof fn lemma_xor_twice(a: u8, k: u8)
    by (bit_vector)
    ensures
        (a ^ k) ^ k == a,
{
}

/// CBC encryption of whole blocks keeps the length.
pub proof fn lemma_cbc_encrypt_len(ek: Seq<u32>, rounds: int, iv: Seq<u8>, plain: Seq<u8>)
    requires
        plain.len() % 16 == 0,
    ensures
        cbc_encrypt(ek, rounds, iv, plain).len() == plain.len(),
    decreases plain.len(),
{
    if plain.len() >= 16 {
        let c0 = encrypt_block(ek, rounds, xor_block(plain.take(16), iv));
        lemma_cbc_encrypt_len(ek, rounds, c0, plain.skip(16));
    }
}

/// CBC decryption with the decryption schedule undoes CBC encryption with
/// the encryption schedule it was built from, for whole blocks.
pub proof fn lemma_cbc_decrypt_encrypt(ek: Seq<u32>, rounds: int, iv: Seq<u8>, plain: Seq<u8>)
    requires
        rounds >= 1,
        ek.len() == 4 * (rounds + 1),
        iv.len() == 16,
        plain.len() % 16 == 0,
    ensures
        cbc_decrypt(decrypt_schedule(ek, rounds), rounds, iv, cbc_encrypt(ek, rounds, iv, plain)) == plain,
    decreases plain.len(),
{
    let dk = decrypt_schedule(ek, rounds);
    if plain.len() < 16 {
        assert(cbc_decrypt(dk, rounds, iv, Seq::<u8>::empty()) =~= plain);
    } else {
        let p0 = plain.take(16);
        let c0 = encrypt_block(ek, rounds, xor_block(p0, iv));
        let rest = cbc_encrypt(ek, rounds, c0, plain.skip(16));
        lemma_cbc_encrypt_len(ek, rounds, c0, plain.skip(16));
        lemma_cbc_decrypt_encrypt(ek, rounds, c0, plain.skip(16));
        lemma_cbc_split(dk, rounds, iv, c0, rest);
        lemma_decrypt_encrypt(ek, rounds, xor_block(p0, iv));
        let first = cbc_decrypt(dk, rounds, iv, c0);
        assert forall|i: int| 0 <= i < 16 implies #[trigger] first[i] == p0[i] by {
            assert(cbc_block(c0, i / 16) =~= c0);
            lemma_xor_twice(p0[i], iv[i]);
        }
        assert(first =~= p0);
        assert(cbc_next_iv(iv, c0) == c0) by {
            assert(cbc_block(c0, 0) =~= c0);
        }
        assert(p0 + plain.skip(16) =~= plain);
    }
}

} // verus!
