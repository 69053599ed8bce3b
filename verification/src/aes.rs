//! AES key schedules (encryption and decryption) and the decryption of one
//! 16-byte block with a decryption schedule.

use vstd::prelude::*;

verus! {

/// The AES substitution box.
pub const SBOX: [u8; 256] = [0x63, 0x7c, 0x77, 0x7b, 0xf2, 0x6b, 0x6f, 0xc5, 0x30, 0x01, 0x67, 0x2b, 0xfe, 0xd7, 0xab, 0x76, 0xca, 0x82, 0xc9, 0x7d, 0xfa, 0x59, 0x47, 0xf0, 0xad, 0xd4, 0xa2, 0xaf, 0x9c, 0xa4, 0x72, 0xc0, 0xb7, 0xfd, 0x93, 0x26, 0x36, 0x3f, 0xf7, 0xcc, 0x34, 0xa5, 0xe5, 0xf1, 0x71, 0xd8, 0x31, 0x15, 0x04, 0xc7, 0x23, 0xc3, 0x18, 0x96, 0x05, 0x9a, 0x07, 0x12, 0x80, 0xe2, 0xeb, 0x27, 0xb2, 0x75, 0x09, 0x83, 0x2c, 0x1a, 0x1b, 0x6e, 0x5a, 0xa0, 0x52, 0x3b, 0xd6, 0xb3, 0x29, 0xe3, 0x2f, 0x84, 0x53, 0xd1, 0x00, 0xed, 0x20, 0xfc, 0xb1, 0x5b, 0x6a, 0xcb, 0xbe, 0x39, 0x4a, 0x4c, 0x58, 0xcf, 0xd0, 0xef, 0xaa, 0xfb, 0x43, 0x4d, 0x33, 0x85, 0x45, 0xf9, 0x02, 0x7f, 0x50, 0x3c, 0x9f, 0xa8, 0x51, 0xa3, 0x40, 0x8f, 0x92, 0x9d, 0x38, 0xf5, 0xbc, 0xb6, 0xda, 0x21, 0x10, 0xff, 0xf3, 0xd2, 0xcd, 0x0c, 0x13, 0xec, 0x5f, 0x97, 0x44, 0x17, 0xc4, 0xa7, 0x7e, 0x3d, 0x64, 0x5d, 0x19, 0x73, 0x60, 0x81, 0x4f, 0xdc, 0x22, 0x2a, 0x90, 0x88, 0x46, 0xee, 0xb8, 0x14, 0xde, 0x5e, 0x0b, 0xdb, 0xe0, 0x32, 0x3a, 0x0a, 0x49, 0x06, 0x24, 0x5c, 0xc2, 0xd3, 0xac, 0x62, 0x91, 0x95, 0xe4, 0x79, 0xe7, 0xc8, 0x37, 0x6d, 0x8d, 0xd5, 0x4e, 0xa9, 0x6c, 0x56, 0xf4, 0xea, 0x65, 0x7a, 0xae, 0x08, 0xba, 0x78, 0x25, 0x2e, 0x1c, 0xa6, 0xb4, 0xc6, 0xe8, 0xdd, 0x74, 0x1f, 0x4b, 0xbd, 0x8b, 0x8a, 0x70, 0x3e, 0xb5, 0x66, 0x48, 0x03, 0xf6, 0x0e, 0x61, 0x35, 0x57, 0xb9, 0x86, 0xc1, 0x1d, 0x9e, 0xe1, 0xf8, 0x98, 0x11, 0x69, 0xd9, 0x8e, 0x94, 0x9b, 0x1e, 0x87, 0xe9, 0xce, 0x55, 0x28, 0xdf, 0x8c, 0xa1, 0x89, 0x0d, 0xbf, 0xe6, 0x42, 0x68, 0x41, 0x99, 0x2d, 0x0f, 0xb0, 0x54, 0xbb, 0x16];

/// The inverse of `SBOX`.
pub const INV_SBOX: [u8; 256] = [0x52, 0x09, 0x6a, 0xd5, 0x30, 0x36, 0xa5, 0x38, 0xbf, 0x40, 0xa3, 0x9e, 0x81, 0xf3, 0xd7, 0xfb, 0x7c, 0xe3, 0x39, 0x82, 0x9b, 0x2f, 0xff, 0x87, 0x34, 0x8e, 0x43, 0x44, 0xc4, 0xde, 0xe9, 0xcb, 0x54, 0x7b, 0x94, 0x32, 0xa6, 0xc2, 0x23, 0x3d, 0xee, 0x4c, 0x95, 0x0b, 0x42, 0xfa, 0xc3, 0x4e, 0x08, 0x2e, 0xa1, 0x66, 0x28, 0xd9, 0x24, 0xb2, 0x76, 0x5b, 0xa2, 0x49, 0x6d, 0x8b, 0xd1, 0x25, 0x72, 0xf8, 0xf6, 0x64, 0x86, 0x68, 0x98, 0x16, 0xd4, 0xa4, 0x5c, 0xcc, 0x5d, 0x65, 0xb6, 0x92, 0x6c, 0x70, 0x48, 0x50, 0xfd, 0xed, 0xb9, 0xda, 0x5e, 0x15, 0x46, 0x57, 0xa7, 0x8d, 0x9d, 0x84, 0x90, 0xd8, 0xab, 0x00, 0x8c, 0xbc, 0xd3, 0x0a, 0xf7, 0xe4, 0x58, 0x05, 0xb8, 0xb3, 0x45, 0x06, 0xd0, 0x2c, 0x1e, 0x8f, 0xca, 0x3f, 0x0f, 0x02, 0xc1, 0xaf, 0xbd, 0x03, 0x01, 0x13, 0x8a, 0x6b, 0x3a, 0x91, 0x11, 0x41, 0x4f, 0x67, 0xdc, 0xea, 0x97, 0xf2, 0xcf, 0xce, 0xf0, 0xb4, 0xe6, 0x73, 0x96, 0xac, 0x74, 0x22, 0xe7, 0xad, 0x35, 0x85, 0xe2, 0xf9, 0x37, 0xe8, 0x1c, 0x75, 0xdf, 0x6e, 0x47, 0xf1, 0x1a, 0x71, 0x1d, 0x29, 0xc5, 0x89, 0x6f, 0xb7, 0x62, 0x0e, 0xaa, 0x18, 0xbe, 0x1b, 0xfc, 0x56, 0x3e, 0x4b, 0xc6, 0xd2, 0x79, 0x20, 0x9a, 0xdb, 0xc0, 0xfe, 0x78, 0xcd, 0x5a, 0xf4, 0x1f, 0xdd, 0xa8, 0x33, 0x88, 0x07, 0xc7, 0x31, 0xb1, 0x12, 0x10, 0x59, 0x27, 0x80, 0xec, 0x5f, 0x60, 0x51, 0x7f, 0xa9, 0x19, 0xb5, 0x4a, 0x0d, 0x2d, 0xe5, 0x7a, 0x9f, 0x93, 0xc9, 0x9c, 0xef, 0xa0, 0xe0, 0x3b, 0x4d, 0xae, 0x2a, 0xf5, 0xb0, 0xc8, 0xeb, 0xbb, 0x3c, 0x83, 0x53, 0x99, 0x61, 0x17, 0x2b, 0x04, 0x7e, 0xba, 0x77, 0xd6, 0x26, 0xe1, 0x69, 0x14, 0x63, 0x55, 0x21, 0x0c, 0x7d];

/// Round constants, one per key-expansion round, in the top byte of a word.
pub const RCON: [u32; 10] = [
    0x01000000, 0x02000000, 0x04000000, 0x08000000, 0x10000000,
    0x20000000, 0x40000000, 0x80000000, 0x1B000000, 0x36000000,
];

/// A key schedule: `4 * (rounds + 1)` words of round keys.
pub struct AesKey {
    pub rd_key: Vec<u32>,
    pub rounds: u32,
}

/// Why a key schedule could not be built.
#[derive(Debug, PartialEq, Eq, Structural)]
pub enum AesKeyError {
    /// The key size is not 128, 192 or 256 bits.
    BadKeyBits,
}

pub open spec fn sbox(b: u8) -> u8 {
    SBOX@[b as int]
}

pub open spec fn inv_sbox(b: u8) -> u8 {
    INV_SBOX@[b as int]
}

/// The word whose bytes, from the most significant, are `a`, `b`, `c`, `d`.
pub open spec fn make_word(a: u8, b: u8, c: u8, d: u8) -> u32 {
    ((a as u32) << 24u32) | ((b as u32) << 16u32) | ((c as u32) << 8u32) | (d as u32)
}

/// Byte `k` of a word, counting from the most significant (`k` in `0..4`).
pub open spec fn word_byte(w: u32, k: int) -> u8 {
    if k == 0 {
        (w >> 24u32) as u8
    } else if k == 1 {
        (w >> 16u32) as u8
    } else if k == 2 {
        (w >> 8u32) as u8
    } else {
        w as u8
    }
}

/// Substitution of each byte of the word rotated left by one byte.
pub open spec fn sub_rot_word(w: u32) -> u32 {
    make_word(sbox(word_byte(w, 1)), sbox(word_byte(w, 2)), sbox(word_byte(w, 3)), sbox(word_byte(w, 0)))
}

/// Substitution of each byte of the word.
pub open spec fn sub_word(w: u32) -> u32 {
    make_word(sbox(word_byte(w, 0)), sbox(word_byte(w, 1)), sbox(word_byte(w, 2)), sbox(word_byte(w, 3)))
}

/// Word `i` of the expanded key of an `nk`-word key.
pub open spec fn key_word(key: Seq<u8>, nk: nat, i: nat) -> u32
    decreases i,
{
    if nk == 0 {
        0
    } else if i < nk {
        {
            let b = 4 * (i as int);
            make_word(key[b], key[b + 1], key[b + 2], key[b + 3])
        }
    } else {
        let temp = key_word(key, nk, (i - 1) as nat);
        let t = if i % nk == 0 {
            sub_rot_word(temp) ^ RCON@[(i / nk) - 1]
        } else if nk > 6 && i % nk == 4 {
            sub_word(temp)
        } else {
            temp
        };
        key_word(key, nk, (i - nk) as nat) ^ t
    }
}

/// The number of key words for a key size in bits, when it is supported.
pub open spec fn key_words_for_bits(bits: u32) -> nat {
    if bits == 128 {
        4
    } else if bits == 192 {
        6
    } else {
        8
    }
}

pub open spec fn supported_bits(bits: u32) -> bool {
    bits == 128 || bits == 192 || bits == 256
}

/// The encryption schedule of a key of `nk` words: `4 * (nk + 7)` words.
pub open spec fn encrypt_schedule(key: Seq<u8>, nk: nat) -> Seq<u32> {
    Seq::new(4 * (nk + 7), |i: int| key_word(key, nk, i as nat))
}

impl AesKey {
    /// The schedule has the right length for its number of rounds.
    pub open spec fn wf(&self) -> bool {
        &&& (self.rounds == 10 || self.rounds == 12 || self.rounds == 14)
        &&& self.rd_key@.len() == 4 * (self.rounds + 1)
    }
}

fn get_byte(w: u32, k: usize) -> (b: u8)
    requires
        k < 4,
    ensures
        b == word_byte(w, k as int),
{
    if k == 0 {
        (w >> 24u32) as u8
    } else if k == 1 {
        (w >> 16u32) as u8
    } else if k == 2 {
        (w >> 8u32) as u8
    } else {
        w as u8
    }
}

fn build_word(a: u8, b: u8, c: u8, d: u8) -> (w: u32)
    ensures
        w == make_word(a, b, c, d),
{
    ((a as u32) << 24u32) | ((b as u32) << 16u32) | ((c as u32) << 8u32) | (d as u32)
}

fn sub_byte(b: u8) -> (r: u8)
    ensures
        r == sbox(b),
{
    SBOX[b as usize]
}

fn inv_sub_byte(b: u8) -> (r: u8)
    ensures
        r == inv_sbox(b),
{
    INV_SBOX[b as usize]
}

proof fn lemma_rcon_index(i: int, nk: int)
    requires
        (nk == 4 && 4 <= i < 44) || (nk == 6 && 6 <= i < 52) || (nk == 8 && 8 <= i < 60),
    ensures
        1 <= i / nk <= 10,
{
}

/// Expands a 128-, 192- or 256-bit key into its encryption schedule.
pub fn aes_set_encrypt_key_impl(user_key: &[u8], bits: u32) -> (res: Result<AesKey, AesKeyError>)
    requires
        supported_bits(bits) ==> user_key@.len() >= bits / 8,
    ensures
        supported_bits(bits) <==> res is Ok,
        !supported_bits(bits) ==> res matches Err(AesKeyError::BadKeyBits),
        res matches Ok(k) ==> {
            &&& k.wf()
            &&& k.rounds == key_words_for_bits(bits) + 6
            &&& k.rd_key@ == encrypt_schedule(user_key@, key_words_for_bits(bits))
        },
{
    if bits != 128 && bits != 192 && bits != 256 {
        return Err(AesKeyError::BadKeyBits);
    }
    let nk: usize = if bits == 128 { 4 } else if bits == 192 { 6 } else { 8 };
    let rounds: u32 = if bits == 128 { 10 } else if bits == 192 { 12 } else { 14 };
    let total: usize = 4 * (nk + 7);
    let ghost key = user_key@;
    let mut rk: Vec<u32> = Vec::new();
    let mut i: usize = 0;
    while i < nk
        invariant
            nk == key_words_for_bits(bits),
            supported_bits(bits),
            key.len() >= 4 * nk,
            key == user_key@,
            i <= nk,
            rk@.len() == i,
            forall|j: int| 0 <= j < i ==> #[trigger] rk@[j] == key_word(key, nk as nat, j as nat),
        decreases nk - i,
    {
        let w = build_word(user_key[4 * i], user_key[4 * i + 1], user_key[4 * i + 2], user_key[4 * i + 3]);
        rk.push(w);
        i = i + 1;
    }
    while i < total
        invariant
            nk == key_words_for_bits(bits),
            supported_bits(bits),
            total == 4 * (nk + 7),
            nk <= i <= total,
            rk@.len() == i,
            forall|j: int| 0 <= j < i ==> #[trigger] rk@[j] == key_word(key, nk as nat, j as nat),
        decreases total - i,
    {
        let temp = rk[i - 1];
        let t: u32 = if i % nk == 0 {
            proof {
                lemma_rcon_index(i as int, nk as int);
            }
            let r = build_word(
                sub_byte(get_byte(temp, 1)),
                sub_byte(get_byte(temp, 2)),
                sub_byte(get_byte(temp, 3)),
                sub_byte(get_byte(temp, 0)),
            );
            r ^ RCON[i / nk - 1]
        } else if nk > 6 && i % nk == 4 {
            build_word(
                sub_byte(get_byte(temp, 0)),
                sub_byte(get_byte(temp, 1)),
                sub_byte(get_byte(temp, 2)),
                sub_byte(get_byte(temp, 3)),
            )
        } else {
            temp
        };
        let w = rk[i - nk] ^ t;
        rk.push(w);
        proof {
            assert(rk@[i as int] == key_word(key, nk as nat, i as nat));
        }
        i = i + 1;
    }
    proof {
        assert(rk@ =~= encrypt_schedule(key, nk as nat));
    }
    Ok(AesKey { rd_key: rk, rounds })
}

/// Multiplication by `x` in GF(2^8) modulo the AES polynomial.
pub open spec fn xtime(b: u8) -> u8 {
    if (b & 0x80u8) != 0 {
        (b << 1u8) ^ 0x1bu8
    } else {
        b << 1u8
    }
}

/// Multiplication by 9, 11, 13 and 14 in GF(2^8).
pub open spec fn mul9(b: u8) -> u8 {
    xtime(xtime(xtime(b))) ^ b
}

pub open spec fn mul11(b: u8) -> u8 {
    xtime(xtime(xtime(b))) ^ xtime(b) ^ b
}

pub open spec fn mul13(b: u8) -> u8 {
    xtime(xtime(xtime(b))) ^ xtime(xtime(b)) ^ b
}

pub open spec fn mul14(b: u8) -> u8 {
    xtime(xtime(xtime(b))) ^ xtime(xtime(b)) ^ xtime(b)
}

/// Row `r` of the inverse MixColumns transform of the column `a0..a3`.
pub open spec fn inv_mix_byte(a0: u8, a1: u8, a2: u8, a3: u8, r: int) -> u8 {
    if r == 0 {
        mul14(a0) ^ mul11(a1) ^ mul13(a2) ^ mul9(a3)
    } else if r == 1 {
        mul9(a0) ^ mul14(a1) ^ mul11(a2) ^ mul13(a3)
    } else if r == 2 {
        mul13(a0) ^ mul9(a1) ^ mul14(a2) ^ mul11(a3)
    } else {
        mul11(a0) ^ mul13(a1) ^ mul9(a2) ^ mul14(a3)
    }
}

/// The inverse MixColumns transform of a column held in a word.
pub open spec fn inv_mix_word(w: u32) -> u32 {
    let (a0, a1, a2, a3) = (word_byte(w, 0), word_byte(w, 1), word_byte(w, 2), word_byte(w, 3));
    make_word(
        inv_mix_byte(a0, a1, a2, a3, 0),
        inv_mix_byte(a0, a1, a2, a3, 1),
        inv_mix_byte(a0, a1, a2, a3, 2),
        inv_mix_byte(a0, a1, a2, a3, 3),
    )
}

/// The decryption schedule built from an encryption schedule of `rounds`
/// rounds: the round keys in reverse order, with the inverse MixColumns
/// transform applied to all but the first and the last.
pub open spec fn decrypt_schedule(enc: Seq<u32>, rounds: int) -> Seq<u32> {
    Seq::new(
        enc.len(),
        |i: int|
            {
                let r = i / 4;
                let src = enc[4 * (rounds - r) + i % 4];
                if 1 <= r < rounds {
                    inv_mix_word(src)
                } else {
                    src
                }
            },
    )
}

fn xtime_exec(b: u8) -> (r: u8)
    ensures
        r == xtime(b),
{
    if (b & 0x80u8) != 0 {
        (b << 1u8) ^ 0x1bu8
    } else {
        b << 1u8
    }
}

fn inv_mix_byte_exec(a0: u8, a1: u8, a2: u8, a3: u8, r: usize) -> (b: u8)
    ensures
        b == inv_mix_byte(a0, a1, a2, a3, r as int),
{
    let x0 = xtime_exec(a0);
    let x1 = xtime_exec(a1);
    let x2 = xtime_exec(a2);
    let x3 = xtime_exec(a3);
    let y0 = xtime_exec(x0);
    let y1 = xtime_exec(x1);
    let y2 = xtime_exec(x2);
    let y3 = xtime_exec(x3);
    let z0 = xtime_exec(y0);
    let z1 = xtime_exec(y1);
    let z2 = xtime_exec(y2);
    let z3 = xtime_exec(y3);
    let m9 = [z0 ^ a0, z1 ^ a1, z2 ^ a2, z3 ^ a3];
    let m11 = [z0 ^ x0 ^ a0, z1 ^ x1 ^ a1, z2 ^ x2 ^ a2, z3 ^ x3 ^ a3];
    let m13 = [z0 ^ y0 ^ a0, z1 ^ y1 ^ a1, z2 ^ y2 ^ a2, z3 ^ y3 ^ a3];
    let m14 = [z0 ^ y0 ^ x0, z1 ^ y1 ^ x1, z2 ^ y2 ^ x2, z3 ^ y3 ^ x3];
    if r == 0 {
        m14[0] ^ m11[1] ^ m13[2] ^ m9[3]
    } else if r == 1 {
        m9[0] ^ m14[1] ^ m11[2] ^ m13[3]
    } else if r == 2 {
        m13[0] ^ m9[1] ^ m14[2] ^ m11[3]
    } else {
        m11[0] ^ m13[1] ^ m9[2] ^ m14[3]
    }
}

fn inv_mix_word_exec(w: u32) -> (r: u32)
    ensures
        r == inv_mix_word(w),
{
    let a0 = get_byte(w, 0);
    let a1 = get_byte(w, 1);
    let a2 = get_byte(w, 2);
    let a3 = get_byte(w, 3);
    build_word(
        inv_mix_byte_exec(a0, a1, a2, a3, 0),
        inv_mix_byte_exec(a0, a1, a2, a3, 1),
        inv_mix_byte_exec(a0, a1, a2, a3, 2),
        inv_mix_byte_exec(a0, a1, a2, a3, 3),
    )
}

/// Builds the decryption schedule of a 128-, 192- or 256-bit key: the
/// encryption schedule with its round keys in reverse order and the inverse
/// MixColumns transform applied to every round key but the first and the last.
pub fn aes_set_decrypt_key_impl(user_key: &[u8], bits: u32) -> (res: Result<AesKey, AesKeyError>)
    requires
        supported_bits(bits) ==> user_key@.len() >= bits / 8,
    ensures
        supported_bits(bits) <==> res is Ok,
        !supported_bits(bits) ==> res matches Err(AesKeyError::BadKeyBits),
        res matches Ok(k) ==> {
            &&& k.wf()
            &&& k.rounds == key_words_for_bits(bits) + 6
            &&& k.rd_key@ == decrypt_schedule(
                encrypt_schedule(user_key@, key_words_for_bits(bits)),
                k.rounds as int,
            )
        },
{
    let enc = match aes_set_encrypt_key_impl(user_key, bits) {
        Ok(k) => k,
        Err(e) => {
            return Err(e);
        },
    };
    let rounds = enc.rounds;
    let len = enc.rd_key.len();
    let ghost e = enc.rd_key@;
    let mut rk: Vec<u32> = Vec::new();
    let mut i: usize = 0;
    while i < len
        invariant
            enc.wf(),
            len == e.len(),
            e == enc.rd_key@,
            rounds == enc.rounds,
            i <= len,
            rk@.len() == i,
            forall|j: int| 0 <= j < i ==> #[trigger] rk@[j] == decrypt_schedule(e, rounds as int)[j],
        decreases len - i,
    {
        let r = i / 4;
        let src = enc.rd_key[4 * (rounds as usize - r) + i % 4];
        let w = if 1 <= r && r < rounds as usize {
            inv_mix_word_exec(src)
        } else {
            src
        };
        rk.push(w);
        i = i + 1;
    }
    proof {
        assert(rk@ =~= decrypt_schedule(e, rounds as int));
    }
    Ok(AesKey { rd_key: rk, rounds })
}

/// Combines round key `round` into the state; column `c` is bytes `4c..4c+4`.
pub open spec fn add_round_key(st: Seq<u8>, rk: Seq<u32>, round: int) -> Seq<u8> {
    Seq::new(16, |i: int| st[i] ^ word_byte(rk[4 * round + i / 4], i % 4))
}

/// The inverse ShiftRows transform followed by the inverse substitution:
/// row `r` moves `r` columns to the right.
pub open spec fn inv_shift_sub(st: Seq<u8>) -> Seq<u8> {
    Seq::new(16, |i: int| inv_sbox(st[i % 4 + 4 * ((i / 4 - i % 4 + 4) % 4)]))
}

/// The inverse MixColumns transform applied to each column of the state.
pub open spec fn inv_mix_columns(st: Seq<u8>) -> Seq<u8> {
    Seq::new(
        16,
        |i: int|
            {
                let c = 4 * (i / 4);
                inv_mix_byte(st[c], st[c + 1], st[c + 2], st[c + 3], i % 4)
            },
    )
}

/// One middle round of the (equivalent) inverse cipher.
pub open spec fn inv_round(st: Seq<u8>, rk: Seq<u32>, round: int) -> Seq<u8> {
    add_round_key(inv_mix_columns(inv_shift_sub(st)), rk, round)
}

/// The state after the middle rounds `1..=n`.
pub open spec fn inv_rounds(st: Seq<u8>, rk: Seq<u32>, n: nat) -> Seq<u8>
    decreases n,
{
    if n == 0 {
        st
    } else {
        inv_round(inv_rounds(st, rk, (n - 1) as nat), rk, n as int)
    }
}

/// Decryption of one block with a decryption schedule of `rounds` rounds.
pub open spec fn decrypt_block(rk: Seq<u32>, rounds: int, input: Seq<u8>) -> Seq<u8> {
    add_round_key(
        inv_shift_sub(inv_rounds(add_round_key(input, rk, 0), rk, (rounds - 1) as nat)),
        rk,
        rounds,
    )
}

fn add_round_key_exec(st: &Vec<u8>, rk: &Vec<u32>, round: usize) -> (out: Vec<u8>)
    requires
        st@.len() == 16,
        4 * round + 4 <= rk@.len(),
    ensures
        out@ == add_round_key(st@, rk@, round as int),
{
    let n = rk.len();
    let base = 4 * round;
    let mut out: Vec<u8> = Vec::new();
    let mut i: usize = 0;
    while i < 16
        invariant
            st@.len() == 16,
            4 * round + 4 <= rk@.len(),
            base == 4 * round,
            i <= 16,
            out@.len() == i,
            forall|j: int| 0 <= j < i ==> #[trigger] out@[j] == add_round_key(st@, rk@, round as int)[j],
        decreases 16 - i,
    {
        let b = st[i] ^ get_byte(rk[base + i / 4], i % 4);
        out.push(b);
        i = i + 1;
    }
    proof {
        assert(out@ =~= add_round_key(st@, rk@, round as int));
    }
    out
}

fn inv_shift_sub_exec(st: &Vec<u8>) -> (out: Vec<u8>)
    requires
        st@.len() == 16,
    ensures
        out@ == inv_shift_sub(st@),
{
    let mut out: Vec<u8> = Vec::new();
    let mut i: usize = 0;
    while i < 16
        invariant
            st@.len() == 16,
            i <= 16,
            out@.len() == i,
            forall|j: int| 0 <= j < i ==> #[trigger] out@[j] == inv_shift_sub(st@)[j],
        decreases 16 - i,
    {
        let b = inv_sub_byte(st[i % 4 + 4 * ((i / 4 + 4 - i % 4) % 4)]);
        out.push(b);
        i = i + 1;
    }
    proof {
        assert(out@ =~= inv_shift_sub(st@));
    }
    out
}

fn inv_mix_columns_exec(st: &Vec<u8>) -> (out: Vec<u8>)
    requires
        st@.len() == 16,
    ensures
        out@ == inv_mix_columns(st@),
{
    let mut out: Vec<u8> = Vec::new();
    let mut i: usize = 0;
    while i < 16
        invariant
            st@.len() == 16,
            i <= 16,
            out@.len() == i,
            forall|j: int| 0 <= j < i ==> #[trigger] out@[j] == inv_mix_columns(st@)[j],
        decreases 16 - i,
    {
        let c = 4 * (i / 4);
        let b = inv_mix_byte_exec(st[c], st[c + 1], st[c + 2], st[c + 3], i % 4);
        out.push(b);
        i = i + 1;
    }
    proof {
        assert(out@ =~= inv_mix_columns(st@));
    }
    out
}

/// Decrypts one 16-byte block with a decryption schedule.
pub fn aes_decrypt_block(input: &[u8], key: &AesKey) -> (out: Vec<u8>)
    requires
        input@.len() == 16,
        key.wf(),
    ensures
        out@ == decrypt_block(key.rd_key@, key.rounds as int, input@),
        out@.len() == 16,
{
    let rounds = key.rounds as usize;
    let mut st: Vec<u8> = Vec::new();
    let mut i: usize = 0;
    while i < 16
        invariant
            input@.len() == 16,
            i <= 16,
            st@ == input@.subrange(0, i as int),
        decreases 16 - i,
    {
        st.push(input[i]);
        i = i + 1;
        proof {
            assert(st@ =~= input@.subrange(0, i as int));
        }
    }
    proof {
        assert(st@ =~= input@);
    }
    let first = add_round_key_exec(&st, &key.rd_key, 0);
    let mut st = first;
    let mut round: usize = 1;
    while round < rounds
        invariant
            key.wf(),
            rounds == key.rounds,
            1 <= round <= rounds,
            st@ == inv_rounds(add_round_key(input@, key.rd_key@, 0), key.rd_key@, (round - 1) as nat),
            st@.len() == 16,
        decreases rounds - round,
    {
        let a = inv_shift_sub_exec(&st);
        let b = inv_mix_columns_exec(&a);
        st = add_round_key_exec(&b, &key.rd_key, round);
        round = round + 1;
    }
    let a = inv_shift_sub_exec(&st);
    add_round_key_exec(&a, &key.rd_key, rounds)
}


/// `INV_SBOX` undoes `SBOX` on the bytes below `n`.
spec fn inv_sbox_undoes_below(n: nat) -> bool
    decreases n,
{
    n == 0 || (inv_sbox(sbox((n - 1) as u8)) == (n - 1) as u8 && inv_sbox_undoes_below((n - 1) as nat))
}

proof fn lemma_inv_sbox_undoes_below(n: nat)
    requires
        n <= 256,
        inv_sbox_undoes_below(n),
    ensures
        forall|x: u8| x < n ==> #[trigger] inv_sbox(sbox(x)) == x,
    decreases n,
{
    if n > 0 {
        lemma_inv_sbox_undoes_below((n - 1) as nat);
    }
}

/// `INV_SBOX` is the inverse of `SBOX`.
pub proof fn lemma_inv_sbox(x: u8)
    ensures
        inv_sbox(sbox(x)) == x,
{
    assert(inv_sbox_undoes_below(16)) by {
        reveal_with_fuel(inv_sbox_undoes_below, 17);
    }
    assert(inv_sbox_undoes_below(32)) by {
        reveal_with_fuel(inv_sbox_undoes_below, 17);
    }
    assert(inv_sbox_undoes_below(48)) by {
        reveal_with_fuel(inv_sbox_undoes_below, 17);
    }
    assert(inv_sbox_undoes_below(64)) by {
        reveal_with_fuel(inv_sbox_undoes_below, 17);
    }
    assert(inv_sbox_undoes_below(80)) by {
        reveal_with_fuel(inv_sbox_undoes_below, 17);
    }
    assert(inv_sbox_undoes_below(96)) by {
        reveal_with_fuel(inv_sbox_undoes_below, 17);
    }
    assert(inv_sbox_undoes_below(112)) by {
        reveal_with_fuel(inv_sbox_undoes_below, 17);
    }
    assert(inv_sbox_undoes_below(128)) by {
        reveal_with_fuel(inv_sbox_undoes_below, 17);
    }
    assert(inv_sbox_undoes_below(144)) by {
        reveal_with_fuel(inv_sbox_undoes_below, 17);
    }
    assert(inv_sbox_undoes_below(160)) by {
        reveal_with_fuel(inv_sbox_undoes_below, 17);
    }
    assert(inv_sbox_undoes_below(176)) by {
        reveal_with_fuel(inv_sbox_undoes_below, 17);
    }
    assert(inv_sbox_undoes_below(192)) by {
        reveal_with_fuel(inv_sbox_undoes_below, 17);
    }
    assert(inv_sbox_undoes_below(208)) by {
        reveal_with_fuel(inv_sbox_undoes_below, 17);
    }
    assert(inv_sbox_undoes_below(224)) by {
        reveal_with_fuel(inv_sbox_undoes_below, 17);
    }
    assert(inv_sbox_undoes_below(240)) by {
        reveal_with_fuel(inv_sbox_undoes_below, 17);
    }
    assert(inv_sbox_undoes_below(256)) by {
        reveal_with_fuel(inv_sbox_undoes_below, 17);
    }
    lemma_inv_sbox_undoes_below(256);
}

/// Row `r` of the MixColumns transform of the column `a0..a3`.
pub open spec fn mix_byte(a0: u8, a1: u8, a2: u8, a3: u8, r: int) -> u8 {
    if r == 0 {
        xtime(a0) ^ (xtime(a1) ^ a1) ^ a2 ^ a3
    } else if r == 1 {
        a0 ^ xtime(a1) ^ (xtime(a2) ^ a2) ^ a3
    } else if r == 2 {
        a0 ^ a1 ^ xtime(a2) ^ (xtime(a3) ^ a3)
    } else {
        (xtime(a0) ^ a0) ^ a1 ^ a2 ^ xtime(a3)
    }
}

/// Multiplication by 9, 11, 13 and 14 distributes over exclusive or.
proof fn lemma_mul_xor(x: u8, y: u8)
    by (bit_vector)
    ensures
        mul9(x ^ y) == mul9(x) ^ mul9(y),
        mul11(x ^ y) == mul11(x) ^ mul11(y),
        mul13(x ^ y) == mul13(x) ^ mul13(y),
        mul14(x ^ y) == mul14(x) ^ mul14(y),
{
}

proof fn lemma_mul_xor4(t0: u8, t1: u8, t2: u8, t3: u8)
    ensures
        mul9(((t0 ^ t1) ^ t2) ^ t3) == ((mul9(t0) ^ mul9(t1)) ^ mul9(t2)) ^ mul9(t3),
        mul11(((t0 ^ t1) ^ t2) ^ t3) == ((mul11(t0) ^ mul11(t1)) ^ mul11(t2)) ^ mul11(t3),
        mul13(((t0 ^ t1) ^ t2) ^ t3) == ((mul13(t0) ^ mul13(t1)) ^ mul13(t2)) ^ mul13(t3),
        mul14(((t0 ^ t1) ^ t2) ^ t3) == ((mul14(t0) ^ mul14(t1)) ^ mul14(t2)) ^ mul14(t3),
{
    lemma_mul_xor(t0, t1);
    lemma_mul_xor(t0 ^ t1, t2);
    lemma_mul_xor((t0 ^ t1) ^ t2, t3);
}

/// For each byte position, the inverse MixColumns coefficients times the
/// MixColumns coefficients give one on the diagonal and zero elsewhere.
proof fn lemma_mix_coefficients(x: u8)
    by (bit_vector)
    ensures
        ((mul14(xtime(x)) ^ mul11(x)) ^ mul13(x)) ^ mul9((xtime(x) ^ x)) == x,
        ((mul14((xtime(x) ^ x)) ^ mul11(xtime(x))) ^ mul13(x)) ^ mul9(x) == 0u8,
        ((mul14(x) ^ mul11((xtime(x) ^ x))) ^ mul13(xtime(x))) ^ mul9(x) == 0u8,
        ((mul14(x) ^ mul11(x)) ^ mul13((xtime(x) ^ x))) ^ mul9(xtime(x)) == 0u8,
        ((mul9(xtime(x)) ^ mul14(x)) ^ mul11(x)) ^ mul13((xtime(x) ^ x)) == 0u8,
        ((mul9((xtime(x) ^ x)) ^ mul14(xtime(x))) ^ mul11(x)) ^ mul13(x) == x,
        ((mul9(x) ^ mul14((xtime(x) ^ x))) ^ mul11(xtime(x))) ^ mul13(x) == 0u8,
        ((mul9(x) ^ mul14(x)) ^ mul11((xtime(x) ^ x))) ^ mul13(xtime(x)) == 0u8,
        ((mul13(xtime(x)) ^ mul9(x)) ^ mul14(x)) ^ mul11((xtime(x) ^ x)) == 0u8,
        ((mul13((xtime(x) ^ x)) ^ mul9(xtime(x))) ^ mul14(x)) ^ mul11(x) == 0u8,
        ((mul13(x) ^ mul9((xtime(x) ^ x))) ^ mul14(xtime(x))) ^ mul11(x) == x,
        ((mul13(x) ^ mul9(x)) ^ mul14((xtime(x) ^ x))) ^ mul11(xtime(x)) == 0u8,
        ((mul11(xtime(x)) ^ mul13(x)) ^ mul9(x)) ^ mul14((xtime(x) ^ x)) == 0u8,
        ((mul11((xtime(x) ^ x)) ^ mul13(xtime(x))) ^ mul9(x)) ^ mul14(x) == 0u8,
        ((mul11(x) ^ mul13((xtime(x) ^ x))) ^ mul9(xtime(x))) ^ mul14(x) == 0u8,
        ((mul11(x) ^ mul13(x)) ^ mul9((xtime(x) ^ x))) ^ mul14(xtime(x)) == x,
{
}

proof fn lemma_xor_regroup(
    q00: u8, q01: u8, q02: u8, q03: u8,
    q10: u8, q11: u8, q12: u8, q13: u8,
    q20: u8, q21: u8, q22: u8, q23: u8,
    q30: u8, q31: u8, q32: u8, q33: u8,
    e0: u8, e1: u8, e2: u8, e3: u8,
)
    by (bit_vector)
    requires
        ((q00 ^ q10) ^ q20) ^ q30 == e0,
        ((q01 ^ q11) ^ q21) ^ q31 == e1,
        ((q02 ^ q12) ^ q22) ^ q32 == e2,
        ((q03 ^ q13) ^ q23) ^ q33 == e3,
    ensures
        (((((q00 ^ q01) ^ q02) ^ q03) ^ (((q10 ^ q11) ^ q12) ^ q13)) ^ (((q20 ^ q21) ^ q22) ^ q23))
            ^ (((q30 ^ q31) ^ q32) ^ q33) == ((e0 ^ e1) ^ e2) ^ e3,
{
}

proof fn lemma_xor_zeros(a: u8)
    by (bit_vector)
    ensures
        ((a ^ 0u8) ^ 0u8) ^ 0u8 == a,
        ((0u8 ^ a) ^ 0u8) ^ 0u8 == a,
        ((0u8 ^ 0u8) ^ a) ^ 0u8 == a,
        ((0u8 ^ 0u8) ^ 0u8) ^ a == a,
{
}

/// The inverse MixColumns transform undoes the MixColumns transform on a
/// column.
pub proof fn lemma_inv_mix_after_mix(a0: u8, a1: u8, a2: u8, a3: u8, r: int)
    requires
        0 <= r < 4,
    ensures
        inv_mix_byte(
            mix_byte(a0, a1, a2, a3, 0),
            mix_byte(a0, a1, a2, a3, 1),
            mix_byte(a0, a1, a2, a3, 2),
            mix_byte(a0, a1, a2, a3, 3),
            r,
        ) == (if r == 0 {
            a0
        } else if r == 1 {
            a1
        } else if r == 2 {
            a2
        } else {
            a3
        }),
{
    lemma_mul_xor4(xtime(a0), (xtime(a1) ^ a1), a2, a3);
    lemma_mul_xor4(a0, xtime(a1), (xtime(a2) ^ a2), a3);
    lemma_mul_xor4(a0, a1, xtime(a2), (xtime(a3) ^ a3));
    lemma_mul_xor4((xtime(a0) ^ a0), a1, a2, xtime(a3));
    lemma_mix_coefficients(a0);
    lemma_mix_coefficients(a1);
    lemma_mix_coefficients(a2);
    lemma_mix_coefficients(a3);
    lemma_xor_zeros(a0);
    lemma_xor_zeros(a1);
    lemma_xor_zeros(a2);
    lemma_xor_zeros(a3);
    if r == 0 {
        lemma_xor_regroup(mul14(xtime(a0)), mul14((xtime(a1) ^ a1)), mul14(a2), mul14(a3), mul11(a0), mul11(xtime(a1)), mul11((xtime(a2) ^ a2)), mul11(a3), mul13(a0), mul13(a1), mul13(xtime(a2)), mul13((xtime(a3) ^ a3)), mul9((xtime(a0) ^ a0)), mul9(a1), mul9(a2), mul9(xtime(a3)), a0, 0u8, 0u8, 0u8);
    } else if r == 1 {
        lemma_xor_regroup(mul9(xtime(a0)), mul9((xtime(a1) ^ a1)), mul9(a2), mul9(a3), mul14(a0), mul14(xtime(a1)), mul14((xtime(a2) ^ a2)), mul14(a3), mul11(a0), mul11(a1), mul11(xtime(a2)), mul11((xtime(a3) ^ a3)), mul13((xtime(a0) ^ a0)), mul13(a1), mul13(a2), mul13(xtime(a3)), 0u8, a1, 0u8, 0u8);
    } else if r == 2 {
        lemma_xor_regroup(mul13(xtime(a0)), mul13((xtime(a1) ^ a1)), mul13(a2), mul13(a3), mul9(a0), mul9(xtime(a1)), mul9((xtime(a2) ^ a2)), mul9(a3), mul14(a0), mul14(a1), mul14(xtime(a2)), mul14((xtime(a3) ^ a3)), mul11((xtime(a0) ^ a0)), mul11(a1), mul11(a2), mul11(xtime(a3)), 0u8, 0u8, a2, 0u8);
    } else if r == 3 {
        lemma_xor_regroup(mul11(xtime(a0)), mul11((xtime(a1) ^ a1)), mul11(a2), mul11(a3), mul13(a0), mul13(xtime(a1)), mul13((xtime(a2) ^ a2)), mul13(a3), mul9(a0), mul9(a1), mul9(xtime(a2)), mul9((xtime(a3) ^ a3)), mul14((xtime(a0) ^ a0)), mul14(a1), mul14(a2), mul14(xtime(a3)), 0u8, 0u8, 0u8, a3);
    }
}

proof fn lemma_xor_pairs(a0: u8, a1: u8, a2: u8, a3: u8, b0: u8, b1: u8, b2: u8, b3: u8)
    by (bit_vector)
    ensures
        (((a0 ^ b0) ^ (a1 ^ b1)) ^ (a2 ^ b2)) ^ (a3 ^ b3) == (((a0 ^ a1) ^ a2) ^ a3) ^ (((b0 ^ b1) ^ b2)
            ^ b3),
{
}

proof fn lemma_xor_cancel(a: u8, k: u8)
    by (bit_vector)
    ensures
        (a ^ k) ^ k == a,
{
}

proof fn lemma_word_bytes(a: u8, b: u8, c: u8, d: u8)
    by (bit_vector)
    ensures
        (((a as u32) << 24u32) | ((b as u32) << 16u32) | ((c as u32) << 8u32) | (d as u32)) >> 24u32
            == a as u32,
        ((((a as u32) << 24u32) | ((b as u32) << 16u32) | ((c as u32) << 8u32) | (d as u32)) >> 16u32)
            as u8 == b,
        ((((a as u32) << 24u32) | ((b as u32) << 16u32) | ((c as u32) << 8u32) | (d as u32)) >> 8u32)
            as u8 == c,
        (((a as u32) << 24u32) | ((b as u32) << 16u32) | ((c as u32) << 8u32) | (d as u32)) as u8 == d,
{
}

/// The inverse MixColumns transform distributes over exclusive or.
proof fn lemma_inv_mix_xor(x0: u8, x1: u8, x2: u8, x3: u8, k0: u8, k1: u8, k2: u8, k3: u8, r: int)
    ensures
        inv_mix_byte(x0 ^ k0, x1 ^ k1, x2 ^ k2, x3 ^ k3, r) == inv_mix_byte(x0, x1, x2, x3, r)
            ^ inv_mix_byte(k0, k1, k2, k3, r),
{
    lemma_mul_xor(x0, k0);
    lemma_mul_xor(x1, k1);
    lemma_mul_xor(x2, k2);
    lemma_mul_xor(x3, k3);
    if r == 0 {
        lemma_xor_pairs(mul14(x0), mul11(x1), mul13(x2), mul9(x3), mul14(k0), mul11(k1), mul13(k2), mul9(k3));
    } else if r == 1 {
        lemma_xor_pairs(mul9(x0), mul14(x1), mul11(x2), mul13(x3), mul9(k0), mul14(k1), mul11(k2), mul13(k3));
    } else if r == 2 {
        lemma_xor_pairs(mul13(x0), mul9(x1), mul14(x2), mul11(x3), mul13(k0), mul9(k1), mul14(k2), mul11(k3));
    } else {
        lemma_xor_pairs(mul11(x0), mul13(x1), mul9(x2), mul14(x3), mul11(k0), mul13(k1), mul9(k2), mul14(k3));
    }
}

/// Byte `r` of the inverse MixColumns transform of a word.
proof fn lemma_inv_mix_word_byte(w: u32, r: int)
    requires
        0 <= r < 4,
    ensures
        word_byte(inv_mix_word(w), r) == inv_mix_byte(
            word_byte(w, 0),
            word_byte(w, 1),
            word_byte(w, 2),
            word_byte(w, 3),
            r,
        ),
{
    let (a0, a1, a2, a3) = (word_byte(w, 0), word_byte(w, 1), word_byte(w, 2), word_byte(w, 3));
    lemma_word_bytes(
        inv_mix_byte(a0, a1, a2, a3, 0),
        inv_mix_byte(a0, a1, a2, a3, 1),
        inv_mix_byte(a0, a1, a2, a3, 2),
        inv_mix_byte(a0, a1, a2, a3, 3),
    );
}

/// The ShiftRows transform followed by the substitution: row `r` moves `r`
/// columns to the left.
pub open spec fn shift_sub(st: Seq<u8>) -> Seq<u8> {
    Seq::new(16, |i: int| sbox(st[i % 4 + 4 * ((i / 4 + i % 4) % 4)]))
}

/// The MixColumns transform applied to each column of the state.
pub open spec fn mix_columns(st: Seq<u8>) -> Seq<u8> {
    Seq::new(
        16,
        |i: int|
            {
                let c = 4 * (i / 4);
                mix_byte(st[c], st[c + 1], st[c + 2], st[c + 3], i % 4)
            },
    )
}

/// One middle round of the cipher.
pub open spec fn enc_round(st: Seq<u8>, rk: Seq<u32>, round: int) -> Seq<u8> {
    add_round_key(mix_columns(shift_sub(st)), rk, round)
}

/// The state after the middle rounds `1..=n` of the cipher.
pub open spec fn enc_rounds(st: Seq<u8>, rk: Seq<u32>, n: nat) -> Seq<u8>
    decreases n,
{
    if n == 0 {
        st
    } else {
        enc_round(enc_rounds(st, rk, (n - 1) as nat), rk, n as int)
    }
}

/// Encryption of one block with an encryption schedule of `rounds` rounds.
pub open spec fn encrypt_block(rk: Seq<u32>, rounds: int, input: Seq<u8>) -> Seq<u8> {
    add_round_key(
        shift_sub(enc_rounds(add_round_key(input, rk, 0), rk, (rounds - 1) as nat)),
        rk,
        rounds,
    )
}

proof fn lemma_inv_shift_sub(st: Seq<u8>)
    requires
        st.len() == 16,
    ensures
        inv_shift_sub(shift_sub(st)) == st,
{
    let x = shift_sub(st);
    assert forall|i: int| 0 <= i < 16 implies #[trigger] inv_shift_sub(x)[i] == st[i] by {
        let j = i % 4 + 4 * ((i / 4 - i % 4 + 4) % 4);
        assert(j % 4 == i % 4 && j / 4 == (i / 4 - i % 4 + 4) % 4);
        assert(j % 4 + 4 * ((j / 4 + j % 4) % 4) == i);
        lemma_inv_sbox(st[i]);
    }
    assert(inv_shift_sub(x) =~= st);
}

proof fn lemma_add_round_key_twice(st: Seq<u8>, rk: Seq<u32>, round: int)
    requires
        st.len() == 16,
    ensures
        add_round_key(add_round_key(st, rk, round), rk, round) == st,
{
    let y = add_round_key(add_round_key(st, rk, round), rk, round);
    assert forall|i: int| 0 <= i < 16 implies #[trigger] y[i] == st[i] by {
        lemma_xor_cancel(st[i], word_byte(rk[4 * round + i / 4], i % 4));
    }
    assert(y =~= st);
}

/// Undoing a middle round's key and MixColumns with the inverse transform
/// leaves the state combined with the matching round key of the decryption
/// schedule.
proof fn lemma_inv_mix_round_key(x: Seq<u8>, ek: Seq<u32>, rounds: int, n: int)
    requires
        x.len() == 16,
        1 <= n < rounds,
        ek.len() == 4 * (rounds + 1),
    ensures
        inv_mix_columns(add_round_key(mix_columns(x), ek, n)) == add_round_key(
            x,
            decrypt_schedule(ek, rounds),
            rounds - n,
        ),
{
    let dk = decrypt_schedule(ek, rounds);
    let y = add_round_key(mix_columns(x), ek, n);
    let lhs = inv_mix_columns(y);
    let rhs = add_round_key(x, dk, rounds - n);
    assert forall|i: int| 0 <= i < 16 implies #[trigger] lhs[i] == rhs[i] by {
        let c = 4 * (i / 4);
        let r = i % 4;
        let w = ek[4 * n + i / 4];
        let m = mix_columns(x);
        assert(y[c] == m[c] ^ word_byte(w, 0));
        assert(y[c + 1] == m[c + 1] ^ word_byte(w, 1));
        assert(y[c + 2] == m[c + 2] ^ word_byte(w, 2));
        assert(y[c + 3] == m[c + 3] ^ word_byte(w, 3));
        assert(m[c] == mix_byte(x[c], x[c + 1], x[c + 2], x[c + 3], 0));
        assert(m[c + 1] == mix_byte(x[c], x[c + 1], x[c + 2], x[c + 3], 1));
        assert(m[c + 2] == mix_byte(x[c], x[c + 1], x[c + 2], x[c + 3], 2));
        assert(m[c + 3] == mix_byte(x[c], x[c + 1], x[c + 2], x[c + 3], 3));
        lemma_inv_mix_xor(m[c], m[c + 1], m[c + 2], m[c + 3], word_byte(w, 0), word_byte(w, 1), word_byte(w, 2), word_byte(w, 3), r);
        lemma_inv_mix_after_mix(x[c], x[c + 1], x[c + 2], x[c + 3], r);
        let k = 4 * (rounds - n) + i / 4;
        assert(k / 4 == rounds - n && k % 4 == i / 4);
        assert(dk[k] == inv_mix_word(w));
        lemma_inv_mix_word_byte(w, r);
        assert(x[c + r] == x[i]);
    }
    assert(lhs =~= rhs);
}

/// The decryption of the state after `m` inverse rounds: the substituted,
/// shifted state of the cipher `m` rounds before its last middle round.
proof fn lemma_inv_rounds_undo(ek: Seq<u32>, rounds: int, s0: Seq<u8>, m: nat)
    requires
        rounds >= 1,
        ek.len() == 4 * (rounds + 1),
        s0.len() == 16,
        m <= rounds - 1,
    ensures
        inv_rounds(shift_sub(enc_rounds(s0, ek, (rounds - 1) as nat)), decrypt_schedule(ek, rounds), m)
            == shift_sub(enc_rounds(s0, ek, (rounds - 1 - m) as nat)),
    decreases m,
{
    if m > 0 {
        let dk = decrypt_schedule(ek, rounds);
        lemma_inv_rounds_undo(ek, rounds, s0, (m - 1) as nat);
        let n = rounds - m;
        let prev = enc_rounds(s0, ek, (n - 1) as nat);
        let cur = enc_rounds(s0, ek, n as nat);
        assert(cur == add_round_key(mix_columns(shift_sub(prev)), ek, n));
        lemma_inv_shift_sub(cur);
        lemma_inv_mix_round_key(shift_sub(prev), ek, rounds, n);
        lemma_add_round_key_twice(shift_sub(prev), dk, m as int);
    }
}

/// The first round key of a decryption schedule is the last of the
/// encryption schedule, and its last is the first.
proof fn lemma_schedule_ends(ek: Seq<u32>, rounds: int, st: Seq<u8>)
    requires
        rounds >= 1,
        ek.len() == 4 * (rounds + 1),
    ensures
        add_round_key(st, decrypt_schedule(ek, rounds), 0) == add_round_key(st, ek, rounds),
        add_round_key(st, decrypt_schedule(ek, rounds), rounds) == add_round_key(st, ek, 0),
{
    let dk = decrypt_schedule(ek, rounds);
    assert forall|c: int| 0 <= c < 4 implies #[trigger] dk[c] == ek[4 * rounds + c] by {
        assert(c / 4 == 0 && c % 4 == c);
    }
    assert forall|c: int| 0 <= c < 4 implies #[trigger] dk[4 * rounds + c] == ek[c] by {
        assert((4 * rounds + c) / 4 == rounds && (4 * rounds + c) % 4 == c);
    }
    assert(add_round_key(st, dk, 0) =~= add_round_key(st, ek, rounds));
    assert(add_round_key(st, dk, rounds) =~= add_round_key(st, ek, 0));
}

/// Decrypting with the decryption schedule undoes encrypting with the
/// encryption schedule it was built from.
pub proof fn lemma_decrypt_encrypt(ek: Seq<u32>, rounds: int, block: Seq<u8>)
    requires
        rounds >= 1,
        ek.len() == 4 * (rounds + 1),
        block.len() == 16,
    ensures
        decrypt_block(decrypt_schedule(ek, rounds), rounds, encrypt_block(ek, rounds, block)) == block,
{
    let dk = decrypt_schedule(ek, rounds);
    let s0 = add_round_key(block, ek, 0);
    let last = shift_sub(enc_rounds(s0, ek, (rounds - 1) as nat));
    let cipher = add_round_key(last, ek, rounds);
    assert(cipher == encrypt_block(ek, rounds, block));
    lemma_schedule_ends(ek, rounds, cipher);
    lemma_schedule_ends(ek, rounds, s0);
    lemma_add_round_key_twice(last, ek, rounds);
    assert(add_round_key(cipher, dk, 0) == last);
    lemma_inv_rounds_undo(ek, rounds, s0, (rounds - 1) as nat);
    assert(enc_rounds(s0, ek, 0) == s0);
    let mid = inv_rounds(last, dk, (rounds - 1) as nat);
    assert(mid == shift_sub(s0));
    lemma_inv_shift_sub(s0);
    lemma_add_round_key_twice(block, ek, 0);
    assert(decrypt_block(dk, rounds, cipher) == add_round_key(inv_shift_sub(mid), dk, rounds));
}

/// AES with a 128-, 192- or 256-bit key: decrypting with the key's
/// decryption schedule undoes encrypting with its encryption schedule.
pub proof fn lemma_aes_round_trip(user_key: Seq<u8>, bits: u32, block: Seq<u8>)
    requires
        supported_bits(bits),
        block.len() == 16,
    ensures
        ({
            let nk = key_words_for_bits(bits);
            let ek = encrypt_schedule(user_key, nk);
            let rounds = nk + 6int;
            decrypt_block(decrypt_schedule(ek, rounds), rounds, encrypt_block(ek, rounds, block)) == block
        }),
{
    let nk = key_words_for_bits(bits);
    lemma_decrypt_encrypt(encrypt_schedule(user_key, nk), nk + 6int, block);
}

} // verus!
