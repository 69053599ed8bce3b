use aes::cipher::generic_array::GenericArray;
use aes::cipher::{BlockDecrypt, BlockEncrypt, KeyInit};
use base64::engine::general_purpose::STANDARD;
use base64::Engine;
use melon_player::aes::{aes_decrypt_block, aes_set_decrypt_key_impl, aes_set_encrypt_key_impl, AesKeyError};
use melon_player::b64::{base64_decode_ctx, base64_decode_lines, Base64DecodeContext};
use melon_player::cbc::crypto_cbc128_decrypt;
use melon_player::decode::{decrypt_mcache, decrypt_partial_key, initialize, partial_key};
use melon_player::keystream::{cipher_ctx_crypto, cipher_ctx_init, consume, decrypt, generate_key, initialize_decryptor};

fn hex(s: &str) -> Vec<u8> {
    (0..s.len()).step_by(2).map(|i| u8::from_str_radix(&s[i..i + 2], 16).unwrap()).collect()
}

fn pseudo_random(seed: u32, n: usize) -> Vec<u8> {
    let mut x = seed;
    (0..n)
        .map(|_| {
            x = x.wrapping_mul(1664525).wrapping_add(1013904223);
            (x >> 24) as u8
        })
        .collect()
}

#[test]
fn key_expansion_fips_vectors() {
    let k128 = aes_set_encrypt_key_impl(&hex("2b7e151628aed2a6abf7158809cf4f3c"), 128).unwrap();
    assert_eq!(k128.rounds, 10);
    assert_eq!(k128.rd_key.len(), 44);
    assert_eq!(k128.rd_key[4], 0xa0fafe17);
    assert_eq!(k128.rd_key[43], 0xb6630ca6);
    let k192 = aes_set_encrypt_key_impl(&hex("8e73b0f7da0e6452c810f32b809079e562f8ead2522c6b7b"), 192).unwrap();
    assert_eq!(k192.rounds, 12);
    assert_eq!(k192.rd_key[6], 0xfe0c91f7);
    assert_eq!(k192.rd_key[51], 0x01002202);
    let k256 = aes_set_encrypt_key_impl(
        &hex("603deb1015ca71be2b73aef0857d77811f352c073b6108d72d9810a30914dff4"),
        256,
    )
    .unwrap();
    assert_eq!(k256.rounds, 14);
    assert_eq!(k256.rd_key[8], 0x9ba35411);
    assert_eq!(k256.rd_key[59], 0x706c631e);
}

#[test]
fn key_schedule_rejects_other_sizes() {
    assert!(matches!(aes_set_encrypt_key_impl(&[0u8; 16], 100), Err(AesKeyError::BadKeyBits)));
    assert!(matches!(aes_set_decrypt_key_impl(&[0u8; 32], 64), Err(AesKeyError::BadKeyBits)));
}

#[test]
fn block_decryption_fips_vectors() {
    let plain = hex("00112233445566778899aabbccddeeff");
    let cases = [
        ("000102030405060708090a0b0c0d0e0f", 128, "69c4e0d86a7b0430d8cdb78070b4c55a"),
        ("000102030405060708090a0b0c0d0e0f1011121314151617", 192, "dda97ca4864cdfe06eaf70a0ec0d7191"),
        (
            "000102030405060708090a0b0c0d0e0f101112131415161718191a1b1c1d1e1f",
            256,
            "8ea2b7ca516745bfeafc49904b496089",
        ),
    ];
    for (key, bits, cipher) in cases {
        let dk = aes_set_decrypt_key_impl(&hex(key), bits).unwrap();
        assert_eq!(aes_decrypt_block(&hex(cipher), &dk), plain);
    }
}

#[test]
fn block_decryption_matches_reference_cipher() {
    for seed in 0..20u32 {
        let key = pseudo_random(seed, 16);
        let block = pseudo_random(seed + 100, 16);
        let reference = aes::Aes128::new(GenericArray::from_slice(&key));
        let mut expected = GenericArray::clone_from_slice(&block);
        reference.decrypt_block(&mut expected);
        let dk = aes_set_decrypt_key_impl(&key, 128).unwrap();
        assert_eq!(aes_decrypt_block(&block, &dk), expected.to_vec());
    }
    for seed in 0..5u32 {
        let key = pseudo_random(seed, 32);
        let block = pseudo_random(seed + 7, 16);
        let reference = aes::Aes256::new(GenericArray::from_slice(&key));
        let mut expected = GenericArray::clone_from_slice(&block);
        reference.decrypt_block(&mut expected);
        let dk = aes_set_decrypt_key_impl(&key, 256).unwrap();
        assert_eq!(aes_decrypt_block(&block, &dk), expected.to_vec());
    }
}

fn cbc_encrypt(key: &[u8], iv: &[u8], plain: &[u8]) -> Vec<u8> {
    let cipher = aes::Aes128::new(GenericArray::from_slice(key));
    let mut prev = iv.to_vec();
    let mut out = Vec::new();
    for chunk in plain.chunks(16) {
        let mut block = GenericArray::clone_from_slice(chunk);
        for n in 0..16 {
            block[n] ^= prev[n];
        }
        cipher.encrypt_block(&mut block);
        prev = block.to_vec();
        out.extend_from_slice(&block);
    }
    out
}

#[test]
fn cbc_decryption_inverts_encryption_and_chains() {
    let key = pseudo_random(1, 16);
    let iv = pseudo_random(2, 16);
    let plain = pseudo_random(3, 64);
    let cipher = cbc_encrypt(&key, &iv, &plain);
    let dk = aes_set_decrypt_key_impl(&key, 128).unwrap();
    let mut ivec = iv.clone();
    let out = crypto_cbc128_decrypt(&cipher, cipher.len(), &mut ivec, &dk);
    assert_eq!(out, plain);
    assert_eq!(ivec, cipher[48..].to_vec());

    let mut ivec2 = iv.clone();
    let first = crypto_cbc128_decrypt(&cipher[..32], 32, &mut ivec2, &dk);
    let second = crypto_cbc128_decrypt(&cipher[32..], 32, &mut ivec2, &dk);
    assert_eq!([first, second].concat(), plain);

    let mut ivec3 = iv.clone();
    assert!(crypto_cbc128_decrypt(&[], 0, &mut ivec3, &dk).is_empty());
    assert_eq!(ivec3, iv);
}

#[test]
fn cbc_trailing_partial_block() {
    let key = pseudo_random(4, 16);
    let iv = pseudo_random(5, 16);
    let plain = pseudo_random(6, 48);
    let cipher = cbc_encrypt(&key, &iv, &plain);
    let dk = aes_set_decrypt_key_impl(&key, 128).unwrap();

    let mut ivec = iv.clone();
    let out = crypto_cbc128_decrypt(&cipher, 40, &mut ivec, &dk);
    assert_eq!(out, plain[..40].to_vec());
    assert_eq!(ivec, cipher[32..48].to_vec());

    let mut ivec2 = iv.clone();
    let first = crypto_cbc128_decrypt(&cipher[..16], 16, &mut ivec2, &dk);
    let second = crypto_cbc128_decrypt(&cipher[16..], 24, &mut ivec2, &dk);
    assert_eq!([first, second].concat(), plain[..40].to_vec());
    assert_eq!(ivec2, ivec);

    let mut ivec3 = iv.clone();
    assert_eq!(crypto_cbc128_decrypt(&cipher, 5, &mut ivec3, &dk), plain[..5].to_vec());
    assert_eq!(ivec3, cipher[..16].to_vec());
}

#[test]
fn base64_lines_across_calls() {
    let mut ctx = Base64DecodeContext::new();
    assert_eq!(base64_decode_lines(&mut ctx, b"aGVs\nbG8="), (true, b"hello".to_vec()));
    assert_eq!(base64_decode_lines(&mut ctx, b""), (true, Vec::new()));

    let mut ctx = Base64DecodeContext::new();
    assert_eq!(base64_decode_lines(&mut ctx, b"aGVsb"), (true, b"hel".to_vec()));
    assert_eq!(base64_decode_lines(&mut ctx, b"\nG8=\n"), (true, b"lo".to_vec()));
    assert_eq!(base64_decode_lines(&mut ctx, b""), (true, Vec::new()));

    let mut ctx = Base64DecodeContext::new();
    assert_eq!(base64_decode_lines(&mut ctx, b"aA==aA=="), (true, b"hh".to_vec()));

    let mut ctx = Base64DecodeContext::new();
    assert_eq!(base64_decode_lines(&mut ctx, b"aGVsbG"), (true, b"hel".to_vec()));
    assert_eq!(base64_decode_lines(&mut ctx, b""), (false, b"l".to_vec()));

    let mut ctx = Base64DecodeContext::new();
    assert_eq!(base64_decode_lines(&mut ctx, b"a*Vs\nQUJD"), (false, Vec::new()));
    assert_eq!(base64_decode_lines(&mut ctx, b"QUJD"), (true, b"ABC".to_vec()));
}

#[test]
fn base64_groups() {
    assert_eq!(base64_decode_ctx(b"aGVsbG8="), (true, b"hello".to_vec()));
    assert_eq!(base64_decode_ctx(b"aGVsbA=="), (true, b"hell".to_vec()));
    assert_eq!(base64_decode_ctx(b"aGVs"), (true, b"hel".to_vec()));
    assert_eq!(base64_decode_ctx(b""), (true, Vec::new()));
    assert_eq!(base64_decode_ctx(b"aGVsbG8"), (false, b"hello".to_vec()));
    assert_eq!(base64_decode_ctx(b"aGVsbA="), (false, b"hell".to_vec()));
    assert_eq!(base64_decode_ctx(b"aG==aGVs"), (false, b"h".to_vec()));
    assert_eq!(base64_decode_ctx(b"a*Vs"), (false, Vec::new()));
    assert_eq!(base64_decode_ctx(b"aGV*"), (false, b"he".to_vec()));
}

#[test]
fn base64_agrees_with_standard_engine_on_padded_text() {
    for n in 0..40usize {
        let data = pseudo_random(n as u32, n);
        let text = STANDARD.encode(&data);
        assert_eq!(base64_decode_ctx(text.as_bytes()), (true, data));
    }
}

#[test]
fn fixed_key_and_iv() {
    let (key, iv) = partial_key();
    assert_eq!(key, vec![170, 251, 198, 201, 210, 216, 215, 190, 246, 198, 241, 210, 195, 235, 137, 245]);
    assert_eq!(iv, vec![106, 9, 10, 111, 54, 42, 89, 76, 41, 36, 101, 38, 68, 30, 65, 0]);
}

fn encrypt_partial_key(partial: &[u8]) -> String {
    let (key, iv) = partial_key();
    let pad = 16 - partial.len() % 16;
    let mut padded = partial.to_vec();
    padded.extend(std::iter::repeat(pad as u8).take(pad));
    STANDARD.encode(cbc_encrypt(&key, &iv, &padded))
}

#[test]
fn partial_key_round_trip() {
    for n in [0usize, 5, 15, 16, 17, 40] {
        let partial = pseudo_random(9 + n as u32, n);
        let text = encrypt_partial_key(&partial);
        assert_eq!(decrypt_partial_key(text.as_bytes()), Some(partial));
    }
}

#[test]
fn partial_key_rejects_undecryptable_data() {
    assert_eq!(decrypt_partial_key(b""), None);
    assert_eq!(decrypt_partial_key(b"aGVsbG8="), None);
    assert!(initialize(b"aGVs", String::new(), None).is_none());
    assert!(decrypt_mcache(b"", b"abc").is_none());
}

#[test]
fn stream_cipher_known_answers() {
    let cases: [(&[u8], &[u8], &str); 3] = [
        (b"Key", b"Plaintext", "bbf316e8d940af0ad3"),
        (b"Wiki", b"pedia", "1021bf0420"),
        (b"Secret", b"Attack at dawn", "45a01f645fc35b383552544b9bf5"),
    ];
    for (key, plain, cipher) in cases {
        let mut ctx = cipher_ctx_init(key);
        assert_eq!(cipher_ctx_crypto(&mut ctx, plain), hex(cipher));
        assert_eq!(ctx.offset, plain.len() as u64);
    }
}

#[test]
fn stream_cipher_is_an_involution_and_streams() {
    let key = b"some key";
    let msg = pseudo_random(4, 300);
    let mut a = cipher_ctx_init(key);
    let enc = decrypt(&mut a, &msg);
    let mut b = cipher_ctx_init(key);
    assert_eq!(decrypt(&mut b, &enc), msg);
    let mut c = cipher_ctx_init(key);
    let part1 = decrypt(&mut c, &enc[..123]);
    let part2 = decrypt(&mut c, &enc[123..]);
    assert_eq!([part1, part2].concat(), msg);
}

#[test]
fn consume_skips_keystream() {
    let key = b"another key";
    let msg = pseudo_random(5, 200_000);
    let mut full = cipher_ctx_init(key);
    let whole = decrypt(&mut full, &msg);
    let mut skipped = cipher_ctx_init(key);
    consume(&mut skipped, 70_000);
    assert_eq!(skipped.offset, 70_000);
    assert_eq!(decrypt(&mut skipped, &msg[70_000..]), whole[70_000..].to_vec());
}

#[test]
fn generated_key_is_partial_key_and_suffix() {
    for tag in [0u8, 1, 0x5a, 0xff] {
        assert_eq!(generate_key(tag, b"abc"), b"abcmelondrmkey!@#".to_vec());
        assert_eq!(generate_key(tag, b""), b"melondrmkey!@#".to_vec());
    }
    let long = pseudo_random(6, 300);
    let mut expected = long.clone();
    expected.extend_from_slice(b"melondrmkey!@#");
    assert_eq!(generate_key(7, &long), expected);
}

#[test]
fn track_decryption_pipeline() {
    let partial = b"0123456789abcdef0123".to_vec();
    let text = encrypt_partial_key(&partial);
    let track = pseudo_random(11, 5000);
    let mut content_key = partial.clone();
    content_key.extend_from_slice(b"melondrmkey!@#");
    let mut reference = cipher_ctx_init(&content_key);
    let expected = cipher_ctx_crypto(&mut reference, &track);
    assert_eq!(decrypt_mcache(text.as_bytes(), &track), Some(expected.clone()));

    let mut ctx = initialize(text.as_bytes(), String::new(), Some(1000)).unwrap();
    assert_eq!(decrypt(&mut ctx, &track[1000..]), expected[1000..].to_vec());
    let mut same = initialize_decryptor(42, &partial);
    assert_eq!(decrypt(&mut same, &track), expected);
}
