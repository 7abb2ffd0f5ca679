use skills_sync::ssh::fallback::{
    decrypt, delete_fallback_key, derive_key, encrypt, fnv1a64, hex_decode, hex_encode, hex_val,
    load_key, store_key, FallbackError,
};
use skills_sync::config::Config;

const ALICE_KEY: [u8; 32] = [
    45, 102, 20, 31, 9, 189, 233, 83, 208, 130, 162, 70, 129, 53, 239, 181, 230, 104, 200, 64, 1,
    60, 145, 112, 11, 51, 223, 202, 8, 41, 170, 181,
];

#[test]
fn hex_encode_is_lowercase_two_digits_per_byte() {
    assert_eq!(hex_encode(&[0x00, 0x0f, 0xa5, 0xff]), "000fa5ff");
    assert_eq!(hex_encode(&[]), "");
}

#[test]
fn hex_decode_accepts_both_cases() {
    assert_eq!(hex_decode("000fA5ff"), Ok(vec![0x00, 0x0f, 0xa5, 0xff]));
    assert_eq!(hex_decode(""), Ok(vec![]));
}

#[test]
fn hex_decode_rejects_odd_length() {
    assert_eq!(hex_decode("abc"), Err(FallbackError::OddHexLength));
}

#[test]
fn hex_decode_rejects_non_hex_digit() {
    assert_eq!(hex_decode("zz"), Err(FallbackError::InvalidHexDigit));
    assert_eq!(hex_decode("0g"), Err(FallbackError::InvalidHexDigit));
}

#[test]
fn hex_roundtrip_on_all_bytes() {
    let data: Vec<u8> = (0..=255u8).collect();
    assert_eq!(hex_decode(&hex_encode(&data)), Ok(data));
}

#[test]
fn hex_val_digits() {
    assert_eq!(hex_val(b'7'), Ok(7));
    assert_eq!(hex_val(b'c'), Ok(12));
    assert_eq!(hex_val(b'F'), Ok(15));
    assert_eq!(hex_val(b'x'), Err(FallbackError::InvalidHexDigit));
}

#[test]
fn fnv1a64_known_values() {
    assert_eq!(fnv1a64(b""), 0xcbf29ce484222325);
    assert_eq!(fnv1a64(b"a"), 0xaf63dc4c8601ec8c);
    assert_eq!(fnv1a64(b"foobar"), 0x85944171f73967e8);
}

#[test]
fn derive_key_from_environment_parts() {
    assert_eq!(derive_key(Some("alice"), Some("/home/alice"), Some("box")), ALICE_KEY);
    let none = derive_key(None, None, None);
    assert_eq!(none[0], 251);
    assert_eq!(none[31], 43);
    assert_ne!(none, ALICE_KEY);
}

#[test]
fn encrypt_exact_value() {
    assert_eq!(encrypt("secret-key\n", &ALICE_KEY), "xor-v1:5e03776d6cc9c438b5fba8");
}

#[test]
fn decrypt_undoes_encrypt() {
    for text in ["", "secret-key\n", "-----BEGIN KEY-----\nabc\n-----END KEY-----\n", "钥匙 ünï"] {
        let stored = encrypt(text, &ALICE_KEY);
        assert!(stored.starts_with("xor-v1:"));
        assert_eq!(decrypt(&stored, &ALICE_KEY), Ok(text.to_string()));
    }
}

#[test]
fn decrypt_passes_unmarked_value_through() {
    assert_eq!(decrypt("plain key", &ALICE_KEY), Ok("plain key".to_string()));
    assert_eq!(decrypt("xor-v", &ALICE_KEY), Ok("xor-v".to_string()));
}

#[test]
fn decrypt_errors() {
    assert_eq!(decrypt("xor-v1:abc", &ALICE_KEY), Err(FallbackError::OddHexLength));
    assert_eq!(decrypt("xor-v1:zz", &ALICE_KEY), Err(FallbackError::InvalidHexDigit));
    // 0xff is no valid UTF-8 after the XOR with the key's first byte.
    let bad = format!("xor-v1:{:02x}", 0xffu8 ^ ALICE_KEY[0]);
    assert_eq!(decrypt(&bad, &ALICE_KEY), Err(FallbackError::InvalidUtf8));
}

#[test]
fn store_load_and_delete_fallback() {
    let mut config = Config::new();
    let loaded = load_key(&config, &ALICE_KEY);
    assert_eq!((loaded.value, loaded.warning), (None, None));
    store_key(&mut config, "k1", &ALICE_KEY);
    let loaded = load_key(&config, &ALICE_KEY);
    assert_eq!((loaded.value, loaded.warning), (Some("k1".to_string()), None));
    assert!(delete_fallback_key(&mut config));
    assert!(config.ssh_private_key_fallback.is_none());
    assert!(!delete_fallback_key(&mut config));
    let loaded = load_key(&config, &ALICE_KEY);
    assert_eq!((loaded.value, loaded.warning), (None, None));
}

#[test]
fn unreadable_fallback_gives_no_key_and_a_warning() {
    let mut config = Config::new();
    config.ssh_private_key_fallback = Some("xor-v1:0".to_string());
    let loaded = load_key(&config, &ALICE_KEY);
    assert_eq!((loaded.value, loaded.warning), (None, Some(FallbackError::OddHexLength)));
    config.ssh_private_key_fallback = Some("legacy plain key".to_string());
    let loaded = load_key(&config, &ALICE_KEY);
    assert_eq!((loaded.value, loaded.warning), (Some("legacy plain key".to_string()), None));
}

#[test]
fn hex_reencoding_lowercases() {
    let data = hex_decode("0A1bFF").ok().expect("decodes");
    assert_eq!(hex_encode(&data), "0a1bff");
}
