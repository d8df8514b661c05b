use cowchat_server::auth::{encode, generate_invite_token, generate_key, hash_invite_token, KEY_LENGTH};

#[test]
fn encode_is_lowercase_hex_two_digits_per_byte() {
    assert_eq!(encode(vec![]), "");
    assert_eq!(encode(vec![0x00, 0x0f, 0xa5, 0xff]), "000fa5ff");
    assert_eq!(encode(vec![0xde, 0xad, 0xbe, 0xef]), "deadbeef");
}

#[test]
fn generated_keys_are_hex_of_the_key_length_and_differ() {
    let a = generate_key();
    let b = generate_key();
    assert_eq!(a.len(), 2 * KEY_LENGTH);
    assert!(a.chars().all(|c| c.is_ascii_hexdigit() && !c.is_ascii_uppercase()));
    assert_ne!(a, b);
}

#[test]
fn invite_tokens_carry_the_prefix() {
    let t = generate_invite_token();
    assert!(t.starts_with("cinv_"));
    assert_eq!(t.len(), 5 + 2 * KEY_LENGTH);
}

#[test]
fn invite_hash_is_sha256_hex() {
    assert_eq!(hash_invite_token("abc"), "ba7816bf8f01cfea414140de5dae2223b00361a396177a9cb410ff61f20015ad");
    assert_eq!(hash_invite_token("cinv_test"), "eac5e23f1b7f2670137a485cdc34d4aacfe33ccc8dcc34d272f08ca5e1a48c80");
    assert_ne!(hash_invite_token("cinv_test"), "cinv_test");
}
