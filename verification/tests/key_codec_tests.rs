use zero_proof_vault_backend::key_codec::{encode_key, KEY_MAX_SIZE};
use zero_proof_vault_backend::vault_types::{SizeBound, StoreError, VaultData, VaultKey};

fn key(user_id: &str, vault_id: &str) -> VaultKey {
    VaultKey { user_id: user_id.to_string(), vault_id: vault_id.to_string() }
}

fn bytes_of(user_id: &str, vault_id: &str) -> Vec<u8> {
    key(user_id, vault_id).to_bytes().unwrap()
}

#[test]
fn key_encoding_is_escaped_owner_then_vault() {
    assert_eq!(bytes_of("u1", "v1"), vec![b'u', b'1', 0, 0, b'v', b'1']);
    assert_eq!(bytes_of("", ""), vec![0, 0]);
    assert_eq!(bytes_of("a\0b", "\0"), vec![b'a', 0, 1, b'b', 0, 0, 0]);
}

#[test]
fn key_encoding_of_free_function_matches_method() {
    let k = key("alice", "mail");
    assert_eq!(encode_key(&k.user_id, &k.vault_id), k.to_bytes());
    assert_eq!(k.clone().into_bytes(), k.to_bytes());
}

#[test]
fn key_round_trip() {
    for (u, v) in [("u1", "v1"), ("", ""), ("a\0b", "\0\0"), ("že", "日本語"), ("x", "")] {
        let k = key(u, v);
        let back = VaultKey::from_bytes(&k.to_bytes().unwrap()).unwrap();
        assert_eq!(back, k);
    }
}

#[test]
fn key_order_same_owner_follows_vault_id() {
    assert!(bytes_of("a", "b") < bytes_of("a", "c"));
    assert!(bytes_of("a", "ab") < bytes_of("a", "b"));
    assert!(bytes_of("a", "") < bytes_of("a", "\0"));
    assert!(bytes_of("a", "b") < bytes_of("a", "ba"));
}

#[test]
fn key_order_owner_comes_first() {
    assert!(bytes_of("a", "zzz") < bytes_of("b", ""));
    assert!(bytes_of("a", "zzz") < bytes_of("ab", ""));
    assert!(bytes_of("a", "\u{10ffff}") < bytes_of("a\0", ""));
    assert!(bytes_of("a\0", "z") < bytes_of("a\u{1}", ""));
    assert!(bytes_of("", "z") < bytes_of("\0", ""));
}

#[test]
fn key_order_agrees_with_order_of_keys() {
    let names = ["", "\0", "\0\0", "\u{1}", "a", "a\0", "a\0b", "ab", "b", "é"];
    for u1 in names {
        for v1 in names {
            for u2 in names {
                for v2 in names {
                    let (k1, k2) = (key(u1, v1), key(u2, v2));
                    assert_eq!(k1.cmp(&k2), bytes_of(u1, v1).cmp(&bytes_of(u2, v2)));
                }
            }
        }
    }
}

#[test]
fn key_at_the_bound_is_accepted() {
    let user = "u".repeat(255);
    let vault = "v".repeat(255);
    let bytes = key(&user, &vault).to_bytes().unwrap();
    assert_eq!(bytes.len(), KEY_MAX_SIZE);
    assert_eq!(KEY_MAX_SIZE, 512);
}

#[test]
fn key_over_the_bound_is_capacity_exceeded() {
    let user = "u".repeat(255);
    let vault = "v".repeat(256);
    assert_eq!(key(&user, &vault).to_bytes(), Err(StoreError::CapacityExceeded));
    assert_eq!(key(&"\0".repeat(256), "").to_bytes(), Err(StoreError::CapacityExceeded));
    assert_eq!(key(&"\0".repeat(255), "").to_bytes().unwrap().len(), 512);
}

#[test]
fn key_decoding_rejects_what_is_no_key() {
    assert_eq!(VaultKey::from_bytes(&vec![]), Err(StoreError::DecodeFailure));
    assert_eq!(VaultKey::from_bytes(&vec![b'a', b'b']), Err(StoreError::DecodeFailure));
    assert_eq!(VaultKey::from_bytes(&vec![b'a', 0]), Err(StoreError::DecodeFailure));
    assert_eq!(VaultKey::from_bytes(&vec![b'a', 0, 2, 0, 0]), Err(StoreError::DecodeFailure));
    assert_eq!(VaultKey::from_bytes(&vec![0xff, 0, 0]), Err(StoreError::DecodeFailure));
    assert_eq!(VaultKey::from_bytes(&vec![0, 0, 0xff]), Err(StoreError::DecodeFailure));
}

#[test]
fn key_decoding_reads_escapes() {
    let k = VaultKey::from_bytes(&vec![b'a', 0, 1, b'b', 0, 0, 0, 0]).unwrap();
    assert_eq!(k.user_id, "a\0b");
    assert_eq!(k.vault_id, "\0\0");
}

#[test]
fn declared_bounds_of_the_codecs() {
    assert_eq!(VaultKey::bound(), SizeBound::Bounded { max_size: 512, is_fixed_size: false });
    assert_eq!(VaultData::bound(), SizeBound::Unbounded);
}
