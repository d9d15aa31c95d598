use zero_proof_vault_backend::payload::{
    checked_payload, decoded_or_error, same_columns, same_rows, same_texts, same_vault,
};
use zero_proof_vault_backend::store::VaultStore;
use zero_proof_vault_backend::vault_types::{Column, Row, StoreError, VaultData};

fn s(text: &str) -> String {
    text.to_string()
}

fn vault(name: &str) -> VaultData {
    VaultData {
        name: s(name),
        columns: vec![Column { id: s("c1"), name: s("site"), hidden: false }],
        rows: vec![Row { id: s("r1"), values: vec![s("enc1")] }],
    }
}

fn logins() -> VaultData {
    vault("Logins")
}

#[test]
fn new_store_is_empty() {
    let store = VaultStore::new();
    assert_eq!(store.get_vault(s("u1"), s("v1")), None);
    assert_eq!(store.get_all_vaults_for_user(s("u1")), vec![]);
    assert!(!store.user_exists(s("u1")));
}

#[test]
fn opened_store_on_fresh_memory_is_empty() {
    let mut store = VaultStore::open().unwrap();
    assert!(!store.user_exists(s("u1")));
    assert_eq!(store.add_or_update_vault(s("u1"), s("v1"), logins()), Ok(()));
    assert!(store.user_exists(s("u1")));
}

#[test]
fn insert_get_exists_delete_scenario() {
    let mut store = VaultStore::new();
    assert_eq!(store.add_or_update_vault(s("u1"), s("v1"), logins()), Ok(()));
    let got = store.get_vault(s("u1"), s("v1")).unwrap();
    assert_eq!(got.name, "Logins");
    assert_eq!(got.columns, vec![Column { id: s("c1"), name: s("site"), hidden: false }]);
    assert_eq!(got.rows, vec![Row { id: s("r1"), values: vec![s("enc1")] }]);
    assert_eq!(got, logins());
    assert_eq!(store.get_vault(s("u1"), s("v2")), None);
    assert!(store.user_exists(s("u1")));
    store.delete_vault(s("u1"), s("v1"));
    assert!(!store.user_exists(s("u1")));
    assert_eq!(store.get_vault(s("u1"), s("v1")), None);
}

#[test]
fn upsert_replaces_the_whole_vault() {
    let mut store = VaultStore::new();
    store.add_or_update_vault(s("u"), s("v"), vault("first")).unwrap();
    let mut second = vault("second");
    second.columns.push(Column { id: s("c2"), name: s("password"), hidden: true });
    second.rows.clear();
    store.add_or_update_vault(s("u"), s("v"), second.clone()).unwrap();
    assert_eq!(store.get_vault(s("u"), s("v")), Some(second.clone()));
    assert_eq!(store.get_all_vaults_for_user(s("u")), vec![(s("v"), second)]);
}

#[test]
fn upsert_twice_is_upsert_once() {
    let mut once = VaultStore::new();
    once.add_or_update_vault(s("u"), s("v"), logins()).unwrap();
    let mut twice = VaultStore::new();
    twice.add_or_update_vault(s("u"), s("v"), logins()).unwrap();
    twice.add_or_update_vault(s("u"), s("v"), logins()).unwrap();
    assert_eq!(once.get_all_vaults_for_user(s("u")), twice.get_all_vaults_for_user(s("u")));
    assert_eq!(twice.get_all_vaults_for_user(s("u")), vec![(s("v"), logins())]);
    assert_eq!(once.get_vault(s("u"), s("v")), twice.get_vault(s("u"), s("v")));
}

#[test]
fn scan_gives_the_owners_vaults_only_in_any_insertion_order() {
    let expected = vec![(s("a"), vault("A")), (s("ab"), vault("AB")), (s("b"), vault("B"))];
    let orders: [[usize; 5]; 3] = [[0, 1, 2, 3, 4], [4, 3, 2, 1, 0], [2, 4, 0, 3, 1]];
    let inserts = [
        ("alice", "b", "B"),
        ("bob", "a", "bob's"),
        ("alice", "a", "A"),
        ("al", "ice", "other"),
        ("alice", "ab", "AB"),
    ];
    for order in orders {
        let mut store = VaultStore::new();
        for i in order {
            let (u, v, n) = inserts[i];
            store.add_or_update_vault(s(u), s(v), vault(n)).unwrap();
        }
        assert_eq!(store.get_all_vaults_for_user(s("alice")), expected.clone());
        assert_eq!(store.get_all_vaults_for_user(s("bob")), vec![(s("a"), vault("bob's"))]);
        assert_eq!(store.get_all_vaults_for_user(s("carol")), vec![]);
    }
}

#[test]
fn owner_with_a_shared_prefix_is_another_owner() {
    let mut store = VaultStore::new();
    store.add_or_update_vault(s("alice"), s("v"), vault("x")).unwrap();
    assert!(!store.user_exists(s("alic")));
    assert!(!store.user_exists(s("alice\0")));
    assert!(!store.user_exists(s("")));
    assert!(store.user_exists(s("alice")));
}

#[test]
fn clear_removes_every_vault_of_the_owner_and_no_other() {
    let mut store = VaultStore::new();
    store.add_or_update_vault(s("alice"), s("a"), vault("A")).unwrap();
    store.add_or_update_vault(s("alice"), s("b"), vault("B")).unwrap();
    store.add_or_update_vault(s("bob"), s("a"), vault("C")).unwrap();
    store.clear_all_user_vaults(s("alice"));
    assert_eq!(store.get_all_vaults_for_user(s("alice")), vec![]);
    assert!(!store.user_exists(s("alice")));
    assert!(store.user_exists(s("bob")));
    assert_eq!(store.get_vault(s("bob"), s("a")), Some(vault("C")));
    store.clear_all_user_vaults(s("nobody"));
    assert!(store.user_exists(s("bob")));
}

#[test]
fn delete_of_an_absent_key_changes_nothing() {
    let mut store = VaultStore::new();
    store.add_or_update_vault(s("u"), s("v"), logins()).unwrap();
    store.delete_vault(s("u"), s("w"));
    store.delete_vault(s("x".repeat(600).as_str()), s("w"));
    assert_eq!(store.get_vault(s("u"), s("v")), Some(logins()));
}

#[test]
fn batch_applies_in_order_and_last_write_wins() {
    let mut store = VaultStore::new();
    let changes = vec![
        (s("u"), s("v"), vault("d1")),
        (s("u"), s("w"), vault("other")),
        (s("u"), s("v"), vault("d2")),
    ];
    assert_eq!(store.apply_config_changes(changes), Ok(()));
    assert_eq!(store.get_vault(s("u"), s("v")), Some(vault("d2")));
    assert_eq!(store.get_vault(s("u"), s("w")), Some(vault("other")));
    assert_eq!(store.apply_config_changes(vec![]), Ok(()));
    assert_eq!(store.get_all_vaults_for_user(s("u")).len(), 2);
}

#[test]
fn batch_with_a_refused_entry_changes_nothing() {
    let mut store = VaultStore::new();
    store.add_or_update_vault(s("u"), s("v"), vault("old")).unwrap();
    let changes = vec![
        (s("u"), s("v"), vault("new")),
        (s("u".repeat(600).as_str()), s("v"), vault("big")),
        (s("u"), s("w"), vault("late")),
    ];
    assert_eq!(store.apply_config_changes(changes), Err(StoreError::CapacityExceeded));
    assert_eq!(store.get_vault(s("u"), s("v")), Some(vault("old")));
    assert_eq!(store.get_vault(s("u"), s("w")), None);
}

#[test]
fn key_over_the_bound_is_refused_and_never_found() {
    let mut store = VaultStore::new();
    let long = "v".repeat(511);
    assert_eq!(
        store.add_or_update_vault(s("u"), s(&long), logins()),
        Err(StoreError::CapacityExceeded)
    );
    assert_eq!(store.get_vault(s("u"), s(&long)), None);
    assert!(!store.user_exists(s("u")));
    let fits = "v".repeat(509);
    assert_eq!(store.add_or_update_vault(s("u"), s(&fits), logins()), Ok(()));
    assert_eq!(store.get_vault(s("u"), s(&fits)), Some(logins()));
}

#[test]
fn payload_round_trip() {
    let empty = VaultData { name: s(""), columns: vec![], rows: vec![] };
    let full = VaultData {
        name: s("Logins"),
        columns: vec![
            Column { id: s("c1"), name: s("site"), hidden: false },
            Column { id: s("c2"), name: s("password"), hidden: true },
        ],
        rows: vec![
            Row { id: s("r1"), values: vec![s("enc1"), s("enc2")] },
            Row { id: s("r2"), values: vec![] },
        ],
    };
    for data in [empty, full] {
        let bytes = data.to_bytes().unwrap();
        assert_eq!(data.clone().into_bytes(), Ok(bytes.clone()));
        assert_eq!(VaultData::from_bytes(&bytes), Ok(data));
    }
}

#[test]
fn payload_decoding_rejects_what_is_no_vault() {
    assert_eq!(VaultData::from_bytes(&vec![1, 2, 3]), Err(StoreError::DecodeFailure));
    assert_eq!(VaultData::from_bytes(&vec![]), Err(StoreError::DecodeFailure));
}

#[test]
fn payloads_of_different_vaults_differ() {
    assert_ne!(vault("a").to_bytes().unwrap(), vault("b").to_bytes().unwrap());
}

#[test]
fn checked_payload_keeps_bytes_that_read_back() {
    let data = logins();
    let bytes = vec![7u8, 8, 9];
    assert_eq!(checked_payload(&data, bytes.clone(), Some(logins())), Ok(bytes.clone()));
    assert_eq!(
        checked_payload(&data, bytes.clone(), Some(vault("other"))),
        Err(StoreError::EncodeFailure)
    );
    assert_eq!(checked_payload(&data, bytes, None), Err(StoreError::EncodeFailure));
}

#[test]
fn decoded_or_error_maps_absence_to_decode_failure() {
    assert_eq!(decoded_or_error(Some(logins())), Ok(logins()));
    assert_eq!(decoded_or_error(None), Err(StoreError::DecodeFailure));
}

#[test]
fn same_vault_compares_every_field() {
    let base = logins();
    assert!(same_vault(&base, &logins()));
    let mut other = logins();
    other.name = s("logins");
    assert!(!same_vault(&base, &other));
    let mut other = logins();
    other.columns[0].hidden = true;
    assert!(!same_vault(&base, &other));
    assert!(!same_columns(&base.columns, &other.columns));
    let mut other = logins();
    other.columns[0].name = s("Site");
    assert!(!same_vault(&base, &other));
    let mut other = logins();
    other.rows[0].values[0] = s("enc2");
    assert!(!same_vault(&base, &other));
    assert!(!same_rows(&base.rows, &other.rows));
    let mut other = logins();
    other.rows[0].values.push(s("enc2"));
    assert!(!same_vault(&base, &other));
    let mut other = logins();
    other.rows.push(Row { id: s("r2"), values: vec![] });
    assert!(!same_vault(&base, &other));
    assert!(same_texts(&vec![s("a"), s("b")], &vec![s("a"), s("b")]));
    assert!(!same_texts(&vec![s("a"), s("b")], &vec![s("b"), s("a")]));
    assert!(!same_texts(&vec![s("a")], &vec![s("a"), s("a")]));
}

#[test]
fn stored_vault_with_hidden_column_comes_back_unchanged() {
    let mut store = VaultStore::new();
    let data = VaultData {
        name: s("Cards"),
        columns: vec![
            Column { id: s("c1"), name: s("bank"), hidden: false },
            Column { id: s("c2"), name: s("pin"), hidden: true },
        ],
        rows: vec![
            Row { id: s("r1"), values: vec![s("enc-a"), s("enc-b")] },
            Row { id: s("r2"), values: vec![s("enc-c")] },
        ],
    };
    store.add_or_update_vault(s("u"), s("cards"), data.clone()).unwrap();
    assert_eq!(store.get_vault(s("u"), s("cards")), Some(data));
}
