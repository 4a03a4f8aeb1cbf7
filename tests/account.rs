use contract_ffi::access_rights::AccessRights;
use contract_ffi::account::Account;
use contract_ffi::bytesrepr::Error;
use contract_ffi::key::Key;
use contract_ffi::named_keys::NamedKeys;

fn table(entries: &[(&str, Key)]) -> NamedKeys {
    let mut t = NamedKeys::new();
    for (n, k) in entries {
        t.insert(n.to_string(), *k);
    }
    t
}

#[test]
fn merge_overwrites_existing_name() {
    let mut account = Account::new([0u8; 32], 0, table(&[("a", Key::Hash([1u8; 32]))]));
    let mut new_entries = table(&[("a", Key::Account([2u8; 20]))]);
    account.insert_urefs(&mut new_entries);
    assert_eq!(account.urefs_lookup().len(), 1);
    assert_eq!(account.urefs_lookup().get("a"), Some(Key::Account([2u8; 20])));
    assert_eq!(new_entries.len(), 0);
}

#[test]
fn merge_keeps_other_names() {
    let mut account = Account::new(
        [1u8; 32],
        5,
        table(&[("b", Key::Hash([1u8; 32])), ("c", Key::Hash([3u8; 32]))]),
    );
    let mut new_entries = table(&[("a", Key::Account([2u8; 20])), ("c", Key::Hash([4u8; 32]))]);
    account.insert_urefs(&mut new_entries);
    let t = account.urefs_lookup();
    assert_eq!(t.len(), 3);
    assert_eq!(t.get("a"), Some(Key::Account([2u8; 20])));
    assert_eq!(t.get("b"), Some(Key::Hash([1u8; 32])));
    assert_eq!(t.get("c"), Some(Key::Hash([4u8; 32])));
    assert_eq!(t.get("d"), None);
    assert_eq!(account.nonce(), 5);
    assert_eq!(account.pub_key(), &[1u8; 32][..]);
}

#[test]
fn table_sorted_by_name() {
    let t = table(&[("zeta", Key::Hash([1u8; 32])), ("alpha", Key::Hash([2u8; 32])), ("mid", Key::Hash([3u8; 32]))]);
    let names: Vec<&str> = t.entries().iter().map(|e| e.0.as_str()).collect();
    assert_eq!(names, vec!["alpha", "mid", "zeta"]);
    let t = table(&[("ab", Key::Hash([1u8; 32])), ("a", Key::Hash([2u8; 32])), ("a", Key::Hash([3u8; 32]))]);
    assert_eq!(t.len(), 2);
    assert_eq!(t.get("a"), Some(Key::Hash([3u8; 32])));
}

#[test]
fn account_bytes_layout() {
    let account = Account::new([9u8; 32], 0x0102, table(&[("ab", Key::Hash([1u8; 32]))]));
    let bytes = account.to_bytes();
    let mut expected = vec![9u8; 32];
    expected.extend([2u8, 1, 0, 0, 0, 0, 0, 0]);
    expected.extend([1u8, 0, 0, 0]);
    expected.extend([2u8, 0, 0, 0, b'a', b'b']);
    expected.push(1);
    expected.extend([1u8; 32]);
    assert_eq!(bytes, expected);
}

#[test]
fn account_round_trip() {
    let account = Account::new(
        [4u8; 32],
        u64::MAX,
        table(&[
            ("purse", Key::URef([5u8; 32], AccessRights::ReadAdd)),
            ("mint", Key::Hash([6u8; 32])),
            ("héllo", Key::Account([7u8; 20])),
        ]),
    );
    let mut bytes = account.to_bytes();
    bytes.push(0xAA);
    let (d, rest) = Account::from_bytes(&bytes).unwrap();
    assert_eq!(d, account);
    assert_eq!(rest, &[0xAAu8][..]);
    assert_eq!(d.urefs_lookup().get("héllo"), Some(Key::Account([7u8; 20])));
    let empty = Account::new([0u8; 32], 0, NamedKeys::new());
    let empty_bytes = empty.to_bytes();
    let (d, rest) = Account::from_bytes(&empty_bytes).unwrap();
    assert_eq!(d, empty);
    assert!(rest.is_empty());
    assert_eq!(d.get_urefs_lookup().len(), 0);
}

#[test]
fn account_name_must_be_utf8() {
    let mut bytes = vec![0u8; 32];
    bytes.extend([0u8; 8]);
    bytes.extend([1u8, 0, 0, 0]);
    bytes.extend([2u8, 0, 0, 0, 0xC3, 0x28]);
    bytes.push(1);
    bytes.extend([1u8; 32]);
    assert_eq!(Account::from_bytes(&bytes), Err(Error::MalformedEncoding));
    let n = bytes.len();
    bytes[n - 34] = b'b';
    bytes[n - 35] = b'a';
    let (d, _) = Account::from_bytes(&bytes).unwrap();
    assert_eq!(d.urefs_lookup().get("ab"), Some(Key::Hash([1u8; 32])));
}

#[test]
fn account_truncated() {
    let account = Account::new([4u8; 32], 3, table(&[("x", Key::Hash([6u8; 32]))]));
    let bytes = account.to_bytes();
    for n in 0..bytes.len() {
        assert_eq!(Account::from_bytes(&bytes[..n]), Err(Error::MalformedEncoding));
    }
}

#[test]
fn account_decode_later_entry_wins() {
    let mut bytes = vec![0u8; 32];
    bytes.extend([0u8; 8]);
    bytes.extend([2u8, 0, 0, 0]);
    for id in [1u8, 2u8] {
        bytes.extend([1u8, 0, 0, 0, b'k']);
        bytes.push(1);
        bytes.extend([id; 32]);
    }
    let (d, _) = Account::from_bytes(&bytes).unwrap();
    assert_eq!(d.urefs_lookup().len(), 1);
    assert_eq!(d.urefs_lookup().get("k"), Some(Key::Hash([2u8; 32])));
}
