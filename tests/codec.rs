use contract_ffi::access_rights::AccessRights;
use contract_ffi::bytesrepr::{keys_from_bytes, keys_to_bytes, Error};
use contract_ffi::key::Key;

#[test]
fn key_bytes_layout() {
    let mut expected = vec![0u8, 20, 0, 0, 0];
    expected.extend([1u8; 20]);
    assert_eq!(Key::Account([1u8; 20]).to_bytes(), expected);

    let mut expected = vec![1u8];
    expected.extend([2u8; 32]);
    assert_eq!(Key::Hash([2u8; 32]).to_bytes(), expected);

    let mut expected = vec![2u8];
    expected.extend([3u8; 32]);
    expected.push(4);
    assert_eq!(Key::URef([3u8; 32], AccessRights::Add).to_bytes(), expected);
}

#[test]
fn key_round_trip() {
    let keys = [
        Key::Account([1u8; 20]),
        Key::Hash([2u8; 32]),
        Key::URef([3u8; 32], AccessRights::ReadWrite),
        Key::URef([4u8; 32], AccessRights::Eqv),
    ];
    for k in keys {
        let mut bytes = k.to_bytes();
        bytes.push(77);
        let (d, rest) = Key::from_bytes(&bytes).unwrap();
        assert_eq!(d, k);
        assert_eq!(rest, &[77u8][..]);
    }
}

#[test]
fn key_unknown_tag() {
    let mut bytes = vec![99u8];
    bytes.extend([0u8; 40]);
    assert_eq!(Key::from_bytes(&bytes), Err(Error::MalformedEncoding));
}

#[test]
fn key_account_length_mismatch() {
    let mut bytes = vec![0u8, 21, 0, 0, 0];
    bytes.extend([1u8; 21]);
    assert_eq!(Key::from_bytes(&bytes), Err(Error::MalformedEncoding));
}

#[test]
fn key_truncated() {
    let full = Key::URef([3u8; 32], AccessRights::Read).to_bytes();
    for n in 0..full.len() {
        assert_eq!(Key::from_bytes(&full[..n]), Err(Error::MalformedEncoding));
    }
    let full = Key::Account([3u8; 20]).to_bytes();
    for n in 0..full.len() {
        assert_eq!(Key::from_bytes(&full[..n]), Err(Error::MalformedEncoding));
    }
}

#[test]
fn key_bad_rights_byte() {
    let mut bytes = vec![2u8];
    bytes.extend([3u8; 32]);
    bytes.push(0);
    assert_eq!(Key::from_bytes(&bytes), Err(Error::MalformedEncoding));
}

#[test]
fn key_sequence_round_trip() {
    let keys = vec![
        Key::Hash([2u8; 32]),
        Key::Account([1u8; 20]),
        Key::URef([3u8; 32], AccessRights::AddWrite),
    ];
    let bytes = keys_to_bytes(&keys);
    assert_eq!(&bytes[..4], &[3u8, 0, 0, 0][..]);
    assert_eq!(bytes.len(), 4 + 33 + 25 + 34);
    let (d, rest) = keys_from_bytes(&bytes).unwrap();
    assert_eq!(d, keys);
    assert!(rest.is_empty());
}

#[test]
fn key_sequence_empty_and_truncated() {
    let bytes = keys_to_bytes(&Vec::new());
    assert_eq!(bytes, vec![0u8, 0, 0, 0]);
    let (d, rest) = keys_from_bytes(&bytes).unwrap();
    assert!(d.is_empty());
    assert!(rest.is_empty());
    assert_eq!(keys_from_bytes(&[1, 0, 0, 0]), Err(Error::MalformedEncoding));
    assert_eq!(keys_from_bytes(&[1, 0]), Err(Error::MalformedEncoding));
}
