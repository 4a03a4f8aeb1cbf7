use contract_ffi::access_rights::AccessRights;
use contract_ffi::access_rights::AccessRights::{Eqv, Read, Write, Add, ReadAdd, ReadWrite, AddWrite};
use contract_ffi::key::Key;
use contract_ffi::pointers::ContractPointer;
use std::cmp::Ordering::{Equal, Greater, Less};

fn test_key_capabilities<F>(right: AccessRights, requires: AccessRights, is_true: bool, predicate: F)
where
    F: Fn(Key) -> bool,
{
    let key = Key::URef([0u8; 32], right);
    assert_eq!(
        predicate(key),
        is_true,
        "{:?} isn't enough to perform {:?} operation",
        right,
        requires
    )
}

fn test_readable(right: AccessRights, is_true: bool) {
    test_key_capabilities(right, Read, is_true, |key| key.is_readable())
}

#[test]
fn test_is_readable() {
    test_readable(Read, true);
    test_readable(ReadAdd, true);
    test_readable(ReadWrite, true);
    test_readable(Add, false);
    test_readable(AddWrite, false);
    test_readable(Eqv, false);
    test_readable(Write, false);
}

fn test_writable(right: AccessRights, is_true: bool) {
    test_key_capabilities(right, Write, is_true, |key| key.is_writable())
}

#[test]
fn test_is_writable() {
    test_writable(Write, true);
    test_writable(ReadWrite, true);
    test_writable(AddWrite, true);
    test_writable(Eqv, false);
    test_writable(Read, false);
    test_writable(Add, false);
    test_writable(ReadAdd, false);
}

fn test_addable(right: AccessRights, is_true: bool) {
    test_key_capabilities(right, Add, is_true, |key| key.is_addable())
}

#[test]
fn test_is_addable() {
    test_addable(Add, true);
    test_addable(ReadAdd, true);
    test_addable(ReadWrite, true);
    test_addable(AddWrite, true);
    test_addable(Eqv, false);
    test_addable(Read, false);
    test_addable(Write, false);
}

#[test]
fn predicate_table_literal() {
    let id = [5u8; 32];
    assert!(Key::URef(id, Read).is_readable());
    assert!(!Key::URef(id, Add).is_readable());
    assert!(Key::URef(id, Write).is_writable());
    assert!(!Key::URef(id, ReadAdd).is_writable());
    assert!(Key::URef(id, AddWrite).is_addable());
    assert!(!Key::URef(id, Eqv).is_readable());
    assert!(!Key::URef(id, Eqv).is_writable());
    assert!(!Key::URef(id, Eqv).is_addable());
}

#[test]
fn account_and_hash_predicates() {
    for key in [Key::Account([1u8; 20]), Key::Hash([2u8; 32])] {
        assert!(key.is_readable());
        assert!(!key.is_writable());
        assert!(key.is_addable());
    }
}

#[test]
fn ordering_ignores_rights_but_equality_does_not() {
    let a = Key::URef([7u8; 32], Read);
    let b = Key::URef([7u8; 32], Write);
    assert_eq!(a.cmp(&b), std::cmp::Ordering::Equal);
    assert_ne!(a, b);
    assert_eq!(a, Key::URef([7u8; 32], Read));
}

#[test]
fn ordering_by_variant_then_identifier() {
    let acc = Key::Account([9u8; 20]);
    let hash = Key::Hash([0u8; 32]);
    let uref = Key::URef([0u8; 32], Eqv);
    assert_eq!(acc.cmp(&hash), Less);
    assert_eq!(hash.cmp(&uref), Less);
    assert_eq!(acc.cmp(&uref), Less);
    assert_eq!(uref.cmp(&acc), Greater);
    assert_eq!(uref.cmp(&hash), Greater);
    assert_eq!(hash.cmp(&acc), Greater);
    let mut low = [3u8; 32];
    low[31] = 2;
    assert_eq!(Key::Hash(low).cmp(&Key::Hash([3u8; 32])), Less);
    assert_eq!(Key::Hash([3u8; 32]).cmp(&Key::Hash(low)), Greater);
    assert_eq!(Key::URef([1u8; 32], Read).cmp(&Key::URef([2u8; 32], Eqv)), Less);
    assert_eq!(Key::Account([4u8; 20]).cmp(&Key::Account([4u8; 20])), Equal);
}

#[test]
fn narrowing_to_pointers() {
    let p = Key::URef([8u8; 32], ReadWrite).to_u_ptr::<u64>().unwrap();
    assert_eq!(p.0, [8u8; 32]);
    assert_eq!(p.1, ReadWrite);
    assert!(Key::Hash([8u8; 32]).to_u_ptr::<u64>().is_none());
    assert!(Key::Account([8u8; 20]).to_u_ptr::<u64>().is_none());
    match Key::Hash([6u8; 32]).to_c_ptr() {
        Some(ContractPointer::Hash(id)) => assert_eq!(id, [6u8; 32]),
        other => panic!("unexpected {:?}", other),
    }
    match Key::URef([6u8; 32], Add).to_c_ptr() {
        Some(ContractPointer::URef(p)) => {
            assert_eq!(p.0, [6u8; 32]);
            assert_eq!(p.1, Add);
        }
        other => panic!("unexpected {:?}", other),
    }
    assert!(Key::Account([6u8; 20]).to_c_ptr().is_none());
}

#[test]
fn identifier_bytes() {
    assert_eq!(Key::Account([1u8; 20]).as_ref(), &[1u8; 20][..]);
    assert_eq!(Key::URef([2u8; 32], Read).id_bytes(), &[2u8; 32][..]);
}
