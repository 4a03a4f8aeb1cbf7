use contract_ffi::access_rights::AccessRights;
use contract_ffi::access_rights::AccessRights::{Eqv, Read, Write, Add, ReadAdd, ReadWrite, AddWrite};
use contract_ffi::bytesrepr::Error;
use std::cmp::Ordering;

const ALL: [AccessRights; 7] = [Eqv, Read, Write, Add, ReadAdd, ReadWrite, AddWrite];

#[test]
fn eqv_is_bottom() {
    for r in ALL {
        if r == Eqv {
            assert_eq!(Eqv.partial_cmp(&r), Some(Ordering::Equal));
        } else {
            assert_eq!(Eqv.partial_cmp(&r), Some(Ordering::Less));
            assert_eq!(r.partial_cmp(&Eqv), Some(Ordering::Greater));
        }
    }
}

#[test]
fn stated_relations() {
    assert!(Read < ReadAdd);
    assert!(Read < ReadWrite);
    assert!(Add < ReadAdd);
    assert!(Add < AddWrite);
    assert!(Add < ReadWrite);
    assert!(Write < AddWrite);
    assert!(Write < ReadWrite);
}

#[test]
fn incomparable_pairs() {
    let pairs = [
        (Read, Write),
        (Read, Add),
        (Write, Add),
        (Read, AddWrite),
        (ReadAdd, AddWrite),
        (ReadWrite, AddWrite),
        (Write, ReadAdd),
        (ReadAdd, ReadWrite),
    ];
    for (a, b) in pairs {
        assert_eq!(a.partial_cmp(&b), None);
        assert_eq!(b.partial_cmp(&a), None);
    }
}

#[test]
fn incomparable_pairs_are_insufficient_both_ways() {
    for (a, b) in [(Read, Write), (Write, ReadAdd), (ReadWrite, AddWrite)] {
        assert_eq!(a.partial_cmp(&b), None);
        assert!(!a.includes(b));
        assert!(!b.includes(a));
        assert!(!(a >= b));
        assert!(!(b >= a));
    }
}

#[test]
fn compare_is_antisymmetric_and_reflexive() {
    for a in ALL {
        assert_eq!(a.partial_cmp(&a), Some(Ordering::Equal));
        assert!(a.includes(a));
        for b in ALL {
            match a.partial_cmp(&b) {
                Some(Ordering::Greater) => assert_eq!(b.partial_cmp(&a), Some(Ordering::Less)),
                Some(Ordering::Less) => assert_eq!(b.partial_cmp(&a), Some(Ordering::Greater)),
                Some(Ordering::Equal) => assert_eq!(a, b),
                None => assert_eq!(b.partial_cmp(&a), None),
            }
        }
    }
}

#[test]
fn rights_byte_values() {
    let expected: [u8; 7] = [1, 2, 3, 4, 5, 6, 7];
    for (r, b) in ALL.iter().zip(expected.iter()) {
        assert_eq!(r.to_bytes(), vec![*b]);
        let input = [*b, 42];
        let (d, rest) = AccessRights::from_bytes(&input).unwrap();
        assert_eq!(d, *r);
        assert_eq!(rest, &[42u8][..]);
    }
}

#[test]
fn rights_bad_bytes() {
    assert_eq!(AccessRights::from_bytes(&[0]), Err(Error::MalformedEncoding));
    assert_eq!(AccessRights::from_bytes(&[8]), Err(Error::MalformedEncoding));
    assert_eq!(AccessRights::from_bytes(&[]), Err(Error::MalformedEncoding));
}
