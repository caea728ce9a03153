use orion_utils::contracts::{RawUserData, UserData, ENC_PUBLIC_KEY_SIZE, SIGN_PUBLIC_KEY_SIZE};
use orion_utils::name::{array_to_arrstr, arrstr_to_array, Name};

#[test]
fn name_fits_in_thirty_two_bytes() {
    assert!(Name::from_str("general").is_some());
    assert!(Name::from_str(&"x".repeat(32)).is_some());
    assert!(Name::from_str(&"x".repeat(33)).is_none());
    assert_eq!(Name::from_str("general").unwrap().as_str(), "general");
    assert_eq!(Name::new().as_str(), "");
}

#[test]
fn names_compare_by_text() {
    assert!(Name::from_str("a").unwrap() == Name::from_str("a").unwrap());
    assert!(Name::from_str("a").unwrap() != Name::from_str("b").unwrap());
}

#[test]
fn padded_name_reads_back() {
    let name = Name::from_str("héllo").unwrap();
    let arr = arrstr_to_array(name);
    assert_eq!(&arr[..6], "héllo".as_bytes());
    assert!(arr[6..].iter().all(|&b| b == 0xff));
    assert_eq!(array_to_arrstr(arr).unwrap().as_str(), "héllo");
    assert_eq!(array_to_arrstr([0xff; 32]).unwrap().as_str(), "");
}

#[test]
fn padded_bytes_that_are_not_utf8_give_no_name() {
    let mut arr = [0xff; 32];
    arr[0] = 0xc3;
    assert!(array_to_arrstr(arr).is_none());
}

#[test]
fn user_data_from_raw_checks_the_name() {
    let mut name = [0xff; 32];
    name[..3].copy_from_slice(b"bob");
    let raw = RawUserData { name, sign: [1; SIGN_PUBLIC_KEY_SIZE], enc: [2; ENC_PUBLIC_KEY_SIZE] };
    let data = UserData::from_raw(raw).unwrap();
    assert_eq!(data.name.as_str(), "bob");
    let identity = data.to_identity();
    assert_eq!(identity.sign, [1; SIGN_PUBLIC_KEY_SIZE]);
    let back = identity.to_data(Name::from_str("alice").unwrap());
    assert_eq!(back.name.as_str(), "alice");
    assert_eq!(back.enc, [2; ENC_PUBLIC_KEY_SIZE]);

    let mut bad = raw;
    bad.name[0] = 0x80;
    assert!(UserData::from_raw(bad).is_err());
}
