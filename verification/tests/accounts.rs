use election_prediction::account::{subxt_account_from_key_bytes, AccountId};
use election_prediction::account_map::AccountMap;
use election_prediction::text::{account_hex, decimal};

#[test]
fn account_text_is_lower_case_hex() {
    let mut bytes = [0u8; 32];
    bytes[0] = 0x0f;
    bytes[1] = 0xA0;
    bytes[31] = 0xff;
    let text = account_hex(&AccountId(bytes));
    assert_eq!(text.len(), 66);
    assert!(text.starts_with("0x0fa000"));
    assert!(text.ends_with("00ff"));
}

#[test]
fn different_accounts_have_different_texts() {
    let a = AccountId([1; 32]);
    let mut b = a;
    b.0[17] = 2;
    assert_ne!(account_hex(&a), account_hex(&b));
}

#[test]
fn the_last_32_bytes_of_a_key_are_the_account() {
    let mut key: Vec<u8> = vec![9; 40];
    for i in 0..32u8 {
        key.push(i);
    }
    let account = subxt_account_from_key_bytes(&key).unwrap();
    for i in 0..32u8 {
        assert_eq!(account.0[i as usize], i);
    }
    assert_eq!(subxt_account_from_key_bytes(&key[40..]), Some(account));
}

#[test]
fn a_short_key_has_no_account() {
    assert_eq!(subxt_account_from_key_bytes(&[7u8; 31]), None);
    assert_eq!(subxt_account_from_key_bytes(&[]), None);
}

#[test]
fn accounts_are_ordered_by_bytes() {
    let a = AccountId([1; 32]);
    let mut b = a;
    b.0[31] = 2;
    let mut c = a;
    c.0[0] = 0;
    assert!(a.precedes(&b));
    assert!(!b.precedes(&a));
    assert!(c.precedes(&a));
    assert!(c.precedes(&b));
    assert!(!a.precedes(&a));
    assert!(a.same(&a));
    assert!(!a.same(&b));
}

#[test]
fn account_map_replaces_and_finds() {
    let mut map: AccountMap<u32> = AccountMap::new();
    assert_eq!(map.len(), 0);
    for n in [5u8, 1, 9, 3, 7] {
        assert_eq!(map.insert(AccountId([n; 32]), n as u32), None);
    }
    assert_eq!(map.insert(AccountId([9; 32]), 90), Some(9));
    assert_eq!(map.len(), 5);
    assert_eq!(map.get(&AccountId([9; 32])), Some(&90));
    assert_eq!(map.get(&AccountId([1; 32])), Some(&1));
    assert_eq!(map.get(&AccountId([2; 32])), None);
    let order: Vec<u8> = (0..5).map(|i| map.pair(i).0 .0[0]).collect();
    assert_eq!(order, vec![1, 3, 5, 7, 9]);
}

#[test]
fn numbers_in_decimal() {
    assert_eq!(decimal(0), "0");
    assert_eq!(decimal(9), "9");
    assert_eq!(decimal(10), "10");
    assert_eq!(decimal(4294967295), "4294967295");
}
