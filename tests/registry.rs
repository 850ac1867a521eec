use bad_addresses::address::Address;
use bad_addresses::registry::{get_entries, set_entries_for_tests_only, BadAddresses, MAX_ENTRIES};
use solana_pubkey::Pubkey;

fn unique() -> Address {
    Address::new_from_array(Pubkey::new_unique().to_bytes())
}

fn byte_address(b: u8) -> Address {
    let mut bytes = [0u8; 32];
    bytes[0] = b;
    Address::new_from_array(bytes)
}

fn is_strictly_descending(s: &[Address]) -> bool {
    s.windows(2).all(|w| w[0] > w[1])
}

#[test]
fn test() {
    let (one, two, three) = (unique(), unique(), unique());
    let mut bad_addresses = BadAddresses::new(&[two, one]);
    bad_addresses.add(three);
    assert_eq!(bad_addresses.bad_addresses(), &[three, two, one][..]);

    let mut bad_addresses = BadAddresses::new(&[]);
    for _ in 0..MAX_ENTRIES + 1 {
        bad_addresses.add(unique());
    }
    assert_eq!(bad_addresses.len(), MAX_ENTRIES);
}

#[test]
fn insert_then_replace_keeps_descending_order() {
    let (a, b, c) = (byte_address(1), byte_address(2), byte_address(3));
    let mut set = BadAddresses::new(&[]);
    assert_eq!(get_entries(&set), 512);
    set.add(c);
    set.add(a);
    assert_eq!(set.bad_addresses(), &[c, a][..]);
    set.add(b);
    assert_eq!(set.bad_addresses(), &[c, b, a][..]);
    set.add(c);
    assert_eq!(set.bad_addresses(), &[c, b, a][..]);
}

#[test]
fn capacity_two_evicts_lowest() {
    let (a, b, c) = (byte_address(1), byte_address(2), byte_address(3));
    let mut set = BadAddresses::new(&[]);
    set_entries_for_tests_only(&mut set, 2);
    assert_eq!(get_entries(&set), 2);
    set.add(c);
    set.add(b);
    set.add(a);
    assert_eq!(set.bad_addresses(), &[c, b][..]);
}

#[test]
fn full_set_ignores_new_lowest() {
    let mut set = BadAddresses::new(&[]);
    set_entries_for_tests_only(&mut set, 3);
    for b in [10u8, 20, 30] {
        set.add(byte_address(b));
    }
    let before = set.bad_addresses().to_vec();
    set.add(byte_address(5));
    assert_eq!(set.bad_addresses(), &before[..]);
    set.add(byte_address(25));
    assert_eq!(
        set.bad_addresses(),
        &[byte_address(30), byte_address(25), byte_address(20)][..]
    );
}

#[test]
fn add_twice_is_add_once() {
    let mut set = BadAddresses::new(&[]);
    for b in [9u8, 3, 7] {
        set.add(byte_address(b));
    }
    set.add(byte_address(5));
    let once = set.bad_addresses().to_vec();
    assert_eq!(set.position(byte_address(5)), Some(2));
    set.add(byte_address(5));
    assert_eq!(set.bad_addresses(), &once[..]);
    assert_eq!(set.position(byte_address(5)), Some(2));
    assert_eq!(set.len(), 4);
}

#[test]
fn inserts_keep_order_and_capacity() {
    let mut set = BadAddresses::new(&[]);
    set_entries_for_tests_only(&mut set, 16);
    let mut x: u32 = 7;
    for _ in 0..200 {
        x = x.wrapping_mul(1_103_515_245).wrapping_add(12_345);
        let mut bytes = [0u8; 32];
        bytes[0] = (x >> 24) as u8;
        bytes[31] = (x >> 16) as u8;
        set.add(Address::new_from_array(bytes));
        assert!(set.len() <= 16);
        assert!(is_strictly_descending(set.bad_addresses()));
    }
    assert_eq!(set.len(), 16);
}

#[test]
fn position_finds_exact_matches_only() {
    let mut set = BadAddresses::new(&[]);
    for b in [4u8, 8, 2, 6] {
        set.add(byte_address(b));
    }
    assert_eq!(set.position(byte_address(8)), Some(0));
    assert_eq!(set.position(byte_address(6)), Some(1));
    assert_eq!(set.position(byte_address(2)), Some(3));
    assert_eq!(set.position(byte_address(5)), None);
    assert_eq!(set.position(byte_address(9)), None);
    assert_eq!(BadAddresses::new(&[]).position(byte_address(1)), None);
}

#[test]
fn order_is_bytewise() {
    let mut low = [0u8; 32];
    low[31] = 255;
    let mut high = [0u8; 32];
    high[0] = 1;
    let (low, high) = (Address::new_from_array(low), Address::new_from_array(high));
    let mut set = BadAddresses::new(&[]);
    set.add(low);
    set.add(high);
    assert_eq!(set.bad_addresses(), &[high, low][..]);
    assert_eq!(high.compare(&low), std::cmp::Ordering::Greater);
    assert_eq!(low.compare(&high), std::cmp::Ordering::Less);
    assert_eq!(low.compare(&low), std::cmp::Ordering::Equal);
}

#[test]
fn new_keeps_input_as_given() {
    let (a, b) = (byte_address(1), byte_address(2));
    let set = BadAddresses::new(&[a, b]);
    assert_eq!(set.bad_addresses(), &[a, b][..]);
    assert_eq!(get_entries(&set), MAX_ENTRIES);
    assert!(!set.is_empty());
    assert!(BadAddresses::new(&[]).is_empty());
}

#[test]
fn get_samples_members() {
    assert_eq!(BadAddresses::new(&[]).get(), None);
    let only = byte_address(42);
    let single = BadAddresses::new(&[only]);
    assert_eq!(single.get(), Some(&only));
    let set = BadAddresses::new(&[byte_address(3), byte_address(2), byte_address(1)]);
    for _ in 0..20 {
        let got = *set.get().unwrap();
        assert!(set.bad_addresses().contains(&got));
    }
}

#[test]
fn address_bytes_round_trip() {
    let p = Pubkey::new_unique();
    let a = Address::new_from_array(p.to_bytes());
    assert_eq!(a.to_bytes(), p.to_bytes());
    let data = [7u8; 40];
    let mut expected = [7u8; 32];
    expected[0] = 7;
    assert_eq!(Address::read_at(&data, 8).to_bytes(), expected);
}
