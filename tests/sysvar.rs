use bad_addresses::address::Address;
use bad_addresses::layout::{SYSVAR_LEN, U64_SIZE};
use bad_addresses::pod::{BadAddressesSysvar, PodBadAddresses, SysvarError};
use bad_addresses::registry::{BadAddresses, MAX_ENTRIES};
use solana_program_error::ProgramError;
use solana_pubkey::Pubkey;

fn byte_address(b: u8) -> Address {
    let mut bytes = [0u8; 32];
    bytes[0] = b;
    bytes[31] = b.wrapping_mul(3);
    Address::new_from_array(bytes)
}

fn image_with_count(count: u64, len: usize) -> Vec<u8> {
    let mut data = vec![0u8; len];
    data[..8].copy_from_slice(&count.to_le_bytes());
    data
}

#[test]
fn test_size_of() {
    assert_eq!(
        BadAddresses::size_of(),
        bincode::serialized_size(
            &(0..MAX_ENTRIES)
                .map(|_| Pubkey::new_unique())
                .collect::<Vec<Pubkey>>()
        )
        .unwrap() as usize
    );
}

#[test]
fn size_of_is_the_full_capacity_image() {
    assert_eq!(BadAddresses::size_of(), 16392);
    assert_eq!(SYSVAR_LEN, 8 + 512 * 32);
    let empty = BadAddresses::new(&[]);
    let one = BadAddresses::new(&[byte_address(1)]);
    assert_eq!(empty.to_sysvar_bytes().len(), BadAddresses::size_of());
    assert_eq!(one.to_sysvar_bytes().len(), BadAddresses::size_of());
}

#[test]
fn image_layout_is_prefix_records_padding() {
    let set = BadAddresses::new(&[byte_address(9), byte_address(4)]);
    let image = set.to_sysvar_bytes();
    assert_eq!(&image[..8], &[2, 0, 0, 0, 0, 0, 0, 0]);
    assert_eq!(&image[8..40], &byte_address(9).to_bytes()[..]);
    assert_eq!(&image[40..72], &byte_address(4).to_bytes()[..]);
    assert!(image[72..].iter().all(|&b| b == 0));
}

#[test]
fn image_round_trips_through_view() {
    for n in [0usize, 1, 2, 5, 64, MAX_ENTRIES] {
        let mut set = BadAddresses::new(&[]);
        for _ in 0..n {
            set.add(Address::new_from_array(Pubkey::new_unique().to_bytes()));
        }
        let view = PodBadAddresses::fetch(set.to_sysvar_bytes(), 0, Ok(())).unwrap();
        let records = view.as_slice().unwrap();
        assert_eq!(records.len(), n);
        for (i, address) in set.bad_addresses().iter().enumerate() {
            assert_eq!(&records[i].address, address, "mismatch at index {}", i);
        }
    }
}

#[test]
fn empty_count_gives_empty_slice_and_none() {
    let view = PodBadAddresses::fetch(vec![0u8; SYSVAR_LEN], 0, Ok(())).unwrap();
    assert!(view.as_slice().unwrap().is_empty());
    assert_eq!(view.get(), Ok(None));
}

#[test]
fn get_samples_a_declared_record() {
    let set = BadAddresses::new(&[byte_address(5)]);
    let view = PodBadAddresses::fetch(set.to_sysvar_bytes(), 0, Ok(())).unwrap();
    assert_eq!(view.get(), Ok(Some(byte_address(5))));
    let set = BadAddresses::new(&[byte_address(7), byte_address(6), byte_address(2)]);
    let view = PodBadAddresses::fetch(set.to_sysvar_bytes(), 0, Ok(())).unwrap();
    for _ in 0..20 {
        let got = view.get().unwrap().unwrap();
        assert!(set.bad_addresses().contains(&got));
    }
}

#[test]
fn misaligned_buffer_is_invalid_data() {
    let image = BadAddresses::new(&[byte_address(1)]).to_sysvar_bytes();
    assert_eq!(
        PodBadAddresses::fetch(image.clone(), 3, Ok(())).err(),
        Some(SysvarError::InvalidData)
    );
    assert_eq!(
        PodBadAddresses::fetch(image, 1, Err(ProgramError::UnsupportedSysvar)).err(),
        Some(SysvarError::InvalidData)
    );
}

#[test]
fn count_beyond_buffer_fails_as_slice() {
    let mut data = image_with_count(3, U64_SIZE + 2 * 32);
    data[8] = 1;
    let view = PodBadAddresses::fetch(data, 0, Ok(())).unwrap();
    assert_eq!(view.as_slice().err(), Some(SysvarError::InvalidData));
    assert_eq!(view.get(), Err(SysvarError::InvalidData));
}

#[test]
fn count_overflow_is_invalid_data() {
    let data = image_with_count(u64::MAX, SYSVAR_LEN);
    assert_eq!(
        PodBadAddresses::fetch(data, 0, Ok(())).err(),
        Some(SysvarError::InvalidData)
    );
    let data = image_with_count(u64::MAX / 32, SYSVAR_LEN);
    let view = PodBadAddresses::fetch(data, 0, Ok(())).unwrap();
    assert_eq!(view.as_slice().err(), Some(SysvarError::InvalidData));
}

#[test]
fn short_buffer_is_invalid_data() {
    assert_eq!(
        PodBadAddresses::fetch(vec![1, 0, 0], 0, Ok(())).err(),
        Some(SysvarError::InvalidData)
    );
}

#[test]
fn upstream_failure_is_passed_on() {
    assert_eq!(
        PodBadAddresses::fetch(vec![0u8; SYSVAR_LEN], 0, Err(ProgramError::UnsupportedSysvar)).err(),
        Some(SysvarError::UpstreamFailure(ProgramError::UnsupportedSysvar))
    );
    assert_eq!(
        BadAddressesSysvar::get(&[0u8; 64], 0, Err(ProgramError::Custom(7))),
        Err(SysvarError::UpstreamFailure(ProgramError::Custom(7)))
    );
}

#[test]
fn sysvar_get_reads_whole_record_area() {
    let image = BadAddresses::new(&[byte_address(8)]).to_sysvar_bytes();
    let records = &image[U64_SIZE..];
    assert_eq!(records.len(), MAX_ENTRIES * 32);
    for _ in 0..20 {
        let got = BadAddressesSysvar::get(records, 0, Ok(())).unwrap().unwrap();
        assert!(got == byte_address(8) || got == Address::default());
    }
    let single = byte_address(8).to_bytes();
    assert_eq!(
        BadAddressesSysvar::get(&single, 0, Ok(())),
        Ok(Some(byte_address(8)))
    );
    assert_eq!(BadAddressesSysvar::get(&[1u8; 31], 0, Ok(())), Ok(None));
    assert_eq!(
        BadAddressesSysvar::get(records, 8, Ok(())),
        Err(SysvarError::InvalidData)
    );
}
