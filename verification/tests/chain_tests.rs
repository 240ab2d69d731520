use std::borrow::Cow;

use lookup_table_registry_client::address::Address;
use lookup_table_registry_client::chain::{
    derive_lookup_table_address, lookup_table_program_id, registry_address, to_le_bytes,
};
use lookup_table_registry_client::registry::{begin_fetch, tables_to_fetch, Registry, RegistryEntry};
use solana_program::address_lookup_table::state::{AddressLookupTable, LookupTableMeta};
use solana_program::pubkey::Pubkey;

fn addr(n: u8) -> Address {
    Address::new([n; 32])
}

fn table_data(authority: u8, addresses: &[u8]) -> Vec<u8> {
    let table = AddressLookupTable {
        meta: LookupTableMeta::new(Pubkey::new_from_array([authority; 32])),
        addresses: Cow::Owned(addresses.iter().map(|n| Pubkey::new_from_array([*n; 32])).collect()),
    };
    table.serialize_for_tests().unwrap()
}

#[test]
fn le_bytes_are_least_significant_first() {
    assert_eq!(to_le_bytes(0x0102_0304_0506_0708), vec![8, 7, 6, 5, 4, 3, 2, 1]);
    assert_eq!(to_le_bytes(300), 300u64.to_le_bytes().to_vec());
}

#[test]
fn lookup_table_program_id_matches_solana() {
    assert_eq!(
        lookup_table_program_id().to_bytes(),
        solana_program::address_lookup_table::program::id().to_bytes()
    );
    assert_eq!(
        lookup_table_program_id().to_bytes(),
        Pubkey::try_from("AddressLookupTab1e1111111111111111111111111").unwrap().to_bytes()
    );
}

#[test]
fn derived_lookup_table_address_matches_solana() {
    let authority = addr(7);
    let derived = derive_lookup_table_address(&authority, 123_456).unwrap();
    let (expected, _) = solana_program::address_lookup_table::instruction::derive_lookup_table_address(
        &Pubkey::new_from_array([7; 32]),
        123_456,
    );
    assert_eq!(derived.to_bytes(), expected.to_bytes());
    assert!(!derived.same(&authority));
    // A different slot gives a different table.
    let other = derive_lookup_table_address(&authority, 123_457).unwrap();
    assert!(!other.same(&derived));
}

#[test]
fn registry_address_is_the_program_address_of_the_authority() {
    let authority = addr(5);
    let program = addr(6);
    let found = registry_address(&authority, &program).unwrap();
    let (expected, _) = Pubkey::find_program_address(
        &[&[5u8; 32]],
        &Pubkey::new_from_array([6; 32]),
    );
    assert_eq!(found.to_bytes(), expected.to_bytes());
    assert!(!found.same(&authority));
    assert!(!found.same(&program));
}

#[test]
fn only_slots_of_kind_above_one_are_fetched() {
    let entries = vec![
        RegistryEntry { discriminator: 0, table: addr(1) },
        RegistryEntry { discriminator: 1, table: addr(2) },
        RegistryEntry { discriminator: 2, table: addr(3) },
        RegistryEntry { discriminator: 7, table: addr(4) },
    ];
    assert_eq!(tables_to_fetch(&entries), vec![addr(3), addr(4)]);
}

#[test]
fn registry_is_built_from_readable_tables() {
    let entries = vec![
        RegistryEntry { discriminator: 2, table: addr(10) },
        RegistryEntry { discriminator: 0, table: addr(11) },
        RegistryEntry { discriminator: 3, table: addr(12) },
        RegistryEntry { discriminator: 4, table: addr(13) },
        RegistryEntry { discriminator: 5, table: addr(14) },
    ];
    let accounts = vec![
        Some(table_data(1, &[20, 21, 20])),
        None,
        Some(vec![1, 2, 3]),
        Some(table_data(1, &[22])),
    ];
    let reg = Registry::from_fetched(addr(99), 3, &entries, &accounts);
    assert_eq!(reg.authority, addr(99));
    assert_eq!(reg.version, 3);
    assert_eq!(reg.tables.len(), 2);
    assert_eq!(reg.tables[0].discriminator, 2);
    assert_eq!(reg.tables[0].lookup_address, addr(10));
    // Repeated addresses are kept.
    assert_eq!(reg.tables[0].addresses, vec![addr(20), addr(21), addr(20)]);
    assert_eq!(reg.tables[1].discriminator, 5);
    assert_eq!(reg.tables[1].lookup_address, addr(14));
    assert_eq!(reg.tables[1].addresses, vec![addr(22)]);
}

#[test]
fn uninitialized_table_account_is_skipped() {
    let entries = vec![RegistryEntry { discriminator: 2, table: addr(10) }];
    let accounts = vec![Some(vec![0u8; 56])];
    let reg = Registry::from_fetched(addr(99), 1, &entries, &accounts);
    assert!(reg.tables.is_empty());
}

#[test]
fn fetch_steps_read_registry_then_its_tables() {
    let start = begin_fetch(addr(5), &addr(6)).unwrap();
    let (expected, _) =
        Pubkey::find_program_address(&[&[5u8; 32]], &Pubkey::new_from_array([6; 32]));
    assert_eq!(start.registry_account.to_bytes(), expected.to_bytes());
    assert_eq!(start.authority, addr(5));
    let entries = vec![
        RegistryEntry { discriminator: 1, table: addr(10) },
        RegistryEntry { discriminator: 2, table: addr(11) },
    ];
    let request = start.registry_read::<String>(Ok((4, entries))).unwrap();
    assert_eq!(request.tables, vec![addr(11)]);
    assert_eq!(request.version, 4);
    let reg = request.tables_read(&vec![Some(table_data(1, &[30, 31]))]);
    assert_eq!(reg.authority, addr(5));
    assert_eq!(reg.version, 4);
    assert_eq!(reg.tables.len(), 1);
    assert_eq!(reg.tables[0].lookup_address, addr(11));
    assert_eq!(reg.tables[0].addresses, vec![addr(30), addr(31)]);
}

#[test]
fn fetch_stops_on_registry_read_error() {
    let start = begin_fetch(addr(5), &addr(6)).unwrap();
    let r = start.registry_read::<String>(Err("gone".to_string()));
    assert_eq!(r.err(), Some("gone".to_string()));
}
