use lookup_table_registry_client::address::Address;
use lookup_table_registry_client::client::LookupRegistryClient;
use lookup_table_registry_client::error::{classify_read_failure, read_failure, LookupRegistryError};
use lookup_table_registry_client::instruction::{AccountMeta, Instruction};
use lookup_table_registry_client::registry::{Entry, Registry};

fn addr(n: u8) -> Address {
    Address::new([n; 32])
}

fn ix(program: u8, accounts: &[u8]) -> Instruction {
    Instruction {
        program_id: addr(program),
        accounts: accounts
            .iter()
            .map(|n| AccountMeta { pubkey: addr(*n), is_signer: false, is_writable: true })
            .collect(),
        data: vec![1, 2, 3],
    }
}

fn registry(authority: u8, lookup: u8, addresses: &[u8]) -> Registry {
    Registry {
        authority: addr(authority),
        version: 1,
        tables: vec![Entry {
            discriminator: 2,
            lookup_address: addr(lookup),
            addresses: addresses.iter().map(|n| addr(*n)).collect(),
        }],
    }
}

#[test]
fn new_client_finds_nothing() {
    let client = LookupRegistryClient::new();
    let r = client.find_addresses(&[ix(9, &[1, 2])], &[addr(100)]);
    assert!(r.matches.is_empty());
    assert_eq!(r.distinct, 3);
    assert_eq!(r.unmatched, 3);
}

#[test]
fn update_reports_failed_authorities_in_order() {
    let mut client = LookupRegistryClient::new();
    let authorities = vec![addr(100), addr(101), addr(102)];
    let errors = client.update_registries(
        &authorities,
        vec![None, Some(registry(101, 50, &[1, 2])), None],
    );
    assert_eq!(errors, vec![addr(100), addr(102)]);
}

#[test]
fn fetched_registry_is_used_for_matching() {
    let mut client = LookupRegistryClient::new();
    let errors = client.update_registries(&[addr(100)], vec![Some(registry(100, 50, &[1, 2, 3]))]);
    assert!(errors.is_empty());
    let ixs = vec![ix(9, &[1, 2, 4])];
    let r = client.find_addresses(&ixs, &[addr(100)]);
    assert_eq!(r.matches, vec![addr(50)]);
    assert_eq!(r.distinct, 4);
    assert_eq!(r.unmatched, 2);
    // An authority that was not asked for contributes nothing.
    let r = client.find_addresses(&ixs, &[addr(101)]);
    assert!(r.matches.is_empty());
}

#[test]
fn later_fetch_replaces_earlier_registry() {
    let mut client = LookupRegistryClient::new();
    client.update_registries(&[addr(100)], vec![Some(registry(100, 50, &[1, 2]))]);
    client.update_registries(&[addr(100)], vec![Some(registry(100, 51, &[1, 2]))]);
    let r = client.find_addresses(&[ix(9, &[1, 2])], &[addr(100)]);
    assert_eq!(r.matches, vec![addr(51)]);
}

#[test]
fn missing_account_means_no_registry() {
    let e: LookupRegistryError<u32> = classify_read_failure(addr(3), 7, true);
    assert!(matches!(e, LookupRegistryError::RegistryNotFound(a) if a == addr(3)));
    let e: LookupRegistryError<u32> = classify_read_failure(addr(3), 7, false);
    assert!(matches!(e, LookupRegistryError::AccountReadError(7)));
}

#[test]
fn general_read_error_is_a_read_error() {
    let e = read_failure(addr(3), anyhow::Error::msg("connection reset"));
    assert!(matches!(e, LookupRegistryError::AccountReadError(_)));
}

#[test]
fn repeated_authority_keeps_its_latest_fetch() {
    let mut client = LookupRegistryClient::new();
    let authorities = vec![addr(100), addr(101), addr(100), addr(100)];
    let errors = client.update_registries(
        &authorities,
        vec![
            Some(registry(100, 50, &[1, 2])),
            Some(registry(101, 60, &[3, 4])),
            Some(registry(100, 51, &[1, 2])),
            None,
        ],
    );
    assert_eq!(errors, vec![addr(100)]);
    let r = client.find_addresses(&[ix(9, &[1, 2])], &[addr(100)]);
    assert_eq!(r.matches, vec![addr(51)]);
    let r = client.find_addresses(&[ix(9, &[3, 4])], &[addr(101)]);
    assert_eq!(r.matches, vec![addr(60)]);
}

#[test]
fn repeated_authority_adds_no_match() {
    let mut client = LookupRegistryClient::new();
    client.update_registries(&[addr(100)], vec![Some(registry(100, 50, &[1, 2, 3]))]);
    let ixs = vec![ix(9, &[1, 2, 3, 4])];
    let once = client.find_addresses(&ixs, &[addr(100)]);
    let twice = client.find_addresses(&ixs, &[addr(100), addr(100)]);
    assert_eq!(once.matches, twice.matches);
    assert_eq!(once.distinct, twice.distinct);
    assert_eq!(once.unmatched, twice.unmatched);
}

#[test]
fn same_addresses_give_same_result() {
    let mut client = LookupRegistryClient::new();
    client.update_registries(&[addr(100)], vec![Some(registry(100, 50, &[1, 2, 3]))]);
    let a = client.find_addresses(&[ix(9, &[1, 2]), ix(8, &[3])], &[addr(100)]);
    let b = client.find_addresses(&[ix(8, &[3, 3]), ix(9, &[2, 1, 9])], &[addr(100)]);
    assert_eq!(a.matches, b.matches);
    assert_eq!(a.distinct, b.distinct);
    assert_eq!(a.unmatched, b.unmatched);
}
