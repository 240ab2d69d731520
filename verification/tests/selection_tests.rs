use lookup_table_registry_client::address::{contains_address, Address};
use lookup_table_registry_client::instruction::{distinct_accounts, AccountMeta, Instruction};
use lookup_table_registry_client::registry::{Entry, Registry};
use lookup_table_registry_client::selection::{find_addresses_in, overlap, remove_all};

fn addr(n: u8) -> Address {
    Address::new([n; 32])
}

fn meta(n: u8) -> AccountMeta {
    AccountMeta { pubkey: addr(n), is_signer: false, is_writable: false }
}

fn ix(program: u8, accounts: &[u8]) -> Instruction {
    Instruction {
        program_id: addr(program),
        accounts: accounts.iter().map(|n| meta(*n)).collect(),
        data: vec![],
    }
}

fn table(lookup: u8, addresses: &[u8]) -> Entry {
    Entry {
        discriminator: 2,
        lookup_address: addr(lookup),
        addresses: addresses.iter().map(|n| addr(*n)).collect(),
    }
}

fn registry(authority: u8, tables: Vec<Entry>) -> Registry {
    Registry { authority: addr(authority), version: 1, tables }
}

#[test]
fn address_equality_is_bytewise() {
    let a = addr(3);
    let mut bytes = [3u8; 32];
    assert!(a.same(&Address::new(bytes)));
    bytes[31] = 4;
    assert!(!a.same(&Address::new(bytes)));
    assert_eq!(a.to_vec(), vec![3u8; 32]);
    assert_eq!(a.to_bytes(), [3u8; 32]);
}

#[test]
fn contains_address_finds_members_only() {
    let v = vec![addr(1), addr(2)];
    assert!(contains_address(&v, &addr(2)));
    assert!(!contains_address(&v, &addr(3)));
    assert!(!contains_address(&vec![], &addr(1)));
}

#[test]
fn distinct_accounts_counts_each_address_once() {
    let ixs = vec![ix(9, &[1, 2, 1]), ix(9, &[2, 3, 9])];
    let accounts = distinct_accounts(&ixs);
    assert_eq!(accounts.len(), 4);
    for n in [1u8, 2, 3, 9] {
        assert!(contains_address(&accounts, &addr(n)));
    }
}

#[test]
fn distinct_accounts_of_no_instructions_is_empty() {
    assert!(distinct_accounts(&[]).is_empty());
}

#[test]
fn overlap_is_the_same_from_either_side() {
    let accounts = vec![addr(1), addr(2), addr(3)];
    // Shorter table than account list: the table is walked.
    let short = vec![addr(2), addr(2), addr(7)];
    let inter = overlap(&accounts, &short);
    assert_eq!(inter, vec![addr(2)]);
    // Longer table: the accounts are walked.
    let long = vec![addr(3), addr(1), addr(8), addr(9)];
    let inter = overlap(&accounts, &long);
    assert_eq!(inter.len(), 2);
    assert!(contains_address(&inter, &addr(1)));
    assert!(contains_address(&inter, &addr(3)));
}

#[test]
fn remove_all_drops_exactly_the_removed() {
    let accounts = vec![addr(1), addr(2), addr(3)];
    let rest = remove_all(&accounts, &vec![addr(2), addr(5)]);
    assert_eq!(rest, vec![addr(1), addr(3)]);
    let rest = remove_all(&vec![addr(4), addr(1), addr(3)], &vec![addr(1)]);
    assert_eq!(rest, vec![addr(4), addr(3)]);
}

#[test]
fn table_covering_two_accounts_is_chosen() {
    let ixs = vec![ix(9, &[1, 2, 3])];
    let regs = vec![registry(100, vec![table(50, &[1, 2, 7])])];
    let r = find_addresses_in(&ixs, &regs);
    assert_eq!(r.matches, vec![addr(50)]);
    assert_eq!(r.distinct, 4);
    assert_eq!(r.unmatched, 2);
}

#[test]
fn table_covering_one_account_is_not_chosen() {
    let ixs = vec![ix(9, &[1, 2, 3])];
    let regs = vec![registry(100, vec![table(50, &[1, 7, 8])])];
    let r = find_addresses_in(&ixs, &regs);
    assert!(r.matches.is_empty());
    assert_eq!(r.distinct, 4);
    assert_eq!(r.unmatched, 4);
}

#[test]
fn repeated_table_address_counts_once() {
    let ixs = vec![ix(9, &[1, 2])];
    let regs = vec![registry(100, vec![table(50, &[1, 1, 1])])];
    let r = find_addresses_in(&ixs, &regs);
    assert!(r.matches.is_empty());
    assert_eq!(r.unmatched, 3);
}

#[test]
fn covered_accounts_are_not_counted_again() {
    let ixs = vec![ix(9, &[1, 2, 3, 4])];
    let regs = vec![
        registry(100, vec![table(50, &[1, 2, 3]), table(51, &[2, 3, 4])]),
        registry(101, vec![table(52, &[9, 4, 5])]),
    ];
    let r = find_addresses_in(&ixs, &regs);
    // 50 covers 1, 2, 3; 51 then covers only 4; 52 covers 9 and 4.
    assert_eq!(r.matches, vec![addr(50), addr(52)]);
    assert_eq!(r.distinct, 5);
    assert_eq!(r.unmatched, 0);
}

#[test]
fn no_registries_choose_nothing() {
    let ixs = vec![ix(9, &[1, 2, 3])];
    let r = find_addresses_in(&ixs, &[]);
    assert!(r.matches.is_empty());
    assert_eq!(r.distinct, r.unmatched);
    assert_eq!(r.distinct, 4);
}

#[test]
fn each_choice_covers_two_accounts() {
    let ixs = vec![ix(9, &[1, 2, 3, 4, 5, 6]), ix(8, &[7])];
    let regs = vec![
        registry(100, vec![table(50, &[1, 2]), table(51, &[3, 4, 5])]),
        registry(101, vec![table(52, &[6, 7, 8, 9]), table(53, &[1, 6])]),
    ];
    let r = find_addresses_in(&ixs, &regs);
    assert_eq!(r.matches, vec![addr(50), addr(51), addr(52)]);
    assert!(r.distinct >= r.unmatched + 2 * r.matches.len());
    assert_eq!(r.distinct, 9);
    assert_eq!(r.unmatched, 0);
}

#[test]
fn searching_a_registry_again_adds_nothing() {
    let ixs = vec![ix(9, &[1, 2, 3, 4])];
    let regs = vec![
        registry(100, vec![table(50, &[1, 2]), table(51, &[3, 4, 5])]),
        registry(101, vec![table(52, &[9, 1])]),
    ];
    let once = find_addresses_in(&ixs, &regs);
    let mut again = regs.clone();
    again.push(regs[0].clone());
    let twice = find_addresses_in(&ixs, &again);
    assert_eq!(once.matches, twice.matches);
    assert_eq!(once.unmatched, twice.unmatched);
    assert_eq!(once.distinct, twice.distinct);
}
