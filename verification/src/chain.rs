use vstd::prelude::*;

use crate::address::{views, Address};

verus! {

/// The addresses stored in the address lookup table account whose data is `data`,
/// in table order, or `None` when `data` is not an initialized lookup table account.
pub uninterp spec fn lookup_table_contents(data: Seq<u8>) -> Option<Seq<Seq<u8>>>;

/// The program-derived address, with its bump seed, that the search over bump
/// seeds finds for `seeds` and the program `program_id`, or `None` when no bump
/// seed gives a valid address.
pub uninterp spec fn program_address(seeds: Seq<Seq<u8>>, program_id: Seq<u8>) -> Option<
    (Seq<u8>, u8),
>;

/// The 32 bytes of the address lookup table program's id,
/// `AddressLookupTab1e1111111111111111111111111`.
pub open spec fn lookup_table_program_bytes() -> Seq<u8> {
    seq![
        2u8, 119, 166, 175, 151, 51, 155, 122, 200, 141, 24, 146, 201, 4, 70, 245,
        0, 2, 48, 146, 102, 246, 46, 83, 193, 24, 36, 73, 130, 0, 0, 0,
    ]
}

/// Reads a lookup table account with `AddressLookupTable::deserialize` of
/// `solana_program`. The contract claims that the addresses handed back are those
/// the table holds, in order, and that `None` comes exactly when deserialization
/// fails; both are given by the name `lookup_table_contents`.
#[verifier::external_body]
pub(crate) fn read_lookup_table(data: &[u8]) -> (r: Option<Vec<Address>>)
    ensures
        r is Some <==> lookup_table_contents(data@) is Some,
        r matches Some(v) ==> lookup_table_contents(data@) == Some(views(v@)),
{
    match solana_program::address_lookup_table::state::AddressLookupTable::deserialize(data) {
        Ok(table) => Some(table.addresses.iter().map(|a| Address { bytes: a.to_bytes() }).collect()),
        Err(_) => None,
    }
}

/// Searches for a program-derived address with `Pubkey::try_find_program_address`
/// of `solana_program`. The contract claims that the result is the one named by
/// `program_address` for the same seeds and program id.
#[verifier::external_body]
pub(crate) fn search_program_address(seeds: &Vec<Vec<u8>>, program_id: &Address) -> (r: Option<
    (Address, u8),
>)
    ensures
        r is Some <==> program_address(seeds.deep_view(), program_id@) is Some,
        r matches Some(found) ==> program_address(seeds.deep_view(), program_id@) == Some(
            (found.0@, found.1),
        ),
{
    let seeds: Vec<&[u8]> = seeds.iter().map(|s| s.as_slice()).collect();
    let program = solana_program::pubkey::Pubkey::new_from_array(program_id.bytes);
    solana_program::pubkey::Pubkey::try_find_program_address(&seeds, &program).map(
        |(key, bump)| (Address { bytes: key.to_bytes() }, bump),
    )
}

/// The id of the address lookup table program, `address_lookup_table::program::id()`
/// of `solana_program`. The contract claims the bytes that the id's base-58 form
/// `AddressLookupTab1e1111111111111111111111111` stands for.
#[verifier::external_body]
fn lookup_table_program() -> (id: Address)
    ensures
        id@ == lookup_table_program_bytes(),
{
    Address { bytes: solana_program::address_lookup_table::program::id().to_bytes() }
}

/// The id of the address lookup table program.
pub fn lookup_table_program_id() -> (id: Address)
    ensures
        id@ == lookup_table_program_bytes(),
{
    lookup_table_program()
}

/// The eight bytes of `x`, least significant first.
pub open spec fn le_bytes(x: u64) -> Seq<u8> {
    seq![
        (x & 0xff) as u8,
        ((x >> 8u64) & 0xff) as u8,
        ((x >> 16u64) & 0xff) as u8,
        ((x >> 24u64) & 0xff) as u8,
        ((x >> 32u64) & 0xff) as u8,
        ((x >> 40u64) & 0xff) as u8,
        ((x >> 48u64) & 0xff) as u8,
        ((x >> 56u64) & 0xff) as u8,
    ]
}

/// The eight bytes of `x`, least significant first.
pub fn to_le_bytes(x: u64) -> (r: Vec<u8>)
    ensures
        r@ == le_bytes(x),
        r@.len() == 8,
        le_value(r@) == x,
{
    proof {
        law_le_bytes_decode(x);
    }
    let r = vec![
        (x & 0xff) as u8,
        ((x >> 8u64) & 0xff) as u8,
        ((x >> 16u64) & 0xff) as u8,
        ((x >> 24u64) & 0xff) as u8,
        ((x >> 32u64) & 0xff) as u8,
        ((x >> 40u64) & 0xff) as u8,
        ((x >> 48u64) & 0xff) as u8,
        ((x >> 56u64) & 0xff) as u8,
    ];
    assert(r@ =~= le_bytes(x));
    r
}

/// The address of the lookup table that `authority` creates at slot
/// `recent_block_slot`: the program address of the lookup table program for the
/// seeds `authority` and the slot's little-endian bytes. `None` when no bump seed
/// gives a valid address.
pub fn derive_lookup_table_address(authority: &Address, recent_block_slot: u64) -> (r: Option<
    Address,
>)
    ensures
        r is Some <==> program_address(
            seq![authority@, le_bytes(recent_block_slot)],
            lookup_table_program_bytes(),
        ) is Some,
        r matches Some(a) ==> a@ == program_address(
            seq![authority@, le_bytes(recent_block_slot)],
            lookup_table_program_bytes(),
        ).unwrap().0,
{
    let mut seeds: Vec<Vec<u8>> = Vec::new();
    seeds.push(authority.to_vec());
    seeds.push(to_le_bytes(recent_block_slot));
    assert(seeds@[0].deep_view() =~= authority@);
    assert(seeds@[1].deep_view() =~= le_bytes(recent_block_slot));
    assert(seeds.deep_view() =~= seq![authority@, le_bytes(recent_block_slot)]);
    let program = lookup_table_program();
    match search_program_address(&seeds, &program) {
        Some(found) => Some(found.0),
        None => None,
    }
}

/// The address of `authority`'s registry account: the program address of the
/// registry program `registry_program` for the single seed `authority`. `None`
/// when no bump seed gives a valid address.
pub fn registry_address(authority: &Address, registry_program: &Address) -> (r: Option<Address>)
    ensures
        r is Some <==> program_address(seq![authority@], registry_program@) is Some,
        r matches Some(a) ==> a@ == program_address(
            seq![authority@],
            registry_program@,
        ).unwrap().0,
{
    let mut seeds: Vec<Vec<u8>> = Vec::new();
    seeds.push(authority.to_vec());
    assert(seeds@[0].deep_view() =~= authority@);
    assert(seeds.deep_view() =~= seq![authority@]);
    match search_program_address(&seeds, registry_program) {
        Some(found) => Some(found.0),
        None => None,
    }
}

/// The number that eight bytes stand for, least significant first.
pub open spec fn le_value(b: Seq<u8>) -> int {
    b[0] + 256 * (b[1] + 256 * (b[2] + 256 * (b[3] + 256 * (b[4] + 256 * (b[5] + 256 * (b[6] + 256
        * b[7]))))))
}

/// The little-endian bytes of a slot stand for that slot: decoding them gives it back.
pub proof fn law_le_bytes_decode(x: u64)
    ensures
        le_bytes(x).len() == 8,
        le_value(le_bytes(x)) == x,
{
    let b0 = (x & 0xff) as u8;
    let b1 = ((x >> 8u64) & 0xff) as u8;
    let b2 = ((x >> 16u64) & 0xff) as u8;
    let b3 = ((x >> 24u64) & 0xff) as u8;
    let b4 = ((x >> 32u64) & 0xff) as u8;
    let b5 = ((x >> 40u64) & 0xff) as u8;
    let b6 = ((x >> 48u64) & 0xff) as u8;
    let b7 = ((x >> 56u64) & 0xff) as u8;
    assert(b0 + 256 * (b1 + 256 * (b2 + 256 * (b3 + 256 * (b4 + 256 * (b5 + 256 * (b6 + 256 * b7))))))
        == x) by (bit_vector)
        requires
            b0 == (x & 0xff) as u8,
            b1 == ((x >> 8u64) & 0xff) as u8,
            b2 == ((x >> 16u64) & 0xff) as u8,
            b3 == ((x >> 24u64) & 0xff) as u8,
            b4 == ((x >> 32u64) & 0xff) as u8,
            b5 == ((x >> 40u64) & 0xff) as u8,
            b6 == ((x >> 48u64) & 0xff) as u8,
            b7 == ((x >> 56u64) & 0xff) as u8,
    ;
    let b = le_bytes(x);
    assert(b[0] == b0 && b[1] == b1 && b[2] == b2 && b[3] == b3);
    assert(b[4] == b4 && b[5] == b5 && b[6] == b6 && b[7] == b7);
}

} // verus!
