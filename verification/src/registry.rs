use vstd::prelude::*;

use crate::address::{views, Address};
use crate::chain::{lookup_table_contents, program_address, read_lookup_table, registry_address};

verus! {

/// One lookup table of a registry.
#[derive(Clone, Debug)]
pub struct Entry {
    /// What kind of table this is.
    pub discriminator: u64,
    /// The address of the lookup table account.
    pub lookup_address: Address,
    /// The addresses the table holds, in table order.
    ///
    /// Duplicates are kept: a table that repeats an address is as full as its
    /// length says, so its length must not be taken from a set of its addresses.
    pub addresses: Vec<Address>,
}

/// The lookup tables that one authority has registered.
#[derive(Clone, Debug)]
pub struct Registry {
    pub authority: Address,
    pub version: u8,
    pub tables: Vec<Entry>,
}

/// One slot of a registry account as stored on chain: its kind and the table it names.
#[derive(Clone, Copy, Debug)]
pub struct RegistryEntry {
    pub discriminator: u64,
    pub table: Address,
}

/// Kinds 0 and 1 mark slots that hold no table to look up.
pub open spec fn is_lookup_entry(e: RegistryEntry) -> bool {
    e.discriminator > 1
}

/// The slots of a registry account that name tables to look up, in order.
pub open spec fn lookup_entries(entries: Seq<RegistryEntry>) -> Seq<RegistryEntry>
    decreases entries.len(),
{
    if entries.len() == 0 {
        Seq::empty()
    } else if is_lookup_entry(entries.last()) {
        lookup_entries(entries.drop_last()).push(entries.last())
    } else {
        lookup_entries(entries.drop_last())
    }
}

/// A table as the search sees it: kind, lookup address and held addresses.
pub open spec fn entry_view(e: Entry) -> (u64, Seq<u8>, Seq<Seq<u8>>) {
    (e.discriminator, e.lookup_address@, views(e.addresses@))
}

/// The tables that a registry holds once the accounts of its lookup slots have been
/// read: slot `k` of `wanted` goes with `accounts[k]` (as far as both reach), and
/// it becomes a table when its account exists and reads as a lookup table.
pub open spec fn fetched_tables(wanted: Seq<RegistryEntry>, accounts: Seq<Option<Seq<u8>>>) -> Seq<
    (u64, Seq<u8>, Seq<Seq<u8>>),
>
    decreases accounts.len(),
{
    if accounts.len() == 0 {
        Seq::empty()
    } else {
        let front = fetched_tables(wanted, accounts.drop_last());
        let k = accounts.len() - 1;
        if k < wanted.len() && accounts.last() is Some && lookup_table_contents(
            accounts.last().unwrap(),
        ) is Some {
            front.push(
                (
                    wanted[k].discriminator,
                    wanted[k].table@,
                    lookup_table_contents(accounts.last().unwrap()).unwrap(),
                ),
            )
        } else {
            front
        }
    }
}

/// The slots of a registry account that name tables to look up, in order.
pub fn lookup_slots(entries: &[RegistryEntry]) -> (r: Vec<RegistryEntry>)
    ensures
        r@ == lookup_entries(entries@),
{
    let mut r: Vec<RegistryEntry> = Vec::new();
    let mut i: usize = 0;
    while i < entries.len()
        invariant
            i <= entries.len(),
            r@ == lookup_entries(entries@.take(i as int)),
        decreases entries.len() - i,
    {
        if entries[i].discriminator > 1 {
            r.push(entries[i]);
        }
        assert(entries@.take(i + 1).drop_last() =~= entries@.take(i as int));
        i = i + 1;
    }
    assert(entries@.take(i as int) =~= entries@);
    r
}

/// The accounts to read for a registry: the tables its lookup slots name, in order.
pub fn tables_to_fetch(entries: &[RegistryEntry]) -> (r: Vec<Address>)
    ensures
        views(r@) == lookup_entries(entries@).map_values(|e: RegistryEntry| e.table@),
{
    let wanted = lookup_slots(entries);
    let mut r: Vec<Address> = Vec::new();
    let mut i: usize = 0;
    while i < wanted.len()
        invariant
            i <= wanted.len(),
            views(r@) == wanted@.take(i as int).map_values(|e: RegistryEntry| e.table@),
        decreases wanted.len() - i,
    {
        let ghost before = views(r@);
        r.push(wanted[i].table);
        assert(views(r@) =~= before.push(wanted@[i as int].table@));
        assert(wanted@.take(i + 1).map_values(|e: RegistryEntry| e.table@) =~= wanted@.take(
            i as int,
        ).map_values(|e: RegistryEntry| e.table@).push(wanted@[i as int].table@));
        i = i + 1;
    }
    assert(wanted@.take(i as int) =~= wanted@);
    r
}

impl Registry {
    /// Builds `authority`'s registry from the slots of its registry account and the
    /// accounts read for its lookup slots (`accounts[k]` for the `k`-th lookup slot,
    /// `None` where no account exists). A slot whose account is missing or does not
    /// read as a lookup table is left out.
    pub fn from_fetched(
        authority: Address,
        version: u8,
        entries: &[RegistryEntry],
        accounts: &Vec<Option<Vec<u8>>>,
    ) -> (r: Registry)
        ensures
            r.authority == authority,
            r.version == version,
            r.tables@.map_values(|e: Entry| entry_view(e)) == fetched_tables(
                lookup_entries(entries@),
                accounts.deep_view(),
            ),
            one_per_readable_slot(
                r.tables@.map_values(|e: Entry| entry_view(e)),
                lookup_entries(entries@),
                accounts.deep_view(),
            ),
    {
        let wanted = lookup_slots(entries);
        let mut tables: Vec<Entry> = Vec::new();
        let mut k: usize = 0;
        while k < accounts.len()
            invariant
                k <= accounts.len(),
                wanted@ == lookup_entries(entries@),
                tables@.map_values(|e: Entry| entry_view(e)) == fetched_tables(
                    wanted@,
                    accounts.deep_view().take(k as int),
                ),
            decreases accounts.len() - k,
        {
            let ghost before = tables@;
            let ghost acc = accounts.deep_view().take(k + 1);
            assert(acc.drop_last() =~= accounts.deep_view().take(k as int));
            assert(acc.last() == accounts@[k as int].deep_view());
            if k < wanted.len() {
                match &accounts[k] {
                    Some(data) => {
                        assert(data.deep_view() =~= data@);
                        match read_lookup_table(data.as_slice()) {
                            Some(addresses) => {
                                tables.push(
                                    Entry {
                                        discriminator: wanted[k].discriminator,
                                        lookup_address: wanted[k].table,
                                        addresses,
                                    },
                                );
                                assert(tables@.map_values(|e: Entry| entry_view(e)) =~= before.map_values(
                                    |e: Entry| entry_view(e),
                                ).push(entry_view(tables@.last())));
                            },
                            None => {},
                        }
                    },
                    None => {},
                }
            }
            assert(tables@.map_values(|e: Entry| entry_view(e)) =~= fetched_tables(wanted@, acc));
            k = k + 1;
        }
        assert(accounts.deep_view().take(k as int) =~= accounts.deep_view());
        let r = Registry { authority, version, tables };
        proof {
            law_every_readable_table_is_kept(lookup_entries(entries@), accounts.deep_view());
        }
        r
    }
}

/// Whether `t` is the table named by a lookup slot of `entries`.
pub open spec fn named_by_lookup_slot(t: (u64, Seq<u8>, Seq<Seq<u8>>), entries: Seq<RegistryEntry>) -> bool {
    exists|i: int|
        0 <= i < entries.len() && is_lookup_entry(#[trigger] entries[i]) && entries[i].discriminator
            == t.0 && entries[i].table@ == t.1
}

/// Every lookup slot is a slot of the registry account with a kind above 1.
#[verifier::spinoff_prover]
proof fn lemma_lookup_entries_from(entries: Seq<RegistryEntry>)
    ensures
        forall|m: int|
            0 <= m < lookup_entries(entries).len() ==> exists|i: int|
                0 <= i < entries.len() && is_lookup_entry(entries[i]) && #[trigger] lookup_entries(
                    entries,
                )[m] == entries[i],
    decreases entries.len(),
{
    if entries.len() > 0 {
        let front = entries.drop_last();
        lemma_lookup_entries_from(front);
        assert forall|m: int| 0 <= m < lookup_entries(entries).len() implies exists|i: int|
            0 <= i < entries.len() && is_lookup_entry(entries[i]) && #[trigger] lookup_entries(
                entries,
            )[m] == entries[i] by {
            if m < lookup_entries(front).len() {
                let i = choose|i: int|
                    0 <= i < front.len() && is_lookup_entry(front[i]) && lookup_entries(front)[m]
                        == front[i];
                assert(entries[i] == front[i]);
            } else {
                assert(lookup_entries(entries)[m] == entries[entries.len() - 1]);
            }
        }
    }
}

/// Every table read from fetched accounts is named by one of the wanted slots.
proof fn lemma_fetched_tables_from(wanted: Seq<RegistryEntry>, accounts: Seq<Option<Seq<u8>>>)
    ensures
        forall|k: int|
            0 <= k < fetched_tables(wanted, accounts).len() ==> exists|m: int|
                0 <= m < wanted.len() && #[trigger] fetched_tables(wanted, accounts)[k].0
                    == wanted[m].discriminator && fetched_tables(wanted, accounts)[k].1
                    == wanted[m].table@,
    decreases accounts.len(),
{
    if accounts.len() > 0 {
        let front = accounts.drop_last();
        lemma_fetched_tables_from(wanted, front);
        let r = fetched_tables(wanted, accounts);
        assert forall|k: int| 0 <= k < r.len() implies exists|m: int|
            0 <= m < wanted.len() && #[trigger] r[k].0 == wanted[m].discriminator && r[k].1
                == wanted[m].table@ by {
            if k < fetched_tables(wanted, front).len() {
                assert(r[k] == fetched_tables(wanted, front)[k]);
            } else {
                let m = accounts.len() - 1;
                assert(r[k].0 == wanted[m].discriminator);
            }
        }
    }
}

/// Every table of a registry built from fetched accounts is named by a slot of
/// its registry account whose kind is above 1: the slots of kinds 0 and 1 are
/// never looked up.
pub proof fn law_fetched_tables_come_from_lookup_slots(
    entries: Seq<RegistryEntry>,
    accounts: Seq<Option<Seq<u8>>>,
)
    ensures
        forall|k: int|
            0 <= k < fetched_tables(lookup_entries(entries), accounts).len() ==> named_by_lookup_slot(
                #[trigger] fetched_tables(lookup_entries(entries), accounts)[k],
                entries,
            ),
{
    let wanted = lookup_entries(entries);
    lemma_lookup_entries_from(entries);
    lemma_fetched_tables_from(wanted, accounts);
    let r = fetched_tables(wanted, accounts);
    assert forall|k: int| 0 <= k < r.len() implies named_by_lookup_slot(#[trigger] r[k], entries) by {
        let m = choose|m: int|
            0 <= m < wanted.len() && r[k].0 == wanted[m].discriminator && r[k].1 == wanted[m].table@;
        let i = choose|i: int| 0 <= i < entries.len() && is_lookup_entry(entries[i]) && wanted[m] == entries[i];
        assert(is_lookup_entry(entries[i]));
    }
}

/// Fetching a registry, first step: the registry account to read for `authority`.
pub struct FetchStart {
    pub authority: Address,
    pub registry_account: Address,
}

/// Fetching a registry, second step: the registry account was read, and these are
/// the table accounts to read next (`tables`, one per lookup slot of `entries`).
pub struct TablesRequest {
    pub authority: Address,
    pub version: u8,
    pub entries: Vec<RegistryEntry>,
    pub tables: Vec<Address>,
}

/// Starts fetching `authority`'s registry from the registry program
/// `registry_program`: the first read is of the registry account, the program
/// address for the seed `authority`. `None` when no bump seed gives a valid address.
pub fn begin_fetch(authority: Address, registry_program: &Address) -> (r: Option<FetchStart>)
    ensures
        r is Some <==> program_address(seq![authority@], registry_program@) is Some,
        r matches Some(start) ==> start.authority == authority && start.registry_account@
            == program_address(seq![authority@], registry_program@).unwrap().0,
{
    match registry_address(&authority, registry_program) {
        Some(registry_account) => Some(FetchStart { authority, registry_account }),
        None => None,
    }
}

impl FetchStart {
    /// Goes on from the read of the registry account: a failed read (or decode)
    /// ends the fetch with its error; otherwise the next reads are of exactly the
    /// tables that the account's lookup slots name, in order.
    pub fn registry_read<E>(self, read: Result<(u8, Vec<RegistryEntry>), E>) -> (r: Result<
        TablesRequest,
        E,
    >)
        ensures
            read is Err ==> r is Err && r->Err_0 == read->Err_0,
            read is Ok ==> r is Ok && r->Ok_0.authority == self.authority && r->Ok_0.version
                == read->Ok_0.0 && r->Ok_0.entries@ == read->Ok_0.1@ && views(r->Ok_0.tables@)
                == lookup_entries(read->Ok_0.1@).map_values(|e: RegistryEntry| e.table@),
    {
        match read {
            Err(e) => Err(e),
            Ok((version, entries)) => {
                let tables = tables_to_fetch(entries.as_slice());
                Ok(TablesRequest { authority: self.authority, version, entries, tables })
            },
        }
    }
}

impl TablesRequest {
    /// Ends the fetch with the table accounts read (`accounts[k]` for `tables[k]`,
    /// `None` where no account exists): the registry of the readable tables.
    pub fn tables_read(self, accounts: &Vec<Option<Vec<u8>>>) -> (r: Registry)
        ensures
            r.authority == self.authority,
            r.version == self.version,
            r.tables@.map_values(|e: Entry| entry_view(e)) == fetched_tables(
                lookup_entries(self.entries@),
                accounts.deep_view(),
            ),
    {
        Registry::from_fetched(self.authority, self.version, self.entries.as_slice(), accounts)
    }
}

/// Whether slot `k` of `wanted` has an account that exists and reads as a lookup table.
pub open spec fn readable_slot(wanted: Seq<RegistryEntry>, accounts: Seq<Option<Seq<u8>>>, k: int) -> bool {
    &&& 0 <= k < wanted.len()
    &&& 0 <= k < accounts.len()
    &&& accounts[k] is Some
    &&& lookup_table_contents(accounts[k].unwrap()) is Some
}

/// The table that slot `k` gives: its kind, its table address and every address the
/// table account holds (none, or repeated ones, included).
pub open spec fn slot_table(wanted: Seq<RegistryEntry>, accounts: Seq<Option<Seq<u8>>>, k: int) -> (
    u64,
    Seq<u8>,
    Seq<Seq<u8>>,
) {
    (wanted[k].discriminator, wanted[k].table@, lookup_table_contents(accounts[k].unwrap()).unwrap())
}

/// How many of the first `n` slots are readable.
pub open spec fn readable_count(wanted: Seq<RegistryEntry>, accounts: Seq<Option<Seq<u8>>>, n: nat) -> nat
    decreases n,
{
    if n == 0 {
        0
    } else if readable_slot(wanted, accounts, n - 1) {
        readable_count(wanted, accounts, (n - 1) as nat) + 1
    } else {
        readable_count(wanted, accounts, (n - 1) as nat)
    }
}

/// Dropping the last account leaves the other slots as they were.
proof fn lemma_readable_prefix(wanted: Seq<RegistryEntry>, accounts: Seq<Option<Seq<u8>>>, n: nat)
    requires
        accounts.len() > 0,
        n <= accounts.len() - 1,
    ensures
        readable_count(wanted, accounts.drop_last(), n) == readable_count(wanted, accounts, n),
    decreases n,
{
    if n > 0 {
        lemma_readable_prefix(wanted, accounts, (n - 1) as nat);
        assert(accounts.drop_last()[n - 1] == accounts[n - 1]);
    }
}

/// Whether `tables` holds one table per readable slot: every readable slot gives
/// its table, whatever the table holds (even nothing), every table comes from a
/// readable slot, and there are as many tables as readable slots.
pub open spec fn one_per_readable_slot(
    tables: Seq<(u64, Seq<u8>, Seq<Seq<u8>>)>,
    wanted: Seq<RegistryEntry>,
    accounts: Seq<Option<Seq<u8>>>,
) -> bool {
    &&& tables.len() == readable_count(wanted, accounts, accounts.len())
    &&& forall|k: int|
        #[trigger] readable_slot(wanted, accounts, k) ==> exists|p: int|
            0 <= p < tables.len() && tables[p] == slot_table(wanted, accounts, k)
    &&& forall|p: int|
        0 <= p < tables.len() ==> exists|k: int|
            readable_slot(wanted, accounts, k) && #[trigger] tables[p] == slot_table(wanted, accounts, k)
}

/// The tables read from the accounts are exactly one per readable slot.
#[verifier::spinoff_prover]
pub proof fn law_every_readable_table_is_kept(
    wanted: Seq<RegistryEntry>,
    accounts: Seq<Option<Seq<u8>>>,
)
    ensures
        one_per_readable_slot(fetched_tables(wanted, accounts), wanted, accounts),
    decreases accounts.len(),
{
    if accounts.len() > 0 {
        let front = accounts.drop_last();
        let n = accounts.len() - 1;
        law_every_readable_table_is_kept(wanted, front);
        lemma_readable_prefix(wanted, accounts, n as nat);
        let ft = fetched_tables(wanted, accounts);
        let ff = fetched_tables(wanted, front);
        assert(accounts.last() == accounts[n]);
        assert(front.len() == n);
        if readable_slot(wanted, accounts, n) {
            assert(ft.len() == ff.len() + 1);
        } else {
            assert(ft.len() == ff.len());
        }
        assert(ft.len() == readable_count(wanted, accounts, accounts.len()));
        assert forall|k: int| #[trigger] readable_slot(wanted, accounts, k) implies exists|p: int|
            0 <= p < ft.len() && ft[p] == slot_table(wanted, accounts, k) by {
            if k < n {
                assert(front[k] == accounts[k]);
                assert(readable_slot(wanted, front, k));
                let p = choose|p: int| 0 <= p < ff.len() && ff[p] == slot_table(wanted, front, k);
                assert(ft[p] == ff[p]);
            } else {
                assert(ft[ff.len() as int] == slot_table(wanted, accounts, k));
            }
        }
        assert forall|p: int| 0 <= p < ft.len() implies exists|k: int|
            readable_slot(wanted, accounts, k) && #[trigger] ft[p] == slot_table(wanted, accounts, k) by {
            if p < ff.len() {
                assert(ft[p] == ff[p]);
                let k = choose|k: int| readable_slot(wanted, front, k) && ff[p] == slot_table(wanted, front, k);
                assert(front[k] == accounts[k]);
                assert(readable_slot(wanted, accounts, k));
            } else {
                assert(readable_slot(wanted, accounts, n));
            }
        }
    } else {
        assert(fetched_tables(wanted, accounts).len() == 0);
    }
}


/// How many slots have a kind above 1.
pub open spec fn count_kind_above_one(entries: Seq<RegistryEntry>) -> nat
    decreases entries.len(),
{
    if entries.len() == 0 {
        0
    } else if entries.last().discriminator > 1 {
        count_kind_above_one(entries.drop_last()) + 1
    } else {
        count_kind_above_one(entries.drop_last())
    }
}

/// The slots looked up are exactly the slots of kind above 1: each of them is
/// looked up, nothing else is, and there are as many as there are such slots.
pub proof fn law_lookup_slots_are_kinds_above_one(entries: Seq<RegistryEntry>)
    ensures
        lookup_entries(entries).len() == count_kind_above_one(entries),
        forall|m: int|
            0 <= m < lookup_entries(entries).len() ==> (#[trigger] lookup_entries(entries)[m]).discriminator
                > 1 && entries.contains(lookup_entries(entries)[m]),
        forall|i: int|
            0 <= i < entries.len() && (#[trigger] entries[i]).discriminator > 1 ==> lookup_entries(
                entries,
            ).contains(entries[i]),
    decreases entries.len(),
{
    if entries.len() > 0 {
        let front = entries.drop_last();
        let n = entries.len() - 1;
        law_lookup_slots_are_kinds_above_one(front);
        let le = lookup_entries(entries);
        let lf = lookup_entries(front);
        assert forall|m: int| 0 <= m < le.len() implies (#[trigger] le[m]).discriminator > 1
            && entries.contains(le[m]) by {
            if m < lf.len() {
                assert(le[m] == lf[m]);
                let i = choose|i: int| 0 <= i < front.len() && front[i] == lf[m];
                assert(entries[i] == front[i]);
            } else {
                assert(le[m] == entries[n]);
            }
        }
        assert forall|i: int| 0 <= i < entries.len() && (#[trigger] entries[i]).discriminator > 1 implies le.contains(
            entries[i],
        ) by {
            if i < n {
                assert(front[i] == entries[i]);
                let m = choose|m: int| 0 <= m < lf.len() && lf[m] == front[i];
                assert(le[m] == lf[m]);
            } else {
                assert(le[le.len() - 1] == entries[i]);
            }
        }
    }
}

} // verus!
