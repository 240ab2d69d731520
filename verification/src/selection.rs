use vstd::prelude::*;

use crate::address::{contains_address, lemma_prefix_step, view_set, views, Address};
use crate::instruction::{distinct_accounts, insert_unique, instructions_keys, Instruction};
use crate::registry::{Entry, Registry};

verus! {

/// What a search for lookup tables found.
#[derive(Clone, Debug)]
pub struct FindAddressesResult {
    /// The lookup tables chosen, in the order they were chosen.
    pub matches: Vec<Address>,
    /// How many distinct addresses the instructions use.
    pub distinct: usize,
    /// How many of those no chosen table covers.
    pub unmatched: usize,
}

/// The state of a search: the tables chosen so far, and the addresses not covered yet.
pub type SearchState = (Seq<Seq<u8>>, Set<Seq<u8>>);

/// The addresses of `table` among `remaining`.
pub open spec fn overlap_set(remaining: Set<Seq<u8>>, table: Entry) -> Set<Seq<u8>> {
    remaining.intersect(view_set(table.addresses@))
}

/// One step of the search: a table is chosen when it covers more than one
/// remaining address, and the addresses it covers are then no longer remaining.
pub open spec fn step(state: SearchState, table: Entry) -> SearchState {
    let inter = overlap_set(state.1, table);
    if inter.len() > 1 {
        (state.0.push(table.lookup_address@), state.1.difference(inter))
    } else {
        state
    }
}

/// The search over a list of tables, in order.
pub open spec fn run_tables(state: SearchState, tables: Seq<Entry>) -> SearchState
    decreases tables.len(),
{
    if tables.len() == 0 {
        state
    } else {
        step(run_tables(state, tables.drop_last()), tables.last())
    }
}

/// The search over the tables of each registry, registry by registry.
pub open spec fn run_registries(state: SearchState, regs: Seq<Registry>) -> SearchState
    decreases regs.len(),
{
    if regs.len() == 0 {
        state
    } else {
        run_tables(run_registries(state, regs.drop_last()), regs.last().tables@)
    }
}

/// The search for `instructions` over `regs`, starting from every address they use.
pub open spec fn selection(instructions: Seq<Instruction>, regs: Seq<Registry>) -> SearchState {
    run_registries((Seq::empty(), instructions_keys(instructions)), regs)
}

/// What a search result must be for `instructions` and `regs`.
pub open spec fn is_search_result(
    r: FindAddressesResult,
    instructions: Seq<Instruction>,
    regs: Seq<Registry>,
) -> bool {
    &&& views(r.matches@) == selection(instructions, regs).0
    &&& r.distinct == instructions_keys(instructions).len()
    &&& r.unmatched == selection(instructions, regs).1.len()
}

/// The addresses of `table` that are in `accounts`, each listed once.
pub fn overlap(accounts: &Vec<Address>, table: &Vec<Address>) -> (inter: Vec<Address>)
    requires
        views(accounts@).no_duplicates(),
    ensures
        views(inter@).no_duplicates(),
        view_set(inter@) == view_set(accounts@).intersect(view_set(table@)),
{
    let mut inter: Vec<Address> = Vec::new();
    if table.len() < accounts.len() {
        let mut i: usize = 0;
        while i < table.len()
            invariant
                i <= table.len(),
                views(accounts@).no_duplicates(),
                views(inter@).no_duplicates(),
                view_set(inter@) == view_set(accounts@).intersect(view_set(table@.take(i as int))),
            decreases table.len() - i,
        {
            let ghost before = view_set(inter@);
            if contains_address(accounts, &table[i]) {
                insert_unique(&mut inter, table[i]);
            }
            proof {
                lemma_prefix_step(table@, i as int);
                assert(view_set(inter@) =~= view_set(accounts@).intersect(view_set(table@.take(i + 1))));
            }
            i = i + 1;
        }
        assert(table@.take(i as int) =~= table@);
    } else {
        let mut i: usize = 0;
        while i < accounts.len()
            invariant
                i <= accounts.len(),
                views(accounts@).no_duplicates(),
                views(inter@).no_duplicates(),
                view_set(inter@) == view_set(accounts@.take(i as int)).intersect(view_set(table@)),
            decreases accounts.len() - i,
        {
            if contains_address(table, &accounts[i]) {
                insert_unique(&mut inter, accounts[i]);
            }
            proof {
                lemma_prefix_step(accounts@, i as int);
                assert(view_set(inter@) =~= view_set(accounts@.take(i + 1)).intersect(view_set(table@)));
            }
            i = i + 1;
        }
        assert(accounts@.take(i as int) =~= accounts@);
    }
    inter
}

/// The addresses of `s` that are not in `removed`, in the order of `s`.
pub open spec fn without(s: Seq<Seq<u8>>, removed: Set<Seq<u8>>) -> Seq<Seq<u8>>
    decreases s.len(),
{
    if s.len() == 0 {
        Seq::empty()
    } else if removed.contains(s.last()) {
        without(s.drop_last(), removed)
    } else {
        without(s.drop_last(), removed).push(s.last())
    }
}

/// The addresses of `accounts` that are not in `removed`, in order.
pub fn remove_all(accounts: &Vec<Address>, removed: &Vec<Address>) -> (rest: Vec<Address>)
    requires
        views(accounts@).no_duplicates(),
    ensures
        views(rest@) == without(views(accounts@), view_set(removed@)),
        views(rest@).no_duplicates(),
        view_set(rest@) == view_set(accounts@).difference(view_set(removed@)),
{
    let mut rest: Vec<Address> = Vec::new();
    let mut i: usize = 0;
    while i < accounts.len()
        invariant
            i <= accounts.len(),
            views(accounts@).no_duplicates(),
            views(rest@) == without(views(accounts@.take(i as int)), view_set(removed@)),
            views(rest@).no_duplicates(),
            view_set(rest@) == view_set(accounts@.take(i as int)).difference(view_set(removed@)),
        decreases accounts.len() - i,
    {
        let ghost prev = views(accounts@.take(i as int));
        let ghost before = views(rest@);
        let ghost x = accounts@[i as int]@;
        proof {
            lemma_prefix_step(accounts@, i as int);
            assert(views(accounts@.take(i + 1)).drop_last() =~= prev);
            assert(!prev.contains(x)) by {
                if prev.contains(x) {
                    let k = choose|k: int| 0 <= k < prev.len() && prev[k] == x;
                    assert(views(accounts@)[k] == views(accounts@)[i as int]);
                }
            }
        }
        if !contains_address(removed, &accounts[i]) {
            rest.push(accounts[i]);
            proof {
                assert(views(rest@) =~= before.push(x));
                before.lemma_push_to_set_commute(x);
                assert(!before.contains(x)) by {
                    if before.contains(x) {
                        assert(before.to_set().contains(x));
                    }
                }
                assert forall|a: int, b: int|
                    0 <= a < views(rest@).len() && 0 <= b < views(rest@).len() && a != b implies views(
                    rest@,
                )[a] != views(rest@)[b] by {
                    if a < before.len() && b < before.len() {
                    } else if a == before.len() {
                        assert(before.contains(views(rest@)[b]));
                    } else {
                        assert(before.contains(views(rest@)[a]));
                    }
                }
            }
        }
        proof {
            assert(view_set(rest@) =~= view_set(accounts@.take(i + 1)).difference(view_set(removed@)));
        }
        i = i + 1;
    }
    assert(accounts@.take(i as int) =~= accounts@);
    rest
}

/// One step of the search on concrete lists: chooses `table` when it covers more
/// than one of `accounts`, and then drops the addresses it covers.
pub fn apply_table(accounts: &mut Vec<Address>, matches: &mut Vec<Address>, table: &Entry)
    requires
        views(old(accounts)@).no_duplicates(),
    ensures
        views(final(accounts)@).no_duplicates(),
        (views(final(matches)@), view_set(final(accounts)@)) == step(
            (views(old(matches)@), view_set(old(accounts)@)),
            *table,
        ),
{
    let inter = overlap(accounts, &table.addresses);
    proof {
        views(inter@).unique_seq_to_set();
        assert(views(inter@).len() == inter@.len());
    }
    if inter.len() > 1 {
        let ghost before = views(matches@);
        matches.push(table.lookup_address);
        assert(views(matches@) =~= before.push(table.lookup_address@));
        let rest = remove_all(accounts, &inter);
        *accounts = rest;
    }
}

/// The search over the tables of one registry, on concrete lists.
pub fn apply_registry(accounts: &mut Vec<Address>, matches: &mut Vec<Address>, registry: &Registry)
    requires
        views(old(accounts)@).no_duplicates(),
    ensures
        views(final(accounts)@).no_duplicates(),
        (views(final(matches)@), view_set(final(accounts)@)) == run_tables(
            (views(old(matches)@), view_set(old(accounts)@)),
            registry.tables@,
        ),
{
    let ghost start: SearchState = (views(matches@), view_set(accounts@));
    let mut j: usize = 0;
    while j < registry.tables.len()
        invariant
            j <= registry.tables.len(),
            views(accounts@).no_duplicates(),
            (views(matches@), view_set(accounts@)) == run_tables(
                start,
                registry.tables@.take(j as int),
            ),
        decreases registry.tables.len() - j,
    {
        apply_table(accounts, matches, &registry.tables[j]);
        proof {
            let t = registry.tables@.take(j + 1);
            assert(t.drop_last() =~= registry.tables@.take(j as int));
            assert(t.last() == registry.tables@[j as int]);
        }
        j = j + 1;
    }
    assert(registry.tables@.take(j as int) =~= registry.tables@);
}

/// Chooses lookup tables for `instructions` among the tables of `registries`.
///
/// The tables are tried registry by registry and, within a registry, in table
/// order. A table is chosen when it holds more than one of the addresses that
/// no earlier chosen table holds; those addresses are then counted as covered.
pub fn find_addresses_in(instructions: &[Instruction], registries: &[Registry]) -> (r:
    FindAddressesResult)
    ensures
        is_search_result(r, instructions@, registries@),
{
    let mut accounts = distinct_accounts(instructions);
    proof {
        views(accounts@).unique_seq_to_set();
    }
    let distinct = accounts.len();
    let mut matches: Vec<Address> = Vec::new();
    let ghost start: SearchState = (views(matches@), view_set(accounts@));
    assert(start == (Seq::<Seq<u8>>::empty(), instructions_keys(instructions@)));
    let mut i: usize = 0;
    while i < registries.len()
        invariant
            i <= registries.len(),
            views(accounts@).no_duplicates(),
            (views(matches@), view_set(accounts@)) == run_registries(
                start,
                registries@.take(i as int),
            ),
        decreases registries.len() - i,
    {
        apply_registry(&mut accounts, &mut matches, &registries[i]);
        proof {
            let t = registries@.take(i + 1);
            assert(t.drop_last() =~= registries@.take(i as int));
            assert(t.last() == registries@[i as int]);
        }
        i = i + 1;
    }
    assert(registries@.take(i as int) =~= registries@);
    proof {
        views(accounts@).unique_seq_to_set();
    }
    FindAddressesResult { matches, distinct, unmatched: accounts.len() }
}

/// The addresses a list of instructions uses form a finite set.
pub proof fn lemma_instructions_keys_finite(ixs: Seq<Instruction>)
    ensures
        instructions_keys(ixs).finite(),
    decreases ixs.len(),
{
    if ixs.len() > 0 {
        lemma_instructions_keys_finite(ixs.drop_last());
        let ix = ixs.last();
        vstd::seq_lib::seq_to_set_is_finite(
            ix.accounts@.map_values(|m: crate::instruction::AccountMeta| m.pubkey@),
        );
    }
}

/// One step keeps the chosen tables as a prefix, only drops remaining addresses,
/// and drops at least two of them for the table it chooses.
proof fn lemma_step_shrinks(state: SearchState, table: Entry)
    requires
        state.1.finite(),
    ensures
        step(state, table).1.finite(),
        step(state, table).1.subset_of(state.1),
        step(state, table).0.len() >= state.0.len(),
        step(state, table).0.subrange(0, state.0.len() as int) == state.0,
        state.1.len() >= step(state, table).1.len() + 2 * (step(state, table).0.len()
            - state.0.len()),
{
    let inter = overlap_set(state.1, table);
    if inter.len() > 1 {
        vstd::set_lib::lemma_len_intersect(state.1, view_set(table.addresses@));
        assert(state.1.intersect(inter) =~= inter);
        vstd::set_lib::lemma_set_difference_len(state.1, inter);
        assert(state.0.push(table.lookup_address@).subrange(0, state.0.len() as int) =~= state.0);
    } else {
        assert(state.0.subrange(0, state.0.len() as int) =~= state.0);
    }
}

/// Searching a list of tables keeps the chosen tables as a prefix, only drops
/// remaining addresses, and drops at least two of them for each table it chooses.
pub proof fn lemma_run_tables_shrinks(state: SearchState, tables: Seq<Entry>)
    requires
        state.1.finite(),
    ensures
        run_tables(state, tables).1.finite(),
        run_tables(state, tables).1.subset_of(state.1),
        run_tables(state, tables).0.len() >= state.0.len(),
        run_tables(state, tables).0.subrange(0, state.0.len() as int) == state.0,
        state.1.len() >= run_tables(state, tables).1.len() + 2 * (run_tables(state, tables).0.len()
            - state.0.len()),
    decreases tables.len(),
{
    if tables.len() > 0 {
        let mid = run_tables(state, tables.drop_last());
        lemma_run_tables_shrinks(state, tables.drop_last());
        lemma_step_shrinks(mid, tables.last());
        let r = step(mid, tables.last());
        assert(r.0.subrange(0, state.0.len() as int) =~= mid.0.subrange(
            0,
            mid.0.len() as int,
        ).subrange(0, state.0.len() as int));
    } else {
        assert(state.0.subrange(0, state.0.len() as int) =~= state.0);
    }
}

/// Searching the registries keeps the chosen tables as a prefix, only drops
/// remaining addresses, and drops at least two of them for each table it chooses.
pub proof fn lemma_run_registries_shrinks(state: SearchState, regs: Seq<Registry>)
    requires
        state.1.finite(),
    ensures
        run_registries(state, regs).1.finite(),
        run_registries(state, regs).1.subset_of(state.1),
        run_registries(state, regs).0.len() >= state.0.len(),
        run_registries(state, regs).0.subrange(0, state.0.len() as int) == state.0,
        state.1.len() >= run_registries(state, regs).1.len() + 2 * (run_registries(
            state,
            regs,
        ).0.len() - state.0.len()),
    decreases regs.len(),
{
    if regs.len() > 0 {
        let mid = run_registries(state, regs.drop_last());
        lemma_run_registries_shrinks(state, regs.drop_last());
        lemma_run_tables_shrinks(mid, regs.last().tables@);
        let r = run_tables(mid, regs.last().tables@);
        assert(r.0.subrange(0, state.0.len() as int) =~= mid.0.subrange(
            0,
            mid.0.len() as int,
        ).subrange(0, state.0.len() as int));
    } else {
        assert(state.0.subrange(0, state.0.len() as int) =~= state.0);
    }
}

/// A subset meets a table in no more addresses than its superset does.
proof fn lemma_overlap_subset(small: Set<Seq<u8>>, big: Set<Seq<u8>>, table: Entry)
    requires
        big.finite(),
        small.subset_of(big),
    ensures
        overlap_set(small, table).len() <= overlap_set(big, table).len(),
{
    vstd::set_lib::lemma_len_intersect(big, view_set(table.addresses@));
    vstd::set_lib::lemma_len_subset(overlap_set(small, table), overlap_set(big, table));
}

/// After searching a list of tables, every one of them holds at most one of the
/// addresses that remain uncovered.
pub proof fn lemma_run_tables_maximal(state: SearchState, tables: Seq<Entry>)
    requires
        state.1.finite(),
    ensures
        forall|j: int|
            0 <= j < tables.len() ==> #[trigger] overlap_set(
                run_tables(state, tables).1,
                tables[j],
            ).len() <= 1,
    decreases tables.len(),
{
    if tables.len() > 0 {
        let front = tables.drop_last();
        let mid = run_tables(state, front);
        let t = tables.last();
        let r = step(mid, t);
        lemma_run_tables_maximal(state, front);
        lemma_run_tables_shrinks(state, front);
        lemma_step_shrinks(mid, t);
        assert forall|j: int| 0 <= j < tables.len() implies #[trigger] overlap_set(
            r.1,
            tables[j],
        ).len() <= 1 by {
            if j == tables.len() - 1 {
                let inter = overlap_set(mid.1, t);
                if inter.len() > 1 {
                    assert(overlap_set(r.1, t) =~= Set::empty());
                }
            } else {
                assert(tables[j] == front[j]);
                lemma_overlap_subset(r.1, mid.1, front[j]);
            }
        }
    }
}

/// After searching the registries, every table of every registry holds at most
/// one of the addresses that remain uncovered.
pub proof fn lemma_run_registries_maximal(state: SearchState, regs: Seq<Registry>)
    requires
        state.1.finite(),
    ensures
        forall|i: int, j: int|
            0 <= i < regs.len() && 0 <= j < regs[i].tables@.len() ==> #[trigger] overlap_set(
                run_registries(state, regs).1,
                regs[i].tables@[j],
            ).len() <= 1,
    decreases regs.len(),
{
    if regs.len() > 0 {
        let front = regs.drop_last();
        let mid = run_registries(state, front);
        let r = run_tables(mid, regs.last().tables@);
        lemma_run_registries_maximal(state, front);
        lemma_run_registries_shrinks(state, front);
        lemma_run_tables_shrinks(mid, regs.last().tables@);
        lemma_run_tables_maximal(mid, regs.last().tables@);
        assert forall|i: int, j: int|
            0 <= i < regs.len() && 0 <= j < regs[i].tables@.len() implies #[trigger] overlap_set(
            r.1,
            regs[i].tables@[j],
        ).len() <= 1 by {
            if i < regs.len() - 1 {
                assert(regs[i] == front[i]);
                lemma_overlap_subset(r.1, mid.1, front[i].tables@[j]);
            }
        }
    }
}

/// Every table chosen by a search over a list of tables is one of those tables.
pub proof fn lemma_run_tables_chosen(state: SearchState, tables: Seq<Entry>)
    ensures
        run_tables(state, tables).0.len() >= state.0.len(),
        forall|k: int| 0 <= k < state.0.len() ==> run_tables(state, tables).0[k] == state.0[k],
        forall|k: int|
            state.0.len() <= k < run_tables(state, tables).0.len() ==> exists|j: int|
                0 <= j < tables.len() && #[trigger] run_tables(state, tables).0[k]
                    == tables[j].lookup_address@,
    decreases tables.len(),
{
    if tables.len() > 0 {
        let front = tables.drop_last();
        let mid = run_tables(state, front);
        lemma_run_tables_chosen(state, front);
        let r = step(mid, tables.last());
        assert forall|k: int| state.0.len() <= k < r.0.len() implies exists|j: int|
            0 <= j < tables.len() && #[trigger] r.0[k] == tables[j].lookup_address@ by {
            if k < mid.0.len() {
                let j = choose|j: int| 0 <= j < front.len() && mid.0[k] == front[j].lookup_address@;
                assert(tables[j] == front[j]);
                assert(r.0[k] == mid.0[k]);
            } else {
                assert(r.0[k] == tables[tables.len() - 1].lookup_address@);
            }
        }
    }
}

/// Every table chosen by a search over the registries is a table of one of them.
pub proof fn lemma_run_registries_chosen(state: SearchState, regs: Seq<Registry>)
    ensures
        run_registries(state, regs).0.len() >= state.0.len(),
        forall|k: int|
            0 <= k < state.0.len() ==> run_registries(state, regs).0[k] == state.0[k],
        forall|k: int|
            state.0.len() <= k < run_registries(state, regs).0.len() ==> exists|i: int, j: int|
                0 <= i < regs.len() && 0 <= j < regs[i].tables@.len() && #[trigger] run_registries(
                    state,
                    regs,
                ).0[k] == regs[i].tables@[j].lookup_address@,
    decreases regs.len(),
{
    if regs.len() > 0 {
        let front = regs.drop_last();
        let mid = run_registries(state, front);
        let last = regs.last();
        lemma_run_registries_chosen(state, front);
        lemma_run_tables_chosen(mid, last.tables@);
        let r = run_tables(mid, last.tables@);
        assert forall|k: int| state.0.len() <= k < r.0.len() implies exists|i: int, j: int|
            0 <= i < regs.len() && 0 <= j < regs[i].tables@.len() && #[trigger] r.0[k]
                == regs[i].tables@[j].lookup_address@ by {
            if k < mid.0.len() {
                let (i, j) = choose|i: int, j: int|
                    0 <= i < front.len() && 0 <= j < front[i].tables@.len() && mid.0[k]
                        == front[i].tables@[j].lookup_address@;
                assert(regs[i] == front[i]);
            } else {
                let j = choose|j: int|
                    0 <= j < last.tables@.len() && r.0[k] == last.tables@[j].lookup_address@;
                assert(regs[regs.len() - 1] == last);
            }
        }
    }
}

/// The uncovered addresses are among the addresses the instructions use, and each
/// chosen table covers at least two addresses that no earlier chosen table covers:
/// `distinct >= unmatched + 2 * (number of tables chosen)`.
pub proof fn law_each_choice_covers_two(instructions: Seq<Instruction>, regs: Seq<Registry>)
    ensures
        selection(instructions, regs).1.subset_of(instructions_keys(instructions)),
        instructions_keys(instructions).len() >= selection(instructions, regs).1.len() + 2
            * selection(instructions, regs).0.len(),
{
    lemma_instructions_keys_finite(instructions);
    lemma_run_registries_shrinks((Seq::empty(), instructions_keys(instructions)), regs);
}

/// The search leaves no useful table unchosen: once it is done, every table of
/// every registry holds at most one of the addresses that remain uncovered.
pub proof fn law_no_useful_table_left(instructions: Seq<Instruction>, regs: Seq<Registry>)
    ensures
        forall|i: int, j: int|
            0 <= i < regs.len() && 0 <= j < regs[i].tables@.len() ==> #[trigger] overlap_set(
                selection(instructions, regs).1,
                regs[i].tables@[j],
            ).len() <= 1,
{
    lemma_instructions_keys_finite(instructions);
    lemma_run_registries_maximal((Seq::empty(), instructions_keys(instructions)), regs);
}

/// Whether `a` is the lookup address of some table of some registry in `regs`.
pub open spec fn is_registered(a: Seq<u8>, regs: Seq<Registry>) -> bool {
    exists|i: int, j: int|
        0 <= i < regs.len() && 0 <= j < regs[i].tables@.len() && a
            == #[trigger] regs[i].tables@[j].lookup_address@
}

/// Every chosen lookup table is the lookup address of a table of one of the registries.
pub proof fn law_chosen_tables_are_registered(instructions: Seq<Instruction>, regs: Seq<Registry>)
    ensures
        forall|k: int|
            0 <= k < selection(instructions, regs).0.len() ==> is_registered(
                #[trigger] selection(instructions, regs).0[k],
                regs,
            ),
{
    let start: SearchState = (Seq::empty(), instructions_keys(instructions));
    lemma_run_registries_chosen(start, regs);
    let r = run_registries(start, regs);
    assert forall|k: int| 0 <= k < r.0.len() implies is_registered(#[trigger] r.0[k], regs) by {
        assert(start.0.len() <= k < r.0.len());
        let (i, j) = choose|i: int, j: int|
            0 <= i < regs.len() && 0 <= j < regs[i].tables@.len() && r.0[k]
                == regs[i].tables@[j].lookup_address@;
        assert(r.0[k] == regs[i].tables@[j].lookup_address@);
    }
}

/// Two searches over the same registries for instructions that use the same set of
/// addresses agree: order, repetition, flags and data of the instructions play no part.
pub proof fn law_depends_only_on_addresses(
    instructions1: Seq<Instruction>,
    instructions2: Seq<Instruction>,
    regs: Seq<Registry>,
    r1: FindAddressesResult,
    r2: FindAddressesResult,
)
    requires
        instructions_keys(instructions1) == instructions_keys(instructions2),
        is_search_result(r1, instructions1, regs),
        is_search_result(r2, instructions2, regs),
    ensures
        selection(instructions1, regs) == selection(instructions2, regs),
        views(r1.matches@) == views(r2.matches@),
        r1.distinct == r2.distinct,
        r1.unmatched == r2.unmatched,
{
}

/// Tables that each hold at most one remaining address leave the search unchanged.
proof fn lemma_unhelpful_tables_change_nothing(state: SearchState, tables: Seq<Entry>)
    requires
        forall|j: int| 0 <= j < tables.len() ==> #[trigger] overlap_set(state.1, tables[j]).len() <= 1,
    ensures
        run_tables(state, tables) == state,
    decreases tables.len(),
{
    if tables.len() > 0 {
        let front = tables.drop_last();
        assert forall|j: int| 0 <= j < front.len() implies #[trigger] overlap_set(state.1, front[j]).len()
            <= 1 by {
            assert(front[j] == tables[j]);
        }
        lemma_unhelpful_tables_change_nothing(state, front);
        assert(overlap_set(state.1, tables[tables.len() - 1]).len() <= 1);
    }
}

/// Searching the tables of a registry a second time, after the search over all the
/// registries, chooses nothing more and covers nothing more.
pub proof fn law_repeated_registry_adds_nothing(
    instructions: Seq<Instruction>,
    regs: Seq<Registry>,
    i: int,
)
    requires
        0 <= i < regs.len(),
    ensures
        selection(instructions, regs.push(regs[i])) == selection(instructions, regs),
{
    let start: SearchState = (Seq::empty(), instructions_keys(instructions));
    let more = regs.push(regs[i]);
    assert(more.drop_last() =~= regs);
    law_no_useful_table_left(instructions, regs);
    let done = selection(instructions, regs);
    assert forall|j: int| 0 <= j < regs[i].tables@.len() implies #[trigger] overlap_set(
        done.1,
        regs[i].tables@[j],
    ).len() <= 1 by {
    }
    lemma_unhelpful_tables_change_nothing(done, regs[i].tables@);
}

} // verus!
