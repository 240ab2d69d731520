use vstd::prelude::*;

use crate::address::{contains_address, view_set, views, Address};

verus! {

/// An account that an instruction reads or writes.
#[derive(Clone, Copy, Debug)]
pub struct AccountMeta {
    pub pubkey: Address,
    pub is_signer: bool,
    pub is_writable: bool,
}

/// A program instruction: the program it calls, the accounts it uses and its data.
#[derive(Clone, Debug)]
pub struct Instruction {
    pub program_id: Address,
    pub accounts: Vec<AccountMeta>,
    pub data: Vec<u8>,
}

/// The keys of a list of account metas, in order.
pub open spec fn meta_keys(metas: Seq<AccountMeta>) -> Seq<Seq<u8>> {
    metas.map_values(|m: AccountMeta| m.pubkey@)
}

/// The distinct addresses one instruction uses: its program and its accounts.
pub open spec fn instruction_keys(ix: Instruction) -> Set<Seq<u8>> {
    meta_keys(ix.accounts@).to_set().insert(ix.program_id@)
}

/// The distinct addresses that a list of instructions uses.
pub open spec fn instructions_keys(ixs: Seq<Instruction>) -> Set<Seq<u8>>
    decreases ixs.len(),
{
    if ixs.len() == 0 {
        Set::empty()
    } else {
        instructions_keys(ixs.drop_last()).union(instruction_keys(ixs.last()))
    }
}

/// Adds `a` to a list of distinct addresses unless it is already there.
pub fn insert_unique(v: &mut Vec<Address>, a: Address)
    requires
        views(old(v)@).no_duplicates(),
    ensures
        views(final(v)@).no_duplicates(),
        view_set(final(v)@) == view_set(old(v)@).insert(a@),
{
    if !contains_address(v, &a) {
        let ghost before = views(v@);
        v.push(a);
        proof {
            assert(views(v@) =~= before.push(a@));
            assert forall|i: int, j: int|
                0 <= i < views(v@).len() && 0 <= j < views(v@).len() && i != j implies views(
                v@,
            )[i] != views(v@)[j] by {
                if i < before.len() && j < before.len() {
                    assert(before[i] != before[j]);
                } else if i == before.len() {
                    assert(views(v@)[j] == before[j]);
                    assert(before.contains(before[j]));
                } else {
                    assert(views(v@)[i] == before[i]);
                    assert(before.contains(before[i]));
                }
            }
            before.lemma_push_to_set_commute(a@);
            assert(view_set(v@) =~= view_set(old(v)@).insert(a@));
        }
    } else {
        assert(view_set(v@) =~= view_set(v@).insert(a@));
    }
}

/// The distinct addresses used by `instructions`, each listed once.
pub fn distinct_accounts(instructions: &[Instruction]) -> (accounts: Vec<Address>)
    ensures
        views(accounts@).no_duplicates(),
        view_set(accounts@) == instructions_keys(instructions@),
        forall|k: Seq<u8>| #[trigger] view_set(accounts@).contains(k) <==> named_by(instructions@, k),
{
    proof {
        law_keys_are_all_named_addresses(instructions@);
    }
    let mut accounts: Vec<Address> = Vec::new();
    let mut i: usize = 0;
    while i < instructions.len()
        invariant
            i <= instructions.len(),
            views(accounts@).no_duplicates(),
            view_set(accounts@) == instructions_keys(instructions@.take(i as int)),
        decreases instructions.len() - i,
    {
        let ix = &instructions[i];
        let ghost base = view_set(accounts@);
        insert_unique(&mut accounts, ix.program_id);
        let mut j: usize = 0;
        while j < ix.accounts.len()
            invariant
                j <= ix.accounts.len(),
                views(accounts@).no_duplicates(),
                view_set(accounts@) == base.insert(ix.program_id@).union(
                    meta_keys(ix.accounts@.take(j as int)).to_set(),
                ),
            decreases ix.accounts.len() - j,
        {
            let ghost prev = meta_keys(ix.accounts@.take(j as int));
            insert_unique(&mut accounts, ix.accounts[j].pubkey);
            proof {
                let next = meta_keys(ix.accounts@.take(j + 1));
                assert(next =~= prev.push(ix.accounts@[j as int].pubkey@));
                prev.lemma_push_to_set_commute(ix.accounts@[j as int].pubkey@);
                assert(view_set(accounts@) =~= base.insert(ix.program_id@).union(next.to_set()));
            }
            j = j + 1;
        }
        proof {
            assert(ix.accounts@.take(j as int) =~= ix.accounts@);
            assert(instructions@.take(i + 1).drop_last() =~= instructions@.take(i as int));
            assert(instructions@.take(i + 1).last() == *ix);
            assert(view_set(accounts@) =~= instructions_keys(instructions@.take(i + 1)));
        }
        i = i + 1;
    }
    assert(instructions@.take(i as int) =~= instructions@);
    accounts
}

/// Whether `ix` names `k`: as its program, or as the key of one of its accounts,
/// whatever that account's flags.
pub open spec fn names(ix: Instruction, k: Seq<u8>) -> bool {
    ix.program_id@ == k || exists|j: int|
        0 <= j < ix.accounts@.len() && (#[trigger] ix.accounts@[j]).pubkey@ == k
}

/// Whether one of the instructions names `k`.
pub open spec fn named_by(ixs: Seq<Instruction>, k: Seq<u8>) -> bool {
    exists|i: int| 0 <= i < ixs.len() && #[trigger] names(ixs[i], k)
}

/// The addresses the instructions use are exactly the programs they call and the
/// keys of all their accounts, signers or not.
pub proof fn law_keys_are_all_named_addresses(ixs: Seq<Instruction>)
    ensures
        forall|k: Seq<u8>| #[trigger] instructions_keys(ixs).contains(k) <==> named_by(ixs, k),
    decreases ixs.len(),
{
    if ixs.len() > 0 {
        let front = ixs.drop_last();
        let last = ixs.last();
        let n = ixs.len() - 1;
        law_keys_are_all_named_addresses(front);
        assert forall|k: Seq<u8>| #[trigger] instructions_keys(ixs).contains(k) <==> named_by(ixs, k) by {
            let m = meta_keys(last.accounts@);
            if instructions_keys(front).contains(k) {
                let i = choose|i: int| 0 <= i < front.len() && #[trigger] names(front[i], k);
                assert(ixs[i] == front[i]);
                assert(names(ixs[i], k));
            }
            if instruction_keys(last).contains(k) {
                if k != last.program_id@ {
                    let j = choose|j: int| 0 <= j < m.len() && m[j] == k;
                    assert(last.accounts@[j].pubkey@ == k);
                }
                assert(names(ixs[n], k));
            }
            if named_by(ixs, k) {
                let i = choose|i: int| 0 <= i < ixs.len() && #[trigger] names(ixs[i], k);
                if i < n {
                    assert(front[i] == ixs[i]);
                    assert(names(front[i], k));
                    assert(named_by(front, k));
                } else if last.program_id@ != k {
                    let j = choose|j: int|
                        0 <= j < last.accounts@.len() && (#[trigger] last.accounts@[j]).pubkey@ == k;
                    assert(m[j] == k);
                    assert(m.contains(k));
                }
            }
        }
    }
}

} // verus!
