use vstd::prelude::*;

use crate::address::{view_set, views, Address};
use crate::cache::{stored_lifetimes, stored_registries, RegistryCache};
use crate::instruction::{distinct_accounts, instructions_keys, Instruction};
use crate::registry::Registry;
use crate::selection::{
    apply_registry, is_search_result, law_repeated_registry_adds_nothing, run_registries,
    selection, FindAddressesResult, SearchState,
};

verus! {

/// How long a fetched registry stays in the cache, in seconds.
pub const REGISTRY_TTL_SECS: u64 = 3600;

/// The authorities whose registry could not be fetched, in order.
pub open spec fn failed_authorities(authorities: Seq<Address>, fetched: Seq<Option<Registry>>) -> Seq<
    Seq<u8>,
>
    decreases authorities.len(),
{
    if authorities.len() == 0 {
        Seq::empty()
    } else {
        let front = failed_authorities(authorities.drop_last(), fetched);
        if fetched[authorities.len() - 1] is None {
            front.push(authorities.last()@)
        } else {
            front
        }
    }
}

/// The registry fetched last for the authority with bytes `k`, if any fetch for it
/// succeeded (`fetched[i]` is what was fetched for `authorities[i]`).
pub open spec fn latest_fetch(
    authorities: Seq<Address>,
    fetched: Seq<Option<Registry>>,
    k: Seq<u8>,
) -> Option<Registry>
    decreases authorities.len(),
{
    if authorities.len() == 0 {
        None
    } else if authorities.last()@ == k && fetched[authorities.len() - 1] is Some {
        fetched[authorities.len() - 1]
    } else {
        latest_fetch(authorities.drop_last(), fetched, k)
    }
}

/// Whether position `i` holds the last registry that was fetched.
pub open spec fn is_final_fetch(fetched: Seq<Option<Registry>>, i: int) -> bool {
    &&& 0 <= i < fetched.len()
    &&& fetched[i] is Some
    &&& forall|j: int| i < j < fetched.len() ==> #[trigger] fetched[j] is None
}

/// The registries that were found, in order.
pub open spec fn found_registries(found: Seq<Option<Registry>>) -> Seq<Registry>
    decreases found.len(),
{
    if found.len() == 0 {
        Seq::empty()
    } else {
        match found.last() {
            Some(r) => found_registries(found.drop_last()).push(r),
            None => found_registries(found.drop_last()),
        }
    }
}

/// A client that caches the registries of authorities and chooses lookup tables
/// for instructions from them.
pub struct LookupRegistryClient {
    cache: RegistryCache,
}

impl LookupRegistryClient {
    /// The registries the client's cache stores, by authority bytes.
    pub closed spec fn registries(&self) -> Map<Seq<u8>, Registry> {
        stored_registries(self.cache)
    }

    /// The lifetime, in seconds, each stored registry was given when it was stored.
    pub closed spec fn lifetimes(&self) -> Map<Seq<u8>, u64> {
        stored_lifetimes(self.cache)
    }

    /// A client with an empty cache.
    pub fn new() -> (c: LookupRegistryClient)
        ensures
            c.registries().dom().is_empty(),
    {
        LookupRegistryClient { cache: RegistryCache::new() }
    }

    /// Stores the registries fetched for `authorities` (`fetched[i]` for
    /// `authorities[i]`, `None` where fetching failed) for `REGISTRY_TTL_SECS`
    /// seconds each, in order, and returns the authorities whose registry could not
    /// be fetched.
    ///
    /// A registry stored by this call may already have been reclaimed by a later
    /// insertion of the same call if it expired in between, which depends on the
    /// clock; the last registry stored is always there.
    pub fn update_registries(&mut self, authorities: &[Address], fetched: Vec<Option<Registry>>) -> (errors: Vec<Address>)
        requires
            authorities.len() == fetched.len(),
        ensures
            views(errors@) == failed_authorities(authorities@, fetched@),
            lists_failures(views(errors@), authorities@, fetched@),
            forall|i: int|
                #[trigger] is_final_fetch(fetched@, i) ==> final(self).registries().contains_key(
                    authorities@[i]@,
                ) && final(self).registries()[authorities@[i]@] == fetched@[i].unwrap(),
            forall|k: Seq<u8>| #[trigger]
                final(self).registries().contains_key(k) ==> match latest_fetch(
                    authorities@,
                    fetched@,
                    k,
                ) {
                    Some(reg) => final(self).registries()[k] == reg && final(self).lifetimes()[k]
                        == REGISTRY_TTL_SECS,
                    None => old(self).registries().contains_key(k) && final(self).registries()[k]
                        == old(self).registries()[k] && final(self).lifetimes()[k] == old(
                        self,
                    ).lifetimes()[k],
                },
    {
        let mut errors: Vec<Address> = Vec::new();
        let ghost all = fetched@;
        let ghost start = self.registries();
        let ghost start_life = self.lifetimes();
        let mut i: usize = 0;
        for item in it: fetched.into_iter()
            invariant
                i == it.index(),
                it.seq() == all,
                all.len() == authorities.len(),
                views(errors@) == failed_authorities(authorities@.take(i as int), all),
                forall|a: int|
                    #[trigger] is_final_fetch(all.take(i as int), a) ==> self.registries().contains_key(
                        authorities@[a]@,
                    ) && self.registries()[authorities@[a]@] == all[a].unwrap(),
                forall|k: Seq<u8>| #[trigger]
                    self.registries().contains_key(k) ==> match latest_fetch(
                        authorities@.take(i as int),
                        all,
                        k,
                    ) {
                        Some(reg) => self.registries()[k] == reg && self.lifetimes()[k]
                            == REGISTRY_TTL_SECS,
                        None => start.contains_key(k) && self.registries()[k] == start[k]
                            && self.lifetimes()[k] == start_life[k],
                    },
        {
            let ghost before = self.registries();
            let ghost before_life = self.lifetimes();
            let ghost before_errors = views(errors@);
            assert(item == all[i as int]);
            match item {
                Some(registry) => {
                    self.cache.insert(authorities[i], registry, REGISTRY_TTL_SECS);
                },
                None => {
                    errors.push(authorities[i]);
                },
            }
            proof {
                let after = self.registries();
                let prefix = authorities@.take(i + 1);
                assert(prefix.drop_last() =~= authorities@.take(i as int));
                assert(prefix.last() == authorities@[i as int]);
                assert forall|a: int| #[trigger] is_final_fetch(all.take(i + 1), a) implies after.contains_key(
                    authorities@[a]@,
                ) && after[authorities@[a]@] == all[a].unwrap() by {
                    if a < i {
                        assert(all.take(i + 1)[i as int] is None);
                        assert forall|j: int| a < j < i implies #[trigger] all.take(i as int)[j] is None by {
                            assert(all.take(i + 1)[j] is None);
                        }
                        assert(is_final_fetch(all.take(i as int), a));
                    }
                }
                assert forall|k: Seq<u8>| #[trigger] after.contains_key(k) implies match latest_fetch(
                    prefix,
                    all,
                    k,
                ) {
                    Some(reg) => after[k] == reg && self.lifetimes()[k] == REGISTRY_TTL_SECS,
                    None => start.contains_key(k) && after[k] == start[k] && self.lifetimes()[k]
                        == start_life[k],
                } by {
                    if !(authorities@[i as int]@ == k && all[i as int] is Some) {
                        assert(latest_fetch(prefix, all, k) == latest_fetch(
                            authorities@.take(i as int),
                            all,
                            k,
                        ));
                        assert(before.contains_key(k));
                    }
                }
                if all[i as int] is None {
                    assert(views(errors@) =~= before_errors.push(authorities@[i as int]@));
                }
            }
            i = i + 1;
        }
        assert(authorities@.take(i as int) =~= authorities@);
        assert(all.take(i as int) =~= all);
        proof {
            law_failed_authorities_are_the_failed_fetches(authorities@, all);
        }
        errors
    }

    /// Whether `found` is a possible outcome of looking `authorities` up in the
    /// cache: position `i` is `None`, or the registry stored under `authorities[i]`.
    pub open spec fn agrees_with_cache(
        &self,
        authorities: Seq<Address>,
        found: Seq<Option<Registry>>,
    ) -> bool {
        &&& found.len() == authorities.len()
        &&& forall|i: int|
            0 <= i < found.len() && #[trigger] found[i] is Some ==> self.registries().contains_key(
                authorities[i]@,
            ) && self.registries()[authorities[i]@] == found[i].unwrap()
    }

    /// Chooses lookup tables for `instructions` among the tables of the cached
    /// registries of `authorities`, tried authority by authority.
    ///
    /// Which registries the cache still hands out depends on the clock, so the
    /// result is the search over the registries found for some outcome of the
    /// lookups: each authority either has no registry or its stored one.
    pub fn find_addresses(&self, instructions: &[Instruction], authorities: &[Address]) -> (r:
        FindAddressesResult)
        ensures
            r.distinct == instructions_keys(instructions@).len(),
            exists|found: Seq<Option<Registry>>|
                self.agrees_with_cache(authorities@, found) && #[trigger] is_search_result(
                    r,
                    instructions@,
                    found_registries(found),
                ),
    {
        let mut accounts = distinct_accounts(instructions);
        proof {
            views(accounts@).unique_seq_to_set();
        }
        let distinct = accounts.len();
        let mut matches: Vec<Address> = Vec::new();
        let ghost start: SearchState = (views(matches@), view_set(accounts@));
        assert(start == (Seq::<Seq<u8>>::empty(), instructions_keys(instructions@)));
        let ghost mut found: Seq<Option<Registry>> = Seq::empty();
        let mut i: usize = 0;
        while i < authorities.len()
            invariant
                i <= authorities.len(),
                self.agrees_with_cache(authorities@.take(i as int), found),
                views(accounts@).no_duplicates(),
                (views(matches@), view_set(accounts@)) == run_registries(
                    start,
                    found_registries(found),
                ),
            decreases authorities.len() - i,
        {
            let ghost prev = found;
            match self.cache.get(&authorities[i]) {
                Some(registry) => {
                    apply_registry(&mut accounts, &mut matches, registry);
                    proof {
                        found = found.push(Some(*registry));
                        assert(found.drop_last() =~= prev);
                        assert(found_registries(found).drop_last() =~= found_registries(prev));
                    }
                },
                None => {
                    proof {
                        found = found.push(None);
                        assert(found.drop_last() =~= prev);
                    }
                },
            }
            proof {
                assert(authorities@.take(i + 1).drop_last() =~= authorities@.take(i as int));
                assert forall|k: int|
                    0 <= k < found.len() && #[trigger] found[k] is Some implies self.registries().contains_key(
                    authorities@.take(i + 1)[k]@,
                ) && self.registries()[authorities@.take(i + 1)[k]@] == found[k].unwrap() by {
                    if k < i {
                        assert(found[k] == prev[k]);
                        assert(authorities@.take(i + 1)[k] == authorities@.take(i as int)[k]);
                    }
                }
            }
            i = i + 1;
        }
        assert(authorities@.take(i as int) =~= authorities@);
        proof {
            views(accounts@).unique_seq_to_set();
        }
        let r = FindAddressesResult { matches, distinct, unmatched: accounts.len() };
        assert(is_search_result(r, instructions@, found_registries(found)));
        r
    }
}

/// A registry that was found is among the found registries.
proof fn lemma_found_is_listed(found: Seq<Option<Registry>>, j: int)
    requires
        0 <= j < found.len(),
        found[j] is Some,
    ensures
        exists|m: int|
            0 <= m < found_registries(found).len() && #[trigger] found_registries(found)[m]
                == found[j].unwrap(),
    decreases found.len(),
{
    let front = found.drop_last();
    if j < found.len() - 1 {
        lemma_found_is_listed(front, j);
        assert(front[j] == found[j]);
        let m = choose|m: int|
            0 <= m < found_registries(front).len() && found_registries(front)[m] == front[j].unwrap();
        assert(found_registries(found)[m] == found_registries(front)[m]);
    } else {
        let m = found_registries(found).len() - 1;
        assert(found_registries(found)[m] == found[j].unwrap());
    }
}

/// Looking up an authority once more, after the others, adds no match: when the
/// repeated lookup finds nothing, or finds a registry already found for it (or for
/// any other position), the search comes out the same.
pub proof fn law_repeated_lookup_adds_nothing(
    instructions: Seq<Instruction>,
    found: Seq<Option<Registry>>,
    j: int,
    again: Option<Registry>,
)
    requires
        0 <= j < found.len(),
        again is None || again == found[j],
    ensures
        selection(instructions, found_registries(found.push(again))) == selection(
            instructions,
            found_registries(found),
        ),
{
    let more = found.push(again);
    assert(more.drop_last() =~= found);
    if let Some(reg) = again {
        lemma_found_is_listed(found, j);
        let regs = found_registries(found);
        let m = choose|m: int| 0 <= m < regs.len() && #[trigger] regs[m] == found[j].unwrap();
        assert(found_registries(more) == regs.push(regs[m]));
        law_repeated_registry_adds_nothing(instructions, regs, m);
    }
}

/// Whether `errors` lists, in order and once each, the authorities at exactly the
/// positions whose fetch failed: `idx[m]` is the position of `errors[m]`.
pub open spec fn lists_failures_at(
    errors: Seq<Seq<u8>>,
    authorities: Seq<Address>,
    fetched: Seq<Option<Registry>>,
    idx: Seq<int>,
) -> bool {
    &&& idx.len() == errors.len()
    &&& forall|m: int|
        0 <= m < idx.len() ==> 0 <= #[trigger] idx[m] < authorities.len() && fetched[idx[m]] is None
            && errors[m] == authorities[idx[m]]@
    &&& forall|m1: int, m2: int| 0 <= m1 < m2 < idx.len() ==> #[trigger] idx[m1] < #[trigger] idx[m2]
    &&& forall|i: int|
        0 <= i < authorities.len() && #[trigger] fetched[i] is None ==> exists|m: int|
            0 <= m < idx.len() && idx[m] == i
}

/// Whether `errors` lists exactly the authorities whose fetch failed, in order.
pub open spec fn lists_failures(
    errors: Seq<Seq<u8>>,
    authorities: Seq<Address>,
    fetched: Seq<Option<Registry>>,
) -> bool {
    exists|idx: Seq<int>| lists_failures_at(errors, authorities, fetched, idx)
}

/// The failed authorities are exactly those whose fetch returned nothing, in order:
/// an authority whose fetch returned a registry is never listed, whatever that
/// registry holds.
pub proof fn law_failed_authorities_are_the_failed_fetches(
    authorities: Seq<Address>,
    fetched: Seq<Option<Registry>>,
)
    requires
        authorities.len() <= fetched.len(),
    ensures
        lists_failures(failed_authorities(authorities, fetched), authorities, fetched),
    decreases authorities.len(),
{
    let errors = failed_authorities(authorities, fetched);
    if authorities.len() == 0 {
        assert(lists_failures_at(errors, authorities, fetched, Seq::empty()));
    } else {
        let front = authorities.drop_last();
        let n = authorities.len() - 1;
        law_failed_authorities_are_the_failed_fetches(front, fetched);
        let fe = failed_authorities(front, fetched);
        let idx0 = choose|idx: Seq<int>| lists_failures_at(fe, front, fetched, idx);
        if fetched[n] is None {
            let idx = idx0.push(n);
            assert forall|m: int| 0 <= m < idx.len() implies 0 <= #[trigger] idx[m] < authorities.len()
                && fetched[idx[m]] is None && errors[m] == authorities[idx[m]]@ by {
                if m < idx0.len() {
                    assert(idx[m] == idx0[m]);
                    assert(front[idx0[m]] == authorities[idx0[m]]);
                }
            }
            assert forall|m1: int, m2: int| 0 <= m1 < m2 < idx.len() implies #[trigger] idx[m1]
                < #[trigger] idx[m2] by {
                assert(idx[m1] == idx0[m1]);
                if m2 < idx0.len() {
                    assert(idx[m2] == idx0[m2]);
                }
            }
            assert forall|i: int| 0 <= i < authorities.len() && #[trigger] fetched[i] is None implies exists|m: int|
                0 <= m < idx.len() && idx[m] == i by {
                if i < n {
                    let m = choose|m: int| 0 <= m < idx0.len() && idx0[m] == i;
                    assert(idx[m] == i);
                } else {
                    assert(idx[idx0.len() as int] == i);
                }
            }
            assert(lists_failures_at(errors, authorities, fetched, idx));
        } else {
            assert forall|m: int| 0 <= m < idx0.len() implies 0 <= #[trigger] idx0[m] < authorities.len()
                && fetched[idx0[m]] is None && errors[m] == authorities[idx0[m]]@ by {
                assert(front[idx0[m]] == authorities[idx0[m]]);
            }
            assert(lists_failures_at(errors, authorities, fetched, idx0));
        }
    }
}

/// The latest fetch of an authority is its last successful fetch: it is the
/// registry fetched at some position for that authority, and no later position
/// fetched a registry for it; when there is none, no position did.
pub proof fn law_latest_fetch_is_the_last_success(
    authorities: Seq<Address>,
    fetched: Seq<Option<Registry>>,
    k: Seq<u8>,
)
    requires
        authorities.len() <= fetched.len(),
    ensures
        latest_fetch(authorities, fetched, k) is Some ==> exists|i: int|
            0 <= i < authorities.len() && authorities[i]@ == k && #[trigger] fetched[i]
                == latest_fetch(authorities, fetched, k) && forall|j: int|
                i < j < authorities.len() && authorities[j]@ == k ==> #[trigger] fetched[j] is None,
        latest_fetch(authorities, fetched, k) is None ==> forall|i: int|
            0 <= i < authorities.len() && authorities[i]@ == k ==> #[trigger] fetched[i] is None,
    decreases authorities.len(),
{
    if authorities.len() > 0 {
        let front = authorities.drop_last();
        let n = authorities.len() - 1;
        law_latest_fetch_is_the_last_success(front, fetched, k);
        if authorities.last()@ == k && fetched[n] is Some {
            assert(authorities[n]@ == k);
        } else {
            if latest_fetch(front, fetched, k) is Some {
                let i = choose|i: int|
                    0 <= i < front.len() && front[i]@ == k && #[trigger] fetched[i] == latest_fetch(
                        front,
                        fetched,
                        k,
                    ) && forall|j: int| i < j < front.len() && front[j]@ == k ==> #[trigger] fetched[j] is None;
                assert(authorities[i] == front[i]);
                assert forall|j: int| i < j < authorities.len() && authorities[j]@ == k implies #[trigger] fetched[j] is None by {
                    if j < n {
                        assert(front[j] == authorities[j]);
                    }
                }
            } else {
                assert forall|i: int| 0 <= i < authorities.len() && authorities[i]@ == k implies #[trigger] fetched[i] is None by {
                    if i < n {
                        assert(front[i] == authorities[i]);
                    }
                }
            }
        }
    }
}

} // verus!
