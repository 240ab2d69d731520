use vstd::prelude::*;

use crate::address::Address;
use crate::registry::Registry;

verus! {

/// A time-limited map from authority addresses to registries, held in an
/// `endorphin::HashMap` with the `TTLPolicy` expiration policy.
///
/// The map's hasher type (`ahash::RandomState`, from a crate this library does
/// not name) cannot be declared to Verus, so the map is held in this opaque
/// struct and reached only through the trusted methods below.
#[verifier::external_body]
pub struct RegistryCache {
    map: endorphin::HashMap<[u8; 32], Registry, endorphin::policy::TTLPolicy>,
}

/// The entries the cache stores, by authority bytes.
///
/// An entry is stored from its insertion until a later insertion of the same key
/// replaces it, or until a later insertion reclaims it after it expired. An expired
/// entry may still be stored, but a lookup no longer hands it out.
pub uninterp spec fn stored_registries(cache: RegistryCache) -> Map<Seq<u8>, Registry>;

/// The lifetime, in seconds, that each stored entry was given by the insertion
/// that stored it: the entry expires that long after that insertion.
pub uninterp spec fn stored_lifetimes(cache: RegistryCache) -> Map<Seq<u8>, u64>;

/// The longest lifetime, in seconds, that an insertion may give an entry: an
/// expiry instant further away could not be represented.
pub open spec fn max_ttl_secs() -> u64 {
    0xffff_ffff
}

impl RegistryCache {
    /// An empty cache, `endorphin::HashMap::new(TTLPolicy::new())`. The contract
    /// claims that a new map stores nothing.
    #[verifier::external_body]
    pub(crate) fn new() -> (cache: RegistryCache)
        ensures
            stored_registries(cache).dom().is_empty(),
    {
        RegistryCache { map: endorphin::HashMap::new(endorphin::policy::TTLPolicy::new()) }
    }

    /// Stores `registry` under `authority` for `ttl_secs` seconds, with
    /// `endorphin::HashMap::insert`, whose policy sets the entry to expire `ttl_secs`
    /// after now. The contract claims that the new entry is stored afterwards with
    /// that lifetime, and that every other entry stored afterwards was stored before
    /// with the same registry and lifetime (the call may reclaim expired entries);
    /// what the call hands back is not used.
    #[verifier::external_body]
    pub(crate) fn insert(&mut self, authority: Address, registry: Registry, ttl_secs: u64)
        requires
            ttl_secs <= max_ttl_secs(),
        ensures
            stored_registries(*final(self)).contains_key(authority@),
            stored_registries(*final(self))[authority@] == registry,
            stored_lifetimes(*final(self))[authority@] == ttl_secs,
            forall|k: Seq<u8>|
                k != authority@ && #[trigger] stored_registries(*final(self)).contains_key(k)
                    ==> stored_registries(*old(self)).contains_key(k) && stored_registries(
                    *final(self),
                )[k] == stored_registries(*old(self))[k] && stored_lifetimes(*final(self))[k]
                    == stored_lifetimes(*old(self))[k],
    {
        self.map.insert(authority.bytes, registry, std::time::Duration::from_secs(ttl_secs));
    }

    /// Looks `authority` up with `endorphin::HashMap::get`. The contract claims that
    /// a registry handed back is the one stored under `authority`; `None` comes when
    /// nothing is stored under it or when the stored entry has expired, which
    /// depends on the clock and is not stated.
    #[verifier::external_body]
    pub(crate) fn get(&self, authority: &Address) -> (r: Option<&Registry>)
        ensures
            r matches Some(reg) ==> stored_registries(*self).contains_key(authority@)
                && stored_registries(*self)[authority@] == *reg,
    {
        self.map.get(&authority.bytes)
    }
}

} // verus!
