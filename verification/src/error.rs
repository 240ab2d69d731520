use vstd::prelude::*;

use crate::address::Address;

verus! {

/// An error from reading accounts, as the reader reports it.
pub trait AccountReaderError {
    /// Whether the error says that the account does not exist.
    fn is_account_not_found(&self) -> bool;
}

#[verifier::external_type_specification]
#[verifier::external_body]
pub struct ExAnyhowError(anyhow::Error);

impl AccountReaderError for anyhow::Error {
    /// A general error never says which account is missing.
    fn is_account_not_found(&self) -> (r: bool)
        ensures
            !r,
    {
        false
    }
}

/// What can go wrong while fetching a registry; `E` is the account reader's error.
pub enum LookupRegistryError<E> {
    /// No registry account exists at the given address.
    RegistryNotFound(Address),
    /// An argument was not acceptable.
    InvalidArgument(String),
    /// Reading an account failed for another reason.
    AccountReadError(E),
    /// The registry account's data could not be read as a registry.
    AnchorError(String),
    /// Any other failure.
    GeneralError(String),
}

/// The error for a failed read of the registry account at `registry_address`:
/// a missing account means no registry, anything else is a read error.
pub fn classify_read_failure<E>(registry_address: Address, error: E, not_found: bool) -> (r:
    LookupRegistryError<E>)
    ensures
        not_found ==> r == LookupRegistryError::<E>::RegistryNotFound(registry_address),
        !not_found ==> r == LookupRegistryError::<E>::AccountReadError(error),
{
    if not_found {
        LookupRegistryError::RegistryNotFound(registry_address)
    } else {
        LookupRegistryError::AccountReadError(error)
    }
}

/// The error for a failed read of the registry account at `registry_address`,
/// asking the reader's error whether the account was missing.
pub fn read_failure<E: AccountReaderError>(registry_address: Address, error: E) -> (r:
    LookupRegistryError<E>)
    ensures
        r == LookupRegistryError::<E>::RegistryNotFound(registry_address) || r
            == LookupRegistryError::<E>::AccountReadError(error),
{
    let not_found = error.is_account_not_found();
    classify_read_failure(registry_address, error, not_found)
}

} // verus!
