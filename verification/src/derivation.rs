//! Derivations of a key that have been run. A value of [`Derivation`] stands for
//! one call of Argon2id: what it was given and what came out.

use crate::crypto::{Argon2Params, CryptoError, DerivedKey, SALT_LEN};
use vstd::prelude::*;

verus! {

/// A derivation that was run.
pub struct Derivation<'a> {
    password: &'a [u8],
    salt: &'a [u8; SALT_LEN],
    params: Argon2Params,
    outcome: Result<DerivedKey, CryptoError>,
}

/// What came out of a derivation, as a value.
pub open spec fn outcome_of(outcome: Result<DerivedKey, CryptoError>) -> Result<
    Seq<u8>,
    CryptoError,
> {
    match outcome {
        Ok(key) => Ok(key@),
        Err(error) => Err(error),
    }
}

impl<'a> Derivation<'a> {
    /// The password it was run on.
    pub closed spec fn password(self) -> Seq<u8> {
        self.password@
    }

    /// The salt it was run on.
    pub closed spec fn salt(self) -> Seq<u8> {
        self.salt@
    }

    /// The parameters it was run with.
    pub closed spec fn params(self) -> Argon2Params {
        self.params
    }

    /// The key, or the failure, that came out.
    pub closed spec fn outcome(self) -> Result<Seq<u8>, CryptoError> {
        outcome_of(self.outcome)
    }

    /// Keeps what came out of a derivation. That it was run on these inputs is for
    /// whoever ran it to say.
    pub(crate) fn record(
        password: &'a [u8],
        salt: &'a [u8; SALT_LEN],
        params: Argon2Params,
        outcome: Result<DerivedKey, CryptoError>,
    ) -> (derivation: Self)
        ensures
            derivation.outcome() == outcome_of(outcome),
    {
        Derivation { password, salt, params, outcome }
    }

    /// What came out.
    pub(crate) fn into_outcome(self) -> (outcome: Result<DerivedKey, CryptoError>)
        ensures
            outcome_of(outcome) == self.outcome(),
    {
        self.outcome
    }
}

/// A derivation of a key for this password, salt and parameters was run and failed.
pub open spec fn derivation_failed(
    password: Seq<u8>,
    salt: Seq<u8>,
    params: Argon2Params,
) -> bool {
    exists|derivation: Derivation| #[trigger]
        failed_on(derivation, password, salt, params)
}

/// The derivation was run on these inputs and failed.
pub open spec fn failed_on(
    derivation: Derivation,
    password: Seq<u8>,
    salt: Seq<u8>,
    params: Argon2Params,
) -> bool {
    &&& derivation.password() == password
    &&& derivation.salt() == salt
    &&& derivation.params() == params
    &&& derivation.outcome() == Err::<Seq<u8>, CryptoError>(CryptoError::KeyDerivationFailed)
}

/// A failure is only ever reported of a derivation that was run on the very inputs
/// it is reported for, and that gave no key.
pub proof fn law_failure_is_of_a_derivation(
    password: Seq<u8>,
    salt: Seq<u8>,
    params: Argon2Params,
) -> (derivation: Derivation<'static>)
    requires
        derivation_failed(password, salt, params),
    ensures
        derivation.password() == password,
        derivation.salt() == salt,
        derivation.params() == params,
        derivation.outcome() == Err::<Seq<u8>, CryptoError>(CryptoError::KeyDerivationFailed),
{
    choose|derivation: Derivation| #[trigger] failed_on(derivation, password, salt, params)
}

} // verus!
