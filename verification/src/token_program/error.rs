//! Failures of the token program.

use crate::text::{decimal, push_str, push_u64, string};
use vstd::prelude::*;

verus! {

#[derive(Clone, Debug, PartialEq, Eq)]
pub enum TokenError {
    InsufficientBalance { need: u64, have: u64 },
    OwnerMismatch,
    MintMismatch,
    AuthorityMismatch,
    InsufficientDelegation { need: u64, have: u64 },
    AlreadyInitialized,
    NotInitialized,
    AccountFrozen,
    NoFreezeAuthority,
    SupplyOverflow,
    InvalidInstructionData(String),
    MissingAccount,
    MissingSigner,
    CloseNonEmpty,
}

pub open spec fn shortage_text(what: Seq<char>, need: u64, have: u64) -> Seq<char> {
    what + ": need "@ + decimal(need as nat) + ", have "@ + decimal(have as nat)
}

pub open spec fn token_error_text(e: TokenError) -> Seq<char> {
    match e {
        TokenError::InsufficientBalance { need, have } => shortage_text(
            "insufficient token balance"@,
            need,
            have,
        ),
        TokenError::OwnerMismatch => "owner mismatch"@,
        TokenError::MintMismatch => "mint mismatch"@,
        TokenError::AuthorityMismatch => "authority mismatch"@,
        TokenError::InsufficientDelegation { need, have } => shortage_text(
            "insufficient delegation"@,
            need,
            have,
        ),
        TokenError::AlreadyInitialized => "account already initialized"@,
        TokenError::NotInitialized => "account not initialized"@,
        TokenError::AccountFrozen => "account is frozen"@,
        TokenError::NoFreezeAuthority => "no freeze authority on mint"@,
        TokenError::SupplyOverflow => "supply overflow"@,
        TokenError::InvalidInstructionData(_) => "invalid instruction data"@,
        TokenError::MissingAccount => "missing required account"@,
        TokenError::MissingSigner => "missing required signer"@,
        TokenError::CloseNonEmpty => "close non-empty account"@,
    }
}

fn shortage(what: &str, need: u64, have: u64) -> (r: String)
    ensures
        r@ == shortage_text(what@, need, have),
{
    let mut out: String = string(what);
    push_str(&mut out, ": need ");
    push_u64(&mut out, need);
    push_str(&mut out, ", have ");
    push_u64(&mut out, have);
    out
}

impl TokenError {
    /// The failure as text.
    pub fn describe(&self) -> (r: String)
        ensures
            r@ == token_error_text(*self),
    {
        match self {
            TokenError::InsufficientBalance { need, have } => shortage(
                "insufficient token balance",
                *need,
                *have,
            ),
            TokenError::OwnerMismatch => string("owner mismatch"),
            TokenError::MintMismatch => string("mint mismatch"),
            TokenError::AuthorityMismatch => string("authority mismatch"),
            TokenError::InsufficientDelegation { need, have } => shortage(
                "insufficient delegation",
                *need,
                *have,
            ),
            TokenError::AlreadyInitialized => string("account already initialized"),
            TokenError::NotInitialized => string("account not initialized"),
            TokenError::AccountFrozen => string("account is frozen"),
            TokenError::NoFreezeAuthority => string("no freeze authority on mint"),
            TokenError::SupplyOverflow => string("supply overflow"),
            TokenError::InvalidInstructionData(_) => string("invalid instruction data"),
            TokenError::MissingAccount => string("missing required account"),
            TokenError::MissingSigner => string("missing required signer"),
            TokenError::CloseNonEmpty => string("close non-empty account"),
        }
    }
}

} // verus!
