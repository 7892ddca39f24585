//! What the token program keeps in accounts.

use crate::bytes::lemma_le_bytes_len;
use crate::codec::{Codec, Fault};
use crate::digest::Digest;
use vstd::prelude::*;
use vstd::slice::slice_subrange;

verus! {

/// Account state flags.
#[derive(Clone, Copy, Debug, PartialEq, Eq, Structural)]
pub enum AccountState {
    Uninitialized,
    Initialized,
    Frozen,
}

impl Default for AccountState {
    fn default() -> (r: Self)
        ensures
            r is Uninitialized,
    {
        AccountState::Uninitialized
    }
}

/// A state is one byte.
impl Codec for AccountState {
    type M = AccountState;

    open spec fn model(&self) -> AccountState {
        *self
    }

    open spec fn well_formed(&self) -> bool {
        true
    }

    open spec fn layout(m: AccountState) -> Seq<u8> {
        match m {
            AccountState::Uninitialized => seq![0u8],
            AccountState::Initialized => seq![1u8],
            AccountState::Frozen => seq![2u8],
        }
    }

    open spec fn fits(m: AccountState) -> bool {
        true
    }

    open spec fn fault(bytes: Seq<u8>) -> Fault {
        if bytes.len() == 0 {
            Fault::Short
        } else {
            Fault::Variant(bytes[0])
        }
    }

    proof fn prefix_free(a: AccountState, b: AccountState, s: Seq<u8>, t: Seq<u8>) {
        let x = Self::layout(a) + s;
        let y = Self::layout(b) + t;
        assert(x[0] == y[0]);
        assert(x.drop_first() =~= s);
        assert(y.drop_first() =~= t);
    }

    fn encode(&self, out: &mut Vec<u8>) -> (ok: bool) {
        match self {
            AccountState::Uninitialized => out.push(0),
            AccountState::Initialized => out.push(1),
            AccountState::Frozen => out.push(2),
        }
        assert(out@ =~= old(out)@ + Self::layout(*self));
        true
    }

    fn decode<'a>(input: &'a [u8]) -> (r: Result<(AccountState, &'a [u8]), Fault>) {
        let len: usize = input.len();
        if len == 0 || input[0] > 2 {
            assert forall|m: AccountState, rest: Seq<u8>| input@ != #[trigger] (Self::layout(m)
                + rest) by {
                assert((Self::layout(m) + rest)[0] <= 2);
            }
            if len == 0 {
                return Err(Fault::Short);
            }
            return Err(Fault::Variant(input[0]));
        }
        let tail = slice_subrange(input, 1, len);
        let state = if input[0] == 0 {
            AccountState::Uninitialized
        } else if input[0] == 1 {
            AccountState::Initialized
        } else {
            AccountState::Frozen
        };
        assert(input@ =~= Self::layout(state) + tail@);
        Ok((state, tail))
    }
}

/// A mint defines a token type.
#[derive(Clone, Copy, Debug, PartialEq, Eq)]
pub struct Mint {
    /// The authority that can mint new tokens.
    pub mint_authority: Option<Digest>,
    /// Total supply of this token.
    pub supply: u64,
    /// Number of decimal places.
    pub decimals: u8,
    /// Is this mint initialized?
    pub is_initialized: bool,
    /// Optional authority that can freeze token accounts.
    pub freeze_authority: Option<Digest>,
}

/// The fields of a mint in the order of its layout.
pub type MintFields = (Option<Digest>, (u64, (u8, (bool, Option<Digest>))));

impl Codec for Mint {
    type M = <MintFields as Codec>::M;

    open spec fn model(&self) -> Self::M {
        (
            self.mint_authority.model(),
            (
                self.supply.model(),
                (
                    self.decimals.model(),
                    (self.is_initialized.model(), self.freeze_authority.model()),
                ),
            ),
        )
    }

    open spec fn well_formed(&self) -> bool {
        true
    }

    open spec fn layout(m: Self::M) -> Seq<u8> {
        <MintFields as Codec>::layout(m)
    }

    open spec fn fits(m: Self::M) -> bool {
        <MintFields as Codec>::fits(m)
    }

    open spec fn fault(bytes: Seq<u8>) -> Fault {
        <MintFields as Codec>::fault(bytes)
    }

    proof fn prefix_free(a: Self::M, b: Self::M, s: Seq<u8>, t: Seq<u8>) {
        <MintFields as Codec>::prefix_free(a, b, s, t);
    }

    fn encode(&self, out: &mut Vec<u8>) -> (ok: bool) {
        let _ = self.mint_authority.encode(out);
        let _ = self.supply.encode(out);
        let _ = self.decimals.encode(out);
        let _ = self.is_initialized.encode(out);
        let _ = self.freeze_authority.encode(out);
        assert(out@ =~= old(out)@ + Self::layout(self.model()));
        true
    }

    fn decode<'a>(input: &'a [u8]) -> (r: Result<(Self, &'a [u8]), Fault>) {
        match <MintFields as Codec>::decode(input) {
            Ok((
                (mint_authority, (supply, (decimals, (is_initialized, freeze_authority)))),
                rest,
            )) => Ok((
                Mint { mint_authority, supply, decimals, is_initialized, freeze_authority },
                rest,
            )),
            Err(f) => Err(f),
        }
    }
}

impl Mint {
    /// The room that a mint takes up at most.
    pub const LEN: usize = 1 + 64 + 8 + 1 + 1 + 1 + 64;
}

/// A token account holding a balance of one token type.
#[derive(Clone, Copy, Debug, PartialEq, Eq)]
pub struct TokenAccount {
    /// The mint this account holds tokens for.
    pub mint: Digest,
    /// The owner of this token account.
    pub owner: Digest,
    /// Current token balance.
    pub amount: u64,
    /// Optional delegate address.
    pub delegate: Option<Digest>,
    /// Account state (initialized, frozen).
    pub state: AccountState,
    /// Amount delegated to the delegate.
    pub delegated_amount: u64,
    /// Optional close authority (defaults to owner).
    pub close_authority: Option<Digest>,
}

/// The fields of a token account in the order of its layout.
pub type TokenAccountFields = (
    Digest,
    (Digest, (u64, (Option<Digest>, (AccountState, (u64, Option<Digest>))))),
);

impl Codec for TokenAccount {
    type M = <TokenAccountFields as Codec>::M;

    open spec fn model(&self) -> Self::M {
        (
            self.mint.model(),
            (
                self.owner.model(),
                (
                    self.amount.model(),
                    (
                        self.delegate.model(),
                        (
                            self.state.model(),
                            (self.delegated_amount.model(), self.close_authority.model()),
                        ),
                    ),
                ),
            ),
        )
    }

    open spec fn well_formed(&self) -> bool {
        true
    }

    open spec fn layout(m: Self::M) -> Seq<u8> {
        <TokenAccountFields as Codec>::layout(m)
    }

    open spec fn fits(m: Self::M) -> bool {
        <TokenAccountFields as Codec>::fits(m)
    }

    open spec fn fault(bytes: Seq<u8>) -> Fault {
        <TokenAccountFields as Codec>::fault(bytes)
    }

    proof fn prefix_free(a: Self::M, b: Self::M, s: Seq<u8>, t: Seq<u8>) {
        <TokenAccountFields as Codec>::prefix_free(a, b, s, t);
    }

    fn encode(&self, out: &mut Vec<u8>) -> (ok: bool) {
        let _ = self.mint.encode(out);
        let _ = self.owner.encode(out);
        let _ = self.amount.encode(out);
        let _ = self.delegate.encode(out);
        let _ = self.state.encode(out);
        let _ = self.delegated_amount.encode(out);
        let _ = self.close_authority.encode(out);
        assert(out@ =~= old(out)@ + Self::layout(self.model()));
        true
    }

    fn decode<'a>(input: &'a [u8]) -> (r: Result<(Self, &'a [u8]), Fault>) {
        match <TokenAccountFields as Codec>::decode(input) {
            Ok((
                (mint, (owner, (amount, (delegate, (state, (delegated_amount, close_authority)))))),
                rest,
            )) => Ok((
                TokenAccount {
                    mint,
                    owner,
                    amount,
                    delegate,
                    state,
                    delegated_amount,
                    close_authority,
                },
                rest,
            )),
            Err(f) => Err(f),
        }
    }
}

impl TokenAccount {
    /// The room that a token account takes up at most.
    pub const LEN: usize = 64 + 64 + 8 + 1 + 64 + 1 + 8 + 1 + 64;
}

/// A mint takes up no more room than it is given, and all of it with both authorities.
pub proof fn mint_fits_its_room(m: <Mint as Codec>::M)
    ensures
        <Mint as Codec>::layout(m).len() <= Mint::LEN,
        m.0 is Some && (((m.1).1).1).1 is Some ==> <Mint as Codec>::layout(m).len() == Mint::LEN,
{
    lemma_le_bytes_len((m.1).0 as nat, 8);
}

/// A token account takes up no more room than it is given, and all of it with both a
/// delegate and a close authority.
pub proof fn token_account_fits_its_room(m: <TokenAccount as Codec>::M)
    ensures
        <TokenAccount as Codec>::layout(m).len() <= TokenAccount::LEN,
{
    lemma_le_bytes_len((((m.1).1).0) as nat, 8);
    lemma_le_bytes_len(((((((m.1).1).1).1).1).0) as nat, 8);
}

/// A mint is written field by field, in this order.
pub proof fn mint_is_written_in_order(x: Mint)
    ensures
        <Mint as Codec>::layout(x.model()) == <Option<Digest> as Codec>::layout(x.mint_authority.model())
            + <u64 as Codec>::layout(x.supply.model())
            + <u8 as Codec>::layout(x.decimals.model())
            + <bool as Codec>::layout(x.is_initialized.model())
            + <Option<Digest> as Codec>::layout(x.freeze_authority.model()),
{
}

/// A token account is written field by field, in this order.
pub proof fn token_account_is_written_in_order(x: TokenAccount)
    ensures
        <TokenAccount as Codec>::layout(x.model()) == <Digest as Codec>::layout(x.mint.model())
            + <Digest as Codec>::layout(x.owner.model())
            + <u64 as Codec>::layout(x.amount.model())
            + <Option<Digest> as Codec>::layout(x.delegate.model())
            + <AccountState as Codec>::layout(x.state.model())
            + <u64 as Codec>::layout(x.delegated_amount.model())
            + <Option<Digest> as Codec>::layout(x.close_authority.model()),
{
}

/// The states of an account are numbered from zero, in the order in which they are declared.
pub proof fn account_states_are_numbered(x: AccountState)
    ensures
        AccountState::layout(x.model()) == match x {
            AccountState::Uninitialized => seq![0u8],
            AccountState::Initialized => seq![1u8],
            AccountState::Frozen => seq![2u8],
        },
{
}

} // verus!
