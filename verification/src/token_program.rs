//! The program that keeps tokens: mints, balances, delegates.
//!
//! Every constructor takes the identity of this program.

pub mod error;
pub mod state;

use crate::codec::{Codec, Fault};
use crate::digest::Digest;
use crate::ledger::{call, calls, readonly, writable, AccountMeta, Instruction};
use vstd::prelude::*;
use vstd::slice::slice_subrange;

verus! {

/// Token program instructions.
#[derive(Clone, Copy, Debug, PartialEq, Eq)]
pub enum TokenInstruction {
    /// Initialize a new mint.
    /// Accounts: [writable] mint, [] rent_sysvar
    InitializeMint { decimals: u8, mint_authority: Digest, freeze_authority: Option<Digest> },
    /// Initialize a new token account.
    /// Accounts: [writable] account, [] mint, [] owner, [] rent_sysvar
    InitializeAccount,
    /// Mint tokens to an account.
    /// Accounts: [writable] mint, [writable] destination, [signer] mint_authority
    MintTo { amount: u64 },
    /// Transfer tokens between accounts.
    /// Accounts: [writable] source, [writable] destination, [signer] authority
    Transfer { amount: u64 },
    /// Approve a delegate.
    /// Accounts: [writable] source, [] delegate, [signer] owner
    Approve { amount: u64 },
    /// Revoke a delegate.
    /// Accounts: [writable] source, [signer] owner
    Revoke,
    /// Burn tokens.
    /// Accounts: [writable] source, [writable] mint, [signer] authority
    Burn { amount: u64 },
    /// Close a token account.
    /// Accounts: [writable] account, [writable] destination, [signer] authority
    CloseAccount,
    /// Freeze a token account.
    /// Accounts: [writable] account, [] mint, [signer] freeze_authority
    FreezeAccount,
    /// Thaw a frozen token account.
    /// Accounts: [writable] account, [] mint, [signer] freeze_authority
    ThawAccount,
}

/// An instruction, as a mathematical value.
pub enum TokenInstructionModel {
    InitializeMint(<(u8, (Digest, Option<Digest>)) as Codec>::M),
    InitializeAccount,
    MintTo(<u64 as Codec>::M),
    Transfer(<u64 as Codec>::M),
    Approve(<u64 as Codec>::M),
    Revoke,
    Burn(<u64 as Codec>::M),
    CloseAccount,
    FreezeAccount,
    ThawAccount,
}

impl TokenInstructionModel {
    pub open spec fn tag(self) -> u8 {
        match self {
            TokenInstructionModel::InitializeMint(_) => 0,
            TokenInstructionModel::InitializeAccount => 1,
            TokenInstructionModel::MintTo(_) => 2,
            TokenInstructionModel::Transfer(_) => 3,
            TokenInstructionModel::Approve(_) => 4,
            TokenInstructionModel::Revoke => 5,
            TokenInstructionModel::Burn(_) => 6,
            TokenInstructionModel::CloseAccount => 7,
            TokenInstructionModel::FreezeAccount => 8,
            TokenInstructionModel::ThawAccount => 9,
        }
    }

    pub open spec fn body(self) -> Seq<u8> {
        match self {
            TokenInstructionModel::InitializeMint(x) => <(
                u8,
                (Digest, Option<Digest>),
            ) as Codec>::layout(x),
            TokenInstructionModel::InitializeAccount => Seq::empty(),
            TokenInstructionModel::MintTo(x) => <u64 as Codec>::layout(x),
            TokenInstructionModel::Transfer(x) => <u64 as Codec>::layout(x),
            TokenInstructionModel::Approve(x) => <u64 as Codec>::layout(x),
            TokenInstructionModel::Revoke => Seq::empty(),
            TokenInstructionModel::Burn(x) => <u64 as Codec>::layout(x),
            TokenInstructionModel::CloseAccount => Seq::empty(),
            TokenInstructionModel::FreezeAccount => Seq::empty(),
            TokenInstructionModel::ThawAccount => Seq::empty(),
        }
    }
}

/// A byte that tells the kind, then the fields of that kind.
impl Codec for TokenInstruction {
    type M = TokenInstructionModel;

    open spec fn model(&self) -> TokenInstructionModel {
        match *self {
            TokenInstruction::InitializeMint {
                decimals,
                mint_authority,
                freeze_authority,
            } => TokenInstructionModel::InitializeMint((
                decimals.model(),
                (mint_authority.model(), freeze_authority.model()),
            )),
            TokenInstruction::InitializeAccount => TokenInstructionModel::InitializeAccount,
            TokenInstruction::MintTo { amount } => TokenInstructionModel::MintTo(amount.model()),
            TokenInstruction::Transfer { amount } => TokenInstructionModel::Transfer(amount.model()),
            TokenInstruction::Approve { amount } => TokenInstructionModel::Approve(amount.model()),
            TokenInstruction::Revoke => TokenInstructionModel::Revoke,
            TokenInstruction::Burn { amount } => TokenInstructionModel::Burn(amount.model()),
            TokenInstruction::CloseAccount => TokenInstructionModel::CloseAccount,
            TokenInstruction::FreezeAccount => TokenInstructionModel::FreezeAccount,
            TokenInstruction::ThawAccount => TokenInstructionModel::ThawAccount,
        }
    }

    open spec fn well_formed(&self) -> bool {
        true
    }

    open spec fn layout(m: TokenInstructionModel) -> Seq<u8> {
        seq![m.tag()] + m.body()
    }

    open spec fn fits(m: TokenInstructionModel) -> bool {
        true
    }

    open spec fn fault(bytes: Seq<u8>) -> Fault {
        let tail = bytes.drop_first();
        if bytes.len() == 0 {
            Fault::Short
        } else if bytes[0] == 0 {
            <(u8, (Digest, Option<Digest>)) as Codec>::fault(tail)
        } else if bytes[0] == 2 {
            <u64 as Codec>::fault(tail)
        } else if bytes[0] == 3 {
            <u64 as Codec>::fault(tail)
        } else if bytes[0] == 4 {
            <u64 as Codec>::fault(tail)
        } else if bytes[0] == 6 {
            <u64 as Codec>::fault(tail)
        } else {
            Fault::Variant(bytes[0])
        }
    }

    proof fn prefix_free(a: TokenInstructionModel, b: TokenInstructionModel, s: Seq<u8>, t: Seq<u8>) {
        let x = Self::layout(a) + s;
        let y = Self::layout(b) + t;
        assert(x[0] == a.tag());
        assert(y[0] == b.tag());
        assert(x.drop_first() =~= a.body() + s);
        assert(y.drop_first() =~= b.body() + t);
        match (a, b) {
            (TokenInstructionModel::InitializeMint(p), TokenInstructionModel::InitializeMint(q)) => {
                <(u8, (Digest, Option<Digest>)) as Codec>::prefix_free(p, q, s, t);
            },
            (TokenInstructionModel::MintTo(p), TokenInstructionModel::MintTo(q)) => {
                <u64 as Codec>::prefix_free(p, q, s, t);
            },
            (TokenInstructionModel::Transfer(p), TokenInstructionModel::Transfer(q)) => {
                <u64 as Codec>::prefix_free(p, q, s, t);
            },
            (TokenInstructionModel::Approve(p), TokenInstructionModel::Approve(q)) => {
                <u64 as Codec>::prefix_free(p, q, s, t);
            },
            (TokenInstructionModel::Burn(p), TokenInstructionModel::Burn(q)) => {
                <u64 as Codec>::prefix_free(p, q, s, t);
            },
            _ => {
                assert(a.body() + s =~= s || a.body().len() > 0);
                assert(b.body() + t =~= t || b.body().len() > 0);
            },
        }
    }

    fn encode(&self, out: &mut Vec<u8>) -> (ok: bool) {
        let ok: bool;
        match self {
            TokenInstruction::InitializeMint { decimals, mint_authority, freeze_authority } => {
                out.push(0);
                let _ = decimals.encode(out);
                let _ = mint_authority.encode(out);
                let _ = freeze_authority.encode(out);
                ok = true;
            },
            TokenInstruction::InitializeAccount => {
                out.push(1);
                ok = true;
            },
            TokenInstruction::MintTo { amount } => {
                out.push(2);
                let _ = amount.encode(out);
                ok = true;
            },
            TokenInstruction::Transfer { amount } => {
                out.push(3);
                let _ = amount.encode(out);
                ok = true;
            },
            TokenInstruction::Approve { amount } => {
                out.push(4);
                let _ = amount.encode(out);
                ok = true;
            },
            TokenInstruction::Revoke => {
                out.push(5);
                ok = true;
            },
            TokenInstruction::Burn { amount } => {
                out.push(6);
                let _ = amount.encode(out);
                ok = true;
            },
            TokenInstruction::CloseAccount => {
                out.push(7);
                ok = true;
            },
            TokenInstruction::FreezeAccount => {
                out.push(8);
                ok = true;
            },
            TokenInstruction::ThawAccount => {
                out.push(9);
                ok = true;
            },
        }
        assert(ok ==> out@ =~= old(out)@ + Self::layout(self.model()));
        ok
    }

    fn decode<'a>(input: &'a [u8]) -> (r: Result<(Self, &'a [u8]), Fault>) {
        let len: usize = input.len();
        if len == 0 {
            assert forall|m: TokenInstructionModel, rest: Seq<u8>| Self::fits(m) implies input@ != #[trigger] (
            Self::layout(m) + rest) by {
                assert((Self::layout(m) + rest).len() > 0);
            }
            return Err(Fault::Short);
        }
        let tag: u8 = input[0];
        let tail = slice_subrange(input, 1, len);
        assert(input@ =~= seq![tag] + tail@);
        let r: Result<(Self, &'a [u8]), Fault> = if tag == 0 {
            match <(u8, (Digest, Option<Digest>)) as Codec>::decode(tail) {
                Ok(((decimals, (mint_authority, freeze_authority)), rest)) => Ok((
                    TokenInstruction::InitializeMint { decimals, mint_authority, freeze_authority },
                    rest,
                )),
                Err(f) => Err(f),
            }
        } else if tag == 1 {
            Ok((TokenInstruction::InitializeAccount, tail))
        } else if tag == 2 {
            match <u64 as Codec>::decode(tail) {
                Ok((amount, rest)) => Ok((TokenInstruction::MintTo { amount }, rest)),
                Err(f) => Err(f),
            }
        } else if tag == 3 {
            match <u64 as Codec>::decode(tail) {
                Ok((amount, rest)) => Ok((TokenInstruction::Transfer { amount }, rest)),
                Err(f) => Err(f),
            }
        } else if tag == 4 {
            match <u64 as Codec>::decode(tail) {
                Ok((amount, rest)) => Ok((TokenInstruction::Approve { amount }, rest)),
                Err(f) => Err(f),
            }
        } else if tag == 5 {
            Ok((TokenInstruction::Revoke, tail))
        } else if tag == 6 {
            match <u64 as Codec>::decode(tail) {
                Ok((amount, rest)) => Ok((TokenInstruction::Burn { amount }, rest)),
                Err(f) => Err(f),
            }
        } else if tag == 7 {
            Ok((TokenInstruction::CloseAccount, tail))
        } else if tag == 8 {
            Ok((TokenInstruction::FreezeAccount, tail))
        } else if tag == 9 {
            Ok((TokenInstruction::ThawAccount, tail))
        } else {
            Err(Fault::Variant(tag))
        };
        proof {
            if r is Ok {
                let m = (r->Ok_0).0.model();
                let rest = (r->Ok_0).1@;
                assert(Self::layout(m) + rest =~= seq![m.tag()] + (m.body() + rest));
                assert(m.body().len() == 0 ==> m.body() + rest =~= rest);
            } else {
                assert forall|m: TokenInstructionModel, rest: Seq<u8>| Self::fits(m) implies input@ != #[trigger] (
                Self::layout(m) + rest) by {
                    if input@ == Self::layout(m) + rest {
                        assert(input@[0] == m.tag());
                        assert(tail@ =~= m.body() + rest);
                    }
                }
            }
        }
        r
    }
}

/// Makes a new kind of token.
pub fn initialize_mint(
    program_id: Digest,
    mint: &Digest,
    decimals: u8,
    mint_authority: &Digest,
    freeze_authority: Option<&Digest>,
    rent_sysvar: &Digest,
) -> (r: Instruction)
    ensures
        calls::<TokenInstruction>(
            r,
            program_id,
            seq![writable(*mint, false), readonly(*rent_sysvar, false)],
            TokenInstructionModel::InitializeMint(
                (
                    decimals,
                    (
                        *mint_authority,
                        match freeze_authority {
                            Some(a) => Some(*a),
                            None => None,
                        },
                    ),
                ),
            ),
        ),
{
    let accounts = vec![
        AccountMeta::new(*mint, false),
        AccountMeta::new_readonly(*rent_sysvar, false),
    ];
    assert(accounts@ =~= seq![writable(*mint, false), readonly(*rent_sysvar, false)]);
    let freezer: Option<Digest> = match freeze_authority {
        Some(a) => Some(*a),
        None => None,
    };
    call(
        program_id,
        accounts,
        &TokenInstruction::InitializeMint {
            decimals,
            mint_authority: *mint_authority,
            freeze_authority: freezer,
        },
    )
}

/// Makes a new account for tokens of a mint.
pub fn initialize_account(
    program_id: Digest,
    account: &Digest,
    mint: &Digest,
    owner: &Digest,
    rent_sysvar: &Digest,
) -> (r: Instruction)
    ensures
        calls::<TokenInstruction>(
            r,
            program_id,
            seq![
                writable(*account, false),
                readonly(*mint, false),
                readonly(*owner, false),
                readonly(*rent_sysvar, false),
            ],
            TokenInstructionModel::InitializeAccount,
        ),
{
    let accounts = vec![
        AccountMeta::new(*account, false),
        AccountMeta::new_readonly(*mint, false),
        AccountMeta::new_readonly(*owner, false),
        AccountMeta::new_readonly(*rent_sysvar, false),
    ];
    assert(accounts@ =~= seq![
        writable(*account, false),
        readonly(*mint, false),
        readonly(*owner, false),
        readonly(*rent_sysvar, false),
    ]);
    call(program_id, accounts, &TokenInstruction::InitializeAccount)
}

/// Mints tokens to an account; the mint's authority signs.
pub fn mint_to(
    program_id: Digest,
    mint: &Digest,
    destination: &Digest,
    mint_authority: &Digest,
    amount: u64,
) -> (r: Instruction)
    ensures
        calls::<TokenInstruction>(
            r,
            program_id,
            seq![
                writable(*mint, false),
                writable(*destination, false),
                readonly(*mint_authority, true),
            ],
            TokenInstructionModel::MintTo(amount),
        ),
{
    let accounts = vec![
        AccountMeta::new(*mint, false),
        AccountMeta::new(*destination, false),
        AccountMeta::new_readonly(*mint_authority, true),
    ];
    assert(accounts@ =~= seq![
        writable(*mint, false),
        writable(*destination, false),
        readonly(*mint_authority, true),
    ]);
    call(program_id, accounts, &TokenInstruction::MintTo { amount })
}

/// Moves tokens between accounts; whoever may do so signs.
pub fn transfer(
    program_id: Digest,
    source: &Digest,
    destination: &Digest,
    authority: &Digest,
    amount: u64,
) -> (r: Instruction)
    ensures
        calls::<TokenInstruction>(
            r,
            program_id,
            seq![
                writable(*source, false),
                writable(*destination, false),
                readonly(*authority, true),
            ],
            TokenInstructionModel::Transfer(amount),
        ),
{
    let accounts = vec![
        AccountMeta::new(*source, false),
        AccountMeta::new(*destination, false),
        AccountMeta::new_readonly(*authority, true),
    ];
    assert(accounts@ =~= seq![
        writable(*source, false),
        writable(*destination, false),
        readonly(*authority, true),
    ]);
    call(program_id, accounts, &TokenInstruction::Transfer { amount })
}

/// Lets a delegate spend tokens; the owner signs.
pub fn approve(
    program_id: Digest,
    source: &Digest,
    delegate: &Digest,
    owner: &Digest,
    amount: u64,
) -> (r: Instruction)
    ensures
        calls::<TokenInstruction>(
            r,
            program_id,
            seq![
                writable(*source, false),
                readonly(*delegate, false),
                readonly(*owner, true),
            ],
            TokenInstructionModel::Approve(amount),
        ),
{
    let accounts = vec![
        AccountMeta::new(*source, false),
        AccountMeta::new_readonly(*delegate, false),
        AccountMeta::new_readonly(*owner, true),
    ];
    assert(accounts@ =~= seq![
        writable(*source, false),
        readonly(*delegate, false),
        readonly(*owner, true),
    ]);
    call(program_id, accounts, &TokenInstruction::Approve { amount })
}

/// Ends what a delegate may do; the owner signs.
pub fn revoke(program_id: Digest, source: &Digest, owner: &Digest) -> (r: Instruction)
    ensures
        calls::<TokenInstruction>(
            r,
            program_id,
            seq![
                writable(*source, false),
                readonly(*owner, true),
            ],
            TokenInstructionModel::Revoke,
        ),
{
    let accounts = vec![AccountMeta::new(*source, false), AccountMeta::new_readonly(*owner, true)];
    assert(accounts@ =~= seq![writable(*source, false), readonly(*owner, true)]);
    call(program_id, accounts, &TokenInstruction::Revoke)
}

/// Burns tokens; whoever may do so signs.
pub fn burn(
    program_id: Digest,
    source: &Digest,
    mint: &Digest,
    authority: &Digest,
    amount: u64,
) -> (r: Instruction)
    ensures
        calls::<TokenInstruction>(
            r,
            program_id,
            seq![
                writable(*source, false),
                writable(*mint, false),
                readonly(*authority, true),
            ],
            TokenInstructionModel::Burn(amount),
        ),
{
    let accounts = vec![
        AccountMeta::new(*source, false),
        AccountMeta::new(*mint, false),
        AccountMeta::new_readonly(*authority, true),
    ];
    assert(accounts@ =~= seq![
        writable(*source, false),
        writable(*mint, false),
        readonly(*authority, true),
    ]);
    call(program_id, accounts, &TokenInstruction::Burn { amount })
}

/// Closes an account, its lamports going to another; whoever may do so signs.
pub fn close_account(
    program_id: Digest,
    account: &Digest,
    destination: &Digest,
    authority: &Digest,
) -> (r: Instruction)
    ensures
        calls::<TokenInstruction>(
            r,
            program_id,
            seq![
                writable(*account, false),
                writable(*destination, false),
                readonly(*authority, true),
            ],
            TokenInstructionModel::CloseAccount,
        ),
{
    let accounts = vec![
        AccountMeta::new(*account, false),
        AccountMeta::new(*destination, false),
        AccountMeta::new_readonly(*authority, true),
    ];
    assert(accounts@ =~= seq![
        writable(*account, false),
        writable(*destination, false),
        readonly(*authority, true),
    ]);
    call(program_id, accounts, &TokenInstruction::CloseAccount)
}

/// Freezes an account; the freeze authority signs.
pub fn freeze_account(
    program_id: Digest,
    account: &Digest,
    mint: &Digest,
    freeze_authority: &Digest,
) -> (r: Instruction)
    ensures
        calls::<TokenInstruction>(
            r,
            program_id,
            seq![
                writable(*account, false),
                readonly(*mint, false),
                readonly(*freeze_authority, true),
            ],
            TokenInstructionModel::FreezeAccount,
        ),
{
    let accounts = vec![
        AccountMeta::new(*account, false),
        AccountMeta::new_readonly(*mint, false),
        AccountMeta::new_readonly(*freeze_authority, true),
    ];
    assert(accounts@ =~= seq![
        writable(*account, false),
        readonly(*mint, false),
        readonly(*freeze_authority, true),
    ]);
    call(program_id, accounts, &TokenInstruction::FreezeAccount)
}

/// Thaws a frozen account; the freeze authority signs.
pub fn thaw_account(
    program_id: Digest,
    account: &Digest,
    mint: &Digest,
    freeze_authority: &Digest,
) -> (r: Instruction)
    ensures
        calls::<TokenInstruction>(
            r,
            program_id,
            seq![
                writable(*account, false),
                readonly(*mint, false),
                readonly(*freeze_authority, true),
            ],
            TokenInstructionModel::ThawAccount,
        ),
{
    let accounts = vec![
        AccountMeta::new(*account, false),
        AccountMeta::new_readonly(*mint, false),
        AccountMeta::new_readonly(*freeze_authority, true),
    ];
    assert(accounts@ =~= seq![
        writable(*account, false),
        readonly(*mint, false),
        readonly(*freeze_authority, true),
    ]);
    call(program_id, accounts, &TokenInstruction::ThawAccount)
}

/// An instruction begins with its number: they are counted from zero in the order in which they
/// are declared. Its fields follow in theirs.
pub proof fn token_instructions_are_numbered(x: TokenInstruction)
    ensures
        TokenInstruction::layout(x.model()) == match x {
            TokenInstruction::InitializeMint { decimals, mint_authority, freeze_authority } => seq![
                0u8,
                decimals,
            ] + mint_authority@ + <Option<Digest> as Codec>::layout(freeze_authority.model()),
            TokenInstruction::InitializeAccount => seq![1u8],
            TokenInstruction::MintTo { amount } => seq![2u8] + u64::layout(amount),
            TokenInstruction::Transfer { amount } => seq![3u8] + u64::layout(amount),
            TokenInstruction::Approve { amount } => seq![4u8] + u64::layout(amount),
            TokenInstruction::Revoke => seq![5u8],
            TokenInstruction::Burn { amount } => seq![6u8] + u64::layout(amount),
            TokenInstruction::CloseAccount => seq![7u8],
            TokenInstruction::FreezeAccount => seq![8u8],
            TokenInstruction::ThawAccount => seq![9u8],
        },
{
    match x {
        TokenInstruction::InitializeMint { decimals, mint_authority, freeze_authority } => {
            let rest = <Option<Digest> as Codec>::layout(freeze_authority.model());
            assert(seq![0u8] + (seq![decimals] + (mint_authority@ + rest)) =~= seq![0u8, decimals]
                + mint_authority@ + rest);
        },
        _ => {},
    }
}

} // verus!
