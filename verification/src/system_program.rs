//! The program that creates accounts and moves lamports between them.

use crate::codec::{Codec, Fault};
use crate::digest::Digest;
use crate::ledger::{call, calls, writable, AccountMeta, Instruction};
use vstd::prelude::*;
use vstd::slice::slice_subrange;

verus! {

#[derive(Clone, Debug, PartialEq, Eq)]
pub enum SystemInstruction {
    CreateAccount { lamports: u64, space: u64, owner: Digest },
    Transfer { lamports: u64 },
    Assign { owner: Digest },
    Allocate { space: u64 },
    CreateAccountWithSeed { base: Digest, seed: String, lamports: u64, space: u64, owner: Digest },
    AdvanceNonceAccount,
    WithdrawNonceAccount(u64),
    InitializeNonceAccount(Digest),
    AuthorizeNonceAccount(Digest),
}

/// An instruction, as a mathematical value.
pub enum SystemInstructionModel {
    CreateAccount(<(u64, (u64, Digest)) as Codec>::M),
    Transfer(<u64 as Codec>::M),
    Assign(<Digest as Codec>::M),
    Allocate(<u64 as Codec>::M),
    CreateAccountWithSeed(<(Digest, (String, (u64, (u64, Digest)))) as Codec>::M),
    AdvanceNonceAccount,
    WithdrawNonceAccount(<u64 as Codec>::M),
    InitializeNonceAccount(<Digest as Codec>::M),
    AuthorizeNonceAccount(<Digest as Codec>::M),
}

impl SystemInstructionModel {
    pub open spec fn tag(self) -> u8 {
        match self {
            SystemInstructionModel::CreateAccount(_) => 0,
            SystemInstructionModel::Transfer(_) => 1,
            SystemInstructionModel::Assign(_) => 2,
            SystemInstructionModel::Allocate(_) => 3,
            SystemInstructionModel::CreateAccountWithSeed(_) => 4,
            SystemInstructionModel::AdvanceNonceAccount => 5,
            SystemInstructionModel::WithdrawNonceAccount(_) => 6,
            SystemInstructionModel::InitializeNonceAccount(_) => 7,
            SystemInstructionModel::AuthorizeNonceAccount(_) => 8,
        }
    }

    pub open spec fn body(self) -> Seq<u8> {
        match self {
            SystemInstructionModel::CreateAccount(x) => <(u64, (u64, Digest)) as Codec>::layout(x),
            SystemInstructionModel::Transfer(x) => <u64 as Codec>::layout(x),
            SystemInstructionModel::Assign(x) => <Digest as Codec>::layout(x),
            SystemInstructionModel::Allocate(x) => <u64 as Codec>::layout(x),
            SystemInstructionModel::CreateAccountWithSeed(x) => <(
                Digest,
                (String, (u64, (u64, Digest))),
            ) as Codec>::layout(x),
            SystemInstructionModel::AdvanceNonceAccount => Seq::empty(),
            SystemInstructionModel::WithdrawNonceAccount(x) => <u64 as Codec>::layout(x),
            SystemInstructionModel::InitializeNonceAccount(x) => <Digest as Codec>::layout(x),
            SystemInstructionModel::AuthorizeNonceAccount(x) => <Digest as Codec>::layout(x),
        }
    }
}

/// A byte that tells the kind, then the fields of that kind.
impl Codec for SystemInstruction {
    type M = SystemInstructionModel;

    open spec fn model(&self) -> SystemInstructionModel {
        match *self {
            SystemInstruction::CreateAccount {
                lamports,
                space,
                owner,
            } => SystemInstructionModel::CreateAccount((
                lamports.model(),
                (space.model(), owner.model()),
            )),
            SystemInstruction::Transfer { lamports } => SystemInstructionModel::Transfer(lamports.model()),
            SystemInstruction::Assign { owner } => SystemInstructionModel::Assign(owner.model()),
            SystemInstruction::Allocate { space } => SystemInstructionModel::Allocate(space.model()),
            SystemInstruction::CreateAccountWithSeed {
                base,
                seed,
                lamports,
                space,
                owner,
            } => SystemInstructionModel::CreateAccountWithSeed((
                base.model(),
                (seed.model(), (lamports.model(), (space.model(), owner.model()))),
            )),
            SystemInstruction::AdvanceNonceAccount => SystemInstructionModel::AdvanceNonceAccount,
            SystemInstruction::WithdrawNonceAccount(lamports) => SystemInstructionModel::WithdrawNonceAccount(lamports.model()),
            SystemInstruction::InitializeNonceAccount(authority) => SystemInstructionModel::InitializeNonceAccount(authority.model()),
            SystemInstruction::AuthorizeNonceAccount(authority) => SystemInstructionModel::AuthorizeNonceAccount(authority.model()),
        }
    }

    open spec fn well_formed(&self) -> bool {
        true
    }

    open spec fn layout(m: SystemInstructionModel) -> Seq<u8> {
        seq![m.tag()] + m.body()
    }

    open spec fn fits(m: SystemInstructionModel) -> bool {
        match m {
            SystemInstructionModel::CreateAccountWithSeed(x) => <(
                Digest,
                (String, (u64, (u64, Digest))),
            ) as Codec>::fits(x),
            _ => true,
        }
    }

    open spec fn fault(bytes: Seq<u8>) -> Fault {
        let tail = bytes.drop_first();
        if bytes.len() == 0 {
            Fault::Short
        } else if bytes[0] == 0 {
            <(u64, (u64, Digest)) as Codec>::fault(tail)
        } else if bytes[0] == 1 {
            <u64 as Codec>::fault(tail)
        } else if bytes[0] == 2 {
            <Digest as Codec>::fault(tail)
        } else if bytes[0] == 3 {
            <u64 as Codec>::fault(tail)
        } else if bytes[0] == 4 {
            <(Digest, (String, (u64, (u64, Digest)))) as Codec>::fault(tail)
        } else if bytes[0] == 6 {
            <u64 as Codec>::fault(tail)
        } else if bytes[0] == 7 {
            <Digest as Codec>::fault(tail)
        } else if bytes[0] == 8 {
            <Digest as Codec>::fault(tail)
        } else {
            Fault::Variant(bytes[0])
        }
    }

    proof fn prefix_free(a: SystemInstructionModel, b: SystemInstructionModel, s: Seq<u8>, t: Seq<u8>) {
        let x = Self::layout(a) + s;
        let y = Self::layout(b) + t;
        assert(x[0] == a.tag());
        assert(y[0] == b.tag());
        assert(x.drop_first() =~= a.body() + s);
        assert(y.drop_first() =~= b.body() + t);
        match (a, b) {
            (SystemInstructionModel::CreateAccount(p), SystemInstructionModel::CreateAccount(q)) => {
                <(u64, (u64, Digest)) as Codec>::prefix_free(p, q, s, t);
            },
            (SystemInstructionModel::Transfer(p), SystemInstructionModel::Transfer(q)) => {
                <u64 as Codec>::prefix_free(p, q, s, t);
            },
            (SystemInstructionModel::Assign(p), SystemInstructionModel::Assign(q)) => {
                <Digest as Codec>::prefix_free(p, q, s, t);
            },
            (SystemInstructionModel::Allocate(p), SystemInstructionModel::Allocate(q)) => {
                <u64 as Codec>::prefix_free(p, q, s, t);
            },
            (
                SystemInstructionModel::CreateAccountWithSeed(p),
                SystemInstructionModel::CreateAccountWithSeed(q),
            ) => {
                <(Digest, (String, (u64, (u64, Digest)))) as Codec>::prefix_free(p, q, s, t);
            },
            (
                SystemInstructionModel::WithdrawNonceAccount(p),
                SystemInstructionModel::WithdrawNonceAccount(q),
            ) => {
                <u64 as Codec>::prefix_free(p, q, s, t);
            },
            (
                SystemInstructionModel::InitializeNonceAccount(p),
                SystemInstructionModel::InitializeNonceAccount(q),
            ) => {
                <Digest as Codec>::prefix_free(p, q, s, t);
            },
            (
                SystemInstructionModel::AuthorizeNonceAccount(p),
                SystemInstructionModel::AuthorizeNonceAccount(q),
            ) => {
                <Digest as Codec>::prefix_free(p, q, s, t);
            },
            _ => {
                assert(a.body() + s =~= s || a.body().len() > 0);
                assert(b.body() + t =~= t || b.body().len() > 0);
            },
        }
    }

    fn encode(&self, out: &mut Vec<u8>) -> (ok: bool) {
        let ok: bool;
        match self {
            SystemInstruction::CreateAccount { lamports, space, owner } => {
                out.push(0);
                let _ = lamports.encode(out);
                let _ = space.encode(out);
                let _ = owner.encode(out);
                ok = true;
            },
            SystemInstruction::Transfer { lamports } => {
                out.push(1);
                let _ = lamports.encode(out);
                ok = true;
            },
            SystemInstruction::Assign { owner } => {
                out.push(2);
                let _ = owner.encode(out);
                ok = true;
            },
            SystemInstruction::Allocate { space } => {
                out.push(3);
                let _ = space.encode(out);
                ok = true;
            },
            SystemInstruction::CreateAccountWithSeed { base, seed, lamports, space, owner } => {
                out.push(4);
                let _ = base.encode(out);
                let seed_ok = seed.encode(out);
                let _ = lamports.encode(out);
                let _ = space.encode(out);
                let _ = owner.encode(out);
                ok = seed_ok;
            },
            SystemInstruction::AdvanceNonceAccount => {
                out.push(5);
                ok = true;
            },
            SystemInstruction::WithdrawNonceAccount(lamports) => {
                out.push(6);
                let _ = lamports.encode(out);
                ok = true;
            },
            SystemInstruction::InitializeNonceAccount(authority) => {
                out.push(7);
                let _ = authority.encode(out);
                ok = true;
            },
            SystemInstruction::AuthorizeNonceAccount(authority) => {
                out.push(8);
                let _ = authority.encode(out);
                ok = true;
            },
        }
        assert(ok ==> out@ =~= old(out)@ + Self::layout(self.model()));
        ok
    }

    fn decode<'a>(input: &'a [u8]) -> (r: Result<(Self, &'a [u8]), Fault>) {
        let len: usize = input.len();
        if len == 0 {
            assert forall|m: SystemInstructionModel, rest: Seq<u8>| Self::fits(m) implies input@ != #[trigger] (
            Self::layout(m) + rest) by {
                assert((Self::layout(m) + rest).len() > 0);
            }
            return Err(Fault::Short);
        }
        let tag: u8 = input[0];
        let tail = slice_subrange(input, 1, len);
        assert(input@ =~= seq![tag] + tail@);
        let r: Result<(Self, &'a [u8]), Fault> = if tag == 0 {
            match <(u64, (u64, Digest)) as Codec>::decode(tail) {
                Ok(((lamports, (space, owner)), rest)) => Ok((
                    SystemInstruction::CreateAccount { lamports, space, owner },
                    rest,
                )),
                Err(f) => Err(f),
            }
        } else if tag == 1 {
            match <u64 as Codec>::decode(tail) {
                Ok((lamports, rest)) => Ok((SystemInstruction::Transfer { lamports }, rest)),
                Err(f) => Err(f),
            }
        } else if tag == 2 {
            match <Digest as Codec>::decode(tail) {
                Ok((owner, rest)) => Ok((SystemInstruction::Assign { owner }, rest)),
                Err(f) => Err(f),
            }
        } else if tag == 3 {
            match <u64 as Codec>::decode(tail) {
                Ok((space, rest)) => Ok((SystemInstruction::Allocate { space }, rest)),
                Err(f) => Err(f),
            }
        } else if tag == 4 {
            match <(Digest, (String, (u64, (u64, Digest)))) as Codec>::decode(tail) {
                Ok(((base, (seed, (lamports, (space, owner)))), rest)) => Ok((
                    SystemInstruction::CreateAccountWithSeed { base, seed, lamports, space, owner },
                    rest,
                )),
                Err(f) => Err(f),
            }
        } else if tag == 5 {
            Ok((SystemInstruction::AdvanceNonceAccount, tail))
        } else if tag == 6 {
            match <u64 as Codec>::decode(tail) {
                Ok((lamports, rest)) => Ok((
                    SystemInstruction::WithdrawNonceAccount(lamports),
                    rest,
                )),
                Err(f) => Err(f),
            }
        } else if tag == 7 {
            match <Digest as Codec>::decode(tail) {
                Ok((authority, rest)) => Ok((
                    SystemInstruction::InitializeNonceAccount(authority),
                    rest,
                )),
                Err(f) => Err(f),
            }
        } else if tag == 8 {
            match <Digest as Codec>::decode(tail) {
                Ok((authority, rest)) => Ok((
                    SystemInstruction::AuthorizeNonceAccount(authority),
                    rest,
                )),
                Err(f) => Err(f),
            }
        } else {
            Err(Fault::Variant(tag))
        };
        proof {
            if r is Ok {
                let m = (r->Ok_0).0.model();
                let rest = (r->Ok_0).1@;
                assert(Self::layout(m) + rest =~= seq![m.tag()] + (m.body() + rest));
                assert(m.body().len() == 0 ==> m.body() + rest =~= rest);
            } else {
                assert forall|m: SystemInstructionModel, rest: Seq<u8>| Self::fits(m) implies input@ != #[trigger] (
                Self::layout(m) + rest) by {
                    if input@ == Self::layout(m) + rest {
                        assert(input@[0] == m.tag());
                        assert(tail@ =~= m.body() + rest);
                    }
                }
            }
        }
        r
    }
}

/// Creates an account with lamports from another. Both sign. `program_id` is the identity
/// of this program.
pub fn create_account(
    program_id: Digest,
    from: &Digest,
    to: &Digest,
    lamports: u64,
    space: u64,
    owner: &Digest,
) -> (r: Instruction)
    ensures
        calls::<SystemInstruction>(
            r,
            program_id,
            seq![writable(*from, true), writable(*to, true)],
            SystemInstructionModel::CreateAccount((lamports, (space, *owner))),
        ),
{
    let accounts = vec![AccountMeta::new(*from, true), AccountMeta::new(*to, true)];
    assert(accounts@ =~= seq![writable(*from, true), writable(*to, true)]);
    call(
        program_id,
        accounts,
        &SystemInstruction::CreateAccount { lamports, space, owner: *owner },
    )
}

/// Moves lamports from one account, which signs, to another.
pub fn transfer(program_id: Digest, from: &Digest, to: &Digest, lamports: u64) -> (r: Instruction)
    ensures
        calls::<SystemInstruction>(
            r,
            program_id,
            seq![writable(*from, true), writable(*to, false)],
            SystemInstructionModel::Transfer(lamports),
        ),
{
    let accounts = vec![AccountMeta::new(*from, true), AccountMeta::new(*to, false)];
    assert(accounts@ =~= seq![writable(*from, true), writable(*to, false)]);
    call(program_id, accounts, &SystemInstruction::Transfer { lamports })
}

/// Gives an account, which signs, another owner.
pub fn assign(program_id: Digest, account: &Digest, owner: &Digest) -> (r: Instruction)
    ensures
        calls::<SystemInstruction>(
            r,
            program_id,
            seq![writable(*account, true)],
            SystemInstructionModel::Assign(*owner),
        ),
{
    let accounts = vec![AccountMeta::new(*account, true)];
    assert(accounts@ =~= seq![writable(*account, true)]);
    call(program_id, accounts, &SystemInstruction::Assign { owner: *owner })
}

/// Gives an account, which signs, room for data.
pub fn allocate(program_id: Digest, account: &Digest, space: u64) -> (r: Instruction)
    ensures
        calls::<SystemInstruction>(
            r,
            program_id,
            seq![writable(*account, true)],
            SystemInstructionModel::Allocate(space),
        ),
{
    let accounts = vec![AccountMeta::new(*account, true)];
    assert(accounts@ =~= seq![writable(*account, true)]);
    call(program_id, accounts, &SystemInstruction::Allocate { space })
}

/// An instruction begins with its number: they are counted from zero in the order in which they
/// are declared. Its fields follow in theirs.
pub proof fn system_instructions_are_numbered(x: SystemInstruction)
    ensures
        SystemInstruction::layout(x.model()) == match x {
            SystemInstruction::CreateAccount { lamports, space, owner } => seq![0u8] + u64::layout(
                lamports,
            ) + u64::layout(space) + owner@,
            SystemInstruction::Transfer { lamports } => seq![1u8] + u64::layout(lamports),
            SystemInstruction::Assign { owner } => seq![2u8] + owner@,
            SystemInstruction::Allocate { space } => seq![3u8] + u64::layout(space),
            SystemInstruction::CreateAccountWithSeed { base, seed, lamports, space, owner } => seq![
                4u8,
            ] + base@ + String::layout(seed@) + u64::layout(lamports) + u64::layout(space) + owner@,
            SystemInstruction::AdvanceNonceAccount => seq![5u8],
            SystemInstruction::WithdrawNonceAccount(lamports) => seq![6u8] + u64::layout(lamports),
            SystemInstruction::InitializeNonceAccount(authority) => seq![7u8] + authority@,
            SystemInstruction::AuthorizeNonceAccount(authority) => seq![8u8] + authority@,
        },
{
}

} // verus!
