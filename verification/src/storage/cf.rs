//! The column families of the store: its separate key spaces.

use vstd::prelude::*;

verus! {

/// A column family.
#[derive(Clone, Copy, Debug, PartialEq, Eq, Structural)]
pub enum Cf {
    Default,
    Accounts,
    AccountIndex,
    Blocks,
    Transactions,
    AddressSignatures,
    SlotMeta,
    DataShreds,
    CodeShreds,
    BankHashes,
    Roots,
    SlotHashes,
    Sysvars,
    Snapshots,
    OwnerIndex,
    ProgramIndex,
    Slashes,
}

pub const CF_DEFAULT: Cf = Cf::Default;

pub const CF_ACCOUNTS: Cf = Cf::Accounts;

pub const CF_ACCOUNT_INDEX: Cf = Cf::AccountIndex;

pub const CF_BLOCKS: Cf = Cf::Blocks;

pub const CF_TRANSACTIONS: Cf = Cf::Transactions;

pub const CF_ADDRESS_SIGNATURES: Cf = Cf::AddressSignatures;

pub const CF_SLOT_META: Cf = Cf::SlotMeta;

pub const CF_DATA_SHREDS: Cf = Cf::DataShreds;

pub const CF_CODE_SHREDS: Cf = Cf::CodeShreds;

pub const CF_BANK_HASHES: Cf = Cf::BankHashes;

pub const CF_ROOTS: Cf = Cf::Roots;

pub const CF_SLOT_HASHES: Cf = Cf::SlotHashes;

pub const CF_SYSVARS: Cf = Cf::Sysvars;

pub const CF_SNAPSHOTS: Cf = Cf::Snapshots;

pub const CF_OWNER_INDEX: Cf = Cf::OwnerIndex;

pub const CF_PROGRAM_INDEX: Cf = Cf::ProgramIndex;

pub const CF_SLASHES: Cf = Cf::Slashes;

/// The number of bytes of a hash.
pub const HASH_BYTES: usize = 64;

/// The number of bytes of a slot in a key.
pub const SLOT_BYTES: usize = 8;

/// The column families, in the order in which they are opened.
pub open spec fn all_cfs() -> Seq<Cf> {
    seq![
        CF_DEFAULT,
        CF_ACCOUNTS,
        CF_ACCOUNT_INDEX,
        CF_BLOCKS,
        CF_TRANSACTIONS,
        CF_ADDRESS_SIGNATURES,
        CF_SLOT_META,
        CF_DATA_SHREDS,
        CF_CODE_SHREDS,
        CF_BANK_HASHES,
        CF_ROOTS,
        CF_SLOT_HASHES,
        CF_SYSVARS,
        CF_SNAPSHOTS,
        CF_OWNER_INDEX,
        CF_PROGRAM_INDEX,
        CF_SLASHES,
    ]
}

/// The name under which the database knows a column family.
pub open spec fn cf_name(cf: Cf) -> Seq<char> {
    match cf {
        Cf::Default => "default"@,
        Cf::Accounts => "accounts"@,
        Cf::AccountIndex => "account_index"@,
        Cf::Blocks => "blocks"@,
        Cf::Transactions => "transactions"@,
        Cf::AddressSignatures => "address_signatures"@,
        Cf::SlotMeta => "slot_meta"@,
        Cf::DataShreds => "data_shreds"@,
        Cf::CodeShreds => "code_shreds"@,
        Cf::BankHashes => "bank_hashes"@,
        Cf::Roots => "roots"@,
        Cf::SlotHashes => "slot_hashes"@,
        Cf::Sysvars => "sysvars"@,
        Cf::Snapshots => "snapshots"@,
        Cf::OwnerIndex => "owner_index"@,
        Cf::ProgramIndex => "program_index"@,
        Cf::Slashes => "slashes"@,
    }
}

/// Column families that are mostly read one key at a time have a bloom filter.
pub open spec fn has_bloom_filter(cf: Cf) -> bool {
    match cf {
        Cf::Default
        | Cf::Blocks
        | Cf::AddressSignatures
        | Cf::SlotMeta
        | Cf::DataShreds
        | Cf::CodeShreds => false,
        _ => true,
    }
}

/// The length of the prefix by which a column family is walked, if it is walked by one.
pub open spec fn prefix_len(cf: Cf) -> Option<usize> {
    match cf {
        Cf::Accounts
        | Cf::AddressSignatures
        | Cf::OwnerIndex
        | Cf::ProgramIndex
        | Cf::Slashes => Some(HASH_BYTES),
        Cf::DataShreds | Cf::CodeShreds => Some(SLOT_BYTES),
        _ => None,
    }
}

impl Cf {
    /// The column families, in the order in which they are opened.
    pub fn all() -> (r: Vec<Cf>)
        ensures
            r@ == all_cfs(),
    {
        let r = vec![
            CF_DEFAULT,
            CF_ACCOUNTS,
            CF_ACCOUNT_INDEX,
            CF_BLOCKS,
            CF_TRANSACTIONS,
            CF_ADDRESS_SIGNATURES,
            CF_SLOT_META,
            CF_DATA_SHREDS,
            CF_CODE_SHREDS,
            CF_BANK_HASHES,
            CF_ROOTS,
            CF_SLOT_HASHES,
            CF_SYSVARS,
            CF_SNAPSHOTS,
            CF_OWNER_INDEX,
            CF_PROGRAM_INDEX,
            CF_SLASHES,
        ];
        assert(r@ =~= all_cfs());
        r
    }

    /// The name under which the database knows the column family.
    pub fn name(&self) -> (r: &'static str)
        ensures
            r@ == cf_name(*self),
    {
        match self {
            Cf::Default => "default",
            Cf::Accounts => "accounts",
            Cf::AccountIndex => "account_index",
            Cf::Blocks => "blocks",
            Cf::Transactions => "transactions",
            Cf::AddressSignatures => "address_signatures",
            Cf::SlotMeta => "slot_meta",
            Cf::DataShreds => "data_shreds",
            Cf::CodeShreds => "code_shreds",
            Cf::BankHashes => "bank_hashes",
            Cf::Roots => "roots",
            Cf::SlotHashes => "slot_hashes",
            Cf::Sysvars => "sysvars",
            Cf::Snapshots => "snapshots",
            Cf::OwnerIndex => "owner_index",
            Cf::ProgramIndex => "program_index",
            Cf::Slashes => "slashes",
        }
    }

    /// Whether the column family has a bloom filter.
    pub fn bloom_filter(&self) -> (r: bool)
        ensures
            r == has_bloom_filter(*self),
    {
        match self {
            Cf::Default
            | Cf::Blocks
            | Cf::AddressSignatures
            | Cf::SlotMeta
            | Cf::DataShreds
            | Cf::CodeShreds => false,
            _ => true,
        }
    }

    /// The length of the prefix by which the column family is walked.
    pub fn prefix(&self) -> (r: Option<usize>)
        ensures
            r == prefix_len(*self),
    {
        match self {
            Cf::Accounts
            | Cf::AddressSignatures
            | Cf::OwnerIndex
            | Cf::ProgramIndex
            | Cf::Slashes => Some(HASH_BYTES),
            Cf::DataShreds | Cf::CodeShreds => Some(SLOT_BYTES),
            _ => None,
        }
    }
}

/// Every column family is opened, once.
pub proof fn every_cf_is_opened(cf: Cf)
    ensures
        all_cfs().contains(cf),
        all_cfs().no_duplicates(),
{
    let all = all_cfs();
    assert(all[0] == cf
        || all[1] == cf
        || all[2] == cf
        || all[3] == cf
        || all[4] == cf
        || all[5] == cf
        || all[6] == cf
        || all[7] == cf
        || all[8] == cf
        || all[9] == cf
        || all[10] == cf
        || all[11] == cf
        || all[12] == cf
        || all[13] == cf
        || all[14] == cf
        || all[15] == cf
        || all[16] == cf);
}

} // verus!
