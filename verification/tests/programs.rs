use nusantara::codec::{from_slice, to_vec};
use nusantara::digest::Digest;
use nusantara::system_program::{create_account, transfer, SystemInstruction};
use nusantara::sysvar_program::clock::Clock;
use nusantara::sysvar_program::epoch_schedule::EpochScheduleSysvar;
use nusantara::sysvar_program::recent_blockhashes::RecentBlockhashes;
use nusantara::sysvar_program::rent::RentSysvar;
use nusantara::sysvar_program::slot_hashes::SlotHashes;
use nusantara::sysvar_program::stake_history::{StakeHistory, StakeHistoryEntry};
use nusantara::sysvar_program::Sysvar;
use nusantara::token_program::state::{AccountState, Mint, TokenAccount};
use nusantara::token_program::TokenInstruction;

/// Three numbers, a flag, two numbers.
type Schedule = (u64, (u64, (u64, (bool, (u64, u64)))));

/// Two numbers and a percentage.
type Rent = (u64, (u64, u8));

/// A digest that tells labels apart.
fn hash(label: &[u8]) -> Digest {
    let mut bytes = [0u8; 64];
    for (i, b) in bytes.iter_mut().enumerate() {
        let mut acc = 131u32.wrapping_add(i as u32 * 2_654_435_761);
        for (j, &x) in label.iter().enumerate() {
            acc = acc.rotate_left(5).wrapping_mul(16_777_619) ^ (x as u32 + j as u32);
        }
        *b = (acc ^ (acc >> 8) ^ (acc >> 16) ^ (acc >> 24)) as u8;
    }
    Digest::new(bytes)
}

#[test]
fn clock_borsh_roundtrip() {
    let clock = Clock {
        slot: 42,
        epoch_start_timestamp: 1000,
        epoch: 1,
        leader_schedule_epoch: 2,
        unix_timestamp: 1234,
    };
    let encoded = to_vec(&clock).unwrap();
    let decoded: Clock = from_slice(&encoded).unwrap();
    assert_eq!(clock, decoded);
}

#[test]
fn id_is_deterministic() {
    let seed_hash = |seed: &Vec<u8>| hash(seed);
    assert_eq!(Clock::id(seed_hash), Clock::id(seed_hash));
    assert_eq!(Clock::id(seed_hash), hash(b"sysvar_clock"));
}

#[test]
fn epoch_schedule_borsh_roundtrip() {
    let sysvar: EpochScheduleSysvar<Schedule> = EpochScheduleSysvar::default();
    let encoded = to_vec(&sysvar).unwrap();
    let decoded: EpochScheduleSysvar<Schedule> = from_slice(&encoded).unwrap();
    assert_eq!(sysvar, decoded);
}

#[test]
fn recent_blockhashes_borsh_roundtrip() {
    let hashes = RecentBlockhashes::new(vec![
        hash(b"block1"),
        hash(b"block2"),
    ]);
    let encoded = to_vec(&hashes).unwrap();
    let decoded: RecentBlockhashes = from_slice(&encoded).unwrap();
    assert_eq!(hashes, decoded);
}

#[test]
fn contains() {
    let h = hash(b"target");
    let hashes = RecentBlockhashes::new(vec![h]);
    assert!(hashes.contains(&h));
    assert!(!hashes.contains(&hash(b"other")));
}

#[test]
fn rent_borsh_roundtrip() {
    let sysvar: RentSysvar<Rent> = RentSysvar::default();
    let encoded = to_vec(&sysvar).unwrap();
    let decoded: RentSysvar<Rent> = from_slice(&encoded).unwrap();
    assert_eq!(sysvar, decoded);
}

#[test]
fn slot_hashes_borsh_roundtrip() {
    let hashes = SlotHashes::new(vec![
        (100, hash(b"slot100")),
        (99, hash(b"slot99")),
    ]);
    let encoded = to_vec(&hashes).unwrap();
    let decoded: SlotHashes = from_slice(&encoded).unwrap();
    assert_eq!(hashes, decoded);
}

#[test]
fn get_slot() {
    let h = hash(b"slot42");
    let hashes = SlotHashes::new(vec![(42, h)]);
    assert_eq!(hashes.get(42), Some(&h));
    assert_eq!(hashes.get(99), None);
}

#[test]
fn stake_history_borsh_roundtrip() {
    let history = StakeHistory::new(vec![(
        1,
        StakeHistoryEntry {
            effective: 1000,
            activating: 500,
            deactivating: 200,
        },
    )]);
    let encoded = to_vec(&history).unwrap();
    let decoded: StakeHistory = from_slice(&encoded).unwrap();
    assert_eq!(history, decoded);
}

#[test]
fn get_epoch() {
    let entry = StakeHistoryEntry {
        effective: 100,
        activating: 50,
        deactivating: 25,
    };
    let history = StakeHistory::new(vec![(5, entry.clone())]);
    assert_eq!(history.get(5), Some(&entry));
    assert_eq!(history.get(6), None);
}

#[test]
fn system_instruction_borsh_roundtrip() {
    let instructions = vec![
        SystemInstruction::CreateAccount {
            lamports: 1000,
            space: 100,
            owner: hash(b"owner"),
        },
        SystemInstruction::Transfer { lamports: 500 },
        SystemInstruction::Assign {
            owner: hash(b"new_owner"),
        },
        SystemInstruction::Allocate { space: 200 },
        SystemInstruction::AdvanceNonceAccount,
        SystemInstruction::WithdrawNonceAccount(100),
        SystemInstruction::InitializeNonceAccount(hash(b"authority")),
        SystemInstruction::AuthorizeNonceAccount(hash(b"new_auth")),
    ];

    for ix in &instructions {
        let encoded = to_vec(ix).unwrap();
        let decoded: SystemInstruction = from_slice(&encoded).unwrap();
        assert_eq!(*ix, decoded);
    }
}

#[test]
fn create_account_instruction() {
    let from = hash(b"from");
    let to = hash(b"to");
    let owner = hash(b"owner");
    let ix = create_account(hash(b"system_program"), &from, &to, 1000, 100, &owner);
    assert_eq!(ix.program_id, hash(b"system_program"));
    assert_eq!(ix.accounts.len(), 2);
    assert!(ix.accounts[0].is_signer);
    assert!(ix.accounts[1].is_signer);
}

#[test]
fn transfer_instruction() {
    let from = hash(b"from");
    let to = hash(b"to");
    let ix = transfer(hash(b"system_program"), &from, &to, 500);
    assert_eq!(ix.program_id, hash(b"system_program"));
    assert_eq!(ix.accounts.len(), 2);

    let decoded: SystemInstruction = from_slice(&ix.data).unwrap();
    assert_eq!(decoded, SystemInstruction::Transfer { lamports: 500 });
}

#[test]
fn instruction_roundtrip() {
    let cases: Vec<TokenInstruction> = vec![
        TokenInstruction::InitializeMint {
            decimals: 9,
            mint_authority: hash(b"auth"),
            freeze_authority: None,
        },
        TokenInstruction::InitializeAccount,
        TokenInstruction::MintTo { amount: 1000 },
        TokenInstruction::Transfer { amount: 500 },
        TokenInstruction::Approve { amount: 200 },
        TokenInstruction::Revoke,
        TokenInstruction::Burn { amount: 100 },
        TokenInstruction::CloseAccount,
        TokenInstruction::FreezeAccount,
        TokenInstruction::ThawAccount,
    ];

    for ix in cases {
        let bytes = to_vec(&ix).unwrap();
        let decoded: TokenInstruction = from_slice(&bytes).unwrap();
        assert_eq!(ix, decoded);
    }
}

#[test]
fn mint_roundtrip() {
    let mint = Mint {
        mint_authority: Some(hash(b"auth")),
        supply: 1_000_000,
        decimals: 9,
        is_initialized: true,
        freeze_authority: None,
    };
    let bytes = to_vec(&mint).unwrap();
    let decoded: Mint = from_slice(&bytes).unwrap();
    assert_eq!(mint, decoded);
}

#[test]
fn token_account_roundtrip() {
    let acc = TokenAccount {
        mint: hash(b"mint"),
        owner: hash(b"owner"),
        amount: 500,
        delegate: None,
        state: AccountState::Initialized,
        delegated_amount: 0,
        close_authority: None,
    };
    let bytes = to_vec(&acc).unwrap();
    let decoded: TokenAccount = from_slice(&bytes).unwrap();
    assert_eq!(acc, decoded);
}

#[test]
fn account_state_default_is_uninitialized() {
    assert_eq!(AccountState::default(), AccountState::Uninitialized);
}
