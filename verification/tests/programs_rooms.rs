use nusantara::codec::{from_slice, to_vec};
use nusantara::digest::Digest;
use nusantara::ledger::{AccountMeta, Instruction};
use nusantara::system_program::{allocate, assign, SystemInstruction};
use nusantara::sysvar_program::clock::Clock;
use nusantara::sysvar_program::recent_blockhashes::RecentBlockhashes;
use nusantara::sysvar_program::slot_hashes::SlotHashes;
use nusantara::sysvar_program::stake_history::{StakeHistory, StakeHistoryEntry};
use nusantara::sysvar_program::Sysvar;
use nusantara::token_program::error::TokenError;
use nusantara::token_program::state::{AccountState, Mint, TokenAccount};
use nusantara::token_program::{
    approve, burn, close_account, freeze_account, initialize_account, initialize_mint, mint_to,
    revoke, thaw_account, transfer, TokenInstruction,
};

fn id(label: u8) -> Digest {
    Digest::new([label; 64])
}

/// The instruction is for the program `id(0)`, touches these accounts, and says this.
fn says(ix: Instruction, accounts: Vec<AccountMeta>, what: TokenInstruction) {
    assert_eq!(ix.program_id, id(0));
    assert_eq!(ix.accounts, accounts);
    assert_eq!(ix.data, to_vec(&what).unwrap());
    assert_eq!(from_slice::<TokenInstruction>(&ix.data).unwrap(), what);
}

#[test]
fn token_instructions_name_their_accounts() {
    let p = id(0);
    let (a, b, c) = (id(1), id(2), id(3));
    let w = |d: Digest| AccountMeta::new(d, false);
    let r = |d: Digest| AccountMeta::new_readonly(d, false);
    let s = |d: Digest| AccountMeta::new_readonly(d, true);
    let mint = TokenInstruction::InitializeMint {
        decimals: 9,
        mint_authority: b,
        freeze_authority: Some(c),
    };
    let rent = id(4);
    says(initialize_mint(p, &a, 9, &b, Some(&c), &rent), vec![w(a), r(rent)], mint);
    let ix = initialize_account(p, &a, &b, &c, &rent);
    says(ix, vec![w(a), r(b), r(c), r(rent)], TokenInstruction::InitializeAccount);
    let ix = mint_to(p, &a, &b, &c, 5);
    says(ix, vec![w(a), w(b), s(c)], TokenInstruction::MintTo { amount: 5 });
    let ix = transfer(p, &a, &b, &c, 6);
    says(ix, vec![w(a), w(b), s(c)], TokenInstruction::Transfer { amount: 6 });
    let ix = approve(p, &a, &b, &c, 7);
    says(ix, vec![w(a), r(b), s(c)], TokenInstruction::Approve { amount: 7 });
    says(revoke(p, &a, &b), vec![w(a), s(b)], TokenInstruction::Revoke);
    let ix = burn(p, &a, &b, &c, 8);
    says(ix, vec![w(a), w(b), s(c)], TokenInstruction::Burn { amount: 8 });
    let ix = close_account(p, &a, &b, &c);
    says(ix, vec![w(a), w(b), s(c)], TokenInstruction::CloseAccount);
    let ix = freeze_account(p, &a, &b, &c);
    says(ix, vec![w(a), r(b), s(c)], TokenInstruction::FreezeAccount);
    let ix = thaw_account(p, &a, &b, &c);
    says(ix, vec![w(a), r(b), s(c)], TokenInstruction::ThawAccount);
}

#[test]
fn system_instructions_have_their_layout() {
    let ix = assign(id(0), &id(1), &id(2));
    assert_eq!(ix.data[0], 2);
    assert_eq!(&ix.data[1..], id(2).as_bytes());
    let ix = allocate(id(0), &id(1), 258);
    assert_eq!(ix.data, vec![3, 2, 1, 0, 0, 0, 0, 0, 0]);
    assert_eq!(
        from_slice::<SystemInstruction>(&ix.data).unwrap(),
        SystemInstruction::Allocate { space: 258 }
    );
    assert!(from_slice::<SystemInstruction>(&[99]).is_err());
    assert!(from_slice::<SystemInstruction>(&[]).is_err());
}

#[test]
fn token_state_fits_its_room() {
    let mut mint = Mint {
        mint_authority: Some(id(1)),
        supply: 10,
        decimals: 2,
        is_initialized: true,
        freeze_authority: Some(id(2)),
    };
    assert_eq!(to_vec(&mint).unwrap().len(), Mint::LEN);
    mint.freeze_authority = None;
    assert_eq!(to_vec(&mint).unwrap().len(), Mint::LEN - 64);
    let account = TokenAccount {
        mint: id(1),
        owner: id(2),
        amount: 3,
        delegate: Some(id(4)),
        state: AccountState::Frozen,
        delegated_amount: 5,
        close_authority: Some(id(6)),
    };
    assert_eq!(to_vec(&account).unwrap().len(), TokenAccount::LEN);
    assert_eq!((Mint::LEN, TokenAccount::LEN), (140, 275));
}

#[test]
fn sysvars_fit_their_room() {
    let clock = Clock {
        slot: 1,
        epoch_start_timestamp: -2,
        epoch: 3,
        leader_schedule_epoch: 4,
        unix_timestamp: -5,
    };
    assert_eq!(to_vec(&clock).unwrap().len(), Clock::size_of());
    assert_eq!(from_slice::<Clock>(&to_vec(&clock).unwrap()).unwrap(), clock);
    let hashes = RecentBlockhashes::new(vec![id(1); 150]);
    assert!(to_vec(&hashes).unwrap().len() <= RecentBlockhashes::size_of());
    let entry = StakeHistoryEntry { effective: 1, activating: 2, deactivating: 3 };
    let history = StakeHistory::new(vec![(7, entry)]);
    assert!(to_vec(&history).unwrap().len() <= StakeHistory::size_of());
    assert_eq!(history.get(7), Some(&entry));
    assert_eq!(history.get(8), None);
    assert!(SlotHashes::new(Vec::new()).is_empty());
    assert!(to_vec(&SlotHashes::new(Vec::new())).unwrap().len() <= SlotHashes::size_of());
}

#[test]
fn token_error_texts() {
    assert_eq!(
        TokenError::InsufficientBalance { need: 12, have: 7 }.describe(),
        "insufficient token balance: need 12, have 7"
    );
    assert_eq!(
        TokenError::InsufficientDelegation { need: 2, have: 0 }.describe(),
        "insufficient delegation: need 2, have 0"
    );
    assert_eq!(
        TokenError::InvalidInstructionData("x".to_string()).describe(),
        "invalid instruction data"
    );
    assert_eq!(TokenError::CloseNonEmpty.describe(), "close non-empty account");
}
