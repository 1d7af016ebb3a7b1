use anchor_lang::solana_program::program_option::COption;
use anchor_lang::solana_program::program_pack::Pack;
use anchor_spl::token::spl_token::state::{Account, AccountState};
use orderbook::accounts::{
    account_reply, get_next_maker_accounts, AccountRecord, MakerAccounts, TokenHolding,
};
use orderbook::book::{initialize, Initialize};
use orderbook::key::Pubkey;
use orderbook::order::{DexError, Side};
use orderbook::place::{place_order, Action, PlaceOrder, Reply};

fn id(tag: u8) -> Pubkey {
    Pubkey::new([tag; 32])
}

fn token_program() -> Pubkey {
    Pubkey::new(anchor_spl::token::ID.to_bytes())
}

/// The data of a token account of `mint` that belongs to `owner`.
fn token_data(mint: Pubkey, owner: Pubkey, state: AccountState) -> Vec<u8> {
    let account = Account {
        mint: anchor_lang::prelude::Pubkey::new_from_array(mint.bytes),
        owner: anchor_lang::prelude::Pubkey::new_from_array(owner.bytes),
        amount: 77,
        delegate: COption::None,
        state,
        is_native: COption::None,
        delegated_amount: 0,
        close_authority: COption::None,
    };
    let mut data = vec![0u8; Account::LEN];
    Account::pack(account, &mut data).unwrap();
    data
}

/// A token account at address `key` that belongs to `owner`.
fn token_account(key: u8, owner: u8) -> AccountRecord {
    AccountRecord {
        key: id(key),
        owner: token_program(),
        lamports: 2_039_280,
        data: token_data(id(250), id(owner), AccountState::Initialized),
    }
}

#[test]
fn the_recorded_owner_is_read_out_of_the_account_data() {
    let accounts = vec![token_account(10, 2), token_account(11, 3)];
    let mut cursor = 0usize;
    let found = get_next_maker_accounts(&accounts, &mut cursor);
    assert_eq!(
        found,
        Some(MakerAccounts {
            owner_token_account: TokenHolding { key: id(10), owner: id(2) },
            quote_token_account: TokenHolding { key: id(11), owner: id(3) },
        })
    );
    assert_eq!(cursor, 2);
    assert_eq!(account_reply(&found), Reply::Account(id(2)));
}

#[test]
fn accounts_are_taken_two_at_a_time() {
    let accounts = vec![
        token_account(10, 2),
        token_account(11, 2),
        token_account(12, 3),
        token_account(13, 3),
        token_account(14, 4),
    ];
    let mut cursor = 0usize;
    let first = get_next_maker_accounts(&accounts, &mut cursor).unwrap();
    assert_eq!(first.owner_token_account.owner, id(2));
    assert_eq!(cursor, 2);
    let second = get_next_maker_accounts(&accounts, &mut cursor).unwrap();
    assert_eq!(second.owner_token_account, TokenHolding { key: id(12), owner: id(3) });
    assert_eq!(second.quote_token_account, TokenHolding { key: id(13), owner: id(3) });
    assert_eq!(cursor, 4);
    // One account is left: not enough for a maker.
    assert_eq!(get_next_maker_accounts(&accounts, &mut cursor), None);
    assert_eq!(cursor, 4);
    let mut beyond = 9usize;
    assert_eq!(get_next_maker_accounts(&accounts, &mut beyond), None);
    assert_eq!(beyond, 9);
    let mut none = 0usize;
    assert_eq!(get_next_maker_accounts(&Vec::new(), &mut none), None);
    assert_eq!(account_reply(&None), Reply::AccountMissing);
}

#[test]
fn an_account_of_another_program_is_not_a_token_account() {
    let mut stranger = token_account(10, 2);
    stranger.owner = id(99);
    let mut cursor = 0usize;
    assert_eq!(
        get_next_maker_accounts(&vec![stranger.clone(), token_account(11, 2)], &mut cursor),
        None
    );
    assert_eq!(cursor, 2);
    cursor = 0;
    assert_eq!(
        get_next_maker_accounts(&vec![token_account(11, 2), stranger], &mut cursor),
        None
    );
    assert_eq!(cursor, 2);
}

#[test]
fn an_uninitialized_or_misshapen_account_is_not_a_token_account() {
    let mut blank = token_account(10, 2);
    blank.data = token_data(id(250), id(2), AccountState::Uninitialized);
    let mut cursor = 0usize;
    assert_eq!(
        get_next_maker_accounts(&vec![blank, token_account(11, 2)], &mut cursor),
        None
    );
    let mut short = token_account(10, 2);
    short.data.pop();
    cursor = 0;
    assert_eq!(
        get_next_maker_accounts(&vec![short, token_account(11, 2)], &mut cursor),
        None
    );
    let mut empty = token_account(10, 2);
    empty.data.clear();
    empty.owner = Pubkey::new([0u8; 32]);
    empty.lamports = 0;
    cursor = 0;
    assert_eq!(
        get_next_maker_accounts(&vec![token_account(11, 2), empty], &mut cursor),
        None
    );
    let mut frozen = token_account(10, 2);
    frozen.data = token_data(id(250), id(2), AccountState::Frozen);
    cursor = 0;
    assert!(get_next_maker_accounts(&vec![frozen, token_account(11, 2)], &mut cursor).is_some());
}

#[test]
fn a_placement_settles_with_the_accounts_that_belong_to_the_maker() {
    let mut book = initialize(Initialize { base_mint: id(200), quote_mint: id(201) });
    let (mut resting, _) = PlaceOrder::new(id(2), Side::Sell, 100, 5).unwrap();
    place_order(&mut book, &mut resting, Reply::Transferred);

    let accounts = vec![token_account(10, 2), token_account(11, 2)];
    let mut cursor = 0usize;
    let (mut order, _) = PlaceOrder::new(id(1), Side::Buy, 100, 5).unwrap();
    assert_eq!(
        place_order(&mut book, &mut order, Reply::Transferred),
        Action::Resolve { owner: id(2) }
    );
    let found = get_next_maker_accounts(&accounts, &mut cursor);
    let action = place_order(&mut book, &mut order, account_reply(&found));
    assert!(matches!(action, Action::Settle { .. }));
}

#[test]
fn a_placement_aborts_on_accounts_that_belong_to_another_party() {
    for accounts in [
        vec![token_account(10, 3), token_account(11, 2)],
        vec![token_account(10, 2)],
        Vec::new(),
    ] {
        let mut book = initialize(Initialize { base_mint: id(200), quote_mint: id(201) });
        let (mut resting, _) = PlaceOrder::new(id(2), Side::Sell, 100, 5).unwrap();
        place_order(&mut book, &mut resting, Reply::Transferred);
        let mut cursor = 0usize;
        let (mut order, _) = PlaceOrder::new(id(1), Side::Buy, 100, 5).unwrap();
        place_order(&mut book, &mut order, Reply::Transferred);
        let found = get_next_maker_accounts(&accounts, &mut cursor);
        assert_eq!(
            place_order(&mut book, &mut order, account_reply(&found)),
            Action::Abort(DexError::MakerAccountMismatch)
        );
    }
}
