//! Resolving a maker's settlement accounts.
//!
//! With each placement the host hands over the token accounts of the makers
//! it expects to be matched, two for each maker: the maker's base account,
//! then its quote account. The engine asks for them one maker at a time.

use crate::key::Pubkey;
use crate::place::Reply;
use vstd::prelude::*;

verus! {

/// An account as the runtime hands it to a program: its address, the
/// program that owns it, its balance in lamports and its data.
#[derive(Clone, Debug, PartialEq, Eq)]
pub struct AccountRecord {
    pub key: Pubkey,
    pub owner: Pubkey,
    pub lamports: u64,
    pub data: Vec<u8>,
}

/// A token account that was read: its address and the party that it says
/// it belongs to.
#[derive(Clone, Copy, Debug, PartialEq, Eq)]
pub struct TokenHolding {
    pub key: Pubkey,
    pub owner: Pubkey,
}

/// The two token accounts through which a maker is settled.
#[derive(Clone, Copy, Debug, PartialEq, Eq)]
pub struct MakerAccounts {
    /// The maker's base account. The party it records is the one that must
    /// be the maker.
    pub owner_token_account: TokenHolding,
    /// The maker's quote account.
    pub quote_token_account: TokenHolding,
}

/// The bytes of the party that a token account records as its owner, as the
/// token program's account layout gives them, or nothing if the account is
/// not an initialized account of the token program. It depends on the
/// account's address, owning program, balance and data alone.
pub uninterp spec fn token_account_owner(
    key: Seq<u8>,
    program: Seq<u8>,
    lamports: u64,
    data: Seq<u8>,
) -> Option<Seq<u8>>;

/// What reading `account` as a token account yields.
pub open spec fn recorded_owner(account: AccountRecord) -> Option<Seq<u8>> {
    token_account_owner(account.key.bytes@, account.owner.bytes@, account.lamports, account.data@)
}

/// Reads `account` as a token account with `Account::<TokenAccount>::try_from`
/// of `anchor_lang`, on an `AccountInfo` made of the record's four values,
/// and hands out the owner that the account records. The contract gives that
/// result its name and claims nothing else of it: that it is the same for
/// the same four values.
#[verifier::external_body]
fn read_token_account(account: &AccountRecord) -> (owner: Option<Pubkey>)
    ensures
        owner matches Some(party) ==> token_account_owner(
            account.key.bytes@,
            account.owner.bytes@,
            account.lamports,
            account.data@,
        ) == Some(party.bytes@),
        owner is None ==> token_account_owner(
            account.key.bytes@,
            account.owner.bytes@,
            account.lamports,
            account.data@,
        ) is None,
{
    let key = anchor_lang::prelude::Pubkey::new_from_array(account.key.bytes);
    let program = anchor_lang::prelude::Pubkey::new_from_array(account.owner.bytes);
    let mut lamports = account.lamports;
    let mut data = account.data.clone();
    let info = anchor_lang::prelude::AccountInfo::new(
        &key, false, false, &mut lamports, &mut data, &program, false, 0,
    );
    match anchor_lang::prelude::Account::<anchor_spl::token::TokenAccount>::try_from(&info) {
        Ok(found) => Some(Pubkey { bytes: found.owner.to_bytes() }),
        Err(_) => None,
    }
}

/// Whether the two accounts at `cursor` are there and both read as token
/// accounts.
pub open spec fn pair_resolves(accounts: Seq<AccountRecord>, cursor: int) -> bool {
    &&& 0 <= cursor
    &&& cursor + 2 <= accounts.len()
    &&& recorded_owner(accounts[cursor]) is Some
    &&& recorded_owner(accounts[cursor + 1]) is Some
}

/// Takes the next maker's two token accounts from `accounts`, starting at
/// `cursor`, and reads both.
///
/// The cursor moves past the two accounts whenever two are left, whether or
/// not they read as token accounts. The result is `None` if fewer than two
/// are left or either does not read as a token account.
pub fn get_next_maker_accounts(accounts: &Vec<AccountRecord>, cursor: &mut usize) -> (found: Option<
    MakerAccounts,
>)
    ensures
        found is Some <==> pair_resolves(accounts@, *old(cursor) as int),
        found matches Some(maker) ==> {
            &&& maker.owner_token_account.key == accounts@[*old(cursor) as int].key
            &&& Some(maker.owner_token_account.owner.bytes@) == recorded_owner(
                accounts@[*old(cursor) as int],
            )
            &&& maker.quote_token_account.key == accounts@[*old(cursor) + 1].key
            &&& Some(maker.quote_token_account.owner.bytes@) == recorded_owner(
                accounts@[*old(cursor) + 1],
            )
        },
        *final(cursor) == if *old(cursor) + 2 <= accounts.len() {
            *old(cursor) + 2
        } else {
            *old(cursor) as int
        },
{
    let at = *cursor;
    if at > accounts.len() || accounts.len() - at < 2 {
        return None;
    }
    *cursor = at + 2;
    let base = read_token_account(&accounts[at]);
    let quote = read_token_account(&accounts[at + 1]);
    match (base, quote) {
        (Some(base_owner), Some(quote_owner)) => Some(
            MakerAccounts {
                owner_token_account: TokenHolding { key: accounts[at].key, owner: base_owner },
                quote_token_account: TokenHolding { key: accounts[at + 1].key, owner: quote_owner },
            },
        ),
        _ => None,
    }
}

/// What the host reports to the engine after it looked for a maker's
/// accounts: the party that the maker's base account records, or that the
/// accounts are missing.
pub fn account_reply(found: &Option<MakerAccounts>) -> (reply: Reply)
    ensures
        reply == match *found {
            Some(maker) => Reply::Account(maker.owner_token_account.owner),
            None => Reply::AccountMissing,
        },
{
    match found {
        Some(maker) => Reply::Account(maker.owner_token_account.owner),
        None => Reply::AccountMissing,
    }
}

} // verus!
