//! The boundary with the asset ledger: how accounts are addressed, what a
//! transfer costs, and the shape of the requests that the pool hands to
//! its caller.

use vstd::prelude::*;
use crate::types::{Identity, Subaccount, MAX_IDENTITY_BYTES};

verus! {

/// The fee that the ledger takes out of every transfer, in smallest units.
pub const TRANSFER_FEE: u64 = 10_000;

/// The number of characters in an account's text address.
pub const ADDRESS_LENGTH: usize = 64;

/// Marks the leg of a withdrawal.
pub const MEMO_WITHDRAWAL: u64 = 0;

/// Marks a leg of a reward distribution.
pub const MEMO_REWARD: u64 = 1;

/// Marks a leg of a slashing.
pub const MEMO_SLASH: u64 = 2;

/// The text address of the ledger account that `owner` controls under
/// `subaccount`.
pub uninterp spec fn account_address(owner: Seq<u8>, subaccount: Seq<u8>) -> Seq<char>;

/// The bytes of the subaccount that the ledger uses when none is named.
pub open spec fn default_subaccount_bytes() -> Seq<u8> {
    Seq::new(32, |i: int| 0u8)
}

/// Calls `ic_ledger_types::AccountIdentifier::new` on the principal made
/// of the bytes `owner` and on `subaccount`, and prints the identifier.
///
/// Trusted: the text is a function of the two byte strings alone, and it
/// is the hexadecimal form of the identifier's 32 bytes, so 64 characters.
/// `Principal::from_slice` panics on more than 29 bytes, which the
/// precondition rules out.
#[verifier::external_body]
pub(crate) fn derive_account_address(owner: &Vec<u8>, subaccount: &Subaccount) -> (address: String)
    requires
        owner@.len() <= MAX_IDENTITY_BYTES,
    ensures
        address@ == account_address(owner@, subaccount@),
        address@.len() == ADDRESS_LENGTH,
{
    let principal = candid::Principal::from_slice(owner);
    let account = ic_ledger_types::AccountIdentifier::new(
        &principal,
        &ic_ledger_types::Subaccount(*subaccount),
    );
    account.to_string()
}

/// Reads `ic_ledger_types::DEFAULT_FEE`.
///
/// Trusted: the constant is 10 000 smallest units.
#[verifier::external_body]
pub(crate) fn ledger_fee() -> (fee: u64)
    ensures
        fee == TRANSFER_FEE,
{
    ic_ledger_types::DEFAULT_FEE.e8s()
}

/// Reads `ic_ledger_types::DEFAULT_SUBACCOUNT`.
///
/// Trusted: the constant is 32 zero bytes.
#[verifier::external_body]
pub(crate) fn default_subaccount() -> (subaccount: Subaccount)
    ensures
        subaccount@ == default_subaccount_bytes(),
{
    ic_ledger_types::DEFAULT_SUBACCOUNT.0
}

/// What a transfer request is, as plain mathematical values.
#[verifier::ext_equal]
pub struct TransferModel {
    pub memo: u64,
    pub amount: u64,
    pub fee: u64,
    pub from_subaccount: Seq<u8>,
    pub to: Seq<char>,
}

/// A transfer that the caller has to ask the ledger for: `amount` leaves
/// the pool's account under `from_subaccount` for the account with the
/// text address `to`; the ledger keeps `fee` on top.
#[derive(Debug)]
pub struct TransferRequest {
    pub memo: u64,
    pub amount: u64,
    pub fee: u64,
    pub from_subaccount: Subaccount,
    pub to: String,
}

impl View for TransferRequest {
    type V = TransferModel;

    open spec fn view(&self) -> TransferModel {
        TransferModel {
            memo: self.memo,
            amount: self.amount,
            fee: self.fee,
            from_subaccount: self.from_subaccount@,
            to: self.to@,
        }
    }
}

/// A withdrawal that passed every check that needs no answer from the
/// ledger: what was staked, and the transfer that pays it out.
#[derive(Debug)]
pub struct Withdrawal {
    /// The amount of the deposit, the ledger's fee included.
    pub amount: u64,
    /// The transfer to ask the ledger for. It leaves from the deposit's
    /// own subaccount.
    pub transfer: TransferRequest,
}

/// The text address of the account of `owner` under `subaccount`.
pub fn get_deposit_address(owner: &Identity, subaccount: &Subaccount) -> (address: String)
    ensures
        address@ == account_address(owner@, subaccount@),
        address@.len() == ADDRESS_LENGTH,
{
    derive_account_address(owner.as_bytes(), subaccount)
}

} // verus!
