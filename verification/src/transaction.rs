use vstd::prelude::*;

use crate::amount::Amount;

verus! {

/// The five kinds of transaction record.
#[derive(Clone, Copy, Debug, PartialEq, Eq, Structural)]
pub enum TransactionType {
    /// A credit to the client account.
    Deposit,
    /// A debit from the client account.
    Withdrawal,
    /// A client's claim that a prior transaction was erroneous.
    Dispute,
    /// A resolution of a dispute, releasing the held funds.
    Resolve,
    /// A reversal of a disputed transaction; locks the account.
    Chargeback,
}

/// One input transaction record, addressed to one client account.
///
/// `amount` is present for deposits and withdrawals and absent for the
/// dispute family, which instead references a stored transaction by `tx`.
/// `disputed` is the flag tracked against the stored record.
#[derive(Clone, Copy, Debug)]
pub struct Transaction {
    pub kind: TransactionType,
    pub client: u16,
    pub tx: u32,
    pub amount: Option<Amount>,
    pub disputed: bool,
}

} // verus!
