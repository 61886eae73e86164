use vstd::prelude::*;

use crate::amount::{amount_in_range, Amount};
use crate::transaction::{Transaction, TransactionType};

verus! {

/// Why a transaction was rejected. A rejection never mutates the account.
#[derive(Clone, Copy, Debug, PartialEq, Eq, Structural)]
pub enum Error {
    /// The account is frozen: no further transactions are accepted.
    Frozen,
    /// The available funds do not cover the withdrawal.
    InsufficientFunds,
    /// A deposit or withdrawal record carries no amount.
    MissingAmount,
    /// A dispute-family record references a transaction never stored.
    MissingTransaction,
    /// A resolve or chargeback references a transaction not under dispute.
    Undisputed,
    /// The arithmetic would leave the representable fixed-point range.
    Overflow,
}

impl Error {
    /// A short description, for diagnostics.
    pub fn message(&self) -> (r: &'static str)
        ensures
            r@ == match self {
                Error::Frozen => "Account is frozen"@,
                Error::InsufficientFunds => "Insufficient funds available for the transaction"@,
                Error::MissingAmount => "Amount missing in the transaction record"@,
                Error::MissingTransaction => "Missing referenced transaction record"@,
                Error::Undisputed => "Attempt to resolve or chargeback an undisputed transaction"@,
                Error::Overflow => "Amount out of the representable range"@,
            },
    {
        match self {
            Error::Frozen => "Account is frozen",
            Error::InsufficientFunds => "Insufficient funds available for the transaction",
            Error::MissingAmount => "Amount missing in the transaction record",
            Error::MissingTransaction => "Missing referenced transaction record",
            Error::Undisputed => "Attempt to resolve or chargeback an undisputed transaction",
            Error::Overflow => "Amount out of the representable range",
        }
    }
}

/// A stored deposit or withdrawal, as the dispute family sees it: its id,
/// its amount in fixed-point units, and whether it is under dispute.
pub ghost struct Rec {
    pub id: u32,
    pub amount: int,
    pub disputed: bool,
}

/// The mathematical state of one account.
#[verifier::ext_equal]
pub ghost struct AccountModel {
    pub client: u16,
    pub available: int,
    pub held: int,
    pub total: int,
    pub locked: bool,
    pub history: Seq<Rec>,
}

/// The state of a freshly created account: all balances zero, unlocked,
/// with an empty history.
pub open spec fn fresh_model(client: u16) -> AccountModel {
    AccountModel {
        client,
        available: 0,
        held: 0,
        total: 0,
        locked: false,
        history: Seq::empty(),
    }
}

/// The balance invariant: the total is the available plus the held funds.
pub open spec fn balanced(m: AccountModel) -> bool {
    m.total == m.available + m.held
}

/// Whether the history holds a record with the given transaction id.
pub open spec fn has_rec(h: Seq<Rec>, id: u32) -> bool {
    exists|i: int| 0 <= i < h.len() && h[i].id == id
}

/// The index of the record with the given id (meaningful when ids are
/// unique and `has_rec` holds).
pub open spec fn rec_index(h: Seq<Rec>, id: u32) -> int {
    choose|i: int| 0 <= i < h.len() && h[i].id == id
}

/// No two stored records share a transaction id.
pub open spec fn unique_ids(h: Seq<Rec>) -> bool {
    forall|i: int, j: int| 0 <= i < j < h.len() ==> h[i].id != h[j].id
}

/// Storing a record: a record under the same id is replaced, any other
/// record is appended.
pub open spec fn store_rec(h: Seq<Rec>, r: Rec) -> Seq<Rec> {
    if has_rec(h, r.id) {
        h.update(rec_index(h, r.id), r)
    } else {
        h.push(r)
    }
}

/// The record a transaction stores: its id, its amount and its dispute flag.
pub open spec fn rec_of(t: Transaction) -> Rec {
    Rec { id: t.tx, amount: t.amount.unwrap()@, disputed: t.disputed }
}

/// With unique ids, any index holding the id is the index `rec_index` picks.
pub proof fn lemma_rec_index_unique(h: Seq<Rec>, id: u32, i: int)
    requires
        unique_ids(h),
        0 <= i < h.len(),
        h[i].id == id,
    ensures
        has_rec(h, id),
        rec_index(h, id) == i,
{
    assert(has_rec(h, id));
    let j = rec_index(h, id);
    if i < j {
        assert(h[i].id != h[j].id);
    } else if j < i {
        assert(h[j].id != h[i].id);
    }
}

/// The account state machine: how one transaction moves the account from
/// state `m` to its next state, and with what result. A rejected
/// transaction leaves the state exactly as it was.
///
/// Two deliberate choices, both kept from the reference behaviour rather
/// than guessed away: a dispute may target a withdrawal as well as a
/// deposit, and holding its amount may drive the available funds negative,
/// since no funds floor applies to holds; and a dispute on a record already
/// under dispute is accepted again and moves the amount again, while a
/// resolve leaves the disputed flag set, so a record can be resolved twice.
pub open spec fn apply_model(m: AccountModel, t: Transaction) -> (AccountModel, Result<(), Error>) {
    if m.locked {
        (m, Err(Error::Frozen))
    } else {
        match t.kind {
            TransactionType::Deposit => match t.amount {
                None => (m, Err(Error::MissingAmount)),
                Some(a) => if !amount_in_range(m.available + a@) || !amount_in_range(
                    m.total + a@,
                ) {
                    (m, Err(Error::Overflow))
                } else {
                    (
                        AccountModel {
                            available: m.available + a@,
                            total: m.total + a@,
                            history: store_rec(m.history, rec_of(t)),
                            ..m
                        },
                        Ok(()),
                    )
                },
            },
            TransactionType::Withdrawal => match t.amount {
                None => (m, Err(Error::MissingAmount)),
                Some(a) => if !amount_in_range(m.available - a@) {
                    (m, Err(Error::Overflow))
                } else if m.available - a@ < 0 {
                    (m, Err(Error::InsufficientFunds))
                } else if !amount_in_range(m.total - a@) {
                    (m, Err(Error::Overflow))
                } else {
                    (
                        AccountModel {
                            available: m.available - a@,
                            total: m.total - a@,
                            history: store_rec(m.history, rec_of(t)),
                            ..m
                        },
                        Ok(()),
                    )
                },
            },
            TransactionType::Dispute => if !has_rec(m.history, t.tx) {
                (m, Err(Error::MissingTransaction))
            } else {
                let i = rec_index(m.history, t.tx);
                let amt = m.history[i].amount;
                if !amount_in_range(m.held + amt) || !amount_in_range(m.available - amt) {
                    (m, Err(Error::Overflow))
                } else {
                    (
                        AccountModel {
                            held: m.held + amt,
                            available: m.available - amt,
                            history: m.history.update(
                                i,
                                Rec { disputed: true, ..m.history[i] },
                            ),
                            ..m
                        },
                        Ok(()),
                    )
                }
            },
            TransactionType::Resolve => if !has_rec(m.history, t.tx) {
                (m, Err(Error::MissingTransaction))
            } else {
                let i = rec_index(m.history, t.tx);
                let amt = m.history[i].amount;
                if !m.history[i].disputed {
                    (m, Err(Error::Undisputed))
                } else if !amount_in_range(m.held - amt) || !amount_in_range(m.available + amt) {
                    (m, Err(Error::Overflow))
                } else {
                    (
                        AccountModel {
                            held: m.held - amt,
                            available: m.available + amt,
                            ..m
                        },
                        Ok(()),
                    )
                }
            },
            TransactionType::Chargeback => if !has_rec(m.history, t.tx) {
                (m, Err(Error::MissingTransaction))
            } else {
                let i = rec_index(m.history, t.tx);
                let amt = m.history[i].amount;
                if !m.history[i].disputed {
                    (m, Err(Error::Undisputed))
                } else if !amount_in_range(m.held - amt) || !amount_in_range(m.total - amt) {
                    (m, Err(Error::Overflow))
                } else {
                    (
                        AccountModel {
                            held: m.held - amt,
                            total: m.total - amt,
                            locked: true,
                            ..m
                        },
                        Ok(()),
                    )
                }
            },
        }
    }
}

/// The state after a whole sequence of transactions, applied in order.
/// Rejected transactions leave the state as it was, so no result is kept.
pub open spec fn apply_all(m: AccountModel, txs: Seq<Transaction>) -> AccountModel
    decreases txs.len(),
{
    if txs.len() == 0 {
        m
    } else {
        apply_model(apply_all(m, txs.drop_last()), txs.last()).0
    }
}

/// Every transition keeps the balance invariant: after any transaction,
/// successful or rejected, the total is the available plus the held funds.
pub proof fn lemma_apply_model_balanced(m: AccountModel, t: Transaction)
    requires
        balanced(m),
    ensures
        balanced(apply_model(m, t).0),
{
}

/// A deposit or withdrawal never touches the held funds.
pub proof fn lemma_deposit_withdrawal_keeps_held(m: AccountModel, t: Transaction)
    requires
        t.kind == TransactionType::Deposit || t.kind == TransactionType::Withdrawal,
    ensures
        apply_model(m, t).0.held == m.held,
{
}

/// A sequence of deposits and withdrawals alone, on a fresh account, leaves
/// the held funds zero and the total equal to the available funds.
pub proof fn lemma_no_disputes_total_is_available(client: u16, txs: Seq<Transaction>)
    requires
        forall|i: int|
            0 <= i < txs.len() ==> ((#[trigger] txs[i]).kind == TransactionType::Deposit
                || txs[i].kind == TransactionType::Withdrawal),
    ensures
        apply_all(fresh_model(client), txs).held == 0,
        apply_all(fresh_model(client), txs).total == apply_all(fresh_model(client), txs).available,
    decreases txs.len(),
{
    if txs.len() > 0 {
        lemma_no_disputes_total_is_available(client, txs.drop_last());
        let before = apply_all(fresh_model(client), txs.drop_last());
        lemma_deposit_withdrawal_keeps_held(before, txs.last());
        lemma_apply_model_balanced(before, txs.last());
    }
}

/// A withdrawal that would make the available funds negative is rejected
/// and leaves the account unchanged; when nothing else stands in its way it
/// is rejected as `InsufficientFunds`.
pub proof fn lemma_insufficient_withdrawal_rejected(m: AccountModel, t: Transaction)
    requires
        t.kind == TransactionType::Withdrawal,
        t.amount is Some,
        m.available - t.amount.unwrap()@ < 0,
    ensures
        apply_model(m, t).0 == m,
        apply_model(m, t).1 is Err,
        !m.locked && amount_in_range(m.available - t.amount.unwrap()@) ==> apply_model(m, t).1
            == Err::<(), Error>(Error::InsufficientFunds),
{
}

/// A dispute on a transaction id never stored is rejected and leaves the
/// account unchanged; on an unlocked account the error is
/// `MissingTransaction`.
pub proof fn lemma_dispute_missing_rejected(m: AccountModel, t: Transaction)
    requires
        t.kind == TransactionType::Dispute,
        !has_rec(m.history, t.tx),
    ensures
        apply_model(m, t).0 == m,
        apply_model(m, t).1 is Err,
        !m.locked ==> apply_model(m, t).1 == Err::<(), Error>(Error::MissingTransaction),
{
}

/// A resolve or chargeback on a stored transaction not currently disputed
/// is rejected and leaves the account unchanged; on an unlocked account the
/// error is `Undisputed`.
pub proof fn lemma_undisputed_rejected(m: AccountModel, t: Transaction)
    requires
        t.kind == TransactionType::Resolve || t.kind == TransactionType::Chargeback,
        has_rec(m.history, t.tx),
        !m.history[rec_index(m.history, t.tx)].disputed,
    ensures
        apply_model(m, t).0 == m,
        apply_model(m, t).1 is Err,
        !m.locked ==> apply_model(m, t).1 == Err::<(), Error>(Error::Undisputed),
{
}

/// Once an account is locked, every transaction is rejected as `Frozen`
/// and leaves the account unchanged.
pub proof fn lemma_frozen_rejects_all(m: AccountModel, t: Transaction)
    requires
        m.locked,
    ensures
        apply_model(m, t).0 == m,
        apply_model(m, t).1 == Err::<(), Error>(Error::Frozen),
{
}

/// A client account: its balances, its lock flag, and the stored deposit
/// and withdrawal records the dispute family may reference.
#[derive(Debug)]
pub struct Account {
    client_id: u16,
    available: Amount,
    held: Amount,
    total: Amount,
    locked: bool,
    transactions: Vec<Transaction>,
}

impl View for Account {
    type V = AccountModel;

    closed spec fn view(&self) -> AccountModel {
        AccountModel {
            client: self.client_id,
            available: self.available@,
            held: self.held@,
            total: self.total@,
            locked: self.locked,
            history: self.transactions@.map_values(|t: Transaction| rec_of(t)),
        }
    }
}

impl Account {
    /// Well-formedness: the balances agree, stored ids are unique, and
    /// every stored record carries its amount.
    pub closed spec fn inv(self) -> bool {
        &&& balanced(self@)
        &&& unique_ids(self@.history)
        &&& forall|i: int|
            0 <= i < self.transactions@.len() ==> (#[trigger] self.transactions@[i]).amount
                is Some
    }

    /// Well-formedness gives the balance invariant and unique stored ids.
    pub proof fn lemma_inv(self)
        requires
            self.inv(),
        ensures
            balanced(self@),
            unique_ids(self@.history),
    {
    }

    /// A fresh account: all balances zero, unlocked, empty history.
    pub fn new(id: u16) -> (r: Account)
        ensures
            r.inv(),
            r@ == fresh_model(id),
    {
        let r = Account {
            client_id: id,
            available: Amount::zero(),
            held: Amount::zero(),
            total: Amount::zero(),
            locked: false,
            transactions: Vec::new(),
        };
        proof {
            assert(r@ =~= fresh_model(id));
        }
        r
    }

    /// The account's client id.
    pub fn client_id(&self) -> (r: u16)
        ensures
            r == self@.client,
    {
        self.client_id
    }

    /// The funds immediately usable.
    pub fn available(&self) -> (r: Amount)
        ensures
            r@ == self@.available,
    {
        self.available
    }

    /// The funds held pending dispute resolution.
    pub fn held(&self) -> (r: Amount)
        ensures
            r@ == self@.held,
    {
        self.held
    }

    /// The total funds in the account.
    pub fn total(&self) -> (r: Amount)
        ensures
            r@ == self@.total,
    {
        self.total
    }

    /// Whether a chargeback has locked the account.
    pub fn locked(&self) -> (r: bool)
        ensures
            r == self@.locked,
    {
        self.locked
    }

    /// The index of the stored record with the given id, if any.
    fn find(&self, id: u32) -> (r: Option<usize>)
        requires
            self.inv(),
        ensures
            match r {
                Some(i) => i < self@.history.len() && self@.history[i as int].id == id
                    && has_rec(self@.history, id) && rec_index(self@.history, id) == i as int,
                None => !has_rec(self@.history, id),
            },
    {
        let ghost h = self@.history;
        let mut j: usize = 0;
        while j < self.transactions.len()
            invariant
                self.inv(),
                h == self@.history,
                j <= self.transactions@.len(),
                h.len() == self.transactions@.len(),
                forall|k: int| 0 <= k < j ==> h[k].id != id,
            decreases self.transactions@.len() - j,
        {
            if self.transactions[j].tx == id {
                proof {
                    lemma_rec_index_unique(h, id, j as int);
                }
                return Some(j);
            }
            j += 1;
        }
        proof {
            assert(!has_rec(h, id));
        }
        None
    }

    /// Store a deposit or withdrawal record, replacing any record already
    /// stored under the same id.
    fn store(&mut self, tx: Transaction)
        requires
            old(self).inv(),
            tx.amount is Some,
        ensures
            final(self).inv(),
            final(self)@ == (AccountModel { history: store_rec(old(self)@.history, rec_of(tx)), ..old(self)@ }),
    {
        let ghost h = self@.history;
        match self.find(tx.tx) {
            Some(i) => {
                self.transactions.set(i, tx);
                proof {
                    assert(self@.history =~= h.update(i as int, rec_of(tx)));
                    assert(self@ =~= (AccountModel { history: store_rec(h, rec_of(tx)), ..old(self)@ }));
                }
            },
            None => {
                self.transactions.push(tx);
                proof {
                    assert(self@.history =~= h.push(rec_of(tx)));
                    assert(forall|k: int, l: int|
                        0 <= k < l < self@.history.len() ==> self@.history[k].id
                            != self@.history[l].id) by {
                        assert(forall|k: int|
                            0 <= k < h.len() ==> #[trigger] h[k].id != tx.tx);
                    }
                    assert(self@ =~= (AccountModel { history: store_rec(h, rec_of(tx)), ..old(self)@ }));
                }
            },
        }
    }

    /// Apply one transaction to this account, exactly as the state machine
    /// `apply_model` describes: a rejected transaction returns its error and
    /// leaves the account unchanged.
    pub fn execute_transaction(&mut self, tx: Transaction) -> (r: Result<(), Error>)
        requires
            old(self).inv(),
        ensures
            final(self).inv(),
            final(self)@ == apply_model(old(self)@, tx).0,
            r == apply_model(old(self)@, tx).1,
    {
        if self.locked {
            return Err(Error::Frozen);
        }
        match tx.kind {
            TransactionType::Deposit => {
                let amount = match tx.amount {
                    Some(a) => a,
                    None => { return Err(Error::MissingAmount); },
                };
                let new_available = match self.available.checked_add(amount) {
                    Some(v) => v,
                    None => { return Err(Error::Overflow); },
                };
                let new_total = match self.total.checked_add(amount) {
                    Some(v) => v,
                    None => { return Err(Error::Overflow); },
                };
                self.available = new_available;
                self.total = new_total;
                self.store(tx);
                proof {
                    assert(self@ =~= apply_model(old(self)@, tx).0);
                }
                Ok(())
            },
            TransactionType::Withdrawal => {
                let amount = match tx.amount {
                    Some(a) => a,
                    None => { return Err(Error::MissingAmount); },
                };
                let new_available = match self.available.checked_sub(amount) {
                    Some(v) => v,
                    None => { return Err(Error::Overflow); },
                };
                if new_available.units() < 0 {
                    return Err(Error::InsufficientFunds);
                }
                let new_total = match self.total.checked_sub(amount) {
                    Some(v) => v,
                    None => { return Err(Error::Overflow); },
                };
                self.available = new_available;
                self.total = new_total;
                self.store(tx);
                proof {
                    assert(self@ =~= apply_model(old(self)@, tx).0);
                }
                Ok(())
            },
            TransactionType::Dispute => {
                let idx = match self.find(tx.tx) {
                    Some(i) => i,
                    None => { return Err(Error::MissingTransaction); },
                };
                let stored = self.transactions[idx];
                let amount = match stored.amount {
                    Some(a) => a,
                    None => {
                        proof {
                            assert(false);
                        }
                        return Err(Error::MissingAmount);
                    },
                };
                let new_held = match self.held.checked_add(amount) {
                    Some(v) => v,
                    None => { return Err(Error::Overflow); },
                };
                let new_available = match self.available.checked_sub(amount) {
                    Some(v) => v,
                    None => { return Err(Error::Overflow); },
                };
                let mut updated = stored;
                updated.disputed = true;
                self.transactions.set(idx, updated);
                self.held = new_held;
                self.available = new_available;
                proof {
                    let h = old(self)@.history;
                    let i = rec_index(h, tx.tx);
                    assert(self@.history =~= h.update(i, Rec { disputed: true, ..h[i] }));
                    assert(self@ =~= apply_model(old(self)@, tx).0);
                }
                Ok(())
            },
            TransactionType::Resolve => {
                let idx = match self.find(tx.tx) {
                    Some(i) => i,
                    None => { return Err(Error::MissingTransaction); },
                };
                let stored = self.transactions[idx];
                if !stored.disputed {
                    return Err(Error::Undisputed);
                }
                let amount = match stored.amount {
                    Some(a) => a,
                    None => {
                        proof {
                            assert(false);
                        }
                        return Err(Error::MissingAmount);
                    },
                };
                let new_held = match self.held.checked_sub(amount) {
                    Some(v) => v,
                    None => { return Err(Error::Overflow); },
                };
                let new_available = match self.available.checked_add(amount) {
                    Some(v) => v,
                    None => { return Err(Error::Overflow); },
                };
                self.held = new_held;
                self.available = new_available;
                proof {
                    assert(self@ =~= apply_model(old(self)@, tx).0);
                }
                Ok(())
            },
            TransactionType::Chargeback => {
                let idx = match self.find(tx.tx) {
                    Some(i) => i,
                    None => { return Err(Error::MissingTransaction); },
                };
                let stored = self.transactions[idx];
                if !stored.disputed {
                    return Err(Error::Undisputed);
                }
                let amount = match stored.amount {
                    Some(a) => a,
                    None => {
                        proof {
                            assert(false);
                        }
                        return Err(Error::MissingAmount);
                    },
                };
                let new_held = match self.held.checked_sub(amount) {
                    Some(v) => v,
                    None => { return Err(Error::Overflow); },
                };
                let new_total = match self.total.checked_sub(amount) {
                    Some(v) => v,
                    None => { return Err(Error::Overflow); },
                };
                self.held = new_held;
                self.total = new_total;
                self.locked = true;
                proof {
                    assert(self@ =~= apply_model(old(self)@, tx).0);
                }
                Ok(())
            },
        }
    }
}

} // verus!
