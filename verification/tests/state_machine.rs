use payments::{
    parse_amount, render_amount, Account, AccountsDb, Amount, Error, Transaction, TransactionType,
};

fn deposit(client: u16, tx: u32, units: i64) -> Transaction {
    Transaction {
        kind: TransactionType::Deposit,
        client,
        tx,
        amount: Some(Amount::from_units(units)),
        disputed: false,
    }
}

fn withdrawal(client: u16, tx: u32, units: i64) -> Transaction {
    Transaction {
        kind: TransactionType::Withdrawal,
        client,
        tx,
        amount: Some(Amount::from_units(units)),
        disputed: false,
    }
}

fn refer(kind: TransactionType, client: u16, tx: u32) -> Transaction {
    Transaction { kind, client, tx, amount: None, disputed: false }
}

fn balances(a: &Account) -> (i64, i64, i64) {
    (a.available().units(), a.held().units(), a.total().units())
}

#[test]
fn deposits_and_withdrawals_keep_total_equal_to_available() {
    let mut a = Account::new(5);
    assert!(a.execute_transaction(deposit(5, 1, 30000)).is_ok());
    assert!(a.execute_transaction(withdrawal(5, 2, 10000)).is_ok());
    assert!(a.execute_transaction(deposit(5, 3, 25000)).is_ok());
    assert!(a.execute_transaction(withdrawal(5, 4, 60000)).is_err());
    assert_eq!(a.held().units(), 0);
    assert_eq!(a.total().units(), a.available().units());
    assert_eq!(a.available().units(), 45000);
}

#[test]
fn total_is_available_plus_held_after_every_step() {
    let mut a = Account::new(7);
    let steps = vec![
        deposit(7, 1, 20000),
        withdrawal(7, 2, 5000),
        refer(TransactionType::Dispute, 7, 2),
        refer(TransactionType::Dispute, 7, 9),
        refer(TransactionType::Resolve, 7, 2),
        refer(TransactionType::Chargeback, 7, 2),
        withdrawal(7, 3, 1000000),
    ];
    for t in steps {
        let _ = a.execute_transaction(t);
        assert_eq!(a.total().units(), a.available().units() + a.held().units());
    }
}

#[test]
fn insufficient_withdrawal_changes_nothing() {
    let mut a = Account::new(1);
    assert!(a.execute_transaction(deposit(1, 1, 15000)).is_ok());
    let before = balances(&a);
    let r = a.execute_transaction(withdrawal(1, 2, 15001));
    assert_eq!(r, Err(Error::InsufficientFunds));
    assert_eq!(balances(&a), before);
    assert!(!a.locked());
}

#[test]
fn dispute_on_unknown_transaction_changes_nothing() {
    let mut a = Account::new(1);
    assert!(a.execute_transaction(deposit(1, 1, 15000)).is_ok());
    let before = balances(&a);
    let r = a.execute_transaction(refer(TransactionType::Dispute, 1, 42));
    assert_eq!(r, Err(Error::MissingTransaction));
    assert_eq!(balances(&a), before);
}

#[test]
fn resolve_and_chargeback_need_a_dispute() {
    let mut a = Account::new(1);
    assert!(a.execute_transaction(deposit(1, 1, 15000)).is_ok());
    let before = balances(&a);
    assert_eq!(a.execute_transaction(refer(TransactionType::Resolve, 1, 1)), Err(Error::Undisputed));
    assert_eq!(
        a.execute_transaction(refer(TransactionType::Chargeback, 1, 1)),
        Err(Error::Undisputed)
    );
    assert_eq!(balances(&a), before);
    assert!(!a.locked());
}

#[test]
fn locked_account_rejects_everything() {
    let mut a = Account::new(1);
    assert!(a.execute_transaction(deposit(1, 1, 15000)).is_ok());
    assert!(a.execute_transaction(refer(TransactionType::Dispute, 1, 1)).is_ok());
    assert!(a.execute_transaction(refer(TransactionType::Chargeback, 1, 1)).is_ok());
    assert!(a.locked());
    let before = balances(&a);
    assert_eq!(a.execute_transaction(deposit(1, 2, 100)), Err(Error::Frozen));
    assert_eq!(a.execute_transaction(withdrawal(1, 3, 100)), Err(Error::Frozen));
    assert_eq!(
        a.execute_transaction(refer(TransactionType::Dispute, 1, 1)),
        Err(Error::Frozen)
    );
    assert_eq!(balances(&a), before);
}

#[test]
fn deposit_without_amount_is_rejected() {
    let mut a = Account::new(1);
    let r = a.execute_transaction(refer(TransactionType::Deposit, 1, 1));
    assert_eq!(r, Err(Error::MissingAmount));
    assert_eq!(balances(&a), (0, 0, 0));
}

#[test]
fn deposit_overflow_is_rejected() {
    let mut a = Account::new(1);
    assert!(a.execute_transaction(deposit(1, 1, i64::MAX)).is_ok());
    let before = balances(&a);
    assert_eq!(a.execute_transaction(deposit(1, 2, 1)), Err(Error::Overflow));
    assert_eq!(balances(&a), before);
}

#[test]
fn dispute_moves_funds_to_held() {
    let mut a = Account::new(1);
    assert!(a.execute_transaction(deposit(1, 1, 15000)).is_ok());
    assert!(a.execute_transaction(withdrawal(1, 2, 10000)).is_ok());
    assert!(a.execute_transaction(refer(TransactionType::Dispute, 1, 2)).is_ok());
    assert_eq!(balances(&a), (-5000, 10000, 5000));
    assert!(a.execute_transaction(refer(TransactionType::Resolve, 1, 2)).is_ok());
    assert_eq!(balances(&a), (5000, 0, 5000));
}

#[test]
fn rounding_applies_at_each_deposit() {
    let mut a = Account::new(1);
    let first = parse_amount("1.00003").unwrap();
    let second = parse_amount("2.1111111").unwrap();
    assert!(a
        .execute_transaction(Transaction {
            kind: TransactionType::Deposit,
            client: 1,
            tx: 1,
            amount: Some(first),
            disputed: false,
        })
        .is_ok());
    assert!(a
        .execute_transaction(Transaction {
            kind: TransactionType::Deposit,
            client: 1,
            tx: 2,
            amount: Some(second),
            disputed: false,
        })
        .is_ok());
    assert_eq!(a.available().units(), 31111);
    assert_eq!(render_amount(a.available()), "3.1111");
}

#[test]
fn error_messages_keep_their_wording() {
    assert_eq!(Error::Frozen.message(), "Account is frozen");
    assert_eq!(
        Error::InsufficientFunds.message(),
        "Insufficient funds available for the transaction"
    );
    assert_eq!(Error::MissingAmount.message(), "Amount missing in the transaction record");
    assert_eq!(Error::MissingTransaction.message(), "Missing referenced transaction record");
    assert_eq!(
        Error::Undisputed.message(),
        "Attempt to resolve or chargeback an undisputed transaction"
    );
    assert_eq!(Error::Overflow.message(), "Amount out of the representable range");
}

#[test]
fn re_dispute_holds_again_and_resolve_leaves_the_flag() {
    let mut a = Account::new(1);
    assert!(a.execute_transaction(deposit(1, 1, 10000)).is_ok());
    assert!(a.execute_transaction(refer(TransactionType::Dispute, 1, 1)).is_ok());
    assert_eq!(balances(&a), (0, 10000, 10000));
    // a second dispute on the same record is accepted and holds again
    assert!(a.execute_transaction(refer(TransactionType::Dispute, 1, 1)).is_ok());
    assert_eq!(balances(&a), (-10000, 20000, 10000));
    // a resolve releases but leaves the record disputed, so it can repeat
    assert!(a.execute_transaction(refer(TransactionType::Resolve, 1, 1)).is_ok());
    assert_eq!(balances(&a), (0, 10000, 10000));
    assert!(a.execute_transaction(refer(TransactionType::Resolve, 1, 1)).is_ok());
    assert_eq!(balances(&a), (10000, 0, 10000));
}

#[test]
fn export_is_sorted_by_client_id() {
    let mut db = AccountsDb::new();
    assert!(db.execute(deposit(300, 1, 10000)).is_ok());
    assert!(db.execute(deposit(2, 2, 20000)).is_ok());
    assert!(db.execute(deposit(45, 3, 30000)).is_ok());
    let snaps = db.export();
    assert_eq!(snaps.len(), 3);
    assert_eq!(snaps[0].client, 2);
    assert_eq!(snaps[1].client, 45);
    assert_eq!(snaps[2].client, 300);
    assert_eq!(snaps[0].available.units(), 20000);
    assert!(!snaps[0].locked);
}

#[test]
fn accounts_appear_on_first_reference() {
    let mut db = AccountsDb::new();
    assert_eq!(
        db.execute(refer(TransactionType::Dispute, 9, 1)),
        Err(Error::MissingTransaction)
    );
    let snaps = db.export();
    assert_eq!(snaps.len(), 1);
    assert_eq!(snaps[0].client, 9);
    assert_eq!(snaps[0].available.units(), 0);
}

#[test]
fn batch_processing_reports_each_failure() {
    let mut db = AccountsDb::new();
    let txs = vec![
        deposit(1, 1, 10000),
        withdrawal(1, 2, 20000),
        refer(TransactionType::Resolve, 1, 1),
        withdrawal(1, 3, 5000),
    ];
    let failures = db.process_transactions(&txs);
    assert_eq!(failures.len(), 2);
    assert_eq!(failures[0], (1, Error::InsufficientFunds));
    assert_eq!(failures[1], (2, Error::Undisputed));
    let snaps = db.export();
    assert_eq!(snaps[0].available.units(), 5000);
}
