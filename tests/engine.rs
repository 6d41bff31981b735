use giant_squid::{
    ClientId, Currency, IgnoredTransaction, Transaction, TransactionError, TransactionId,
    TransactionType, Transactor,
};

fn amount(text: &str) -> Option<Currency> {
    Some(Currency::from_str(text).unwrap())
}

fn tx(ttype: TransactionType, cid: u16, tid: u32, value: Option<&str>) -> Transaction {
    Transaction {
        ttype,
        cid: ClientId(cid),
        tid: TransactionId(tid),
        amount: value.map(|v| Currency::from_str(v).unwrap()),
    }
}

fn balances(transactor: &Transactor, cid: u16) -> (String, String, String, bool) {
    let account = transactor.account(ClientId(cid)).unwrap();
    (
        account.available.to_string(),
        account.held.to_string(),
        account.total.to_string(),
        account.is_locked,
    )
}


fn dispute_lifecycle() -> Transactor {
    let mut transactor = Transactor::new();
    let steps = vec![
        tx(TransactionType::Deposit, 1, 1, Some("10.0000")),
        tx(TransactionType::Withdrawal, 1, 2, Some("5.0000")),
        tx(TransactionType::Dispute, 1, 2, None),
        tx(TransactionType::Resolve, 1, 2, None),
    ];
    for t in steps {
        assert_eq!(transactor.process_transaction(t), Ok(()));
    }
    transactor
}

#[test]
fn fresh_deposit_renders_four_digits() {
    let mut transactor = Transactor::new();
    let t = tx(TransactionType::Deposit, 1, 1, Some("1.23476"));
    assert_eq!(transactor.process_transaction(t), Ok(()));
    assert_eq!(
        balances(&transactor, 1),
        ("1.2348".to_string(), "0.0000".to_string(), "1.2348".to_string(), false)
    );
    let account = transactor.account(ClientId(1)).unwrap();
    assert_eq!(account.available, Currency::from_str("1.23476").unwrap());
}

#[test]
fn withdrawal_from_fresh_client_is_recorded_as_ignored() {
    let mut transactor = Transactor::new();
    let t = tx(TransactionType::Withdrawal, 1, 7, Some("0.9975"));
    let reason = TransactionError::AccountHasInsufficientFundsAvailable { cid: ClientId(1) };
    assert_eq!(transactor.process_or_ignore(t), Err(reason));
    assert_eq!(
        balances(&transactor, 1),
        ("0.0000".to_string(), "0.0000".to_string(), "0.0000".to_string(), false)
    );
    let account = transactor.account(ClientId(1)).unwrap();
    assert_eq!(
        account.ignored_transactions.entries(),
        vec![(TransactionId(7), IgnoredTransaction { transaction: t, reason })]
    );
    assert!(account.processed_transactions.entries().is_empty());
}

#[test]
fn resolved_withdrawal_sits_in_resolved() {
    let transactor = dispute_lifecycle();
    assert_eq!(
        balances(&transactor, 1),
        ("5.0000".to_string(), "0.0000".to_string(), "5.0000".to_string(), false)
    );
    let account = transactor.account(ClientId(1)).unwrap();
    assert_eq!(
        account.resolved_transactions.entries(),
        vec![(TransactionId(2), tx(TransactionType::Withdrawal, 1, 2, Some("5.0000")))]
    );
    assert!(account.disputed_transactions.entries().is_empty());
}

#[test]
fn chargeback_of_withdrawal_locks_with_negative_held() {
    let mut transactor = dispute_lifecycle();
    let t = tx(TransactionType::Chargeback, 1, 2, None);
    assert_eq!(transactor.process_transaction(t), Ok(()));
    assert_eq!(
        balances(&transactor, 1),
        ("5.0000".to_string(), "-5.0000".to_string(), "0.0000".to_string(), true)
    );
    let account = transactor.account(ClientId(1)).unwrap();
    assert_eq!(
        account.charged_back_transactions.entries(),
        vec![(TransactionId(2), tx(TransactionType::Withdrawal, 1, 2, Some("5.0000")))]
    );
    assert!(account.resolved_transactions.entries().is_empty());
}

#[test]
fn dispute_on_unknown_client_opens_empty_account() {
    let mut transactor = Transactor::new();
    assert!(transactor.account(ClientId(9)).is_none());
    let t = tx(TransactionType::Dispute, 9, 4, None);
    assert_eq!(
        transactor.process_transaction(t),
        Err(TransactionError::NoSuchProcessedTransactionForClient {
            tid: TransactionId(4),
            cid: ClientId(9),
        })
    );
    assert_eq!(
        balances(&transactor, 9),
        ("0.0000".to_string(), "0.0000".to_string(), "0.0000".to_string(), false)
    );
    assert_eq!(transactor.client_ids(), vec![ClientId(9)]);
}

#[test]
fn balances_add_up_after_every_step() {
    let mut transactor = Transactor::new();
    let steps = vec![
        tx(TransactionType::Deposit, 1, 1, Some("3.5")),
        tx(TransactionType::Deposit, 1, 2, Some("0.0001")),
        tx(TransactionType::Dispute, 1, 1, None),
        tx(TransactionType::Withdrawal, 1, 3, Some("0.00005")),
        tx(TransactionType::Resolve, 1, 1, None),
        tx(TransactionType::Dispute, 1, 2, None),
    ];
    for t in steps {
        let _ = transactor.process_transaction(t);
        let a = transactor.account(ClientId(1)).unwrap();
        assert_eq!(a.available.checked_add(a.held), Some(a.total));
    }
    let a = transactor.account(ClientId(1)).unwrap();
    assert_eq!(a.available, Currency::from_str("3.49995").unwrap());
    assert_eq!(a.held, Currency::from_str("0.0001").unwrap());
    assert_eq!(a.total, Currency::from_str("3.50005").unwrap());
}

#[test]
fn locked_account_rejects_everything_and_keeps_balances() {
    let mut transactor = dispute_lifecycle();
    assert_eq!(transactor.process_transaction(tx(TransactionType::Chargeback, 1, 2, None)), Ok(()));
    let before = balances(&transactor, 1);
    let later = vec![
        tx(TransactionType::Deposit, 1, 10, Some("100")),
        tx(TransactionType::Withdrawal, 1, 11, Some("1")),
        tx(TransactionType::Dispute, 1, 1, None),
        tx(TransactionType::Resolve, 1, 1, None),
        tx(TransactionType::Chargeback, 1, 1, None),
    ];
    for t in later {
        assert_eq!(
            transactor.process_or_ignore(t),
            Err(TransactionError::AccountIsLocked { cid: ClientId(1) })
        );
        assert_eq!(balances(&transactor, 1), before);
    }
    let account = transactor.account(ClientId(1)).unwrap();
    let ignored = account.ignored_transactions.entries();
    let ids: Vec<TransactionId> = ignored.iter().map(|(k, _)| *k).collect();
    assert_eq!(ids, vec![TransactionId(10), TransactionId(11), TransactionId(1)]);
    assert_eq!(ignored[2].1.transaction.ttype, TransactionType::Chargeback);
}

#[test]
fn lifecycle_keeps_each_id_in_one_ledger() {
    let mut transactor = dispute_lifecycle();
    assert_eq!(transactor.process_transaction(tx(TransactionType::Dispute, 1, 1, None)), Ok(()));
    let a = transactor.account(ClientId(1)).unwrap();
    let ledgers = vec![
        a.processed_transactions.entries(),
        a.disputed_transactions.entries(),
        a.resolved_transactions.entries(),
        a.charged_back_transactions.entries(),
    ];
    for id in [TransactionId(1), TransactionId(2)] {
        let count = ledgers
            .iter()
            .filter(|l| l.iter().any(|(k, _)| *k == id))
            .count();
        assert_eq!(count, 1);
    }
    assert_eq!(a.disputed_transactions.entries()[0].0, TransactionId(1));
}

#[test]
fn repeated_dispute_of_unknown_id_changes_nothing() {
    let mut transactor = Transactor::new();
    let deposit = tx(TransactionType::Deposit, 1, 1, Some("2"));
    assert_eq!(transactor.process_transaction(deposit), Ok(()));
    let before = balances(&transactor, 1);
    for _ in 0..3 {
        assert_eq!(
            transactor.process_transaction(tx(TransactionType::Dispute, 1, 5, None)),
            Err(TransactionError::NoSuchProcessedTransactionForClient {
                tid: TransactionId(5),
                cid: ClientId(1),
            })
        );
        assert_eq!(balances(&transactor, 1), before);
        let a = transactor.account(ClientId(1)).unwrap();
        assert_eq!(a.processed_transactions.entries(), vec![(TransactionId(1), deposit)]);
        assert!(a.disputed_transactions.entries().is_empty());
    }
}

#[test]
fn deposit_without_amount_is_malformed() {
    let mut transactor = Transactor::new();
    assert_eq!(
        transactor.process_transaction(tx(TransactionType::Deposit, 3, 1, None)),
        Err(TransactionError::MalformedInputData)
    );
    assert_eq!(
        transactor.process_transaction(tx(TransactionType::Withdrawal, 3, 2, None)),
        Err(TransactionError::MalformedInputData)
    );
}

#[test]
fn deposit_past_the_range_is_rejected() {
    let mut transactor = Transactor::new();
    let big = "79228162514264337593543950335";
    assert_eq!(transactor.process_transaction(tx(TransactionType::Deposit, 2, 1, Some(big))), Ok(()));
    assert_eq!(
        transactor.process_transaction(tx(TransactionType::Deposit, 2, 2, Some("1"))),
        Err(TransactionError::AmountOutOfRange { cid: ClientId(2) })
    );
    let out_of_range = Transaction {
        ttype: TransactionType::Deposit,
        cid: ClientId(2),
        tid: TransactionId(3),
        amount: Some(Currency { mantissa: 1, scale: 40 }),
    };
    assert_eq!(
        transactor.process_transaction(out_of_range),
        Err(TransactionError::AmountOutOfRange { cid: ClientId(2) })
    );
    let a = transactor.account(ClientId(2)).unwrap();
    assert_eq!(a.total, Currency::from_str(big).unwrap());
}

#[test]
fn resolve_and_chargeback_need_the_right_stage() {
    let mut transactor = Transactor::new();
    assert_eq!(transactor.process_transaction(tx(TransactionType::Deposit, 1, 1, Some("4"))), Ok(()));
    assert_eq!(
        transactor.process_transaction(tx(TransactionType::Resolve, 1, 1, None)),
        Err(TransactionError::NoSuchDisputedTransactionForClient {
            tid: TransactionId(1),
            cid: ClientId(1),
        })
    );
    assert_eq!(transactor.process_transaction(tx(TransactionType::Dispute, 1, 1, None)), Ok(()));
    assert_eq!(
        transactor.process_transaction(tx(TransactionType::Chargeback, 1, 1, None)),
        Err(TransactionError::NoSuchResolvedTransactionForClient {
            tid: TransactionId(1),
            cid: ClientId(1),
        })
    );
    assert_eq!(
        balances(&transactor, 1),
        ("0.0000".to_string(), "4.0000".to_string(), "4.0000".to_string(), false)
    );
}

#[test]
fn disputes_are_checked_against_the_owning_account() {
    let mut transactor = Transactor::new();
    assert_eq!(transactor.process_transaction(tx(TransactionType::Deposit, 1, 1, Some("4"))), Ok(()));
    assert_eq!(
        transactor.process_transaction(tx(TransactionType::Dispute, 2, 1, None)),
        Err(TransactionError::NoSuchProcessedTransactionForClient {
            tid: TransactionId(1),
            cid: ClientId(2),
        })
    );
    assert_eq!(transactor.client_ids(), vec![ClientId(1), ClientId(2)]);
}

#[test]
fn client_ids_are_ascending() {
    let mut transactor = Transactor::new();
    for cid in [7u16, 65535, 0, 3] {
        assert_eq!(transactor.ensure_client_account_exists(ClientId(cid)), Ok(()));
    }
    assert_eq!(
        transactor.client_ids(),
        vec![ClientId(0), ClientId(3), ClientId(7), ClientId(65535)]
    );
    assert_eq!(transactor.freeze_account(ClientId(3)), Ok(()));
    assert_eq!(
        transactor.freeze_account(ClientId(3)),
        Err(TransactionError::AccountIsLocked { cid: ClientId(3) })
    );
    assert_eq!(amount("1"), amount("1.0000"));
}

#[test]
fn deposit_reusing_a_disputed_id_is_applied_again() {
    let mut transactor = Transactor::new();
    let first = tx(TransactionType::Deposit, 1, 1, Some("2"));
    assert_eq!(transactor.process_transaction(first), Ok(()));
    assert_eq!(transactor.process_transaction(tx(TransactionType::Dispute, 1, 1, None)), Ok(()));
    let again = tx(TransactionType::Deposit, 1, 1, Some("3"));
    assert_eq!(transactor.process_transaction(again), Ok(()));
    let a = transactor.account(ClientId(1)).unwrap();
    assert_eq!(a.processed_transactions.entries(), vec![(TransactionId(1), again)]);
    assert_eq!(a.disputed_transactions.entries(), vec![(TransactionId(1), first)]);
    assert_eq!(
        balances(&transactor, 1),
        ("3.0000".to_string(), "2.0000".to_string(), "5.0000".to_string(), false)
    );
}

#[test]
fn transaction_errors_convert_into_run_errors() {
    assert_eq!(
        giant_squid::AppError::from(TransactionError::MalformedInputData),
        giant_squid::AppError::TransactionError(TransactionError::MalformedInputData)
    );
}

#[test]
fn rows_render_client_balances_and_lock() {
    let mut transactor = dispute_lifecycle();
    assert_eq!(transactor.process_transaction(tx(TransactionType::Chargeback, 1, 2, None)), Ok(()));
    let a = transactor.account(ClientId(1)).unwrap();
    assert!(a.is_renderable());
    assert_eq!(a.csv_row(), "1,5.0000,-5.0000,0.0000,true");
    assert_eq!(transactor.process_transaction(tx(TransactionType::Deposit, 300, 1, Some("1.23476"))), Ok(()));
    let b = transactor.account(ClientId(300)).unwrap();
    assert_eq!(b.csv_row(), "300,1.2348,0.0000,1.2348,false");
}

#[test]
fn deposit_fits_when_exact_result_does() {
    let mut transactor = Transactor::new();
    let nines = "9999999999999999999999999999";
    assert_eq!(transactor.process_transaction(tx(TransactionType::Deposit, 4, 1, Some(nines))), Ok(()));
    assert_eq!(transactor.process_transaction(tx(TransactionType::Deposit, 4, 2, Some(nines))), Ok(()));
    assert_eq!(transactor.process_transaction(tx(TransactionType::Deposit, 4, 3, Some("1.0"))), Ok(()));
    let a = transactor.account(ClientId(4)).unwrap();
    assert_eq!(a.total, Currency::from_str("19999999999999999999999999999").unwrap());
    assert_eq!(transactor.process_transaction(tx(TransactionType::Withdrawal, 4, 4, Some("1.0"))), Ok(()));
    let a = transactor.account(ClientId(4)).unwrap();
    assert_eq!(a.available, Currency::from_str("19999999999999999999999999998").unwrap());
    assert_eq!(
        transactor.process_transaction(tx(TransactionType::Withdrawal, 4, 5, Some("0.5"))),
        Err(TransactionError::AmountOutOfRange { cid: ClientId(4) })
    );
    assert_eq!(transactor.process_transaction(tx(TransactionType::Dispute, 4, 3, None)), Ok(()));
    let a = transactor.account(ClientId(4)).unwrap();
    assert_eq!(a.held, Currency::from_str("1.0").unwrap());
}

#[test]
fn lines_are_read_and_processed_in_order() {
    let mut transactor = Transactor::new();
    let mut reader = giant_squid::CsvReader::new();
    let lines: Vec<&[u8]> = vec![
        b"# ledger",
        b"type, client, tx, amount",
        b"deposit, 1, 1, 2.5",
        b"withdrawal, 1, 2, 9",
        b"dispute, 1, 1,",
    ];
    for line in lines {
        assert_eq!(transactor.process_line(&mut reader, line), Ok(()));
    }
    assert_eq!(
        balances(&transactor, 1),
        ("0.0000".to_string(), "2.5000".to_string(), "2.5000".to_string(), false)
    );
    let a = transactor.account(ClientId(1)).unwrap();
    assert_eq!(a.ignored_transactions.entries().len(), 1);
    assert_eq!(
        transactor.process_line(&mut reader, b"refund, 1, 3, 1"),
        Err(giant_squid::AppError::UnknownTransactionType { line: 6 })
    );
}

#[test]
fn dispute_handler_rejects_unknown_ids_every_time() {
    let mut account = giant_squid::Account::new(ClientId(1));
    let deposit = tx(TransactionType::Deposit, 1, 1, Some("3"));
    assert_eq!(Transactor::deposit(&mut account, &deposit), Ok(()));
    assert_eq!(Transactor::dispute(&mut account, &tx(TransactionType::Dispute, 1, 1, None)), Ok(()));
    for tid in [1u32, 1, 2] {
        assert_eq!(
            Transactor::dispute(&mut account, &tx(TransactionType::Dispute, 1, tid, None)),
            Err(TransactionError::NoSuchProcessedTransactionForClient {
                tid: TransactionId(tid),
                cid: ClientId(1),
            })
        );
        assert_eq!(account.held, Currency::from_str("3").unwrap());
        assert_eq!(account.available, Currency::from_str("0").unwrap());
    }
}
