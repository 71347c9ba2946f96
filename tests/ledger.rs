use ledger::amount::Amount;
use ledger::ledger::{replay, Account, Ledger, LedgerError, Transaction, TransactionKind};
use ledger::process::process;
use ledger::snapshot::{report, Snapshot};

fn amt(mantissa: i128, scale: u32) -> Amount {
    Amount::new(mantissa, scale).unwrap()
}

fn deposit(client: u16, tx: u32, amount: Amount) -> Transaction {
    Transaction { kind: TransactionKind::Deposit, client, tx, amount: Some(amount) }
}

fn withdrawal(client: u16, tx: u32, amount: Amount) -> Transaction {
    Transaction { kind: TransactionKind::Withdrawal, client, tx, amount: Some(amount) }
}

fn refer(kind: TransactionKind, client: u16, tx: u32) -> Transaction {
    Transaction { kind, client, tx, amount: None }
}

fn dispute(client: u16, tx: u32) -> Transaction {
    refer(TransactionKind::Dispute, client, tx)
}

fn resolve(client: u16, tx: u32) -> Transaction {
    refer(TransactionKind::Resolve, client, tx)
}

fn chargeback(client: u16, tx: u32) -> Transaction {
    refer(TransactionKind::Chargeback, client, tx)
}

/// Compares a snapshot's fields with (mantissa, scale) pairs.
fn assert_row(s: &Snapshot, client: u16, available: (i128, u32), held: (i128, u32), total: (i128, u32), locked: bool) {
    assert_eq!(s.client, client);
    assert_eq!((s.available.mantissa, s.available.scale), available);
    assert_eq!((s.held.mantissa, s.held.scale), held);
    assert_eq!((s.total.mantissa, s.total.scale), total);
    assert_eq!(s.locked, locked);
}

fn single_row(txs: Vec<Transaction>) -> Snapshot {
    let rows = report(&txs).unwrap();
    assert_eq!(rows.len(), 1);
    rows[0]
}

#[test]
fn should_withdraw_when_funds_are_available() {
    let row = single_row(vec![deposit(1, 1, amt(50, 1)), withdrawal(1, 2, amt(30, 1))]);
    assert_row(&row, 1, (20, 1), (0, 0), (20, 1), false);
}

#[test]
fn should_not_withdraw_when_funds_is_not_available() {
    let row = single_row(vec![deposit(1, 1, amt(50, 1)), withdrawal(1, 2, amt(100, 1))]);
    assert_row(&row, 1, (50, 1), (0, 0), (50, 1), false);
}

#[test]
fn should_held_funds_when_dispute_has_an_existing_deposit() {
    let row = single_row(vec![deposit(1, 1, amt(50, 1)), dispute(1, 1)]);
    assert_row(&row, 1, (0, 1), (50, 1), (50, 1), false);
}

#[test]
fn should_not_held_funds_when_dispute_missing_a_deposit() {
    let row = single_row(vec![deposit(1, 1, amt(50, 1)), dispute(1, 2)]);
    assert_row(&row, 1, (50, 1), (0, 0), (50, 1), false);
}

#[test]
fn should_resolve_funds_when_dispute_exist() {
    let row = single_row(vec![deposit(1, 1, amt(50, 1)), dispute(1, 1), resolve(1, 1)]);
    assert_row(&row, 1, (50, 1), (0, 1), (50, 1), false);
}

#[test]
fn should_not_resolve_funds_when_dispute_does_not_exist() {
    let row = single_row(vec![deposit(1, 1, amt(50, 1)), resolve(1, 1)]);
    assert_row(&row, 1, (50, 1), (0, 0), (50, 1), false);
}

#[test]
fn should_withdraw_and_freeze_account_on_chargeback() {
    let row = single_row(vec![deposit(1, 1, amt(50, 1)), dispute(1, 1), chargeback(1, 1)]);
    assert_row(&row, 1, (0, 1), (0, 1), (0, 1), true);
}

#[test]
fn should_not_withdraw_funds_when_dispute_does_not_exist() {
    let row = single_row(vec![deposit(1, 1, amt(50, 1)), chargeback(1, 1)]);
    assert_row(&row, 1, (50, 1), (0, 0), (50, 1), false);
}

#[test]
fn should_work_with_mutiple_clients() {
    let txs = vec![
        deposit(2, 1, amt(30, 1)),
        deposit(1, 2, amt(50, 1)),
        withdrawal(2, 3, amt(10, 1)),
        withdrawal(1, 4, amt(20, 1)),
    ];
    let rows = report(&txs).unwrap();
    assert_eq!(rows.len(), 2);
    assert_row(&rows[0], 1, (30, 1), (0, 0), (30, 1), false);
    assert_row(&rows[1], 2, (20, 1), (0, 0), (20, 1), false);
}

#[test]
fn interleaving_order_does_not_change_rows() {
    let a = vec![
        deposit(7, 1, amt(100, 2)),
        deposit(3, 2, amt(5, 0)),
        dispute(7, 1),
        withdrawal(3, 3, amt(2, 0)),
        resolve(7, 1),
    ];
    let b = vec![a[1], a[3], a[0], a[2], a[4]];
    let ra = process(&a).unwrap();
    let rb = process(&b).unwrap();
    assert_eq!(ra, rb);
    assert_eq!(ra.len(), 2);
    assert_eq!(ra[0].client, 3);
    assert_eq!(ra[1].client, 7);
}

#[test]
fn totals_match_applied_flows() {
    // applied: deposits 5 + 3 (client 1) and 4 (client 2); withdrawal 2; chargeback 3.
    let txs = vec![
        deposit(1, 1, amt(5, 0)),
        deposit(1, 2, amt(3, 0)),
        deposit(2, 3, amt(4, 0)),
        withdrawal(1, 4, amt(2, 0)),
        withdrawal(2, 5, amt(9, 0)),
        dispute(1, 2),
        chargeback(1, 2),
    ];
    let accounts = process(&txs).unwrap();
    let mut sum: i128 = 0;
    for a in &accounts {
        let t = a.total().unwrap();
        assert_eq!(t.scale, 0);
        sum += t.mantissa;
    }
    assert_eq!(sum, 5 + 3 + 4 - 2 - 3);
}

#[test]
fn withdrawal_of_exact_balance_empties_account() {
    let row = single_row(vec![deposit(1, 1, amt(50, 1)), withdrawal(1, 2, amt(5, 0))]);
    assert_row(&row, 1, (0, 1), (0, 0), (0, 1), false);
}

#[test]
fn second_dispute_while_open_is_ignored() {
    let row = single_row(vec![deposit(1, 1, amt(5, 0)), dispute(1, 1), dispute(1, 1)]);
    assert_row(&row, 1, (0, 0), (5, 0), (5, 0), false);
}

#[test]
fn dispute_may_reopen_after_resolve() {
    let row = single_row(vec![deposit(1, 1, amt(5, 0)), dispute(1, 1), resolve(1, 1), dispute(1, 1)]);
    assert_row(&row, 1, (0, 0), (5, 0), (5, 0), false);
}

#[test]
fn dispute_before_its_deposit_is_ignored() {
    let row = single_row(vec![dispute(1, 1), deposit(1, 1, amt(5, 0))]);
    assert_row(&row, 1, (5, 0), (0, 0), (5, 0), false);
}

#[test]
fn dispute_of_other_clients_deposit_is_ignored() {
    let rows = report(&vec![deposit(1, 1, amt(5, 0)), dispute(2, 1)]).unwrap();
    assert_eq!(rows.len(), 2);
    assert_row(&rows[0], 1, (5, 0), (0, 0), (5, 0), false);
    assert_row(&rows[1], 2, (0, 0), (0, 0), (0, 0), false);
}

#[test]
fn locked_account_still_takes_deposits_and_withdrawals() {
    let row = single_row(vec![
        deposit(1, 1, amt(5, 0)),
        deposit(1, 2, amt(1, 0)),
        dispute(1, 1),
        chargeback(1, 1),
        deposit(1, 3, amt(7, 0)),
        withdrawal(1, 4, amt(2, 0)),
    ]);
    assert_row(&row, 1, (6, 0), (0, 0), (6, 0), true);
}

#[test]
fn missing_amount_is_an_error() {
    let txs = vec![deposit(1, 1, amt(5, 0)), refer(TransactionKind::Withdrawal, 1, 2)];
    assert_eq!(report(&txs), Err(LedgerError::MissingAmount { tx: 2 }));
    let txs = vec![refer(TransactionKind::Deposit, 3, 9)];
    assert_eq!(process(&txs), Err(LedgerError::MissingAmount { tx: 9 }));
}

#[test]
fn balance_overflow_is_an_error() {
    let max = Amount::new(ledger::amount::MAX_MANTISSA, 0).unwrap();
    let txs = vec![deposit(1, 1, max), deposit(1, 2, amt(1, 0))];
    assert_eq!(report(&txs), Err(LedgerError::Overflow { tx: 2 }));
}

#[test]
fn total_overflow_is_an_error() {
    let max = Amount::new(ledger::amount::MAX_MANTISSA, 0).unwrap();
    let txs = vec![deposit(1, 1, max), dispute(1, 1), deposit(1, 2, max)];
    assert!(process(&txs).is_ok());
    assert_eq!(report(&txs), Err(LedgerError::TotalOverflow { client: 1 }));
}

#[test]
fn snapshot_rounds_to_four_digits_half_even() {
    let row = single_row(vec![deposit(1, 1, amt(123456, 5))]);
    assert_row(&row, 1, (12346, 4), (0, 0), (12346, 4), false);
    let row = single_row(vec![deposit(1, 1, amt(100005, 5))]);
    assert_row(&row, 1, (10000, 4), (0, 0), (10000, 4), false);
    let row = single_row(vec![deposit(1, 1, amt(100015, 5))]);
    assert_row(&row, 1, (10002, 4), (0, 0), (10002, 4), false);
    let row = single_row(vec![deposit(1, 1, amt(-100025, 5))]);
    assert_row(&row, 1, (-10002, 4), (0, 0), (-10002, 4), false);
}

#[test]
fn total_is_rounded_once() {
    // 0.00004 + 0.00004: each rounds to 0, the total 0.00008 rounds to 0.0001.
    let a = Account { client: 4, available: amt(4, 5), held: amt(4, 5), locked: false };
    let s = a.to_snapshot().unwrap();
    assert_row(&s, 4, (0, 4), (0, 4), (1, 4), false);
}

#[test]
fn amounts_add_across_scales() {
    let a = amt(15, 1);
    let b = amt(25, 2);
    assert_eq!(a.checked_add(b), Some(amt(175, 2)));
    assert_eq!(a.checked_sub(b), Some(amt(125, 2)));
    assert!(a.is_at_least(b));
    assert!(!b.is_at_least(a));
    assert!(amt(10, 1).is_at_least(amt(1, 0)));
    assert_eq!(Amount::new(1, 29), None);
    assert_eq!(Amount::new(ledger::amount::MAX_MANTISSA + 1, 0), None);
}

#[test]
fn comparison_survives_wide_scale_gap() {
    let big = Amount::new(ledger::amount::MAX_MANTISSA, 0).unwrap();
    let tiny = amt(1, 28);
    assert!(big.is_at_least(tiny));
    assert!(!tiny.is_at_least(big));
    assert_eq!(big.checked_add(tiny), None);
}

#[test]
fn replay_of_one_client() {
    let txs = vec![deposit(5, 1, amt(10, 0)), dispute(5, 1), chargeback(5, 1), deposit(5, 2, amt(1, 0))];
    let a = replay(5, &txs).unwrap();
    assert_eq!(a.client, 5);
    assert_eq!(a.available, amt(1, 0));
    assert_eq!(a.held, amt(0, 0));
    assert!(a.locked);
    assert_eq!(replay(5, &vec![]).unwrap(), Account::new(5));
}

#[test]
fn ledger_apply_leaves_state_on_error() {
    let mut l = Ledger::new(1);
    assert_eq!(l.apply(&deposit(1, 1, amt(3, 0))), Ok(()));
    assert_eq!(l.apply(&refer(TransactionKind::Deposit, 1, 2)), Err(LedgerError::MissingAmount { tx: 2 }));
    assert_eq!(l.account().available, amt(3, 0));
}

#[test]
fn empty_input_gives_no_rows() {
    assert_eq!(report(&vec![]).unwrap().len(), 0);
}

#[test]
fn first_failing_transaction_decides_the_error() {
    let txs = vec![
        deposit(1, 1, amt(5, 0)),
        refer(TransactionKind::Withdrawal, 2, 7),
        refer(TransactionKind::Deposit, 1, 8),
    ];
    assert_eq!(process(&txs), Err(LedgerError::MissingAmount { tx: 7 }));
}
