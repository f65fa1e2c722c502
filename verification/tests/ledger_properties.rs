//! Scenario and law tests driven through the public ledger API and
//! through whole runs: the balance equation, non-negative balances under
//! deposits and withdrawals, frozen locked accounts, replay, client
//! isolation, and each reading error.

use payments_engine::engine::PaymentsEngine;
use payments_engine::event::{Event, ParseError, ParseErrorKind};
use payments_engine::run;

fn process_transactions(input: &str) -> String {
    let mut output: Vec<u8> = Vec::new();
    run(input.as_bytes(), &mut output).unwrap();
    String::from_utf8(output).unwrap()
}

fn run_error(input: &str) -> ParseError {
    let mut output: Vec<u8> = Vec::new();
    let e = run(input.as_bytes(), &mut output).unwrap_err();
    assert!(output.is_empty());
    e
}

// Amounts below are in ten-thousandths: 10_000 units is one whole unit.

#[test]
fn partial_withdrawal_leaves_the_difference() {
    let output = process_transactions(
        "type, client, tx, amount
        deposit, 1, 1, 1.0
        deposit, 1, 2, 1.0
        withdrawal, 1, 3, 1.5",
    );

    assert_eq!(output.lines().count(), 2);
    assert!(output.contains("client,available,held,total,locked\n"));
    assert!(output.contains("1,0.5,0.0000,0.5,false\n"));
}

#[test]
fn dispute_freezes_the_deposited_funds() {
    let output = process_transactions(
        "type, client, tx, amount
        deposit, 1, 1, 10.0
        dispute, 1, 1,",
    );

    assert!(output.contains("1,0,10,10,false\n"));
}

#[test]
fn chargeback_of_withdrawal_restores_funds_and_locks() {
    let output = process_transactions(
        "type, client, tx, amount
        deposit, 1, 1, 10.0
        withdrawal, 1, 2, 5.0
        dispute, 1, 2,
        chargeback, 1, 2,",
    );

    assert!(output.contains("1,10,0,10,true\n"));
}

#[test]
fn dispute_of_unknown_transaction_changes_nothing() {
    let output = process_transactions(
        "type, client, tx, amount
        deposit, 1, 1, 10.0
        dispute, 1, 2,",
    );

    assert!(output.contains("1,10,0.0000,10,false\n"));
}

#[test]
fn total_is_available_plus_held_at_every_step() {
    let mut engine = PaymentsEngine::new();
    let events = [
        Event::Deposit { client: 7, tx: 1, amount: 100_000 },
        Event::Withdrawal { client: 7, tx: 2, amount: 30_000 },
        Event::Dispute { client: 7, tx: 2 },
        Event::Deposit { client: 7, tx: 3, amount: 5 },
        Event::Resolve { client: 7, tx: 2 },
        Event::Dispute { client: 7, tx: 1 },
        Event::Chargeback { client: 7, tx: 1 },
    ];
    for ev in events {
        engine.process_transaction(ev);
        for account in &engine.accounts {
            assert_eq!(
                account.total.units,
                account.available.units + account.held.units
            );
        }
    }
}

#[test]
fn deposits_and_withdrawals_never_drive_balances_negative() {
    let mut engine = PaymentsEngine::new();
    engine.process_transaction(Event::Deposit { client: 1, tx: 1, amount: 10_000 });
    engine.process_transaction(Event::Withdrawal { client: 1, tx: 2, amount: 999_999 });
    engine.process_transaction(Event::Withdrawal { client: 1, tx: 3, amount: 10_001 });
    engine.process_transaction(Event::Deposit { client: 1, tx: 4, amount: -5 });
    let account = &engine.accounts[0];
    assert!(account.available.units >= 0);
    assert!(account.total.units >= 0);
    assert_eq!(account.available.units, 10_000);
}

#[test]
fn locked_account_ignores_deposits_and_withdrawals() {
    let mut engine = PaymentsEngine::new();
    engine.process_transaction(Event::Deposit { client: 1, tx: 1, amount: 50_000 });
    engine.process_transaction(Event::Deposit { client: 1, tx: 2, amount: 20_000 });
    engine.process_transaction(Event::Dispute { client: 1, tx: 2 });
    engine.process_transaction(Event::Chargeback { client: 1, tx: 2 });
    assert!(engine.accounts[0].locked);
    let before = (
        engine.accounts[0].available.units,
        engine.accounts[0].total.units,
    );
    engine.process_transaction(Event::Deposit { client: 1, tx: 3, amount: 70_000 });
    engine.process_transaction(Event::Withdrawal { client: 1, tx: 4, amount: 10_000 });
    let after = (
        engine.accounts[0].available.units,
        engine.accounts[0].total.units,
    );
    assert_eq!(before, after);
}

#[test]
fn replaying_the_same_stream_yields_the_same_snapshot() {
    let input = "type, client, tx, amount
        deposit, 1, 1, 10.0
        deposit, 2, 2, 3.5
        withdrawal, 1, 3, 2.0
        dispute, 2, 2,
        resolve, 2, 2,";
    let first = process_transactions(input);
    let second = process_transactions(input);
    assert_eq!(first, second);
}

#[test]
fn interleaved_clients_do_not_affect_each_other() {
    let output = process_transactions(
        "type, client, tx, amount
        deposit, 1, 1, 10.0
        deposit, 2, 2, 3.0
        withdrawal, 1, 3, 4.0
        dispute, 2, 2,
        deposit, 1, 4, 1.0
        chargeback, 2, 2,",
    );

    assert_eq!(output.lines().count(), 3);
    assert!(output.contains("1,7,0.0000,7,false\n"));
    assert!(output.contains("2,0,0,0,true\n"));
}

#[test]
fn snapshot_rows_come_in_increasing_client_order() {
    let output = process_transactions(
        "type, client, tx, amount
        deposit, 9, 1, 1.0
        deposit, 3, 2, 2.0
        deposit, 6, 3, 3.0",
    );

    let lines: Vec<&str> = output.lines().collect();
    assert_eq!(lines[0], "client,available,held,total,locked");
    assert_eq!(lines[1], "3,2,0.0000,2,false");
    assert_eq!(lines[2], "6,3,0.0000,3,false");
    assert_eq!(lines[3], "9,1,0.0000,1,false");
}

#[test]
fn header_columns_may_come_in_any_order() {
    let output = process_transactions(
        "amount, tx, client, type
        1.5, 1, 4, deposit",
    );

    assert!(output.contains("4,1.5,0.0000,1.5,false\n"));
}

#[test]
fn a_zero_deposit_is_applied_and_recorded() {
    let output = process_transactions(
        "type, client, tx, amount
        deposit, 1, 1, 0",
    );

    assert!(output.contains("1,0,0.0000,0,false\n"));
}

#[test]
fn amounts_may_carry_an_explicit_plus_sign() {
    let output = process_transactions(
        "type, client, tx, amount
        deposit, 1, 1, +2.5",
    );

    assert!(output.contains("1,2.5,0.0000,2.5,false\n"));
}

#[test]
fn carriage_return_line_endings_are_accepted() {
    let output = process_transactions(
        "type, client, tx, amount\r\ndeposit, 1, 1, 2.0\r\n",
    );

    assert!(output.contains("1,2,0.0000,2,false\n"));
}

#[test]
fn empty_input_yields_empty_output() {
    assert_eq!(process_transactions(""), "");
}

#[test]
fn unknown_event_kind_aborts_the_run() {
    let e = run_error(
        "type, client, tx, amount
        transfer, 1, 1, 2.0",
    );
    assert_eq!(e, ParseError { line: 2, kind: ParseErrorKind::UnknownKind });
}

#[test]
fn unreadable_client_aborts_the_run() {
    let e = run_error(
        "type, client, tx, amount
        deposit, x, 1, 2.0",
    );
    assert_eq!(e, ParseError { line: 2, kind: ParseErrorKind::BadClient });
}

#[test]
fn unreadable_transaction_aborts_the_run() {
    let e = run_error(
        "type, client, tx, amount
        deposit, 1, 99999999999, 2.0",
    );
    assert_eq!(e, ParseError { line: 2, kind: ParseErrorKind::BadTransaction });
}

#[test]
fn unreadable_amount_aborts_the_run() {
    let e = run_error(
        "type, client, tx, amount
        deposit, 1, 1, 1.2.3",
    );
    assert_eq!(e, ParseError { line: 2, kind: ParseErrorKind::BadAmount });
}

#[test]
fn an_amount_with_more_than_four_fraction_digits_aborts_the_run() {
    let e = run_error(
        "type, client, tx, amount
        deposit, 1, 1, 1.00001",
    );
    assert_eq!(e, ParseError { line: 2, kind: ParseErrorKind::BadAmount });
}

#[test]
fn a_record_missing_a_required_column_aborts_the_run() {
    let e = run_error(
        "type, client
        dispute, 1",
    );
    assert_eq!(e, ParseError { line: 2, kind: ParseErrorKind::MissingField });
}

#[test]
fn the_error_names_the_offending_line() {
    let e = run_error(
        "type, client, tx, amount
        deposit, 1, 1, 2.0

        withdrawal, one, 2, 1.0",
    );
    assert_eq!(e, ParseError { line: 4, kind: ParseErrorKind::BadClient });
}

#[test]
fn four_fraction_digits_survive_a_round_trip() {
    let output = process_transactions(
        "type, client, tx, amount
        deposit, 1, 1, 0.0001
        deposit, 1, 2, 123.4567",
    );

    assert!(output.contains("1,123.4568,0.0000,123.4568,false\n"));
}

#[test]
fn recomputed_balances_drop_trailing_zeros() {
    let output = process_transactions(
        "type, client, tx, amount
        deposit, 1, 1, 1.50
        deposit, 1, 2, 0.50",
    );

    assert!(output.contains("1,2,0.0000,2,false\n"));
}

#[test]
fn extra_trailing_fields_are_ignored() {
    let output = process_transactions(
        "type, client, tx, amount
        deposit, 1, 1, 2.0, note, 7",
    );

    assert!(output.contains("1,2,0.0000,2,false\n"));
}

#[test]
fn a_transaction_is_disputed_at_most_once_at_a_time() {
    let output = process_transactions(
        "type, client, tx, amount
        deposit, 1, 1, 10.0
        dispute, 1, 1,
        dispute, 1, 1,",
    );

    assert!(output.contains("1,0,10,10,false\n"));
}
