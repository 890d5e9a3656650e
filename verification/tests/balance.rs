use payments_engine::ledger::balance::{Balance, BalanceSnapshot, Error};

#[test]
fn deposit_and_withdraw() {
    let mut b = Balance::new(0);

    b.deposit(100).unwrap();
    b.withdraw(10).unwrap();

    assert_eq!(90, b.available());
}

#[test]
fn deposit_withdraw_hold() {
    let mut b = Balance::new(0);

    b.deposit(100).unwrap();
    b.withdraw(10).unwrap();

    // Place a hold on the withdrawal
    b.hold(2, -10).unwrap();

    assert_eq!(90, b.available());
}

#[test]
fn new_balance_is_empty_and_unlocked() {
    let b = Balance::new(7);
    assert_eq!(
        b.snapshot(),
        BalanceSnapshot { client: 7, available: 0, held: 0, total: 0, locked: false }
    );
    assert_eq!(b.total(), 0);
    assert_eq!(b.held(), 0);
    assert_eq!(b.available(), 0);
    assert!(!b.locked());
}

#[test]
fn withdraw_more_than_total_is_refused() {
    let mut b = Balance::new(0);
    b.deposit(100).unwrap();
    assert_eq!(b.withdraw(101), Err(Error::InsufficientFunds));
    assert_eq!(b.total(), 100);
    // All of the total can go.
    assert_eq!(b.withdraw(100), Ok(()));
    assert_eq!(b.total(), 0);
}

#[test]
fn withdraw_is_measured_against_total_not_available() {
    let mut b = Balance::new(0);
    b.deposit(100).unwrap();
    b.hold(1, 100).unwrap();
    assert_eq!(b.available(), 0);
    assert_eq!(b.withdraw(60), Ok(()));
    assert_eq!(b.total(), 40);
    assert_eq!(b.held(), 100);
    assert_eq!(b.available(), -60);
}

#[test]
fn locked_balance_refuses_deposit_and_withdraw() {
    let mut b = Balance::new(0);
    b.deposit(100).unwrap();
    b.lock_balance();
    assert!(b.locked());
    assert_eq!(b.deposit(1), Err(Error::AccountLocked));
    assert_eq!(b.withdraw(1), Err(Error::AccountLocked));
    assert_eq!(b.total(), 100);
}

#[test]
fn locked_withdraw_of_too_much_reports_funds_first() {
    let mut b = Balance::new(0);
    b.deposit(5).unwrap();
    b.lock_balance();
    assert_eq!(b.withdraw(6), Err(Error::InsufficientFunds));
}

#[test]
fn lock_is_permanent() {
    let mut b = Balance::new(0);
    b.lock_balance();
    b.lock_balance();
    assert!(b.locked());
    assert!(b.snapshot().locked);
}

#[test]
fn second_hold_on_a_transaction_is_refused() {
    let mut b = Balance::new(0);
    b.deposit(100).unwrap();
    b.hold(1, 30).unwrap();
    assert_eq!(b.hold(1, 50), Err(Error::MultiHoldError(1)));
    assert_eq!(b.held(), 30);
    assert_eq!(b.total(), 100);
}

#[test]
fn hold_leaves_total_and_lowers_available() {
    let mut b = Balance::new(0);
    b.deposit(100).unwrap();
    b.hold(1, 30).unwrap();
    b.hold(2, 20).unwrap();
    assert_eq!(b.total(), 100);
    assert_eq!(b.held(), 50);
    assert_eq!(b.available(), 50);
}

#[test]
fn held_counts_positive_holds_only() {
    let mut b = Balance::new(0);
    b.deposit(100).unwrap();
    b.hold(1, 30).unwrap();
    b.hold(2, -20).unwrap();
    b.hold(3, 0).unwrap();
    b.hold(4, 5).unwrap();
    assert_eq!(b.held(), 35);
    assert_eq!(b.available(), 65);
}

#[test]
fn remove_hold_releases_the_funds() {
    let mut b = Balance::new(0);
    b.deposit(100).unwrap();
    b.hold(1, 30).unwrap();
    assert_eq!(b.remove_hold(1), Ok(()));
    assert_eq!(b.total(), 100);
    assert_eq!(b.held(), 0);
    assert_eq!(b.available(), 100);
    // The hold is gone: it cannot be removed or applied again.
    assert_eq!(b.remove_hold(1), Err(Error::NoHoldError(1)));
    assert_eq!(b.apply_hold(1), Err(Error::NoHoldError(1)));
}

#[test]
fn remove_hold_without_hold_is_refused() {
    let mut b = Balance::new(0);
    assert_eq!(b.remove_hold(9), Err(Error::NoHoldError(9)));
}

#[test]
fn apply_hold_without_hold_is_refused() {
    let mut b = Balance::new(0);
    b.deposit(10).unwrap();
    assert_eq!(b.apply_hold(9), Err(Error::NoHoldError(9)));
    assert_eq!(b.total(), 10);
}

#[test]
fn apply_positive_hold_lowers_total() {
    let mut b = Balance::new(0);
    b.deposit(100).unwrap();
    b.hold(1, 30).unwrap();
    assert_eq!(b.apply_hold(1), Ok(()));
    assert_eq!(b.total(), 70);
    assert_eq!(b.held(), 0);
    assert_eq!(b.available(), 70);
}

#[test]
fn apply_negative_hold_raises_total() {
    let mut b = Balance::new(0);
    b.deposit(100).unwrap();
    b.withdraw(10).unwrap();
    b.hold(2, -10).unwrap();
    assert_eq!(b.apply_hold(2), Ok(()));
    assert_eq!(b.total(), 100);
    assert_eq!(b.available(), 100);
}

#[test]
fn apply_hold_can_leave_a_negative_total() {
    let mut b = Balance::new(0);
    b.deposit(100).unwrap();
    b.withdraw(80).unwrap();
    b.hold(1, 100).unwrap();
    assert_eq!(b.apply_hold(1), Ok(()));
    assert_eq!(b.total(), -80);
    assert_eq!(b.available(), -80);
}

#[test]
fn holds_work_on_a_locked_balance() {
    let mut b = Balance::new(0);
    b.deposit(100).unwrap();
    b.lock_balance();
    assert_eq!(b.hold(1, 40), Ok(()));
    assert_eq!(b.held(), 40);
    assert_eq!(b.remove_hold(1), Ok(()));
    assert_eq!(b.held(), 0);
}

#[test]
fn snapshot_reports_the_four_quantities() {
    let mut b = Balance::new(3);
    b.deposit(100).unwrap();
    b.hold(1, 25).unwrap();
    b.lock_balance();
    let s = b.snapshot();
    assert_eq!(
        s,
        BalanceSnapshot { client: 3, available: 75, held: 25, total: 100, locked: true }
    );
    assert_eq!(s.available + s.held, s.total);
}

#[test]
fn largest_amounts_fit() {
    let mut b = Balance::new(0);
    b.deposit(u64::MAX).unwrap();
    b.deposit(u64::MAX).unwrap();
    assert_eq!(b.total(), 2 * (u64::MAX as i128));
    b.hold(1, u64::MAX as i128).unwrap();
    b.hold(2, -(u64::MAX as i128)).unwrap();
    assert_eq!(b.held(), u64::MAX as i128);
    assert_eq!(b.available(), u64::MAX as i128);
}

#[test]
fn a_clone_is_independent() {
    let mut b = Balance::new(0);
    b.deposit(10).unwrap();
    let c = b.clone();
    b.deposit(5).unwrap();
    assert_eq!(c.total(), 10);
    assert_eq!(b.total(), 15);
}
