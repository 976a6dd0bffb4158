use ledger::balances::ErrorKind;
use ledger::balances::Pallet;

#[test]
fn init_balances() {
    let mut balances = Pallet::new();

    assert_eq!(balances.balance(&"alice".to_string()), 0);
    balances.set_balance(&"alice".to_string(), 100);
    assert_eq!(balances.balance(&"alice".to_string()), 100);
    assert_eq!(balances.balance(&"bob".to_string()), 0);
}

#[test]
fn transfer_balance() {
    let alice = &"alice".to_string();
    let bob = &"bob".to_string();
    let carl = &"carl".to_string();

    let alice_init_balance = 100;
    let bob_init_balance = u128::MAX;

    let mut balances = Pallet::new();
    balances.set_balance(alice, alice_init_balance);
    let t1 = balances.transfer(alice, bob, 101);
    assert!(t1.is_err());
    assert_eq!(t1.unwrap_err().message(), "Not enough funds.");
    assert_eq!(balances.balance(alice), 100);

    balances.set_balance(bob, bob_init_balance);
    let t2 = balances.transfer(alice, bob, 1);
    assert!(t2.is_err());
    assert_eq!(t2.unwrap_err().message(), "Overflow.");
    assert_eq!(balances.balance(alice), 100);
    assert_eq!(balances.balance(bob), bob_init_balance);

    balances.set_balance(carl, 10);
    let t3 = balances.transfer(alice, carl, 1);
    assert!(!t3.is_err());
    assert_eq!(balances.balance(alice), 99);
    assert_eq!(balances.balance(carl), 11);
}

#[test]
fn unknown_accounts_read_zero() {
    let balances = Pallet::new();
    assert_eq!(balances.balance(&"alice".to_string()), 0);
    assert_eq!(balances.balance(&"".to_string()), 0);

    let mut balances = Pallet::new();
    balances.set_balance(&"alice".to_string(), 7);
    assert_eq!(balances.balance(&"bob".to_string()), 0);
}

#[test]
fn set_balance_overwrites() {
    let alice = &"alice".to_string();
    let mut balances = Pallet::new();
    balances.set_balance(alice, 100);
    balances.set_balance(alice, 42);
    assert_eq!(balances.balance(alice), 42);
    balances.set_balance(alice, 0);
    assert_eq!(balances.balance(alice), 0);
    balances.set_balance(alice, u128::MAX);
    assert_eq!(balances.balance(alice), u128::MAX);
}

#[test]
fn repeated_reads_agree() {
    let mut balances = Pallet::new();
    balances.set_balance(&"alice".to_string(), 55);
    let first = balances.balance(&"alice".to_string());
    let second = balances.balance(&"alice".to_string());
    let third = balances.balance(&"alice".to_string());
    assert_eq!(first, 55);
    assert_eq!(first, second);
    assert_eq!(second, third);
}

#[test]
fn transfer_conserves_totals() {
    let alice = &"alice".to_string();
    let bob = &"bob".to_string();
    let carl = &"carl".to_string();

    let mut balances = Pallet::new();
    balances.set_balance(alice, 100);
    balances.set_balance(bob, 20);
    balances.set_balance(carl, 3);

    let t = balances.transfer(alice, bob, 60);
    assert!(t.is_ok());
    assert_eq!(balances.balance(alice), 40);
    assert_eq!(balances.balance(bob), 80);
    assert_eq!(balances.balance(carl), 3);
    assert_eq!(
        balances.balance(alice) + balances.balance(bob) + balances.balance(carl),
        123
    );
}

#[test]
fn failed_transfer_changes_nothing() {
    let alice = &"alice".to_string();
    let bob = &"bob".to_string();

    let mut balances = Pallet::new();
    balances.set_balance(alice, 10);
    balances.set_balance(bob, u128::MAX - 5);

    let t1 = balances.transfer(alice, bob, 11);
    assert_eq!(t1, Err(ErrorKind::InsufficientFunds));
    assert_eq!(balances.balance(alice), 10);
    assert_eq!(balances.balance(bob), u128::MAX - 5);

    let t2 = balances.transfer(alice, bob, 6);
    assert_eq!(t2, Err(ErrorKind::Overflow));
    assert_eq!(balances.balance(alice), 10);
    assert_eq!(balances.balance(bob), u128::MAX - 5);
}

#[test]
fn transfer_of_zero_succeeds() {
    let alice = &"alice".to_string();
    let bob = &"bob".to_string();

    let mut balances = Pallet::new();
    let t = balances.transfer(alice, bob, 0);
    assert!(t.is_ok());
    assert_eq!(balances.balance(alice), 0);
    assert_eq!(balances.balance(bob), 0);
}

#[test]
fn transfer_of_whole_balance_succeeds() {
    let alice = &"alice".to_string();
    let bob = &"bob".to_string();

    let mut balances = Pallet::new();
    balances.set_balance(alice, 100);
    let t = balances.transfer(alice, bob, 100);
    assert!(t.is_ok());
    assert_eq!(balances.balance(alice), 0);
    assert_eq!(balances.balance(bob), 100);
}

#[test]
fn self_transfer_shortfall_fails() {
    let alice = &"alice".to_string();
    let mut balances = Pallet::new();
    balances.set_balance(alice, 100);
    let t = balances.transfer(alice, alice, 101);
    assert_eq!(t, Err(ErrorKind::InsufficientFunds));
    assert_eq!(balances.balance(alice), 100);
}

#[test]
fn self_transfer_of_zero_is_a_no_op() {
    let alice = &"alice".to_string();
    let mut balances = Pallet::new();
    balances.set_balance(alice, 100);
    let t = balances.transfer(alice, alice, 0);
    assert!(t.is_ok());
    assert_eq!(balances.balance(alice), 100);
}

// A covered self-transfer succeeds and leaves the balance unchanged; the
// credit lands on the balance the debit just left, so it cannot overflow
// even at the maximum balance.
#[test]
fn self_transfer_succeeds_unchanged() {
    let alice = &"alice".to_string();
    let mut balances = Pallet::new();
    balances.set_balance(alice, 100);
    let t = balances.transfer(alice, alice, 30);
    assert!(t.is_ok());
    assert_eq!(balances.balance(alice), 100);

    balances.set_balance(alice, u128::MAX);
    let t2 = balances.transfer(alice, alice, 1);
    assert!(t2.is_ok());
    assert_eq!(balances.balance(alice), u128::MAX);

    let t3 = balances.transfer(alice, alice, u128::MAX);
    assert!(t3.is_ok());
    assert_eq!(balances.balance(alice), u128::MAX);
}

#[test]
fn error_messages() {
    assert_eq!(ErrorKind::InsufficientFunds.message(), "Not enough funds.");
    assert_eq!(ErrorKind::Overflow.message(), "Overflow.");
}
