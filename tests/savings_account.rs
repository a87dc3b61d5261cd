use taskkit::account::SavingsAccount;

#[test]
fn lib_should_have_a_starting_balance_of_0() {
    let account = SavingsAccount::new();

    assert_eq!(account.get_balance(), 0);
}

#[test]
fn should_be_able_to_deposit() {
    let mut account = SavingsAccount::new();

    account.deposit(120);

    assert_eq!(account.get_balance(), 120);
    assert_ne!(account.get_balance(), 0);
    assert!(account.get_balance() == 120, "Balance was not correct");
}

#[test]
fn should_transfer_money() -> Result<(), String> {
    let mut account = SavingsAccount::new();

    account.deposit(100);
    account.transfer(123456, 50)?;

    Ok(())
}

#[test]
fn should_not_be_able_to_transfer_money() {
    let mut account = SavingsAccount::new();

    account.deposit(100);

    let result = account.transfer(123456, 150);

    assert!(result.is_err());
}

#[test]
fn savings_account_should_have_a_starting_balance_of_0() {
    let account = SavingsAccount::new();

    assert_eq!(account.get_balance(), 0);
}

#[test]
fn transfer_reports_amount_and_account() {
    let mut account = SavingsAccount::new();
    account.deposit(100);
    let msg = account.transfer(123456, 50).unwrap();
    assert_eq!(msg, "Transferred $50 to $123456");
    assert_eq!(account.get_balance(), 50);
}

#[test]
fn refused_transfer_keeps_balance() {
    let mut account = SavingsAccount::new();
    account.deposit(100);
    let err = account.transfer(7, 150).unwrap_err();
    assert_eq!(err, "There is not enough balance");
    assert_eq!(account.get_balance(), 100);
}

#[test]
fn transfer_of_whole_balance_leaves_zero() {
    let mut account = SavingsAccount::new();
    account.deposit(30);
    let msg = account.transfer(-4, 30).unwrap();
    assert_eq!(msg, "Transferred $30 to $-4");
    assert_eq!(account.get_balance(), 0);
}
