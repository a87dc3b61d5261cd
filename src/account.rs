use vstd::prelude::*;
use vstd::string::*;
use crate::text::{int_text, int_to_text};

verus! {

/// A savings account holding a balance in whole units.
pub struct SavingsAccount {
    balance: i32,
}

/// The confirmation written for a transfer of `amount` to `account_number`.
pub open spec fn transfer_message(account_number: int, amount: int) -> Seq<char> {
    "Transferred $"@ + int_text(amount) + " to $"@ + int_text(account_number)
}

impl SavingsAccount {
    /// The current balance.
    pub closed spec fn balance_of(&self) -> int {
        self.balance as int
    }

    /// Creates an account with a balance of 0.
    pub fn new() -> (r: SavingsAccount)
        ensures
            r.balance_of() == 0,
    {
        SavingsAccount { balance: 0 }
    }

    pub fn get_balance(&self) -> (r: i32)
        ensures
            r as int == self.balance_of(),
    {
        self.balance
    }

    /// Adds a non-negative amount to the balance; a negative amount is a caller error.
    pub fn deposit(&mut self, amount: i32)
        requires
            amount >= 0,
            old(self).balance_of() + amount <= i32::MAX,
        ensures
            final(self).balance_of() == old(self).balance_of() + amount,
    {
        self.balance = self.balance + amount;
    }

    /// Moves `amount` out of the account when the balance covers it.
    pub fn transfer(&mut self, account_number: i32, amount: i32) -> (r: Result<String, String>)
        requires
            i32::MIN <= old(self).balance_of() - amount <= i32::MAX,
        ensures
            old(self).balance_of() < amount ==> {
                &&& r is Err
                &&& r->Err_0@ == "There is not enough balance"@
                &&& final(self).balance_of() == old(self).balance_of()
            },
            old(self).balance_of() >= amount ==> {
                &&& r is Ok
                &&& r->Ok_0@ == transfer_message(account_number as int, amount as int)
                &&& final(self).balance_of() == old(self).balance_of() - amount
            },
    {
        if self.balance < amount {
            return Err(String::from_str("There is not enough balance"));
        }
        self.balance = self.balance - amount;
        let amount_text = int_to_text(amount);
        let number_text = int_to_text(account_number);
        let msg = String::from_str("Transferred $").concat(amount_text.as_str()).concat(
            " to $",
        ).concat(number_text.as_str());
        Ok(msg)
    }
}

} // verus!
