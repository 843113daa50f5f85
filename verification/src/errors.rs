//! Error type shared by the storage, transaction and persistence layers.

use vstd::prelude::*;

verus! {

/// Every failure a ledger operation can report.
#[derive(Debug)]
pub enum BankError {
    /// The operation referenced an account that is not in the store.
    UserNotFound,
    /// A withdrawal asked for more than the current balance.
    FundsLimit,
    /// An underlying I/O or parsing failure, with a description.
    System(String),
}

impl BankError {
    /// The human-readable description of this error.
    pub open spec fn describe_spec(&self) -> Seq<char> {
        match self {
            BankError::UserNotFound => "User not found"@,
            BankError::FundsLimit => "Isn't enought money"@,
            BankError::System(d) => "System error: "@ + d@,
        }
    }

    /// Renders the error as text, one fixed message per variant.
    pub fn describe(&self) -> (r: String)
        ensures
            r@ == self.describe_spec(),
    {
        match self {
            BankError::UserNotFound => "User not found".to_owned(),
            BankError::FundsLimit => "Isn't enought money".to_owned(),
            BankError::System(d) => {
                let mut msg = "System error: ".to_owned();
                msg.append(d.as_str());
                msg
            },
        }
    }
}

} // verus!
