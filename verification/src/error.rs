//! Why a transition is rejected.

use vstd::prelude::*;

verus! {

/// The reasons for which a request is rejected. Every rejection leaves the state as it was.
#[derive(Clone, Copy, Debug, PartialEq, Eq, Structural)]
pub enum ContractError {
    /// A slot or a token was read that holds nothing.
    NotFound {},
    /// A token was inserted under an identifier that is taken.
    AlreadyExists {},
    /// The supply cap is reached.
    MaxMintsReached {},
    /// The attached funds are not exactly the mint price.
    IncorrectPayment {},
}

impl ContractError {
    /// The text of each error.
    pub open spec fn message_text(self) -> Seq<char> {
        match self {
            ContractError::NotFound {} => "Not found"@,
            ContractError::AlreadyExists {} => "Already exists"@,
            ContractError::MaxMintsReached {} => "Max mints reached"@,
            ContractError::IncorrectPayment {} => "Incorrect payment amount"@,
        }
    }

    /// The human-readable message of the error.
    pub fn message(&self) -> (text: String)
        ensures
            text@ == self.message_text(),
    {
        match self {
            ContractError::NotFound {} => "Not found".to_owned(),
            ContractError::AlreadyExists {} => "Already exists".to_owned(),
            ContractError::MaxMintsReached {} => "Max mints reached".to_owned(),
            ContractError::IncorrectPayment {} => "Incorrect payment amount".to_owned(),
        }
    }
}

} // verus!
