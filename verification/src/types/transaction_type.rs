use vstd::prelude::*;

verus! {

/// The two debt actions. Both settle in the same way and differ only in how
/// a reply words them.
#[derive(Debug, Clone, Copy, PartialEq, Eq, Structural)]
pub enum TransactionType {
    Loan,
    Payment,
}

impl TransactionType {
    /// The name of the action, as the store keeps it.
    pub open spec fn name(self) -> Seq<char> {
        match self {
            TransactionType::Loan => "Loan"@,
            TransactionType::Payment => "Payment"@,
        }
    }

    /// The action that `text` names.
    pub open spec fn named(text: Seq<char>) -> Option<TransactionType> {
        if text == "Loan"@ {
            Some(TransactionType::Loan)
        } else if text == "Payment"@ {
            Some(TransactionType::Payment)
        } else {
            None
        }
    }

    /// The name of the action.
    pub fn to_string(&self) -> (text: String)
        ensures
            text@ == self.name(),
    {
        match self {
            TransactionType::Loan => "Loan".to_string(),
            TransactionType::Payment => "Payment".to_string(),
        }
    }

    /// The action that `text` names, if it names one: a name counts only as
    /// it is written here, capital letter and all.
    pub fn parse(text: &str) -> (parsed: Option<TransactionType>)
        ensures
            parsed == TransactionType::named(text@),
    {
        let text = text.to_string();
        if text == "Loan".to_string() {
            Some(TransactionType::Loan)
        } else if text == "Payment".to_string() {
            Some(TransactionType::Payment)
        } else {
            None
        }
    }
}

/// Naming an action and reading the name gives the action back.
pub proof fn lemma_name_is_read_back(kind: TransactionType)
    ensures
        TransactionType::named(kind.name()) == Some(kind),
{
    reveal_strlit("Loan");
    reveal_strlit("Payment");
    assert("Loan"@.len() != "Payment"@.len());
}

} // verus!
