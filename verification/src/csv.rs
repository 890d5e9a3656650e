//! Transactions as records hold them: a kind spelled out in a field of
//! text beside the numbers, and how such a record becomes a transaction.
//! And balances as records hold them, for the report at the end.

use vstd::prelude::*;

use crate::ledger::balance::BalanceSnapshot;
use crate::ledger::{Amount, Client, Transaction, Tx};

verus! {

broadcast use vstd::string::group_string_axioms;

/// Why a record is no transaction.
#[derive(Debug)]
pub enum Error {
    /// A deposit or withdrawal without an amount; the text says which.
    MissingAmount(String),
    /// A kind that is none of the five; the text repeats it.
    UnknownTransactionType(String),
}

/// An error with its text as a mathematical value.
pub enum ErrorView {
    MissingAmount(Seq<char>),
    UnknownTransactionType(Seq<char>),
}

impl View for Error {
    type V = ErrorView;

    open spec fn view(&self) -> ErrorView {
        match self {
            Error::MissingAmount(text) => ErrorView::MissingAmount(text@),
            Error::UnknownTransactionType(text) => ErrorView::UnknownTransactionType(text@),
        }
    }
}

/// A transaction as a record holds it.
#[derive(Debug, Clone)]
pub struct CsvTransaction {
    /// The kind, in any mix of upper and lower case.
    pub t: String,
    pub client: Client,
    pub tx: Tx,
    /// Present on deposits and withdrawals; ignored on the others.
    pub amount: Option<Amount>,
}

/// The lowercase equivalent of `text`, as `std` computes it for the whole
/// of Unicode.
pub uninterp spec fn lowercase_of(text: Seq<char>) -> Seq<char>;

/// Calls `str::to_lowercase`. Taken on trust: that the result depends on
/// the text alone. It goes by the name `lowercase_of`, and nothing more is
/// said of it.
#[verifier::external_body]
fn to_lowercase(text: &str) -> (r: String)
    ensures
        r@ == lowercase_of(text@),
{
    text.to_lowercase()
}

/// Calls `str::eq`. Taken on trust: that two slices are equal exactly if
/// they hold the same text.
#[verifier::external_body]
fn same_text(a: &str, b: &str) -> (r: bool)
    ensures
        r == (a@ == b@),
{
    a.eq(b)
}

/// What a record of the kind `kind`, given in lower case, stands for:
/// one of the five transactions, with the record's numbers; an error for a
/// deposit or withdrawal without an amount; and for any other kind an
/// error that repeats the kind as the record wrote it, `written`.
pub open spec fn transaction_of(
    kind: Seq<char>,
    written: Seq<char>,
    client: Client,
    tx: Tx,
    amount: Option<Amount>,
) -> Result<Transaction, ErrorView> {
    if kind == "deposit"@ {
        match amount {
            Some(amount) => Ok(Transaction::Deposit { client, tx, amount }),
            None => Err(ErrorView::MissingAmount("amount absent from deposit"@)),
        }
    } else if kind == "withdrawal"@ {
        match amount {
            Some(amount) => Ok(Transaction::Withdrawal { client, tx, amount }),
            None => Err(ErrorView::MissingAmount("amount absent from withdrawal"@)),
        }
    } else if kind == "dispute"@ {
        Ok(Transaction::Dispute { client, tx })
    } else if kind == "resolve"@ {
        Ok(Transaction::Resolve { client, tx })
    } else if kind == "chargeback"@ {
        Ok(Transaction::ChargeBack { client, tx })
    } else {
        Err(ErrorView::UnknownTransactionType("Unknown type: "@ + written))
    }
}

/// `r` is `expected`, errors taken by their view.
pub open spec fn is_outcome(
    r: Result<Transaction, Error>,
    expected: Result<Transaction, ErrorView>,
) -> bool {
    match r {
        Ok(t) => expected == Ok::<Transaction, ErrorView>(t),
        Err(e) => expected == Err::<Transaction, ErrorView>(e@),
    }
}

/// The transaction that a record of the kind `kind` stands for, where
/// `kind` is in lower case already and `written` is the kind as the record
/// wrote it.
pub fn transaction_from_kind(
    kind: &str,
    written: &str,
    client: Client,
    tx: Tx,
    amount: Option<Amount>,
) -> (r: Result<Transaction, Error>)
    ensures
        is_outcome(r, transaction_of(kind@, written@, client, tx, amount)),
{
    if same_text(kind, "deposit") {
        match amount {
            Some(amount) => Ok(Transaction::Deposit { client, tx, amount }),
            None => Err(Error::MissingAmount("amount absent from deposit".to_string())),
        }
    } else if same_text(kind, "withdrawal") {
        match amount {
            Some(amount) => Ok(Transaction::Withdrawal { client, tx, amount }),
            None => Err(Error::MissingAmount("amount absent from withdrawal".to_string())),
        }
    } else if same_text(kind, "dispute") {
        Ok(Transaction::Dispute { client, tx })
    } else if same_text(kind, "resolve") {
        Ok(Transaction::Resolve { client, tx })
    } else if same_text(kind, "chargeback") {
        Ok(Transaction::ChargeBack { client, tx })
    } else {
        Err(Error::UnknownTransactionType("Unknown type: ".to_string().concat(written)))
    }
}

impl TryFrom<CsvTransaction> for Transaction {
    type Error = Error;

    /// The transaction that the record stands for. The kind counts in any
    /// mix of upper and lower case.
    fn try_from(value: CsvTransaction) -> (r: Result<Transaction, Error>)
        ensures
            is_outcome(
                r,
                transaction_of(
                    lowercase_of(value.t@),
                    value.t@,
                    value.client,
                    value.tx,
                    value.amount,
                ),
            ),
    {
        let kind = to_lowercase(value.t.as_str());
        transaction_from_kind(
            kind.as_str(),
            value.t.as_str(),
            value.client,
            value.tx,
            value.amount,
        )
    }
}

impl vstd::std_specs::convert::TryFromSpecImpl<CsvTransaction> for Transaction {
    /// An error holds a string, which is no function of the record: only
    /// its text is. What `try_from` returns is stated there.
    open spec fn obeys_try_from_spec() -> bool {
        false
    }

    open spec fn try_from_spec(value: CsvTransaction) -> Result<Transaction, Error> {
        arbitrary()
    }
}

/// The balance of a client as a record of the final report holds it, the
/// fields in the order of the report's columns.
#[derive(Debug, Clone, Copy, PartialEq, Eq, Structural)]
pub struct CsvBalance {
    pub client: Client,
    pub available: i128,
    pub held: i128,
    pub total: i128,
    pub locked: bool,
}

impl From<&BalanceSnapshot> for CsvBalance {
    /// The record that reports `value`.
    fn from(value: &BalanceSnapshot) -> (r: CsvBalance) {
        Self {
            client: value.client,
            available: value.available,
            held: value.held,
            total: value.total,
            locked: value.locked,
        }
    }
}

impl vstd::std_specs::convert::FromSpecImpl<&BalanceSnapshot> for CsvBalance {
    open spec fn obeys_from_spec() -> bool {
        true
    }

    open spec fn from_spec(value: &BalanceSnapshot) -> CsvBalance {
        CsvBalance {
            client: value.client,
            available: value.available,
            held: value.held,
            total: value.total,
            locked: value.locked,
        }
    }
}

} // verus!
