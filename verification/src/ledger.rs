//! The ledger: every accepted deposit and withdrawal with its dispute
//! status, and one balance per client.

use std::collections::HashMap;
use vstd::prelude::*;
use vstd::std_specs::iter::IteratorSpec;

use crate::ledger::balance::Balance;
use crate::ledger::model::{
    balance_agrees, inv, key_code, lemma_inv_within_limits, lemma_position, lemma_record_count,
    lemma_settled_bounds, lemma_settled_without_records, lemma_step_keeps_inv, of_client,
    record_limit, recorded, recorded_at, step, LedgerState,
};

pub mod balance;
pub mod laws;
pub mod model;

verus! {

broadcast use vstd::std_specs::hash::group_hash_axioms;

/// Identifies a client account.
pub type Client = u16;

/// Identifies a deposit or withdrawal.
pub type Tx = u32;

/// A quantity of money, counted in the smallest unit of the currency.
pub type Amount = u64;

/// Why the ledger refused a transaction.
#[derive(Debug, Clone, Copy, PartialEq, Eq, Structural)]
pub enum Error {
    /// A deposit or withdrawal reuses the id of a recorded one.
    DuplicateTransaction(Tx),
    /// A dispute, resolve or chargeback names a transaction that is not
    /// recorded.
    MissingTransaction(Tx),
    /// Anything but a deposit, for a client without an account.
    NoInitialDeposit(Client),
    /// The transaction is not in the status that the operation needs.
    UnexpectedTxStatus(TxStatus),
    /// The client's account is locked.
    FrozenAccountError(Client),
    /// The client's balance refused.
    BalanceError(balance::Error),
}

impl From<balance::Error> for Error {
    /// The refusal of a balance as the ledger passes it on.
    fn from(e: balance::Error) -> (r: Error) {
        Error::BalanceError(e)
    }
}

impl vstd::std_specs::convert::FromSpecImpl<balance::Error> for Error {
    open spec fn obeys_from_spec() -> bool {
        true
    }

    open spec fn from_spec(e: balance::Error) -> Error {
        Error::BalanceError(e)
    }
}

/// Each of the operations that the ledger processes.
#[derive(Debug, Clone, Copy, PartialEq, Eq, Structural)]
pub enum Transaction {
    Deposit { client: Client, tx: Tx, amount: Amount },
    Withdrawal { client: Client, tx: Tx, amount: Amount },
    Dispute { client: Client, tx: Tx },
    Resolve { client: Client, tx: Tx },
    ChargeBack { client: Client, tx: Tx },
}

impl Transaction {
    /// The client that the transaction is for.
    pub open spec fn spec_client(self) -> Client {
        match self {
            Transaction::Deposit { client, .. } => client,
            Transaction::Withdrawal { client, .. } => client,
            Transaction::Dispute { client, .. } => client,
            Transaction::Resolve { client, .. } => client,
            Transaction::ChargeBack { client, .. } => client,
        }
    }

    /// The id of the transaction itself, for a deposit or withdrawal; of
    /// the transaction it refers to, for the others.
    pub open spec fn spec_tx(self) -> Tx {
        match self {
            Transaction::Deposit { tx, .. } => tx,
            Transaction::Withdrawal { tx, .. } => tx,
            Transaction::Dispute { tx, .. } => tx,
            Transaction::Resolve { tx, .. } => tx,
            Transaction::ChargeBack { tx, .. } => tx,
        }
    }

    /// Deposits and withdrawals are recorded; the others act on a record.
    pub open spec fn is_record(self) -> bool {
        self is Deposit || self is Withdrawal
    }

    /// What the transaction did to the total when it was accepted: a
    /// deposit's amount, a withdrawal's amount negated.
    pub open spec fn signed_amount(self) -> int {
        match self {
            Transaction::Deposit { amount, .. } => amount as int,
            Transaction::Withdrawal { amount, .. } => -(amount as int),
            _ => 0,
        }
    }

    /// Get a reference to the client id for this transaction.
    pub fn client(&self) -> (r: &Client)
        ensures
            *r == self.spec_client(),
    {
        match self {
            Transaction::Deposit { client, .. } => client,
            Transaction::Withdrawal { client, .. } => client,
            Transaction::Dispute { client, .. } => client,
            Transaction::Resolve { client, .. } => client,
            Transaction::ChargeBack { client, .. } => client,
        }
    }

    /// Get a reference to the transaction id for this transaction.
    pub fn tx(&self) -> (r: &Tx)
        ensures
            *r == self.spec_tx(),
    {
        match self {
            Transaction::Deposit { tx, .. } => tx,
            Transaction::Withdrawal { tx, .. } => tx,
            Transaction::Dispute { tx, .. } => tx,
            Transaction::Resolve { tx, .. } => tx,
            Transaction::ChargeBack { tx, .. } => tx,
        }
    }

    /// Check if this transaction is a deposit.
    pub fn is_deposit(&self) -> (r: bool)
        ensures
            r == (*self is Deposit),
    {
        matches!(self, Transaction::Deposit { .. })
    }

    /// The pair that identifies a record.
    pub fn key(&self) -> (r: (Client, Tx))
        ensures
            r == (self.spec_client(), self.spec_tx()),
    {
        match self {
            Transaction::Deposit { client, tx, .. } => (*client, *tx),
            Transaction::Withdrawal { client, tx, .. } => (*client, *tx),
            Transaction::Dispute { client, tx } => (*client, *tx),
            Transaction::Resolve { client, tx } => (*client, *tx),
            Transaction::ChargeBack { client, tx } => (*client, *tx),
        }
    }
}

/// Where a recorded transaction stands in the dispute life cycle. It goes
/// from active to disputed, and from there to resolved or to charged back.
#[derive(Debug, Clone, Copy, PartialEq, Eq, Structural)]
pub enum TxStatus {
    /// Every accepted transaction is recorded as active.
    Active,
    /// The transaction is in dispute.
    Disputed,
    /// The dispute was resolved and the funds were released.
    Resolved,
    /// The transaction was charged back.
    ChargedBack,
}

impl Default for TxStatus {
    /// The status in which a transaction is recorded.
    fn default() -> (r: TxStatus)
        ensures
            r == TxStatus::Active,
    {
        TxStatus::Active
    }
}

impl TxStatus {
    /// The status spelled out.
    pub open spec fn spec_name(self) -> Seq<char> {
        match self {
            TxStatus::Active => "Active"@,
            TxStatus::Disputed => "Disputed"@,
            TxStatus::Resolved => "Resolved"@,
            TxStatus::ChargedBack => "ChargedBack"@,
        }
    }

    /// The status spelled out.
    pub fn name(&self) -> (r: &'static str)
        ensures
            r@ == self.spec_name(),
    {
        match self {
            TxStatus::Active => "Active",
            TxStatus::Disputed => "Disputed",
            TxStatus::Resolved => "Resolved",
            TxStatus::ChargedBack => "ChargedBack",
        }
    }
}

/// A recorded deposit or withdrawal with its status. The transaction never
/// changes; the status only moves forward.
#[derive(Debug, Clone, Copy, PartialEq, Eq, Structural)]
pub struct Entry {
    /// The transaction for this entry.
    pub t: Transaction,
    /// The status of this transaction.
    pub status: TxStatus,
}

impl Entry {
    /// The same entry in another status.
    pub open spec fn with_status(self, status: TxStatus) -> Entry {
        Entry { t: self.t, status }
    }

    /// What the move from the status `from` to the status `to` leaves and
    /// answers: an entry in another status than `from` refuses it, and
    /// says in which it is.
    pub open spec fn try_move(self, from: TxStatus, to: TxStatus) -> (Entry, Result<(), Error>) {
        if self.status == from {
            (self.with_status(to), Ok(()))
        } else {
            (self, Err(Error::UnexpectedTxStatus(self.status)))
        }
    }

    /// The record of `t`, active.
    pub fn new(t: Transaction) -> (e: Entry)
        ensures
            e == (Entry { t, status: TxStatus::Active }),
    {
        Entry { t, status: TxStatus::Active }
    }

    /// Active to disputed.
    pub fn dispute(&mut self) -> (r: Result<(), Error>)
        ensures
            *final(self) == old(self).try_move(TxStatus::Active, TxStatus::Disputed).0,
            r == old(self).try_move(TxStatus::Active, TxStatus::Disputed).1,
    {
        if self.status != TxStatus::Active {
            return Err(Error::UnexpectedTxStatus(self.status));
        }
        self.status = TxStatus::Disputed;
        Ok(())
    }

    /// Disputed to resolved.
    pub fn resolve(&mut self) -> (r: Result<(), Error>)
        ensures
            *final(self) == old(self).try_move(TxStatus::Disputed, TxStatus::Resolved).0,
            r == old(self).try_move(TxStatus::Disputed, TxStatus::Resolved).1,
    {
        if self.status != TxStatus::Disputed {
            return Err(Error::UnexpectedTxStatus(self.status));
        }
        self.status = TxStatus::Resolved;
        Ok(())
    }

    /// Disputed to charged back.
    pub fn charge_back(&mut self) -> (r: Result<(), Error>)
        ensures
            *final(self) == old(self).try_move(TxStatus::Disputed, TxStatus::ChargedBack).0,
            r == old(self).try_move(TxStatus::Disputed, TxStatus::ChargedBack).1,
    {
        if self.status != TxStatus::Disputed {
            return Err(Error::UnexpectedTxStatus(self.status));
        }
        self.status = TxStatus::ChargedBack;
        Ok(())
    }
}

/// The key under which the record of `tx` for `client` is indexed.
fn index_key(client: Client, tx: Tx) -> (k: u64)
    ensures
        k == key_code(client, tx),
{
    client as u64 * 0x1_0000_0000 + tx as u64
}

/// The index leads from the key of every record to its place, and holds
/// nothing else.
spec fn index_agrees(index: Map<u64, usize>, entries: Seq<Entry>) -> bool {
    &&& forall|k: u64| #[trigger]
        index.contains_key(k) ==> 0 <= index[k] < entries.len() && key_code(
            entries[index[k] as int].t.spec_client(),
            entries[index[k] as int].t.spec_tx(),
        ) == k
    &&& forall|i: int|
        0 <= i < entries.len() ==> {
            let k = key_code((#[trigger] entries[i]).t.spec_client(), entries[i].t.spec_tx());
            index.contains_key(k as u64) && index[k as u64] == i
        }
}

/// The balances as mathematical values.
spec fn balance_views(balances: Map<Client, Balance>) -> Map<Client, balance::BalanceView> {
    Map::new(|client: Client| balances.contains_key(client), |client: Client| balances[client]@)
}

/// All the transactions that were accepted, and what they left of each
/// client's funds.
pub struct Ledger {
    /// Where the record of each client and transaction id stands, the two
    /// folded into one number for a key.
    client_tx_to_idx: HashMap<u64, usize>,
    /// The balance of each client.
    balance: HashMap<Client, Balance>,
    /// Every record, in the order of acceptance.
    transactions: Vec<Entry>,
}

impl View for Ledger {
    type V = LedgerState;

    closed spec fn view(&self) -> LedgerState {
        LedgerState { entries: self.transactions@, balances: balance_views(self.balance@) }
    }
}

impl Ledger {
    /// What every ledger satisfies: the invariant of the state machine,
    /// and an index that leads to every record.
    pub closed spec fn wf(&self) -> bool {
        &&& inv(self@)
        &&& index_agrees(self.client_tx_to_idx@, self.transactions@)
    }

    /// A ledger in order is in a state that satisfies the invariant.
    pub proof fn lemma_wf_inv(&self)
        requires
            self.wf(),
        ensures
            inv(self@),
    {
    }

    /// A ledger with nothing recorded and no accounts.
    pub fn new() -> (l: Ledger)
        ensures
            l.wf(),
            l@ == LedgerState::empty(),
    {
        let l = Ledger {
            client_tx_to_idx: HashMap::new(),
            balance: HashMap::new(),
            transactions: Vec::new(),
        };
        assert(l@.balances =~= Map::<Client, balance::BalanceView>::empty());
        l
    }

    /// The place of the record of `tx` for `client`, if there is one.
    fn find(&self, client: Client, tx: Tx) -> (r: Option<usize>)
        requires
            index_agrees(self.client_tx_to_idx@, self.transactions@),
        ensures
            match r {
                Some(i) => recorded_at(self.transactions@, i as int, client, tx),
                None => !recorded(self.transactions@, client, tx),
            },
    {
        let key = index_key(client, tx);
        match self.client_tx_to_idx.get(&key) {
            Some(i) => Some(*i),
            None => {
                assert forall|i: int| !recorded_at(self.transactions@, i, client, tx) by {
                    // A record of the pair would be indexed under the key.
                    if recorded_at(self.transactions@, i, client, tx) {
                        assert(self.client_tx_to_idx@.contains_key(key));
                    }
                }
                None
            },
        }
    }

    /// Every total is far inside the range of the integer that holds it,
    /// and so is what is held: there are only so many records, and none is
    /// of more than the largest amount.
    proof fn lemma_funds_in_range(&self, client: Client)
        requires
            self.wf(),
        ensures
            -(record_limit() * balance::hold_limit()) <= self@.account(client).total
                <= record_limit() * balance::hold_limit(),
            0 <= self@.account(client).held() <= balance::held_limit(),
            self@.account(client).within_limits(),
    {
        let entries = self@.entries;
        lemma_record_count(entries);
        lemma_settled_bounds(entries, client);
        assert(entries.len() * balance::hold_limit() <= record_limit() * balance::hold_limit())
            by (nonlinear_arith)
            requires
                entries.len() <= record_limit(),
                balance::hold_limit() >= 0,
        ;
        if !self@.balances.contains_key(client) {
            assert forall|i: int| !of_client(entries, i, client) by {}
            lemma_settled_without_records(entries, client);
        }
        lemma_inv_within_limits(self@, client);
        balance::lemma_held_bounds(self@.account(client));
    }

    /// Record `t` as the newest entry and index it.
    fn record(&mut self, t: Transaction)
        requires
            index_agrees(old(self).client_tx_to_idx@, old(self).transactions@),
            !recorded(old(self).transactions@, t.spec_client(), t.spec_tx()),
        ensures
            index_agrees(final(self).client_tx_to_idx@, final(self).transactions@),
            final(self).transactions@ == old(self).transactions@.push(
                Entry { t, status: TxStatus::Active },
            ),
            final(self).balance == old(self).balance,
    {
        let key = index_key(*t.client(), *t.tx());
        let index = self.transactions.len();
        self.client_tx_to_idx.insert(key, index);
        self.transactions.push(Entry::new(t));
        proof {
            let entries = old(self).transactions@;
            assert forall|k: u64| #[trigger]
                self.client_tx_to_idx@.contains_key(k) implies 0 <= self.client_tx_to_idx@[k]
                < self.transactions@.len() && key_code(
                self.transactions@[self.client_tx_to_idx@[k] as int].t.spec_client(),
                self.transactions@[self.client_tx_to_idx@[k] as int].t.spec_tx(),
            ) == k by {
                if k != key {
                    assert(old(self).client_tx_to_idx@.contains_key(k));
                }
            }
            assert forall|i: int| 0 <= i < self.transactions@.len() implies {
                let k = key_code(
                    (#[trigger] self.transactions@[i]).t.spec_client(),
                    self.transactions@[i].t.spec_tx(),
                );
                self.client_tx_to_idx@.contains_key(k as u64) && self.client_tx_to_idx@[k as u64]
                    == i
            } by {
                // An older record keeps its place: its key is not the new one.
                if i < entries.len() && key_code(
                    entries[i].t.spec_client(),
                    entries[i].t.spec_tx(),
                ) == key {
                    assert(recorded_at(entries, i, t.spec_client(), t.spec_tx()));
                }
            }
        }
    }

    /// Process one transaction: accept it and apply all that it does, or
    /// refuse it and change nothing. A deposit or withdrawal under a
    /// recorded client and id is a duplicate; anything but a deposit needs
    /// an account, which the first deposit opens; a locked account refuses
    /// everything. Then a deposit or withdrawal goes to the balance and is
    /// recorded as active, and a dispute, resolve or chargeback moves the
    /// record that it names on and places, releases or applies its hold.
    pub fn process_transaction(&mut self, t: Transaction) -> (r: Result<(), Error>)
        requires
            old(self).wf(),
        ensures
            final(self).wf(),
            final(self)@ == step(old(self)@, t).0,
            r == step(old(self)@, t).1,
    {
        let (client, tx) = t.key();
        let ghost before = self@;
        proof {
            self.lemma_funds_in_range(client);
            lemma_step_keeps_inv(before, t);
        }

        // --- Check for reasons not to process ---
        let found = self.find(client, tx);
        proof {
            if let Some(i) = found {
                lemma_position(before.entries, i as int, client, tx);
            }
        }
        if matches!(t, Transaction::Deposit { .. } | Transaction::Withdrawal { .. })
            && found.is_some() {
            return Err(Error::DuplicateTransaction(tx));
        }
        if !t.is_deposit() && !self.balance.contains_key(&client) {
            return Err(Error::NoInitialDeposit(client));
        }
        // The first deposit opens the account.

        let mut b = match self.balance.remove(&client) {
            Some(b) => b,
            None => Balance::new(client),
        };
        assert(before.balances.contains_key(client) ==> balance_agrees(
            before.entries,
            client,
            before.balances[client],
        ));

        // --- Attempt to process ---
        let r = if b.locked() {
            Err(Error::FrozenAccountError(client))
        } else {
            match t {
                Transaction::Deposit { amount, .. } => match b.deposit(amount) {
                    Ok(()) => {
                        self.record(t);
                        Ok(())
                    },
                    Err(e) => Err(Error::BalanceError(e)),
                },
                Transaction::Withdrawal { amount, .. } => match b.withdraw(amount) {
                    Ok(()) => {
                        self.record(t);
                        Ok(())
                    },
                    Err(e) => Err(Error::BalanceError(e)),
                },
                Transaction::Dispute { .. } => match found {
                    Some(idx) => {
                        let mut entry = self.transactions[idx];
                        proof {
                            if b@.holds.contains_key(tx) {
                                // A hold would be that of this record, which
                                // would then be in dispute.
                                let j = choose|j: int| #[trigger]
                                    recorded_at(before.entries, j, client, tx)
                                        && before.entries[j].status is Disputed;
                                assert(j == idx);
                            }
                        }
                        match entry.dispute() {
                            Ok(()) => match b.hold(tx, hold_amount(&entry.t)) {
                                Ok(()) => {
                                    self.transactions[idx] = entry;
                                    Ok(())
                                },
                                Err(e) => Err(Error::BalanceError(e)),
                            },
                            Err(e) => Err(e),
                        }
                    },
                    None => Err(Error::MissingTransaction(tx)),
                },
                Transaction::Resolve { .. } => match found {
                    Some(idx) => {
                        let mut entry = self.transactions[idx];
                        proof {
                            assert(of_client(before.entries, idx as int, client));
                        }
                        match entry.resolve() {
                            Ok(()) => match b.remove_hold(tx) {
                                Ok(()) => {
                                    self.transactions[idx] = entry;
                                    Ok(())
                                },
                                Err(e) => Err(Error::BalanceError(e)),
                            },
                            Err(e) => Err(e),
                        }
                    },
                    None => Err(Error::MissingTransaction(tx)),
                },
                Transaction::ChargeBack { .. } => match found {
                    Some(idx) => {
                        let mut entry = self.transactions[idx];
                        proof {
                            assert(of_client(before.entries, idx as int, client));
                        }
                        match entry.charge_back() {
                            Ok(()) => match b.apply_hold(tx) {
                                Ok(()) => {
                                    b.lock_balance();
                                    self.transactions[idx] = entry;
                                    Ok(())
                                },
                                Err(e) => Err(Error::BalanceError(e)),
                            },
                            Err(e) => Err(e),
                        }
                    },
                    None => Err(Error::MissingTransaction(tx)),
                },
            }
        };
        self.balance.insert(client, b);
        proof {
            assert(self@.balances =~= step(before, t).0.balances);
        }
        r
    }

    /// The available funds of `client`; nothing for a client without an
    /// account.
    pub fn get_available_balance(&self, client: Client) -> (r: Option<i128>)
        requires
            self.wf(),
        ensures
            match r {
                Some(available) => self@.balances.contains_key(client) && available
                    == self@.balances[client].available(),
                None => !self@.balances.contains_key(client),
            },
    {
        match self.balance.get(&client) {
            Some(b) => {
                proof {
                    self.lemma_funds_in_range(client);
                }
                Some(b.available())
            },
            None => None,
        }
    }

    /// A snapshot of every account, one for each client, in no particular
    /// order.
    pub fn get_client_snapshots(&self) -> (r: Vec<balance::BalanceSnapshot>)
        requires
            self.wf(),
        ensures
            r@.len() == self@.balances.dom().len(),
            forall|i: int|
                0 <= i < r@.len() ==> self@.balances.contains_key((#[trigger] r@[i]).client)
                    && r@[i] == self@.balances[r@[i].client].snapshot(),
            forall|i: int|
                0 <= i < r@.len() ==> (#[trigger] r@[i]).available + r@[i].held == r@[i].total,
            forall|i: int, j: int|
                0 <= i < j < r@.len() ==> (#[trigger] r@[i]).client != (#[trigger] r@[j]).client,
            forall|client: Client| #[trigger]
                self@.balances.contains_key(client) ==> exists|i: int|
                    0 <= i < r@.len() && (#[trigger] r@[i]).client == client,
    {
        let ghost clients = self.balance.keys().remaining().unref();
        let mut snapshots: Vec<balance::BalanceSnapshot> = Vec::new();
        for client in keys: self.balance.keys()
            invariant
                self.wf(),
                keys.seq().unref() == clients,
                clients.no_duplicates(),
                clients.to_set() == self.balance@.dom(),
                snapshots@.len() == keys.index(),
                forall|i: int|
                    0 <= i < snapshots@.len() ==> (#[trigger] snapshots@[i]).client == clients[i]
                        && snapshots@[i] == self@.balances[clients[i]].snapshot()
                        && snapshots@[i].available + snapshots@[i].held == snapshots@[i].total,
        {
            proof {
                self.lemma_funds_in_range(*client);
            }
            match self.balance.get(client) {
                Some(b) => {
                    snapshots.push(b.snapshot());
                },
                None => {},
            }
        }
        proof {
            assert(self@.balances.dom() =~= self.balance@.dom());
            clients.unique_seq_to_set();
            assert forall|client: Client| #[trigger]
                self@.balances.contains_key(client) implies exists|i: int|
                0 <= i < snapshots@.len() && (#[trigger] snapshots@[i]).client == client by {
                let i = choose|i: int| 0 <= i < clients.len() && clients[i] == client;
                assert(snapshots@[i].client == client);
            }
        }
        snapshots
    }
}

/// The hold that a dispute places on a record: a deposit's amount, a
/// withdrawal's amount negated.
fn hold_amount(t: &Transaction) -> (r: i128)
    ensures
        r == t.signed_amount(),
{
    match t {
        Transaction::Deposit { amount, .. } => *amount as i128,
        Transaction::Withdrawal { amount, .. } => -(*amount as i128),
        _ => 0,
    }
}

} // verus!
