//! The ledger as a mathematical state machine: what a state is, what each
//! transaction does to it, and what holds of every state that transactions
//! can lead to.

use vstd::prelude::*;

use crate::ledger::balance;
use crate::ledger::balance::BalanceView;
use crate::ledger::{Client, Entry, Error, Transaction, Tx, TxStatus};

verus! {

/// The records in the order of their acceptance, and the balance of every
/// client that has an account.
#[verifier::ext_equal]
pub struct LedgerState {
    pub entries: Seq<Entry>,
    pub balances: Map<Client, BalanceView>,
}

impl LedgerState {
    /// Nothing recorded, no accounts.
    pub open spec fn empty() -> LedgerState {
        LedgerState { entries: Seq::empty(), balances: Map::empty() }
    }

    /// The client's balance; that of a fresh account where the client has
    /// none yet.
    pub open spec fn account(self, client: Client) -> BalanceView {
        if self.balances.contains_key(client) {
            self.balances[client]
        } else {
            BalanceView::new(client)
        }
    }

    /// The state after a deposit or withdrawal `t` was accepted and left
    /// the client's balance as `b`.
    pub open spec fn accept(self, t: Transaction, b: BalanceView) -> LedgerState {
        LedgerState {
            entries: self.entries.push(Entry { t, status: TxStatus::Active }),
            balances: self.balances.insert(t.spec_client(), b),
        }
    }

    /// The state after the record at `i` moved on to `status` and the
    /// balance of its client became `b`.
    pub open spec fn advance(self, i: int, status: TxStatus, b: BalanceView) -> LedgerState {
        LedgerState {
            entries: self.entries.update(i, self.entries[i].with_status(status)),
            balances: self.balances.insert(self.entries[i].t.spec_client(), b),
        }
    }
}

/// The record at `i` is that of `tx` for `client`.
pub open spec fn recorded_at(entries: Seq<Entry>, i: int, client: Client, tx: Tx) -> bool {
    &&& 0 <= i < entries.len()
    &&& entries[i].t.spec_client() == client
    &&& entries[i].t.spec_tx() == tx
}

/// There is a record of `tx` for `client`.
pub open spec fn recorded(entries: Seq<Entry>, client: Client, tx: Tx) -> bool {
    exists|i: int| recorded_at(entries, i, client, tx)
}

/// Where the record of `tx` for `client` stands, if there is one.
pub open spec fn position(entries: Seq<Entry>, client: Client, tx: Tx) -> int {
    choose|i: int| recorded_at(entries, i, client, tx)
}

/// The record at `i` is one of `client`.
pub open spec fn of_client(entries: Seq<Entry>, i: int, client: Client) -> bool {
    0 <= i < entries.len() && entries[i].t.spec_client() == client
}

/// What a record contributes to its client's total: what the transaction
/// did to it when it was accepted, or nothing once it was charged back.
pub open spec fn effect(e: Entry) -> int {
    if e.status is ChargedBack {
        0
    } else {
        e.t.signed_amount()
    }
}

/// The sum of the accepted deposits of `client`, less its accepted
/// withdrawals, with what was charged back left out.
pub open spec fn settled(entries: Seq<Entry>, client: Client) -> int
    decreases entries.len(),
{
    if entries.len() == 0 {
        0
    } else {
        settled(entries.drop_last(), client) + if entries.last().t.spec_client() == client {
            effect(entries.last())
        } else {
            0
        }
    }
}

/// What processing `t` in state `s` leaves and answers. A refused
/// transaction leaves the state as it was.
pub open spec fn step(s: LedgerState, t: Transaction) -> (LedgerState, Result<(), Error>) {
    let client = t.spec_client();
    let tx = t.spec_tx();
    let b = s.account(client);
    let at = position(s.entries, client, tx);
    if t.is_record() && recorded(s.entries, client, tx) {
        (s, Err(Error::DuplicateTransaction(tx)))
    } else if !(t is Deposit) && !s.balances.contains_key(client) {
        (s, Err(Error::NoInitialDeposit(client)))
    } else if b.locked {
        (s, Err(Error::FrozenAccountError(client)))
    } else {
        match t {
            Transaction::Deposit { amount, .. } => (s.accept(t, b.deposit(amount as int)), Ok(())),
            Transaction::Withdrawal { amount, .. } => if amount > b.total {
                (s, Err(Error::BalanceError(balance::Error::InsufficientFunds)))
            } else {
                (s.accept(t, b.withdraw(amount as int)), Ok(()))
            },
            Transaction::Dispute { .. } => if !recorded(s.entries, client, tx) {
                (s, Err(Error::MissingTransaction(tx)))
            } else if !(s.entries[at].status is Active) {
                (s, Err(Error::UnexpectedTxStatus(s.entries[at].status)))
            } else {
                (
                    s.advance(
                        at,
                        TxStatus::Disputed,
                        b.hold(tx, s.entries[at].t.signed_amount()),
                    ),
                    Ok(()),
                )
            },
            Transaction::Resolve { .. } => if !recorded(s.entries, client, tx) {
                (s, Err(Error::MissingTransaction(tx)))
            } else if !(s.entries[at].status is Disputed) {
                (s, Err(Error::UnexpectedTxStatus(s.entries[at].status)))
            } else {
                (s.advance(at, TxStatus::Resolved, b.remove_hold(tx)), Ok(()))
            },
            Transaction::ChargeBack { .. } => if !recorded(s.entries, client, tx) {
                (s, Err(Error::MissingTransaction(tx)))
            } else if !(s.entries[at].status is Disputed) {
                (s, Err(Error::UnexpectedTxStatus(s.entries[at].status)))
            } else {
                (s.advance(at, TxStatus::ChargedBack, b.apply_hold(tx).lock()), Ok(()))
            },
        }
    }
}

/// The state that processing `txs` in order leads to, from the empty
/// ledger.
pub open spec fn run(txs: Seq<Transaction>) -> LedgerState
    decreases txs.len(),
{
    if txs.len() == 0 {
        LedgerState::empty()
    } else {
        step(run(txs.drop_last()), txs.last()).0
    }
}

/// The holds are those of the records of `client` that are in dispute:
/// each such record has its hold, of its signed amount, and there is no
/// other hold.
pub open spec fn holds_agree(entries: Seq<Entry>, client: Client, holds: Map<Tx, int>) -> bool {
    &&& holds.dom().finite()
    &&& forall|i: int| #[trigger]
        of_client(entries, i, client) && entries[i].status is Disputed ==> holds.contains_key(
            entries[i].t.spec_tx(),
        ) && holds[entries[i].t.spec_tx()] == entries[i].t.signed_amount()
    &&& forall|tx: Tx| #[trigger]
        holds.contains_key(tx) ==> exists|i: int| #[trigger]
            recorded_at(entries, i, client, tx) && entries[i].status is Disputed
}

/// The lock is set exactly if a record of `client` was charged back.
pub open spec fn lock_agrees(entries: Seq<Entry>, client: Client, locked: bool) -> bool {
    locked <==> exists|i: int| #[trigger]
        of_client(entries, i, client) && entries[i].status is ChargedBack
}

/// The balance `b` is what the records of `client` add up to.
pub open spec fn balance_agrees(entries: Seq<Entry>, client: Client, b: BalanceView) -> bool {
    &&& b.client == client
    &&& b.total == settled(entries, client)
    &&& holds_agree(entries, client, b.holds)
    &&& lock_agrees(entries, client, b.locked)
}

/// No client and id are recorded twice.
pub open spec fn recorded_once(entries: Seq<Entry>) -> bool {
    forall|i: int, j: int, client: Client, tx: Tx|
        #[trigger] recorded_at(entries, i, client, tx) && #[trigger] recorded_at(
            entries,
            j,
            client,
            tx,
        ) ==> i == j
}

/// A client has an account exactly if it has a record.
pub open spec fn accounts_agree(entries: Seq<Entry>, clients: Set<Client>) -> bool {
    forall|client: Client| #[trigger]
        clients.contains(client) <==> exists|i: int| #[trigger] of_client(entries, i, client)
}

/// What holds of the ledger after every transaction:
/// only deposits and withdrawals are recorded, and none twice for one
/// client and id; a client has an account exactly if it has a record; and
/// each balance is what the client's records add up to: the total is the
/// settled sum, the holds are those of the records in dispute, and the lock
/// is set exactly if a record was charged back.
pub open spec fn inv(s: LedgerState) -> bool {
    &&& forall|i: int| 0 <= i < s.entries.len() ==> (#[trigger] s.entries[i]).t.is_record()
    &&& recorded_once(s.entries)
    &&& s.balances.dom().finite()
    &&& accounts_agree(s.entries, s.balances.dom())
    &&& forall|client: Client| #[trigger]
        s.balances.contains_key(client) ==> balance_agrees(
            s.entries,
            client,
            s.balances[client],
        )
}

/// A record that is added contributes its effect to its client's settled
/// sum, and nothing to any other.
pub proof fn lemma_settled_push(entries: Seq<Entry>, e: Entry, client: Client)
    ensures
        settled(entries.push(e), client) == settled(entries, client) + if e.t.spec_client()
            == client {
            effect(e)
        } else {
            0
        },
{
    assert(entries.push(e).drop_last() =~= entries);
}

/// A record that changes takes its old effect out of its client's settled
/// sum and puts its new effect in.
pub proof fn lemma_settled_update(entries: Seq<Entry>, i: int, e: Entry, client: Client)
    requires
        0 <= i < entries.len(),
        e.t.spec_client() == entries[i].t.spec_client(),
    ensures
        settled(entries.update(i, e), client) == settled(entries, client) + if e.t.spec_client()
            == client {
            effect(e) - effect(entries[i])
        } else {
            0
        },
    decreases entries.len(),
{
    let after = entries.update(i, e);
    if i == entries.len() - 1 {
        assert(after.drop_last() =~= entries.drop_last());
    } else {
        lemma_settled_update(entries.drop_last(), i, e, client);
        assert(after.drop_last() =~= entries.drop_last().update(i, e));
    }
}

/// A client without records has settled nothing.
pub proof fn lemma_settled_without_records(entries: Seq<Entry>, client: Client)
    requires
        forall|i: int| !of_client(entries, i, client),
    ensures
        settled(entries, client) == 0,
    decreases entries.len(),
{
    if entries.len() > 0 {
        assert(!of_client(entries, entries.len() - 1, client));
        assert forall|i: int| !of_client(entries.drop_last(), i, client) by {
            assert(!of_client(entries, i, client));
        }
        lemma_settled_without_records(entries.drop_last(), client);
    }
}

/// No record moves the settled sum by more than the largest amount.
pub proof fn lemma_settled_bounds(entries: Seq<Entry>, client: Client)
    ensures
        -(entries.len() * balance::hold_limit()) <= settled(entries, client) <= entries.len()
            * balance::hold_limit(),
    decreases entries.len(),
{
    if entries.len() > 0 {
        lemma_settled_bounds(entries.drop_last(), client);
        assert((entries.len() - 1) * balance::hold_limit() + balance::hold_limit()
            == entries.len() * balance::hold_limit()) by (nonlinear_arith);
    }
}

/// Where nothing is recorded twice, a record is where `position` says.
pub proof fn lemma_position(entries: Seq<Entry>, i: int, client: Client, tx: Tx)
    requires
        recorded_once(entries),
        recorded_at(entries, i, client, tx),
    ensures
        recorded(entries, client, tx),
        position(entries, client, tx) == i,
{
    assert(recorded_at(entries, position(entries, client, tx), client, tx));
}

/// The balance of a fresh account is what no records add up to.
proof fn lemma_fresh_account_agrees(entries: Seq<Entry>, client: Client)
    requires
        forall|i: int| !of_client(entries, i, client),
    ensures
        balance_agrees(entries, client, BalanceView::new(client)),
{
    lemma_settled_without_records(entries, client);
}

/// A new record, which is active, moves the total of its client by its
/// signed amount and leaves all else of every balance as it was.
proof fn lemma_push_agrees(entries: Seq<Entry>, e: Entry, client: Client, b: BalanceView)
    requires
        e.status is Active,
        balance_agrees(entries, client, b),
    ensures
        balance_agrees(
            entries.push(e),
            client,
            if e.t.spec_client() == client {
                b.deposit(e.t.signed_amount())
            } else {
                b
            },
        ),
{
    let after = entries.push(e);
    lemma_settled_push(entries, e, client);
    assert forall|i: int| #[trigger]
        of_client(after, i, client) && after[i].status is Disputed implies of_client(
        entries,
        i,
        client,
    ) by {}
    assert forall|tx: Tx| #[trigger] b.holds.contains_key(tx) implies exists|i: int| #[trigger]
        recorded_at(after, i, client, tx) && after[i].status is Disputed by {
        let i = choose|i: int| #[trigger]
            recorded_at(entries, i, client, tx) && entries[i].status is Disputed;
        assert(recorded_at(after, i, client, tx));
    }
    assert(lock_agrees(after, client, b.locked)) by {
        if b.locked {
            let i = choose|i: int| #[trigger]
                of_client(entries, i, client) && entries[i].status is ChargedBack;
            assert(of_client(after, i, client));
        }
        if exists|i: int| #[trigger] of_client(after, i, client) && after[i].status is ChargedBack {
            let i = choose|i: int| #[trigger]
                of_client(after, i, client) && after[i].status is ChargedBack;
            assert(of_client(entries, i, client));
        }
    }
}

/// A record that moves on leaves the balances of the other clients in
/// agreement with the records.
proof fn lemma_update_agrees_elsewhere(
    entries: Seq<Entry>,
    i: int,
    status: TxStatus,
    client: Client,
    b: BalanceView,
)
    requires
        0 <= i < entries.len(),
        entries[i].t.spec_client() != client,
        balance_agrees(entries, client, b),
    ensures
        balance_agrees(entries.update(i, entries[i].with_status(status)), client, b),
{
    let after = entries.update(i, entries[i].with_status(status));
    lemma_settled_update(entries, i, entries[i].with_status(status), client);
    assert forall|j: int| #[trigger]
        of_client(after, j, client) && after[j].status is Disputed implies of_client(
        entries,
        j,
        client,
    ) by {}
    assert forall|tx: Tx| #[trigger] b.holds.contains_key(tx) implies exists|j: int| #[trigger]
        recorded_at(after, j, client, tx) && after[j].status is Disputed by {
        let j = choose|j: int| #[trigger]
            recorded_at(entries, j, client, tx) && entries[j].status is Disputed;
        assert(recorded_at(after, j, client, tx));
    }
    assert(lock_agrees(after, client, b.locked)) by {
        if b.locked {
            let j = choose|j: int| #[trigger]
                of_client(entries, j, client) && entries[j].status is ChargedBack;
            assert(of_client(after, j, client));
        }
        if exists|j: int| #[trigger] of_client(after, j, client) && after[j].status is ChargedBack {
            let j = choose|j: int| #[trigger]
                of_client(after, j, client) && after[j].status is ChargedBack;
            assert(of_client(entries, j, client));
        }
    }
}

/// The three moves of the dispute life cycle, each with what it does to the
/// balance `b` of the record's client: a dispute places the hold, a resolve
/// releases it, a chargeback applies it and locks the account.
spec fn moves(e: Entry, status: TxStatus, b: BalanceView, after: BalanceView) -> bool {
    let tx = e.t.spec_tx();
    ||| e.status is Active && status is Disputed && after == b.hold(tx, e.t.signed_amount())
    ||| e.status is Disputed && status is Resolved && after == b.remove_hold(tx)
    ||| e.status is Disputed && status is ChargedBack && after == b.apply_hold(tx).lock()
}

/// A move of the dispute life cycle leaves the balance of the record's
/// client, which is not locked, in agreement with the records.
proof fn lemma_move_agrees(
    entries: Seq<Entry>,
    i: int,
    status: TxStatus,
    b: BalanceView,
    moved: BalanceView,
)
    requires
        recorded_once(entries),
        0 <= i < entries.len(),
        balance_agrees(entries, entries[i].t.spec_client(), b),
        !b.locked,
        moves(entries[i], status, b, moved),
    ensures
        balance_agrees(
            entries.update(i, entries[i].with_status(status)),
            entries[i].t.spec_client(),
            moved,
        ),
{
    let client = entries[i].t.spec_client();
    let tx = entries[i].t.spec_tx();
    let after = entries.update(i, entries[i].with_status(status));
    lemma_settled_update(entries, i, entries[i].with_status(status), client);
    assert(of_client(entries, i, client));
    assert(recorded_at(entries, i, client, tx));
    assert forall|j: int| #[trigger]
        of_client(after, j, client) && after[j].status is Disputed implies moved.holds.contains_key(
        after[j].t.spec_tx(),
    ) && moved.holds[after[j].t.spec_tx()] == after[j].t.signed_amount() by {
        assert(of_client(entries, j, client));
        if j != i {
            // Another record of the client is one of another transaction.
            assert(recorded_at(entries, j, client, entries[j].t.spec_tx()));
        }
    }
    assert forall|x: Tx| #[trigger] moved.holds.contains_key(x) implies exists|j: int| #[trigger]
        recorded_at(after, j, client, x) && after[j].status is Disputed by {
        if x == tx {
            assert(recorded_at(after, i, client, x));
        } else {
            let j = choose|j: int| #[trigger]
                recorded_at(entries, j, client, x) && entries[j].status is Disputed;
            assert(recorded_at(after, j, client, x));
        }
    }
    assert(lock_agrees(after, client, moved.locked)) by {
        if status is ChargedBack {
            assert(of_client(after, i, client));
        }
        if exists|j: int| #[trigger] of_client(after, j, client) && after[j].status is ChargedBack {
            let j = choose|j: int| #[trigger]
                of_client(after, j, client) && after[j].status is ChargedBack;
            assert(of_client(entries, j, client));
        }
    }
}

/// Accepting a deposit or withdrawal keeps the invariant.
proof fn lemma_accept_keeps_inv(s: LedgerState, t: Transaction)
    requires
        inv(s),
        t.is_record(),
        !recorded(s.entries, t.spec_client(), t.spec_tx()),
    ensures
        inv(s.accept(t, s.account(t.spec_client()).deposit(t.signed_amount()))),
{
    let client = t.spec_client();
    let tx = t.spec_tx();
    let e = Entry { t, status: TxStatus::Active };
    let after = s.accept(t, s.account(client).deposit(t.signed_amount()));
    let n = s.entries.len() as int;
    assert(recorded_once(after.entries)) by {
        assert forall|i: int, j: int, c: Client, x: Tx|
            #[trigger] recorded_at(after.entries, i, c, x) && #[trigger] recorded_at(
                after.entries,
                j,
                c,
                x,
            ) implies i == j by {
            if i < n && j < n {
                assert(recorded_at(s.entries, i, c, x));
                assert(recorded_at(s.entries, j, c, x));
            } else if i < n {
                assert(recorded_at(s.entries, i, client, tx));
            } else if j < n {
                assert(recorded_at(s.entries, j, client, tx));
            }
        }
    }
    assert(accounts_agree(after.entries, after.balances.dom())) by {
        assert forall|c: Client| #[trigger]
            after.balances.dom().contains(c) <==> exists|i: int| #[trigger]
                of_client(after.entries, i, c) by {
            if c == client {
                assert(of_client(after.entries, n, c));
            } else {
                if s.balances.dom().contains(c) {
                    let i = choose|i: int| #[trigger] of_client(s.entries, i, c);
                    assert(of_client(after.entries, i, c));
                }
                if exists|i: int| #[trigger] of_client(after.entries, i, c) {
                    let i = choose|i: int| #[trigger] of_client(after.entries, i, c);
                    assert(of_client(s.entries, i, c));
                }
            }
        }
    }
    assert forall|c: Client| #[trigger] after.balances.contains_key(c) implies balance_agrees(
        after.entries,
        c,
        after.balances[c],
    ) by {
        if !s.balances.contains_key(c) {
            assert(!s.balances.dom().contains(c));
            assert forall|i: int| !of_client(s.entries, i, c) by {}
            lemma_fresh_account_agrees(s.entries, c);
        }
        lemma_push_agrees(s.entries, e, c, s.account(c));
    }
}

/// A move of the dispute life cycle on an account that is not locked keeps
/// the invariant.
proof fn lemma_advance_keeps_inv(s: LedgerState, i: int, status: TxStatus, b: BalanceView)
    requires
        inv(s),
        0 <= i < s.entries.len(),
        s.balances.contains_key(s.entries[i].t.spec_client()),
        !s.balances[s.entries[i].t.spec_client()].locked,
        moves(s.entries[i], status, s.balances[s.entries[i].t.spec_client()], b),
    ensures
        inv(s.advance(i, status, b)),
{
    let client = s.entries[i].t.spec_client();
    let after = s.advance(i, status, b);
    assert forall|j: int| 0 <= j < s.entries.len() implies (#[trigger] after.entries[j]).t
        == s.entries[j].t by {}
    assert(recorded_once(after.entries)) by {
        assert forall|j: int, k: int, c: Client, x: Tx|
            #[trigger] recorded_at(after.entries, j, c, x) && #[trigger] recorded_at(
                after.entries,
                k,
                c,
                x,
            ) implies j == k by {
            assert(recorded_at(s.entries, j, c, x));
            assert(recorded_at(s.entries, k, c, x));
        }
    }
    assert(after.balances.dom() =~= s.balances.dom());
    assert(accounts_agree(after.entries, after.balances.dom())) by {
        assert forall|c: Client| #[trigger]
            after.balances.dom().contains(c) <==> exists|j: int| #[trigger]
                of_client(after.entries, j, c) by {
            if s.balances.dom().contains(c) {
                let j = choose|j: int| #[trigger] of_client(s.entries, j, c);
                assert(of_client(after.entries, j, c));
            }
            if exists|j: int| #[trigger] of_client(after.entries, j, c) {
                let j = choose|j: int| #[trigger] of_client(after.entries, j, c);
                assert(of_client(s.entries, j, c));
            }
        }
    }
    assert forall|c: Client| #[trigger] after.balances.contains_key(c) implies balance_agrees(
        after.entries,
        c,
        after.balances[c],
    ) by {
        if c == client {
            lemma_move_agrees(s.entries, i, status, s.balances[client], b);
        } else {
            lemma_update_agrees_elsewhere(s.entries, i, status, c, s.balances[c]);
        }
    }
}

/// Every transaction keeps the invariant, accepted or refused.
pub proof fn lemma_step_keeps_inv(s: LedgerState, t: Transaction)
    requires
        inv(s),
    ensures
        inv(step(s, t).0),
{
    let client = t.spec_client();
    let tx = t.spec_tx();
    let b = s.account(client);
    if step(s, t).1 is Ok {
        if t.is_record() {
            lemma_accept_keeps_inv(s, t);
        } else {
            let at = position(s.entries, client, tx);
            assert(recorded_at(s.entries, at, client, tx));
            match t {
                Transaction::Dispute { .. } => {
                    lemma_advance_keeps_inv(
                        s,
                        at,
                        TxStatus::Disputed,
                        b.hold(tx, s.entries[at].t.signed_amount()),
                    );
                },
                Transaction::Resolve { .. } => {
                    lemma_advance_keeps_inv(s, at, TxStatus::Resolved, b.remove_hold(tx));
                },
                _ => {
                    lemma_advance_keeps_inv(s, at, TxStatus::ChargedBack, b.apply_hold(tx).lock());
                },
            }
        }
    }
}

/// The invariant holds of every state that transactions lead to.
pub proof fn lemma_run_inv(txs: Seq<Transaction>)
    ensures
        inv(run(txs)),
    decreases txs.len(),
{
    if txs.len() > 0 {
        lemma_run_inv(txs.drop_last());
        lemma_step_keeps_inv(run(txs.drop_last()), txs.last());
    }
}

/// The number that stands for a client and transaction id together: no
/// two pairs share one.
pub open spec fn key_code(client: Client, tx: Tx) -> int {
    client * 0x1_0000_0000 + tx
}

/// The most records that a ledger can hold: one for each client and id.
pub open spec fn record_limit() -> int {
    0x1_0000_0000_0000
}

/// Where nothing is recorded twice, there are no more records than pairs
/// of a client and an id.
pub proof fn lemma_record_count(entries: Seq<Entry>)
    requires
        recorded_once(entries),
    ensures
        entries.len() <= record_limit(),
{
    let codes = Seq::new(
        entries.len(),
        |i: int| key_code(entries[i].t.spec_client(), entries[i].t.spec_tx()),
    );
    assert(codes.no_duplicates()) by {
        assert forall|i: int, j: int|
            0 <= i < codes.len() && 0 <= j < codes.len() && codes[i] == codes[j] implies i
            == j by {
            let client = entries[i].t.spec_client();
            let tx = entries[i].t.spec_tx();
            assert(recorded_at(entries, i, client, tx));
            assert(recorded_at(entries, j, client, tx));
        }
    }
    codes.unique_seq_to_set();
    let all = vstd::set_lib::set_int_range(0, record_limit());
    vstd::set_lib::lemma_int_range(0, record_limit());
    assert(codes.to_set().subset_of(all)) by {
        assert forall|code: int| codes.to_set().contains(code) implies all.contains(code) by {
            let i = choose|i: int| 0 <= i < codes.len() && codes[i] == code;
            assert(code == key_code(entries[i].t.spec_client(), entries[i].t.spec_tx()));
        }
    }
    vstd::set_lib::lemma_len_subset(codes.to_set(), all);
}

/// Under the invariant the holds of every balance are those of records:
/// none is larger than an amount.
pub proof fn lemma_inv_within_limits(s: LedgerState, client: Client)
    requires
        inv(s),
    ensures
        s.account(client).within_limits(),
{
    let b = s.account(client);
    if s.balances.contains_key(client) {
        assert forall|tx: Tx| #[trigger] b.holds.contains_key(tx) implies -balance::hold_limit()
            <= b.holds[tx] <= balance::hold_limit() by {
            let i = choose|i: int| #[trigger]
                recorded_at(s.entries, i, client, tx) && s.entries[i].status is Disputed;
            assert(of_client(s.entries, i, client));
        }
    }
}

} // verus!
