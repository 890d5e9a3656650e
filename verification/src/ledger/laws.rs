//! What follows from the state machine: facts about accounts, duplicates,
//! locks and disputes that hold whatever the transactions are.

use vstd::prelude::*;

use crate::ledger::balance;
use crate::ledger::balance::{lemma_held_after_hold, lemma_held_bounds, BalanceView};
use crate::ledger::model::{
    inv, lemma_inv_within_limits, lemma_position, lemma_run_inv, lemma_settled_without_records,
    lemma_step_keeps_inv, of_client, position, recorded, recorded_at, run, settled, step,
    LedgerState,
};
use crate::ledger::{Amount, Client, Error, Transaction, Tx, TxStatus};

verus! {

/// A refused transaction leaves the ledger as it was.
pub proof fn lemma_refusal_changes_nothing(s: LedgerState, t: Transaction)
    ensures
        step(s, t).1 is Err ==> step(s, t).0 == s,
{
}

/// Only an accepted deposit or withdrawal adds a record, and nothing ever
/// removes one.
pub proof fn lemma_records_grow(s: LedgerState, t: Transaction)
    requires
        inv(s),
    ensures
        step(s, t).0.entries.len() == s.entries.len() + if step(s, t).1 is Ok && t.is_record() {
            1int
        } else {
            0int
        },
{
    if step(s, t).1 is Ok && !t.is_record() {
        // The record that moves on is there: it is replaced, not added.
        let at = position(s.entries, t.spec_client(), t.spec_tx());
        assert(recorded_at(s.entries, at, t.spec_client(), t.spec_tx()));
    }
}

/// The moves of the dispute life cycle: from active to disputed, and from
/// there to resolved or to charged back.
pub open spec fn moves_forward(from: TxStatus, to: TxStatus) -> bool {
    ||| from is Active && to is Disputed
    ||| from is Disputed && to is Resolved
    ||| from is Disputed && to is ChargedBack
}

/// A record keeps its transaction for good, and its status stays or makes
/// one move of the dispute life cycle: a dispute, resolve or chargeback
/// that is accepted moves the record that it names, and nothing else moves
/// any.
pub proof fn lemma_records_only_move_forward(s: LedgerState, t: Transaction, i: int)
    requires
        inv(s),
        0 <= i < s.entries.len(),
    ensures
        step(s, t).0.entries[i].t == s.entries[i].t,
        step(s, t).0.entries[i].status == s.entries[i].status || (moves_forward(
            s.entries[i].status,
            step(s, t).0.entries[i].status,
        ) && step(s, t).1 is Ok && !t.is_record() && recorded_at(
            s.entries,
            i,
            t.spec_client(),
            t.spec_tx(),
        )),
{
    if step(s, t).1 is Ok && !t.is_record() {
        let at = position(s.entries, t.spec_client(), t.spec_tx());
        assert(recorded_at(s.entries, at, t.spec_client(), t.spec_tx()));
    }
}

/// A record has a hold exactly while it is in dispute, and the hold is of
/// its signed amount: so the ledger never places a second hold on a
/// record, and never looks for one that is not there.
pub proof fn lemma_holds_follow_records(s: LedgerState, i: int)
    requires
        inv(s),
        0 <= i < s.entries.len(),
    ensures
        ({
            let e = s.entries[i];
            let b = s.account(e.t.spec_client());
            &&& b.holds.contains_key(e.t.spec_tx()) <==> e.status is Disputed
            &&& e.status is Disputed ==> b.holds[e.t.spec_tx()] == e.t.signed_amount()
        }),
{
    let client = s.entries[i].t.spec_client();
    let tx = s.entries[i].t.spec_tx();
    assert(of_client(s.entries, i, client));
    assert(recorded_at(s.entries, i, client, tx));
    if s.account(client).holds.contains_key(tx) {
        let j = choose|j: int| #[trigger]
            recorded_at(s.entries, j, client, tx) && s.entries[j].status is Disputed;
        assert(j == i);
    }
}

/// A transaction touches no balance but that of its own client.
pub proof fn lemma_other_clients_untouched(s: LedgerState, t: Transaction, client: Client)
    requires
        client != t.spec_client(),
    ensures
        step(s, t).0.balances.contains_key(client) == s.balances.contains_key(client),
        step(s, t).0.account(client) == s.account(client),
{
    if step(s, t).1 is Ok && !t.is_record() {
        // The record that moves on is one of the transaction's own client.
        let at = position(s.entries, t.spec_client(), t.spec_tx());
        assert(recorded_at(s.entries, at, t.spec_client(), t.spec_tx()));
    }
}

/// A client that no transaction was for has no account, whatever was
/// processed for the others.
pub proof fn lemma_no_transactions_no_account(txs: Seq<Transaction>, client: Client)
    requires
        forall|k: int| 0 <= k < txs.len() ==> (#[trigger] txs[k]).spec_client() != client,
    ensures
        !run(txs).balances.contains_key(client),
    decreases txs.len(),
{
    if txs.len() > 0 {
        lemma_no_transactions_no_account(txs.drop_last(), client);
        lemma_other_clients_untouched(run(txs.drop_last()), txs.last(), client);
    }
}

/// A client without a record has no account.
pub proof fn lemma_no_records_no_account(s: LedgerState, client: Client)
    requires
        inv(s),
        forall|i: int| 0 <= i < s.entries.len() ==> (#[trigger] s.entries[i]).t.spec_client()
            != client,
    ensures
        !s.balances.contains_key(client),
{
    if s.balances.contains_key(client) {
        let i = choose|i: int| #[trigger] of_client(s.entries, i, client);
        assert(s.entries[i].t.spec_client() == client);
    }
}

/// Available and held funds make up the total, in every balance.
pub proof fn lemma_available_and_held_make_total(b: BalanceView)
    ensures
        b.available() + b.held() == b.total,
{
}

/// Available and held funds make up the total, for every client and after
/// every transaction.
pub proof fn lemma_funds_add_up(txs: Seq<Transaction>, client: Client)
    ensures
        run(txs).account(client).available() + run(txs).account(client).held() == run(
            txs,
        ).account(client).total,
{
}

/// No more is available than the total: what is held is never negative.
pub proof fn lemma_available_at_most_total(b: BalanceView)
    requires
        b.within_limits(),
    ensures
        0 <= b.held(),
        b.available() <= b.total,
{
    lemma_held_bounds(b);
}

/// No more is available than the total, for every client and after every
/// transaction.
pub proof fn lemma_available_never_above_total(txs: Seq<Transaction>, client: Client)
    ensures
        0 <= run(txs).account(client).held(),
        run(txs).account(client).available() <= run(txs).account(client).total,
{
    lemma_run_inv(txs);
    lemma_inv_within_limits(run(txs), client);
    lemma_held_bounds(run(txs).account(client));
}

/// After every transaction, the total of every client is the sum of its
/// accepted deposits less its accepted withdrawals, with what was charged
/// back left out.
pub proof fn lemma_total_is_settled(txs: Seq<Transaction>, client: Client)
    ensures
        run(txs).account(client).total == settled(run(txs).entries, client),
{
    lemma_run_inv(txs);
    let s = run(txs);
    if !s.balances.contains_key(client) {
        assert forall|i: int| !of_client(s.entries, i, client) by {}
        lemma_settled_without_records(s.entries, client);
    }
}

/// The first deposit opens the account with the amount as its total, all
/// of it available and nothing held.
pub proof fn lemma_lone_deposit(client: Client, tx: Tx, amount: Amount)
    ensures
        ({
            let (s, r) = step(LedgerState::empty(), Transaction::Deposit { client, tx, amount });
            &&& r is Ok
            &&& s.balances.contains_key(client)
            &&& s.balances[client].total == amount
            &&& s.balances[client].held() == 0
            &&& s.balances[client].available() == amount
            &&& !s.balances[client].locked
        }),
{
    balance::lemma_held_over_empty(Map::empty());
}

/// A deposit that is disputed stays in the total and is held in full:
/// nothing of it is available.
pub proof fn lemma_disputed_deposit_is_held(client: Client, tx: Tx, amount: Amount)
    ensures
        ({
            let deposit = Transaction::Deposit { client, tx, amount };
            let dispute = Transaction::Dispute { client, tx };
            let (s1, r1) = step(LedgerState::empty(), deposit);
            let (s2, r2) = step(s1, dispute);
            &&& r1 is Ok
            &&& r2 is Ok
            &&& s2.balances[client].total == amount
            &&& s2.balances[client].held() == amount
            &&& s2.balances[client].available() == 0
        }),
{
    let deposit = Transaction::Deposit { client, tx, amount };
    let s1 = step(LedgerState::empty(), deposit).0;
    balance::lemma_held_over_empty(Map::empty());
    lemma_run_first(deposit);
    lemma_position(s1.entries, 0, client, tx);
    lemma_held_after_hold(s1.balances[client], tx, amount as int);
}

/// A withdrawal that is disputed holds nothing back: what is available is
/// the total, the deposit less the withdrawal. (The withdrawal has an id of
/// its own: under that of the deposit it would be a duplicate.)
pub proof fn lemma_disputed_withdrawal_holds_nothing(
    client: Client,
    deposited: Tx,
    withdrawn: Tx,
    a: Amount,
    b: Amount,
)
    requires
        b <= a,
        deposited != withdrawn,
    ensures
        ({
            let deposit = Transaction::Deposit { client, tx: deposited, amount: a };
            let withdrawal = Transaction::Withdrawal { client, tx: withdrawn, amount: b };
            let dispute = Transaction::Dispute { client, tx: withdrawn };
            let (s1, r1) = step(LedgerState::empty(), deposit);
            let (s2, r2) = step(s1, withdrawal);
            let (s3, r3) = step(s2, dispute);
            &&& r1 is Ok
            &&& r2 is Ok
            &&& r3 is Ok
            &&& s3.balances[client].total == a - b
            &&& s3.balances[client].held() == 0
            &&& s3.balances[client].available() == a - b
        }),
{
    let deposit = Transaction::Deposit { client, tx: deposited, amount: a };
    let withdrawal = Transaction::Withdrawal { client, tx: withdrawn, amount: b };
    let s1 = step(LedgerState::empty(), deposit).0;
    balance::lemma_held_over_empty(Map::empty());
    lemma_run_first(deposit);
    assert(!recorded(s1.entries, client, withdrawn)) by {
        assert forall|i: int| !recorded_at(s1.entries, i, client, withdrawn) by {}
    }
    let s2 = step(s1, withdrawal).0;
    lemma_step_keeps_inv(s1, withdrawal);
    lemma_position(s2.entries, 1, client, withdrawn);
    lemma_held_after_hold(s2.balances[client], withdrawn, -(b as int));
}

/// The state after one transaction satisfies the invariant.
proof fn lemma_run_first(t: Transaction)
    ensures
        inv(step(LedgerState::empty(), t).0),
{
    let txs = seq![t];
    assert(run(txs.drop_last()) == LedgerState::empty());
    lemma_run_inv(txs);
}

/// Once an account is locked, every transaction for its client is refused
/// and changes nothing.
pub proof fn lemma_locked_account_is_frozen(s: LedgerState, t: Transaction)
    requires
        s.balances.contains_key(t.spec_client()),
        s.balances[t.spec_client()].locked,
    ensures
        step(s, t).0 == s,
        step(s, t).1 == Err::<(), Error>(Error::FrozenAccountError(t.spec_client())) || step(
            s,
            t,
        ).1 == Err::<(), Error>(Error::DuplicateTransaction(t.spec_tx())),
{
}

/// A chargeback that is accepted locks the account of its client.
pub proof fn lemma_chargeback_locks(s: LedgerState, client: Client, tx: Tx)
    requires
        step(s, Transaction::ChargeBack { client, tx }).1 is Ok,
    ensures
        step(s, Transaction::ChargeBack { client, tx }).0.balances.contains_key(client),
        step(s, Transaction::ChargeBack { client, tx }).0.balances[client].locked,
{
}

/// A deposit or withdrawal that was accepted is recorded.
pub proof fn lemma_accepted_is_recorded(s: LedgerState, t: Transaction)
    requires
        t.is_record(),
        step(s, t).1 is Ok,
    ensures
        recorded(step(s, t).0.entries, t.spec_client(), t.spec_tx()),
{
    assert(recorded_at(step(s, t).0.entries, s.entries.len() as int, t.spec_client(), t.spec_tx()));
}

/// A deposit or withdrawal under the client and id of a recorded one is
/// refused as a duplicate, whatever its amount, and changes nothing.
pub proof fn lemma_recorded_is_duplicate(s: LedgerState, t: Transaction)
    requires
        t.is_record(),
        recorded(s.entries, t.spec_client(), t.spec_tx()),
    ensures
        step(s, t) == (s, Err::<(), Error>(Error::DuplicateTransaction(t.spec_tx()))),
{
}

/// A deposit or withdrawal that is submitted again, after it was accepted
/// or refused as a duplicate itself, is refused as a duplicate, and the
/// ledger holds what the first submission left. (One that was refused for
/// another reason, a locked account or a want of funds, was not recorded:
/// submitted again it is judged afresh.)
pub proof fn lemma_second_submission_is_duplicate(
    s: LedgerState,
    first: Transaction,
    second: Transaction,
)
    requires
        first.is_record(),
        second.is_record(),
        first.spec_client() == second.spec_client(),
        first.spec_tx() == second.spec_tx(),
        step(s, first).1 is Ok || recorded(s.entries, first.spec_client(), first.spec_tx()),
    ensures
        step(step(s, first).0, second) == (
            step(s, first).0,
            Err::<(), Error>(Error::DuplicateTransaction(first.spec_tx())),
        ),
{
    if step(s, first).1 is Ok {
        lemma_accepted_is_recorded(s, first);
    }
}

/// A dispute of a record that is not active, because it is disputed,
/// resolved or charged back already, is refused and changes nothing.
pub proof fn lemma_dispute_needs_active(s: LedgerState, client: Client, tx: Tx)
    requires
        recorded(s.entries, client, tx),
        !(s.entries[position(s.entries, client, tx)].status is Active),
    ensures
        step(s, Transaction::Dispute { client, tx }).0 == s,
        step(s, Transaction::Dispute { client, tx }).1 is Err,
        s.balances.contains_key(client) && !s.balances[client].locked ==> step(
            s,
            Transaction::Dispute { client, tx },
        ).1 == Err::<(), Error>(
            Error::UnexpectedTxStatus(s.entries[position(s.entries, client, tx)].status),
        ),
{
}

/// A resolve or a chargeback of a record that is not in dispute is refused
/// and changes nothing.
pub proof fn lemma_settling_needs_dispute(s: LedgerState, client: Client, tx: Tx)
    requires
        recorded(s.entries, client, tx),
        !(s.entries[position(s.entries, client, tx)].status is Disputed),
    ensures
        step(s, Transaction::Resolve { client, tx }).0 == s,
        step(s, Transaction::Resolve { client, tx }).1 is Err,
        step(s, Transaction::ChargeBack { client, tx }).0 == s,
        step(s, Transaction::ChargeBack { client, tx }).1 is Err,
{
}

/// The ledger never passes on a balance's refusal but that of a withdrawal
/// for want of funds: holds are placed and taken in step with the records.
pub proof fn lemma_balance_refuses_only_for_funds(s: LedgerState, t: Transaction)
    ensures
        step(s, t).1 matches Err(Error::BalanceError(e)) ==> e
            == balance::Error::InsufficientFunds && t is Withdrawal,
{
}

/// An accepted transaction that takes more out of the available funds than
/// there is: a withdrawal, which is measured against the total and not
/// against what is available, or the dispute of a deposit.
pub open spec fn overdraws(s: LedgerState, t: Transaction) -> bool {
    let available = s.account(t.spec_client()).available();
    &&& step(s, t).1 is Ok
    &&& match t {
        Transaction::Withdrawal { amount, .. } => amount > available,
        Transaction::Dispute { client, tx } => balance::positive_part(
            s.entries[position(s.entries, client, tx)].t.signed_amount(),
        ) > available,
        _ => false,
    }
}

/// What a transaction does to the available funds of its client: a deposit
/// adds its amount and a withdrawal takes its amount; a dispute takes what
/// it holds, and a resolve gives that back; a chargeback gives back a
/// withdrawal, and leaves things as they are for a deposit, which it takes
/// from the total and from the held funds alike.
pub proof fn lemma_available_after(s: LedgerState, t: Transaction)
    requires
        inv(s),
        step(s, t).1 is Ok,
    ensures
        ({
            let client = t.spec_client();
            let at = position(s.entries, client, t.spec_tx());
            let signed = s.entries[at].t.signed_amount();
            step(s, t).0.account(client).available() == s.account(client).available() + match t {
                Transaction::Deposit { amount, .. } => amount as int,
                Transaction::Withdrawal { amount, .. } => -(amount as int),
                Transaction::Dispute { .. } => -balance::positive_part(signed),
                Transaction::Resolve { .. } => balance::positive_part(signed),
                Transaction::ChargeBack { .. } => balance::positive_part(signed) - signed,
            }
        }),
{
    let client = t.spec_client();
    let tx = t.spec_tx();
    let b = s.account(client);
    if !t.is_record() {
        let at = position(s.entries, client, tx);
        assert(recorded_at(s.entries, at, client, tx));
        assert(of_client(s.entries, at, client));
        if t is Dispute {
            if b.holds.contains_key(tx) {
                // A hold would be that of this record, which is active.
                let j = choose|j: int| #[trigger]
                    recorded_at(s.entries, j, client, tx) && s.entries[j].status is Disputed;
                assert(j == at);
            }
            lemma_held_after_hold(b, tx, s.entries[at].t.signed_amount());
        } else {
            balance::lemma_held_after_release(b, tx);
        }
    }
}

/// Available funds that are not negative stay so, but for a transaction
/// that overdraws; and one that overdraws leaves them negative.
pub proof fn lemma_available_stays_nonnegative(s: LedgerState, t: Transaction)
    requires
        inv(s),
        s.account(t.spec_client()).available() >= 0,
    ensures
        overdraws(s, t) <==> step(s, t).0.account(t.spec_client()).available() < 0,
{
    if step(s, t).1 is Ok {
        lemma_available_after(s, t);
    }
}

/// No transaction of `txs` overdraws, each taken in the state that those
/// before it lead to.
pub open spec fn never_overdrawn(txs: Seq<Transaction>) -> bool {
    forall|k: int| 0 <= k < txs.len() ==> !overdraws(run(#[trigger] txs.take(k)), txs[k])
}

/// Where no transaction overdraws, no client's available funds are ever
/// negative.
pub proof fn lemma_never_overdrawn(txs: Seq<Transaction>, client: Client)
    requires
        never_overdrawn(txs),
    ensures
        run(txs).account(client).available() >= 0,
    decreases txs.len(),
{
    balance::lemma_held_over_empty(Map::empty());
    if txs.len() > 0 {
        let init = txs.drop_last();
        let t = txs.last();
        assert(never_overdrawn(init)) by {
            assert forall|k: int| 0 <= k < init.len() implies !overdraws(
                run(#[trigger] init.take(k)),
                init[k],
            ) by {
                assert(init.take(k) =~= txs.take(k));
            }
        }
        lemma_run_inv(init);
        lemma_never_overdrawn(init, client);
        if client == t.spec_client() {
            lemma_available_stays_nonnegative(run(init), t);
        } else {
            lemma_other_clients_untouched(run(init), t, client);
        }
    }
}

} // verus!
