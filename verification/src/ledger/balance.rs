//! The balance of one client: settled funds, the holds that open disputes
//! place on them, and the lock that a chargeback sets.

use std::collections::HashMap;
use vstd::prelude::*;
use vstd::std_specs::iter::IteratorSpec;

use crate::ledger::{Amount, Client, Tx};

verus! {

broadcast use vstd::std_specs::hash::group_hash_axioms;

/// Why a balance refused an operation.
#[derive(Debug, Clone, Copy, PartialEq, Eq, Structural)]
pub enum Error {
    /// A withdrawal asked for more than the total.
    InsufficientFunds,
    /// The account is locked.
    AccountLocked,
    /// The transaction already has a hold.
    MultiHoldError(Tx),
    /// The transaction has no hold.
    NoHoldError(Tx),
}

/// What is reported of a balance.
#[derive(Debug, Clone, Copy, PartialEq, Eq, Structural)]
pub struct BalanceSnapshot {
    pub client: Client,
    pub available: i128,
    pub held: i128,
    pub total: i128,
    pub locked: bool,
}

/// The largest magnitude of a hold: that of the largest amount.
pub open spec fn hold_limit() -> int {
    u64::MAX as int
}

/// The part of a hold that counts as held funds: holds that stand for a
/// disputed withdrawal are negative and count as nothing.
pub open spec fn positive_part(x: int) -> int {
    if x > 0 {
        x
    } else {
        0
    }
}

/// The sum of the positive parts of `holds` over the transactions in `txs`.
pub open spec fn held_over(txs: Set<Tx>, holds: Map<Tx, int>) -> int {
    txs.fold(0int, |acc: int, tx: Tx| acc + positive_part(holds[tx]))
}

/// A balance as a mathematical value.
pub struct BalanceView {
    pub client: Client,
    pub total: int,
    pub holds: Map<Tx, int>,
    pub locked: bool,
}

impl BalanceView {
    /// The balance of an account that was just opened.
    pub open spec fn new(client: Client) -> Self {
        BalanceView { client, total: 0, holds: Map::empty(), locked: false }
    }

    /// Finitely many holds, none larger in magnitude than an amount can be:
    /// so it is where every hold stands for an amount or for one negated.
    pub open spec fn within_limits(self) -> bool {
        &&& self.holds.dom().finite()
        &&& forall|tx: Tx| #[trigger]
            self.holds.contains_key(tx) ==> -hold_limit() <= self.holds[tx] <= hold_limit()
    }

    /// Held funds: the sum of the positive holds.
    pub open spec fn held(self) -> int {
        held_over(self.holds.dom(), self.holds)
    }

    /// Funds that no dispute holds back.
    pub open spec fn available(self) -> int {
        self.total - self.held()
    }

    /// The balance with `amount` added to the total.
    pub open spec fn deposit(self, amount: int) -> Self {
        BalanceView { total: self.total + amount, ..self }
    }

    /// The balance with `amount` taken from the total.
    pub open spec fn withdraw(self, amount: int) -> Self {
        BalanceView { total: self.total - amount, ..self }
    }

    /// The balance with a hold of `amount` on `tx`.
    pub open spec fn hold(self, tx: Tx, amount: int) -> Self {
        BalanceView { holds: self.holds.insert(tx, amount), ..self }
    }

    /// The balance without the hold on `tx`.
    pub open spec fn remove_hold(self, tx: Tx) -> Self {
        BalanceView { holds: self.holds.remove(tx), ..self }
    }

    /// The balance with the hold on `tx` taken out of the total and gone.
    pub open spec fn apply_hold(self, tx: Tx) -> Self {
        BalanceView { total: self.total - self.holds[tx], holds: self.holds.remove(tx), ..self }
    }

    /// The balance, locked.
    pub open spec fn lock(self) -> Self {
        BalanceView { locked: true, ..self }
    }

    /// What a deposit of `amount` leaves and answers: a locked account
    /// refuses it.
    pub open spec fn try_deposit(self, amount: int) -> (BalanceView, Result<(), Error>) {
        if self.locked {
            (self, Err(Error::AccountLocked))
        } else {
            (self.deposit(amount), Ok(()))
        }
    }

    /// What a withdrawal of `amount` leaves and answers: it is refused
    /// where the total is less, and then by a locked account.
    pub open spec fn try_withdraw(self, amount: int) -> (BalanceView, Result<(), Error>) {
        if self.total < amount {
            (self, Err(Error::InsufficientFunds))
        } else if self.locked {
            (self, Err(Error::AccountLocked))
        } else {
            (self.withdraw(amount), Ok(()))
        }
    }

    /// What placing a hold of `amount` on `tx` leaves and answers: a
    /// second hold on a transaction is refused.
    pub open spec fn try_hold(self, tx: Tx, amount: int) -> (BalanceView, Result<(), Error>) {
        if self.holds.contains_key(tx) {
            (self, Err(Error::MultiHoldError(tx)))
        } else {
            (self.hold(tx, amount), Ok(()))
        }
    }

    /// What releasing the hold on `tx` leaves and answers: there must be
    /// one.
    pub open spec fn try_remove_hold(self, tx: Tx) -> (BalanceView, Result<(), Error>) {
        if self.holds.contains_key(tx) {
            (self.remove_hold(tx), Ok(()))
        } else {
            (self, Err(Error::NoHoldError(tx)))
        }
    }

    /// What applying the hold on `tx` leaves and answers: there must be
    /// one.
    pub open spec fn try_apply_hold(self, tx: Tx) -> (BalanceView, Result<(), Error>) {
        if self.holds.contains_key(tx) {
            (self.apply_hold(tx), Ok(()))
        } else {
            (self, Err(Error::NoHoldError(tx)))
        }
    }

    /// What is reported of the balance.
    pub open spec fn snapshot(self) -> BalanceSnapshot {
        BalanceSnapshot {
            client: self.client,
            available: self.available() as i128,
            held: self.held() as i128,
            total: self.total as i128,
            locked: self.locked,
        }
    }
}

/// The function that `held_over` folds with adds up in any order.
proof fn lemma_adding_commutes(holds: Map<Tx, int>)
    ensures
        vstd::set::fold::is_fun_commutative(|acc: int, tx: Tx| acc + positive_part(holds[tx])),
{
}

/// Nothing is held over no transactions.
pub proof fn lemma_held_over_empty(holds: Map<Tx, int>)
    ensures
        held_over(Set::<Tx>::empty(), holds) == 0,
{
    vstd::set::fold::lemma_fold_empty(0int, |acc: int, tx: Tx| acc + positive_part(holds[tx]));
}

/// One more transaction adds the positive part of its hold.
pub proof fn lemma_held_over_insert(txs: Set<Tx>, holds: Map<Tx, int>, tx: Tx)
    requires
        txs.finite(),
        !txs.contains(tx),
    ensures
        held_over(txs.insert(tx), holds) == held_over(txs, holds) + positive_part(holds[tx]),
{
    lemma_adding_commutes(holds);
    vstd::set::fold::lemma_fold_insert(
        txs,
        0int,
        |acc: int, tx: Tx| acc + positive_part(holds[tx]),
        tx,
    );
}

/// What is held over `txs` depends on the holds of `txs` alone.
pub proof fn lemma_held_over_agrees(txs: Set<Tx>, a: Map<Tx, int>, b: Map<Tx, int>)
    requires
        txs.finite(),
        forall|tx: Tx| txs.contains(tx) ==> a[tx] == b[tx],
    ensures
        held_over(txs, a) == held_over(txs, b),
    decreases txs.len(),
{
    if txs.is_empty() {
        lemma_held_over_empty(a);
        lemma_held_over_empty(b);
    } else {
        let tx = txs.choose();
        let rest = txs.remove(tx);
        lemma_held_over_agrees(rest, a, b);
        lemma_held_over_insert(rest, a, tx);
        lemma_held_over_insert(rest, b, tx);
    }
}

/// Held funds are never negative, and at most the hold limit for each
/// transaction.
pub proof fn lemma_held_over_bounds(txs: Set<Tx>, holds: Map<Tx, int>)
    requires
        txs.finite(),
        forall|tx: Tx| txs.contains(tx) ==> holds[tx] <= hold_limit(),
    ensures
        0 <= held_over(txs, holds) <= txs.len() * hold_limit(),
    decreases txs.len(),
{
    if txs.is_empty() {
        lemma_held_over_empty(holds);
    } else {
        let tx = txs.choose();
        let rest = txs.remove(tx);
        lemma_held_over_bounds(rest, holds);
        lemma_held_over_insert(rest, holds, tx);
        assert((txs.len() - 1) * hold_limit() + hold_limit() == txs.len() * hold_limit())
            by (nonlinear_arith);
    }
}

/// There are no more transactions than transaction ids.
pub proof fn lemma_tx_set_len(txs: Set<Tx>)
    requires
        txs.finite(),
    ensures
        txs.len() <= 0x1_0000_0000,
{
    let widen = |tx: Tx| tx as int;
    let wide = txs.map(widen);
    vstd::set_lib::lemma_map_size(txs, wide, widen);
    vstd::set_lib::lemma_int_range(0, 0x1_0000_0000);
    vstd::set_lib::lemma_len_subset(wide, vstd::set_lib::set_int_range(0, 0x1_0000_0000));
}

/// The positive parts of the holds of `keys`, added up in the order of
/// `keys`.
spec fn held_along(keys: Seq<Tx>, holds: Map<Tx, int>) -> int
    decreases keys.len(),
{
    if keys.len() == 0 {
        0
    } else {
        held_along(keys.drop_last(), holds) + positive_part(holds[keys.last()])
    }
}

proof fn lemma_held_along(keys: Seq<Tx>, holds: Map<Tx, int>)
    requires
        keys.no_duplicates(),
    ensures
        held_along(keys, holds) == held_over(keys.to_set(), holds),
    decreases keys.len(),
{
    broadcast use vstd::seq_lib::group_seq_properties;

    if keys.len() == 0 {
        assert(keys.to_set() =~= Set::<Tx>::empty());
        lemma_held_over_empty(holds);
    } else {
        let init = keys.drop_last();
        lemma_held_along(init, holds);
        assert(init.to_set().insert(keys.last()) =~= keys.to_set()) by {
            assert forall|tx: Tx| keys.to_set().contains(tx) implies init.to_set().insert(
                keys.last(),
            ).contains(tx) by {
                let i = choose|i: int| 0 <= i < keys.len() && keys[i] == tx;
                if i < keys.len() - 1 {
                    assert(init[i] == tx);
                }
            }
        }
        lemma_held_over_insert(init.to_set(), holds, keys.last());
    }
}

/// What is added up along `keys` is never negative.
proof fn lemma_held_along_nonnegative(keys: Seq<Tx>, holds: Map<Tx, int>)
    ensures
        0 <= held_along(keys, holds),
    decreases keys.len(),
{
    if keys.len() > 0 {
        lemma_held_along_nonnegative(keys.drop_last(), holds);
    }
}

/// Adding up along `keys` never goes down: each step adds a positive part.
proof fn lemma_held_along_grows(keys: Seq<Tx>, holds: Map<Tx, int>, n: int)
    requires
        0 <= n <= keys.len(),
    ensures
        0 <= held_along(keys.take(n), holds) <= held_along(keys, holds),
    decreases keys.len() - n,
{
    lemma_held_along_nonnegative(keys.take(n), holds);
    if n < keys.len() {
        lemma_held_along_grows(keys, holds, n + 1);
        assert(keys.take(n + 1).drop_last() =~= keys.take(n));
    } else {
        assert(keys.take(n) =~= keys);
    }
}

/// The most that can be held at once: the hold limit for every transaction
/// id.
pub open spec fn held_limit() -> int {
    0x1_0000_0000 * hold_limit()
}

/// Held funds are never negative and never above the held limit.
pub proof fn lemma_held_bounds(b: BalanceView)
    requires
        b.within_limits(),
    ensures
        0 <= b.held() <= held_limit(),
{
    lemma_tx_set_len(b.holds.dom());
    lemma_held_over_bounds(b.holds.dom(), b.holds);
    assert(b.holds.dom().len() * hold_limit() <= 0x1_0000_0000 * hold_limit())
        by (nonlinear_arith)
        requires
            b.holds.dom().len() <= 0x1_0000_0000,
            hold_limit() >= 0,
    ;
}

/// A new hold adds its positive part to what is held.
pub proof fn lemma_held_after_hold(b: BalanceView, tx: Tx, amount: int)
    requires
        b.holds.dom().finite(),
        !b.holds.contains_key(tx),
    ensures
        b.hold(tx, amount).held() == b.held() + positive_part(amount),
{
    let after = b.holds.insert(tx, amount);
    lemma_held_over_insert(b.holds.dom(), after, tx);
    lemma_held_over_agrees(b.holds.dom(), after, b.holds);
}

/// A hold that goes takes its positive part out of what is held, whether
/// it is released or applied.
pub proof fn lemma_held_after_release(b: BalanceView, tx: Tx)
    requires
        b.holds.dom().finite(),
        b.holds.contains_key(tx),
    ensures
        b.remove_hold(tx).held() == b.held() - positive_part(b.holds[tx]),
        b.apply_hold(tx).held() == b.held() - positive_part(b.holds[tx]),
{
    let after = b.holds.remove(tx);
    lemma_held_over_insert(after.dom(), b.holds, tx);
    lemma_held_over_agrees(after.dom(), after, b.holds);
}

/// The balance of a single client.
#[derive(Debug, Clone)]
pub struct Balance {
    /// The client that owns this balance.
    client: Client,
    /// Settled funds, whatever is held.
    total: i128,
    /// The hold of each transaction under dispute.
    holds: HashMap<Tx, i128>,
    /// Set for good by a chargeback.
    locked: bool,
}

impl View for Balance {
    type V = BalanceView;

    closed spec fn view(&self) -> BalanceView {
        BalanceView {
            client: self.client,
            total: self.total as int,
            holds: self.holds@.map_values(|h: i128| h as int),
            locked: self.locked,
        }
    }
}

impl Balance {
    /// The balance of an account that was just opened: nothing in it,
    /// nothing held, not locked.
    pub fn new(client: Client) -> (b: Self)
        ensures
            b@ == BalanceView::new(client),
    {
        let b = Balance { client, total: 0, holds: HashMap::new(), locked: false };
        assert(b@.holds =~= Map::<Tx, int>::empty());
        b
    }

    /// Funds that no dispute holds back: the total less what is held.
    pub fn available(&self) -> (r: i128)
        requires
            self@.held() <= i128::MAX,
            i128::MIN <= self@.available(),
        ensures
            r == self@.available(),
    {
        self.total - self.held()
    }

    /// Settled funds, whatever is held.
    pub fn total(&self) -> (r: i128)
        ensures
            r == self@.total,
    {
        self.total
    }

    /// Held funds: the sum of the positive holds. A hold that stands for a
    /// disputed withdrawal is negative and is left out: the withdrawn funds
    /// have left the total already, and to count them as held would make
    /// them available a second time.
    pub fn held(&self) -> (r: i128)
        requires
            self@.held() <= i128::MAX,
        ensures
            r == self@.held(),
            r >= 0,
    {
        let ghost holds = self@.holds;
        let ghost all = self.holds.keys().remaining().unref();
        let ghost mut done: int = 0;
        let mut total_held: i128 = 0;
        proof {
            assert(holds.dom() =~= self.holds@.dom());
            lemma_held_along(all, holds);
        }
        // Walks the keys and not the values: two holds of one amount count
        // twice.
        for tx in keys: self.holds.keys()
            invariant
                holds == self@.holds,
                keys.seq().unref() == all,
                all.to_set() == self.holds@.dom(),
                held_along(all, holds) <= i128::MAX,
                done == keys.index(),
                total_held == held_along(all.take(done), holds),
        {
            proof {
                lemma_held_along_grows(all, holds, done);
                lemma_held_along_grows(all, holds, done + 1);
                assert(all.take(done + 1).drop_last() =~= all.take(done));
                assert(holds.contains_key(*tx));
                done = done + 1;
            }
            match self.holds.get(tx) {
                Some(amount) => {
                    if *amount > 0 {
                        total_held = total_held + *amount;
                    }
                },
                None => {},
            }
        }
        proof {
            assert(all.take(done) =~= all);
            lemma_held_along_nonnegative(all, holds);
        }
        total_held
    }

    /// Whether a chargeback locked the account.
    pub fn locked(&self) -> (r: bool)
        ensures
            r == self@.locked,
    {
        self.locked
    }

    /// Lock the account, for good.
    pub fn lock_balance(&mut self)
        ensures
            final(self)@ == old(self)@.lock(),
    {
        self.locked = true;
    }

    /// Add funds to this balance.
    pub fn deposit(&mut self, amount: Amount) -> (r: Result<(), Error>)
        requires
            !old(self)@.locked ==> old(self)@.total + amount <= i128::MAX,
        ensures
            final(self)@ == old(self)@.try_deposit(amount as int).0,
            r == old(self)@.try_deposit(amount as int).1,
    {
        if self.locked {
            return Err(Error::AccountLocked);
        }
        self.total = self.total + amount as i128;
        Ok(())
    }

    /// Take funds out of this balance. Holds do not stand in the way: the
    /// amount is measured against the total.
    pub fn withdraw(&mut self, amount: Amount) -> (r: Result<(), Error>)
        ensures
            final(self)@ == old(self)@.try_withdraw(amount as int).0,
            r == old(self)@.try_withdraw(amount as int).1,
    {
        if self.total < amount as i128 {
            return Err(Error::InsufficientFunds);
        }
        if self.locked {
            return Err(Error::AccountLocked);
        }
        self.total = self.total - amount as i128;
        Ok(())
    }

    /// Record a hold of `amount` against `tx`. The total stays as it is.
    pub fn hold(&mut self, tx: Tx, amount: i128) -> (r: Result<(), Error>)
        ensures
            final(self)@ == old(self)@.try_hold(tx, amount as int).0,
            r == old(self)@.try_hold(tx, amount as int).1,
    {
        if self.holds.contains_key(&tx) {
            return Err(Error::MultiHoldError(tx));
        }
        self.holds.insert(tx, amount);
        assert(self@.holds =~= old(self)@.holds.insert(tx, amount as int));
        Ok(())
    }

    /// Drop the hold on `tx`: what it held is available again.
    pub fn remove_hold(&mut self, tx: Tx) -> (r: Result<(), Error>)
        ensures
            final(self)@ == old(self)@.try_remove_hold(tx).0,
            r == old(self)@.try_remove_hold(tx).1,
    {
        if !self.holds.contains_key(&tx) {
            return Err(Error::NoHoldError(tx));
        }
        self.holds.remove(&tx);
        assert(self@.holds =~= old(self)@.holds.remove(tx));
        Ok(())
    }

    /// Take the hold on `tx` out of the total, and drop it. A positive
    /// hold lowers the total; a negative one raises it.
    pub fn apply_hold(&mut self, tx: Tx) -> (r: Result<(), Error>)
        requires
            old(self)@.holds.contains_key(tx) ==> i128::MIN <= old(self)@.apply_hold(tx).total
                <= i128::MAX,
        ensures
            final(self)@ == old(self)@.try_apply_hold(tx).0,
            r == old(self)@.try_apply_hold(tx).1,
    {
        if !self.holds.contains_key(&tx) {
            return Err(Error::NoHoldError(tx));
        }
        match self.holds.remove(&tx) {
            Some(amount) => {
                self.total = self.total - amount;
            },
            None => {},
        }
        assert(self@.holds =~= old(self)@.holds.remove(tx));
        Ok(())
    }

    /// The reported quantities, as they stand now.
    pub fn snapshot(&self) -> (r: BalanceSnapshot)
        requires
            self@.held() <= i128::MAX,
            i128::MIN <= self@.available(),
        ensures
            r == self@.snapshot(),
            r.client == self@.client,
            r.available == self@.available(),
            r.held == self@.held(),
            r.total == self@.total,
            r.locked == self@.locked,
            r.available + r.held == r.total,
    {
        BalanceSnapshot {
            client: self.client,
            available: self.available(),
            held: self.held(),
            total: self.total,
            locked: self.locked,
        }
    }
}

} // verus!
