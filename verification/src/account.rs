//! A single client account and its event handlers.
//!
//! The account is a small state machine over the tuple (available, held,
//! total, locked, transactions, disputes). Events that break a rule —
//! a negative amount, a locked account, a balance that would go negative
//! or out of range, a dispute of an unknown or already disputed
//! transaction, a resolve or chargeback of an undisputed one — are
//! absorbed as no-ops; nothing ever fails here.
//!
//! Disputing moves the recorded amount from `available` to `held`
//! unconditionally, whatever its sign; resolving moves it back; a
//! chargeback removes it from `held` and `total` and locks the account.
//! This keeps `total == available + held` at every point in time.

use vstd::prelude::*;
use crate::event::{Event, event_wf};
use crate::fixed::{
    Fixed, FixedV, MAX_AMOUNT_UNITS, UNITS_LIMIT, fixed_of, fixed_wf, fixed_zero, lemma_fixed_of_wf,
    lemma_zero_fixed_wf, make_fixed, zero_fixed,
};
use crate::table::{keys_unique, map_of, table_contains, table_get, table_remove, table_set};

verus! {

/// Mathematical model of an [`Account`].
pub ghost struct AccountModel {
    pub client: u16,
    pub available: FixedV,
    pub held: FixedV,
    pub total: FixedV,
    pub locked: bool,
    /// Every applied deposit (positive) or withdrawal (negative), by
    /// transaction identifier, in ten-thousandths.
    pub history: Map<u32, int>,
    /// The amount each currently open dispute froze, by transaction
    /// identifier.
    pub disputes: Map<u32, int>,
}

/// Well-formedness: balances are well-formed and in range, the balance
/// equation holds, and every recorded amount is within the parser's bound.
pub open spec fn account_wf(a: AccountModel) -> bool {
    &&& fixed_wf(a.available)
    &&& fixed_wf(a.held)
    &&& fixed_wf(a.total)
    &&& a.total.units == a.available.units + a.held.units
    &&& forall|k: u32|
        a.history.contains_key(k) ==> -(MAX_AMOUNT_UNITS as int) <= #[trigger] a.history[k]
            <= MAX_AMOUNT_UNITS as int
    &&& forall|k: u32|
        a.disputes.contains_key(k) ==> -(MAX_AMOUNT_UNITS as int) <= #[trigger] a.disputes[k]
            <= MAX_AMOUNT_UNITS as int
}

/// A fresh account: exact zero balances, unlocked, no history.
pub open spec fn spec_new_account(client: u16) -> AccountModel {
    AccountModel {
        client: client,
        available: zero_fixed(),
        held: zero_fixed(),
        total: zero_fixed(),
        locked: false,
        history: Map::empty(),
        disputes: Map::empty(),
    }
}

/// The shared balance change of deposits and withdrawals: applied only on
/// an unlocked account and only if neither `available` nor `total` would
/// leave the range `0 ..= UNITS_LIMIT`; the signed amount is then recorded
/// in the history.
pub open spec fn spec_add(a: AccountModel, id: u32, amt: int) -> AccountModel {
    let na: int = a.available.units + amt;
    let nt: int = a.total.units + amt;
    if !a.locked && 0 <= na <= UNITS_LIMIT as int && 0 <= nt <= UNITS_LIMIT as int {
        AccountModel {
            available: fixed_of(na),
            total: fixed_of(nt),
            history: a.history.insert(id, amt),
            ..a
        }
    } else {
        a
    }
}

/// A deposit credits a non-negative amount; a negative one is a no-op.
pub open spec fn spec_deposit(a: AccountModel, id: u32, amt: int) -> AccountModel {
    if amt >= 0 {
        spec_add(a, id, amt)
    } else {
        a
    }
}

/// A withdrawal debits a non-negative amount; a negative one is a no-op.
pub open spec fn spec_withdrawal(a: AccountModel, id: u32, amt: int) -> AccountModel {
    if amt >= 0 {
        spec_add(a, id, -amt)
    } else {
        a
    }
}

/// A dispute freezes the recorded amount of a known, not currently
/// disputed transaction: it moves from `available` into `held`, keeping
/// `total` unchanged.
pub open spec fn spec_dispute(a: AccountModel, id: u32) -> AccountModel {
    if a.history.contains_key(id) && !a.disputes.contains_key(id) {
        let x: int = a.history[id];
        let na: int = a.available.units - x;
        let nh: int = a.held.units + x;
        if -(UNITS_LIMIT as int) <= na <= UNITS_LIMIT as int && -(UNITS_LIMIT as int) <= nh
            <= UNITS_LIMIT as int {
            AccountModel {
                available: fixed_of(na),
                held: fixed_of(nh),
                disputes: a.disputes.insert(id, x),
                ..a
            }
        } else {
            a
        }
    } else {
        a
    }
}

/// A resolve dismisses an open dispute: the frozen amount moves back from
/// `held` to `available`, keeping `total` unchanged.
pub open spec fn spec_resolve(a: AccountModel, id: u32) -> AccountModel {
    if a.disputes.contains_key(id) {
        let x: int = a.disputes[id];
        let na: int = a.available.units + x;
        let nh: int = a.held.units - x;
        if -(UNITS_LIMIT as int) <= na <= UNITS_LIMIT as int && -(UNITS_LIMIT as int) <= nh
            <= UNITS_LIMIT as int {
            AccountModel {
                available: fixed_of(na),
                held: fixed_of(nh),
                disputes: a.disputes.remove(id),
                ..a
            }
        } else {
            a
        }
    } else {
        a
    }
}

/// A chargeback upholds an open dispute: the frozen amount leaves `held`
/// and `total` for good, and the account is locked.
pub open spec fn spec_chargeback(a: AccountModel, id: u32) -> AccountModel {
    if a.disputes.contains_key(id) {
        let x: int = a.disputes[id];
        let nh: int = a.held.units - x;
        let nt: int = a.total.units - x;
        if -(UNITS_LIMIT as int) <= nh <= UNITS_LIMIT as int && -(UNITS_LIMIT as int) <= nt
            <= UNITS_LIMIT as int {
            AccountModel {
                held: fixed_of(nh),
                total: fixed_of(nt),
                locked: true,
                disputes: a.disputes.remove(id),
                ..a
            }
        } else {
            a
        }
    } else {
        a
    }
}

/// The account transition an event performs; the event is assumed to be
/// routed to the account of its client.
pub open spec fn spec_apply_event(a: AccountModel, ev: Event) -> AccountModel {
    match ev {
        Event::Deposit { tx, amount, .. } => spec_deposit(a, tx, amount as int),
        Event::Withdrawal { tx, amount, .. } => spec_withdrawal(a, tx, amount as int),
        Event::Dispute { tx, .. } => spec_dispute(a, tx),
        Event::Resolve { tx, .. } => spec_resolve(a, tx),
        Event::Chargeback { tx, .. } => spec_chargeback(a, tx),
    }
}

/// Law: every event preserves well-formedness of an account, and with it
/// the balance equation: after any event, `total == available + held`.
pub proof fn lemma_event_preserves_balance(a: AccountModel, ev: Event)
    requires
        account_wf(a),
        event_wf(ev),
    ensures
        account_wf(spec_apply_event(a, ev)),
        spec_apply_event(a, ev).total.units == spec_apply_event(a, ev).available.units
            + spec_apply_event(a, ev).held.units,
{
    match ev {
        Event::Deposit { tx, amount, .. } => lemma_deposit_wf(a, tx, amount as int),
        Event::Withdrawal { tx, amount, .. } => lemma_withdrawal_wf(a, tx, amount as int),
        Event::Dispute { tx, .. } => lemma_dispute_wf(a, tx),
        Event::Resolve { tx, .. } => lemma_resolve_wf(a, tx),
        Event::Chargeback { tx, .. } => lemma_chargeback_wf(a, tx),
    }
}

proof fn lemma_bound_insert(m: Map<u32, int>, id: u32, v: int)
    requires
        forall|k: u32|
            m.contains_key(k) ==> -(MAX_AMOUNT_UNITS as int) <= #[trigger] m[k]
                <= MAX_AMOUNT_UNITS as int,
        -(MAX_AMOUNT_UNITS as int) <= v <= MAX_AMOUNT_UNITS as int,
    ensures
        forall|k: u32|
            m.insert(id, v).contains_key(k) ==> -(MAX_AMOUNT_UNITS as int)
                <= #[trigger] m.insert(id, v)[k] <= MAX_AMOUNT_UNITS as int,
{
    assert forall|k: u32| m.insert(id, v).contains_key(k)
        implies -(MAX_AMOUNT_UNITS as int) <= #[trigger] m.insert(id, v)[k]
        <= MAX_AMOUNT_UNITS as int by {
        if k != id {
            assert(m.contains_key(k));
        }
    }
}

proof fn lemma_bound_remove(m: Map<u32, int>, id: u32)
    requires
        forall|k: u32|
            m.contains_key(k) ==> -(MAX_AMOUNT_UNITS as int) <= #[trigger] m[k]
                <= MAX_AMOUNT_UNITS as int,
    ensures
        forall|k: u32|
            m.remove(id).contains_key(k) ==> -(MAX_AMOUNT_UNITS as int)
                <= #[trigger] m.remove(id)[k] <= MAX_AMOUNT_UNITS as int,
{
    assert forall|k: u32| m.remove(id).contains_key(k)
        implies -(MAX_AMOUNT_UNITS as int) <= #[trigger] m.remove(id)[k]
        <= MAX_AMOUNT_UNITS as int by {
        assert(m.contains_key(k));
    }
}

pub proof fn lemma_add_wf(a: AccountModel, id: u32, amt: int)
    requires
        account_wf(a),
        -(MAX_AMOUNT_UNITS as int) <= amt <= MAX_AMOUNT_UNITS as int,
    ensures
        account_wf(spec_add(a, id, amt)),
{
    let na: int = a.available.units + amt;
    let nt: int = a.total.units + amt;
    if !a.locked && 0 <= na <= UNITS_LIMIT as int && 0 <= nt <= UNITS_LIMIT as int {
        lemma_fixed_of_wf(na);
        lemma_fixed_of_wf(nt);
        lemma_bound_insert(a.history, id, amt);
    }
}

pub proof fn lemma_deposit_wf(a: AccountModel, id: u32, amt: int)
    requires
        account_wf(a),
        -(MAX_AMOUNT_UNITS as int) <= amt <= MAX_AMOUNT_UNITS as int,
    ensures
        account_wf(spec_deposit(a, id, amt)),
{
    if amt >= 0 {
        lemma_add_wf(a, id, amt);
    }
}

pub proof fn lemma_withdrawal_wf(a: AccountModel, id: u32, amt: int)
    requires
        account_wf(a),
        -(MAX_AMOUNT_UNITS as int) <= amt <= MAX_AMOUNT_UNITS as int,
    ensures
        account_wf(spec_withdrawal(a, id, amt)),
{
    if amt >= 0 {
        lemma_add_wf(a, id, -amt);
    }
}

pub proof fn lemma_dispute_wf(a: AccountModel, id: u32)
    requires
        account_wf(a),
    ensures
        account_wf(spec_dispute(a, id)),
{
    if a.history.contains_key(id) && !a.disputes.contains_key(id) {
        let x: int = a.history[id];
        let na: int = a.available.units - x;
        let nh: int = a.held.units + x;
        if -(UNITS_LIMIT as int) <= na <= UNITS_LIMIT as int && -(UNITS_LIMIT as int) <= nh
            <= UNITS_LIMIT as int {
            lemma_fixed_of_wf(na);
            lemma_fixed_of_wf(nh);
            lemma_bound_insert(a.disputes, id, x);
        }
    }
}

pub proof fn lemma_resolve_wf(a: AccountModel, id: u32)
    requires
        account_wf(a),
    ensures
        account_wf(spec_resolve(a, id)),
{
    if a.disputes.contains_key(id) {
        let x: int = a.disputes[id];
        let na: int = a.available.units + x;
        let nh: int = a.held.units - x;
        if -(UNITS_LIMIT as int) <= na <= UNITS_LIMIT as int && -(UNITS_LIMIT as int) <= nh
            <= UNITS_LIMIT as int {
            lemma_fixed_of_wf(na);
            lemma_fixed_of_wf(nh);
            lemma_bound_remove(a.disputes, id);
        }
    }
}

pub proof fn lemma_chargeback_wf(a: AccountModel, id: u32)
    requires
        account_wf(a),
    ensures
        account_wf(spec_chargeback(a, id)),
{
    if a.disputes.contains_key(id) {
        let x: int = a.disputes[id];
        let nh: int = a.held.units - x;
        let nt: int = a.total.units - x;
        if -(UNITS_LIMIT as int) <= nh <= UNITS_LIMIT as int && -(UNITS_LIMIT as int) <= nt
            <= UNITS_LIMIT as int {
            lemma_fixed_of_wf(nh);
            lemma_fixed_of_wf(nt);
            lemma_bound_remove(a.disputes, id);
        }
    }
}

/// An event never changes which client an account belongs to.
pub proof fn lemma_apply_event_client(a: AccountModel, ev: Event)
    ensures
        spec_apply_event(a, ev).client == a.client,
{
}

/// Law: a deposit or a withdrawal never drives `available` or `total`
/// negative. Negative balances are only reachable through the dispute
/// lifecycle, which is intentional.
pub proof fn lemma_deposit_withdrawal_keep_nonnegative(a: AccountModel, id: u32, amt: int)
    requires
        a.available.units >= 0,
        a.total.units >= 0,
    ensures
        spec_deposit(a, id, amt).available.units >= 0,
        spec_deposit(a, id, amt).total.units >= 0,
        spec_withdrawal(a, id, amt).available.units >= 0,
        spec_withdrawal(a, id, amt).total.units >= 0,
{
}

/// Law: once an account is locked, deposits and withdrawals are permanent
/// no-ops; in particular they change neither `available` nor `total`.
pub proof fn lemma_locked_account_is_frozen(a: AccountModel, id: u32, amt: int)
    requires
        a.locked,
    ensures
        spec_deposit(a, id, amt) == a,
        spec_withdrawal(a, id, amt) == a,
{
}

/// One client account, as the ledger keeps it.
pub struct Account {
    pub client_id: u16,
    pub available: Fixed,
    pub held: Fixed,
    pub total: Fixed,
    pub locked: bool,
    /// Applied deposits and withdrawals: (transaction, signed amount).
    pub transactions: Vec<(u32, i128)>,
    /// Open disputes: (transaction, frozen amount).
    pub disputes: Vec<(u32, i128)>,
}

impl View for Account {
    type V = AccountModel;

    open spec fn view(&self) -> AccountModel {
        AccountModel {
            client: self.client_id,
            available: self.available@,
            held: self.held@,
            total: self.total@,
            locked: self.locked,
            history: map_of(self.transactions@),
            disputes: map_of(self.disputes@),
        }
    }
}

impl Account {
    /// The representation invariant: the model is well-formed and the two
    /// tables carry pairwise-distinct keys.
    pub open spec fn inv(&self) -> bool {
        &&& account_wf(self@)
        &&& keys_unique(self.transactions@)
        &&& keys_unique(self.disputes@)
    }

    /// A fresh account for `client_id`, all balances at exact zero.
    pub fn new(client_id: u16) -> (r: Account)
        ensures
            r@ == spec_new_account(client_id),
            r.inv(),
    {
        proof {
            lemma_zero_fixed_wf();
        }
        Account {
            client_id: client_id,
            available: fixed_zero(),
            held: fixed_zero(),
            total: fixed_zero(),
            locked: false,
            transactions: Vec::new(),
            disputes: Vec::new(),
        }
    }

    fn add(&mut self, id: u32, amount: i128)
        requires
            old(self).inv(),
            -MAX_AMOUNT_UNITS <= amount <= MAX_AMOUNT_UNITS,
        ensures
            final(self).inv(),
            final(self)@ == spec_add(old(self)@, id, amount as int),
    {
        let na: i128 = self.available.units + amount;
        let nt: i128 = self.total.units + amount;
        if !self.locked && 0 <= na && na <= UNITS_LIMIT && 0 <= nt && nt <= UNITS_LIMIT {
            self.available = make_fixed(na);
            self.total = make_fixed(nt);
            table_set(&mut self.transactions, id, amount);
        }
        proof {
            lemma_add_wf(old(self)@, id, amount as int);
        }
    }

    /// Credits `amount` if it is non-negative, the account is unlocked and
    /// the new balances stay in range; otherwise a no-op.
    pub fn deposit(&mut self, id: u32, amount: i128)
        requires
            old(self).inv(),
            -MAX_AMOUNT_UNITS <= amount <= MAX_AMOUNT_UNITS,
        ensures
            final(self).inv(),
            final(self)@ == spec_deposit(old(self)@, id, amount as int),
    {
        if amount >= 0 {
            self.add(id, amount);
        }
    }

    /// Debits `amount` if it is non-negative, the account is unlocked and
    /// neither `available` nor `total` would go negative; otherwise a
    /// no-op.
    pub fn withdraw(&mut self, id: u32, amount: i128)
        requires
            old(self).inv(),
            -MAX_AMOUNT_UNITS <= amount <= MAX_AMOUNT_UNITS,
        ensures
            final(self).inv(),
            final(self)@ == spec_withdrawal(old(self)@, id, amount as int),
    {
        if amount >= 0 {
            self.add(id, -amount);
        }
    }

    /// Opens a dispute on a recorded transaction, freezing its amount.
    pub fn dispute(&mut self, id: u32)
        requires
            old(self).inv(),
        ensures
            final(self).inv(),
            final(self)@ == spec_dispute(old(self)@, id),
    {
        let found: Option<i128> = table_get(&self.transactions, id);
        match found {
            Option::Some(x) => {
                proof {
                    assert(old(self)@.history.contains_key(id));
                    assert(-(MAX_AMOUNT_UNITS as int) <= old(self)@.history[id]
                        <= MAX_AMOUNT_UNITS as int);
                }
                if !table_contains(&self.disputes, id) {
                    let na: i128 = self.available.units - x;
                    let nh: i128 = self.held.units + x;
                    if -UNITS_LIMIT <= na && na <= UNITS_LIMIT && -UNITS_LIMIT <= nh && nh
                        <= UNITS_LIMIT {
                        self.available = make_fixed(na);
                        self.held = make_fixed(nh);
                        table_set(&mut self.disputes, id, x);
                    }
                }
            }
            Option::None => {}
        }
        proof {
            lemma_dispute_wf(old(self)@, id);
        }
    }

    /// Dismisses an open dispute, releasing the frozen amount.
    pub fn resolve(&mut self, id: u32)
        requires
            old(self).inv(),
        ensures
            final(self).inv(),
            final(self)@ == spec_resolve(old(self)@, id),
    {
        let found: Option<i128> = table_get(&self.disputes, id);
        match found {
            Option::Some(x) => {
                proof {
                    assert(old(self)@.disputes.contains_key(id));
                    assert(-(MAX_AMOUNT_UNITS as int) <= old(self)@.disputes[id]
                        <= MAX_AMOUNT_UNITS as int);
                }
                let na: i128 = self.available.units + x;
                let nh: i128 = self.held.units - x;
                if -UNITS_LIMIT <= na && na <= UNITS_LIMIT && -UNITS_LIMIT <= nh && nh
                    <= UNITS_LIMIT {
                    self.available = make_fixed(na);
                    self.held = make_fixed(nh);
                    table_remove(&mut self.disputes, id);
                }
            }
            Option::None => {}
        }
        proof {
            lemma_resolve_wf(old(self)@, id);
        }
    }

    /// Upholds an open dispute: the amount leaves `held` and `total` for
    /// good and the account is locked.
    pub fn chargeback(&mut self, id: u32)
        requires
            old(self).inv(),
        ensures
            final(self).inv(),
            final(self)@ == spec_chargeback(old(self)@, id),
    {
        let found: Option<i128> = table_get(&self.disputes, id);
        match found {
            Option::Some(x) => {
                proof {
                    assert(old(self)@.disputes.contains_key(id));
                    assert(-(MAX_AMOUNT_UNITS as int) <= old(self)@.disputes[id]
                        <= MAX_AMOUNT_UNITS as int);
                }
                let nh: i128 = self.held.units - x;
                let nt: i128 = self.total.units - x;
                if -UNITS_LIMIT <= nh && nh <= UNITS_LIMIT && -UNITS_LIMIT <= nt && nt
                    <= UNITS_LIMIT {
                    self.held = make_fixed(nh);
                    self.total = make_fixed(nt);
                    self.locked = true;
                    table_remove(&mut self.disputes, id);
                }
            }
            Option::None => {}
        }
        proof {
            lemma_chargeback_wf(old(self)@, id);
        }
    }

    /// Routes an event to the matching handler.
    pub fn apply_event(&mut self, ev: Event)
        requires
            old(self).inv(),
            event_wf(ev),
        ensures
            final(self).inv(),
            final(self)@ == spec_apply_event(old(self)@, ev),
    {
        match ev {
            Event::Deposit { tx, amount, .. } => self.deposit(tx, amount),
            Event::Withdrawal { tx, amount, .. } => self.withdraw(tx, amount),
            Event::Dispute { tx, .. } => self.dispute(tx),
            Event::Resolve { tx, .. } => self.resolve(tx),
            Event::Chargeback { tx, .. } => self.chargeback(tx),
        }
    }
}

} // verus!
