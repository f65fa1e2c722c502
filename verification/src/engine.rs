//! The ledger: it owns every account and routes each event to the account
//! of its client, creating the account on first reference.
//!
//! Accounts are kept sorted by client identifier, so the final snapshot
//! is rendered in a reproducible order.

use vstd::prelude::*;
use crate::account::{Account, AccountModel, lemma_apply_event_client, spec_apply_event, spec_new_account};
use crate::event::{Event, event_client, event_wf};

verus! {

/// Index of the account of client `c`, or `-1` if there is none yet.
pub open spec fn spec_find_idx(l: Seq<AccountModel>, c: u16) -> int
    decreases l.len(),
{
    if l.len() == 0 {
        -1
    } else if l[0].client == c {
        0
    } else {
        let r: int = spec_find_idx(l.skip(1), c);
        if r == -1 {
            -1
        } else {
            r + 1
        }
    }
}

/// Where a fresh account for client `c` is placed: before the first
/// account whose client is not smaller.
pub open spec fn spec_insert_pos(l: Seq<AccountModel>, c: u16) -> int
    decreases l.len(),
{
    if l.len() == 0 {
        0
    } else if l[0].client >= c {
        0
    } else {
        1 + spec_insert_pos(l.skip(1), c)
    }
}

/// One step of the ledger: route the event to the account of its client,
/// creating a zero account first if the client is new.
pub open spec fn spec_engine_apply(l: Seq<AccountModel>, ev: Event) -> Seq<AccountModel> {
    let c = event_client(ev);
    let i: int = spec_find_idx(l, c);
    if i >= 0 {
        l.update(i, spec_apply_event(l[i], ev))
    } else {
        l.insert(spec_insert_pos(l, c), spec_apply_event(spec_new_account(c), ev))
    }
}

/// The ledger after folding a whole event stream over a starting state.
pub open spec fn spec_engine_run(l: Seq<AccountModel>, evs: Seq<Event>) -> Seq<AccountModel>
    decreases evs.len(),
{
    if evs.len() == 0 {
        l
    } else {
        spec_engine_run(spec_engine_apply(l, evs[0]), evs.skip(1))
    }
}

pub proof fn lemma_engine_run_push(l: Seq<AccountModel>, evs: Seq<Event>, ev: Event)
    ensures
        spec_engine_run(l, evs.push(ev)) == spec_engine_apply(spec_engine_run(l, evs), ev),
    decreases evs.len(),
{
    if evs.len() == 0 {
        assert(evs.push(ev)[0] == ev);
        assert(evs.push(ev).skip(1) =~= Seq::<Event>::empty());
        assert(spec_engine_run(l, evs.push(ev)) == spec_engine_run(
            spec_engine_apply(l, ev),
            Seq::<Event>::empty(),
        ));
        assert(spec_engine_run(l, evs) == l);
    } else {
        assert(evs.push(ev)[0] == evs[0]);
        assert(evs.push(ev).skip(1) =~= evs.skip(1).push(ev));
        lemma_engine_run_push(spec_engine_apply(l, evs[0]), evs.skip(1), ev);
        assert(spec_engine_run(l, evs.push(ev)) == spec_engine_run(
            spec_engine_apply(l, evs[0]),
            evs.skip(1).push(ev),
        ));
        assert(spec_engine_run(l, evs) == spec_engine_run(spec_engine_apply(l, evs[0]), evs.skip(1)));
    }
}

proof fn lemma_find_idx_from(l: Seq<AccountModel>, c: u16, i: int)
    requires
        0 <= i <= l.len(),
        forall|j: int| 0 <= j < i ==> (#[trigger] l[j]).client != c,
    ensures
        spec_find_idx(l, c) == (if spec_find_idx(l.skip(i), c) == -1 {
            -1int
        } else {
            i + spec_find_idx(l.skip(i), c)
        }),
    decreases i,
{
    if i == 0 {
        assert(l.skip(0) =~= l);
    } else {
        assert(l.skip(i - 1)[0] == l[i - 1]);
        assert(l[i - 1].client != c);
        assert(l.skip(i - 1).skip(1) =~= l.skip(i));
        lemma_find_idx_from(l, c, i - 1);
        lemma_find_idx_props(l.skip(i), c);
        assert(spec_find_idx(l.skip(i - 1), c) == (if spec_find_idx(l.skip(i), c) == -1 {
            -1int
        } else {
            1 + spec_find_idx(l.skip(i), c)
        }));
    }
}

proof fn lemma_insert_pos_from(l: Seq<AccountModel>, c: u16, i: int)
    requires
        0 <= i <= l.len(),
        forall|j: int| 0 <= j < i ==> (#[trigger] l[j]).client < c,
    ensures
        spec_insert_pos(l, c) == i + spec_insert_pos(l.skip(i), c),
    decreases i,
{
    if i == 0 {
        assert(l.skip(0) =~= l);
    } else {
        assert(l.skip(i - 1)[0] == l[i - 1]);
        assert(l[i - 1].client < c);
        assert(l.skip(i - 1).skip(1) =~= l.skip(i));
        lemma_insert_pos_from(l, c, i - 1);
        assert(spec_insert_pos(l.skip(i - 1), c) == 1 + spec_insert_pos(l.skip(i), c));
    }
}

/// The account the ledger holds for client `c`, if any.
pub open spec fn spec_client_account(l: Seq<AccountModel>, c: u16) -> Option<AccountModel> {
    let i: int = spec_find_idx(l, c);
    if i >= 0 {
        Option::Some(l[i])
    } else {
        Option::None
    }
}

pub proof fn lemma_find_idx_props(l: Seq<AccountModel>, c: u16)
    ensures
        spec_find_idx(l, c) == -1 || (0 <= spec_find_idx(l, c) < l.len() && l[spec_find_idx(
            l,
            c,
        )].client == c),
    decreases l.len(),
{
    if l.len() > 0 && l[0].client != c {
        lemma_find_idx_props(l.skip(1), c);
    }
}

proof fn lemma_client_account_update_other(l: Seq<AccountModel>, j: int, x: AccountModel, c: u16)
    requires
        0 <= j < l.len(),
        x.client != c,
        l[j].client != c,
    ensures
        spec_client_account(l.update(j, x), c) == spec_client_account(l, c),
    decreases l.len(),
{
    let t = l.update(j, x);
    if j == 0 {
        assert(t[0] == x);
        assert(t.skip(1) =~= l.skip(1));
        lemma_find_idx_props(l.skip(1), c);
    } else {
        assert(t[0] == l[0]);
        if l[0].client != c {
            assert(t.skip(1) =~= l.skip(1).update(j - 1, x));
            assert(l.skip(1)[j - 1] == l[j]);
            lemma_client_account_update_other(l.skip(1), j - 1, x, c);
            lemma_find_idx_props(l.skip(1), c);
            lemma_find_idx_props(l.skip(1).update(j - 1, x), c);
        }
    }
}

proof fn lemma_client_account_insert_other(l: Seq<AccountModel>, pos: int, x: AccountModel, c: u16)
    requires
        0 <= pos <= l.len(),
        x.client != c,
    ensures
        spec_client_account(l.insert(pos, x), c) == spec_client_account(l, c),
    decreases l.len(),
{
    let t = l.insert(pos, x);
    if pos == 0 {
        assert(t[0] == x);
        assert(t.skip(1) =~= l);
        lemma_find_idx_props(l, c);
    } else {
        assert(t[0] == l[0]);
        if l[0].client != c {
            assert(t.skip(1) =~= l.skip(1).insert(pos - 1, x));
            lemma_client_account_insert_other(l.skip(1), pos - 1, x, c);
            lemma_find_idx_props(l.skip(1), c);
            lemma_find_idx_props(l.skip(1).insert(pos - 1, x), c);
        }
    }
}

/// Law: an event never affects another client's account. After applying
/// an event, the ledger holds for every other client exactly what it held
/// before — the same account state, or still none.
pub proof fn lemma_other_clients_unaffected(l: Seq<AccountModel>, ev: Event, c: u16)
    requires
        c != event_client(ev),
    ensures
        spec_client_account(spec_engine_apply(l, ev), c) == spec_client_account(l, c),
{
    let tc = event_client(ev);
    let i: int = spec_find_idx(l, tc);
    lemma_find_idx_props(l, tc);
    if i >= 0 {
        assert(spec_apply_event(l[i], ev).client == tc);
        lemma_client_account_update_other(l, i, spec_apply_event(l[i], ev), c);
    } else {
        let pos: int = spec_insert_pos(l, tc);
        lemma_insert_pos_bounds(l, tc);
        assert(spec_apply_event(spec_new_account(tc), ev).client == tc);
        lemma_client_account_insert_other(l, pos, spec_apply_event(spec_new_account(tc), ev), c);
    }
}

pub proof fn lemma_insert_pos_bounds(l: Seq<AccountModel>, c: u16)
    ensures
        0 <= spec_insert_pos(l, c) <= l.len(),
    decreases l.len(),
{
    if l.len() > 0 && l[0].client < c {
        lemma_insert_pos_bounds(l.skip(1), c);
    }
}

/// Law: in a well-formed ledger every account satisfies the balance
/// equation: `total == available + held`, at every point in time — the
/// ledger's invariant holds before and after every event.
pub proof fn lemma_every_account_balanced(e: PaymentsEngine)
    requires
        e.inv(),
    ensures
        forall|i: int|
            0 <= i < e@.len() ==> (#[trigger] e@[i]).total.units == e@[i].available.units
                + e@[i].held.units,
{
    assert forall|i: int| 0 <= i < e@.len() implies (#[trigger] e@[i]).total.units
        == e@[i].available.units + e@[i].held.units by {
        assert(e.accounts@[i].inv());
        assert(e@[i] == e.accounts@[i]@);
    }
}

/// The ledger. It owns all accounts, sorted by client identifier.
pub struct PaymentsEngine {
    pub accounts: Vec<Account>,
}

impl View for PaymentsEngine {
    type V = Seq<AccountModel>;

    open spec fn view(&self) -> Seq<AccountModel> {
        self.accounts@.map_values(|a: Account| a@)
    }
}

impl PaymentsEngine {
    /// The representation invariant: every account is internally
    /// consistent and client identifiers are strictly increasing.
    pub open spec fn inv(&self) -> bool {
        &&& forall|i: int|
            0 <= i < self.accounts@.len() ==> (#[trigger] self.accounts@[i]).inv()
        &&& forall|i: int, j: int|
            0 <= i < j < self.accounts@.len() ==> (#[trigger] self.accounts@[i]).client_id
                < (#[trigger] self.accounts@[j]).client_id
    }

    /// An empty ledger.
    pub fn new() -> (r: PaymentsEngine)
        ensures
            r.inv(),
            r@ == Seq::<AccountModel>::empty(),
    {
        let r = PaymentsEngine { accounts: Vec::new() };
        proof {
            assert(r@ =~= Seq::<AccountModel>::empty());
        }
        r
    }

    /// Applies the event to the existing account at index `i`.
    #[verifier::rlimit(60)]
    fn apply_at(&mut self, i: usize, ev: Event)
        requires
            old(self).inv(),
            event_wf(ev),
            i < old(self).accounts@.len(),
            old(self).accounts@[i as int].client_id == event_client(ev),
        ensures
            final(self).inv(),
            final(self)@ == old(self)@.update(
                i as int,
                spec_apply_event(old(self)@[i as int], ev),
            ),
    {
        let ghost l0: Seq<AccountModel> = self@;
        proof {
            assert(old(self).accounts@[i as int].inv());
            assert(l0[i as int] == old(self).accounts@[i as int]@);
        }
        let mut a: Account = self.accounts.remove(i);
        proof {
            assert(a.inv());
            assert(a@ == l0[i as int]);
        }
        a.apply_event(ev);
        self.accounts.insert(i, a);
        proof {
            let v = old(self).accounts@;
            assert(self.accounts@ =~= v.update(i as int, a));
            assert(a@ == spec_apply_event(l0[i as int], ev));
            lemma_apply_event_client(l0[i as int], ev);
            assert(a.client_id == a@.client);
            assert(self@ =~= l0.update(i as int, a@));
            assert forall|p: int| 0 <= p < self.accounts@.len()
                implies (#[trigger] self.accounts@[p]).inv() by {
                if p != i as int {
                    assert(self.accounts@[p] == v[p]);
                    assert(v[p].inv());
                }
            }
            assert forall|p: int, q: int| 0 <= p < q < self.accounts@.len()
                implies (#[trigger] self.accounts@[p]).client_id
                < (#[trigger] self.accounts@[q]).client_id by {
                assert(v[p].client_id < v[q].client_id);
                assert(self.accounts@[p] == (if p == i as int { a } else { v[p] }));
                assert(self.accounts@[q] == (if q == i as int { a } else { v[q] }));
            }
        }
    }

    /// Creates a fresh account for client `c` at slot `pos`, keeping the
    /// order, and applies the event to it.
    #[verifier::rlimit(60)]
    fn create_at(&mut self, pos: usize, c: u16, ev: Event)
        requires
            old(self).inv(),
            event_wf(ev),
            event_client(ev) == c,
            pos <= old(self).accounts@.len(),
            forall|j: int|
                0 <= j < old(self).accounts@.len() ==> (#[trigger] old(
                    self,
                ).accounts@[j]).client_id != c,
            forall|j: int| 0 <= j < pos ==> (#[trigger] old(self).accounts@[j]).client_id < c,
            pos < old(self).accounts@.len() ==> old(self).accounts@[pos as int].client_id >= c,
        ensures
            final(self).inv(),
            final(self)@ == old(self)@.insert(
                pos as int,
                spec_apply_event(spec_new_account(c), ev),
            ),
    {
        let ghost l0: Seq<AccountModel> = self@;
        let mut a: Account = Account::new(c);
        a.apply_event(ev);
        self.accounts.insert(pos, a);
        proof {
            let v = old(self).accounts@;
            let n: int = v.len() as int;
            let pi: int = pos as int;
            assert(self.accounts@ =~= v.insert(pi, a));
            assert(a@ == spec_apply_event(spec_new_account(c), ev));
            lemma_apply_event_client(spec_new_account(c), ev);
            assert(a.client_id == a@.client);
            assert(a.client_id == c);
            assert(self@ =~= l0.insert(pi, a@));
            assert forall|p: int| 0 <= p < self.accounts@.len()
                implies (#[trigger] self.accounts@[p]).inv() by {
                if p < pi {
                    assert(self.accounts@[p] == v[p]);
                    assert(v[p].inv());
                } else if p > pi {
                    assert(self.accounts@[p] == v[p - 1]);
                    assert(v[p - 1].inv());
                }
            }
            assert forall|p: int, q: int| 0 <= p < q < self.accounts@.len()
                implies (#[trigger] self.accounts@[p]).client_id
                < (#[trigger] self.accounts@[q]).client_id by {
                if q < pi {
                    assert(self.accounts@[p] == v[p] && self.accounts@[q] == v[q]);
                    assert(v[p].client_id < v[q].client_id);
                } else if q == pi {
                    assert(self.accounts@[p] == v[p] && self.accounts@[q] == a);
                    assert(v[p].client_id < c);
                } else if p < pi {
                    assert(self.accounts@[p] == v[p] && self.accounts@[q] == v[q - 1]);
                    assert(v[p].client_id < v[q - 1].client_id);
                } else if p == pi {
                    assert(self.accounts@[p] == a && self.accounts@[q] == v[q - 1]);
                    assert(pi <= q - 1 < n);
                    assert(v[q - 1].client_id != c);
                    assert(v[pi].client_id >= c);
                    if pi < q - 1 {
                        assert(v[pi].client_id < v[q - 1].client_id);
                    }
                } else {
                    assert(self.accounts@[p] == v[p - 1] && self.accounts@[q] == v[q - 1]);
                    assert(v[p - 1].client_id < v[q - 1].client_id);
                }
            }
        }
    }

    /// Routes one event to the account of its client, creating the
    /// account first if this client was never seen.
    #[verifier::loop_isolation(false)]
    pub fn process_transaction(&mut self, ev: Event)
        requires
            old(self).inv(),
            event_wf(ev),
        ensures
            final(self).inv(),
            final(self)@ == spec_engine_apply(old(self)@, ev),
    {
        let c: u16 = match ev {
            Event::Deposit { client, .. } => client,
            Event::Withdrawal { client, .. } => client,
            Event::Dispute { client, .. } => client,
            Event::Resolve { client, .. } => client,
            Event::Chargeback { client, .. } => client,
        };
        let n: usize = self.accounts.len();
        let ghost l0: Seq<AccountModel> = self@;
        proof {
            assert(l0.len() == n as int);
        }
        let mut i: usize = 0;
        while i < n
            invariant
                i <= n,
                self == old(self),
                forall|j: int| 0 <= j < i ==> (#[trigger] self.accounts@[j]).client_id != c,
            decreases n - i,
        {
            if self.accounts[i].client_id == c {
                proof {
                    assert forall|j: int| 0 <= j < i implies (#[trigger] l0[j]).client != c by {
                        assert(l0[j] == self.accounts@[j]@);
                    }
                    lemma_find_idx_from(l0, c, i as int);
                    assert(l0.skip(i as int)[0] == l0[i as int]);
                    assert(l0[i as int].client == c);
                    assert(spec_find_idx(l0, c) == i as int);
                }
                self.apply_at(i, ev);
                return ;
            }
            i = i + 1;
        }
        proof {
            assert forall|j: int| 0 <= j < n implies (#[trigger] l0[j]).client != c by {
                assert(l0[j] == self.accounts@[j]@);
            }
            lemma_find_idx_from(l0, c, n as int);
            assert(l0.skip(n as int) =~= Seq::<AccountModel>::empty());
            assert(spec_find_idx(l0, c) == -1);
        }
        let mut pos: usize = 0;
        while pos < n && self.accounts[pos].client_id < c
            invariant
                pos <= n,
                self == old(self),
                forall|j: int| 0 <= j < pos ==> (#[trigger] self.accounts@[j]).client_id < c,
            decreases n - pos,
        {
            pos = pos + 1;
        }
        proof {
            assert forall|j: int| 0 <= j < pos implies (#[trigger] l0[j]).client < c by {
                assert(l0[j] == self.accounts@[j]@);
            }
            lemma_insert_pos_from(l0, c, pos as int);
            if pos < n {
                assert(l0.skip(pos as int)[0] == l0[pos as int]);
            } else {
                assert(l0.skip(pos as int) =~= Seq::<AccountModel>::empty());
            }
            assert(spec_insert_pos(l0, c) == pos as int);
        }
        self.create_at(pos, c, ev);
    }
}

} // verus!
