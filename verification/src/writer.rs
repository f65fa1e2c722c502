//! Rendering the final snapshot.
//!
//! The snapshot holds one row per account that has at least one applied
//! deposit or withdrawal, in increasing client order: the client, the
//! three balances, and whether the account is locked. A header line
//! comes first — but only when at least one row follows; with no rows
//! the snapshot is empty.

use vstd::prelude::*;
use crate::account::{Account, AccountModel};
use crate::engine::PaymentsEngine;
use crate::fixed::{spec_digits, spec_fmt_fixed, push_fixed, push_number};
use crate::table::lemma_map_of_get;

verus! {

/// The header line.
pub open spec fn spec_header() -> Seq<u8> {
    seq![99u8, 108u8, 105u8, 101u8, 110u8, 116u8, 44u8, 97u8, 118u8, 97u8, 105u8, 108u8, 97u8, 98u8, 108u8, 101u8, 44u8, 104u8, 101u8, 108u8, 100u8, 44u8, 116u8, 111u8, 116u8, 97u8, 108u8, 44u8, 108u8, 111u8, 99u8, 107u8, 101u8, 100u8, 10u8]
}

/// The rendering of a truth value.
pub open spec fn spec_bool_text(b: bool) -> Seq<u8> {
    if b {
        seq![116u8, 114u8, 117u8, 101u8]
    } else {
        seq![102u8, 97u8, 108u8, 115u8, 101u8]
    }
}

/// One snapshot row: client, available, held, total, locked.
pub open spec fn spec_row(a: AccountModel) -> Seq<u8> {
    spec_digits(a.client as nat) + seq![44u8] + spec_fmt_fixed(a.available) + seq![44u8]
        + spec_fmt_fixed(a.held) + seq![44u8] + spec_fmt_fixed(a.total) + seq![44u8]
        + spec_bool_text(a.locked) + seq![10u8]
}

/// The rows of the accounts in order; an account with an empty history
/// — no applied deposit or withdrawal — is left out.
pub open spec fn spec_rows(l: Seq<AccountModel>) -> Seq<u8>
    decreases l.len(),
{
    if l.len() == 0 {
        Seq::empty()
    } else {
        (if l[0].history != Map::<u32, int>::empty() {
            spec_row(l[0])
        } else {
            Seq::empty()
        }) + spec_rows(l.skip(1))
    }
}

/// The whole snapshot: nothing at all when no account qualifies, else
/// the header and the rows.
pub open spec fn spec_snapshot(l: Seq<AccountModel>) -> Seq<u8> {
    if spec_rows(l).len() == 0 {
        Seq::empty()
    } else {
        spec_header() + spec_rows(l)
    }
}

proof fn lemma_rows_push(l: Seq<AccountModel>, x: AccountModel)
    ensures
        spec_rows(l.push(x)) == spec_rows(l) + (if x.history != Map::<u32, int>::empty() {
            spec_row(x)
        } else {
            Seq::<u8>::empty()
        }),
    decreases l.len(),
{
    let piece: Seq<u8> = if x.history != Map::<u32, int>::empty() {
        spec_row(x)
    } else {
        Seq::empty()
    };
    if l.len() == 0 {
        assert(l.push(x)[0] == x);
        assert(l.push(x).skip(1) =~= Seq::<AccountModel>::empty());
        assert(spec_rows(l.push(x).skip(1)) == Seq::<u8>::empty());
        assert(spec_rows(l.push(x)) == piece + Seq::<u8>::empty());
        assert(piece + Seq::<u8>::empty() =~= Seq::<u8>::empty() + piece);
    } else {
        assert(l.push(x)[0] == l[0]);
        assert(l.push(x).skip(1) =~= l.skip(1).push(x));
        lemma_rows_push(l.skip(1), x);
        let head: Seq<u8> = if l[0].history != Map::<u32, int>::empty() {
            spec_row(l[0])
        } else {
            Seq::empty()
        };
        assert(spec_rows(l.push(x)) == head + (spec_rows(l.skip(1)) + piece));
        assert(head + (spec_rows(l.skip(1)) + piece) =~= (head + spec_rows(l.skip(1))) + piece);
    }
}

fn push_bool(out: &mut Vec<u8>, b: bool)
    ensures
        final(out)@ == old(out)@ + spec_bool_text(b),
{
    if b {
        out.push(116);
        out.push(114);
        out.push(117);
        out.push(101);
    } else {
        out.push(102);
        out.push(97);
        out.push(108);
        out.push(115);
        out.push(101);
    }
    proof {
        assert(out@ =~= old(out)@ + spec_bool_text(b));
    }
}

fn push_header(out: &mut Vec<u8>)
    ensures
        final(out)@ == old(out)@ + spec_header(),
{
    out.push(99);
    out.push(108);
    out.push(105);
    out.push(101);
    out.push(110);
    out.push(116);
    out.push(44);
    out.push(97);
    out.push(118);
    out.push(97);
    out.push(105);
    out.push(108);
    out.push(97);
    out.push(98);
    out.push(108);
    out.push(101);
    out.push(44);
    out.push(104);
    out.push(101);
    out.push(108);
    out.push(100);
    out.push(44);
    out.push(116);
    out.push(111);
    out.push(116);
    out.push(97);
    out.push(108);
    out.push(44);
    out.push(108);
    out.push(111);
    out.push(99);
    out.push(107);
    out.push(101);
    out.push(100);
    out.push(10);
    proof {
        assert(out@ =~= old(out)@ + spec_header());
    }
}

/// Appends one account's row.
fn push_row(out: &mut Vec<u8>, a: &Account)
    requires
        a.inv(),
    ensures
        final(out)@ == old(out)@ + spec_row(a@),
{
    push_number(out, a.client_id as u128);
    out.push(44);
    push_fixed(out, a.available);
    out.push(44);
    push_fixed(out, a.held);
    out.push(44);
    push_fixed(out, a.total);
    out.push(44);
    push_bool(out, a.locked);
    out.push(10);
    proof {
        assert(out@ =~= old(out)@ + spec_row(a@));
    }
}

impl PaymentsEngine {
    /// Renders the final snapshot of the ledger and appends it to `out`.
    #[verifier::loop_isolation(false)]
    pub fn write_snapshot(&self, out: &mut Vec<u8>)
        requires
            self.inv(),
        ensures
            final(out)@ == old(out)@ + spec_snapshot(self@),
    {
        let ghost l: Seq<AccountModel> = self@;
        let mut rows: Vec<u8> = Vec::new();
        let n: usize = self.accounts.len();
        let mut i: usize = 0;
        proof {
            assert(l.take(0) =~= Seq::<AccountModel>::empty());
        }
        while i < n
            invariant
                i <= n,
                rows@ == spec_rows(l.take(i as int)),
            decreases n - i,
        {
            proof {
                assert(self.accounts@[i as int].inv());
                assert(l[i as int] == self.accounts@[i as int]@);
                assert(l.take(i as int + 1) =~= l.take(i as int).push(l[i as int]));
                lemma_rows_push(l.take(i as int), l[i as int]);
            }
            let has_rows: bool = self.accounts[i].transactions.len() > 0;
            if has_rows {
                proof {
                    lemma_map_of_get(self.accounts@[i as int].transactions@, 0);
                    assert(l[i as int].history.contains_key(
                        self.accounts@[i as int].transactions@[0].0,
                    ));
                    assert(l[i as int].history != Map::<u32, int>::empty());
                }
                push_row(&mut rows, &self.accounts[i]);
            } else {
                proof {
                    assert(self.accounts@[i as int].transactions@.len() == 0);
                    assert(l[i as int].history =~= Map::<u32, int>::empty());
                    assert(rows@ + Seq::<u8>::empty() =~= rows@);
                }
            }
            i = i + 1;
        }
        proof {
            assert(l.take(n as int) =~= l);
        }
        if rows.len() > 0 {
            push_header(out);
            out.append(&mut rows);
        }
    }
}

} // verus!
