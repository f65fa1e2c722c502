//! A small payments ledger: it ingests an ordered stream of financial
//! events (deposit, withdrawal, dispute, resolve, chargeback) presented
//! as comma-separated records, folds them into per-client account
//! balances, and renders a final snapshot of every account that saw an
//! applied deposit or withdrawal.

use vstd::prelude::*;

pub mod account;
pub mod engine;
pub mod event;
pub mod fixed;
pub mod reader;
pub mod table;
pub mod writer;

verus! {

use crate::engine::{PaymentsEngine, lemma_engine_run_push, spec_engine_run};
use crate::event::{Event, ParseError, event_wf};
use crate::reader::{parse_events, spec_parse};
use crate::writer::spec_snapshot;

/// What a whole run produces from a whole input: the events the records
/// denote, folded in order over an empty ledger, rendered as the final
/// snapshot — or the error of the first unreadable record.
pub open spec fn spec_run(s: Seq<u8>) -> Result<Seq<u8>, ParseError> {
    match spec_parse(s) {
        Result::Err(e) => Result::Err(e),
        Result::Ok(evs) => Result::Ok(
            spec_snapshot(spec_engine_run(Seq::empty(), evs)),
        ),
    }
}

/// Reads the event records in `input`, applies them in order to an
/// empty ledger, and appends the final snapshot to `output`. On an
/// unreadable record nothing is appended and the error names its line.
#[verifier::loop_isolation(false)]
pub fn run(input: &[u8], output: &mut Vec<u8>) -> (r: Result<(), ParseError>)
    ensures
        match spec_run(input@) {
            Result::Ok(out) => r == Result::<(), ParseError>::Ok(()) && final(output)@ == old(
                output,
            )@ + out,
            Result::Err(e) => r == Result::<(), ParseError>::Err(e) && final(output)@ == old(
                output,
            )@,
        },
{
    let events: Vec<Event> = match parse_events(input) {
        Result::Ok(evs) => evs,
        Result::Err(e) => {
            return Result::Err(e);
        },
    };
    let mut engine: PaymentsEngine = PaymentsEngine::new();
    let m: usize = events.len();
    let mut i: usize = 0;
    proof {
        assert(events@.take(0) =~= Seq::<Event>::empty());
    }
    while i < m
        invariant
            i <= m,
            engine.inv(),
            engine@ == spec_engine_run(Seq::empty(), events@.take(i as int)),
        decreases m - i,
    {
        proof {
            assert(event_wf(events@[i as int]));
            assert(events@.take(i as int + 1) =~= events@.take(i as int).push(events@[i as int]));
            lemma_engine_run_push(Seq::empty(), events@.take(i as int), events@[i as int]);
        }
        engine.process_transaction(events[i]);
        i = i + 1;
    }
    proof {
        assert(events@.take(m as int) =~= events@);
    }
    engine.write_snapshot(output);
    Result::Ok(())
}

/// Law: replaying an identical finished event stream from the empty
/// ledger yields the identical snapshot. A run is a function of the
/// input bytes alone — no state survives between runs and nothing else
/// flows in — so two runs over equal inputs agree exactly.
pub proof fn lemma_replay_is_identical(s1: Seq<u8>, s2: Seq<u8>)
    requires
        s1 == s2,
    ensures
        spec_run(s1) == spec_run(s2),
{
}

} // verus!
