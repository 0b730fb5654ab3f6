//! The reorg protocol: how far the driver goes back through its history
//! when L1 has reorganised.

use crate::driver::{driver_at, StateDriver};
use crate::tables::GlobalStateHistory;
use crate::types::{EthHash, GlobalStateRecord};
use vstd::prelude::*;

verus! {

/// How many records of the history stay after a reorg: all up to the
/// newest one that is still canonical.
pub open spec fn reorg_point(
    history: Seq<GlobalStateRecord>,
    canonical: spec_fn(GlobalStateRecord) -> bool,
) -> nat
    decreases history.len(),
{
    if history.len() == 0 {
        0
    } else if canonical(history.last()) {
        history.len()
    } else {
        reorg_point(history.drop_last(), canonical)
    }
}

/// The history after the reorg protocol has run.
pub open spec fn reorganised(
    history: Seq<GlobalStateRecord>,
    canonical: spec_fn(GlobalStateRecord) -> bool,
) -> Seq<GlobalStateRecord> {
    history.take(reorg_point(history, canonical) as int)
}

/// The reorg point lies within the history, and the record before it, if
/// there is one, is canonical.
pub proof fn lemma_reorg_point(
    history: Seq<GlobalStateRecord>,
    canonical: spec_fn(GlobalStateRecord) -> bool,
)
    ensures
        reorg_point(history, canonical) <= history.len(),
        reorg_point(history, canonical) > 0 ==> canonical(
            history[reorg_point(history, canonical) - 1],
        ),
    decreases history.len(),
{
    if history.len() > 0 && !canonical(history.last()) {
        lemma_reorg_point(history.drop_last(), canonical);
    }
}

/// The reorg protocol is idempotent: run again on its own result, against
/// the same L1 history, it deletes nothing.
pub proof fn lemma_reorg_idempotent(
    history: Seq<GlobalStateRecord>,
    canonical: spec_fn(GlobalStateRecord) -> bool,
)
    ensures
        reorganised(reorganised(history, canonical), canonical) == reorganised(history, canonical),
        driver_at(reorganised(reorganised(history, canonical), canonical)) == driver_at(
            reorganised(history, canonical),
        ),
{
    lemma_reorg_point(history, canonical);
    let kept = reorganised(history, canonical);
    if kept.len() > 0 {
        assert(kept.last() == history[reorg_point(history, canonical) - 1]);
    }
    assert(kept.take(kept.len() as int) =~= kept);
}

/// Whether a record is still canonical, given the hash that L1 now reports
/// for the L1 block that the record came from.
pub open spec fn still_canonical(record: GlobalStateRecord, reported: Option<EthHash>) -> bool {
    reported == Some(record.origin.block_hash)
}

/// The walk back through the history: the records before `remaining` have
/// not been examined, those from it on are not canonical.
#[derive(Clone, Copy, Debug, PartialEq, Eq, Structural)]
pub struct ReorgWalk {
    pub remaining: usize,
}

/// Where the walk stands after an answer from L1.
#[derive(Clone, Copy, Debug, PartialEq, Eq, Structural)]
pub enum ReorgStep {
    /// Ask L1 about the next older record.
    Continue(ReorgWalk),
    /// Keep this many records and delete the rest.
    Keep(usize),
}

impl ReorgWalk {
    /// The walk starts at the newest record.
    pub fn begin(history: &GlobalStateHistory) -> (walk: ReorgWalk)
        ensures
            walk.remaining == history@.len(),
    {
        ReorgWalk { remaining: history.len() }
    }

    /// The record to ask L1 about: the newest one not yet examined; `None`
    /// when every record has been examined.
    pub fn query(&self, history: &GlobalStateHistory) -> (record: Option<GlobalStateRecord>)
        ensures
            record == if 0 < self.remaining <= history@.len() {
                Some(history@[self.remaining - 1])
            } else {
                None
            },
    {
        if self.remaining == 0 {
            None
        } else {
            history.record(self.remaining - 1)
        }
    }

    /// Takes the hash that L1 now reports for the L1 block of the record
    /// that `query` gave, `None` if it has no such block. The walk ends at
    /// the first record that is still canonical, or when none is left.
    pub fn answer(self, history: &GlobalStateHistory, reported: Option<EthHash>) -> (step:
        ReorgStep)
        ensures
            step == if self.remaining == 0 || self.remaining > history@.len() {
                ReorgStep::Keep(0)
            } else if still_canonical(history@[self.remaining - 1], reported) {
                ReorgStep::Keep(self.remaining)
            } else {
                ReorgStep::Continue(ReorgWalk { remaining: (self.remaining - 1) as usize })
            },
            forall|canonical: spec_fn(GlobalStateRecord) -> bool|
                0 < self.remaining <= history@.len() && canonical(history@[self.remaining - 1])
                    == still_canonical(history@[self.remaining - 1], reported) ==> #[trigger] reorg_point(
                    history@.take(self.remaining as int),
                    canonical,
                ) == match step {
                    ReorgStep::Keep(kept) => kept as nat,
                    ReorgStep::Continue(walk) => reorg_point(
                        history@.take(walk.remaining as int),
                        canonical,
                    ),
                },
    {
        let record: GlobalStateRecord = match self.query(history) {
            Some(record) => record,
            None => {
                return ReorgStep::Keep(0);
            },
        };
        proof {
            let examined = history@.take(self.remaining as int);
            assert(examined.last() == history@[self.remaining - 1]);
            assert(examined.drop_last() =~= history@.take(self.remaining - 1));
        }
        match reported {
            Some(hash) => {
                if hash == record.origin.block_hash {
                    ReorgStep::Keep(self.remaining)
                } else {
                    ReorgStep::Continue(ReorgWalk { remaining: self.remaining - 1 })
                }
            },
            None => ReorgStep::Continue(ReorgWalk { remaining: self.remaining - 1 }),
        }
    }
}

impl StateDriver {
    /// Ends the reorg protocol: deletes every record of the history after
    /// the first `keep` and starts the driver again from what is left.
    pub fn rewind(&mut self, history: &mut GlobalStateHistory, keep: usize)
        ensures
            final(history)@ == if keep <= old(history)@.len() {
                old(history)@.take(keep as int)
            } else {
                old(history)@
            },
            *final(self) == driver_at(final(history)@),
    {
        history.rewind(keep);
        let fresh: StateDriver = StateDriver::new(history);
        self.global_root = fresh.global_root;
        self.cursor = fresh.cursor;
    }
}

} // verus!
