//! The reconstruction pipeline: from surviving logs to records, one pull
//! at a time.
//!
//! The pipeline is a pull-driven state machine. A driver asks for the
//! next step; the machine either ends the sequence, yields an item it can
//! settle on its own (a log without a transaction reference), or names
//! the transaction it needs. The driver performs that single lookup —
//! the only suspension point — and hands the outcome back; the machine
//! decodes the call and the event, assembles the record, and advances.
//! Every surviving log yields exactly one item, in log order; a failure
//! is confined to its own item and never halts the run.

use crate::account::{Account, AccountView};
use crate::codec::{
    create_split_event_signature, dec_create_split, dec_create_split_event,
    decode_create_split_call, decode_create_split_event, DecodeError,
};
use crate::keccak::keccak256_of;
use crate::types::{copy_bytes, Address, BlockTag, Log, LogView};
use vstd::prelude::*;

verus! {

/// The mathematical value of a per-item failure.
pub ghost enum StreamErrorView {
    MissingTransactionHash,
    TransactionNotFound,
    Transport(Seq<char>),
    CallDecode(DecodeError),
    EventDecode(DecodeError),
}

/// Why one log produced no record: it lacks a transaction reference, the
/// provider knows no such transaction, the lookup itself failed, or one
/// of the two decodes failed.
#[derive(Debug, PartialEq, Eq, Clone)]
pub enum StreamError {
    MissingTransactionHash,
    TransactionNotFound,
    Transport(String),
    CallDecode(DecodeError),
    EventDecode(DecodeError),
}

impl View for StreamError {
    type V = StreamErrorView;

    open spec fn view(&self) -> StreamErrorView {
        match self {
            StreamError::MissingTransactionHash => StreamErrorView::MissingTransactionHash,
            StreamError::TransactionNotFound => StreamErrorView::TransactionNotFound,
            StreamError::Transport(m) => StreamErrorView::Transport(m@),
            StreamError::CallDecode(e) => StreamErrorView::CallDecode(*e),
            StreamError::EventDecode(e) => StreamErrorView::EventDecode(*e),
        }
    }
}

/// The mathematical value of a transaction lookup's outcome.
pub ghost enum FetchOutcomeView {
    Failed(Seq<char>),
    NotFound,
    Found(Seq<u8>),
}

/// What the driver's transaction lookup came back with: a transport
/// failure, no such transaction, or the transaction's input bytes.
#[derive(Debug, PartialEq, Eq, Clone)]
pub enum FetchOutcome {
    Failed(String),
    NotFound,
    Found(Vec<u8>),
}

impl View for FetchOutcome {
    type V = FetchOutcomeView;

    open spec fn view(&self) -> FetchOutcomeView {
        match self {
            FetchOutcome::Failed(m) => FetchOutcomeView::Failed(m@),
            FetchOutcome::NotFound => FetchOutcomeView::NotFound,
            FetchOutcome::Found(b) => FetchOutcomeView::Found(b@),
        }
    }
}

/// The value of one produced item.
pub open spec fn item_view(r: Result<Account, StreamError>) -> Result<
    AccountView,
    StreamErrorView,
> {
    match r {
        Ok(a) => Ok(a@),
        Err(e) => Err(e@),
    }
}

/// What one surviving log yields, as a function of the log and of the
/// outcome of its transaction lookup: one item per log, every failure
/// confined to its own item.
pub open spec fn item_for(
    log: LogView,
    outcome: FetchOutcomeView,
    strict: bool,
) -> Result<AccountView, StreamErrorView> {
    match log.transaction_hash {
        None => Err(StreamErrorView::MissingTransactionHash),
        Some(_) => match outcome {
            FetchOutcomeView::Failed(m) => Err(StreamErrorView::Transport(m)),
            FetchOutcomeView::NotFound => Err(StreamErrorView::TransactionNotFound),
            FetchOutcomeView::Found(input) => match dec_create_split(input, strict) {
                Err(e) => Err(StreamErrorView::CallDecode(e)),
                Ok(call) => match dec_create_split_event(log.topics, log.data, strict) {
                    Err(e) => Err(StreamErrorView::EventDecode(e)),
                    Ok(split) => Ok(
                        AccountView {
                            address: split,
                            accounts: call.accounts,
                            percents_allocation: call.percent_allocations,
                            distributor_fee: call.distributor_fee,
                        },
                    ),
                },
            },
        },
    }
}

/// The logs that survive reorg filtering, in their original order.
pub open spec fn surviving(logs: Seq<Log>) -> Seq<Log>
    decreases logs.len(),
{
    if logs.len() == 0 {
        Seq::empty()
    } else {
        let rest = surviving(logs.drop_last());
        if logs.last().removed {
            rest
        } else {
            rest.push(logs.last())
        }
    }
}

/// How many logs the node flagged as removed.
pub open spec fn count_removed(logs: Seq<Log>) -> nat
    decreases logs.len(),
{
    if logs.len() == 0 {
        0nat
    } else {
        count_removed(logs.drop_last()) + if logs.last().removed {
            1nat
        } else {
            0nat
        }
    }
}

/// The items of one full run: one per surviving log, each a function of
/// its own log and its own lookup outcome.
pub open spec fn pipeline_items(
    logs: Seq<Log>,
    outcomes: Seq<FetchOutcomeView>,
    strict: bool,
) -> Seq<Result<AccountView, StreamErrorView>> {
    Seq::new(logs.len(), |i: int| item_for(logs[i]@, outcomes[i], strict))
}

/// Filtering splits the log count: survivors plus removed logs.
pub proof fn lemma_surviving_count(logs: Seq<Log>)
    ensures
        surviving(logs).len() + count_removed(logs) == logs.len(),
    decreases logs.len(),
{
    if logs.len() > 0 {
        lemma_surviving_count(logs.drop_last());
    }
}

/// For every block range and every run: the number of produced items is
/// the number of logs the provider returned minus those flagged removed.
pub proof fn lemma_item_count(logs: Seq<Log>, outcomes: Seq<FetchOutcomeView>, strict: bool)
    requires
        outcomes.len() == surviving(logs).len(),
    ensures
        pipeline_items(surviving(logs), outcomes, strict).len() + count_removed(logs)
            == logs.len(),
{
    lemma_surviving_count(logs);
}

/// No surviving log is removed.
pub proof fn lemma_surviving_not_removed(logs: Seq<Log>)
    ensures
        forall|i: int| 0 <= i < surviving(logs).len() ==> !(#[trigger] surviving(logs)[i]).removed,
    decreases logs.len(),
{
    if logs.len() > 0 {
        lemma_surviving_not_removed(logs.drop_last());
    }
}

/// A log the node flagged as removed never appears among the survivors,
/// so nothing downstream — item or failure — can derive from it.
pub proof fn lemma_removed_log_absent(logs: Seq<Log>, l: Log)
    requires
        l.removed,
    ensures
        !surviving(logs).contains(l),
{
    lemma_surviving_not_removed(logs);
}

/// Output order is chain order: the i-th item of a run is computed from
/// the i-th surviving log, which the filter kept in the provider's
/// order.
pub proof fn lemma_output_order(
    logs: Seq<Log>,
    outcomes: Seq<FetchOutcomeView>,
    strict: bool,
    i: int,
)
    requires
        outcomes.len() == surviving(logs).len(),
        0 <= i < surviving(logs).len(),
    ensures
        pipeline_items(surviving(logs), outcomes, strict)[i] == item_for(
            surviving(logs)[i]@,
            outcomes[i],
            strict,
        ),
{
}

/// Order is stable: the survivors of the first `n` logs open the
/// survivor sequence of all of them — a later log never reorders
/// earlier output.
pub proof fn lemma_surviving_prefix(logs: Seq<Log>, n: int)
    requires
        0 <= n <= logs.len(),
    ensures
        surviving(logs.take(n)).is_prefix_of(surviving(logs)),
    decreases logs.len() - n,
{
    if n == logs.len() {
        assert(logs.take(n) =~= logs);
        let s = surviving(logs);
        assert(s =~= s.subrange(0, s.len() as int));
    } else {
        lemma_surviving_prefix(logs, n + 1);
        assert(logs.take(n + 1).drop_last() =~= logs.take(n));
        assert(logs.take(n + 1).last() == logs[n]);
        let sn = surviving(logs.take(n));
        let sn1 = surviving(logs.take(n + 1));
        assert(sn.is_prefix_of(sn1)) by {
            if !logs[n].removed {
                assert(sn1 == sn.push(logs[n]));
                assert(sn =~= sn1.subrange(0, sn.len() as int));
            } else {
                assert(sn =~= sn1.subrange(0, sn.len() as int));
            }
        }
        assert(surviving(logs.take(n)) =~= surviving(logs).subrange(
            0,
            surviving(logs.take(n)).len() as int,
        ));
    }
}

/// A transaction the provider does not know yields exactly one failure
/// item for its log, and every other log still yields its own item: the
/// run continues.
pub proof fn lemma_not_found_isolated(
    logs: Seq<Log>,
    outcomes: Seq<FetchOutcomeView>,
    strict: bool,
    i: int,
)
    requires
        outcomes.len() == logs.len(),
        0 <= i < logs.len(),
        logs[i]@.transaction_hash is Some,
        outcomes[i] == FetchOutcomeView::NotFound,
    ensures
        pipeline_items(logs, outcomes, strict)[i] == Err::<AccountView, StreamErrorView>(
            StreamErrorView::TransactionNotFound,
        ),
        pipeline_items(logs, outcomes, strict).len() == logs.len(),
        forall|j: int|
            0 <= j < logs.len() && j != i ==> pipeline_items(logs, outcomes, strict)[j]
                == item_for(logs[j]@, outcomes[j], strict),
{
}


/// Drops every log the node flagged as removed, keeping the rest in
/// their original order. This runs before any log is examined further:
/// a reorg-invalidated log is never seen downstream, even transiently.
pub fn discard_removed(logs: Vec<Log>) -> (kept: Vec<Log>)
    ensures
        kept@ == surviving(logs@),
{
    let ghost orig = logs@;
    let mut rest = logs;
    let mut kept: Vec<Log> = Vec::new();
    let ghost mut taken: int = 0;
    while rest.len() > 0
        invariant
            0 <= taken <= orig.len(),
            rest@ == orig.skip(taken),
            kept@ == surviving(orig.take(taken)),
        decreases rest@.len(),
    {
        let l = rest.remove(0);
        proof {
            assert(l == orig[taken]);
            assert(rest@ =~= orig.skip(taken + 1));
            assert(orig.take(taken + 1).drop_last() =~= orig.take(taken));
            assert(orig.take(taken + 1).last() == orig[taken]);
        }
        if !l.removed {
            kept.push(l);
        }
        proof {
            taken = taken + 1;
        }
    }
    proof {
        assert(orig.take(taken) =~= orig);
    }
    kept
}

/// What the pipeline asks of its driver next: the sequence is over, an
/// item is ready without any lookup, or the named transaction must be
/// fetched before the current log can be settled.
pub enum Step {
    Done,
    Item(Result<Account, StreamError>),
    Fetch(Vec<u8>),
}

/// The pull-driven pipeline state: the surviving logs and a cursor over
/// them. Each instance owns its own cursor; nothing is shared.
pub struct SplitAccountStream {
    pub logs: Vec<Log>,
    pub cursor: usize,
    pub strict: bool,
}

impl SplitAccountStream {
    pub open spec fn wf(&self) -> bool {
        self.cursor <= self.logs@.len()
    }

    /// Builds the pipeline over a fetched log sequence, discarding
    /// reorg-invalidated logs first: nothing downstream ever sees a
    /// removed log, even transiently.
    pub fn new(logs: Vec<Log>, strict: bool) -> (s: SplitAccountStream)
        ensures
            s.logs@ == surviving(logs@),
            s.cursor == 0,
            s.strict == strict,
            s.wf(),
    {
        SplitAccountStream { logs: discard_removed(logs), cursor: 0, strict }
    }

    /// How many items are still to come.
    pub fn remaining(&self) -> (n: usize)
        requires
            self.wf(),
        ensures
            n == self.logs@.len() - self.cursor,
    {
        self.logs.len() - self.cursor
    }

    /// Asks for the next step. A log without a transaction reference is
    /// settled on the spot as its own failure item; a log with one makes
    /// the machine name the hash it needs, without advancing, so that a
    /// driver that stops here wastes no work.
    pub fn next_step(&mut self) -> (st: Step)
        requires
            old(self).wf(),
        ensures
            final(self).logs@ == old(self).logs@,
            final(self).strict == old(self).strict,
            final(self).wf(),
            match st {
                Step::Done => {
                    &&& old(self).cursor == old(self).logs@.len()
                    &&& final(self).cursor == old(self).cursor
                },
                Step::Item(item) => {
                    &&& old(self).cursor < old(self).logs@.len()
                    &&& old(self).logs@[old(self).cursor as int]@.transaction_hash is None
                    &&& final(self).cursor == old(self).cursor + 1
                    &&& forall|o: FetchOutcomeView|
                        item_view(item) == item_for(
                            old(self).logs@[old(self).cursor as int]@,
                            o,
                            old(self).strict,
                        )
                },
                Step::Fetch(h) => {
                    &&& old(self).cursor < old(self).logs@.len()
                    &&& old(self).logs@[old(self).cursor as int]@.transaction_hash == Some(h@)
                    &&& final(self).cursor == old(self).cursor
                },
            },
    {
        if self.cursor >= self.logs.len() {
            return Step::Done;
        }
        let log = &self.logs[self.cursor];
        match &log.transaction_hash {
            None => {
                self.cursor = self.cursor + 1;
                Step::Item(Err(StreamError::MissingTransactionHash))
            },
            Some(h) => Step::Fetch(copy_bytes(h)),
        }
    }

    /// Settles the current log with the outcome of its transaction
    /// lookup: decodes the call, then the event, assembles the record on
    /// both succeeding, and advances past the log either way. The item
    /// is exactly `item_for` of the log and the outcome.
    pub fn resolve(&mut self, outcome: FetchOutcome) -> (item: Result<Account, StreamError>)
        requires
            old(self).wf(),
            old(self).cursor < old(self).logs@.len(),
            old(self).logs@[old(self).cursor as int]@.transaction_hash is Some,
        ensures
            final(self).logs@ == old(self).logs@,
            final(self).strict == old(self).strict,
            final(self).cursor == old(self).cursor + 1,
            final(self).wf(),
            item_view(item) == item_for(
                old(self).logs@[old(self).cursor as int]@,
                outcome@,
                old(self).strict,
            ),
            item matches Ok(a) ==> a.wf(),
    {
        let strict = self.strict;
        let n: usize = self.logs.len();
        assert(self.cursor < n);
        let item: Result<Account, StreamError> = match outcome {
            FetchOutcome::Failed(m) => Err(StreamError::Transport(m)),
            FetchOutcome::NotFound => Err(StreamError::TransactionNotFound),
            FetchOutcome::Found(input) => {
                match decode_create_split_call(&input, strict) {
                    Err(e) => Err(StreamError::CallDecode(e)),
                    Ok(call) => {
                        let log = &self.logs[self.cursor];
                        match decode_create_split_event(log, strict) {
                            Err(e) => Err(StreamError::EventDecode(e)),
                            Ok(split) => {
                                proof {
                                    assert forall|i: int|
                                        0 <= i < call.accounts@.len() implies (
                                    #[trigger] call.accounts@[i]).wf() by {
                                        assert(call@.accounts[i] == call.accounts@[i]@);
                                    }
                                }
                                Ok(
                                    Account::new(
                                        split,
                                        call.accounts,
                                        call.percent_allocations,
                                        call.distributor_fee,
                                    ),
                                )
                            },
                        }
                    },
                }
            },
        };
        self.cursor = self.cursor + 1;
        item
    }
}

/// The parameters of one log query: one contract address, one event
/// topic, and a closed block range.
pub struct LogFilter {
    pub address: Address,
    pub event_topic: Vec<u8>,
    pub from_block: BlockTag,
    pub to_block: BlockTag,
}

/// Builds the filter that fetches this contract's "split created"
/// events over the closed range `[from_block, to_block]`; an absent
/// upper bound means the newest block the node knows.
pub fn build_create_split_filter(address: &Address, from_block: u64, to_block: Option<u64>) -> (r:
    LogFilter)
    ensures
        r.address@ == address@,
        r.event_topic@ == keccak256_of(create_split_event_signature()),
        r.from_block == BlockTag::Number(from_block),
        r.to_block == (match to_block {
            Some(b) => BlockTag::Number(b),
            None => BlockTag::Latest,
        }),
{
    let topic = crate::keccak::signature_keccak("CreateSplit(address)");
    LogFilter {
        address: address.duplicate(),
        event_topic: topic,
        from_block: BlockTag::Number(from_block),
        to_block: match to_block {
            Some(b) => BlockTag::Number(b),
            None => BlockTag::Latest,
        },
    }
}

} // verus!
