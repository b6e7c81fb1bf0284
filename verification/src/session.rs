//! Multipart session bookkeeping: interpreting the store's replies, the
//! write-once per-part result slots the workers fill, and the finalize
//! decision.  A session with any failed part is never completed; the
//! completed part list handed to the store is always in ascending
//! part-number order, whatever order the workers finished in.

use vstd::prelude::*;
use vstd::pervasive::VecAdditionalExecFns;
use vstd::pervasive::unreached;
use crate::UploadError;

verus! {

/// The completion token the store returns for one successfully uploaded
/// part: the part's number and the opaque store-assigned tag.
#[derive(Debug, PartialEq, Eq)]
pub struct CompletionToken {
    pub part_number: u64,
    pub etag: String,
}

/// What one part upload reported back to the collection point.
#[derive(Debug, PartialEq, Eq)]
pub enum PartOutcome {
    /// The store accepted the part and returned this identifying tag.
    Success { etag: String },
    /// The part failed; no token exists for it.
    Failure { error: UploadError },
}

/// Whether a result slot holds a failure.
pub open spec fn slot_failed(slot: Option<PartOutcome>) -> bool {
    slot matches Some(PartOutcome::Failure { .. })
}

/// Whether a result slot holds a success.
pub open spec fn slot_succeeded(slot: Option<PartOutcome>) -> bool {
    slot matches Some(PartOutcome::Success { .. })
}

/// Interpret the store's reply to one upload-part call.  A transport or
/// store failure fails the part; a reply that carries no identifying tag is
/// a data-integrity fault (`MissingTag`), never a silent success.  A part
/// either fully uploads and yields its tag, or the whole part is a failure.
pub fn part_outcome_from_reply(reply: Result<Option<String>, UploadError>) -> (r: PartOutcome)
    ensures
        match reply {
            Ok(Some(tag)) => r == (PartOutcome::Success { etag: tag }),
            Ok(None) => r == (PartOutcome::Failure { error: UploadError::MissingTag }),
            Err(e) => r == (PartOutcome::Failure { error: e }),
        },
{
    match reply {
        Ok(Some(tag)) => PartOutcome::Success { etag: tag },
        Ok(None) => PartOutcome::Failure { error: UploadError::MissingTag },
        Err(e) => PartOutcome::Failure { error: e },
    }
}

/// Interpret the store's reply to a complete-upload call or a single-shot
/// put: the object's tag is owed, so a reply without one is `MissingTag`;
/// a failed call keeps its error.
pub fn object_tag_from_reply(reply: Result<Option<String>, UploadError>) -> (r: Result<
    String,
    UploadError,
>)
    ensures
        match reply {
            Ok(Some(tag)) => r == Ok::<String, UploadError>(tag),
            Ok(None) => r == Err::<String, UploadError>(UploadError::MissingTag),
            Err(e) => r == Err::<String, UploadError>(e),
        },
{
    match reply {
        Ok(Some(tag)) => Ok(tag),
        Ok(None) => Err(UploadError::MissingTag),
        Err(e) => Err(e),
    }
}

/// The number of execution units a bounded-parallel upload occupies: the
/// configured worker width plus one for the orchestrator itself, which
/// blocks only at the join point.
pub fn worker_units(width: u64) -> (units: u64)
    requires
        width < u64::MAX,
    ensures
        units == width + 1,
{
    width + 1
}

/// What the orchestrator does once every part has reported.
#[derive(Debug, PartialEq, Eq)]
pub enum FinalizeDecision {
    /// Every part succeeded: submit these tokens, in ascending part-number
    /// order, to the store's complete-upload operation.
    Complete(Vec<CompletionToken>),
    /// Some part failed: do not complete; abort the remote session and
    /// surface the first failure encountered.
    Abort { part_number: u64, error: UploadError },
}

/// A live multipart session: its identity at the store, one write-once
/// result slot per dispatched part (indexed by part number minus one), and
/// the first failure encountered at the collection point.
#[derive(Debug)]
pub struct UploadSession {
    pub bucket: String,
    pub key: String,
    pub upload_id: String,
    pub slots: Vec<Option<PartOutcome>>,
    pub first_failure: Option<u64>,
}

impl UploadSession {
    /// The per-part outcomes reported so far, indexed by part number minus
    /// one; `None` marks a part still in flight.
    pub open spec fn outcomes(self) -> Seq<Option<PartOutcome>> {
        self.slots@
    }

    /// How many parts the session dispatched.
    pub open spec fn part_count(self) -> int {
        self.slots@.len() as int
    }

    /// The session invariant: `first_failure` names a failed slot when some
    /// part has failed, and is empty exactly when no slot holds a failure.
    pub open spec fn wf(self) -> bool {
        match self.first_failure {
            Some(pn) => 1 <= pn <= self.part_count() && slot_failed(self.outcomes()[pn - 1]),
            None => forall|i: int|
                0 <= i < self.part_count() ==> !slot_failed(#[trigger] self.outcomes()[i]),
        }
    }

    /// Whether every dispatched part has reported.
    pub open spec fn all_parts_reported(self) -> bool {
        forall|i: int| 0 <= i < self.part_count() ==> (#[trigger] self.outcomes()[i]) is Some
    }

    /// Open the session from the store's reply to the initiate call.  The
    /// store must return an upload id: a reply without one is `NoUploadId`,
    /// fatal, and no session exists to clean up.  On success every part
    /// slot starts empty.
    pub fn begin(bucket: String, key: String, upload_id_reply: Option<String>, part_count: usize) -> (r:
        Result<UploadSession, UploadError>)
        ensures
            match r {
                Ok(session) => {
                    &&& upload_id_reply == Some(session.upload_id)
                    &&& session.bucket == bucket
                    &&& session.key == key
                    &&& session.part_count() == part_count
                    &&& session.outcomes() =~= empty_slots(part_count as nat)
                    &&& session.first_failure is None
                    &&& session.wf()
                },
                Err(e) => upload_id_reply is None && e == UploadError::NoUploadId,
            },
    {
        match upload_id_reply {
            None => Err(UploadError::NoUploadId),
            Some(upload_id) => {
                let mut slots: Vec<Option<PartOutcome>> = Vec::new();
                let mut i: usize = 0;
                while i < part_count
                    invariant
                        i <= part_count,
                        slots@.len() == i,
                        forall|j: int| 0 <= j < i ==> (#[trigger] slots@[j]) is None,
                    decreases part_count - i,
                {
                    slots.push(None);
                    i = i + 1;
                }
                Ok(UploadSession { bucket, key, upload_id, slots, first_failure: None })
            },
        }
    }

    /// Record one part's report at the collection point.  Each slot is
    /// written exactly once; the first failing report, in arrival order, is
    /// remembered as the failure to surface.
    pub fn record(&mut self, part_number: u64, outcome: PartOutcome)
        requires
            old(self).wf(),
            1 <= part_number <= old(self).part_count(),
            old(self).outcomes()[part_number - 1] is None,
        ensures
            final(self).wf(),
            final(self).bucket == old(self).bucket,
            final(self).key == old(self).key,
            final(self).upload_id == old(self).upload_id,
            final(self).outcomes() == apply_report(
                old(self).outcomes(),
                ReportEvent { part_number, outcome },
            ),
            final(self).first_failure == if old(self).first_failure is Some {
                old(self).first_failure
            } else if slot_failed(Some(outcome)) {
                Some(part_number)
            } else {
                None::<u64>
            },
    {
        let failed = match &outcome {
            PartOutcome::Failure { .. } => true,
            PartOutcome::Success { .. } => false,
        };
        let slot_count = self.slots.len();
        proof {
            assert(part_number - 1 < slot_count);
        }
        let idx = (part_number - 1) as usize;
        self.slots.set(idx, Some(outcome));
        if failed && self.first_failure.is_none() {
            self.first_failure = Some(part_number);
        }
        proof {
            match old(self).first_failure {
                Some(pn) => {
                    assert(slot_failed(old(self).outcomes()[pn - 1]));
                    assert(pn != part_number);
                    assert(slot_failed(self.outcomes()[pn - 1]));
                },
                None => {
                    if !failed {
                        assert forall|i: int| 0 <= i < self.part_count() implies !slot_failed(
                            #[trigger] self.outcomes()[i],
                        ) by {
                            if i != part_number - 1 {
                                assert(self.outcomes()[i] == old(self).outcomes()[i]);
                            }
                        }
                    }
                },
            }
        }
    }

    /// Whether the join point may be released: true exactly when every
    /// dispatched part has reported success or failure.
    pub fn all_reported(&self) -> (r: bool)
        ensures
            r <==> self.all_parts_reported(),
    {
        let mut i: usize = 0;
        while i < self.slots.len()
            invariant
                i <= self.slots@.len(),
                forall|j: int| 0 <= j < i ==> (#[trigger] self.outcomes()[j]) is Some,
            decreases self.slots@.len() - i,
        {
            if self.slots[i].is_none() {
                return false;
            }
            i = i + 1;
        }
        true
    }

    /// Decide how to finalize once every part has reported: complete with
    /// the tokens of all parts in ascending part-number order when every
    /// part succeeded, otherwise abort and surface the first failure
    /// encountered.  A session with a failed part is never completed, and
    /// taking the session by value finalizes it exactly once.
    pub fn finalize_decision(self) -> (d: FinalizeDecision)
        requires
            self.wf(),
            self.all_parts_reported(),
        ensures
            match d {
                FinalizeDecision::Complete(tokens) => {
                    &&& self.first_failure is None
                    &&& forall|i: int|
                        0 <= i < self.part_count() ==> slot_succeeded(
                            #[trigger] self.outcomes()[i],
                        )
                    &&& tokens@.len() == self.part_count()
                    &&& forall|i: int|
                        0 <= i < tokens@.len() ==> (#[trigger] tokens@[i]).part_number == i + 1
                    &&& forall|i: int|
                        0 <= i < tokens@.len() ==> self.outcomes()[i] == Some(
                            PartOutcome::Success { etag: (#[trigger] tokens@[i]).etag },
                        )
                },
                FinalizeDecision::Abort { part_number, error } => {
                    &&& self.first_failure == Some(part_number)
                    &&& self.outcomes()[part_number - 1] == Some(PartOutcome::Failure { error })
                },
            },
    {
        match self.first_failure {
            Some(part_number) => {
                let slot_count = self.slots.len();
                proof {
                    assert(part_number - 1 < slot_count);
                    assert(slot_failed(self.outcomes()[part_number - 1]));
                }
                let idx = (part_number - 1) as usize;
                match &self.slots[idx] {
                    Some(PartOutcome::Failure { error }) => FinalizeDecision::Abort {
                        part_number,
                        error: *error,
                    },
                    _ => unreached(),
                }
            },
            None => {
                let mut tokens: Vec<CompletionToken> = Vec::new();
                let mut i: usize = 0;
                while i < self.slots.len()
                    invariant
                        self.wf(),
                        self.first_failure is None,
                        self.all_parts_reported(),
                        i <= self.slots@.len(),
                        tokens@.len() == i,
                        forall|j: int|
                            0 <= j < i ==> (#[trigger] tokens@[j]).part_number == j + 1,
                        forall|j: int|
                            0 <= j < i ==> self.outcomes()[j] == Some(
                                PartOutcome::Success { etag: (#[trigger] tokens@[j]).etag },
                            ),
                    decreases self.slots@.len() - i,
                {
                    proof {
                        assert(self.outcomes()[i as int] is Some);
                        assert(!slot_failed(self.outcomes()[i as int]));
                    }
                    match &self.slots[i] {
                        Some(PartOutcome::Success { etag }) => {
                            let part_number: u64 = (i as u64) + 1;
                            tokens.push(CompletionToken { part_number, etag: etag.clone() });
                        },
                        _ => {
                            return unreached();
                        },
                    }
                    i = i + 1;
                }
                FinalizeDecision::Complete(tokens)
            },
        }
    }
}

/// One worker's report as an event at the collection point: which part, and
/// what it reported.
pub struct ReportEvent {
    pub part_number: u64,
    pub outcome: PartOutcome,
}

/// The slots of a session whose parts are all still in flight.
pub open spec fn empty_slots(part_count: nat) -> Seq<Option<PartOutcome>> {
    Seq::new(part_count, |i: int| None::<PartOutcome>)
}

/// One report applied to the result slots.
pub open spec fn apply_report(
    slots: Seq<Option<PartOutcome>>,
    event: ReportEvent,
) -> Seq<Option<PartOutcome>> {
    slots.update(event.part_number - 1, Some(event.outcome))
}

/// A sequence of reports applied to the result slots, in arrival order.
pub open spec fn apply_reports(
    slots: Seq<Option<PartOutcome>>,
    events: Seq<ReportEvent>,
) -> Seq<Option<PartOutcome>>
    decreases events.len(),
{
    if events.len() == 0 {
        slots
    } else {
        apply_reports(apply_report(slots, events.first()), events.drop_first())
    }
}

/// A full collection round over `part_count` parts: every report names a
/// dispatched part, and no part reports twice.
pub open spec fn events_wf(events: Seq<ReportEvent>, part_count: nat) -> bool {
    &&& forall|i: int|
        0 <= i < events.len() ==> 1 <= (#[trigger] events[i]).part_number <= part_count
    &&& forall|i: int, j: int|
        0 <= i < j < events.len() ==> events[i].part_number != events[j].part_number
}

/// Applying reports never changes how many slots there are.
proof fn lemma_apply_reports_len(slots: Seq<Option<PartOutcome>>, events: Seq<ReportEvent>)
    requires
        forall|i: int|
            0 <= i < events.len() ==> 1 <= (#[trigger] events[i]).part_number <= slots.len(),
    ensures
        apply_reports(slots, events).len() == slots.len(),
    decreases events.len(),
{
    if events.len() > 0 {
        lemma_apply_reports_len(apply_report(slots, events.first()), events.drop_first());
    }
}

/// A slot no report names keeps its contents.
proof fn lemma_apply_reports_miss(
    slots: Seq<Option<PartOutcome>>,
    events: Seq<ReportEvent>,
    k: int,
)
    requires
        forall|i: int|
            0 <= i < events.len() ==> 1 <= (#[trigger] events[i]).part_number <= slots.len(),
        0 <= k < slots.len(),
        forall|i: int| 0 <= i < events.len() ==> (#[trigger] events[i]).part_number != k + 1,
    ensures
        apply_reports(slots, events)[k] == slots[k],
    decreases events.len(),
{
    if events.len() > 0 {
        lemma_apply_reports_miss(apply_report(slots, events.first()), events.drop_first(), k);
    }
}

/// The slot of a reported part holds exactly that report's outcome, since
/// no later report names the same part.
proof fn lemma_apply_reports_hit(
    slots: Seq<Option<PartOutcome>>,
    events: Seq<ReportEvent>,
    i: int,
)
    requires
        forall|j: int|
            0 <= j < events.len() ==> 1 <= (#[trigger] events[j]).part_number <= slots.len(),
        forall|j: int, l: int|
            0 <= j < l < events.len() ==> events[j].part_number != events[l].part_number,
        0 <= i < events.len(),
    ensures
        apply_reports(slots, events)[events[i].part_number - 1] == Some(events[i].outcome),
    decreases events.len(),
{
    let applied = apply_report(slots, events.first());
    if i == 0 {
        assert(forall|j: int|
            0 <= j < events.drop_first().len() ==> (#[trigger] events.drop_first()[j]).part_number
                != events[0].part_number);
        lemma_apply_reports_miss(applied, events.drop_first(), events[0].part_number - 1);
    } else {
        lemma_apply_reports_hit(applied, events.drop_first(), i - 1);
        assert(events.drop_first()[i - 1] == events[i]);
    }
}

/// A session with any failed part is never completed: once a failure is
/// recorded, `first_failure` names it, and `finalize_decision` promises the
/// `Complete` decision only for a session whose `first_failure` is empty —
/// so a failed part always forces the abort edge.
pub proof fn lemma_failed_part_forces_abort(session: UploadSession)
    requires
        session.wf(),
        exists|i: int|
            0 <= i < session.part_count() && slot_failed(#[trigger] session.outcomes()[i]),
    ensures
        session.first_failure is Some,
{
    if session.first_failure is None {
        let i = choose|i: int|
            0 <= i < session.part_count() && slot_failed(#[trigger] session.outcomes()[i]);
        assert(!slot_failed(session.outcomes()[i]));
    }
}

/// The collection point is a true join barrier: a full round — exactly one
/// report from every dispatched part, in whatever arrival order — leaves no
/// slot pending, so the finalize decision is reached if and only if every
/// part has reported success or failure.
pub proof fn lemma_full_round_reports_all(part_count: nat, events: Seq<ReportEvent>)
    requires
        events_wf(events, part_count),
        events.len() == part_count,
    ensures
        forall|k: int|
            0 <= k < part_count ==> (#[trigger] apply_reports(
                empty_slots(part_count),
                events,
            )[k]) is Some,
{
    broadcast use vstd::seq_lib::seq_to_set_is_finite;

    let part_numbers = events.map_values(|e: ReportEvent| e.part_number as int);
    assert(part_numbers.no_duplicates());
    part_numbers.unique_seq_to_set();
    let dispatched = vstd::set_lib::set_int_range(1, part_count as int + 1);
    vstd::set_lib::lemma_int_range(1, part_count as int + 1);
    assert(part_numbers.to_set().subset_of(dispatched)) by {
        assert forall|pn: int| part_numbers.to_set().contains(pn) implies dispatched.contains(
            pn,
        ) by {
            let i = choose|i: int| 0 <= i < part_numbers.len() && part_numbers[i] == pn;
            assert(1 <= events[i].part_number <= part_count);
        }
    }
    vstd::set_lib::lemma_subset_equality(part_numbers.to_set(), dispatched);
    assert forall|k: int| 0 <= k < part_count implies (#[trigger] apply_reports(
        empty_slots(part_count),
        events,
    )[k]) is Some by {
        assert(dispatched.contains(k + 1));
        assert(part_numbers.to_set().contains(k + 1));
        assert(part_numbers.contains(k + 1));
        let i = choose|i: int| 0 <= i < part_numbers.len() && part_numbers[i] == k + 1;
        assert(events[i].part_number == k + 1);
        lemma_apply_reports_hit(empty_slots(part_count), events, i);
    }
}

/// Completion order is unconstrained: two collection rounds that gather the
/// same per-part reports — in any arrival orders — leave identical result
/// slots, and so, through `finalize_decision`, identical completed part
/// lists in ascending part-number order.  Serialized and bounded-parallel
/// dispatch therefore finalize the same session content.
pub proof fn lemma_collection_order_irrelevant(
    part_count: nat,
    left: Seq<ReportEvent>,
    right: Seq<ReportEvent>,
)
    requires
        events_wf(left, part_count),
        events_wf(right, part_count),
        left.to_multiset() == right.to_multiset(),
    ensures
        apply_reports(empty_slots(part_count), left) == apply_reports(
            empty_slots(part_count),
            right,
        ),
{
    left.to_multiset_ensures();
    right.to_multiset_ensures();
    let start = empty_slots(part_count);
    let a = apply_reports(start, left);
    let b = apply_reports(start, right);
    lemma_apply_reports_len(start, left);
    lemma_apply_reports_len(start, right);
    assert forall|k: int| 0 <= k < part_count implies a[k] == b[k] by {
        if exists|i: int| 0 <= i < left.len() && (#[trigger] left[i]).part_number == k + 1 {
            let i = choose|i: int| 0 <= i < left.len() && (#[trigger] left[i]).part_number == k
                + 1;
            let event = left[i];
            lemma_apply_reports_hit(start, left, i);
            assert(left.contains(event));
            assert(left.to_multiset().count(event) > 0);
            assert(right.to_multiset().count(event) > 0);
            assert(right.contains(event));
            let j = choose|j: int| 0 <= j < right.len() && right[j] == event;
            lemma_apply_reports_hit(start, right, j);
        } else {
            lemma_apply_reports_miss(start, left, k);
            if exists|j: int| 0 <= j < right.len() && (#[trigger] right[j]).part_number == k + 1 {
                let j = choose|j: int|
                    0 <= j < right.len() && (#[trigger] right[j]).part_number == k + 1;
                let event = right[j];
                assert(right.contains(event));
                assert(right.to_multiset().count(event) > 0);
                assert(left.to_multiset().count(event) > 0);
                assert(left.contains(event));
                let i = choose|i: int| 0 <= i < left.len() && left[i] == event;
                assert(left[i].part_number == k + 1);
                assert(false);
            } else {
                lemma_apply_reports_miss(start, right, k);
            }
        }
    }
    assert(a =~= b);
}

} // verus!
