//! Vote records and their lifecycle: creation, stage advance, and the
//! commit-reveal checks on votes.

use crate::commitment::{bytes32_eq, commitment_of, commitment_spec, VoteOutcome};
use vstd::prelude::*;

verus! {

/// The phase of a vote.
#[derive(Clone, Copy, Debug, PartialEq, Eq, Structural)]
pub enum VoteStage {
    /// Before voting: no commitments or votes accepted.
    PreVoting,
    /// Commitments accepted; only for commit-reveal votes.
    Commit,
    /// Votes (reveals) accepted.
    Voting,
    /// Finished: nothing more accepted.
    Completed,
}

/// How many outcomes a vote has.
#[derive(Clone, Copy, Debug, PartialEq, Eq, Structural)]
pub enum VoteType {
    /// Exactly two outcomes.
    Binary,
    /// More than two outcomes.
    MultiOption,
}

/// How votes are to be weighed when tallied.
#[derive(Clone, Copy, Debug, PartialEq, Eq, Structural)]
pub enum TallyType {
    /// One account, one vote.
    OnePerson,
    /// Weighed by balance.
    OneCoin,
}

/// The configuration and current stage of a vote.
#[derive(Clone, Copy, Debug, PartialEq, Eq, Structural)]
pub struct VoteData {
    /// The account that created the vote.
    pub initiator: u64,
    /// The current stage.
    pub stage: VoteStage,
    /// Binary or multi-option.
    pub vote_type: VoteType,
    /// The tally metric.
    pub tally_type: TallyType,
    /// Whether votes are first committed as hashes and later revealed.
    pub is_commit_reveal: bool,
}

/// One vote: its configuration, outcomes, commitments and reveals.
#[derive(Clone, Debug, PartialEq, Eq)]
pub struct VoteRecord {
    /// The vote's id, counted from 1.
    pub id: u64,
    /// (account, commitment) pairs, at most one per account.
    pub commitments: Vec<(u64, VoteOutcome)>,
    /// (account, outcome) pairs, at most one per account.
    pub reveals: Vec<(u64, VoteOutcome)>,
    /// Configuration and stage.
    pub data: VoteData,
    /// The outcomes that can be voted for.
    pub outcomes: Vec<VoteOutcome>,
}

/// The mathematical content of a `VoteRecord`: the same fields, with
/// sequences for vectors.
pub struct RecordView {
    pub id: u64,
    pub commitments: Seq<(u64, VoteOutcome)>,
    pub reveals: Seq<(u64, VoteOutcome)>,
    pub data: VoteData,
    pub outcomes: Seq<VoteOutcome>,
}

impl View for VoteRecord {
    type V = RecordView;

    open spec fn view(&self) -> RecordView {
        RecordView {
            id: self.id,
            commitments: self.commitments@,
            reveals: self.reveals@,
            data: self.data,
            outcomes: self.outcomes@,
        }
    }
}

/// Why a voting operation was rejected.
#[derive(Clone, Copy, Debug, PartialEq, Eq, Structural)]
pub enum VoteError {
    /// No vote has the given id.
    VoteRecordNotExist,
    /// A commitment was sent to a vote that is not commit-reveal.
    CommitRevealNotConfigured,
    /// A commitment was sent outside the `Commit` stage.
    NotInCommitStage,
    /// The account has already committed.
    DuplicateCommit,
    /// A vote was revealed outside the `Voting` stage.
    NotInVotingStage,
    /// The revealed outcome is not one of the vote's outcomes.
    InvalidOutcome,
    /// The account has already revealed.
    DuplicateReveal,
    /// A commit-reveal vote was revealed without its secret.
    MissingSecret,
    /// The account never committed on this commit-reveal vote.
    NoPriorCommitment,
    /// The reveal does not hash to the account's commitment.
    CommitmentMismatch,
    /// Only the vote's initiator may advance it this way.
    NotInitiator,
    /// The vote is already completed.
    VoteAlreadyCompleted,
    /// A binary vote needs exactly two outcomes.
    InvalidBinaryOutcomes,
    /// A multi-option vote needs more than two outcomes.
    InvalidMultiOptionOutcomes,
}

/// What a successful voting operation records.
#[derive(Clone, Copy, Debug, PartialEq, Eq)]
pub enum Event {
    /// A new vote: (id, creator, type of vote).
    VoteCreated(u64, u64, VoteType),
    /// A stage transition: (id, old stage, new stage).
    VoteAdvanced(u64, VoteStage, VoteStage),
    /// An account committed: (id, account).
    VoteCommitted(u64, u64),
    /// An account revealed its vote: (id, account, outcome).
    VoteRevealed(u64, u64, VoteOutcome),
}

/// Whether some pair in `s` belongs to `account`.
pub open spec fn has_entry(s: Seq<(u64, VoteOutcome)>, account: u64) -> bool {
    exists|i: int| 0 <= i < s.len() && (#[trigger] s[i]).0 == account
}

/// The value paired with `account` in `s`.
pub open spec fn entry_of(s: Seq<(u64, VoteOutcome)>, account: u64) -> VoteOutcome
    recommends
        has_entry(s, account),
{
    s[choose|i: int| 0 <= i < s.len() && (#[trigger] s[i]).0 == account].1
}

/// No account has two pairs in `s`.
pub open spec fn one_per_account(s: Seq<(u64, VoteOutcome)>) -> bool {
    forall|i: int, j: int| 0 <= i < j < s.len() ==> (#[trigger] s[i]).0 != (#[trigger] s[j]).0
}

/// Whether `n` outcomes suit the vote type.
pub open spec fn outcome_count_ok(vote_type: VoteType, n: nat) -> bool {
    match vote_type {
        VoteType::Binary => n == 2,
        VoteType::MultiOption => n > 2,
    }
}

/// The invariants of one vote record.
pub open spec fn record_wf(r: RecordView) -> bool {
    &&& outcome_count_ok(r.data.vote_type, r.outcomes.len())
    &&& r.data.stage == VoteStage::Commit ==> r.data.is_commit_reveal
    &&& !r.data.is_commit_reveal ==> r.commitments.len() == 0
    &&& r.data.stage == VoteStage::PreVoting ==> r.commitments.len() == 0
    &&& (r.data.stage == VoteStage::PreVoting || r.data.stage == VoteStage::Commit) ==> r.reveals.len() == 0
    &&& one_per_account(r.commitments)
    &&& one_per_account(r.reveals)
    &&& forall|i: int| 0 <= i < r.reveals.len() ==> r.outcomes.contains(#[trigger] r.reveals[i].1)
}

/// The stage after `stage`, if there is one.
pub open spec fn next_stage(stage: VoteStage, is_commit_reveal: bool) -> Option<VoteStage> {
    match stage {
        VoteStage::PreVoting => if is_commit_reveal {
            Some(VoteStage::Commit)
        } else {
            Some(VoteStage::Voting)
        },
        VoteStage::Commit => Some(VoteStage::Voting),
        VoteStage::Voting => Some(VoteStage::Completed),
        VoteStage::Completed => None,
    }
}

/// The record with its stage replaced.
pub open spec fn with_stage(r: RecordView, stage: VoteStage) -> RecordView {
    RecordView { data: VoteData { stage, ..r.data }, ..r }
}

/// The result of advancing a record's stage.
pub open spec fn advance_result(r: RecordView) -> Result<RecordView, VoteError> {
    match next_stage(r.data.stage, r.data.is_commit_reveal) {
        Some(s) => Ok(with_stage(r, s)),
        None => Err(VoteError::VoteAlreadyCompleted),
    }
}

/// The result of `sender` committing `hash` to a record.
pub open spec fn commit_result(r: RecordView, sender: u64, hash: VoteOutcome) -> Result<RecordView, VoteError> {
    if !r.data.is_commit_reveal {
        Err(VoteError::CommitRevealNotConfigured)
    } else if r.data.stage != VoteStage::Commit {
        Err(VoteError::NotInCommitStage)
    } else if has_entry(r.commitments, sender) {
        Err(VoteError::DuplicateCommit)
    } else {
        Ok(RecordView { commitments: r.commitments.push((sender, hash)), ..r })
    }
}

/// The result of `sender` revealing a vote for `outcome` on a record, with
/// `secret` as the commitment's secret.
pub open spec fn reveal_result(
    r: RecordView,
    sender: u64,
    outcome: VoteOutcome,
    secret: Option<VoteOutcome>,
) -> Result<RecordView, VoteError> {
    if r.data.stage != VoteStage::Voting {
        Err(VoteError::NotInVotingStage)
    } else if !r.outcomes.contains(outcome) {
        Err(VoteError::InvalidOutcome)
    } else if has_entry(r.reveals, sender) {
        Err(VoteError::DuplicateReveal)
    } else if r.data.is_commit_reveal && secret is None {
        Err(VoteError::MissingSecret)
    } else if r.data.is_commit_reveal && !has_entry(r.commitments, sender) {
        Err(VoteError::NoPriorCommitment)
    } else if r.data.is_commit_reveal && entry_of(r.commitments, sender)@ != commitment_spec(
        sender,
        secret.unwrap()@,
        outcome@,
    ) {
        Err(VoteError::CommitmentMismatch)
    } else {
        Ok(RecordView { reveals: r.reveals.push((sender, outcome)), ..r })
    }
}

/// The first index in `s` of a pair that belongs to `account`, if any.
fn find_entry(s: &Vec<(u64, VoteOutcome)>, account: u64) -> (r: Option<usize>)
    ensures
        match r {
            Some(i) => i < s.len() && s@[i as int].0 == account,
            None => !has_entry(s@, account),
        },
{
    let mut i: usize = 0;
    while i < s.len()
        invariant
            i <= s.len(),
            forall|j: int| 0 <= j < i ==> (#[trigger] s@[j]).0 != account,
        decreases s.len() - i,
    {
        if s[i].0 == account {
            return Some(i);
        }
        i += 1;
    }
    None
}

/// Whether `outcome` is one of `outcomes`.
fn contains_outcome(outcomes: &Vec<VoteOutcome>, outcome: &VoteOutcome) -> (r: bool)
    ensures
        r == outcomes@.contains(*outcome),
{
    let mut i: usize = 0;
    while i < outcomes.len()
        invariant
            i <= outcomes.len(),
            forall|j: int| 0 <= j < i ==> outcomes@[j] != *outcome,
        decreases outcomes.len() - i,
    {
        if bytes32_eq(&outcomes[i], outcome) {
            assert(outcomes@[i as int] == *outcome);
            return true;
        }
        i += 1;
    }
    false
}

/// The vote store: all records, indexed by id, the number created so far,
/// and the events not yet handed out.
pub struct Module {
    records: Vec<VoteRecord>,
    vote_record_count: u64,
    events: Vec<Event>,
}

/// What an operation on the record `id` did, given the result `res` that the
/// record's own rule gives: on success the record is replaced and `event` is
/// deposited; on failure nothing changes.
pub open spec fn applied(
    pre: Module,
    post: Module,
    id: u64,
    res: Result<RecordView, VoteError>,
    event: Event,
    r: Result<(), VoteError>,
) -> bool {
    &&& post.count() == pre.count()
    &&& match res {
        Ok(new_record) => {
            &&& r == Ok::<(), VoteError>(())
            &&& post.records() == pre.records().update(id - 1, new_record)
            &&& post.event_log() == pre.event_log().push(event)
        },
        Err(e) => {
            &&& r == Err::<(), VoteError>(e)
            &&& post.records() == pre.records()
            &&& post.event_log() == pre.event_log()
        },
    }
}

/// With at most one pair per account, the pair found at `j` is the one
/// `entry_of` names.
proof fn lemma_entry_of(s: Seq<(u64, VoteOutcome)>, account: u64, j: int)
    requires
        one_per_account(s),
        0 <= j < s.len(),
        s[j].0 == account,
    ensures
        has_entry(s, account),
        entry_of(s, account) == s[j].1,
{
    assert(has_entry(s, account));
    let k = choose|i: int| 0 <= i < s.len() && (#[trigger] s[i]).0 == account;
    if k < j {
        assert(s[k].0 != s[j].0);
    } else if j < k {
        assert(s[j].0 != s[k].0);
    }
}

/// The stage of the record `id` before and after an advance.
pub open spec fn advance_event(pre: Module, id: u64) -> Event {
    Event::VoteAdvanced(
        id,
        pre.record(id).unwrap().data.stage,
        next_stage(pre.record(id).unwrap().data.stage, pre.record(id).unwrap().data.is_commit_reveal).unwrap(),
    )
}

/// The result of advancing a record's stage `n` times, stopping at the
/// first failure.
pub open spec fn advance_times(r: RecordView, n: nat) -> Result<RecordView, VoteError>
    decreases n,
{
    if n == 0 {
        Ok(r)
    } else {
        match advance_times(r, (n - 1) as nat) {
            Ok(prev) => advance_result(prev),
            Err(e) => Err(e),
        }
    }
}

/// Advancing a vote from `PreVoting` visits `Commit` (only when it is a
/// commit-reveal vote), then `Voting`, then `Completed`; every further
/// advance fails with `VoteAlreadyCompleted`.
pub proof fn lemma_stage_sequence(r: RecordView)
    requires
        r.data.stage == VoteStage::PreVoting,
    ensures
        r.data.is_commit_reveal ==> {
            &&& advance_times(r, 1) == Ok::<RecordView, VoteError>(with_stage(r, VoteStage::Commit))
            &&& advance_times(r, 2) == Ok::<RecordView, VoteError>(with_stage(r, VoteStage::Voting))
            &&& advance_times(r, 3) == Ok::<RecordView, VoteError>(with_stage(r, VoteStage::Completed))
            &&& forall|n: nat| n > 3 ==> #[trigger] advance_times(r, n) == Err::<RecordView, VoteError>(
                VoteError::VoteAlreadyCompleted,
            )
        },
        !r.data.is_commit_reveal ==> {
            &&& advance_times(r, 1) == Ok::<RecordView, VoteError>(with_stage(r, VoteStage::Voting))
            &&& advance_times(r, 2) == Ok::<RecordView, VoteError>(with_stage(r, VoteStage::Completed))
            &&& forall|n: nat| n > 2 ==> #[trigger] advance_times(r, n) == Err::<RecordView, VoteError>(
                VoteError::VoteAlreadyCompleted,
            )
        },
{
    let k: nat = if r.data.is_commit_reveal { 3 } else { 2 };
    assert(advance_times(r, 0) == Ok::<RecordView, VoteError>(r));
    if r.data.is_commit_reveal {
        assert(with_stage(with_stage(r, VoteStage::Commit), VoteStage::Voting) == with_stage(r, VoteStage::Voting));
        assert(with_stage(with_stage(r, VoteStage::Voting), VoteStage::Completed) == with_stage(r, VoteStage::Completed));
        assert(advance_times(r, 1) == Ok::<RecordView, VoteError>(with_stage(r, VoteStage::Commit)));
        assert(advance_times(r, 2) == Ok::<RecordView, VoteError>(with_stage(r, VoteStage::Voting)));
        assert(advance_times(r, 3) == Ok::<RecordView, VoteError>(with_stage(r, VoteStage::Completed)));
    } else {
        assert(with_stage(with_stage(r, VoteStage::Voting), VoteStage::Completed) == with_stage(r, VoteStage::Completed));
        assert(advance_times(r, 1) == Ok::<RecordView, VoteError>(with_stage(r, VoteStage::Voting)));
        assert(advance_times(r, 2) == Ok::<RecordView, VoteError>(with_stage(r, VoteStage::Completed)));
    }
    assert forall|n: nat| n > k implies #[trigger] advance_times(r, n) == Err::<RecordView, VoteError>(
        VoteError::VoteAlreadyCompleted,
    ) by {
        lemma_advance_past_completed(r, k, n);
    }
}

proof fn lemma_advance_past_completed(r: RecordView, k: nat, n: nat)
    requires
        k < n,
        advance_times(r, k) is Ok,
        advance_times(r, k)->Ok_0.data.stage == VoteStage::Completed,
    ensures
        advance_times(r, n) == Err::<RecordView, VoteError>(VoteError::VoteAlreadyCompleted),
    decreases n,
{
    if n > k + 1 {
        lemma_advance_past_completed(r, k, (n - 1) as nat);
    }
}

/// Committing `hash` on a commit-reveal vote in its `Commit` stage and,
/// once voting opens, revealing `outcome` with `secret`: the commitment is
/// accepted, and the reveal is accepted exactly when `hash` is the
/// commitment of `sender`, `secret` and `outcome`, adding the pair
/// (`sender`, `outcome`) to the reveals.
pub proof fn lemma_commit_reveal_round_trip(
    r: RecordView,
    sender: u64,
    hash: VoteOutcome,
    outcome: VoteOutcome,
    secret: VoteOutcome,
)
    requires
        record_wf(r),
        r.data.is_commit_reveal,
        r.data.stage == VoteStage::Commit,
        !has_entry(r.commitments, sender),
        r.outcomes.contains(outcome),
    ensures
        ({
            let committed = commit_result(r, sender, hash);
            let voting = advance_result(committed->Ok_0);
            let revealed = reveal_result(voting->Ok_0, sender, outcome, Some(secret));
            &&& committed is Ok
            &&& voting is Ok
            &&& voting->Ok_0.data.stage == VoteStage::Voting
            &&& (revealed is Ok) == (hash@ == commitment_spec(sender, secret@, outcome@))
            &&& revealed is Ok ==> revealed->Ok_0.reveals == voting->Ok_0.reveals.push((sender, outcome))
        }),
{
    let committed = commit_result(r, sender, hash)->Ok_0;
    let voting = advance_result(committed)->Ok_0;
    let cs = committed.commitments;
    assert(one_per_account(cs)) by {
        assert forall|a: int, b: int| 0 <= a < b < cs.len() implies (#[trigger] cs[a]).0 != (
        #[trigger] cs[b]).0 by {
            if b == r.commitments.len() {
                assert(cs[a] == r.commitments[a]);
            }
        }
    }
    lemma_entry_of(cs, sender, r.commitments.len() as int);
    assert(voting.commitments == cs);
    assert(!has_entry(voting.reveals, sender));
}

impl Module {
    /// The number of votes created so far.
    pub closed spec fn count(&self) -> u64 {
        self.vote_record_count
    }

    /// The records, the one with id `i` at index `i - 1`.
    pub closed spec fn records(&self) -> Seq<RecordView> {
        self.records@.map_values(|r: VoteRecord| r@)
    }

    /// The events deposited and not yet taken, oldest first.
    pub closed spec fn event_log(&self) -> Seq<Event> {
        self.events@
    }

    /// Ids run from 1 to the count, and each record keeps its invariants.
    pub closed spec fn wf(&self) -> bool {
        &&& self.vote_record_count == self.records@.len()
        &&& forall|i: int| 0 <= i < self.records@.len() ==> (#[trigger] self.records@[i]).id == i + 1
        &&& forall|i: int| 0 <= i < self.records@.len() ==> record_wf(#[trigger] self.records@[i]@)
    }

    /// The record with id `id`, if there is one.
    pub open spec fn record(&self, id: u64) -> Option<RecordView> {
        if 1 <= id <= self.records().len() {
            Some(self.records()[id - 1])
        } else {
            None
        }
    }

    /// An empty store.
    pub fn new() -> (r: Module)
        ensures
            r.wf(),
            r.count() == 0,
            r.records() == Seq::<RecordView>::empty(),
            r.event_log() == Seq::<Event>::empty(),
    {
        let r = Module { records: Vec::new(), vote_record_count: 0, events: Vec::new() };
        assert(r.records() =~= Seq::<RecordView>::empty());
        r
    }

    /// The number of votes created so far.
    pub fn vote_record_count(&self) -> (r: u64)
        ensures
            r == self.count(),
    {
        self.vote_record_count
    }

    /// The record with id `vote_id`, if there is one.
    pub fn vote_records(&self, vote_id: u64) -> (r: Option<&VoteRecord>)
        requires
            self.wf(),
        ensures
            match r {
                Some(rec) => self.record(vote_id) == Some(rec@),
                None => self.record(vote_id) is None,
            },
    {
        match self.slot(vote_id) {
            Some(i) => Some(&self.records[i]),
            None => None,
        }
    }

    /// Where the record with id `vote_id` is stored, if there is one.
    fn slot(&self, vote_id: u64) -> (r: Option<usize>)
        requires
            self.wf(),
        ensures
            match r {
                Some(i) => {
                    &&& 1 <= vote_id <= self.records().len()
                    &&& i == vote_id - 1
                    &&& i < self.records@.len()
                    &&& self.record(vote_id) == Some(self.records@[i as int]@)
                },
                None => self.record(vote_id) is None,
            },
    {
        if vote_id == 0 || vote_id > self.vote_record_count {
            None
        } else {
            let n = self.records.len();
            assert(vote_id - 1 < n);
            Some((vote_id - 1) as usize)
        }
    }

    /// The events deposited and not yet taken, oldest first.
    pub fn events(&self) -> (r: &Vec<Event>)
        ensures
            r@ == self.event_log(),
    {
        &self.events
    }

    /// Hands out the deposited events, oldest first, and clears the log.
    pub fn take_events(&mut self) -> (r: Vec<Event>)
        requires
            old(self).wf(),
        ensures
            final(self).wf(),
            r@ == old(self).event_log(),
            final(self).event_log() == Seq::<Event>::empty(),
            final(self).count() == old(self).count(),
            final(self).records() == old(self).records(),
    {
        let r = self.events.split_off(0);
        assert(self.events@ =~= Seq::<Event>::empty());
        assert(r@ =~= old(self).event_log());
        r
    }

    /// Creates a vote in the `PreVoting` stage and returns its id, the
    /// count plus one. A binary vote needs exactly two outcomes and a
    /// multi-option vote more than two; otherwise nothing is stored.
    pub fn create_vote(
        &mut self,
        sender: u64,
        vote_type: VoteType,
        is_commit_reveal: bool,
        tally_type: TallyType,
        outcomes: Vec<VoteOutcome>,
    ) -> (r: Result<u64, VoteError>)
        requires
            old(self).wf(),
            old(self).count() < u64::MAX,
        ensures
            final(self).wf(),
            !outcome_count_ok(vote_type, outcomes@.len()) ==> {
                &&& r == Err::<u64, VoteError>(
                    if vote_type == VoteType::Binary {
                        VoteError::InvalidBinaryOutcomes
                    } else {
                        VoteError::InvalidMultiOptionOutcomes
                    },
                )
                &&& final(self).count() == old(self).count()
                &&& final(self).records() == old(self).records()
                &&& final(self).event_log() == old(self).event_log()
            },
            outcome_count_ok(vote_type, outcomes@.len()) ==> {
                let id = (old(self).count() + 1) as u64;
                &&& r == Ok::<u64, VoteError>(id)
                &&& final(self).count() == id
                &&& final(self).records() == old(self).records().push(
                    RecordView {
                        id,
                        commitments: Seq::empty(),
                        reveals: Seq::empty(),
                        data: VoteData {
                            initiator: sender,
                            stage: VoteStage::PreVoting,
                            vote_type,
                            tally_type,
                            is_commit_reveal,
                        },
                        outcomes: outcomes@,
                    },
                )
                &&& final(self).event_log() == old(self).event_log().push(
                    Event::VoteCreated(id, sender, vote_type),
                )
            },
    {
        match vote_type {
            VoteType::Binary => {
                if outcomes.len() != 2 {
                    return Err(VoteError::InvalidBinaryOutcomes);
                }
            },
            VoteType::MultiOption => {
                if outcomes.len() <= 2 {
                    return Err(VoteError::InvalidMultiOptionOutcomes);
                }
            },
        }
        let id = self.vote_record_count + 1;
        let record = VoteRecord {
            id,
            commitments: Vec::new(),
            reveals: Vec::new(),
            data: VoteData {
                initiator: sender,
                stage: VoteStage::PreVoting,
                vote_type,
                tally_type,
                is_commit_reveal,
            },
            outcomes,
        };
        self.records.push(record);
        self.vote_record_count = id;
        self.events.push(Event::VoteCreated(id, sender, vote_type));
        assert(self.records() =~= old(self).records().push(record@));
        Ok(id)
    }
    /// The result of advancing the stage of the record `id`.
    pub open spec fn advance_on(&self, id: u64) -> Result<RecordView, VoteError> {
        match self.record(id) {
            None => Err(VoteError::VoteRecordNotExist),
            Some(rec) => advance_result(rec),
        }
    }

    /// The result of `sender` advancing the stage of the record `id`, which
    /// only its initiator may do.
    pub open spec fn advance_as_initiator_on(&self, sender: u64, id: u64) -> Result<RecordView, VoteError> {
        match self.record(id) {
            None => Err(VoteError::VoteRecordNotExist),
            Some(rec) => if rec.data.initiator != sender {
                Err(VoteError::NotInitiator)
            } else {
                advance_result(rec)
            },
        }
    }

    /// The result of `sender` committing `hash` to the record `id`.
    pub open spec fn commit_on(&self, sender: u64, id: u64, hash: VoteOutcome) -> Result<RecordView, VoteError> {
        match self.record(id) {
            None => Err(VoteError::VoteRecordNotExist),
            Some(rec) => commit_result(rec, sender, hash),
        }
    }

    /// The result of `sender` revealing a vote for `outcome` on the record `id`.
    pub open spec fn reveal_on(
        &self,
        sender: u64,
        id: u64,
        outcome: VoteOutcome,
        secret: Option<VoteOutcome>,
    ) -> Result<RecordView, VoteError> {
        match self.record(id) {
            None => Err(VoteError::VoteRecordNotExist),
            Some(rec) => reveal_result(rec, sender, outcome, secret),
        }
    }

    /// Moves the vote `vote_id` to its next stage: `PreVoting` to `Commit`
    /// for a commit-reveal vote and to `Voting` otherwise, `Commit` to
    /// `Voting`, `Voting` to `Completed`. A completed vote stays completed.
    pub fn advance_stage(&mut self, vote_id: u64) -> (r: Result<(), VoteError>)
        requires
            old(self).wf(),
        ensures
            final(self).wf(),
            applied(
                *old(self),
                *final(self),
                vote_id,
                old(self).advance_on(vote_id),
                advance_event(*old(self), vote_id),
                r,
            ),
    {
        let i = match self.slot(vote_id) {
            None => {
                return Err(VoteError::VoteRecordNotExist);
            },
            Some(i) => i,
        };
        let ghost rec = self.records@[i as int]@;
        let curr = self.records[i].data.stage;
        let next = match curr {
            VoteStage::PreVoting => if self.records[i].data.is_commit_reveal {
                VoteStage::Commit
            } else {
                VoteStage::Voting
            },
            VoteStage::Commit => VoteStage::Voting,
            VoteStage::Voting => VoteStage::Completed,
            VoteStage::Completed => {
                return Err(VoteError::VoteAlreadyCompleted);
            },
        };
        self.records[i].data.stage = next;
        self.events.push(Event::VoteAdvanced(vote_id, curr, next));
        assert(self.records() =~= old(self).records().update(i as int, with_stage(rec, next)));
        assert(self.records@[i as int]@ == with_stage(rec, next));
        Ok(())
    }

    /// Advances the vote `vote_id` on behalf of `sender`, who must be the
    /// account that created it.
    pub fn advance_stage_as_initiator(&mut self, sender: u64, vote_id: u64) -> (r: Result<(), VoteError>)
        requires
            old(self).wf(),
        ensures
            final(self).wf(),
            applied(
                *old(self),
                *final(self),
                vote_id,
                old(self).advance_as_initiator_on(sender, vote_id),
                advance_event(*old(self), vote_id),
                r,
            ),
    {
        match self.slot(vote_id) {
            None => Err(VoteError::VoteRecordNotExist),
            Some(i) => {
                if self.records[i].data.initiator != sender {
                    Err(VoteError::NotInitiator)
                } else {
                    self.advance_stage(vote_id)
                }
            },
        }
    }

    /// Records `sender`'s commitment `commit` on the vote `vote_id`, which
    /// must be a commit-reveal vote in its `Commit` stage with no earlier
    /// commitment from `sender`.
    pub fn commit(&mut self, sender: u64, vote_id: u64, commit: VoteOutcome) -> (r: Result<(), VoteError>)
        requires
            old(self).wf(),
        ensures
            final(self).wf(),
            applied(
                *old(self),
                *final(self),
                vote_id,
                old(self).commit_on(sender, vote_id, commit),
                Event::VoteCommitted(vote_id, sender),
                r,
            ),
    {
        let i = match self.slot(vote_id) {
            None => {
                return Err(VoteError::VoteRecordNotExist);
            },
            Some(i) => i,
        };
        let ghost rec = self.records@[i as int]@;
        if !self.records[i].data.is_commit_reveal {
            return Err(VoteError::CommitRevealNotConfigured);
        }
        if self.records[i].data.stage != VoteStage::Commit {
            return Err(VoteError::NotInCommitStage);
        }
        if find_entry(&self.records[i].commitments, sender).is_some() {
            return Err(VoteError::DuplicateCommit);
        }
        self.records[i].commitments.push((sender, commit));
        self.events.push(Event::VoteCommitted(vote_id, sender));
        let ghost new_rec = RecordView { commitments: rec.commitments.push((sender, commit)), ..rec };
        assert(self.records@[i as int]@ == new_rec);
        assert(self.records() =~= old(self).records().update(i as int, new_rec));
        assert(one_per_account(new_rec.commitments)) by {
            assert forall|a: int, b: int| 0 <= a < b < new_rec.commitments.len() implies
                (#[trigger] new_rec.commitments[a]).0 != (#[trigger] new_rec.commitments[b]).0 by {
                if b == rec.commitments.len() {
                    assert(rec.commitments[a] == new_rec.commitments[a]);
                }
            }
        }
        Ok(())
    }

    /// Records `sender`'s vote for `vote` on the vote `vote_id`, which must
    /// be in its `Voting` stage, offer `vote` as an outcome, and hold no
    /// earlier vote from `sender`. On a commit-reveal vote, `secret` must be
    /// given and the commitment of `sender`, `secret` and `vote` must equal
    /// the one `sender` committed.
    pub fn reveal_vote(
        &mut self,
        sender: u64,
        vote_id: u64,
        vote: VoteOutcome,
        secret: Option<VoteOutcome>,
    ) -> (r: Result<(), VoteError>)
        requires
            old(self).wf(),
        ensures
            final(self).wf(),
            applied(
                *old(self),
                *final(self),
                vote_id,
                old(self).reveal_on(sender, vote_id, vote, secret),
                Event::VoteRevealed(vote_id, sender, vote),
                r,
            ),
    {
        let i = match self.slot(vote_id) {
            None => {
                return Err(VoteError::VoteRecordNotExist);
            },
            Some(i) => i,
        };
        let ghost rec = self.records@[i as int]@;
        if self.records[i].data.stage != VoteStage::Voting {
            return Err(VoteError::NotInVotingStage);
        }
        if !contains_outcome(&self.records[i].outcomes, &vote) {
            return Err(VoteError::InvalidOutcome);
        }
        if find_entry(&self.records[i].reveals, sender).is_some() {
            return Err(VoteError::DuplicateReveal);
        }
        if self.records[i].data.is_commit_reveal {
            let s = match secret {
                None => {
                    return Err(VoteError::MissingSecret);
                },
                Some(s) => s,
            };
            let j = match find_entry(&self.records[i].commitments, sender) {
                None => {
                    return Err(VoteError::NoPriorCommitment);
                },
                Some(j) => j,
            };
            proof {
                lemma_entry_of(rec.commitments, sender, j as int);
            }
            let expected = commitment_of(sender, &s, &vote);
            if !bytes32_eq(&expected, &self.records[i].commitments[j].1) {
                return Err(VoteError::CommitmentMismatch);
            }
        }
        self.records[i].reveals.push((sender, vote));
        self.events.push(Event::VoteRevealed(vote_id, sender, vote));
        let ghost new_rec = RecordView { reveals: rec.reveals.push((sender, vote)), ..rec };
        assert(self.records@[i as int]@ == new_rec);
        assert(self.records() =~= old(self).records().update(i as int, new_rec));
        assert(one_per_account(new_rec.reveals)) by {
            assert forall|a: int, b: int| 0 <= a < b < new_rec.reveals.len() implies
                (#[trigger] new_rec.reveals[a]).0 != (#[trigger] new_rec.reveals[b]).0 by {
                if b == rec.reveals.len() {
                    assert(rec.reveals[a] == new_rec.reveals[a]);
                }
            }
        }
        assert forall|k: int| 0 <= k < new_rec.reveals.len() implies new_rec.outcomes.contains(
            #[trigger] new_rec.reveals[k].1,
        ) by {
            if k < rec.reveals.len() {
                assert(new_rec.reveals[k] == rec.reveals[k]);
            }
        }
        Ok(())
    }
}

} // verus!
