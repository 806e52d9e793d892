use edge_governance::commitment::commitment_of;
use edge_governance::voting::{Event, Module, TallyType, VoteError, VoteStage, VoteType};

const O1: [u8; 32] = [1u8; 32];
const O2: [u8; 32] = [2u8; 32];
const O3: [u8; 32] = [3u8; 32];

fn stage_of(m: &Module, id: u64) -> VoteStage {
    m.vote_records(id).unwrap().data.stage
}

#[test]
fn binary_vote_with_three_outcomes_is_rejected() {
    let mut m = Module::new();
    let r = m.create_vote(1, VoteType::Binary, false, TallyType::OnePerson, vec![O1, O2, O3]);
    assert_eq!(r, Err(VoteError::InvalidBinaryOutcomes));
    assert_eq!(m.vote_record_count(), 0);
    assert!(m.vote_records(1).is_none());
    assert!(m.events().is_empty());
}

#[test]
fn multi_option_vote_needs_more_than_two_outcomes() {
    let mut m = Module::new();
    let r = m.create_vote(1, VoteType::MultiOption, false, TallyType::OneCoin, vec![O1, O2]);
    assert_eq!(r, Err(VoteError::InvalidMultiOptionOutcomes));
    let r = m.create_vote(1, VoteType::MultiOption, false, TallyType::OneCoin, vec![O1, O2, O3]);
    assert_eq!(r, Ok(1));
}

#[test]
fn create_vote_assigns_ids_from_one() {
    let mut m = Module::new();
    assert_eq!(m.create_vote(5, VoteType::Binary, true, TallyType::OneCoin, vec![O1, O2]), Ok(1));
    assert_eq!(m.create_vote(6, VoteType::Binary, false, TallyType::OnePerson, vec![O2, O3]), Ok(2));
    assert_eq!(m.vote_record_count(), 2);
    let rec = m.vote_records(2).unwrap();
    assert_eq!(rec.id, 2);
    assert_eq!(rec.data.initiator, 6);
    assert_eq!(rec.data.stage, VoteStage::PreVoting);
    assert_eq!(rec.data.tally_type, TallyType::OnePerson);
    assert!(!rec.data.is_commit_reveal);
    assert_eq!(rec.outcomes, vec![O2, O3]);
    assert!(rec.commitments.is_empty());
    assert!(rec.reveals.is_empty());
    assert_eq!(
        m.take_events(),
        vec![Event::VoteCreated(1, 5, VoteType::Binary), Event::VoteCreated(2, 6, VoteType::Binary)]
    );
}

#[test]
fn plain_vote_reveal_before_and_after_advance() {
    let mut m = Module::new();
    let id = m.create_vote(1, VoteType::Binary, false, TallyType::OnePerson, vec![O1, O2]).unwrap();
    assert_eq!(m.reveal_vote(7, id, O1, None), Err(VoteError::NotInVotingStage));
    assert_eq!(m.advance_stage(id), Ok(()));
    assert_eq!(stage_of(&m, id), VoteStage::Voting);
    assert_eq!(m.reveal_vote(7, id, O1, None), Ok(()));
    assert_eq!(m.vote_records(id).unwrap().reveals, vec![(7, O1)]);
}

#[test]
fn stages_without_commit_reveal() {
    let mut m = Module::new();
    let id = m.create_vote(1, VoteType::Binary, false, TallyType::OnePerson, vec![O1, O2]).unwrap();
    assert_eq!(m.advance_stage(id), Ok(()));
    assert_eq!(stage_of(&m, id), VoteStage::Voting);
    assert_eq!(m.advance_stage(id), Ok(()));
    assert_eq!(stage_of(&m, id), VoteStage::Completed);
    assert_eq!(m.advance_stage(id), Err(VoteError::VoteAlreadyCompleted));
    assert_eq!(m.advance_stage(id), Err(VoteError::VoteAlreadyCompleted));
    assert_eq!(stage_of(&m, id), VoteStage::Completed);
}

#[test]
fn stages_with_commit_reveal() {
    let mut m = Module::new();
    let id = m.create_vote(1, VoteType::Binary, true, TallyType::OnePerson, vec![O1, O2]).unwrap();
    m.take_events();
    assert_eq!(m.advance_stage(id), Ok(()));
    assert_eq!(stage_of(&m, id), VoteStage::Commit);
    assert_eq!(m.advance_stage(id), Ok(()));
    assert_eq!(stage_of(&m, id), VoteStage::Voting);
    assert_eq!(m.advance_stage(id), Ok(()));
    assert_eq!(stage_of(&m, id), VoteStage::Completed);
    assert_eq!(m.advance_stage(id), Err(VoteError::VoteAlreadyCompleted));
    assert_eq!(
        m.take_events(),
        vec![
            Event::VoteAdvanced(id, VoteStage::PreVoting, VoteStage::Commit),
            Event::VoteAdvanced(id, VoteStage::Commit, VoteStage::Voting),
            Event::VoteAdvanced(id, VoteStage::Voting, VoteStage::Completed),
        ]
    );
}

#[test]
fn unknown_vote_is_reported() {
    let mut m = Module::new();
    assert_eq!(m.advance_stage(0), Err(VoteError::VoteRecordNotExist));
    assert_eq!(m.advance_stage(1), Err(VoteError::VoteRecordNotExist));
    assert_eq!(m.commit(1, 1, O1), Err(VoteError::VoteRecordNotExist));
    assert_eq!(m.reveal_vote(1, 1, O1, None), Err(VoteError::VoteRecordNotExist));
    assert_eq!(m.advance_stage_as_initiator(1, 1), Err(VoteError::VoteRecordNotExist));
}

#[test]
fn only_initiator_advances() {
    let mut m = Module::new();
    let id = m.create_vote(3, VoteType::Binary, false, TallyType::OnePerson, vec![O1, O2]).unwrap();
    assert_eq!(m.advance_stage_as_initiator(4, id), Err(VoteError::NotInitiator));
    assert_eq!(stage_of(&m, id), VoteStage::PreVoting);
    assert_eq!(m.advance_stage_as_initiator(3, id), Ok(()));
    assert_eq!(stage_of(&m, id), VoteStage::Voting);
}

#[test]
fn commit_rules() {
    let mut m = Module::new();
    let plain = m.create_vote(1, VoteType::Binary, false, TallyType::OnePerson, vec![O1, O2]).unwrap();
    assert_eq!(m.commit(2, plain, O3), Err(VoteError::CommitRevealNotConfigured));
    let id = m.create_vote(1, VoteType::Binary, true, TallyType::OnePerson, vec![O1, O2]).unwrap();
    assert_eq!(m.commit(2, id, O3), Err(VoteError::NotInCommitStage));
    assert_eq!(m.advance_stage(id), Ok(()));
    assert_eq!(m.commit(2, id, O3), Ok(()));
    assert_eq!(m.commit(2, id, O1), Err(VoteError::DuplicateCommit));
    assert_eq!(m.vote_records(id).unwrap().commitments, vec![(2, O3)]);
    assert_eq!(m.events().last(), Some(&Event::VoteCommitted(id, 2)));
}

#[test]
fn reveal_rules_on_plain_vote() {
    let mut m = Module::new();
    let id = m.create_vote(1, VoteType::Binary, false, TallyType::OnePerson, vec![O1, O2]).unwrap();
    assert_eq!(m.advance_stage(id), Ok(()));
    assert_eq!(m.reveal_vote(5, id, O3, None), Err(VoteError::InvalidOutcome));
    assert_eq!(m.reveal_vote(5, id, O2, None), Ok(()));
    assert_eq!(m.reveal_vote(5, id, O1, None), Err(VoteError::DuplicateReveal));
    assert_eq!(m.events().last(), Some(&Event::VoteRevealed(id, 5, O2)));
}

#[test]
fn commit_then_reveal_round_trip() {
    let mut m = Module::new();
    let id = m.create_vote(1, VoteType::Binary, true, TallyType::OnePerson, vec![O1, O2]).unwrap();
    assert_eq!(m.advance_stage(id), Ok(()));
    let secret = [9u8; 32];
    let hash = commitment_of(7, &secret, &O2);
    assert_eq!(m.commit(7, id, hash), Ok(()));
    assert_eq!(m.commit(8, id, commitment_of(8, &secret, &O1)), Ok(()));
    assert_eq!(m.advance_stage(id), Ok(()));
    assert_eq!(m.reveal_vote(7, id, O2, None), Err(VoteError::MissingSecret));
    assert_eq!(m.reveal_vote(6, id, O2, Some(secret)), Err(VoteError::NoPriorCommitment));
    assert_eq!(m.reveal_vote(7, id, O1, Some(secret)), Err(VoteError::CommitmentMismatch));
    assert_eq!(m.reveal_vote(7, id, O2, Some([8u8; 32])), Err(VoteError::CommitmentMismatch));
    // Account 7's outcome does not open account 8's commitment.
    assert_eq!(m.reveal_vote(8, id, O2, Some(secret)), Err(VoteError::CommitmentMismatch));
    assert_eq!(m.reveal_vote(7, id, O2, Some(secret)), Ok(()));
    assert_eq!(m.reveal_vote(8, id, O1, Some(secret)), Ok(()));
    assert_eq!(m.vote_records(id).unwrap().reveals, vec![(7, O2), (8, O1)]);
}
