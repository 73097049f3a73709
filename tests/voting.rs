use voting::address::{AccountAddress, Address, ContractAddress, Timestamp};
use voting::poll::{Error, InitParameter, State};

const ALICE: AccountAddress = AccountAddress([0u8; 32]);
const BOB: AccountAddress = AccountAddress([1u8; 32]);
const CARLY: AccountAddress = AccountAddress([2u8; 32]);

fn new_poll() -> State {
    State::init(InitParameter {
        description: "description".to_string(),
        options: vec!["DK".to_string(), "IT".to_string(), "SE".to_string()],
        end_time: Timestamp::from_timestamp_millis(1000),
    })
}

fn tally_of(state: &State) -> Vec<(String, u32)> {
    state.tally().tally
}

fn pairs(items: &[(&str, u32)]) -> Vec<(String, u32)> {
    items.iter().map(|(l, c)| (l.to_string(), *c)).collect()
}

#[test]
fn test_voting() {
    let mut state = new_poll();
    let now = Timestamp::from_timestamp_millis(0);
    assert_eq!(state.vote(now, Address::Account(ALICE), &"DK".to_string()), Ok(()));
    assert_eq!(state.vote(now, Address::Account(BOB), &"IT".to_string()), Ok(()));
    assert_eq!(state.vote(now, Address::Account(CARLY), &"SE".to_string()), Ok(()));
    assert_eq!(tally_of(&state), pairs(&[("DK", 1), ("IT", 1), ("SE", 1)]));
}

#[test]
fn init_gives_empty_ballots_and_exact_metadata() {
    let state = new_poll();
    assert_eq!(state.description, "description");
    assert_eq!(state.options, vec!["DK".to_string(), "IT".to_string(), "SE".to_string()]);
    assert_eq!(state.end_time.timestamp_millis(), 1000);
    assert!(state.ballots.is_empty());
    assert!(state.is_well_formed());
    assert_eq!(tally_of(&state), Vec::new());
}

#[test]
fn changed_vote_moves_the_count() {
    let mut state = new_poll();
    let now = Timestamp::from_timestamp_millis(999);
    assert_eq!(state.vote(now, Address::Account(ALICE), &"DK".to_string()), Ok(()));
    assert_eq!(state.vote(now, Address::Account(BOB), &"IT".to_string()), Ok(()));
    assert_eq!(state.vote(now, Address::Account(CARLY), &"SE".to_string()), Ok(()));
    assert_eq!(tally_of(&state), pairs(&[("DK", 1), ("IT", 1), ("SE", 1)]));
    assert_eq!(state.vote(now, Address::Account(ALICE), &"SE".to_string()), Ok(()));
    assert_eq!(tally_of(&state), pairs(&[("IT", 1), ("SE", 2)]));
    assert_eq!(state.ballots.len(), 3);
}

#[test]
fn last_vote_wins() {
    let mut state = new_poll();
    let now = Timestamp::from_timestamp_millis(10);
    assert_eq!(state.vote(now, Address::Account(ALICE), &"DK".to_string()), Ok(()));
    assert_eq!(state.ballot_of(&ALICE), Some(0));
    assert_eq!(state.vote(now, Address::Account(ALICE), &"SE".to_string()), Ok(()));
    assert_eq!(state.ballot_of(&ALICE), Some(2));
    assert_eq!(state.ballots, vec![(ALICE, 2)]);
    assert_eq!(state.ballot_of(&BOB), None);
}

#[test]
fn repeated_vote_is_idempotent() {
    let mut state = new_poll();
    let now = Timestamp::from_timestamp_millis(10);
    assert_eq!(state.vote(now, Address::Account(BOB), &"IT".to_string()), Ok(()));
    let once = state.ballots.clone();
    assert_eq!(state.vote(now, Address::Account(BOB), &"IT".to_string()), Ok(()));
    assert_eq!(state.ballots, once);
    assert_eq!(tally_of(&state), pairs(&[("IT", 1)]));
}

#[test]
fn vote_at_end_time_is_accepted() {
    let mut state = new_poll();
    let now = Timestamp::from_timestamp_millis(1000);
    assert_eq!(state.vote(now, Address::Account(ALICE), &"IT".to_string()), Ok(()));
    assert_eq!(state.ballot_of(&ALICE), Some(1));
}

#[test]
fn vote_after_end_time_is_finished() {
    let mut state = new_poll();
    let late = Timestamp::from_timestamp_millis(1001);
    assert_eq!(state.vote(late, Address::Account(ALICE), &"IT".to_string()), Err(Error::VotingFinished));
    assert_eq!(state.vote(late, Address::Account(ALICE), &"NO".to_string()), Err(Error::VotingFinished));
    let contract = Address::Contract(ContractAddress { index: 1, subindex: 0 });
    assert_eq!(state.vote(late, contract, &"IT".to_string()), Err(Error::VotingFinished));
    assert!(state.ballots.is_empty());
}

#[test]
fn contract_sender_is_refused() {
    let mut state = new_poll();
    let now = Timestamp::from_timestamp_millis(0);
    assert_eq!(state.vote(now, Address::Account(ALICE), &"DK".to_string()), Ok(()));
    let before = state.ballots.clone();
    let contract = Address::Contract(ContractAddress { index: 7, subindex: 3 });
    assert_eq!(state.vote(now, contract, &"IT".to_string()), Err(Error::ContractVoter));
    assert_eq!(state.vote(now, contract, &"XX".to_string()), Err(Error::ContractVoter));
    assert_eq!(state.ballots, before);
}

#[test]
fn unknown_label_is_refused() {
    let mut state = new_poll();
    let now = Timestamp::from_timestamp_millis(0);
    assert_eq!(state.vote(now, Address::Account(BOB), &"IT".to_string()), Ok(()));
    let before = state.ballots.clone();
    assert_eq!(state.vote(now, Address::Account(BOB), &"dk".to_string()), Err(Error::InvalidVotingOption));
    assert_eq!(state.vote(now, Address::Account(ALICE), &"".to_string()), Err(Error::InvalidVotingOption));
    assert_eq!(state.ballots, before);
    assert_eq!(state.options.len(), 3);
    assert_eq!(state.description, "description");
}

#[test]
fn empty_option_list_accepts_no_vote() {
    let mut state = State::init(InitParameter {
        description: String::new(),
        options: Vec::new(),
        end_time: Timestamp::from_timestamp_millis(5),
    });
    let now = Timestamp::from_timestamp_millis(0);
    assert_eq!(state.vote(now, Address::Account(ALICE), &"DK".to_string()), Err(Error::InvalidVotingOption));
    assert_eq!(tally_of(&state), Vec::new());
}

#[test]
fn duplicate_label_records_first_index() {
    let mut state = State::init(InitParameter {
        description: "d".to_string(),
        options: vec!["A".to_string(), "B".to_string(), "A".to_string()],
        end_time: Timestamp::from_timestamp_millis(5),
    });
    let now = Timestamp::from_timestamp_millis(5);
    assert_eq!(state.vote(now, Address::Account(CARLY), &"A".to_string()), Ok(()));
    assert_eq!(state.ballot_of(&CARLY), Some(0));
    assert_eq!(tally_of(&state), pairs(&[("A", 1)]));
}

#[test]
fn tally_counts_sum_to_voters() {
    let mut state = new_poll();
    let now = Timestamp::from_timestamp_millis(0);
    for b in 0u8..10 {
        let label = if b % 3 == 0 { "SE" } else { "IT" };
        assert_eq!(state.vote(now, Address::Account(AccountAddress([b; 32])), &label.to_string()), Ok(()));
    }
    assert_eq!(state.vote(now, Address::Account(AccountAddress([4; 32])), &"SE".to_string()), Ok(()));
    let t = tally_of(&state);
    assert_eq!(t, pairs(&[("IT", 5), ("SE", 5)]));
    assert_eq!(t.iter().map(|p| p.1).sum::<u32>(), 10);
}

#[test]
fn ill_formed_states_are_detected() {
    let mut state = new_poll();
    state.ballots = vec![(ALICE, 0), (BOB, 3)];
    assert!(!state.is_well_formed());
    state.ballots = vec![(ALICE, 0), (BOB, 1), (ALICE, 2)];
    assert!(!state.is_well_formed());
    state.ballots = vec![(ALICE, 0), (BOB, 1), (CARLY, 2)];
    assert!(state.is_well_formed());
}

#[test]
fn accounts_compare_by_every_byte() {
    let mut other = [0u8; 32];
    other[31] = 1;
    assert!(ALICE.same_account(&AccountAddress([0u8; 32])));
    assert!(!ALICE.same_account(&AccountAddress(other)));
    assert!(!ALICE.same_account(&BOB));
}

#[test]
fn undecodable_parameter_is_checked_after_deadline_and_sender() {
    let mut state = new_poll();
    let now = Timestamp::from_timestamp_millis(0);
    let late = Timestamp::from_timestamp_millis(2000);
    let contract = Address::Contract(ContractAddress { index: 0, subindex: 0 });
    assert_eq!(state.vote_parameter(now, Address::Account(ALICE), None), Err(Error::ParseParams));
    assert_eq!(state.vote_parameter(late, Address::Account(ALICE), None), Err(Error::VotingFinished));
    assert_eq!(state.vote_parameter(now, contract, None), Err(Error::ContractVoter));
    assert!(state.ballots.is_empty());
    assert_eq!(state.vote_parameter(now, Address::Account(ALICE), Some("IT".to_string())), Ok(()));
    assert_eq!(state.vote_parameter(now, Address::Account(ALICE), Some("FR".to_string())), Err(Error::InvalidVotingOption));
    assert_eq!(state.ballots, vec![(ALICE, 1)]);
}

#[test]
fn ballots_are_ordered_by_account() {
    let mut state = new_poll();
    let now = Timestamp::from_timestamp_millis(0);
    assert_eq!(state.vote(now, Address::Account(CARLY), &"SE".to_string()), Ok(()));
    assert_eq!(state.vote(now, Address::Account(ALICE), &"DK".to_string()), Ok(()));
    assert_eq!(state.vote(now, Address::Account(BOB), &"IT".to_string()), Ok(()));
    assert_eq!(state.vote(now, Address::Account(ALICE), &"IT".to_string()), Ok(()));
    assert_eq!(state.ballots, vec![(ALICE, 1), (BOB, 1), (CARLY, 2)]);
    assert!(state.is_well_formed());
}

#[test]
fn unordered_ballots_are_ill_formed() {
    let mut state = new_poll();
    state.ballots = vec![(BOB, 0), (ALICE, 1)];
    assert!(!state.is_well_formed());
}

#[test]
fn account_order_is_lexicographic() {
    let mut low = [9u8; 32];
    low[0] = 1;
    let mut high = [0u8; 32];
    high[0] = 2;
    assert!(AccountAddress(low).precedes(&AccountAddress(high)));
    assert!(!AccountAddress(high).precedes(&AccountAddress(low)));
    assert!(!ALICE.precedes(&ALICE));
    assert!(ALICE.precedes(&BOB));
}
