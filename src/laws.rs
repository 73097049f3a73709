use vstd::prelude::*;
use crate::address::{AccountAddress, Address};
use crate::poll::{first_match, is_first_match, Error, PollModel};

verus! {

/// The position of the first match is the first position that holds the label.
pub proof fn lemma_first_match(labels: Seq<Seq<char>>, o: Seq<char>)
    requires
        labels.contains(o),
    ensures
        is_first_match(labels, o, first_match(labels, o)),
        labels[first_match(labels, o)] == o,
{
    let i = choose|i: int| 0 <= i < labels.len() && labels[i] == o;
    lemma_first_match_from(labels, o, i);
}

proof fn lemma_first_match_from(labels: Seq<Seq<char>>, o: Seq<char>, i: int)
    requires
        0 <= i < labels.len(),
        labels[i] == o,
    ensures
        is_first_match(labels, o, first_match(labels, o)),
    decreases i,
{
    if exists|j: int| 0 <= j < i && labels[j] == o {
        let j = choose|j: int| 0 <= j < i && labels[j] == o;
        lemma_first_match_from(labels, o, j);
    } else {
        assert(is_first_match(labels, o, i));
    }
}

/// Two votes by one account, both in time and both for options of the poll,
/// succeed; afterwards the account's single ballot names the second option,
/// every other ballot is as before, and voting the same option twice gives
/// the same poll as voting it once.
pub proof fn lemma_last_vote_wins(
    p: PollModel,
    a: AccountAddress,
    o1: Seq<char>,
    o2: Seq<char>,
    t1: u64,
    t2: u64,
)
    requires
        p.options.len() <= u32::MAX,
        p.options.contains(o1),
        p.options.contains(o2),
        t1 <= p.end_time,
        t2 <= p.end_time,
    ensures
        p.cast(t1, Address::Account(a), o1) is Ok,
        ({
            let q = p.cast(t1, Address::Account(a), o1)->Ok_0;
            &&& q.cast(t2, Address::Account(a), o2) is Ok
            &&& ({
                let r = q.cast(t2, Address::Account(a), o2)->Ok_0;
                &&& r.ballots.contains_key(a)
                &&& r.options[r.ballots[a] as int] == o2
                &&& r.ballots == p.ballots.insert(a, r.ballots[a])
                &&& r.description == p.description
                &&& r.options == p.options
                &&& r.end_time == p.end_time
                &&& (o1 == o2 ==> r == q)
            })
        }),
{
    lemma_first_match(p.options, o1);
    lemma_first_match(p.options, o2);
    let q = p.cast(t1, Address::Account(a), o1)->Ok_0;
    let r = q.cast(t2, Address::Account(a), o2)->Ok_0;
    let f2 = first_match(p.options, o2);
    assert((f2 as u32) as int == f2);
    assert(r.ballots =~= p.ballots.insert(a, r.ballots[a]));
    if o1 == o2 {
        assert(r.ballots =~= q.ballots);
    }
}

/// A vote after the end time fails with `VotingFinished`, whatever the
/// sender and the label; a vote by an account exactly at the end time, for an
/// option of the poll, succeeds.
pub proof fn lemma_deadline(p: PollModel, now: u64, sender: Address, o: Seq<char>)
    ensures
        now > p.end_time ==> p.cast(now, sender, o) == Err::<PollModel, Error>(Error::VotingFinished),
        now == p.end_time && sender is Account && p.options.contains(o) ==> p.cast(now, sender, o) is Ok,
{
}

/// A vote by a contract fails with `ContractVoter` whenever it is in time,
/// whatever the label.
pub proof fn lemma_contract_voter(p: PollModel, now: u64, sender: Address, o: Seq<char>)
    requires
        sender is Contract,
    ensures
        now <= p.end_time ==> p.cast(now, sender, o) == Err::<PollModel, Error>(Error::ContractVoter),
        p.cast(now, sender, o) is Err,
{
}

/// A vote for a label that is not an option of the poll fails, with
/// `InvalidVotingOption` when it comes in time from an account.
pub proof fn lemma_invalid_option(p: PollModel, now: u64, sender: Address, o: Seq<char>)
    requires
        !p.options.contains(o),
    ensures
        p.cast(now, sender, o) is Err,
        now <= p.end_time && sender is Account ==> p.cast(now, sender, o) == Err::<PollModel, Error>(
            Error::InvalidVotingOption,
        ),
{
}

} // verus!
