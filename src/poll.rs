use vstd::prelude::*;
use crate::address::{
    account_lt, lemma_account_lt_irreflexive, lemma_account_lt_total, lemma_account_lt_transitive,
    AccountAddress, Address, Timestamp,
};

verus! {

/// Why a call was rejected.
#[derive(Clone, Copy, Debug, PartialEq, Eq, Structural)]
pub enum Error {
    /// The parameter could not be decoded.
    ParseParams,
    /// The vote came after the poll's end time.
    VotingFinished,
    /// The vote came from a contract rather than an individual account.
    ContractVoter,
    /// The label is not one of the poll's options.
    InvalidVotingOption,
}

/// What a poll is created from.
pub struct InitParameter {
    pub description: String,
    pub options: Vec<String>,
    pub end_time: Timestamp,
}

/// The whole state of a poll: its fixed metadata and the ballot of each voter.
///
/// `ballots` holds one entry per account that voted, in increasing order of
/// address; each entry is the index of the option that the account chose last.
pub struct State {
    pub description: String,
    pub options: Vec<String>,
    pub end_time: Timestamp,
    pub ballots: Vec<(AccountAddress, u32)>,
}

/// The mathematical content of a poll.
pub struct PollModel {
    pub description: Seq<char>,
    pub options: Seq<Seq<char>>,
    pub end_time: u64,
    pub ballots: Map<AccountAddress, u32>,
}

/// The labels of a list of options.
pub open spec fn labels(options: Seq<String>) -> Seq<Seq<char>> {
    options.map_values(|s: String| s@)
}

/// No account occurs twice among the entries.
pub open spec fn distinct_voters(entries: Seq<(AccountAddress, u32)>) -> bool {
    forall|i: int, j: int|
        0 <= i < entries.len() && 0 <= j < entries.len() && i != j ==> entries[i].0 != entries[j].0
}

/// The map from account to chosen index that a list of entries stands for;
/// a later entry for the same account wins.
pub open spec fn ballot_map(entries: Seq<(AccountAddress, u32)>) -> Map<AccountAddress, u32>
    decreases entries.len(),
{
    if entries.len() == 0 {
        Map::empty()
    } else {
        ballot_map(entries.drop_last()).insert(entries.last().0, entries.last().1)
    }
}

/// `i` is the position of the first option labelled `o`.
pub open spec fn is_first_match(labels: Seq<Seq<char>>, o: Seq<char>, i: int) -> bool {
    &&& 0 <= i < labels.len()
    &&& labels[i] == o
    &&& forall|j: int| 0 <= j < i ==> labels[j] != o
}

/// The position of the first option labelled `o` (meaningful when one exists).
pub open spec fn first_match(labels: Seq<Seq<char>>, o: Seq<char>) -> int {
    choose|i: int| is_first_match(labels, o, i)
}

impl PollModel {
    /// The outcome of a vote for `option` by `sender` at time `now` (in
    /// milliseconds): the new poll, or the first check that fails.
    pub open spec fn cast(self, now: u64, sender: Address, option: Seq<char>) -> Result<PollModel, Error> {
        if now > self.end_time {
            Err(Error::VotingFinished)
        } else {
            match sender {
                Address::Contract(_) => Err(Error::ContractVoter),
                Address::Account(acc) => {
                    if self.options.contains(option) {
                        Ok(PollModel {
                            ballots: self.ballots.insert(acc, first_match(self.options, option) as u32),
                            ..self
                        })
                    } else {
                        Err(Error::InvalidVotingOption)
                    }
                },
            }
        }
    }

    /// The outcome of a vote whose label was decoded as `decoded`, `None`
    /// standing for a parameter that could not be decoded: the deadline and
    /// the sender are checked before the parameter.
    pub open spec fn cast_decoded(self, now: u64, sender: Address, decoded: Option<Seq<char>>) -> Result<PollModel, Error> {
        match decoded {
            Some(option) => self.cast(now, sender, option),
            None => if now > self.end_time {
                Err(Error::VotingFinished)
            } else if sender is Contract {
                Err(Error::ContractVoter)
            } else {
                Err(Error::ParseParams)
            },
        }
    }
}

/// The view of an optional label.
pub open spec fn decoded_view(decoded: Option<String>) -> Option<Seq<char>> {
    match decoded {
        Some(s) => Some(s@),
        None => None,
    }
}

impl View for State {
    type V = PollModel;

    open spec fn view(&self) -> PollModel {
        PollModel {
            description: self.description@,
            options: labels(self.options@),
            end_time: self.end_time.millis,
            ballots: ballot_map(self.ballots@),
        }
    }
}

/// The accounts of the entries are in strictly increasing order.
pub open spec fn sorted_voters(entries: Seq<(AccountAddress, u32)>) -> bool {
    forall|i: int, j: int| 0 <= i < j < entries.len() ==> account_lt(#[trigger] entries[i].0, #[trigger] entries[j].0)
}

/// Entries in strictly increasing order of account have distinct accounts.
pub proof fn lemma_sorted_distinct(entries: Seq<(AccountAddress, u32)>)
    requires
        sorted_voters(entries),
    ensures
        distinct_voters(entries),
{
    assert forall|i: int, j: int| 0 <= i < entries.len() && 0 <= j < entries.len() && i != j implies entries[i].0
        != entries[j].0 by {
        if i < j {
            lemma_account_lt_irreflexive(entries[i].0, entries[j].0);
        } else {
            lemma_account_lt_irreflexive(entries[j].0, entries[i].0);
        }
    }
}

impl State {
    /// Voters are in increasing order of address, hence distinct, every recorded index names an option, and every
    /// option index fits a `u32`.
    pub open spec fn wf(&self) -> bool {
        &&& sorted_voters(self.ballots@)
        &&& distinct_voters(self.ballots@)
        &&& forall|i: int| 0 <= i < self.ballots@.len() ==> (self.ballots@[i].1 as int) < self.options@.len()
        &&& self.options@.len() <= u32::MAX
    }
}

impl State {
    /// Creates a poll from its parameter, with no ballots.
    pub fn init(parameter: InitParameter) -> (r: State)
        requires
            parameter.options@.len() <= u32::MAX,
        ensures
            r.wf(),
            r.description == parameter.description,
            r.options == parameter.options,
            r.end_time == parameter.end_time,
            r.ballots@.len() == 0,
            r@.description == parameter.description@,
            r@.options == labels(parameter.options@),
            r@.end_time == parameter.end_time.millis,
            r@.ballots == Map::<AccountAddress, u32>::empty(),
    {
        State {
            description: parameter.description,
            options: parameter.options,
            end_time: parameter.end_time,
            ballots: Vec::new(),
        }
    }

    /// Casts or replaces the vote of `sender` for the option labelled
    /// `option`, at time `now`.
    ///
    /// The checks come in this order, and the first that fails decides the
    /// error: the poll has not ended (`now` equal to the end time is still in
    /// time), the sender is an individual account, the label is one of the
    /// options. On success the account's ballot holds the index of the first
    /// option with that label; on failure nothing changes.
    pub fn vote(&mut self, now: Timestamp, sender: Address, option: &String) -> (r: Result<(), Error>)
        requires
            old(self).wf(),
        ensures
            final(self).wf(),
            final(self).description == old(self).description,
            final(self).options == old(self).options,
            final(self).end_time == old(self).end_time,
            match old(self)@.cast(now.millis, sender, option@) {
                Ok(m) => r is Ok && final(self)@ == m,
                Err(e) => r == Err::<(), Error>(e) && *final(self) == *old(self),
            },
    {
        if now.millis > self.end_time.millis {
            return Err(Error::VotingFinished);
        }
        let acc = match sender {
            Address::Account(acc) => acc,
            Address::Contract(_) => {
                return Err(Error::ContractVoter);
            },
        };
        let ghost opts = labels(self.options@);
        let mut j: usize = 0;
        let mut found = false;
        while j < self.options.len()
            invariant_except_break
                !found,
            invariant
                0 <= j <= self.options@.len(),
                opts == labels(self.options@),
                forall|k: int| 0 <= k < j ==> opts[k] != option@,
            ensures
                found ==> j < self.options@.len() && opts[j as int] == option@,
                !found ==> j == self.options@.len(),
            decreases self.options@.len() - j,
        {
            if self.options[j] == *option {
                found = true;
                break;
            }
            j = j + 1;
        }
        if !found {
            assert(!opts.contains(option@));
            return Err(Error::InvalidVotingOption);
        }
        proof {
            assert(is_first_match(opts, option@, j as int));
            let f = first_match(opts, option@);
            assert(is_first_match(opts, option@, f));
            assert(f == j);
        }
        let index = j as u32;
        let ghost entries = self.ballots@;
        let mut i: usize = 0;
        while i < self.ballots.len()
            invariant
                0 <= i <= self.ballots@.len(),
                *self == *old(self),
                self.ballots@ == entries,
                forall|k: int| 0 <= k < i ==> account_lt(#[trigger] entries[k].0, acc),
            ensures
                0 <= i <= entries.len(),
                *self == *old(self),
                forall|k: int| 0 <= k < i ==> account_lt(#[trigger] entries[k].0, acc),
                i < entries.len() ==> !account_lt(entries[i as int].0, acc),
            decreases self.ballots@.len() - i,
        {
            if !self.ballots[i].0.precedes(&acc) {
                break;
            }
            i = i + 1;
        }
        if i < self.ballots.len() && self.ballots[i].0.same_account(&acc) {
            self.ballots[i] = (acc, index);
            proof {
                assert(self.ballots@ =~= entries.update(i as int, (entries[i as int].0, index)));
                assert(forall|k: int| 0 <= k < self.ballots@.len() ==> self.ballots@[k].0 == entries[k].0);
                lemma_ballot_map_overwrite(entries, i as int, index);
                assert(self@.ballots == old(self)@.ballots.insert(acc, index));
            }
            return Ok(());
        }
        proof {
            if i < entries.len() {
                lemma_account_lt_total(acc, entries[i as int].0);
                assert forall|k: int| i < k < entries.len() implies account_lt(acc, #[trigger] entries[k].0) by {
                    lemma_account_lt_transitive(acc, entries[i as int].0, entries[k].0);
                }
            }
            assert forall|k: int| 0 <= k < entries.len() implies #[trigger] entries[k].0 != acc by {
                if k < i {
                    lemma_account_lt_irreflexive(entries[k].0, acc);
                } else {
                    lemma_account_lt_irreflexive(acc, entries[k].0);
                }
            }
        }
        self.ballots.insert(i, (acc, index));
        proof {
            let n = self.ballots@;
            assert(n == entries.insert(i as int, (acc, index)));
            lemma_ballot_map_insert(entries, i as int, acc, index);
            assert forall|p: int, q: int| 0 <= p < q < n.len() implies account_lt(
                #[trigger] n[p].0,
                #[trigger] n[q].0,
            ) by {
                if q < i {
                } else if q == i {
                    assert(n[p] == entries[p]);
                } else if p < i {
                    assert(n[p] == entries[p] && n[q] == entries[q - 1]);
                } else if p == i {
                    assert(n[q] == entries[q - 1]);
                } else {
                    assert(n[p] == entries[p - 1] && n[q] == entries[q - 1]);
                }
            }
            lemma_sorted_distinct(n);
        }
        Ok(())
    }
}

impl State {
    /// Casts a vote whose parameter was decoded as `decoded`, or could not be
    /// decoded (`None`): as `vote`, with `ParseParams` for an undecodable
    /// parameter once the deadline and the sender have passed.
    pub fn vote_parameter(&mut self, now: Timestamp, sender: Address, decoded: Option<String>) -> (r: Result<(), Error>)
        requires
            old(self).wf(),
        ensures
            final(self).wf(),
            final(self).description == old(self).description,
            final(self).options == old(self).options,
            final(self).end_time == old(self).end_time,
            match old(self)@.cast_decoded(now.millis, sender, decoded_view(decoded)) {
                Ok(m) => r is Ok && final(self)@ == m,
                Err(e) => r == Err::<(), Error>(e) && *final(self) == *old(self),
            },
    {
        match decoded {
            Some(option) => self.vote(now, sender, &option),
            None => {
                if now.millis > self.end_time.millis {
                    Err(Error::VotingFinished)
                } else {
                    match sender {
                        Address::Contract(_) => Err(Error::ContractVoter),
                        Address::Account(_) => Err(Error::ParseParams),
                    }
                }
            },
        }
    }

    /// The index of the option that `acc` voted for last, if it has voted.
    pub fn ballot_of(&self, acc: &AccountAddress) -> (r: Option<u32>)
        requires
            self.wf(),
        ensures
            r is Some <==> self@.ballots.contains_key(*acc),
            r is Some ==> r->Some_0 == self@.ballots[*acc],
    {
        let mut i: usize = 0;
        while i < self.ballots.len()
            invariant
                self.wf(),
                0 <= i <= self.ballots@.len(),
                forall|k: int| 0 <= k < i ==> self.ballots@[k].0 != *acc,
            decreases self.ballots@.len() - i,
        {
            if self.ballots[i].0.same_account(acc) {
                proof {
                    lemma_ballot_map_entry(self.ballots@, i as int);
                }
                return Some(self.ballots[i].1);
            }
            i = i + 1;
        }
        proof {
            lemma_ballot_map_keys(self.ballots@, *acc);
        }
        None
    }

    /// Whether the state is well formed: the check to make on a state that
    /// was stored and read back before voting on it or counting it.
    pub fn is_well_formed(&self) -> (r: bool)
        ensures
            r == self.wf(),
    {
        if self.options.len() as u64 > u32::MAX as u64 {
            return false;
        }
        let n = self.ballots.len();
        let mut i: usize = 0;
        while i < n
            invariant
                n == self.ballots@.len(),
                0 <= i <= n,
                self.options@.len() <= u32::MAX,
                forall|k: int| 0 <= k < i ==> (self.ballots@[k].1 as int) < self.options@.len(),
                forall|k: int, l: int|
                    0 <= k < i && k < l < n ==> account_lt(#[trigger] self.ballots@[k].0, #[trigger] self.ballots@[l].0),
            decreases n - i,
        {
            if self.ballots[i].1 as usize >= self.options.len() {
                return false;
            }
            let mut j: usize = i + 1;
            while j < n
                invariant
                    n == self.ballots@.len(),
                    0 <= i < n,
                    i < j <= n,
                    forall|l: int| i < l < j ==> account_lt(self.ballots@[i as int].0, #[trigger] self.ballots@[l].0),
                decreases n - j,
            {
                if !self.ballots[i].0.precedes(&self.ballots[j].0) {
                    return false;
                }
                j = j + 1;
            }
            i = i + 1;
        }
        proof {
            lemma_sorted_distinct(self.ballots@);
        }
        true
    }
}

/// An entry's account is a key of the map, with that entry's index.
pub proof fn lemma_ballot_map_entry(entries: Seq<(AccountAddress, u32)>, i: int)
    requires
        distinct_voters(entries),
        0 <= i < entries.len(),
    ensures
        ballot_map(entries).contains_key(entries[i].0),
        ballot_map(entries)[entries[i].0] == entries[i].1,
    decreases entries.len(),
{
    if i < entries.len() - 1 {
        let rest = entries.drop_last();
        assert(rest[i] == entries[i]);
        lemma_ballot_map_entry(rest, i);
    }
}

/// The keys of the map are exactly the accounts of the entries.
pub proof fn lemma_ballot_map_keys(entries: Seq<(AccountAddress, u32)>, a: AccountAddress)
    ensures
        ballot_map(entries).contains_key(a) <==> exists|i: int| 0 <= i < entries.len() && entries[i].0 == a,
    decreases entries.len(),
{
    if entries.len() > 0 {
        let rest = entries.drop_last();
        lemma_ballot_map_keys(rest, a);
        if ballot_map(entries).contains_key(a) {
            if a != entries.last().0 {
                let i = choose|i: int| 0 <= i < rest.len() && rest[i].0 == a;
                assert(entries[i] == rest[i]);
            } else {
                assert(entries[entries.len() - 1].0 == a);
            }
        }
        if exists|i: int| 0 <= i < entries.len() && entries[i].0 == a {
            let i = choose|i: int| 0 <= i < entries.len() && entries[i].0 == a;
            if i < entries.len() - 1 {
                assert(rest[i] == entries[i]);
            }
        }
    }
}

/// Overwriting the entry of an account replaces its value in the map.
pub proof fn lemma_ballot_map_overwrite(entries: Seq<(AccountAddress, u32)>, i: int, v: u32)
    requires
        distinct_voters(entries),
        0 <= i < entries.len(),
    ensures
        ballot_map(entries.update(i, (entries[i].0, v))) == ballot_map(entries).insert(entries[i].0, v),
    decreases entries.len(),
{
    let a = entries[i].0;
    let updated = entries.update(i, (a, v));
    let rest = entries.drop_last();
    if i == entries.len() - 1 {
        assert(updated.drop_last() =~= rest);
        assert(ballot_map(updated) =~= ballot_map(entries).insert(a, v));
    } else {
        assert(updated.drop_last() =~= rest.update(i, (a, v)));
        assert(rest[i] == entries[i]);
        lemma_ballot_map_overwrite(rest, i, v);
        assert(entries.last().0 != a);
        assert(ballot_map(updated) =~= ballot_map(entries).insert(a, v));
    }
}

/// Inserting an entry for a new account adds it to the map.
pub proof fn lemma_ballot_map_insert(entries: Seq<(AccountAddress, u32)>, p: int, a: AccountAddress, v: u32)
    requires
        0 <= p <= entries.len(),
        forall|k: int| 0 <= k < entries.len() ==> #[trigger] entries[k].0 != a,
    ensures
        ballot_map(entries.insert(p, (a, v))) == ballot_map(entries).insert(a, v),
    decreases entries.len(),
{
    let inserted = entries.insert(p, (a, v));
    if p == entries.len() {
        assert(inserted =~= entries.push((a, v)));
        lemma_ballot_map_push(entries, a, v);
    } else {
        let rest = entries.drop_last();
        assert(inserted.drop_last() =~= rest.insert(p, (a, v)));
        assert(inserted.last() == entries.last());
        assert(forall|k: int| 0 <= k < rest.len() ==> rest[k] == entries[k]);
        lemma_ballot_map_insert(rest, p, a, v);
        assert(entries.last().0 != a);
        assert(ballot_map(inserted) =~= ballot_map(entries).insert(a, v));
    }
}

/// Appending an entry adds its account to the map.
pub proof fn lemma_ballot_map_push(entries: Seq<(AccountAddress, u32)>, a: AccountAddress, v: u32)
    ensures
        ballot_map(entries.push((a, v))) == ballot_map(entries).insert(a, v),
{
    assert(entries.push((a, v)).drop_last() =~= entries);
}

} // verus!
