use vstd::prelude::*;
use crate::address::AccountAddress;
use crate::poll::{ballot_map, distinct_voters, lemma_ballot_map_keys, State};

verus! {

/// The result of a tally: each option that received a vote, with its number
/// of votes, in the order of the poll's options.
pub struct ViewData {
    pub tally: Vec<(String, u32)>,
}

impl View for ViewData {
    type V = Seq<(Seq<char>, nat)>;

    open spec fn view(&self) -> Seq<(Seq<char>, nat)> {
        self.tally@.map_values(|p: (String, u32)| (p.0@, p.1 as nat))
    }
}

/// The accounts whose ballot holds index `k`.
pub open spec fn voters_for(ballots: Map<AccountAddress, u32>, k: int) -> Set<AccountAddress> {
    ballots.dom().filter(|a: AccountAddress| ballots[a] as int == k)
}

/// The number of accounts whose ballot holds index `k`.
pub open spec fn votes_for(ballots: Map<AccountAddress, u32>, k: int) -> nat {
    voters_for(ballots, k).len()
}

/// The tally of the first `n` options: each label with its number of votes,
/// leaving out the options that have none.
pub open spec fn tally_of(labels: Seq<Seq<char>>, ballots: Map<AccountAddress, u32>, n: int) -> Seq<(Seq<char>, nat)>
    decreases n,
{
    if n <= 0 {
        Seq::empty()
    } else {
        let prev = tally_of(labels, ballots, n - 1);
        let c = votes_for(ballots, n - 1);
        if c > 0 {
            prev.push((labels[n - 1], c))
        } else {
            prev
        }
    }
}

/// The number of entries that hold index `k`.
pub open spec fn count_entries(entries: Seq<(AccountAddress, u32)>, k: int) -> nat
    decreases entries.len(),
{
    if entries.len() == 0 {
        0
    } else {
        count_entries(entries.drop_last(), k) + if entries.last().1 as int == k {
            1nat
        } else {
            0nat
        }
    }
}

proof fn lemma_count_entries_bound(entries: Seq<(AccountAddress, u32)>, k: int)
    ensures
        count_entries(entries, k) <= entries.len(),
    decreases entries.len(),
{
    if entries.len() > 0 {
        lemma_count_entries_bound(entries.drop_last(), k);
    }
}

proof fn lemma_ballot_map_finite(entries: Seq<(AccountAddress, u32)>)
    ensures
        ballot_map(entries).dom().finite(),
    decreases entries.len(),
{
    if entries.len() > 0 {
        lemma_ballot_map_finite(entries.drop_last());
    }
}

/// With distinct voters, counting entries counts accounts.
pub proof fn lemma_count_entries_votes(entries: Seq<(AccountAddress, u32)>, k: int)
    requires
        distinct_voters(entries),
    ensures
        count_entries(entries, k) == votes_for(ballot_map(entries), k),
    decreases entries.len(),
{
    if entries.len() == 0 {
        assert(voters_for(ballot_map(entries), k) =~= Set::empty());
    } else {
        let rest = entries.drop_last();
        let (a, v) = entries.last();
        assert(distinct_voters(rest));
        lemma_count_entries_votes(rest, k);
        lemma_ballot_map_finite(rest);
        lemma_ballot_map_keys(rest, a);
        if ballot_map(rest).contains_key(a) {
            let i = choose|i: int| 0 <= i < rest.len() && rest[i].0 == a;
            assert(entries[i].0 == entries[entries.len() - 1].0);
        }
        let old_m = ballot_map(rest);
        let new_m = ballot_map(entries);
        let old_f = voters_for(old_m, k);
        let new_f = voters_for(new_m, k);
        assert(old_f.finite());
        assert(!old_f.contains(a));
        if v as int == k {
            assert(new_f =~= old_f.insert(a));
            assert(new_f.len() == old_f.len() + 1);
        } else {
            assert(new_f =~= old_f);
        }
    }
}

/// The sum of the counts of a tally.
pub open spec fn sum_counts(t: Seq<(Seq<char>, nat)>) -> nat
    decreases t.len(),
{
    if t.len() == 0 {
        0
    } else {
        sum_counts(t.drop_last()) + t.last().1
    }
}

/// The number of votes for the first `n` options.
pub open spec fn total_votes(ballots: Map<AccountAddress, u32>, n: int) -> nat
    decreases n,
{
    if n <= 0 {
        0
    } else {
        total_votes(ballots, n - 1) + votes_for(ballots, n - 1)
    }
}

spec fn entries_total(entries: Seq<(AccountAddress, u32)>, n: int) -> nat
    decreases n,
{
    if n <= 0 {
        0
    } else {
        entries_total(entries, n - 1) + count_entries(entries, n - 1)
    }
}

spec fn count_below(entries: Seq<(AccountAddress, u32)>, n: int) -> nat
    decreases entries.len(),
{
    if entries.len() == 0 {
        0
    } else {
        count_below(entries.drop_last(), n) + if (entries.last().1 as int) < n {
            1nat
        } else {
            0nat
        }
    }
}

proof fn lemma_count_below_step(entries: Seq<(AccountAddress, u32)>, n: int)
    requires
        n >= 1,
    ensures
        count_below(entries, n) == count_below(entries, n - 1) + count_entries(entries, n - 1),
    decreases entries.len(),
{
    if entries.len() > 0 {
        lemma_count_below_step(entries.drop_last(), n);
    }
}

proof fn lemma_entries_total(entries: Seq<(AccountAddress, u32)>, n: int)
    requires
        n >= 0,
    ensures
        entries_total(entries, n) == count_below(entries, n),
    decreases n,
{
    if n == 0 {
        lemma_count_below_zero(entries);
    } else {
        lemma_entries_total(entries, n - 1);
        lemma_count_below_step(entries, n);
    }
}

proof fn lemma_count_below_zero(entries: Seq<(AccountAddress, u32)>)
    ensures
        count_below(entries, 0) == 0,
    decreases entries.len(),
{
    if entries.len() > 0 {
        lemma_count_below_zero(entries.drop_last());
    }
}

proof fn lemma_count_below_all(entries: Seq<(AccountAddress, u32)>, n: int)
    requires
        forall|i: int| 0 <= i < entries.len() ==> (entries[i].1 as int) < n,
    ensures
        count_below(entries, n) == entries.len(),
    decreases entries.len(),
{
    if entries.len() > 0 {
        let rest = entries.drop_last();
        assert forall|i: int| 0 <= i < rest.len() implies (rest[i].1 as int) < n by {
            assert(rest[i] == entries[i]);
        }
        lemma_count_below_all(rest, n);
    }
}

proof fn lemma_ballot_map_len(entries: Seq<(AccountAddress, u32)>)
    requires
        distinct_voters(entries),
    ensures
        ballot_map(entries).dom().len() == entries.len(),
    decreases entries.len(),
{
    if entries.len() > 0 {
        let rest = entries.drop_last();
        let a = entries.last().0;
        assert(distinct_voters(rest));
        lemma_ballot_map_len(rest);
        lemma_ballot_map_finite(rest);
        lemma_ballot_map_keys(rest, a);
        if ballot_map(rest).contains_key(a) {
            let i = choose|i: int| 0 <= i < rest.len() && rest[i].0 == a;
            assert(entries[i].0 == entries[entries.len() - 1].0);
        }
        assert(ballot_map(entries).dom() =~= ballot_map(rest).dom().insert(a));
    }
}

proof fn lemma_total_votes(entries: Seq<(AccountAddress, u32)>, n: int)
    requires
        distinct_voters(entries),
        n >= 0,
    ensures
        total_votes(ballot_map(entries), n) == entries_total(entries, n),
    decreases n,
{
    if n > 0 {
        lemma_total_votes(entries, n - 1);
        lemma_count_entries_votes(entries, n - 1);
    }
}

proof fn lemma_tally_of_sum(labels: Seq<Seq<char>>, ballots: Map<AccountAddress, u32>, n: int)
    requires
        n >= 0,
    ensures
        sum_counts(tally_of(labels, ballots, n)) == total_votes(ballots, n),
    decreases n,
{
    if n > 0 {
        lemma_tally_of_sum(labels, ballots, n - 1);
        let prev = tally_of(labels, ballots, n - 1);
        let c = votes_for(ballots, n - 1);
        if c > 0 {
            assert(prev.push((labels[n - 1], c)).drop_last() =~= prev);
        }
    }
}

proof fn lemma_tally_of_entries(labels: Seq<Seq<char>>, ballots: Map<AccountAddress, u32>, n: int)
    requires
        0 <= n <= labels.len(),
    ensures
        forall|t: int| 0 <= t < tally_of(labels, ballots, n).len() ==> exists|k: int|
            0 <= k < n && votes_for(ballots, k) > 0 && #[trigger] tally_of(labels, ballots, n)[t] == (labels[k], votes_for(ballots, k)),
        forall|k: int| 0 <= k < n && #[trigger] votes_for(ballots, k) > 0 ==> exists|t: int|
            0 <= t < tally_of(labels, ballots, n).len() && tally_of(labels, ballots, n)[t] == (labels[k], votes_for(ballots, k)),
    decreases n,
{
    if n > 0 {
        lemma_tally_of_entries(labels, ballots, n - 1);
        let prev = tally_of(labels, ballots, n - 1);
        let cur = tally_of(labels, ballots, n);
        let c = votes_for(ballots, n - 1);
        assert forall|t: int| 0 <= t < cur.len() implies exists|k: int|
            0 <= k < n && votes_for(ballots, k) > 0 && #[trigger] cur[t] == (labels[k], votes_for(ballots, k)) by {
            if t < prev.len() {
                assert(cur[t] == prev[t]);
            } else {
                assert(cur[t] == (labels[n - 1], c));
            }
        }
        assert forall|k: int| 0 <= k < n && #[trigger] votes_for(ballots, k) > 0 implies exists|t: int|
            0 <= t < cur.len() && cur[t] == (labels[k], votes_for(ballots, k)) by {
            if k < n - 1 {
                let t = choose|t: int| 0 <= t < prev.len() && prev[t] == (labels[k], votes_for(ballots, k));
                assert(cur[t] == prev[t]);
            } else {
                assert(cur[prev.len() as int] == (labels[n - 1], c));
            }
        }
    }
}

/// The tally of a well-formed poll reports each option with at least one
/// ballot, with the number of distinct accounts whose ballot names it, and
/// reports no other option; its counts add up to the number of accounts that
/// hold a ballot.
pub proof fn lemma_tally_counts_voters(s: State)
    requires
        s.wf(),
    ensures
        ({
            let t = tally_of(s@.options, s@.ballots, s@.options.len() as int);
            &&& forall|i: int| 0 <= i < t.len() ==> exists|k: int|
                0 <= k < s@.options.len() && votes_for(s@.ballots, k) > 0 && #[trigger] t[i] == (s@.options[k], votes_for(s@.ballots, k))
            &&& forall|k: int| 0 <= k < s@.options.len() && #[trigger] votes_for(s@.ballots, k) > 0 ==> exists|i: int|
                0 <= i < t.len() && t[i] == (s@.options[k], votes_for(s@.ballots, k))
            &&& sum_counts(t) == s@.ballots.dom().len()
        }),
{
    let n = s@.options.len() as int;
    let entries = s.ballots@;
    lemma_tally_of_entries(s@.options, s@.ballots, n);
    lemma_tally_of_sum(s@.options, s@.ballots, n);
    lemma_total_votes(entries, n);
    lemma_entries_total(entries, n);
    lemma_count_below_all(entries, n);
    lemma_ballot_map_len(entries);
}

impl State {
    /// Counts the ballots: for each option that holds at least one ballot, its
    /// label and the number of accounts whose ballot names it, in the order of
    /// the options.
    pub fn tally(&self) -> (r: ViewData)
        requires
            self.wf(),
            self.ballots@.len() <= u32::MAX,
        ensures
            r@ == tally_of(self@.options, self@.ballots, self@.options.len() as int),
    {
        let n = self.options.len();
        let mut counts: Vec<u32> = Vec::new();
        while counts.len() < n
            invariant
                counts@.len() <= n,
                forall|k: int| 0 <= k < counts@.len() ==> counts@[k] == 0,
            decreases n - counts@.len(),
        {
            counts.push(0);
        }
        let ghost entries = self.ballots@;
        let mut i: usize = 0;
        while i < self.ballots.len()
            invariant
                self.wf(),
                entries == self.ballots@,
                entries.len() <= u32::MAX,
                n == self.options@.len(),
                0 <= i <= entries.len(),
                counts@.len() == n,
                forall|k: int| 0 <= k < n ==> counts@[k] == count_entries(entries.take(i as int), k),
            decreases entries.len() - i,
        {
            let idx = self.ballots[i].1 as usize;
            proof {
                assert(entries.take(i as int + 1).drop_last() =~= entries.take(i as int));
                lemma_count_entries_bound(entries.take(i as int), idx as int);
            }
            counts[idx] = counts[idx] + 1;
            i = i + 1;
        }
        proof {
            assert(entries.take(entries.len() as int) =~= entries);
            assert forall|k: int| 0 <= k < n implies counts@[k] == votes_for(ballot_map(entries), k) by {
                lemma_count_entries_votes(entries, k);
            }
        }
        let mut tally: Vec<(String, u32)> = Vec::new();
        let mut j: usize = 0;
        while j < n
            invariant
                n == self.options@.len(),
                counts@.len() == n,
                0 <= j <= n,
                entries == self.ballots@,
                forall|k: int| 0 <= k < n ==> counts@[k] == votes_for(ballot_map(entries), k),
                (ViewData { tally })@ == tally_of(self@.options, self@.ballots, j as int),
            decreases n - j,
        {
            if counts[j] > 0 {
                let label = self.options[j].clone();
                tally.push((label, counts[j]));
                assert((ViewData { tally })@ =~= tally_of(self@.options, self@.ballots, j as int + 1));
            }
            j = j + 1;
        }
        ViewData { tally }
    }
}

} // verus!
