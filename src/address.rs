use vstd::prelude::*;

verus! {

/// The address of an individual account: 32 raw bytes.
#[derive(Clone, Copy, Debug, PartialEq, Eq)]
pub struct AccountAddress(pub [u8; 32]);

/// The address of a contract instance.
#[derive(Clone, Copy, Debug, PartialEq, Eq, Structural)]
pub struct ContractAddress {
    pub index: u64,
    pub subindex: u64,
}

/// The authenticated sender of a call: an individual account or a contract.
#[derive(Clone, Copy, Debug, PartialEq, Eq)]
pub enum Address {
    Account(AccountAddress),
    Contract(ContractAddress),
}

/// `a` comes before `b` in the lexicographic order of their bytes.
pub open spec fn account_lt(a: AccountAddress, b: AccountAddress) -> bool {
    exists|k: int| 0 <= k < 32 && #[trigger] a.0[k] < b.0[k] && forall|j: int| 0 <= j < k ==> a.0[j] == b.0[j]
}

/// Two distinct addresses are ordered one way or the other.
pub proof fn lemma_account_lt_total(a: AccountAddress, b: AccountAddress)
    ensures
        a == b || account_lt(a, b) || account_lt(b, a),
{
    if a != b {
        lemma_first_difference(a, b, 0);
    }
}

proof fn lemma_first_difference(a: AccountAddress, b: AccountAddress, k: int)
    requires
        a != b,
        0 <= k <= 32,
        forall|j: int| 0 <= j < k ==> a.0[j] == b.0[j],
    ensures
        account_lt(a, b) || account_lt(b, a),
    decreases 32 - k,
{
    if k == 32 {
        assert(a.0 =~= b.0);
    } else if a.0[k] == b.0[k] {
        lemma_first_difference(a, b, k + 1);
    } else if a.0[k] < b.0[k] {
        assert(account_lt(a, b));
    } else {
        assert(forall|j: int| 0 <= j < k ==> b.0[j] == a.0[j]);
        assert(account_lt(b, a));
    }
}

/// The order is transitive.
pub proof fn lemma_account_lt_transitive(a: AccountAddress, b: AccountAddress, c: AccountAddress)
    requires
        account_lt(a, b),
        account_lt(b, c),
    ensures
        account_lt(a, c),
{
    let k1 = choose|k: int| 0 <= k < 32 && #[trigger] a.0[k] < b.0[k] && forall|j: int| 0 <= j < k ==> a.0[j] == b.0[j];
    let k2 = choose|k: int| 0 <= k < 32 && #[trigger] b.0[k] < c.0[k] && forall|j: int| 0 <= j < k ==> b.0[j] == c.0[j];
    if k1 <= k2 {
        assert(a.0[k1] < c.0[k1]);
    } else {
        assert(a.0[k2] < c.0[k2]);
    }
}

/// No address comes before itself.
pub proof fn lemma_account_lt_irreflexive(a: AccountAddress, b: AccountAddress)
    requires
        account_lt(a, b),
    ensures
        a != b,
{
}

impl AccountAddress {
    /// Whether this address comes before `other` in the order of their bytes.
    pub fn precedes(&self, other: &AccountAddress) -> (r: bool)
        ensures
            r == account_lt(*self, *other),
    {
        let mut i: usize = 0;
        while i < 32
            invariant
                0 <= i <= 32,
                forall|k: int| 0 <= k < i ==> self.0[k] == other.0[k],
            decreases 32 - i,
        {
            if self.0[i] != other.0[i] {
                if self.0[i] < other.0[i] {
                    return true;
                }
                proof {
                    assert forall|k: int| 0 <= k < 32 && #[trigger] self.0[k] < other.0[k] implies !(forall|j: int|
                        0 <= j < k ==> self.0[j] == other.0[j]) by {
                        if k > i {
                            assert(self.0[i as int] != other.0[i as int]);
                        }
                    }
                }
                return false;
            }
            i = i + 1;
        }
        false
    }

    /// Compares two account addresses byte by byte.
    pub fn same_account(&self, other: &AccountAddress) -> (r: bool)
        ensures
            r == (*self == *other),
    {
        let mut i: usize = 0;
        while i < 32
            invariant
                0 <= i <= 32,
                forall|k: int| 0 <= k < i ==> self.0[k] == other.0[k],
            decreases 32 - i,
        {
            if self.0[i] != other.0[i] {
                return false;
            }
            i = i + 1;
        }
        assert(self.0 =~= other.0);
        true
    }
}

/// A point in time, in milliseconds since the Unix epoch.
#[derive(Clone, Copy, Debug, PartialEq, Eq, Structural)]
pub struct Timestamp {
    pub millis: u64,
}

impl Timestamp {
    pub fn from_timestamp_millis(millis: u64) -> (r: Timestamp)
        ensures
            r.millis == millis,
    {
        Timestamp { millis }
    }

    pub fn timestamp_millis(&self) -> (r: u64)
        ensures
            r == self.millis,
    {
        self.millis
    }
}

} // verus!
