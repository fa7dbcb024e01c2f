//! Epochs, the contract's configuration, and the record of who claimed what.
use vstd::prelude::*;
use crate::asset::{amount_in, amount_of, keys_unique, is_empty_pool, Asset, AssetInfo, AssetKey};

verus! {

/// The largest grace period the protocol accepts.
pub const MAX_GRACE_PERIOD: u64 = 10;

/// An accounting period and the fees collected into it.
#[derive(Debug)]
pub struct Epoch {
    pub id: u64,
    /// Seconds since the Unix epoch.
    pub start_time: u64,
    /// All fees the epoch received.
    pub total: Vec<Asset>,
    /// What is left to claim.
    pub available: Vec<Asset>,
    /// What has been claimed so far.
    pub claimed: Vec<Asset>,
}

impl Epoch {
    /// The epoch's total of `info`.
    pub fn total_of(&self, info: &AssetInfo) -> (r: u128)
        requires
            self.pools_unique(),
        ensures
            r as nat == amount_of(self.total@, info.key()),
    {
        amount_in(&self.total, info)
    }

    /// What the epoch still has available of `info`.
    pub fn available_of(&self, info: &AssetInfo) -> (r: u128)
        requires
            self.pools_unique(),
        ensures
            r as nat == amount_of(self.available@, info.key()),
    {
        amount_in(&self.available, info)
    }

    /// What has been claimed of `info` in this epoch.
    pub fn claimed_of(&self, info: &AssetInfo) -> (r: u128)
        requires
            self.pools_unique(),
        ensures
            r as nat == amount_of(self.claimed@, info.key()),
    {
        amount_in(&self.claimed, info)
    }

    /// Each of the three pools lists an asset at most once.
    pub open spec fn pools_unique(&self) -> bool {
        keys_unique(self.total@) && keys_unique(self.available@) && keys_unique(self.claimed@)
    }

    /// Every fee is either still available or claimed.
    pub open spec fn balanced(&self) -> bool {
        forall|k: AssetKey| #[trigger] amount_of(self.total@, k)
            == amount_of(self.available@, k) + amount_of(self.claimed@, k)
    }

    /// What is available has been carried into a later epoch.
    pub open spec fn forwarded(&self) -> bool {
        is_empty_pool(self.available@)
    }
}

/// How epochs are laid out in time.
pub struct EpochConfig {
    /// Length of an epoch, in seconds.
    pub duration: u64,
    /// Start of the first epoch, in seconds since the Unix epoch.
    pub genesis_epoch: u64,
}

pub struct Config {
    pub owner: String,
    /// The contract that measures each address's bonding weight.
    pub bonding_contract_addr: String,
    /// The contract that gathers fees and forwards them on each new epoch.
    pub fee_collector_addr: String,
    /// How many of the most recent epochs can be claimed.
    pub grace_period: u64,
    pub epoch_config: EpochConfig,
}

/// The highest epoch an address has claimed.
pub struct ClaimRecord {
    pub address: String,
    pub epoch_id: u64,
}

/// The epoch an address last claimed; the latest record for it counts.
pub open spec fn last_claimed_of(records: Seq<ClaimRecord>, address: Seq<char>) -> Option<u64>
    decreases records.len(),
{
    if records.len() == 0 {
        None
    } else if records.last().address@ == address {
        Some(records.last().epoch_id)
    } else {
        last_claimed_of(records.drop_last(), address)
    }
}

pub open spec fn valid_grace_period(grace_period: u64) -> bool {
    1 <= grace_period <= MAX_GRACE_PERIOD
}

/// Accepts a grace period from one to the protocol maximum.
pub fn validate_grace_period(grace_period: u64) -> (r: bool)
    ensures
        r == valid_grace_period(grace_period),
{
    grace_period >= 1 && grace_period <= MAX_GRACE_PERIOD
}

pub proof fn lemma_last_claimed_update(records: Seq<ClaimRecord>, j: int, rec: ClaimRecord, address: Seq<char>)
    requires
        0 <= j < records.len(),
        rec.address@ == records[j].address@,
        forall|i: int| j < i < records.len() ==> #[trigger] records[i].address@ != records[j].address@,
    ensures
        last_claimed_of(records.update(j, rec), address) == if address == rec.address@ {
            Some(rec.epoch_id)
        } else {
            last_claimed_of(records, address)
        },
    decreases records.len(),
{
    let n = records.len() - 1;
    if j == n {
        assert(records.update(j, rec).drop_last() =~= records.drop_last());
    } else {
        assert(records.update(j, rec).drop_last() =~= records.drop_last().update(j, rec));
        assert(records[n].address@ != records[j].address@);
        lemma_last_claimed_update(records.drop_last(), j, rec, address);
    }
}

/// Looks up the epoch an address last claimed.
pub fn find_last_claimed(records: &Vec<ClaimRecord>, address: &String) -> (r: Option<u64>)
    ensures
        r == last_claimed_of(records@, address@),
{
    let mut j: usize = records.len();
    assert(records@.take(j as int) =~= records@);
    while j > 0
        invariant
            j <= records@.len(),
            last_claimed_of(records@, address@) == last_claimed_of(records@.take(j as int), address@),
        decreases j,
    {
        let ghost prefix = records@.take(j as int);
        assert(prefix.drop_last() =~= records@.take(j - 1));
        if records[j - 1].address == *address {
            return Some(records[j - 1].epoch_id);
        }
        j = j - 1;
    }
    None
}

/// Records that `address` has claimed up to `epoch_id`.
pub fn set_last_claimed(records: &mut Vec<ClaimRecord>, address: &String, epoch_id: u64)
    ensures
        forall|a: Seq<char>| #[trigger] last_claimed_of(final(records)@, a)
            == if a == address@ { Some(epoch_id) } else { last_claimed_of(old(records)@, a) },
{
    let rec = ClaimRecord { address: address.clone(), epoch_id };
    let mut j: usize = records.len();
    while j > 0
        invariant
            j <= records@.len(),
            records@ == old(records)@,
            rec.address@ == address@,
            rec.epoch_id == epoch_id,
            forall|i: int| j <= i < records@.len() ==> #[trigger] records@[i].address@ != address@,
        decreases j,
    {
        if records[j - 1].address == *address {
            proof {
                assert(records@[j - 1].address@ == address@);
                assert forall|a: Seq<char>| #[trigger] last_claimed_of(records@.update(j - 1, rec), a)
                    == if a == address@ { Some(epoch_id) } else { last_claimed_of(records@, a) } by {
                    lemma_last_claimed_update(records@, j - 1, rec, a);
                }
            }
            records.set(j - 1, rec);
            return;
        }
        j = j - 1;
    }
    proof {
        assert forall|a: Seq<char>| #[trigger] last_claimed_of(records@.push(rec), a)
            == if a == address@ { Some(epoch_id) } else { last_claimed_of(records@, a) } by {
            assert(records@.push(rec).drop_last() =~= records@);
        }
    }
    records.push(rec);
}

} // verus!
