//! Claim settlement: each claimant's weighted reward over the epochs it has not claimed yet.
use vstd::prelude::*;
use crate::asset::{
    add_amount, amount_in, amount_of, keys_unique, lemma_amount_absent, lemma_amount_bounded, lemma_amount_prefix,
    lemma_amount_single, sub_amount, Asset, AssetInfo, AssetKey, MAX_AMOUNT,
};
use crate::distributor::FeeDistributor;
use crate::epoch::{last_claimed_of, set_last_claimed, find_last_claimed, Epoch};
use crate::error::ContractError;
use crate::share::{reward, reward_of, SHARE_ONE};

verus! {

/// What a claimant with `share` is owed of asset `k` in epoch `e`.
pub open spec fn epoch_reward(e: Epoch, k: AssetKey, share: u128) -> nat {
    reward_of(amount_of(e.total@, k), share)
}

/// No reward in `e` exceeds what `e` still has available.
pub open spec fn rewards_covered(e: Epoch, share: u128) -> bool {
    forall|k: AssetKey| #[trigger] epoch_reward(e, k, share) <= amount_of(e.available@, k)
}

/// The rewards of asset `k` over the epochs with index in `[lo, hi)`.
pub open spec fn rewards_sum(epochs: Seq<Epoch>, lo: int, hi: int, k: AssetKey, share: u128) -> nat
    decreases hi - lo,
{
    if hi <= lo {
        0
    } else {
        rewards_sum(epochs, lo, hi - 1, k, share) + epoch_reward(epochs[hi - 1], k, share)
    }
}

/// The reward on the first `j` entries of a pool.
pub open spec fn partial_reward(total: Seq<Asset>, j: int, k: AssetKey, share: u128) -> nat {
    reward_of(amount_of(total.take(j), k), share)
}

/// Epoch `after` is `before` with the claimant's rewards moved from available to claimed.
pub open spec fn settled(before: Epoch, after: Epoch, share: u128) -> bool {
    &&& after.id == before.id
    &&& after.start_time == before.start_time
    &&& after.total == before.total
    &&& forall|k: AssetKey| #[trigger] amount_of(after.available@, k)
        == amount_of(before.available@, k) - epoch_reward(before, k, share)
    &&& forall|k: AssetKey| #[trigger] amount_of(after.claimed@, k)
        == amount_of(before.claimed@, k) + epoch_reward(before, k, share)
}

pub proof fn lemma_reward_monotonic(a: nat, b: nat, share: u128)
    requires
        a <= b,
    ensures
        reward_of(a, share) <= reward_of(b, share),
{
    assert(a * share as nat <= b * share as nat) by (nonlinear_arith)
        requires a <= b;
    assert((a * share as nat) / (SHARE_ONE as nat) <= (b * share as nat) / (SHARE_ONE as nat)) by (nonlinear_arith)
        requires a * share as nat <= b * share as nat;
}

pub proof fn lemma_partial_step(total: Seq<Asset>, j: int, k: AssetKey, share: u128)
    requires
        keys_unique(total),
        0 <= j < total.len(),
    ensures
        partial_reward(total, j + 1, k, share) == partial_reward(total, j, k, share) + if total[j].info.key() == k {
            reward_of(total[j].amount as nat, share)
        } else {
            0nat
        },
        total[j].info.key() == k ==> amount_of(total.take(j), k) == 0,
{
    assert(total.take(j + 1).drop_last() =~= total.take(j));
    assert(total.take(j + 1).last() == total[j]);
    if total[j].info.key() == k {
        assert forall|i: int| 0 <= i < total.take(j).len() implies #[trigger] total.take(j)[i].info.key() != k by {
            assert(total[i].info.key() != total[j].info.key());
        }
        lemma_amount_absent(total.take(j), k);
        assert(reward_of(0, share) == 0);
    }
}

pub proof fn lemma_partial_full(total: Seq<Asset>, j: int, k: AssetKey, share: u128)
    requires
        0 <= j <= total.len(),
    ensures
        partial_reward(total, j, k, share) <= reward_of(amount_of(total, k), share),
        j == total.len() ==> partial_reward(total, j, k, share) == reward_of(amount_of(total, k), share),
{
    lemma_amount_prefix(total, j, k);
    lemma_reward_monotonic(amount_of(total.take(j), k), amount_of(total, k), share);
    if j == total.len() {
        assert(total.take(j) =~= total);
    }
}

pub proof fn lemma_rewards_sum_monotonic(epochs: Seq<Epoch>, lo: int, mid: int, hi: int, k: AssetKey, share: u128)
    requires
        lo <= mid <= hi,
    ensures
        rewards_sum(epochs, lo, mid, k, share) <= rewards_sum(epochs, lo, hi, k, share),
    decreases hi - mid,
{
    if mid < hi {
        lemma_rewards_sum_monotonic(epochs, lo, mid, hi - 1, k, share);
    }
}

/// Moves the claimant's reward of every asset of `e` from available to claimed.
fn settle_epoch(e: &mut Epoch, share: u128)
    requires
        old(e).pools_unique(),
        old(e).balanced() || old(e).forwarded(),
        rewards_covered(*old(e), share),
        share <= SHARE_ONE,
    ensures
        settled(*old(e), *final(e), share),
        final(e).pools_unique(),
        final(e).balanced() || final(e).forwarded(),
{
    let ghost orig = *e;
    let m = e.total.len();
    let mut j: usize = 0;
    proof {
        assert(reward_of(0, share) == 0);
        assert(orig.total@.take(0).len() == 0);
    }
    while j < m
        invariant
            share <= SHARE_ONE,
            e.pools_unique(),
            orig.pools_unique(),
            orig.balanced() || orig.forwarded(),
            rewards_covered(orig, share),
            e.id == orig.id,
            e.start_time == orig.start_time,
            e.total == orig.total,
            m == e.total@.len(),
            0 <= j <= m,
            forall|k: AssetKey| #[trigger] amount_of(e.available@, k)
                == amount_of(orig.available@, k) - partial_reward(orig.total@, j as int, k, share),
            forall|k: AssetKey| #[trigger] amount_of(e.claimed@, k)
                == amount_of(orig.claimed@, k) + partial_reward(orig.total@, j as int, k, share),
        decreases m - j,
    {
        let info = e.total[j].info.duplicate();
        let r = reward(e.total[j].amount, share);
        proof {
            let k = info.key();
            assert forall|x: AssetKey| #[trigger] partial_reward(orig.total@, j + 1, x, share)
                == partial_reward(orig.total@, j as int, x, share) + if x == k { r as nat } else { 0nat } by {
                lemma_partial_step(orig.total@, j as int, x, share);
            }
            lemma_partial_step(orig.total@, j as int, k, share);
            lemma_amount_single(orig.total@, j as int);
            assert(epoch_reward(orig, k, share) == r);
            assert(r <= amount_of(orig.available@, k));
            lemma_amount_bounded(orig.total@, k);
            lemma_amount_bounded(orig.claimed@, k);
            if orig.forwarded() {
                assert(amount_of(orig.available@, k) == 0);
            }
        }
        sub_amount(&mut e.available, &info, r);
        let added = add_amount(&mut e.claimed, &info, r);
        assert(added);
        j = j + 1;
    }
    proof {
        assert forall|k: AssetKey| #[trigger] partial_reward(orig.total@, m as int, k, share) == epoch_reward(orig, k, share) by {
            lemma_partial_full(orig.total@, m as int, k, share);
        }
        if !e.balanced() {
            assert forall|k: AssetKey| #[trigger] amount_of(e.available@, k) == 0 by {
                assert(amount_of(orig.available@, k) == 0);
            }
        }
    }
}

impl FeeDistributor {
    /// The lowest epoch index that `address` may still claim.
    pub open spec fn claim_start(&self, address: Seq<char>) -> int {
        match last_claimed_of(self.last_claimed@, address) {
            Some(l) => if l + 1 > self.window_start() {
                l + 1
            } else {
                self.window_start()
            },
            None => self.window_start(),
        }
    }

    /// Every candidate epoch from `lo` on covers its rewards.
    pub open spec fn all_covered(&self, lo: int, share: u128) -> bool {
        forall|i: int| lo <= i < self.epochs@.len() ==> rewards_covered(#[trigger] self.epochs@[i], share)
    }

    /// The aggregate reward of every asset fits in 128 bits.
    pub open spec fn sums_fit(&self, lo: int, share: u128) -> bool {
        forall|k: AssetKey| #[trigger] rewards_sum(self.epochs@, lo, self.epochs@.len() as int, k, share) <= MAX_AMOUNT
    }

    /// The first index `address` may still claim, computed as `claim_start` says.
    fn claim_start_index(&self, address: &String) -> (r: usize)
        requires
            self.wf(),
        ensures
            r as int == if self.claim_start(address@) <= self.epochs@.len() {
                self.claim_start(address@)
            } else {
                self.epochs@.len() as int
            },
    {
        let n = self.epochs.len();
        let g = self.config.grace_period as usize;
        let window_start = if n >= g { n - g } else { 0 };
        match find_last_claimed(&self.last_claimed, address) {
            None => window_start,
            Some(l) => {
                if l >= n as u64 {
                    n
                } else if l as usize + 1 > window_start {
                    l as usize + 1
                } else {
                    window_start
                }
            },
        }
    }

    /// What `claimant`, holding `share` of the bonding weight, would receive from a
    /// claim now, per asset, without changing anything.
    pub fn claimable(&self, claimant: &String, share: u128) -> (r: Result<Vec<Asset>, ContractError>)
        requires
            self.wf(),
            share <= SHARE_ONE,
        ensures
            ({
                let lo = self.claim_start(claimant@);
                let n = self.epochs@.len() as int;
                &&& lo >= n ==> r == Err::<Vec<Asset>, ContractError>(ContractError::NothingToClaim)
                &&& lo < n && !self.all_covered(lo, share) ==> r == Err::<Vec<Asset>, ContractError>(
                    ContractError::InvalidReward,
                )
                &&& lo < n && self.all_covered(lo, share) && !self.sums_fit(lo, share) ==> r == Err::<
                    Vec<Asset>,
                    ContractError,
                >(ContractError::Overflow)
                &&& lo < n && self.all_covered(lo, share) && self.sums_fit(lo, share) ==> (r matches Ok(t)
                    && keys_unique(t@) && forall|k: AssetKey| #[trigger] amount_of(t@, k)
                    == rewards_sum(self.epochs@, lo, n, k, share))
            }),
    {
        let lo = self.claim_start_index(claimant);
        if lo >= self.epochs.len() {
            return Err(ContractError::NothingToClaim);
        }
        if !self.check_rewards(lo, share) {
            return Err(ContractError::InvalidReward);
        }
        match self.sum_rewards(lo, share) {
            Some(t) => Ok(t),
            None => Err(ContractError::Overflow),
        }
    }

    /// Settles every claimable epoch that `claimant` has not claimed yet: each
    /// epoch's reward moves from available to claimed, the rewards are returned
    /// summed per asset (one transfer each), and the claimant's last claimed epoch
    /// becomes the current one. On any error nothing changes.
    pub fn claim(&mut self, claimant: &String, share: u128) -> (r: Result<Vec<Asset>, ContractError>)
        requires
            old(self).wf(),
            old(self).pending is None,
            share <= SHARE_ONE,
        ensures
            final(self).wf(),
            r is Err ==> *final(self) == *old(self),
            ({
                let lo = old(self).claim_start(claimant@);
                let n = old(self).epochs@.len() as int;
                &&& lo >= n ==> r == Err::<Vec<Asset>, ContractError>(ContractError::NothingToClaim)
                &&& lo < n && !old(self).all_covered(lo, share) ==> r == Err::<Vec<Asset>, ContractError>(
                    ContractError::InvalidReward,
                )
                &&& lo < n && old(self).all_covered(lo, share) && !old(self).sums_fit(lo, share) ==> r == Err::<
                    Vec<Asset>,
                    ContractError,
                >(ContractError::Overflow)
                &&& lo < n && old(self).all_covered(lo, share) && old(self).sums_fit(lo, share) ==> {
                    &&& r matches Ok(t) && keys_unique(t@) && forall|k: AssetKey| #[trigger] amount_of(t@, k)
                        == rewards_sum(old(self).epochs@, lo, n, k, share)
                    &&& final(self).config == old(self).config
                    &&& final(self).pending is None
                    &&& final(self).epochs@.len() == n
                    &&& forall|i: int| 0 <= i < lo ==> #[trigger] final(self).epochs@[i] == old(self).epochs@[i]
                    &&& forall|i: int| lo <= i < n ==> settled(old(self).epochs@[i], #[trigger] final(self).epochs@[i], share)
                    &&& forall|a: Seq<char>| #[trigger] last_claimed_of(final(self).last_claimed@, a)
                        == if a == claimant@ { Some((n - 1) as u64) } else { last_claimed_of(old(self).last_claimed@, a) }
                }
            }),
            forall|a: Seq<char>| #[trigger] last_claimed_of(old(self).last_claimed@, a) is Some ==> (last_claimed_of(
                final(self).last_claimed@,
                a,
            ) is Some && last_claimed_of(old(self).last_claimed@, a)->Some_0 <= last_claimed_of(
                final(self).last_claimed@,
                a,
            )->Some_0),
    {
        let transfers = match self.claimable(claimant, share) {
            Ok(t) => t,
            Err(e) => {
                return Err(e);
            },
        };
        let lo = self.claim_start_index(claimant);
        let n = self.epochs.len();
        let ghost orig = self.epochs@;
        let mut i: usize = lo;
        while i < n
            invariant
                share <= SHARE_ONE,
                lo <= i <= n,
                n == self.epochs@.len(),
                n == orig.len(),
                lo as int == old(self).claim_start(claimant@),
                orig == old(self).epochs@,
                self.config == old(self).config,
                self.last_claimed == old(self).last_claimed,
                self.pending == old(self).pending,
                old(self).wf(),
                old(self).all_covered(lo as int, share),
                forall|x: int| (0 <= x < lo || i <= x < n) ==> #[trigger] self.epochs@[x] == orig[x],
                forall|x: int| lo <= x < i ==> settled(orig[x], #[trigger] self.epochs@[x], share),
                forall|x: int| 0 <= x < n ==> {
                    let e = #[trigger] self.epochs@[x];
                    &&& e.id == x
                    &&& e.pools_unique()
                    &&& (e.balanced() || e.forwarded())
                },
            decreases n - i,
        {
            let mut e = Epoch { id: 0, start_time: 0, total: Vec::new(), available: Vec::new(), claimed: Vec::new() };
            self.epochs.set_and_swap(i, &mut e);
            assert(e == orig[i as int]);
            assert(rewards_covered(orig[i as int], share));
            settle_epoch(&mut e, share);
            self.epochs.set_and_swap(i, &mut e);
            i = i + 1;
        }
        set_last_claimed(&mut self.last_claimed, claimant, (n - 1) as u64);
        proof {
            assert forall|a: Seq<char>| #[trigger] last_claimed_of(old(self).last_claimed@, a) is Some implies (
            last_claimed_of(self.last_claimed@, a) is Some && last_claimed_of(old(self).last_claimed@, a)->Some_0
                <= last_claimed_of(self.last_claimed@, a)->Some_0) by {
                if a == claimant@ {
                    assert(last_claimed_of(old(self).last_claimed@, a)->Some_0 + 1 <= lo);
                }
            }
            assert forall|x: int| 0 <= x < self.window_start() implies (#[trigger] self.epochs@[x]).forwarded() by {
                assert(orig[x].forwarded());
            }
        }
        Ok(transfers)
    }

    fn check_rewards(&self, lo: usize, share: u128) -> (r: bool)
        requires
            self.wf(),
            share <= SHARE_ONE,
        ensures
            r == self.all_covered(lo as int, share),
    {
        let n = self.epochs.len();
        let mut i: usize = lo;
        while i < n
            invariant
                self.wf(),
                share <= SHARE_ONE,
                n == self.epochs@.len(),
                lo <= i,
                forall|x: int| lo <= x < i && x < n ==> rewards_covered(#[trigger] self.epochs@[x], share),
            decreases n - i,
        {
            let e = &self.epochs[i];
            assert(e.pools_unique());
            let m = e.total.len();
            let mut j: usize = 0;
            while j < m
                invariant
                    share <= SHARE_ONE,
                    e.pools_unique(),
                    *e == self.epochs@[i as int],
                    lo <= i < n,
                    n == self.epochs@.len(),
                    m == e.total@.len(),
                    0 <= j <= m,
                    forall|y: int| 0 <= y < j ==> reward_of((#[trigger] e.total@[y]).amount as nat, share)
                        <= amount_of(e.available@, e.total@[y].info.key()),
                decreases m - j,
            {
                let r = reward(e.total[j].amount, share);
                let a = amount_in(&e.available, &e.total[j].info);
                if r > a {
                    proof {
                        lemma_amount_single(e.total@, j as int);
                        assert(!rewards_covered(*e, share)) by {
                            assert(!(epoch_reward(*e, e.total@[j as int].info.key(), share)
                                <= amount_of(e.available@, e.total@[j as int].info.key())));
                        }
                        assert(!rewards_covered(self.epochs@[i as int], share));
                    }
                    return false;
                }
                j = j + 1;
            }
            proof {
                assert forall|k: AssetKey| #[trigger] epoch_reward(*e, k, share) <= amount_of(e.available@, k) by {
                    if exists|y: int| 0 <= y < m && #[trigger] e.total@[y].info.key() == k {
                        let y = choose|y: int| 0 <= y < m && #[trigger] e.total@[y].info.key() == k;
                        lemma_amount_single(e.total@, y);
                    } else {
                        lemma_amount_absent(e.total@, k);
                        assert(reward_of(0, share) == 0);
                    }
                }
            }
            i = i + 1;
        }
        true
    }

    fn sum_rewards(&self, lo: usize, share: u128) -> (r: Option<Vec<Asset>>)
        requires
            self.wf(),
            share <= SHARE_ONE,
            lo <= self.epochs@.len(),
        ensures
            r is Some == self.sums_fit(lo as int, share),
            r matches Some(t) ==> keys_unique(t@) && forall|k: AssetKey| #[trigger] amount_of(t@, k)
                == rewards_sum(self.epochs@, lo as int, self.epochs@.len() as int, k, share),
    {
        let n = self.epochs.len();
        let mut acc: Vec<Asset> = Vec::new();
        let mut i: usize = lo;
        proof {
            assert forall|k: AssetKey| #[trigger] amount_of(acc@, k) == rewards_sum(self.epochs@, lo as int, i as int, k, share) by {}
        }
        while i < n
            invariant
                self.wf(),
                share <= SHARE_ONE,
                n == self.epochs@.len(),
                lo <= i <= n,
                keys_unique(acc@),
                forall|k: AssetKey| #[trigger] amount_of(acc@, k) == rewards_sum(self.epochs@, lo as int, i as int, k, share),
            decreases n - i,
        {
            let e = &self.epochs[i];
            assert(e.pools_unique());
            let m = e.total.len();
            let mut j: usize = 0;
            proof {
                assert forall|k: AssetKey| #[trigger] amount_of(acc@, k) == rewards_sum(self.epochs@, lo as int, i as int, k, share)
                    + partial_reward(e.total@, j as int, k, share) by {
                    assert(e.total@.take(0).len() == 0);
                    assert(reward_of(0, share) == 0);
                }
            }
            while j < m
                invariant
                    share <= SHARE_ONE,
                    e.pools_unique(),
                    *e == self.epochs@[i as int],
                    m == e.total@.len(),
                    0 <= j <= m,
                    lo <= i < n,
                    n == self.epochs@.len(),
                    keys_unique(acc@),
                    forall|k: AssetKey| #[trigger] amount_of(acc@, k) == rewards_sum(self.epochs@, lo as int, i as int, k, share)
                        + partial_reward(e.total@, j as int, k, share),
                decreases m - j,
            {
                let info = &e.total[j].info;
                let r = reward(e.total[j].amount, share);
                let ghost before = acc@;
                proof {
                    assert forall|k: AssetKey| #[trigger] partial_reward(e.total@, j + 1, k, share)
                        == partial_reward(e.total@, j as int, k, share) + if k == info.key() { r as nat } else { 0nat } by {
                        lemma_partial_step(e.total@, j as int, k, share);
                    }
                }
                if !add_amount(&mut acc, info, r) {
                    proof {
                        let k = info.key();
                        lemma_partial_full(e.total@, j + 1, k, share);
                        lemma_rewards_sum_monotonic(self.epochs@, lo as int, i + 1, n as int, k, share);
                        assert(!(rewards_sum(self.epochs@, lo as int, n as int, k, share) <= MAX_AMOUNT));
                    }
                    return None;
                }
                j = j + 1;
            }
            proof {
                assert forall|k: AssetKey| #[trigger] amount_of(acc@, k) == rewards_sum(self.epochs@, lo as int, i + 1, k, share) by {
                    lemma_partial_full(e.total@, m as int, k, share);
                }
            }
            i = i + 1;
        }
        proof {
            assert forall|k: AssetKey| #[trigger] rewards_sum(self.epochs@, lo as int, n as int, k, share) <= MAX_AMOUNT by {
                lemma_amount_bounded(acc@, k);
            }
        }
        Some(acc)
    }
}

} // verus!

verus! {

/// Once a claim has settled every epoch up to the current one, the claimant's
/// next claim starts past the last epoch: until a new epoch exists, a second
/// claim returns `NothingToClaim` and changes nothing.
pub proof fn lemma_second_claim_has_nothing(d: FeeDistributor, claimant: Seq<char>)
    requires
        d.wf(),
        d.epochs@.len() > 0,
        last_claimed_of(d.last_claimed@, claimant) == Some((d.epochs@.len() - 1) as u64),
    ensures
        d.claim_start(claimant) >= d.epochs@.len(),
{
}

/// A settled epoch gives out no more than it had available, and stays balanced
/// if it was.
pub proof fn lemma_settlement_within_available(before: Epoch, after: Epoch, share: u128)
    requires
        settled(before, after, share),
        rewards_covered(before, share),
    ensures
        forall|k: AssetKey| #[trigger] amount_of(after.claimed@, k) - amount_of(before.claimed@, k)
            <= amount_of(before.available@, k),
        before.balanced() ==> after.balanced(),
{
    assert forall|k: AssetKey| #[trigger] amount_of(after.claimed@, k) - amount_of(before.claimed@, k)
        <= amount_of(before.available@, k) by {
        assert(epoch_reward(before, k, share) <= amount_of(before.available@, k));
    }
    if before.balanced() {
        assert forall|k: AssetKey| #[trigger] amount_of(after.total@, k)
            == amount_of(after.available@, k) + amount_of(after.claimed@, k) by {
            assert(epoch_reward(before, k, share) <= amount_of(before.available@, k));
            assert(amount_of(before.total@, k) == amount_of(before.available@, k) + amount_of(before.claimed@, k));
        }
    }
}

} // verus!
