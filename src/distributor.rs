//! The fee distributor's state and the operations that change it.
use vstd::prelude::*;
use crate::asset::{add_all, aggregate, amount_of, lemma_amount_bounded, copy_pool, is_empty_pool, keys_unique, same_amounts, Asset, AssetKey, MAX_AMOUNT};
use crate::epoch::{
    find_last_claimed, last_claimed_of, valid_grace_period, validate_grace_period, ClaimRecord, Config, Epoch, EpochConfig,
};
use crate::error::ContractError;

verus! {

/// The id under which the fee collector's confirmation of a new epoch comes back.
pub const EPOCH_CREATION_REPLY_ID: u64 = 1;

/// All state of the distributor: its configuration, the epochs in order of id,
/// the last epoch each address claimed, and an epoch awaiting its fees.
pub struct FeeDistributor {
    pub config: Config,
    pub epochs: Vec<Epoch>,
    pub last_claimed: Vec<ClaimRecord>,
    /// Created, and waiting for the fee collector to confirm what it forwarded.
    pub pending: Option<Epoch>,
}

/// What the epochs with index in `[lo, hi)` have available of asset `k`.
pub open spec fn available_sum(epochs: Seq<Epoch>, lo: int, hi: int, k: AssetKey) -> nat
    decreases hi - lo,
{
    if hi <= lo {
        0
    } else {
        available_sum(epochs, lo, hi - 1, k) + amount_of(epochs[hi - 1].available@, k)
    }
}

pub proof fn lemma_available_sum_monotonic(epochs: Seq<Epoch>, lo: int, mid: int, hi: int, k: AssetKey)
    requires
        lo <= mid <= hi,
    ensures
        available_sum(epochs, lo, mid, k) <= available_sum(epochs, lo, hi, k),
    decreases hi - mid,
{
    if mid < hi {
        lemma_available_sum_monotonic(epochs, lo, mid, hi - 1, k);
    }
}

impl FeeDistributor {
    /// The lowest id still inside the claimable window.
    pub open spec fn window_start(&self) -> int {
        if self.epochs@.len() >= self.config.grace_period {
            self.epochs@.len() - self.config.grace_period
        } else {
            0
        }
    }

    /// Start of the current epoch; zero before the first one.
    pub open spec fn current_start(&self) -> int {
        if self.epochs@.len() == 0 {
            0
        } else {
            self.epochs@.last().start_time as int
        }
    }

    /// Start of the epoch that would be created next.
    pub open spec fn next_start(&self) -> int {
        if self.epochs@.len() == 0 {
            self.config.epoch_config.genesis_epoch as int
        } else {
            self.epochs@.last().start_time + self.config.epoch_config.duration
        }
    }

    /// A new epoch's id and start time fit in 64 bits.
    pub open spec fn can_grow(&self) -> bool {
        self.epochs@.len() + 1 < u64::MAX && self.next_start() <= u64::MAX
    }

    pub open spec fn expired(&self, now: u64) -> bool {
        now >= self.current_start() + self.config.epoch_config.duration
    }

    /// The epoch that leaves the window when the next one is added.
    pub open spec fn expiring_available(&self, k: AssetKey) -> nat {
        if self.epochs@.len() >= self.config.grace_period {
            amount_of(self.epochs@[self.epochs@.len() - self.config.grace_period].available@, k)
        } else {
            0
        }
    }

    /// The state's invariant: ids count up from zero, each epoch is balanced
    /// unless its balance was forwarded, and every epoch older than the window
    /// has been forwarded.
    pub open spec fn wf(&self) -> bool {
        &&& valid_grace_period(self.config.grace_period)
        &&& self.epochs@.len() < u64::MAX
        &&& forall|i: int| 0 <= i < self.epochs@.len() ==> {
            let e = #[trigger] self.epochs@[i];
            &&& e.id == i
            &&& e.pools_unique()
            &&& (e.balanced() || e.forwarded())
        }
        &&& forall|i: int| 0 <= i < self.window_start() ==> (#[trigger] self.epochs@[i]).forwarded()
        &&& self.pending matches Some(p) ==> p.id == self.epochs@.len() && self.epochs@.len() + 1 < u64::MAX
            && keys_unique(p.total@)
    }

    /// Sets the contract up with no epoch yet; the grace period must be valid.
    pub fn new(
        owner: String,
        bonding_contract_addr: String,
        fee_collector_addr: String,
        grace_period: u64,
        epoch_config: EpochConfig,
    ) -> (r: Result<FeeDistributor, ContractError>)
        ensures
            !valid_grace_period(grace_period) ==> r == Err::<FeeDistributor, ContractError>(
                ContractError::InvalidGracePeriod,
            ),
            valid_grace_period(grace_period) ==> (r matches Ok(d) && d.wf() && d.epochs@.len() == 0
                && d.last_claimed@.len() == 0 && d.pending is None && d.config.owner == owner
                && d.config.bonding_contract_addr == bonding_contract_addr
                && d.config.fee_collector_addr == fee_collector_addr && d.config.grace_period == grace_period
                && d.config.epoch_config == epoch_config),
    {
        if !validate_grace_period(grace_period) {
            return Err(ContractError::InvalidGracePeriod);
        }
        Ok(FeeDistributor {
            config: Config { owner, bonding_contract_addr, fee_collector_addr, grace_period, epoch_config },
            epochs: Vec::new(),
            last_claimed: Vec::new(),
            pending: None,
        })
    }

    /// Puts a new epoch, seeded with `seed`, in wait for the fee collector's confirmation.
    fn begin_epoch(&mut self, seed: Vec<Asset>) -> (r: Result<u64, ContractError>)
        requires
            old(self).wf(),
            keys_unique(seed@),
        ensures
            !old(self).can_grow() ==> r == Err::<u64, ContractError>(ContractError::Overflow) && *final(self)
                == *old(self),
            old(self).can_grow() ==> r == Ok::<u64, ContractError>(old(self).epochs@.len() as u64)
                && final(self).config == old(self).config && final(self).epochs == old(self).epochs
                && final(self).last_claimed == old(self).last_claimed && (final(self).pending matches Some(p)
                && p.id == old(self).epochs@.len() && p.start_time == old(self).next_start() && p.total@
                == seed@),
            final(self).wf(),
    {
        let n = self.epochs.len();
        if n as u64 >= u64::MAX - 1 {
            return Err(ContractError::Overflow);
        }
        let start_time = if n == 0 {
            self.config.epoch_config.genesis_epoch
        } else {
            match self.epochs[n - 1].start_time.checked_add(self.config.epoch_config.duration) {
                Some(t) => t,
                None => {
                    return Err(ContractError::Overflow);
                },
            }
        };
        let id = n as u64;
        self.pending = Some(Epoch { id, start_time, total: seed, available: Vec::new(), claimed: Vec::new() });
        Ok(id)
    }

    /// Starts a new epoch once the current one has lasted its duration. The epoch
    /// starts empty; its fees arrive with the fee collector's confirmation.
    pub fn create_new_epoch(&mut self, now: u64) -> (r: Result<u64, ContractError>)
        requires
            old(self).wf(),
            old(self).pending is None,
        ensures
            final(self).wf(),
            !old(self).expired(now) ==> r == Err::<u64, ContractError>(ContractError::CurrentEpochNotExpired)
                && *final(self) == *old(self),
            old(self).expired(now) && !old(self).can_grow() ==> r == Err::<u64, ContractError>(
                ContractError::Overflow,
            ) && *final(self) == *old(self),
            old(self).expired(now) && old(self).can_grow() ==> r == Ok::<u64, ContractError>(
                old(self).epochs@.len() as u64,
            ) && final(self).config == old(self).config && final(self).epochs == old(self).epochs
                && final(self).last_claimed == old(self).last_claimed && (final(self).pending matches Some(p)
                && p.id == old(self).epochs@.len() && p.start_time == old(self).next_start() && p.total@.len()
                == 0),
    {
        let n = self.epochs.len();
        let current_start = if n == 0 { 0 } else { self.epochs[n - 1].start_time };
        if now < current_start || now - current_start < self.config.epoch_config.duration {
            return Err(ContractError::CurrentEpochNotExpired);
        }
        self.begin_epoch(Vec::new())
    }

    /// Whether setting the grace period to `g` drops epochs from the window.
    pub open spec fn shrinks_window(&self, g: u64) -> bool {
        g < self.config.grace_period && self.epochs@.len() > g
    }

    /// The first index that a shrink of the grace period drops from the window:
    /// the oldest epoch inside it now.
    pub open spec fn dropped_start(&self) -> int {
        self.window_start()
    }

    /// The end of the indices dropped by a shrink to grace period `g`.
    pub open spec fn dropped_end(&self, g: u64) -> int {
        self.epochs@.len() - g
    }

    /// A shrink to grace period `g` can seed a new epoch: the new epoch's id and
    /// start fit, and so does the sum of every dropped balance.
    pub open spec fn shrink_fits(&self, g: u64) -> bool {
        &&& self.can_grow()
        &&& forall|k: AssetKey| #[trigger] available_sum(self.epochs@, self.dropped_start(), self.dropped_end(g), k)
            <= MAX_AMOUNT
    }

    /// Changes the configuration; only the owner may. Where the grace period
    /// shrinks, the available balances of the epochs that leave the window are
    /// emptied and seed a new pending epoch, so no fee is stranded.
    pub fn update_config(
        &mut self,
        sender: &String,
        owner: Option<String>,
        bonding_contract_addr: Option<String>,
        fee_collector_addr: Option<String>,
        grace_period: Option<u64>,
    ) -> (r: Result<(), ContractError>)
        requires
            old(self).wf(),
            old(self).pending is None,
        ensures
            final(self).wf(),
            r is Err ==> *final(self) == *old(self),
            sender@ != old(self).config.owner@ ==> r == Err::<(), ContractError>(ContractError::Unauthorized),
            sender@ == old(self).config.owner@ && (grace_period matches Some(g) && !valid_grace_period(g)) ==> r
                == Err::<(), ContractError>(ContractError::InvalidGracePeriod),
            sender@ == old(self).config.owner@ && (grace_period matches Some(g) && valid_grace_period(g)
                && old(self).shrinks_window(g)) ==> {
                let g = grace_period->Some_0;
                let lo = old(self).dropped_start();
                let hi = old(self).dropped_end(g);
                let fits = old(self).shrink_fits(g);
                &&& !fits ==> r == Err::<(), ContractError>(ContractError::Overflow)
                &&& fits ==> {
                    &&& r is Ok
                    &&& final(self).epochs@.len() == old(self).epochs@.len()
                    &&& forall|i: int| 0 <= i < final(self).epochs@.len() && !(lo <= i < hi) ==> #[trigger] final(self).epochs@[i]
                        == old(self).epochs@[i]
                    &&& forall|i: int| lo <= i < hi ==> {
                        &&& (#[trigger] final(self).epochs@[i]).id == old(self).epochs@[i].id
                        &&& final(self).epochs@[i].start_time == old(self).epochs@[i].start_time
                        &&& final(self).epochs@[i].total == old(self).epochs@[i].total
                        &&& final(self).epochs@[i].claimed == old(self).epochs@[i].claimed
                        &&& final(self).epochs@[i].available@.len() == 0
                    }
                    &&& final(self).pending matches Some(p) && p.id == old(self).epochs@.len()
                        && p.start_time == old(self).next_start()
                        && forall|k: AssetKey| #[trigger] amount_of(p.total@, k) == available_sum(old(self).epochs@, lo, hi, k)
                }
            },
            sender@ == old(self).config.owner@ && !(grace_period matches Some(g) && !valid_grace_period(g)) && !(
            grace_period matches Some(g) && old(self).shrinks_window(g)) ==> r is Ok && final(self).epochs
                == old(self).epochs && final(self).pending is None,
            r is Ok ==> {
                &&& final(self).last_claimed == old(self).last_claimed
                &&& final(self).config.owner == (if owner is Some { owner->Some_0 } else { old(self).config.owner })
                &&& final(self).config.bonding_contract_addr == (if bonding_contract_addr is Some {
                    bonding_contract_addr->Some_0
                } else {
                    old(self).config.bonding_contract_addr
                })
                &&& final(self).config.fee_collector_addr == (if fee_collector_addr is Some {
                    fee_collector_addr->Some_0
                } else {
                    old(self).config.fee_collector_addr
                })
                &&& final(self).config.grace_period == (if grace_period is Some {
                    grace_period->Some_0
                } else {
                    old(self).config.grace_period
                })
                &&& final(self).config.epoch_config == old(self).config.epoch_config
            },
    {
        if *sender != self.config.owner {
            return Err(ContractError::Unauthorized);
        }
        let old_grace = self.config.grace_period;
        let n = self.epochs.len();
        if let Some(g) = grace_period {
            if !validate_grace_period(g) {
                return Err(ContractError::InvalidGracePeriod);
            }
            if g < old_grace && n > g as usize {
                let lo: usize = if n >= old_grace as usize { n - old_grace as usize } else { 0 };
                let hi: usize = n - g as usize;
                let mut seed: Vec<Asset> = Vec::new();
                let mut i: usize = lo;
                proof {
                    assert forall|k: AssetKey| #[trigger] amount_of(seed@, k) == available_sum(self.epochs@, lo as int, i as int, k) by {}
                }
                while i < hi
                    invariant
                        lo <= i <= hi,
                        hi <= n,
                        n == self.epochs@.len(),
                        *self == *old(self),
                        old(self).wf(),
                        sender@ == old(self).config.owner@,
                        grace_period == Some(g),
                        valid_grace_period(g),
                        old(self).shrinks_window(g),
                        lo as int == old(self).dropped_start(),
                        hi as int == old(self).dropped_end(g),
                        keys_unique(seed@),
                        forall|k: AssetKey| #[trigger] amount_of(seed@, k) == available_sum(self.epochs@, lo as int, i as int, k),
                    decreases hi - i,
                {
                    let ghost before = seed@;
                    if !add_all(&mut seed, &self.epochs[i].available) {
                        proof {
                            let k = choose|k: AssetKey| !(#[trigger] amount_of(before, k) + amount_of(self.epochs@[i as int].available@, k) <= MAX_AMOUNT);
                            assert(available_sum(self.epochs@, lo as int, i + 1, k)
                                == available_sum(self.epochs@, lo as int, i as int, k) + amount_of(self.epochs@[i as int].available@, k));
                            lemma_available_sum_monotonic(self.epochs@, lo as int, i + 1, hi as int, k);
                            assert(!(available_sum(old(self).epochs@, lo as int, hi as int, k) <= MAX_AMOUNT));
                            assert(!old(self).shrink_fits(g));
                        }
                        return Err(ContractError::Overflow);
                    }
                    i = i + 1;
                }
                let ghost seed_view = seed@;
                proof {
                    assert forall|k: AssetKey| #[trigger] available_sum(self.epochs@, lo as int, hi as int, k) <= MAX_AMOUNT by {
                        lemma_amount_bounded(seed@, k);
                    }
                }
                match self.begin_epoch(seed) {
                    Ok(_) => {},
                    Err(e) => {
                        return Err(e);
                    },
                }
                let ghost before = self.epochs@;
                let ghost pending = self.pending;
                let mut i: usize = lo;
                while i < hi
                    invariant
                        lo <= i <= hi,
                        hi <= n,
                        n == self.epochs@.len(),
                        n == before.len(),
                        before == old(self).epochs@,
                        self.config == old(self).config,
                        self.last_claimed == old(self).last_claimed,
                        self.pending == pending,
                        forall|x: int| 0 <= x < n && !(lo <= x < i) ==> #[trigger] self.epochs@[x] == before[x],
                        forall|x: int| lo <= x < i ==> {
                            &&& (#[trigger] self.epochs@[x]).id == before[x].id
                            &&& self.epochs@[x].start_time == before[x].start_time
                            &&& self.epochs@[x].total == before[x].total
                            &&& self.epochs@[x].claimed == before[x].claimed
                            &&& self.epochs@[x].available@.len() == 0
                        },
                    decreases hi - i,
                {
                    let mut e = Epoch { id: 0, start_time: 0, total: Vec::new(), available: Vec::new(), claimed: Vec::new() };
                    self.epochs.set_and_swap(i, &mut e);
                    e.available = Vec::new();
                    self.epochs.set_and_swap(i, &mut e);
                    i = i + 1;
                }
            }
        }
        if let Some(o) = owner {
            self.config.owner = o;
        }
        if let Some(a) = bonding_contract_addr {
            self.config.bonding_contract_addr = a;
        }
        if let Some(a) = fee_collector_addr {
            self.config.fee_collector_addr = a;
        }
        if let Some(g) = grace_period {
            self.config.grace_period = g;
        }
        proof {
            assert forall|x: int| 0 <= x < self.epochs@.len() implies {
                let e = #[trigger] self.epochs@[x];
                &&& e.id == x
                &&& e.pools_unique()
                &&& (e.balanced() || e.forwarded())
            } by {
                assert(old(self).epochs@[x].id == x);
                if self.epochs@[x] != old(self).epochs@[x] {
                    assert forall|k: AssetKey| #[trigger] amount_of(self.epochs@[x].available@, k) == 0 by {}
                }
            }
            assert forall|x: int| 0 <= x < self.window_start() implies (#[trigger] self.epochs@[x]).forwarded() by {
                if self.epochs@[x] == old(self).epochs@[x] {
                    assert(old(self).epochs@[x].forwarded());
                } else {
                    assert forall|k: AssetKey| #[trigger] amount_of(self.epochs@[x].available@, k) == 0 by {}
                }
            }
        }
        Ok(())
    }

    /// Takes the fee collector's confirmation of the pending epoch. The epoch's
    /// fees become what was forwarded, plus its seed, plus what the epoch leaving
    /// the window still had available; that epoch's available balance is emptied.
    pub fn on_forward_confirmed(&mut self, reply_id: u64, forwarded: Option<Vec<Asset>>) -> (r: Result<
        (),
        ContractError,
    >)
        requires
            old(self).wf(),
        ensures
            final(self).wf(),
            r is Err ==> *final(self) == *old(self),
            reply_id != EPOCH_CREATION_REPLY_ID ==> r == Err::<(), ContractError>(
                ContractError::UnknownReplyId(reply_id),
            ),
            reply_id == EPOCH_CREATION_REPLY_ID && (forwarded is None || old(self).pending is None) ==> r
                == Err::<(), ContractError>(ContractError::CannotReadEpoch),
            reply_id == EPOCH_CREATION_REPLY_ID && forwarded is Some && old(self).pending is Some ==> {
                let f = forwarded->Some_0@;
                let p = old(self).pending->Some_0;
                let n = old(self).epochs@.len() as int;
                let fits = forall|k: AssetKey| #[trigger] amount_of(f, k) + amount_of(p.total@, k)
                    + old(self).expiring_available(k) <= MAX_AMOUNT;
                &&& !fits ==> r == Err::<(), ContractError>(ContractError::Overflow)
                &&& fits ==> {
                    &&& r is Ok
                    &&& final(self).config == old(self).config
                    &&& final(self).last_claimed == old(self).last_claimed
                    &&& final(self).pending is None
                    &&& final(self).epochs@.len() == n + 1
                    &&& final(self).epochs@[n].id == p.id
                    &&& final(self).epochs@[n].start_time == p.start_time
                    &&& forall|k: AssetKey| #[trigger] amount_of(final(self).epochs@[n].total@, k)
                        == amount_of(f, k) + amount_of(p.total@, k) + old(self).expiring_available(k)
                    &&& same_amounts(final(self).epochs@[n].available@, final(self).epochs@[n].total@)
                    &&& final(self).epochs@[n].claimed@.len() == 0
                    &&& forall|i: int| 0 <= i < n && i != n - old(self).config.grace_period
                        ==> #[trigger] final(self).epochs@[i] == old(self).epochs@[i]
                    &&& n >= old(self).config.grace_period ==> {
                        let e = n - old(self).config.grace_period;
                        &&& final(self).epochs@[e].id == old(self).epochs@[e].id
                        &&& final(self).epochs@[e].start_time == old(self).epochs@[e].start_time
                        &&& final(self).epochs@[e].total == old(self).epochs@[e].total
                        &&& final(self).epochs@[e].claimed == old(self).epochs@[e].claimed
                        &&& final(self).epochs@[e].available@.len() == 0
                    }
                }
            },
    {
        if reply_id != EPOCH_CREATION_REPLY_ID {
            return Err(ContractError::UnknownReplyId(reply_id));
        }
        let fees = match forwarded {
            Some(f) => f,
            None => {
                return Err(ContractError::CannotReadEpoch);
            },
        };
        let n = self.epochs.len();
        let g = self.config.grace_period as usize;
        let with_seed = match &self.pending {
            Some(p) => aggregate(&fees, &p.total),
            None => {
                return Err(ContractError::CannotReadEpoch);
            },
        };
        let with_seed = match with_seed {
            Some(s) => s,
            None => {
                proof {
                    let k = choose|k: AssetKey| !(#[trigger] amount_of(fees@, k) + amount_of(self.pending->Some_0.total@, k) <= MAX_AMOUNT);
                    assert(!(amount_of(fees@, k) + amount_of(self.pending->Some_0.total@, k) + self.expiring_available(k) <= MAX_AMOUNT));
                }
                return Err(ContractError::Overflow);
            },
        };
        let empty: Vec<Asset> = Vec::new();
        let fees_total = if n >= g {
            aggregate(&with_seed, &self.epochs[n - g].available)
        } else {
            proof {
                assert forall|k: AssetKey| #[trigger] amount_of(empty@, k) == 0 by {}
            }
            aggregate(&with_seed, &empty)
        };
        let fees_total = match fees_total {
            Some(t) => t,
            None => {
                return Err(ContractError::Overflow);
            },
        };
        let pending = self.pending.take();
        let p = match pending {
            Some(p) => p,
            None => {
                return Err(ContractError::CannotReadEpoch);
            },
        };
        let available = copy_pool(&fees_total);
        if n >= g {
            let mut expiring = Epoch {
                id: 0,
                start_time: 0,
                total: Vec::new(),
                available: Vec::new(),
                claimed: Vec::new(),
            };
            self.epochs.set_and_swap(n - g, &mut expiring);
            expiring.available = Vec::new();
            self.epochs.set_and_swap(n - g, &mut expiring);
        }
        let ghost before = self.epochs@;
        proof {
            assert forall|i: int| 0 <= i < n && i != n - g implies #[trigger] before[i] == old(self).epochs@[i] by {}
            if n >= g {
                assert(before[n - g].total == old(self).epochs@[n - g].total);
                assert(before[n - g].available@.len() == 0);
            }
            assert(self.pending is None);
            assert(p == old(self).pending->Some_0);
        }
        self.epochs.push(Epoch { id: p.id, start_time: p.start_time, total: fees_total, available, claimed: Vec::new() });
        proof {
            let e = self.epochs@[n as int];
            assert(e.claimed@.len() == 0);
            assert forall|k: AssetKey| #[trigger] amount_of(e.total@, k) == amount_of(e.available@, k) + amount_of(e.claimed@, k) by {
                assert(amount_of(e.claimed@, k) == 0);
            }
            assert(e.balanced());
            assert forall|i: int| 0 <= i < self.epochs@.len() implies {
                let e = #[trigger] self.epochs@[i];
                &&& e.id == i
                &&& e.pools_unique()
                &&& (e.balanced() || e.forwarded())
            } by {
                if i < n {
                    assert(self.epochs@[i] == before[i]);
                    if n >= g && i == n - g {
                        assert forall|k: AssetKey| #[trigger] amount_of(self.epochs@[i].available@, k) == 0 by {}
                    }
                }
            }
            assert forall|i: int| 0 <= i < self.window_start() implies (#[trigger] self.epochs@[i]).forwarded() by {
                if i != n - g {
                    assert(old(self).epochs@[i].forwarded());
                } else {
                    assert forall|k: AssetKey| #[trigger] amount_of(self.epochs@[i].available@, k) == 0 by {}
                }
            }
            assert forall|k: AssetKey| #[trigger] amount_of(fees@, k) + amount_of(p.total@, k)
                + old(self).expiring_available(k) <= MAX_AMOUNT by {
                assert(amount_of(with_seed@, k) == amount_of(fees@, k) + amount_of(p.total@, k));
                if n < g {
                    assert(amount_of(empty@, k) == 0);
                }
            }
        }
        Ok(())
    }

    /// The epoch with id `id`, if it exists.
    pub fn get_epoch(&self, id: u64) -> (r: Option<&Epoch>)
        ensures
            id < self.epochs@.len() ==> r == Some(&self.epochs@[id as int]),
            id >= self.epochs@.len() ==> r is None,
    {
        if id < self.epochs.len() as u64 {
            Some(&self.epochs[id as usize])
        } else {
            None
        }
    }

    /// The newest epoch, if any.
    pub fn current_epoch(&self) -> (r: Option<&Epoch>)
        ensures
            self.epochs@.len() > 0 ==> r == Some(&self.epochs@.last()),
            self.epochs@.len() == 0 ==> r is None,
    {
        let n = self.epochs.len();
        if n > 0 {
            Some(&self.epochs[n - 1])
        } else {
            None
        }
    }

    /// The ids of the claimable epochs, newest first: the last `grace_period` ones.
    pub fn claimable_epochs(&self) -> (r: Vec<u64>)
        requires
            self.wf(),
        ensures
            r@.len() == self.epochs@.len() - self.window_start(),
            forall|j: int| 0 <= j < r@.len() ==> #[trigger] r@[j] == self.epochs@.len() - 1 - j,
    {
        let n = self.epochs.len();
        let g = self.config.grace_period as usize;
        let lo = if n >= g { n - g } else { 0 };
        let mut r: Vec<u64> = Vec::new();
        let mut i: usize = n;
        while i > lo
            invariant
                lo <= i <= n,
                n == self.epochs@.len(),
                n < u64::MAX,
                r@.len() == n - i,
                forall|j: int| 0 <= j < r@.len() ==> #[trigger] r@[j] == n - 1 - j,
            decreases i,
        {
            r.push((i - 1) as u64);
            i = i - 1;
        }
        r
    }

    /// The epoch `address` claimed last, if it ever claimed.
    pub fn last_claimed_epoch(&self, address: &String) -> (r: Option<u64>)
        ensures
            r == last_claimed_of(self.last_claimed@, address@),
    {
        find_last_claimed(&self.last_claimed, address)
    }
}

/// Epoch ids count up by one from zero, in every valid state.
pub proof fn lemma_epoch_ids_consecutive(d: FeeDistributor)
    requires
        d.wf(),
    ensures
        forall|i: int| 0 <= i < d.epochs@.len() ==> (#[trigger] d.epochs@[i]).id == i,
        forall|i: int| 0 < i < d.epochs@.len() ==> (#[trigger] d.epochs@[i]).id == d.epochs@[i - 1].id + 1,
        d.pending matches Some(p) ==> p.id == d.epochs@.len(),
{
    assert forall|i: int| 0 < i < d.epochs@.len() implies (#[trigger] d.epochs@[i]).id == d.epochs@[i - 1].id + 1 by {
        assert(d.epochs@[i].id == i);
        assert(d.epochs@[i - 1].id == i - 1);
    }
}

/// In every valid state, each epoch holds `total == available + claimed` for
/// every asset, unless its available balance has been forwarded to a later
/// epoch, in which case nothing of it is available any more.
pub proof fn lemma_epochs_balanced(d: FeeDistributor, k: AssetKey)
    requires
        d.wf(),
    ensures
        forall|i: int| 0 <= i < d.epochs@.len() ==> amount_of((#[trigger] d.epochs@[i]).total@, k)
            == amount_of(d.epochs@[i].available@, k) + amount_of(d.epochs@[i].claimed@, k)
            || amount_of(d.epochs@[i].available@, k) == 0,
{
    assert forall|i: int| 0 <= i < d.epochs@.len() implies amount_of((#[trigger] d.epochs@[i]).total@, k)
        == amount_of(d.epochs@[i].available@, k) + amount_of(d.epochs@[i].claimed@, k)
        || amount_of(d.epochs@[i].available@, k) == 0 by {
        let e = d.epochs@[i];
        if !e.balanced() {
            assert(e.forwarded());
            assert(amount_of(e.available@, k) == 0);
        } else {
            assert(amount_of(e.total@, k) == amount_of(e.available@, k) + amount_of(e.claimed@, k));
        }
    }
}

/// In every valid state, the epochs older than the claimable window have
/// nothing available: their balance was carried forward when they expired.
pub proof fn lemma_expired_epochs_forwarded(d: FeeDistributor, k: AssetKey)
    requires
        d.wf(),
    ensures
        forall|i: int| 0 <= i < d.window_start() ==> amount_of((#[trigger] d.epochs@[i]).available@, k) == 0,
{
    assert forall|i: int| 0 <= i < d.window_start() implies amount_of((#[trigger] d.epochs@[i]).available@, k) == 0 by {
        assert(d.epochs@[i].forwarded());
    }
}

} // verus!
