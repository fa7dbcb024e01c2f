//! Assets and fee pools: lists of amounts keyed by asset kind and identifier.
use vstd::prelude::*;

verus! {

/// What an asset is: a native coin by its denomination, or a token contract by its address.
#[derive(Debug, PartialEq, Eq)]
pub enum AssetInfo {
    Token { contract_addr: String },
    NativeToken { denom: String },
}

/// The key under which a pool records an asset: `true` for a native coin, and its identifier.
pub type AssetKey = (bool, Seq<char>);

impl AssetInfo {
    pub open spec fn key(&self) -> AssetKey {
        match self {
            AssetInfo::Token { contract_addr } => (false, contract_addr@),
            AssetInfo::NativeToken { denom } => (true, denom@),
        }
    }

    /// Whether two infos name the same asset.
    pub fn same(&self, other: &AssetInfo) -> (r: bool)
        ensures
            r == (self.key() == other.key()),
    {
        match (self, other) {
            (AssetInfo::Token { contract_addr: a }, AssetInfo::Token { contract_addr: b }) => *a == *b,
            (AssetInfo::NativeToken { denom: a }, AssetInfo::NativeToken { denom: b }) => *a == *b,
            (AssetInfo::Token { .. }, AssetInfo::NativeToken { .. }) => false,
            (AssetInfo::NativeToken { .. }, AssetInfo::Token { .. }) => false,
        }
    }

    /// A copy that names the same asset.
    pub fn duplicate(&self) -> (r: AssetInfo)
        ensures
            r.key() == self.key(),
    {
        match self {
            AssetInfo::Token { contract_addr } => AssetInfo::Token { contract_addr: contract_addr.clone() },
            AssetInfo::NativeToken { denom } => AssetInfo::NativeToken { denom: denom.clone() },
        }
    }
}

/// An amount of one asset.
#[derive(Debug, PartialEq, Eq)]
pub struct Asset {
    pub info: AssetInfo,
    pub amount: u128,
}

pub const MAX_AMOUNT: u128 = 0xffff_ffff_ffff_ffff_ffff_ffff_ffff_ffff;

/// How much of the asset with key `k` a pool holds, over all its entries; a missing asset is zero.
pub open spec fn amount_of(pool: Seq<Asset>, k: AssetKey) -> nat
    decreases pool.len(),
{
    if pool.len() == 0 {
        0
    } else {
        amount_of(pool.drop_last(), k) + if pool.last().info.key() == k {
            pool.last().amount as nat
        } else {
            0nat
        }
    }
}

/// No asset appears twice in the pool.
pub open spec fn keys_unique(pool: Seq<Asset>) -> bool {
    forall|i: int, j: int|
        0 <= i < j < pool.len() ==> #[trigger] pool[i].info.key() != #[trigger] pool[j].info.key()
}

/// Two pools hold the same amount of every asset.
pub open spec fn same_amounts(a: Seq<Asset>, b: Seq<Asset>) -> bool {
    forall|k: AssetKey| #[trigger] amount_of(a, k) == amount_of(b, k)
}

/// The pool holds nothing.
pub open spec fn is_empty_pool(pool: Seq<Asset>) -> bool {
    forall|k: AssetKey| #[trigger] amount_of(pool, k) == 0
}

pub proof fn lemma_amount_absent(pool: Seq<Asset>, k: AssetKey)
    requires
        forall|i: int| 0 <= i < pool.len() ==> #[trigger] pool[i].info.key() != k,
    ensures
        amount_of(pool, k) == 0,
    decreases pool.len(),
{
    if pool.len() > 0 {
        lemma_amount_absent(pool.drop_last(), k);
    }
}

pub proof fn lemma_amount_single(pool: Seq<Asset>, j: int)
    requires
        keys_unique(pool),
        0 <= j < pool.len(),
    ensures
        amount_of(pool, pool[j].info.key()) == pool[j].amount,
    decreases pool.len(),
{
    let k = pool[j].info.key();
    let n = pool.len() - 1;
    if j == n {
        assert forall|i: int| 0 <= i < pool.drop_last().len() implies #[trigger] pool.drop_last()[i].info.key() != k by {
            assert(pool[i].info.key() != pool[n].info.key());
        }
        lemma_amount_absent(pool.drop_last(), k);
    } else {
        assert(pool[j].info.key() != pool[n].info.key());
        lemma_amount_single(pool.drop_last(), j);
    }
}

pub proof fn lemma_amount_update(pool: Seq<Asset>, j: int, a: Asset, k: AssetKey)
    requires
        0 <= j < pool.len(),
    ensures
        amount_of(pool.update(j, a), k) + (if pool[j].info.key() == k { pool[j].amount as nat } else { 0nat })
            == amount_of(pool, k) + (if a.info.key() == k { a.amount as nat } else { 0nat }),
    decreases pool.len(),
{
    let n = pool.len() - 1;
    if j == n {
        assert(pool.update(j, a).drop_last() =~= pool.drop_last());
    } else {
        assert(pool.update(j, a).drop_last() =~= pool.drop_last().update(j, a));
        lemma_amount_update(pool.drop_last(), j, a, k);
    }
}

pub proof fn lemma_amount_bounded(pool: Seq<Asset>, k: AssetKey)
    requires
        keys_unique(pool),
    ensures
        amount_of(pool, k) <= MAX_AMOUNT,
{
    if exists|j: int| 0 <= j < pool.len() && #[trigger] pool[j].info.key() == k {
        let j = choose|j: int| 0 <= j < pool.len() && #[trigger] pool[j].info.key() == k;
        lemma_amount_single(pool, j);
    } else {
        lemma_amount_absent(pool, k);
    }
}

pub proof fn lemma_amount_push(pool: Seq<Asset>, a: Asset, k: AssetKey)
    ensures
        amount_of(pool.push(a), k) == amount_of(pool, k) + (if a.info.key() == k { a.amount as nat } else { 0nat }),
{
    assert(pool.push(a).drop_last() =~= pool);
}

pub proof fn lemma_amount_prefix(pool: Seq<Asset>, j: int, k: AssetKey)
    requires
        0 <= j <= pool.len(),
    ensures
        amount_of(pool.take(j), k) <= amount_of(pool, k),
    decreases pool.len() - j,
{
    if j < pool.len() {
        assert(pool.take(j + 1).drop_last() =~= pool.take(j));
        lemma_amount_prefix(pool, j + 1, k);
    } else {
        assert(pool.take(j) =~= pool);
    }
}

/// Adds `amount` of `info` to the pool, merging with an existing entry.
/// Fails, leaving the pool as it was, where the sum would not fit in 128 bits.
pub fn add_amount(pool: &mut Vec<Asset>, info: &AssetInfo, amount: u128) -> (r: bool)
    requires
        keys_unique(old(pool)@),
    ensures
        keys_unique(final(pool)@),
        r == (amount_of(old(pool)@, info.key()) + amount <= MAX_AMOUNT),
        r ==> forall|k: AssetKey| #[trigger] amount_of(final(pool)@, k)
            == amount_of(old(pool)@, k) + (if k == info.key() { amount as nat } else { 0nat }),
        !r ==> final(pool)@ == old(pool)@,
{
    let n = pool.len();
    let mut j: usize = 0;
    while j < n
        invariant
            n == pool@.len(),
            0 <= j <= n,
            pool@ == old(pool)@,
            keys_unique(pool@),
            forall|i: int| 0 <= i < j ==> #[trigger] pool@[i].info.key() != info.key(),
        decreases n - j,
    {
        if pool[j].info.same(info) {
            proof {
                lemma_amount_single(pool@, j as int);
            }
            match pool[j].amount.checked_add(amount) {
                Some(sum) => {
                    let entry = Asset { info: info.duplicate(), amount: sum };
                    proof {
                        assert forall|k: AssetKey| #[trigger] amount_of(pool@.update(j as int, entry), k)
                            == amount_of(pool@, k) + (if k == info.key() { amount as nat } else { 0nat }) by {
                            lemma_amount_update(pool@, j as int, entry, k);
                        }
                        let upd = pool@.update(j as int, entry);
                        assert forall|a: int, b: int| 0 <= a < b < upd.len() implies #[trigger] upd[a].info.key()
                            != #[trigger] upd[b].info.key() by {
                            assert(pool@[a].info.key() != pool@[b].info.key());
                        }
                    }
                    pool.set(j, entry);
                    return true;
                },
                None => {
                    return false;
                },
            }
        }
        j = j + 1;
    }
    let entry = Asset { info: info.duplicate(), amount };
    proof {
        lemma_amount_absent(pool@, info.key());
        assert forall|k: AssetKey| #[trigger] amount_of(pool@.push(entry), k)
            == amount_of(pool@, k) + (if k == info.key() { amount as nat } else { 0nat }) by {
            lemma_amount_push(pool@, entry, k);
        }
        let ext = pool@.push(entry);
        assert forall|a: int, b: int| 0 <= a < b < ext.len() implies #[trigger] ext[a].info.key()
            != #[trigger] ext[b].info.key() by {
            if b < pool@.len() {
                assert(pool@[a].info.key() != pool@[b].info.key());
            } else {
                assert(pool@[a].info.key() != info.key());
            }
        }
    }
    pool.push(entry);
    true
}

/// Takes `amount` of `info` out of the pool, which must hold at least that much.
pub fn sub_amount(pool: &mut Vec<Asset>, info: &AssetInfo, amount: u128)
    requires
        keys_unique(old(pool)@),
        amount <= amount_of(old(pool)@, info.key()),
    ensures
        keys_unique(final(pool)@),
        forall|k: AssetKey| #[trigger] amount_of(final(pool)@, k)
            == amount_of(old(pool)@, k) - (if k == info.key() { amount as nat } else { 0nat }),
{
    let n = pool.len();
    let mut j: usize = 0;
    while j < n
        invariant
            n == pool@.len(),
            0 <= j <= n,
            pool@ == old(pool)@,
            keys_unique(pool@),
            amount <= amount_of(pool@, info.key()),
            forall|i: int| 0 <= i < j ==> #[trigger] pool@[i].info.key() != info.key(),
        decreases n - j,
    {
        if pool[j].info.same(info) {
            proof {
                lemma_amount_single(pool@, j as int);
            }
            let entry = Asset { info: info.duplicate(), amount: pool[j].amount - amount };
            proof {
                assert forall|k: AssetKey| #[trigger] amount_of(pool@.update(j as int, entry), k)
                    == amount_of(pool@, k) - (if k == info.key() { amount as nat } else { 0nat }) by {
                    lemma_amount_update(pool@, j as int, entry, k);
                }
                let upd = pool@.update(j as int, entry);
                assert forall|a: int, b: int| 0 <= a < b < upd.len() implies #[trigger] upd[a].info.key()
                    != #[trigger] upd[b].info.key() by {
                    assert(pool@[a].info.key() != pool@[b].info.key());
                }
            }
            pool.set(j, entry);
            return;
        }
        j = j + 1;
    }
    proof {
        lemma_amount_absent(pool@, info.key());
    }
}

/// Adds every entry of `src` to `acc`. Succeeds exactly when no asset's sum
/// exceeds 128 bits; on failure `acc` holds a partial sum.
pub fn add_all(acc: &mut Vec<Asset>, src: &Vec<Asset>) -> (r: bool)
    requires
        keys_unique(old(acc)@),
    ensures
        keys_unique(final(acc)@),
        r == forall|k: AssetKey| #[trigger] amount_of(old(acc)@, k) + amount_of(src@, k) <= MAX_AMOUNT,
        r ==> forall|k: AssetKey| #[trigger] amount_of(final(acc)@, k) == amount_of(old(acc)@, k) + amount_of(src@, k),
{
    let ghost start = acc@;
    let n = src.len();
    let mut j: usize = 0;
    while j < n
        invariant
            n == src@.len(),
            0 <= j <= n,
            start == old(acc)@,
            keys_unique(acc@),
            forall|k: AssetKey| #[trigger] amount_of(acc@, k) == amount_of(start, k) + amount_of(src@.take(j as int), k),
        decreases n - j,
    {
        let item = &src[j];
        assert(src@.take(j + 1).drop_last() =~= src@.take(j as int));
        assert(src@.take(j + 1).last() == src@[j as int]);
        if !add_amount(acc, &item.info, item.amount) {
            proof {
                let k = item.info.key();
                lemma_amount_prefix(src@, j + 1, k);
                assert(amount_of(start, k) + amount_of(src@.take(j + 1), k) > MAX_AMOUNT);
                assert(!(amount_of(start, k) + amount_of(src@, k) <= MAX_AMOUNT));
                assert(!(amount_of(old(acc)@, k) + amount_of(src@, k) <= MAX_AMOUNT));
            }
            return false;
        }
        j = j + 1;
    }
    proof {
        assert(src@.take(n as int) =~= src@);
        assert forall|k: AssetKey| #[trigger] amount_of(start, k) + amount_of(src@, k) <= MAX_AMOUNT by {
            lemma_amount_bounded(acc@, k);
        }
    }
    true
}

/// The sum of two pools, asset by asset; `None` where some asset's sum exceeds 128 bits.
pub fn aggregate(a: &Vec<Asset>, b: &Vec<Asset>) -> (r: Option<Vec<Asset>>)
    ensures
        r.is_some() == forall|k: AssetKey| #[trigger] amount_of(a@, k) + amount_of(b@, k) <= MAX_AMOUNT,
        r matches Some(s) ==> keys_unique(s@) && forall|k: AssetKey| #[trigger] amount_of(s@, k)
            == amount_of(a@, k) + amount_of(b@, k),
{
    let mut acc: Vec<Asset> = Vec::new();
    let ghost empty = acc@;
    proof {
        assert forall|k: AssetKey| #[trigger] amount_of(empty, k) == 0 by {}
    }
    if !add_all(&mut acc, a) {
        proof {
            let k = choose|k: AssetKey| !(#[trigger] amount_of(empty, k) + amount_of(a@, k) <= MAX_AMOUNT);
            assert(!(amount_of(a@, k) + amount_of(b@, k) <= MAX_AMOUNT));
        }
        return None;
    }
    let ghost first = acc@;
    if !add_all(&mut acc, b) {
        proof {
            let k = choose|k: AssetKey| !(#[trigger] amount_of(first, k) + amount_of(b@, k) <= MAX_AMOUNT);
            assert(!(amount_of(a@, k) + amount_of(b@, k) <= MAX_AMOUNT));
        }
        return None;
    }
    proof {
        assert forall|k: AssetKey| #[trigger] amount_of(a@, k) + amount_of(b@, k) <= MAX_AMOUNT by {
            assert(amount_of(first, k) == amount_of(a@, k));
        }
    }
    Some(acc)
}

/// The pool's amount of `info`, zero where it holds none.
pub fn amount_in(pool: &Vec<Asset>, info: &AssetInfo) -> (r: u128)
    requires
        keys_unique(pool@),
    ensures
        r as nat == amount_of(pool@, info.key()),
{
    let n = pool.len();
    let mut j: usize = 0;
    while j < n
        invariant
            n == pool@.len(),
            0 <= j <= n,
            keys_unique(pool@),
            forall|i: int| 0 <= i < j ==> #[trigger] pool@[i].info.key() != info.key(),
        decreases n - j,
    {
        if pool[j].info.same(info) {
            proof {
                lemma_amount_single(pool@, j as int);
            }
            return pool[j].amount;
        }
        j = j + 1;
    }
    proof {
        lemma_amount_absent(pool@, info.key());
    }
    0
}

pub proof fn lemma_amount_pointwise(a: Seq<Asset>, b: Seq<Asset>, k: AssetKey)
    requires
        a.len() == b.len(),
        forall|i: int| 0 <= i < a.len() ==> #[trigger] a[i].info.key() == b[i].info.key() && a[i].amount == b[i].amount,
    ensures
        amount_of(a, k) == amount_of(b, k),
    decreases a.len(),
{
    if a.len() > 0 {
        let (x, y) = (a.drop_last(), b.drop_last());
        assert forall|i: int| 0 <= i < x.len() implies #[trigger] x[i].info.key() == y[i].info.key() && x[i].amount == y[i].amount by {
            assert(a[i].info.key() == b[i].info.key());
        }
        lemma_amount_pointwise(x, y, k);
        assert(a[a.len() - 1].info.key() == b[a.len() - 1].info.key());
    }
}

/// An independent copy of a pool, entry for entry.
pub fn copy_pool(pool: &Vec<Asset>) -> (r: Vec<Asset>)
    ensures
        same_amounts(r@, pool@),
        keys_unique(pool@) ==> keys_unique(r@),
{
    let n = pool.len();
    let mut r: Vec<Asset> = Vec::new();
    let mut j: usize = 0;
    while j < n
        invariant
            n == pool@.len(),
            0 <= j <= n,
            r@.len() == j,
            forall|i: int| 0 <= i < j ==> #[trigger] r@[i].info.key() == pool@[i].info.key() && r@[i].amount == pool@[i].amount,
        decreases n - j,
    {
        r.push(Asset { info: pool[j].info.duplicate(), amount: pool[j].amount });
        j = j + 1;
    }
    proof {
        assert forall|k: AssetKey| #[trigger] amount_of(r@, k) == amount_of(pool@, k) by {
            lemma_amount_pointwise(r@, pool@, k);
        }
        if keys_unique(pool@) {
            assert forall|a: int, b: int| 0 <= a < b < r@.len() implies #[trigger] r@[a].info.key()
                != #[trigger] r@[b].info.key() by {
                assert(r@[a].info.key() == pool@[a].info.key());
                assert(r@[b].info.key() == pool@[b].info.key());
            }
        }
    }
    r
}

} // verus!
