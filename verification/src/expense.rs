use vstd::arithmetic::div_mod::lemma_div_denominator;
use vstd::prelude::*;

use crate::errors::Error;

verus! {

/// An authenticated caller identity. The host verifies that the invoking
/// transaction was authorized by the principal a mutating call names; the
/// ledger receives the already-verified identity as a plain value.
pub type Principal = u64;

/// Seconds in one day; a timestamp's day bucket is `ts / SECONDS_PER_DAY`.
pub const SECONDS_PER_DAY: u64 = 86400;

/// Seconds in one week; a timestamp's week bucket is `ts / SECONDS_PER_WEEK`.
pub const SECONDS_PER_WEEK: u64 = 604800;

/// One expense record. Ids are 1-based and strictly increasing per owner;
/// the day and week buckets are fixed at creation and never recomputed.
#[derive(Debug)]
pub struct Expense {
    pub id: u64,
    pub owner: Principal,
    pub ts: u64,
    pub day: u64,
    pub week: u64,
    pub category: String,
    pub amount: u128,
    pub note: String,
}

/// The mathematical value of an [`Expense`]: the same fields with the
/// free-text fields read as character sequences.
#[verifier::ext_equal]
pub struct ExpenseV {
    pub id: u64,
    pub owner: Principal,
    pub ts: u64,
    pub day: u64,
    pub week: u64,
    pub category: Seq<char>,
    pub amount: u128,
    pub note: Seq<char>,
}

impl View for Expense {
    type V = ExpenseV;

    open spec fn view(&self) -> ExpenseV {
        ExpenseV {
            id: self.id,
            owner: self.owner,
            ts: self.ts,
            day: self.day,
            week: self.week,
            category: self.category@,
            amount: self.amount,
            note: self.note@,
        }
    }
}

/// The mathematical state the ledger keeps for one owner:
/// - `count` is the last id assigned to the owner, 0 when none was;
/// - `records` holds every record ever created, tombstones included,
///   with the record of id `i` at position `i - 1`;
/// - `index` is the ordered sequence of live (not removed) ids.
#[verifier::ext_equal]
pub struct AccountV {
    pub count: u64,
    pub records: Seq<ExpenseV>,
    pub index: Seq<u64>,
}

impl AccountV {
    /// The state of an owner that never added an expense.
    pub open spec fn empty() -> AccountV {
        AccountV { count: 0, records: Seq::empty(), index: Seq::empty() }
    }
}

/// The record a removal writes in place of the removed one: category
/// "DELETED", amount zero, zeroed buckets, and the removal time as `ts`.
pub open spec fn tombstone(id: u64, owner: Principal, now: u64) -> ExpenseV {
    ExpenseV {
        id,
        owner,
        ts: now,
        day: 0,
        week: 0,
        category: "DELETED"@,
        amount: 0,
        note: Seq::empty(),
    }
}

/// `s` with every occurrence of `x` removed, order of the rest preserved.
pub open spec fn without(s: Seq<u64>, x: u64) -> Seq<u64>
    decreases s.len(),
{
    if s.len() == 0 {
        Seq::empty()
    } else {
        let prev = without(s.drop_last(), x);
        if s.last() == x {
            prev
        } else {
            prev.push(s.last())
        }
    }
}

/// Saturating addition on amounts, the only way totals accumulate.
pub open spec fn sat_add(a: u128, b: u128) -> u128 {
    if a + b > u128::MAX {
        u128::MAX
    } else {
        (a + b) as u128
    }
}

/// What one record contributes to a total for `bucket`: its amount when its
/// stored day (or week, for a weekly total) equals the bucket, else nothing.
pub open spec fn bucket_amount(e: ExpenseV, bucket: u64, weekly: bool) -> u128 {
    if (if weekly {
        e.week
    } else {
        e.day
    }) == bucket {
        e.amount
    } else {
        0
    }
}

/// The saturating sum, over exactly the ids present in `index`, of what the
/// record stored for each id contributes to the total for `bucket`.
pub open spec fn bucket_sum(records: Seq<ExpenseV>, index: Seq<u64>, bucket: u64, weekly: bool) -> u128
    decreases index.len(),
{
    if index.len() == 0 {
        0
    } else {
        let prev = bucket_sum(records, index.drop_last(), bucket, weekly);
        sat_add(prev, bucket_amount(records[index.last() - 1], bucket, weekly))
    }
}

/// Whether `x` occurs among `ids`.
fn ids_contain(ids: &Vec<u64>, x: u64) -> (r: bool)
    ensures
        r == ids@.contains(x),
{
    let n = ids.len();
    let mut i: usize = 0;
    while i < n
        invariant
            n == ids@.len(),
            i <= n,
            forall|k: int| 0 <= k < i ==> ids@[k] != x,
        decreases n - i,
    {
        if ids[i] == x {
            proof {
                assert(ids@[i as int] == x);
            }
            return true;
        }
        i = i + 1;
    }
    proof {
        assert(!ids@.contains(x)) by {
            if ids@.contains(x) {
                let m = choose|m: int| 0 <= m < ids@.len() && ids@[m] == x;
                assert(ids@[m] != x);
            }
        }
    }
    false
}

/// The stored state for one owner; `RustyWallet` keeps one per principal
/// that ever added an expense.
struct OwnerAccount {
    owner: Principal,
    count: u64,
    records: Vec<Expense>,
    index: Vec<u64>,
}

impl OwnerAccount {
    /// The mathematical value of this account.
    spec fn av(self) -> AccountV {
        AccountV {
            count: self.count,
            records: self.records@.map_values(|e: Expense| e@),
            index: self.index@,
        }
    }

    /// Well-formedness: the record of id `i` sits at position `i - 1` and
    /// belongs to this owner; every record's week bucket is its day bucket
    /// divided by 7 (week boundaries align with day boundaries, and a
    /// tombstone zeroes both); every indexed id names a stored record; and
    /// the index is strictly increasing (ids enter in assignment order and
    /// removal keeps the order).
    spec fn wf(self) -> bool {
        &&& self.records@.len() == self.count
        &&& forall|k: int|
            0 <= k < self.records@.len() ==> (#[trigger] self.records@[k]).id == k + 1
                && self.records@[k].owner == self.owner && self.records@[k].week
                == self.records@[k].day / 7
        &&& forall|k: int| 0 <= k < self.index@.len() ==> 1 <= #[trigger] self.index@[k] <= self.count
        &&& forall|k: int, l: int|
            0 <= k < l < self.index@.len() ==> self.index@[k] < self.index@[l]
    }
}

/// The expense ledger: an append-only per-owner record store with a
/// secondary index of live ids and time-bucketed aggregation.
///
/// The host's clock reading is passed to the operations that need it as
/// `now`; mutating operations take the host-authorized `caller` principal.
pub struct RustyWallet {
    accounts: Vec<OwnerAccount>,
}

impl RustyWallet {
    /// Whether any expense was ever added for `p`.
    pub closed spec fn has_account(self, p: Principal) -> bool {
        exists|i: int| 0 <= i < self.accounts@.len() && (#[trigger] self.accounts@[i]).owner == p
    }

    /// The position of `p`'s account, meaningful when `has_account(p)`.
    closed spec fn acct_idx(self, p: Principal) -> int {
        choose|i: int| 0 <= i < self.accounts@.len() && (#[trigger] self.accounts@[i]).owner == p
    }

    /// The state the ledger keeps for `p`; an owner with no account yet is
    /// indistinguishable from one whose state is [`AccountV::empty`].
    pub closed spec fn account(self, p: Principal) -> AccountV {
        if self.has_account(p) {
            self.accounts@[self.acct_idx(p)].av()
        } else {
            AccountV::empty()
        }
    }

    /// Well-formedness: one account per owner, each well formed.
    pub closed spec fn wf(self) -> bool {
        &&& forall|i: int, j: int|
            0 <= i < j < self.accounts@.len() ==> (#[trigger] self.accounts@[i]).owner
                != (#[trigger] self.accounts@[j]).owner
        &&& forall|i: int| 0 <= i < self.accounts@.len() ==> (#[trigger] self.accounts@[i]).wf()
    }

    /// An empty ledger.
    pub fn new() -> (w: RustyWallet)
        ensures
            w.wf(),
            forall|p: Principal| #[trigger] w.account(p) == AccountV::empty(),
    {
        let w = RustyWallet { accounts: Vec::new() };
        proof {
            assert(forall|p: Principal| !w.has_account(p));
        }
        w
    }

    /// The account stored at position `i` is the one `account` returns for
    /// its owner: positions and owners are in bijection.
    proof fn lemma_account_at(self, i: int)
        requires
            self.wf(),
            0 <= i < self.accounts@.len(),
        ensures
            self.has_account(self.accounts@[i].owner),
            self.acct_idx(self.accounts@[i].owner) == i,
            self.account(self.accounts@[i].owner) == self.accounts@[i].av(),
    {
        let p = self.accounts@[i].owner;
        assert(self.has_account(p));
        let j = self.acct_idx(p);
        assert(0 <= j < self.accounts@.len() && self.accounts@[j].owner == p);
        if i < j {
            assert(self.accounts@[i].owner != self.accounts@[j].owner);
        } else if j < i {
            assert(self.accounts@[j].owner != self.accounts@[i].owner);
        }
    }

    /// Replacing the account at one position, owner kept, changes the state
    /// of that owner alone and preserves well-formedness.
    proof fn lemma_update_frame(pre: RustyWallet, post: RustyWallet, i: int, p: Principal)
        requires
            pre.wf(),
            0 <= i < pre.accounts@.len(),
            pre.accounts@[i].owner == p,
            post.accounts@ == pre.accounts@.update(i, post.accounts@[i]),
            post.accounts@[i].owner == p,
            post.accounts@[i].wf(),
        ensures
            post.wf(),
            post.has_account(p),
            post.account(p) == post.accounts@[i].av(),
            forall|q: Principal| q != p ==> post.account(q) == pre.account(q),
            forall|q: Principal| q != p ==> post.has_account(q) == pre.has_account(q),
    {
        assert forall|k: int| 0 <= k < post.accounts@.len() implies (#[trigger] post.accounts@[k]).owner
            == pre.accounts@[k].owner && post.accounts@[k].wf() by {
            if k != i {
                assert(post.accounts@[k] == pre.accounts@[k]);
            }
        }
        post.lemma_account_at(i);
        assert forall|q: Principal| q != p implies post.account(q) == pre.account(q)
            && post.has_account(q) == pre.has_account(q) by {
            if pre.has_account(q) {
                let j = pre.acct_idx(q);
                assert(post.accounts@[j].owner == q);
                assert(post.has_account(q));
            }
            if post.has_account(q) {
                let j = post.acct_idx(q);
                assert(pre.accounts@[j].owner == q);
                assert(pre.has_account(q));
                let j0 = pre.acct_idx(q);
                assert(pre.accounts@[j0].owner == q);
                if j < j0 {
                    assert(pre.accounts@[j].owner != pre.accounts@[j0].owner);
                } else if j0 < j {
                    assert(pre.accounts@[j0].owner != pre.accounts@[j].owner);
                }
                assert(j == j0);
                assert(j != i);
                assert(post.accounts@[j] == pre.accounts@[j]);
            }
        }
    }

    /// Appending an account for an owner that had none changes the state of
    /// that owner alone and preserves well-formedness.
    proof fn lemma_push_frame(pre: RustyWallet, post: RustyWallet, p: Principal)
        requires
            pre.wf(),
            !pre.has_account(p),
            post.accounts@ == pre.accounts@.push(post.accounts@.last()),
            post.accounts@.last().owner == p,
            post.accounts@.last().wf(),
        ensures
            post.wf(),
            post.has_account(p),
            post.account(p) == post.accounts@.last().av(),
            forall|q: Principal| q != p ==> post.account(q) == pre.account(q),
            forall|q: Principal| q != p ==> post.has_account(q) == pre.has_account(q),
    {
        let n = pre.accounts@.len() as int;
        assert forall|k: int| 0 <= k < post.accounts@.len() implies (#[trigger] post.accounts@[k]).wf() by {
            if k < n {
                assert(post.accounts@[k] == pre.accounts@[k]);
            }
        }
        assert forall|k: int, l: int| 0 <= k < l < post.accounts@.len() implies
            (#[trigger] post.accounts@[k]).owner != (#[trigger] post.accounts@[l]).owner by {
            if l < n {
                assert(post.accounts@[k] == pre.accounts@[k]);
                assert(post.accounts@[l] == pre.accounts@[l]);
            } else {
                assert(post.accounts@[k] == pre.accounts@[k]);
                if post.accounts@[k].owner == p {
                    assert(pre.has_account(p));
                }
            }
        }
        post.lemma_account_at(n);
        assert forall|q: Principal| q != p implies post.account(q) == pre.account(q)
            && post.has_account(q) == pre.has_account(q) by {
            if pre.has_account(q) {
                let j = pre.acct_idx(q);
                assert(post.accounts@[j].owner == q);
                assert(post.has_account(q));
            }
            if post.has_account(q) {
                let j = post.acct_idx(q);
                assert(j != n);
                assert(pre.accounts@[j].owner == q);
                assert(pre.has_account(q));
                let j0 = pre.acct_idx(q);
                if j < j0 {
                    assert(pre.accounts@[j].owner != pre.accounts@[j0].owner);
                } else if j0 < j {
                    assert(pre.accounts@[j0].owner != pre.accounts@[j].owner);
                }
                assert(post.accounts@[j] == pre.accounts@[j]);
            }
        }
    }

    /// The position of `p`'s account, or `None` when no expense of `p` was
    /// ever stored.
    fn find_account(&self, p: Principal) -> (r: Option<usize>)
        ensures
            match r {
                Some(i) => i < self.accounts@.len() && self.accounts@[i as int].owner == p,
                None => !self.has_account(p),
            },
    {
        let n = self.accounts.len();
        let mut i: usize = 0;
        while i < n
            invariant
                n == self.accounts@.len(),
                i <= n,
                forall|k: int| 0 <= k < i ==> (#[trigger] self.accounts@[k]).owner != p,
            decreases n - i,
        {
            if self.accounts[i].owner == p {
                return Some(i);
            }
            i = i + 1;
        }
        None
    }

    /// Add an expense for `caller` at clock reading `now` and return its id,
    /// one past the last id assigned to `caller`. The record's day and week
    /// buckets are fixed here, from `now`, and the id is appended to the
    /// caller's index of live ids.
    ///
    /// At `u64::MAX` the counter would saturate rather than wrap; that one
    /// point is instead left out by precondition, a deliberate narrowing:
    /// every id ever assigned owns a stored record, so reaching it would
    /// take a record store of `u64::MAX` entries first. Below the bound
    /// the increment equals its own saturation.
    pub fn add_expense(
        &mut self,
        caller: Principal,
        now: u64,
        category: String,
        amount: u128,
        note: String,
    ) -> (id: u64)
        requires
            old(self).wf(),
            old(self).account(caller).count < u64::MAX,
        ensures
            final(self).wf(),
            id == old(self).account(caller).count + 1,
            final(self).account(caller) == (AccountV {
                count: id,
                records: old(self).account(caller).records.push(
                    ExpenseV {
                        id,
                        owner: caller,
                        ts: now,
                        day: now / SECONDS_PER_DAY,
                        week: now / SECONDS_PER_WEEK,
                        category: category@,
                        amount,
                        note: note@,
                    },
                ),
                index: old(self).account(caller).index.push(id),
            }),
            forall|q: Principal| q != caller ==> final(self).account(q) == old(self).account(q),
            forall|q: Principal| q != caller ==> final(self).has_account(q) == old(self).has_account(
                q,
            ),
    {
        let found = self.find_account(caller);
        match found {
            Some(i) => {
                proof {
                    self.lemma_account_at(i as int);
                }
                let ghost pre = *self;
                let acc = &mut self.accounts[i];
                let ghost accpre = *acc;
                let id = acc.count + 1;
                acc.count = id;
                let record = Expense {
                    id,
                    owner: caller,
                    ts: now,
                    day: now / SECONDS_PER_DAY,
                    week: now / SECONDS_PER_WEEK,
                    category,
                    amount,
                    note,
                };
                acc.records.push(record);
                acc.index.push(id);
                proof {
                    lemma_div_denominator(now as int, SECONDS_PER_DAY as int, 7);
                    assert(self.accounts@[i as int].av().records =~= accpre.av().records.push(
                        ExpenseV {
                            id,
                            owner: caller,
                            ts: now,
                            day: now / SECONDS_PER_DAY,
                            week: now / SECONDS_PER_WEEK,
                            category: category@,
                            amount,
                            note: note@,
                        },
                    ));
                    RustyWallet::lemma_update_frame(pre, *self, i as int, caller);
                    assert(self.account(caller) =~= (AccountV {
                        count: id,
                        records: pre.account(caller).records.push(
                            ExpenseV {
                                id,
                                owner: caller,
                                ts: now,
                                day: now / SECONDS_PER_DAY,
                                week: now / SECONDS_PER_WEEK,
                                category: category@,
                                amount,
                                note: note@,
                            },
                        ),
                        index: pre.account(caller).index.push(id),
                    }));
                }
                id
            },
            None => {
                let ghost pre = *self;
                let record = Expense {
                    id: 1,
                    owner: caller,
                    ts: now,
                    day: now / SECONDS_PER_DAY,
                    week: now / SECONDS_PER_WEEK,
                    category,
                    amount,
                    note,
                };
                let mut records: Vec<Expense> = Vec::new();
                records.push(record);
                let mut index: Vec<u64> = Vec::new();
                index.push(1);
                let acc = OwnerAccount { owner: caller, count: 1, records, index };
                self.accounts.push(acc);
                proof {
                    lemma_div_denominator(now as int, SECONDS_PER_DAY as int, 7);
                    RustyWallet::lemma_push_frame(pre, *self, caller);
                    assert(self.account(caller) =~= (AccountV {
                        count: 1,
                        records: pre.account(caller).records.push(
                            ExpenseV {
                                id: 1,
                                owner: caller,
                                ts: now,
                                day: now / SECONDS_PER_DAY,
                                week: now / SECONDS_PER_WEEK,
                                category: category@,
                                amount,
                                note: note@,
                            },
                        ),
                        index: pre.account(caller).index.push(1),
                    }));
                }
                1
            },
        }
    }

    /// The last id assigned to `owner`, counting every expense ever created,
    /// removed ones included; 0 when none was.
    pub fn expenses_count(&self, owner: Principal) -> (r: u64)
        requires
            self.wf(),
        ensures
            r == self.account(owner).count,
    {
        match self.find_account(owner) {
            Some(i) => {
                proof {
                    self.lemma_account_at(i as int);
                }
                self.accounts[i].count
            },
            None => 0,
        }
    }

    /// The ordered ids of `owner`'s live (not removed) expenses; empty when
    /// the owner never added one.
    pub fn list_my_expense_ids(&self, owner: Principal) -> (ids: Vec<u64>)
        requires
            self.wf(),
        ensures
            ids@ == self.account(owner).index,
    {
        match self.find_account(owner) {
            None => {
                let ids: Vec<u64> = Vec::new();
                ids
            },
            Some(i) => {
                proof {
                    self.lemma_account_at(i as int);
                }
                let acc = &self.accounts[i];
                let n = acc.index.len();
                let mut out: Vec<u64> = Vec::new();
                let mut k: usize = 0;
                while k < n
                    invariant
                        n == acc.index@.len(),
                        k <= n,
                        out@ == acc.index@.take(k as int),
                    decreases n - k,
                {
                    out.push(acc.index[k]);
                    proof {
                        assert(acc.index@.take(k as int + 1) =~= acc.index@.take(k as int).push(
                            acc.index@[k as int],
                        ));
                    }
                    k = k + 1;
                }
                proof {
                    assert(acc.index@.take(n as int) =~= acc.index@);
                }
                out
            },
        }
    }

    /// The record stored for `(owner, id)`, tombstones included: a record
    /// exists exactly for the ids `1..=count` ever assigned to the owner,
    /// and stays after removal.
    pub fn view_expense(&self, owner: Principal, id: u64) -> (r: Result<Expense, Error>)
        requires
            self.wf(),
        ensures
            match r {
                Ok(e) => 1 <= id <= self.account(owner).count && e@ == self.account(
                    owner,
                ).records[id - 1],
                Err(err) => !(1 <= id <= self.account(owner).count) && err == Error::NotFound,
            },
    {
        match self.find_account(owner) {
            None => Err(Error::NotFound),
            Some(i) => {
                proof {
                    self.lemma_account_at(i as int);
                }
                let acc = &self.accounts[i];
                if id == 0 || id > acc.count {
                    Err(Error::NotFound)
                } else {
                    let rlen = acc.records.len();
                    let j: usize = (id - 1) as usize;
                    proof {
                        assert(rlen == acc.records@.len());
                        assert(j == id - 1);
                    }
                    let e = &acc.records[j];
                    let copy = Expense {
                        id: e.id,
                        owner: e.owner,
                        ts: e.ts,
                        day: e.day,
                        week: e.week,
                        category: e.category.clone(),
                        amount: e.amount,
                        note: e.note.clone(),
                    };
                    proof {
                        assert(copy@ =~= self.account(owner).records[id - 1]);
                    }
                    Ok(copy)
                }
            },
        }
    }

    /// The saturating sum, over the ids in `owner`'s index, of the amounts
    /// whose stored bucket equals `bucket`.
    fn bucket_total(&self, owner: Principal, bucket: u64, weekly: bool) -> (r: u128)
        requires
            self.wf(),
        ensures
            r == bucket_sum(
                self.account(owner).records,
                self.account(owner).index,
                bucket,
                weekly,
            ),
    {
        match self.find_account(owner) {
            None => 0,
            Some(i) => {
                proof {
                    self.lemma_account_at(i as int);
                }
                let acc = &self.accounts[i];
                let n = acc.index.len();
                let mut sum: u128 = 0;
                let mut k: usize = 0;
                while k < n
                    invariant
                        acc.wf(),
                        n == acc.index@.len(),
                        k <= n,
                        sum == bucket_sum(
                            acc.av().records,
                            acc.index@.take(k as int),
                            bucket,
                            weekly,
                        ),
                    decreases n - k,
                {
                    let id = acc.index[k];
                    let rlen = acc.records.len();
                    let j: usize = (id - 1) as usize;
                    proof {
                        assert(rlen == acc.records@.len());
                        assert(j == id - 1);
                    }
                    let e = &acc.records[j];
                    let matches_bucket = if weekly {
                        e.week == bucket
                    } else {
                        e.day == bucket
                    };
                    let part: u128 = if matches_bucket {
                        e.amount
                    } else {
                        0
                    };
                    proof {
                        assert(acc.index@.take(k as int + 1).drop_last() =~= acc.index@.take(
                            k as int,
                        ));
                        assert(acc.index@.take(k as int + 1).last() == id);
                        assert(acc.av().records[id - 1] == e@);
                        assert(part == bucket_amount(acc.av().records[id - 1], bucket, weekly));
                    }
                    sum = if sum > u128::MAX - part {
                        u128::MAX
                    } else {
                        sum + part
                    };
                    k = k + 1;
                }
                proof {
                    assert(acc.index@.take(n as int) =~= acc.index@);
                }
                sum
            },
        }
    }

    /// The saturating sum of `owner`'s live expenses whose stored day bucket
    /// is the day bucket of the clock reading `now`. Buckets are fixed at
    /// creation, so an expense counts only while the query time shares its
    /// creation day. Well-formedness ties every indexed id to a stored
    /// record, so the lookup cannot fail.
    pub fn daily_total(&self, owner: Principal, now: u64) -> (r: u128)
        requires
            self.wf(),
        ensures
            r == bucket_sum(
                self.account(owner).records,
                self.account(owner).index,
                now / SECONDS_PER_DAY,
                false,
            ),
    {
        self.bucket_total(owner, now / SECONDS_PER_DAY, false)
    }

    /// The saturating sum of `owner`'s live expenses whose stored week
    /// bucket is the week bucket of the clock reading `now`.
    pub fn weekly_total(&self, owner: Principal, now: u64) -> (r: u128)
        requires
            self.wf(),
        ensures
            r == bucket_sum(
                self.account(owner).records,
                self.account(owner).index,
                now / SECONDS_PER_WEEK,
                true,
            ),
    {
        self.bucket_total(owner, now / SECONDS_PER_WEEK, true)
    }

    /// Remove `caller`'s expense `id`: overwrite the record in place with
    /// the tombstone (its `ts` is the removal time `now`) and drop the id
    /// from the index of live ids. Fails with `NotFound` exactly when `id`
    /// is not live in the caller's index — never assigned, or already
    /// removed: the tombstone an earlier removal left is a record, but no
    /// longer a removable expense, so a second removal of the same id
    /// fails with `NotFound` and changes nothing.
    pub fn remove_expense(&mut self, caller: Principal, id: u64, now: u64) -> (r: Result<
        (),
        Error,
    >)
        requires
            old(self).wf(),
        ensures
            final(self).wf(),
            r is Ok <==> old(self).account(caller).index.contains(id),
            (r is Ok ==> final(self).account(caller) == (AccountV {
                count: old(self).account(caller).count,
                records: old(self).account(caller).records.update(
                    id - 1,
                    tombstone(id, caller, now),
                ),
                index: without(old(self).account(caller).index, id),
            })),
            (r is Err ==> *final(self) == *old(self) && r == Err::<(), Error>(Error::NotFound)),
            forall|q: Principal| q != caller ==> final(self).account(q) == old(self).account(q),
            forall|q: Principal| q != caller ==> final(self).has_account(q) == old(self).has_account(
                q,
            ),
    {
        let found = self.find_account(caller);
        match found {
            None => Err(Error::NotFound),
            Some(i) => {
                proof {
                    self.lemma_account_at(i as int);
                }
                let live = ids_contain(&self.accounts[i].index, id);
                if !live {
                    return Err(Error::NotFound);
                }
                proof {
                    assert(self.accounts@[i as int].wf());
                    let idxseq = self.accounts@[i as int].index@;
                    let m = choose|m: int| 0 <= m < idxseq.len() && idxseq[m] == id;
                    assert(1 <= idxseq[m] <= self.accounts@[i as int].count);
                    assert(1 <= id <= self.accounts@[i as int].count);
                }
                let ghost pre = *self;
                let acc_ref = &self.accounts[i];
                let n = acc_ref.index.len();
                let mut out: Vec<u64> = Vec::new();
                let mut k: usize = 0;
                while k < n
                    invariant
                        n == acc_ref.index@.len(),
                        k <= n,
                        out@ == without(acc_ref.index@.take(k as int), id),
                    decreases n - k,
                {
                    let v = acc_ref.index[k];
                    proof {
                        assert(acc_ref.index@.take(k as int + 1).drop_last() =~= acc_ref.index@.take(
                            k as int,
                        ));
                        assert(acc_ref.index@.take(k as int + 1).last() == v);
                    }
                    if v != id {
                        out.push(v);
                    }
                    k = k + 1;
                }
                proof {
                    assert(acc_ref.index@.take(n as int) =~= acc_ref.index@);
                }
                let tomb = Expense {
                    id,
                    owner: caller,
                    ts: now,
                    day: 0,
                    week: 0,
                    category: "DELETED".to_owned(),
                    amount: 0,
                    note: String::new(),
                };
                let rlen = self.accounts[i].records.len();
                let j: usize = (id - 1) as usize;
                proof {
                    assert(self.accounts@[i as int].wf());
                    assert(rlen == self.accounts@[i as int].records@.len());
                    assert(j == id - 1);
                }
                let acc = &mut self.accounts[i];
                let slot = &mut acc.records[j];
                *slot = tomb;
                acc.index = out;
                proof {
                    lemma_without_contains(pre.account(caller).index, id);
                    lemma_without_keeps_order(pre.account(caller).index, id);
                    assert forall|k2: int| 0 <= k2 < without(pre.account(caller).index, id).len()
                        implies 1 <= #[trigger] without(pre.account(caller).index, id)[k2]
                        <= pre.account(caller).count by {
                        let w = without(pre.account(caller).index, id);
                        assert(w.contains(w[k2]));
                        let l = choose|l: int| 0 <= l < pre.account(caller).index.len()
                            && pre.account(caller).index[l] == w[k2];
                        assert(1 <= pre.accounts@[i as int].index@[l] <= pre.accounts@[i as int].count);
                    }
                    assert(self.accounts@[i as int].wf());
                    assert(self.accounts@[i as int].av().records =~= pre.account(
                        caller,
                    ).records.update(id - 1, tombstone(id, caller, now)));
                    RustyWallet::lemma_update_frame(pre, *self, i as int, caller);
                    assert(self.account(caller) =~= (AccountV {
                        count: pre.account(caller).count,
                        records: pre.account(caller).records.update(
                            id - 1,
                            tombstone(id, caller, now),
                        ),
                        index: without(pre.account(caller).index, id),
                    }));
                }
                Ok(())
            },
        }
    }
}

/// Every id kept by `without` was in the original sequence and differs from
/// the removed one; every other id is kept.
pub proof fn lemma_without_contains(s: Seq<u64>, x: u64)
    ensures
        forall|v: u64| #[trigger] without(s, x).contains(v) <==> s.contains(v) && v != x,
    decreases s.len(),
{
    if s.len() == 0 {
        assert forall|v: u64| !(#[trigger] without(s, x).contains(v)) && !s.contains(v) by {}
    } else {
        let head = s.drop_last();
        lemma_without_contains(head, x);
        assert forall|v: u64| #[trigger] without(s, x).contains(v) <==> s.contains(v) && v != x by {
            assert(s.contains(v) <==> head.contains(v) || s.last() == v) by {
                if s.contains(v) {
                    let m = choose|m: int| 0 <= m < s.len() && s[m] == v;
                    if m < s.len() - 1 {
                        assert(head[m] == v);
                        assert(head.contains(v));
                    }
                }
                if head.contains(v) {
                    let m = choose|m: int| 0 <= m < head.len() && head[m] == v;
                    assert(s[m] == v);
                }
            }
            assert(without(head, x).contains(v) <==> head.contains(v) && v != x);
            if s.last() == x {
                assert(without(s, x) == without(head, x));
            } else {
                let w = without(head, x).push(s.last());
                assert(without(s, x) == w);
                assert(w.contains(v) <==> without(head, x).contains(v) || s.last() == v) by {
                    if w.contains(v) {
                        let m = choose|m: int| 0 <= m < w.len() && w[m] == v;
                        if m < w.len() - 1 {
                            assert(without(head, x)[m] == v);
                            assert(without(head, x).contains(v));
                        } else {
                            assert(s.last() == v);
                        }
                    }
                    if without(head, x).contains(v) {
                        let m = choose|m: int| 0 <= m < without(head, x).len() && without(
                            head,
                            x,
                        )[m] == v;
                        assert(w[m] == v);
                        assert(w.contains(v));
                    }
                    if s.last() == v {
                        assert(w[w.len() - 1] == v);
                        assert(w.contains(v));
                    }
                }
            }
        }
    }
}

/// `without` keeps the order of what it keeps: a strictly increasing
/// sequence stays strictly increasing.
pub proof fn lemma_without_keeps_order(s: Seq<u64>, x: u64)
    requires
        forall|k: int, l: int| 0 <= k < l < s.len() ==> s[k] < s[l],
    ensures
        forall|k: int, l: int|
            0 <= k < l < without(s, x).len() ==> without(s, x)[k] < without(s, x)[l],
    decreases s.len(),
{
    if s.len() > 0 {
        let head = s.drop_last();
        assert forall|k: int, l: int| 0 <= k < l < head.len() implies head[k] < head[l] by {
            assert(s[k] < s[l]);
        }
        lemma_without_keeps_order(head, x);
        lemma_without_contains(head, x);
        let wp = without(head, x);
        if s.last() == x {
            assert(without(s, x) == wp);
        } else {
            let w = wp.push(s.last());
            assert(without(s, x) == w);
            assert forall|k: int| 0 <= k < wp.len() implies wp[k] < s.last() by {
                assert(wp.contains(wp[k]));
                assert(head.contains(wp[k]));
                let m = choose|m: int| 0 <= m < head.len() && head[m] == wp[k];
                assert(s[m] == wp[k]);
                assert(s[m] < s[s.len() - 1]);
            }
            assert forall|k: int, l: int| 0 <= k < l < w.len() implies w[k] < w[l] by {
                if l < w.len() - 1 {
                    assert(wp[k] < wp[l]);
                } else {
                    assert(w[k] == wp[k]);
                    assert(wp[k] < s.last());
                }
            }
        }
    }
}

/// Removing an id that is not present changes nothing.
pub proof fn lemma_without_absent(s: Seq<u64>, x: u64)
    requires
        !s.contains(x),
    ensures
        without(s, x) == s,
    decreases s.len(),
{
    if s.len() > 0 {
        let head = s.drop_last();
        assert(s[s.len() - 1] == s.last());
        assert(s.last() != x);
        assert(!head.contains(x)) by {
            if head.contains(x) {
                let m = choose|m: int| 0 <= m < head.len() && head[m] == x;
                assert(s[m] == x);
            }
        }
        lemma_without_absent(head, x);
        assert(without(s, x) =~= s);
    }
}

/// Dropping an id from an index is idempotent: a second removal of the same
/// id leaves the index exactly as the first left it.
pub proof fn lemma_without_idempotent(s: Seq<u64>, x: u64)
    ensures
        without(without(s, x), x) == without(s, x),
{
    lemma_without_contains(s, x);
    lemma_without_absent(without(s, x), x);
}

/// Ids are assigned densely, in call order: the records ever created for an
/// owner are exactly those with ids `1..=count`, each at the slot its id
/// names, with no gap and no reuse — removals tombstone a slot but never
/// free its id.
pub proof fn lemma_ids_are_sequential(w: RustyWallet, p: Principal)
    requires
        w.wf(),
    ensures
        w.account(p).records.len() == w.account(p).count,
        forall|k: int|
            0 <= k < w.account(p).records.len() ==> (#[trigger] w.account(p).records[k]).id == k + 1
                && w.account(p).records[k].owner == p,
{
    if w.has_account(p) {
        let j = w.acct_idx(p);
        assert(0 <= j < w.accounts@.len() && w.accounts@[j].owner == p);
        assert(w.accounts@[j].wf());
        assert forall|k: int| 0 <= k < w.account(p).records.len() implies (#[trigger] w.account(
            p,
        ).records[k]).id == k + 1 && w.account(p).records[k].owner == p by {
            assert(w.accounts@[j].records@[k].id == k + 1);
        }
    }
}

/// The index of live ids only names created records, each at most once, in
/// strictly increasing — that is, insertion — order.
pub proof fn lemma_index_well_formed(w: RustyWallet, p: Principal)
    requires
        w.wf(),
    ensures
        forall|k: int|
            0 <= k < w.account(p).index.len() ==> 1 <= #[trigger] w.account(p).index[k] <= w.account(
                p,
            ).count,
        forall|k: int, l: int|
            0 <= k < l < w.account(p).index.len() ==> w.account(p).index[k] < w.account(p).index[l],
{
    if w.has_account(p) {
        let j = w.acct_idx(p);
        assert(0 <= j < w.accounts@.len() && w.accounts@[j].owner == p);
        assert(w.accounts@[j].wf());
    }
}

/// What a slot the index does not name holds never matters to a total: in
/// particular, once an id is removed from the index, tombstoning its record
/// leaves every daily and weekly total as it would be without the record.
pub proof fn lemma_unindexed_update_keeps_sum(
    records: Seq<ExpenseV>,
    index: Seq<u64>,
    id: u64,
    e: ExpenseV,
    bucket: u64,
    weekly: bool,
)
    requires
        !index.contains(id),
        forall|k: int| 0 <= k < index.len() ==> 1 <= #[trigger] index[k] <= records.len(),
        1 <= id <= records.len(),
    ensures
        bucket_sum(records.update(id - 1, e), index, bucket, weekly) == bucket_sum(
            records,
            index,
            bucket,
            weekly,
        ),
    decreases index.len(),
{
    if index.len() > 0 {
        let head = index.drop_last();
        assert(!head.contains(id)) by {
            if head.contains(id) {
                let m = choose|m: int| 0 <= m < head.len() && head[m] == id;
                assert(index[m] == id);
                assert(index.contains(id));
            }
        }
        assert forall|k: int| 0 <= k < head.len() implies 1 <= #[trigger] head[k]
            <= records.len() by {
            assert(1 <= index[k] <= records.len());
        }
        lemma_unindexed_update_keeps_sum(records, head, id, e, bucket, weekly);
        let last = index.last();
        assert(index.contains(last)) by {
            assert(index[index.len() - 1] == last);
        }
        assert(last != id);
        assert(1 <= index[index.len() - 1] <= records.len());
        assert(records.update(id - 1, e)[last - 1] == records[last - 1]);
    }
}

/// Saturating addition is monotone in both arguments.
proof fn lemma_sat_add_monotone(a1: u128, b1: u128, a2: u128, b2: u128)
    requires
        a1 <= a2,
        b1 <= b2,
    ensures
        sat_add(a1, b1) <= sat_add(a2, b2),
{
}

/// Over records whose week bucket is their day bucket divided by 7, the
/// weekly sum dominates the daily one at any one clock reading: whatever
/// the day bucket counts, the week bucket counts too.
proof fn lemma_bucket_sum_week_dominates(records: Seq<ExpenseV>, index: Seq<u64>, now: u64)
    requires
        forall|k: int| 0 <= k < index.len() ==> 1 <= #[trigger] index[k] <= records.len(),
        forall|k: int|
            0 <= k < records.len() ==> (#[trigger] records[k]).week == records[k].day / 7,
    ensures
        bucket_sum(records, index, now / SECONDS_PER_WEEK, true) >= bucket_sum(
            records,
            index,
            now / SECONDS_PER_DAY,
            false,
        ),
    decreases index.len(),
{
    if index.len() > 0 {
        let head = index.drop_last();
        assert forall|k: int| 0 <= k < head.len() implies 1 <= #[trigger] head[k]
            <= records.len() by {
            assert(1 <= index[k] <= records.len());
        }
        lemma_bucket_sum_week_dominates(records, head, now);
        let id = index.last();
        assert(1 <= index[index.len() - 1] <= records.len());
        let e = records[id - 1];
        assert(bucket_amount(e, now / SECONDS_PER_DAY, false) <= bucket_amount(
            e,
            now / SECONDS_PER_WEEK,
            true,
        )) by {
            if e.day == now / SECONDS_PER_DAY {
                lemma_div_denominator(now as int, SECONDS_PER_DAY as int, 7);
                assert(e.week == now / SECONDS_PER_WEEK);
            }
        }
        lemma_sat_add_monotone(
            bucket_sum(records, head, now / SECONDS_PER_DAY, false),
            bucket_amount(e, now / SECONDS_PER_DAY, false),
            bucket_sum(records, head, now / SECONDS_PER_WEEK, true),
            bucket_amount(e, now / SECONDS_PER_WEEK, true),
        );
    }
}

/// At any one clock reading the weekly total dominates the daily one:
/// week boundaries align with day boundaries, so every live expense the
/// day bucket counts, the week bucket counts too.
pub proof fn lemma_weekly_total_dominates_daily(w: RustyWallet, p: Principal, now: u64)
    requires
        w.wf(),
    ensures
        bucket_sum(w.account(p).records, w.account(p).index, now / SECONDS_PER_WEEK, true)
            >= bucket_sum(w.account(p).records, w.account(p).index, now / SECONDS_PER_DAY, false),
{
    let a = w.account(p);
    if w.has_account(p) {
        let j = w.acct_idx(p);
        assert(0 <= j < w.accounts@.len() && w.accounts@[j].owner == p);
        assert(w.accounts@[j].wf());
        assert forall|k: int| 0 <= k < a.records.len() implies (#[trigger] a.records[k]).week
            == a.records[k].day / 7 by {
            assert(w.accounts@[j].records@[k].week == w.accounts@[j].records@[k].day / 7);
        }
        assert forall|k: int| 0 <= k < a.index.len() implies 1 <= #[trigger] a.index[k]
            <= a.records.len() by {
            assert(1 <= w.accounts@[j].index@[k] <= w.accounts@[j].count);
        }
        lemma_bucket_sum_week_dominates(a.records, a.index, now);
    } else {
        assert(a.index.len() == 0);
    }
}

} // verus!
