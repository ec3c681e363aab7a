use vstd::prelude::*;

use crate::errors::Error;
use crate::expense::Principal;

verus! {

/// The lifecycle state of a listing. `Open` is initial; `Completed` and
/// `Cancelled` are terminal; the only paths are `Open -> Locked ->
/// Completed` and `Open -> Cancelled`.
#[derive(Debug, Clone, Copy, PartialEq, Eq, Structural)]
pub enum Status {
    Open,
    Locked,
    Completed,
    Cancelled,
}

/// One accepted bid: who bid, and how much.
#[derive(Debug, Clone, Copy, PartialEq, Eq, Structural)]
pub struct Bid {
    pub bidder: Principal,
    pub amount: i128,
}

/// One auction listing. The key `listing_id` is caller-chosen; the seller
/// is fixed at creation for the life of the listing.
#[derive(Debug)]
pub struct Listing {
    pub listing_id: u64,
    pub seller: Principal,
    pub asset_desc: String,
    pub ask_price: i128,
    pub status: Status,
    pub best_bid: i128,
    pub best_bidder: Option<Principal>,
}

/// The mathematical value of a [`Listing`]: the same fields with the
/// free-text description read as a character sequence.
#[verifier::ext_equal]
pub struct ListingV {
    pub listing_id: u64,
    pub seller: Principal,
    pub asset_desc: Seq<char>,
    pub ask_price: i128,
    pub status: Status,
    pub best_bid: i128,
    pub best_bidder: Option<Principal>,
}

impl View for Listing {
    type V = ListingV;

    open spec fn view(&self) -> ListingV {
        ListingV {
            listing_id: self.listing_id,
            seller: self.seller,
            asset_desc: self.asset_desc@,
            ask_price: self.ask_price,
            status: self.status,
            best_bid: self.best_bid,
            best_bidder: self.best_bidder,
        }
    }
}

/// What always holds of a listing and its accepted bids:
/// - the ask price is positive;
/// - every accepted bid meets the ask price, and the bids are strictly
///   increasing in amount — a later accepted bid always exceeds every
///   earlier one;
/// - `best_bid` and `best_bidder` are the last accepted bid, or 0 and
///   `None` while there is none;
/// - a listing can be `Locked` or `Completed` only with an accepted bid.
pub open spec fn listing_invariant(l: ListingV, bids: Seq<Bid>) -> bool {
    &&& l.ask_price > 0
    &&& forall|k: int| 0 <= k < bids.len() ==> (#[trigger] bids[k]).amount >= l.ask_price
    &&& forall|k: int, j: int| 0 <= k < j < bids.len() ==> bids[k].amount < bids[j].amount
    &&& l.best_bid == (if bids.len() == 0 {
        0
    } else {
        bids.last().amount
    })
    &&& l.best_bidder == (if bids.len() == 0 {
        Option::<Principal>::None
    } else {
        Some(bids.last().bidder)
    })
    &&& (l.status == Status::Locked || l.status == Status::Completed ==> bids.len() > 0)
}

/// One listing with its append-only bid history.
struct ListingEntry {
    listing: Listing,
    bids: Vec<Bid>,
}

impl ListingEntry {
    /// Well-formedness of one entry.
    spec fn wf(self) -> bool {
        listing_invariant(self.listing@, self.bids@)
    }
}

/// The auction ledger: one listing per caller-chosen id, each a small state
/// machine over its best bid and lifecycle status.
///
/// Mutating lifecycle operations take the host-authorized `caller`
/// principal; the seller-only checks are made here, against the stored
/// seller.
pub struct AuctionLedger {
    entries: Vec<ListingEntry>,
}

impl AuctionLedger {
    /// Whether a listing was created under `lid`.
    pub closed spec fn has_listing(self, lid: u64) -> bool {
        exists|i: int|
            0 <= i < self.entries@.len() && (#[trigger] self.entries@[i]).listing.listing_id == lid
    }

    /// The position of the listing `lid`, meaningful when `has_listing`.
    closed spec fn entry_idx(self, lid: u64) -> int {
        choose|i: int|
            0 <= i < self.entries@.len() && (#[trigger] self.entries@[i]).listing.listing_id == lid
    }

    /// The listing stored under `lid`, meaningful when `has_listing(lid)`.
    pub closed spec fn listing(self, lid: u64) -> ListingV {
        if self.has_listing(lid) {
            self.entries@[self.entry_idx(lid)].listing@
        } else {
            arbitrary()
        }
    }

    /// The accepted bids of listing `lid`, in order of acceptance; empty
    /// when the listing does not exist.
    pub closed spec fn bids(self, lid: u64) -> Seq<Bid> {
        if self.has_listing(lid) {
            self.entries@[self.entry_idx(lid)].bids@
        } else {
            Seq::empty()
        }
    }

    /// Well-formedness: one listing per id, each key matching its slot and
    /// each listing holding its invariant.
    pub closed spec fn wf(self) -> bool {
        &&& forall|i: int, j: int|
            0 <= i < j < self.entries@.len() ==> (#[trigger] self.entries@[i]).listing.listing_id
                != (#[trigger] self.entries@[j]).listing.listing_id
        &&& forall|i: int| 0 <= i < self.entries@.len() ==> (#[trigger] self.entries@[i]).wf()
    }

    /// An empty ledger.
    pub fn new() -> (a: AuctionLedger)
        ensures
            a.wf(),
            forall|lid: u64| !(#[trigger] a.has_listing(lid)),
    {
        AuctionLedger { entries: Vec::new() }
    }

    /// The entry stored at position `i` is the one `listing` returns for
    /// its id: positions and listing ids are in bijection.
    proof fn lemma_entry_at(self, i: int)
        requires
            self.wf(),
            0 <= i < self.entries@.len(),
        ensures
            self.has_listing(self.entries@[i].listing.listing_id),
            self.entry_idx(self.entries@[i].listing.listing_id) == i,
            self.listing(self.entries@[i].listing.listing_id) == self.entries@[i].listing@,
            self.bids(self.entries@[i].listing.listing_id) == self.entries@[i].bids@,
    {
        let lid = self.entries@[i].listing.listing_id;
        assert(self.has_listing(lid));
        let j = self.entry_idx(lid);
        assert(0 <= j < self.entries@.len() && self.entries@[j].listing.listing_id == lid);
        if i < j {
            assert(self.entries@[i].listing.listing_id != self.entries@[j].listing.listing_id);
        } else if j < i {
            assert(self.entries@[j].listing.listing_id != self.entries@[i].listing.listing_id);
        }
    }

    /// Replacing the entry at one position, id kept, changes that listing
    /// alone and preserves well-formedness.
    proof fn lemma_update_frame(pre: AuctionLedger, post: AuctionLedger, i: int, lid: u64)
        requires
            pre.wf(),
            0 <= i < pre.entries@.len(),
            pre.entries@[i].listing.listing_id == lid,
            post.entries@ == pre.entries@.update(i, post.entries@[i]),
            post.entries@[i].listing.listing_id == lid,
            post.entries@[i].wf(),
        ensures
            post.wf(),
            post.has_listing(lid),
            post.listing(lid) == post.entries@[i].listing@,
            post.bids(lid) == post.entries@[i].bids@,
            forall|l: u64|
                l != lid ==> #[trigger] post.has_listing(l) == pre.has_listing(l)
                    && post.listing(l) == pre.listing(l) && post.bids(l) == pre.bids(l),
    {
        assert forall|k: int| 0 <= k < post.entries@.len() implies (#[trigger] post.entries@[k]).listing.listing_id
            == pre.entries@[k].listing.listing_id && post.entries@[k].wf() by {
            if k != i {
                assert(post.entries@[k] == pre.entries@[k]);
            }
        }
        post.lemma_entry_at(i);
        assert forall|l: u64| l != lid implies #[trigger] post.has_listing(l) == pre.has_listing(l)
            && post.listing(l) == pre.listing(l) && post.bids(l) == pre.bids(l) by {
            if pre.has_listing(l) {
                let j = pre.entry_idx(l);
                assert(post.entries@[j].listing.listing_id == l);
                assert(post.has_listing(l));
            }
            if post.has_listing(l) {
                let j = post.entry_idx(l);
                assert(pre.entries@[j].listing.listing_id == l);
                assert(pre.has_listing(l));
                let j0 = pre.entry_idx(l);
                if j < j0 {
                    assert(pre.entries@[j].listing.listing_id != pre.entries@[j0].listing.listing_id);
                } else if j0 < j {
                    assert(pre.entries@[j0].listing.listing_id != pre.entries@[j].listing.listing_id);
                }
                assert(j == j0);
                assert(j != i);
                assert(post.entries@[j] == pre.entries@[j]);
            }
        }
    }

    /// Appending an entry under a fresh id changes that listing alone and
    /// preserves well-formedness.
    proof fn lemma_push_frame(pre: AuctionLedger, post: AuctionLedger, lid: u64)
        requires
            pre.wf(),
            !pre.has_listing(lid),
            post.entries@ == pre.entries@.push(post.entries@.last()),
            post.entries@.last().listing.listing_id == lid,
            post.entries@.last().wf(),
        ensures
            post.wf(),
            post.has_listing(lid),
            post.listing(lid) == post.entries@.last().listing@,
            post.bids(lid) == post.entries@.last().bids@,
            forall|l: u64|
                l != lid ==> #[trigger] post.has_listing(l) == pre.has_listing(l)
                    && post.listing(l) == pre.listing(l) && post.bids(l) == pre.bids(l),
    {
        let n = pre.entries@.len() as int;
        assert forall|k: int| 0 <= k < post.entries@.len() implies (#[trigger] post.entries@[k]).wf() by {
            if k < n {
                assert(post.entries@[k] == pre.entries@[k]);
            }
        }
        assert forall|k: int, l: int| 0 <= k < l < post.entries@.len() implies
            (#[trigger] post.entries@[k]).listing.listing_id
            != (#[trigger] post.entries@[l]).listing.listing_id by {
            if l < n {
                assert(post.entries@[k] == pre.entries@[k]);
                assert(post.entries@[l] == pre.entries@[l]);
            } else {
                assert(post.entries@[k] == pre.entries@[k]);
                if post.entries@[k].listing.listing_id == lid {
                    assert(pre.has_listing(lid));
                }
            }
        }
        post.lemma_entry_at(n);
        assert forall|l: u64| l != lid implies #[trigger] post.has_listing(l) == pre.has_listing(l)
            && post.listing(l) == pre.listing(l) && post.bids(l) == pre.bids(l) by {
            if pre.has_listing(l) {
                let j = pre.entry_idx(l);
                assert(post.entries@[j].listing.listing_id == l);
                assert(post.has_listing(l));
            }
            if post.has_listing(l) {
                let j = post.entry_idx(l);
                assert(j != n);
                assert(pre.entries@[j].listing.listing_id == l);
                assert(pre.has_listing(l));
                let j0 = pre.entry_idx(l);
                if j < j0 {
                    assert(pre.entries@[j].listing.listing_id != pre.entries@[j0].listing.listing_id);
                } else if j0 < j {
                    assert(pre.entries@[j0].listing.listing_id != pre.entries@[j].listing.listing_id);
                }
                assert(post.entries@[j] == pre.entries@[j]);
            }
        }
    }

    /// The position of listing `lid`, or `None` when it was never created.
    fn find_entry(&self, lid: u64) -> (r: Option<usize>)
        ensures
            match r {
                Some(i) => i < self.entries@.len() && self.entries@[i as int].listing.listing_id
                    == lid,
                None => !self.has_listing(lid),
            },
    {
        let n = self.entries.len();
        let mut i: usize = 0;
        while i < n
            invariant
                n == self.entries@.len(),
                i <= n,
                forall|k: int| 0 <= k < i ==> (#[trigger] self.entries@[k]).listing.listing_id != lid,
            decreases n - i,
        {
            if self.entries[i].listing.listing_id == lid {
                return Some(i);
            }
            i = i + 1;
        }
        None
    }

    /// Create a listing under the caller-chosen `listing_id`, initially
    /// `Open` with no bid. Fails with `InvalidArgument` on a non-positive
    /// ask price and with `AlreadyExists` when the id is occupied.
    pub fn create_listing(
        &mut self,
        listing_id: u64,
        seller: Principal,
        asset_desc: String,
        ask_price: i128,
    ) -> (r: Result<(), Error>)
        requires
            old(self).wf(),
        ensures
            final(self).wf(),
            (if ask_price <= 0 {
                r == Err::<(), Error>(Error::InvalidArgument) && *final(self) == *old(self)
            } else if old(self).has_listing(listing_id) {
                r == Err::<(), Error>(Error::AlreadyExists) && *final(self) == *old(self)
            } else {
                r == Ok::<(), Error>(()) && final(self).has_listing(listing_id)
                    && final(self).listing(listing_id) == (ListingV {
                    listing_id,
                    seller,
                    asset_desc: asset_desc@,
                    ask_price,
                    status: Status::Open,
                    best_bid: 0,
                    best_bidder: None,
                }) && final(self).bids(listing_id) == Seq::<Bid>::empty()
            }),
            forall|l: u64|
                l != listing_id ==> #[trigger] final(self).has_listing(l) == old(self).has_listing(l)
                    && final(self).listing(l) == old(self).listing(l) && final(self).bids(l) == old(self).bids(l),
    {
        if ask_price <= 0 {
            return Err(Error::InvalidArgument);
        }
        let found = self.find_entry(listing_id);
        match found {
            Some(_) => {
                proof {
                    self.lemma_entry_at(self.entry_idx(listing_id));
                }
                Err(Error::AlreadyExists)
            },
            None => {
                let ghost pre = *self;
                let listing = Listing {
                    listing_id,
                    seller,
                    asset_desc,
                    ask_price,
                    status: Status::Open,
                    best_bid: 0,
                    best_bidder: None,
                };
                let entry = ListingEntry { listing, bids: Vec::new() };
                self.entries.push(entry);
                proof {
                    AuctionLedger::lemma_push_frame(pre, *self, listing_id);
                    assert(self.listing(listing_id) =~= (ListingV {
                        listing_id,
                        seller,
                        asset_desc: asset_desc@,
                        ask_price,
                        status: Status::Open,
                        best_bid: 0,
                        best_bidder: None,
                    }));
                }
                Ok(())
            },
        }
    }

    /// Accept a bid on an `Open` listing. An accepted bid must be positive,
    /// meet the ask price and strictly exceed the current best bid; it is
    /// appended to the history and becomes the best bid. A rejected bid
    /// changes nothing: `InvalidArgument` for a non-positive amount, then
    /// `NotFound`, `InvalidState` off the `Open` state, and `BidTooLow`
    /// below the ask price or at or below the current best bid.
    pub fn place_bid(&mut self, listing_id: u64, bidder: Principal, amount: i128) -> (r: Result<
        (),
        Error,
    >)
        requires
            old(self).wf(),
        ensures
            final(self).wf(),
            (if amount <= 0 {
                r == Err::<(), Error>(Error::InvalidArgument) && *final(self) == *old(self)
            } else if !old(self).has_listing(listing_id) {
                r == Err::<(), Error>(Error::NotFound) && *final(self) == *old(self)
            } else if old(self).listing(listing_id).status != Status::Open {
                r == Err::<(), Error>(Error::InvalidState) && *final(self) == *old(self)
            } else if amount < old(self).listing(listing_id).ask_price
                || amount <= old(self).listing(listing_id).best_bid {
                r == Err::<(), Error>(Error::BidTooLow) && *final(self) == *old(self)
            } else {
                r == Ok::<(), Error>(()) && final(self).listing(listing_id) == (ListingV {
                    best_bid: amount,
                    best_bidder: Some(bidder),
                    ..old(self).listing(listing_id)
                }) && final(self).bids(listing_id) == old(self).bids(listing_id).push(
                    Bid { bidder, amount },
                )
            }),
            final(self).has_listing(listing_id) == old(self).has_listing(listing_id),
            forall|l: u64|
                l != listing_id ==> #[trigger] final(self).has_listing(l) == old(self).has_listing(l)
                    && final(self).listing(l) == old(self).listing(l) && final(self).bids(l) == old(self).bids(l),
    {
        if amount <= 0 {
            return Err(Error::InvalidArgument);
        }
        let found = self.find_entry(listing_id);
        match found {
            None => Err(Error::NotFound),
            Some(i) => {
                proof {
                    self.lemma_entry_at(i as int);
                }
                let e_ref = &self.entries[i];
                if e_ref.listing.status != Status::Open {
                    return Err(Error::InvalidState);
                }
                if amount < e_ref.listing.ask_price || amount <= e_ref.listing.best_bid {
                    return Err(Error::BidTooLow);
                }
                let ghost pre = *self;
                let entry = &mut self.entries[i];
                entry.bids.push(Bid { bidder, amount });
                entry.listing.best_bid = amount;
                entry.listing.best_bidder = Some(bidder);
                proof {
                    let prev = pre.entries@[i as int];
                    assert forall|k: int| 0 <= k < prev.bids@.len() implies (#[trigger] prev.bids@[k]).amount
                        < amount by {
                        if k < prev.bids@.len() - 1 {
                            assert(prev.bids@[k].amount < prev.bids@[prev.bids@.len() - 1].amount);
                        }
                    }
                    assert(self.entries@[i as int].wf());
                    AuctionLedger::lemma_update_frame(pre, *self, i as int, listing_id);
                    assert(self.listing(listing_id) =~= (ListingV {
                        best_bid: amount,
                        best_bidder: Some(bidder),
                        ..pre.listing(listing_id)
                    }));
                }
                Ok(())
            },
        }
    }

    /// Lock the trade on a listing: seller only, `Open` only, and only with
    /// an accepted bid — `NotFound`, `Unauthorized`, `InvalidState` and
    /// `NoValidBid` otherwise, in that order of checks. Locking commits the
    /// deal: there is no path back to `Open`.
    pub fn lock_trade(&mut self, listing_id: u64, caller: Principal) -> (r: Result<(), Error>)
        requires
            old(self).wf(),
        ensures
            final(self).wf(),
            (if !old(self).has_listing(listing_id) {
                r == Err::<(), Error>(Error::NotFound) && *final(self) == *old(self)
            } else if caller != old(self).listing(listing_id).seller {
                r == Err::<(), Error>(Error::Unauthorized) && *final(self) == *old(self)
            } else if old(self).listing(listing_id).status != Status::Open {
                r == Err::<(), Error>(Error::InvalidState) && *final(self) == *old(self)
            } else if old(self).listing(listing_id).best_bid <= 0 || old(self).listing(
                listing_id,
            ).best_bidder is None {
                r == Err::<(), Error>(Error::NoValidBid) && *final(self) == *old(self)
            } else {
                r == Ok::<(), Error>(()) && final(self).listing(listing_id) == (ListingV {
                    status: Status::Locked,
                    ..old(self).listing(listing_id)
                }) && final(self).bids(listing_id) == old(self).bids(listing_id)
            }),
            final(self).has_listing(listing_id) == old(self).has_listing(listing_id),
            forall|l: u64|
                l != listing_id ==> #[trigger] final(self).has_listing(l) == old(self).has_listing(l)
                    && final(self).listing(l) == old(self).listing(l) && final(self).bids(l) == old(self).bids(l),
    {
        let found = self.find_entry(listing_id);
        match found {
            None => Err(Error::NotFound),
            Some(i) => {
                proof {
                    self.lemma_entry_at(i as int);
                }
                let e_ref = &self.entries[i];
                if caller != e_ref.listing.seller {
                    return Err(Error::Unauthorized);
                }
                if e_ref.listing.status != Status::Open {
                    return Err(Error::InvalidState);
                }
                if e_ref.listing.best_bid <= 0 || e_ref.listing.best_bidder.is_none() {
                    return Err(Error::NoValidBid);
                }
                let ghost pre = *self;
                let entry = &mut self.entries[i];
                entry.listing.status = Status::Locked;
                proof {
                    assert(self.entries@[i as int].wf());
                    AuctionLedger::lemma_update_frame(pre, *self, i as int, listing_id);
                    assert(self.listing(listing_id) =~= (ListingV {
                        status: Status::Locked,
                        ..pre.listing(listing_id)
                    }));
                }
                Ok(())
            },
        }
    }

    /// Complete a locked trade: seller only, and only from `Locked` — a
    /// listing that was never locked fails with `InvalidState`. Completion
    /// records that off-ledger settlement happened; the ledger does not
    /// verify it. `Completed` is terminal.
    pub fn complete_trade(&mut self, listing_id: u64, caller: Principal) -> (r: Result<(), Error>)
        requires
            old(self).wf(),
        ensures
            final(self).wf(),
            (if !old(self).has_listing(listing_id) {
                r == Err::<(), Error>(Error::NotFound) && *final(self) == *old(self)
            } else if caller != old(self).listing(listing_id).seller {
                r == Err::<(), Error>(Error::Unauthorized) && *final(self) == *old(self)
            } else if old(self).listing(listing_id).status != Status::Locked {
                r == Err::<(), Error>(Error::InvalidState) && *final(self) == *old(self)
            } else {
                r == Ok::<(), Error>(()) && final(self).listing(listing_id) == (ListingV {
                    status: Status::Completed,
                    ..old(self).listing(listing_id)
                }) && final(self).bids(listing_id) == old(self).bids(listing_id)
            }),
            final(self).has_listing(listing_id) == old(self).has_listing(listing_id),
            forall|l: u64|
                l != listing_id ==> #[trigger] final(self).has_listing(l) == old(self).has_listing(l)
                    && final(self).listing(l) == old(self).listing(l) && final(self).bids(l) == old(self).bids(l),
    {
        let found = self.find_entry(listing_id);
        match found {
            None => Err(Error::NotFound),
            Some(i) => {
                proof {
                    self.lemma_entry_at(i as int);
                }
                let e_ref = &self.entries[i];
                if caller != e_ref.listing.seller {
                    return Err(Error::Unauthorized);
                }
                if e_ref.listing.status != Status::Locked {
                    return Err(Error::InvalidState);
                }
                let ghost pre = *self;
                let entry = &mut self.entries[i];
                entry.listing.status = Status::Completed;
                proof {
                    assert(self.entries@[i as int].wf());
                    AuctionLedger::lemma_update_frame(pre, *self, i as int, listing_id);
                    assert(self.listing(listing_id) =~= (ListingV {
                        status: Status::Completed,
                        ..pre.listing(listing_id)
                    }));
                }
                Ok(())
            },
        }
    }

    /// Cancel a listing: seller only, and only from `Open` — once locked,
    /// the deal must complete, so cancellation fails with `InvalidState`.
    /// `Cancelled` is terminal.
    pub fn cancel_listing(&mut self, listing_id: u64, caller: Principal) -> (r: Result<(), Error>)
        requires
            old(self).wf(),
        ensures
            final(self).wf(),
            (if !old(self).has_listing(listing_id) {
                r == Err::<(), Error>(Error::NotFound) && *final(self) == *old(self)
            } else if caller != old(self).listing(listing_id).seller {
                r == Err::<(), Error>(Error::Unauthorized) && *final(self) == *old(self)
            } else if old(self).listing(listing_id).status != Status::Open {
                r == Err::<(), Error>(Error::InvalidState) && *final(self) == *old(self)
            } else {
                r == Ok::<(), Error>(()) && final(self).listing(listing_id) == (ListingV {
                    status: Status::Cancelled,
                    ..old(self).listing(listing_id)
                }) && final(self).bids(listing_id) == old(self).bids(listing_id)
            }),
            final(self).has_listing(listing_id) == old(self).has_listing(listing_id),
            forall|l: u64|
                l != listing_id ==> #[trigger] final(self).has_listing(l) == old(self).has_listing(l)
                    && final(self).listing(l) == old(self).listing(l) && final(self).bids(l) == old(self).bids(l),
    {
        let found = self.find_entry(listing_id);
        match found {
            None => Err(Error::NotFound),
            Some(i) => {
                proof {
                    self.lemma_entry_at(i as int);
                }
                let e_ref = &self.entries[i];
                if caller != e_ref.listing.seller {
                    return Err(Error::Unauthorized);
                }
                if e_ref.listing.status != Status::Open {
                    return Err(Error::InvalidState);
                }
                let ghost pre = *self;
                let entry = &mut self.entries[i];
                entry.listing.status = Status::Cancelled;
                proof {
                    assert(self.entries@[i as int].wf());
                    AuctionLedger::lemma_update_frame(pre, *self, i as int, listing_id);
                    assert(self.listing(listing_id) =~= (ListingV {
                        status: Status::Cancelled,
                        ..pre.listing(listing_id)
                    }));
                }
                Ok(())
            },
        }
    }

    /// The listing stored under `listing_id`, or `None` when there is none:
    /// a public, unauthenticated read.
    pub fn get_listing(&self, listing_id: u64) -> (r: Option<Listing>)
        requires
            self.wf(),
        ensures
            match r {
                Some(l) => self.has_listing(listing_id) && l@ == self.listing(listing_id),
                None => !self.has_listing(listing_id),
            },
    {
        match self.find_entry(listing_id) {
            None => None,
            Some(i) => {
                proof {
                    self.lemma_entry_at(i as int);
                }
                let l = &self.entries[i].listing;
                let copy = Listing {
                    listing_id: l.listing_id,
                    seller: l.seller,
                    asset_desc: l.asset_desc.clone(),
                    ask_price: l.ask_price,
                    status: l.status,
                    best_bid: l.best_bid,
                    best_bidder: l.best_bidder,
                };
                proof {
                    assert(copy@ =~= self.listing(listing_id));
                }
                Some(copy)
            },
        }
    }

    /// The accepted bids of `listing_id` in order of acceptance, or `None`
    /// when there is no such listing: a public, unauthenticated read.
    pub fn get_bids(&self, listing_id: u64) -> (r: Option<Vec<Bid>>)
        requires
            self.wf(),
        ensures
            match r {
                Some(bs) => self.has_listing(listing_id) && bs@ == self.bids(listing_id),
                None => !self.has_listing(listing_id),
            },
    {
        match self.find_entry(listing_id) {
            None => None,
            Some(i) => {
                proof {
                    self.lemma_entry_at(i as int);
                }
                let entry = &self.entries[i];
                let n = entry.bids.len();
                let mut out: Vec<Bid> = Vec::new();
                let mut k: usize = 0;
                while k < n
                    invariant
                        n == entry.bids@.len(),
                        k <= n,
                        out@ == entry.bids@.take(k as int),
                    decreases n - k,
                {
                    out.push(entry.bids[k]);
                    proof {
                        assert(entry.bids@.take(k as int + 1) =~= entry.bids@.take(k as int).push(
                            entry.bids@[k as int],
                        ));
                    }
                    k = k + 1;
                }
                proof {
                    assert(entry.bids@.take(n as int) =~= entry.bids@);
                }
                Some(out)
            },
        }
    }
}

/// Every listing of a well-formed ledger holds [`listing_invariant`]: in
/// particular its accepted bids are strictly increasing in amount, each
/// meets the ask price, the best bid is the last accepted one, and a
/// `Locked` or `Completed` listing has at least one accepted bid.
pub proof fn lemma_listing_invariant(a: AuctionLedger, lid: u64)
    requires
        a.wf(),
        a.has_listing(lid),
    ensures
        listing_invariant(a.listing(lid), a.bids(lid)),
{
    let j = a.entry_idx(lid);
    assert(0 <= j < a.entries@.len() && a.entries@[j].listing.listing_id == lid);
    assert(a.entries@[j].wf());
}

} // verus!
