use rusty_wallet::auction::{AuctionLedger, Status};
use rusty_wallet::errors::Error;

#[test]
fn create_listing_validates_price_and_key() {
    let mut a = AuctionLedger::new();
    assert_eq!(a.create_listing(1, 5, "x".to_owned(), 0), Err(Error::InvalidArgument));
    assert_eq!(a.create_listing(1, 5, "x".to_owned(), -3), Err(Error::InvalidArgument));
    assert_eq!(a.create_listing(1, 5, "x".to_owned(), 100), Ok(()));
    assert_eq!(a.create_listing(1, 6, "y".to_owned(), 200), Err(Error::AlreadyExists));
    let l = a.get_listing(1).unwrap();
    assert_eq!(l.listing_id, 1);
    assert_eq!(l.seller, 5);
    assert_eq!(l.asset_desc, "x");
    assert_eq!(l.ask_price, 100);
    assert_eq!(l.status, Status::Open);
    assert_eq!(l.best_bid, 0);
    assert_eq!(l.best_bidder, None);
    assert_eq!(a.get_bids(1).unwrap(), Vec::new());
}

#[test]
fn getters_return_none_for_missing_listing() {
    let a = AuctionLedger::new();
    assert!(a.get_listing(9).is_none());
    assert!(a.get_bids(9).is_none());
}

#[test]
fn place_bid_rejections_change_nothing() {
    let mut a = AuctionLedger::new();
    assert_eq!(a.place_bid(1, 11, 50), Err(Error::NotFound));
    a.create_listing(1, 5, "x".to_owned(), 100).unwrap();
    assert_eq!(a.place_bid(1, 11, 0), Err(Error::InvalidArgument));
    assert_eq!(a.place_bid(1, 11, -5), Err(Error::InvalidArgument));
    assert_eq!(a.place_bid(1, 11, 99), Err(Error::BidTooLow));
    assert_eq!(a.get_bids(1).unwrap(), Vec::new());
    assert_eq!(a.get_listing(1).unwrap().best_bid, 0);
}

#[test]
fn bids_must_strictly_increase() {
    let mut a = AuctionLedger::new();
    a.create_listing(1, 5, "x".to_owned(), 100).unwrap();
    assert_eq!(a.place_bid(1, 11, 100), Ok(()));
    assert_eq!(a.place_bid(1, 12, 110), Ok(()));
    assert_eq!(a.place_bid(1, 13, 120), Ok(()));
    // Equal to the best bid: rejected.
    assert_eq!(a.place_bid(1, 14, 120), Err(Error::BidTooLow));
    // Below the best bid: rejected, even though it meets the ask price.
    assert_eq!(a.place_bid(1, 14, 115), Err(Error::BidTooLow));
    let bids = a.get_bids(1).unwrap();
    let amounts: Vec<i128> = bids.iter().map(|b| b.amount).collect();
    let bidders: Vec<u64> = bids.iter().map(|b| b.bidder).collect();
    assert_eq!(amounts, vec![100, 110, 120]);
    assert_eq!(bidders, vec![11, 12, 13]);
    let l = a.get_listing(1).unwrap();
    assert_eq!(l.best_bid, 120);
    assert_eq!(l.best_bidder, Some(13));
}

#[test]
fn lock_requires_seller_open_state_and_a_bid() {
    let mut a = AuctionLedger::new();
    assert_eq!(a.lock_trade(1, 5), Err(Error::NotFound));
    a.create_listing(1, 5, "x".to_owned(), 100).unwrap();
    assert_eq!(a.lock_trade(1, 6), Err(Error::Unauthorized));
    assert_eq!(a.lock_trade(1, 5), Err(Error::NoValidBid));
    a.place_bid(1, 11, 100).unwrap();
    assert_eq!(a.lock_trade(1, 5), Ok(()));
    assert_eq!(a.get_listing(1).unwrap().status, Status::Locked);
    assert_eq!(a.lock_trade(1, 5), Err(Error::InvalidState));
}

#[test]
fn complete_without_lock_is_invalid_state() {
    let mut a = AuctionLedger::new();
    assert_eq!(a.complete_trade(1, 5), Err(Error::NotFound));
    a.create_listing(1, 5, "x".to_owned(), 100).unwrap();
    // Never locked: completion must fail, bid or no bid.
    assert_eq!(a.complete_trade(1, 5), Err(Error::InvalidState));
    a.place_bid(1, 11, 100).unwrap();
    assert_eq!(a.complete_trade(1, 5), Err(Error::InvalidState));
    assert_eq!(a.get_listing(1).unwrap().status, Status::Open);
}

#[test]
fn cancel_only_from_open() {
    let mut a = AuctionLedger::new();
    assert_eq!(a.cancel_listing(1, 5), Err(Error::NotFound));
    a.create_listing(1, 5, "x".to_owned(), 100).unwrap();
    assert_eq!(a.cancel_listing(1, 6), Err(Error::Unauthorized));
    a.place_bid(1, 11, 100).unwrap();
    a.lock_trade(1, 5).unwrap();
    // Once locked, the deal must complete: no cancellation.
    assert_eq!(a.cancel_listing(1, 5), Err(Error::InvalidState));
    assert_eq!(a.get_listing(1).unwrap().status, Status::Locked);
}

#[test]
fn cancelled_listing_is_terminal() {
    let mut a = AuctionLedger::new();
    a.create_listing(1, 5, "x".to_owned(), 100).unwrap();
    assert_eq!(a.cancel_listing(1, 5), Ok(()));
    assert_eq!(a.get_listing(1).unwrap().status, Status::Cancelled);
    assert_eq!(a.place_bid(1, 11, 100), Err(Error::InvalidState));
    assert_eq!(a.lock_trade(1, 5), Err(Error::InvalidState));
    assert_eq!(a.complete_trade(1, 5), Err(Error::InvalidState));
    assert_eq!(a.cancel_listing(1, 5), Err(Error::InvalidState));
}

#[test]
fn full_auction_lifecycle() {
    let mut a = AuctionLedger::new();
    let seller: u64 = 50;
    let b1: u64 = 51;
    let b2: u64 = 52;
    assert_eq!(a.create_listing(1, seller, "desc".to_owned(), 100), Ok(()));
    assert_eq!(a.place_bid(1, b1, 90), Err(Error::BidTooLow));
    assert_eq!(a.place_bid(1, b1, 100), Ok(()));
    assert_eq!(a.get_listing(1).unwrap().best_bid, 100);
    assert_eq!(a.place_bid(1, b2, 100), Err(Error::BidTooLow));
    assert_eq!(a.place_bid(1, b2, 150), Ok(()));
    assert_eq!(a.lock_trade(1, seller), Ok(()));
    assert_eq!(a.get_listing(1).unwrap().status, Status::Locked);
    assert_eq!(a.complete_trade(1, b1), Err(Error::Unauthorized));
    assert_eq!(a.complete_trade(1, seller), Ok(()));
    let l = a.get_listing(1).unwrap();
    assert_eq!(l.status, Status::Completed);
    assert_eq!(l.best_bid, 150);
    assert_eq!(l.best_bidder, Some(b2));
}

#[test]
fn listings_are_independent() {
    let mut a = AuctionLedger::new();
    a.create_listing(1, 5, "x".to_owned(), 100).unwrap();
    a.create_listing(2, 6, "y".to_owned(), 10).unwrap();
    a.place_bid(2, 11, 10).unwrap();
    assert_eq!(a.get_listing(1).unwrap().best_bid, 0);
    assert_eq!(a.get_listing(2).unwrap().best_bid, 10);
    a.cancel_listing(1, 5).unwrap();
    assert_eq!(a.get_listing(2).unwrap().status, Status::Open);
}
