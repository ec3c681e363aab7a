use rusty_wallet::errors::Error;
use rusty_wallet::expense::RustyWallet;

const DAY: u64 = 86400;
const WEEK: u64 = 604800;

#[test]
fn ids_are_sequential_even_across_removals() {
    let mut w = RustyWallet::new();
    assert_eq!(w.add_expense(7, 1000, "a".to_owned(), 1, "".to_owned()), 1);
    assert_eq!(w.add_expense(7, 1001, "b".to_owned(), 2, "".to_owned()), 2);
    assert_eq!(w.add_expense(7, 1002, "c".to_owned(), 3, "".to_owned()), 3);
    assert_eq!(w.remove_expense(7, 2, 2000), Ok(()));
    assert_eq!(w.add_expense(7, 1003, "d".to_owned(), 4, "".to_owned()), 4);
    assert_eq!(w.expenses_count(7), 4);
}

#[test]
fn ids_are_per_owner() {
    let mut w = RustyWallet::new();
    assert_eq!(w.add_expense(1, 0, "a".to_owned(), 1, "".to_owned()), 1);
    assert_eq!(w.add_expense(2, 0, "b".to_owned(), 1, "".to_owned()), 1);
    assert_eq!(w.add_expense(1, 0, "c".to_owned(), 1, "".to_owned()), 2);
    assert_eq!(w.expenses_count(1), 2);
    assert_eq!(w.expenses_count(2), 1);
    assert_eq!(w.expenses_count(3), 0);
}

#[test]
fn stored_record_has_fixed_buckets() {
    let mut w = RustyWallet::new();
    let ts: u64 = 100000;
    let id = w.add_expense(9, ts, "food".to_owned(), 25, "lunch".to_owned());
    let e = w.view_expense(9, id).unwrap();
    assert_eq!(e.id, 1);
    assert_eq!(e.owner, 9);
    assert_eq!(e.ts, ts);
    assert_eq!(e.day, ts / DAY);
    assert_eq!(e.week, ts / WEEK);
    assert_eq!(e.category, "food");
    assert_eq!(e.amount, 25);
    assert_eq!(e.note, "lunch");
}

#[test]
fn view_expense_missing_is_not_found() {
    let mut w = RustyWallet::new();
    assert_eq!(w.view_expense(9, 1).unwrap_err(), Error::NotFound);
    w.add_expense(9, 0, "a".to_owned(), 1, "".to_owned());
    assert_eq!(w.view_expense(9, 0).unwrap_err(), Error::NotFound);
    assert_eq!(w.view_expense(9, 2).unwrap_err(), Error::NotFound);
    assert_eq!(w.view_expense(8, 1).unwrap_err(), Error::NotFound);
}

#[test]
fn removal_tombstones_the_record_in_place() {
    let mut w = RustyWallet::new();
    let id = w.add_expense(4, 50000, "gear".to_owned(), 75, "tent".to_owned());
    assert_eq!(w.remove_expense(4, id, 60000), Ok(()));
    let e = w.view_expense(4, id).unwrap();
    assert_eq!(e.id, id);
    assert_eq!(e.owner, 4);
    assert_eq!(e.ts, 60000);
    assert_eq!(e.day, 0);
    assert_eq!(e.week, 0);
    assert_eq!(e.category, "DELETED");
    assert_eq!(e.amount, 0);
    assert_eq!(e.note, "");
}

#[test]
fn removal_is_idempotent_on_the_index() {
    let mut w = RustyWallet::new();
    w.add_expense(4, 0, "a".to_owned(), 1, "".to_owned());
    w.add_expense(4, 0, "b".to_owned(), 2, "".to_owned());
    assert_eq!(w.remove_expense(4, 1, 10), Ok(()));
    assert_eq!(w.list_my_expense_ids(4), vec![2]);
    // The tombstoned record persists, but the first removal purged the id
    // from the index: a second removal finds nothing live to remove.
    assert_eq!(w.remove_expense(4, 1, 20), Err(Error::NotFound));
    assert_eq!(w.list_my_expense_ids(4), vec![2]);
    let e = w.view_expense(4, 1).unwrap();
    assert_eq!(e.category, "DELETED");
    assert_eq!(e.ts, 10);
    assert_eq!(w.remove_expense(4, 3, 30), Err(Error::NotFound));
    assert_eq!(w.remove_expense(5, 1, 30), Err(Error::NotFound));
}

#[test]
fn list_ids_keeps_insertion_order_and_drops_removed() {
    let mut w = RustyWallet::new();
    for k in 0..5u64 {
        w.add_expense(6, k, "c".to_owned(), k as u128, "".to_owned());
    }
    assert_eq!(w.list_my_expense_ids(6), vec![1, 2, 3, 4, 5]);
    assert_eq!(w.remove_expense(6, 3, 100), Ok(()));
    assert_eq!(w.list_my_expense_ids(6), vec![1, 2, 4, 5]);
    assert_eq!(w.list_my_expense_ids(7), Vec::<u64>::new());
}

#[test]
fn daily_total_sums_matching_day_and_drops_removed() {
    let mut w = RustyWallet::new();
    let ts: u64 = 10 * DAY + 100;
    w.add_expense(3, ts, "a".to_owned(), 10, "".to_owned());
    w.add_expense(3, ts + 1, "b".to_owned(), 20, "".to_owned());
    w.add_expense(3, ts + 2, "c".to_owned(), 30, "".to_owned());
    assert_eq!(w.daily_total(3, ts + 3), 60);
    assert_eq!(w.remove_expense(3, 2, ts + 4), Ok(()));
    assert_eq!(w.daily_total(3, ts + 5), 40);
}

#[test]
fn daily_total_only_counts_the_query_day() {
    let mut w = RustyWallet::new();
    w.add_expense(3, 5 * DAY, "a".to_owned(), 10, "".to_owned());
    w.add_expense(3, 6 * DAY, "b".to_owned(), 20, "".to_owned());
    assert_eq!(w.daily_total(3, 5 * DAY + 10), 10);
    assert_eq!(w.daily_total(3, 6 * DAY + 10), 20);
    assert_eq!(w.daily_total(3, 7 * DAY), 0);
    assert_eq!(w.daily_total(99, 5 * DAY), 0);
}

#[test]
fn weekly_total_uses_the_week_bucket() {
    let mut w = RustyWallet::new();
    // Two different days of week 2, one expense in week 3.
    w.add_expense(8, 2 * WEEK, "a".to_owned(), 5, "".to_owned());
    w.add_expense(8, 2 * WEEK + 3 * DAY, "b".to_owned(), 7, "".to_owned());
    w.add_expense(8, 3 * WEEK, "c".to_owned(), 11, "".to_owned());
    assert_eq!(w.weekly_total(8, 2 * WEEK + 6 * DAY), 12);
    assert_eq!(w.weekly_total(8, 3 * WEEK + 1), 11);
    assert_eq!(w.daily_total(8, 2 * WEEK), 5);
    // At any one clock reading the weekly total dominates the daily one.
    for now in [2 * WEEK, 2 * WEEK + 3 * DAY, 3 * WEEK, 4 * WEEK] {
        assert!(w.weekly_total(8, now) >= w.daily_total(8, now));
    }
}

#[test]
fn totals_saturate_instead_of_overflowing() {
    let mut w = RustyWallet::new();
    w.add_expense(2, 0, "a".to_owned(), u128::MAX, "".to_owned());
    w.add_expense(2, 1, "b".to_owned(), 5, "".to_owned());
    assert_eq!(w.daily_total(2, 2), u128::MAX);
    assert_eq!(w.weekly_total(2, 2), u128::MAX);
}

#[test]
fn tombstone_never_rejoins_totals() {
    let mut w = RustyWallet::new();
    // A removed record gets day = week = 0; a query in day 0 must not pick
    // the tombstone up, because the id left the index.
    w.add_expense(1, 10, "a".to_owned(), 42, "".to_owned());
    assert_eq!(w.daily_total(1, 20), 42);
    assert_eq!(w.remove_expense(1, 1, 30), Ok(()));
    assert_eq!(w.daily_total(1, 20), 0);
    assert_eq!(w.weekly_total(1, 20), 0);
}
