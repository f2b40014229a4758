use deribit::order_book::{BookData, Delta, OrderBook, OrderBookDelta};

// Prices are integer cents, volumes integer hundredths: 3.50 is 350.

fn book_message(asks: Vec<OrderBookDelta>, bids: Vec<OrderBookDelta>) -> BookData {
    BookData {
        asks,
        bids,
        change_id: 1231i64,
        instrument_name: String::from("BTC"),
        prev_change_id: None,
        timestamp: 23424u64,
    }
}

#[test]
fn test_order_book_update() {
    let mut order_book = OrderBook::new();

    let book_data = book_message(
        vec![OrderBookDelta(Delta::New, 350, 350)],
        vec![OrderBookDelta(Delta::New, 300, 300)],
    );
    order_book.update(&book_data);
    assert_eq!(Some(350), order_book.ask);
    assert_eq!(Some(300), order_book.bid);
    assert_eq!(Some(50), order_book.spread);
}

#[test]
fn test_order_book_update_changes() {
    let mut order_book = OrderBook::new();

    let initial_book_data = book_message(
        vec![OrderBookDelta(Delta::New, 350, 300)],
        vec![OrderBookDelta(Delta::New, 300, 300)],
    );
    order_book.update(&initial_book_data);
    assert_eq!(Some(350), order_book.ask);
    assert_eq!(Some(300), order_book.bid);
    assert_eq!(Some(50), order_book.spread);

    let update_book_data = book_message(
        vec![OrderBookDelta(Delta::Change, 350, 800)],
        vec![OrderBookDelta(Delta::Change, 300, 500)],
    );
    order_book.update(&update_book_data);
    assert_eq!(Some(800), order_book.asks.get(350));
    assert_eq!(Some(500), order_book.bids.get(300));
    assert_eq!(Some(350), order_book.ask);
    assert_eq!(Some(300), order_book.bid);
    assert_eq!(Some(50), order_book.spread);
}

#[test]
fn test_order_book_update_changes_deletes() {
    let mut order_book = OrderBook::new();

    let initial_book_data = book_message(
        vec![
            OrderBookDelta(Delta::New, 350, 300),
            OrderBookDelta(Delta::New, 450, 600),
        ],
        vec![
            OrderBookDelta(Delta::New, 300, 300),
            OrderBookDelta(Delta::New, 230, 400),
        ],
    );
    order_book.update(&initial_book_data);
    println!("first={:?}", order_book);
    assert_eq!(Some(350), order_book.ask);
    assert_eq!(Some(300), order_book.bid);
    assert_eq!(Some(50), order_book.spread);

    let update_book_data = book_message(
        vec![
            OrderBookDelta(Delta::Change, 450, 800),
            OrderBookDelta(Delta::Delete, 350, 0),
        ],
        vec![
            OrderBookDelta(Delta::Change, 230, 500),
            OrderBookDelta(Delta::Delete, 300, 500),
        ],
    );
    order_book.update(&update_book_data);
    println!("second={:?}", order_book);
    assert_eq!(Some(800), order_book.asks.get(450));
    assert_eq!(Some(500), order_book.bids.get(230));
    assert_eq!(Some(450), order_book.ask);
    assert_eq!(Some(230), order_book.bid);
    assert_eq!(Some(220), order_book.spread);
}

#[test]
fn test_order_book_load_snapshot() {
    let mut order_book = OrderBook::new();

    let snapshot = book_message(
        vec![OrderBookDelta(Delta::New, 350, 350)],
        vec![OrderBookDelta(Delta::New, 300, 300)],
    );
    order_book.load(&snapshot);
    assert_eq!(Some(350), order_book.ask);
    assert_eq!(Some(300), order_book.bid);
    assert_eq!(Some(50), order_book.spread);
    assert_eq!(Some(350), order_book.asks.get(350));
    assert_eq!(Some(300), order_book.bids.get(300));
}

#[test]
fn test_order_book_load_picks_extremes() {
    let mut order_book = OrderBook::new();

    // Snapshot rows arrive in no particular order and with mixed tags; load
    // inserts them all and computes the extremes over the whole set.
    let snapshot = book_message(
        vec![
            OrderBookDelta(Delta::Change, 500, 100),
            OrderBookDelta(Delta::New, 420, 200),
            OrderBookDelta(Delta::New, 480, 300),
        ],
        vec![
            OrderBookDelta(Delta::New, 310, 100),
            OrderBookDelta(Delta::Change, 390, 200),
            OrderBookDelta(Delta::New, 350, 300),
        ],
    );
    order_book.load(&snapshot);
    assert_eq!(Some(420), order_book.ask);
    assert_eq!(Some(390), order_book.bid);
    assert_eq!(Some(30), order_book.spread);
}

#[test]
fn test_order_book_delete_best_recomputes() {
    let mut order_book = OrderBook::new();

    let initial = book_message(
        vec![
            OrderBookDelta(Delta::New, 350, 350),
            OrderBookDelta(Delta::New, 450, 450),
        ],
        vec![],
    );
    order_book.update(&initial);
    assert_eq!(Some(350), order_book.ask);

    let delete_best = book_message(vec![OrderBookDelta(Delta::Delete, 350, 0)], vec![]);
    order_book.update(&delete_best);
    assert_eq!(Some(450), order_book.ask);
    assert_eq!(None, order_book.asks.get(350));
}

#[test]
fn test_order_book_delete_to_empty() {
    let mut order_book = OrderBook::new();

    let initial = book_message(
        vec![OrderBookDelta(Delta::New, 350, 350)],
        vec![OrderBookDelta(Delta::New, 300, 300)],
    );
    order_book.update(&initial);

    let delete_all = book_message(
        vec![OrderBookDelta(Delta::Delete, 350, 0)],
        vec![OrderBookDelta(Delta::Delete, 300, 0)],
    );
    order_book.update(&delete_all);
    assert_eq!(None, order_book.ask);
    assert_eq!(None, order_book.bid);
    assert_eq!(None, order_book.spread);
}

#[test]
fn test_order_book_tolerates_absent_prices() {
    let mut order_book = OrderBook::new();

    // A Change before any New upserts; a Delete of an absent price is a
    // no-op.
    let batch = book_message(
        vec![
            OrderBookDelta(Delta::Change, 350, 700),
            OrderBookDelta(Delta::Delete, 999, 0),
        ],
        vec![],
    );
    order_book.update(&batch);
    assert_eq!(Some(700), order_book.asks.get(350));
    assert_eq!(None, order_book.asks.get(999));
    // A Change alone does not move the cached best.
    assert_eq!(None, order_book.ask);
}
