use orderbook::book::Book;
use orderbook::order::Order;
use orderbook::side::Side;
use orderbook::trade::Trade;
use orderbook::user::User;

fn order(price: u64, quantity: u64, side: Side, guid: &'static str) -> Order {
    Order { price, quantity, side, creator: User::new(guid) }
}

#[test]
fn full_fill_produces_one_trade_and_empties_book() {
    let mut book = Book::new(Side::Sell);
    book.insert(order(1000, 3, Side::Sell, "S1"));

    let trades = book.cross(order(1100, 3, Side::Buy, "B1")).unwrap();
    assert_eq!(
        trades,
        vec![Trade { buyer: User::new("B1"), seller: User::new("S1"), quantity: 3, price: 1000 }]
    );
    assert!(book.is_empty());
    assert_eq!(book.size(), 0);
}

#[test]
fn unfavorable_buy_leaves_book_unchanged() {
    let mut book = Book::new(Side::Sell);
    let resting = order(1000, 3, Side::Sell, "S1");
    book.insert(resting);

    let trades = book.cross(order(900, 3, Side::Buy, "B1"));
    assert!(trades.is_none());
    assert_eq!(book.size(), 1);
    assert_eq!(book.level_count(), 1);
    assert_eq!(book.top().unwrap(), resting);
}

#[test]
fn fifo_within_a_level_matches_first_arrival_first() {
    let mut book = Book::new(Side::Sell);
    book.insert(order(1000, 2, Side::Sell, "O1"));
    book.insert(order(1000, 2, Side::Sell, "O2"));

    let trades = book.cross(order(1000, 3, Side::Buy, "B1")).unwrap();
    assert_eq!(trades.len(), 2);
    assert_eq!(
        trades[0],
        Trade { buyer: User::new("B1"), seller: User::new("O1"), quantity: 2, price: 1000 }
    );
    assert_eq!(
        trades[1],
        Trade { buyer: User::new("B1"), seller: User::new("O2"), quantity: 1, price: 1000 }
    );

    // O1 is gone; O2 is left resting with the unmatched single unit.
    assert_eq!(book.size(), 1);
    let left = book.top().unwrap();
    assert_eq!(left.creator, User::new("O2"));
    assert_eq!(left.quantity, 1);
}

#[test]
fn empty_book_queries_return_empty_every_time() {
    let mut book = Book::new(Side::Sell);
    assert!(book.top().is_none());
    assert!(book.top().is_none());
    assert!(book.dequeue_top().is_none());
    assert!(book.dequeue_top().is_none());
    assert!(book.cross(order(1000, 3, Side::Buy, "B1")).is_none());
    assert!(book.is_empty());
    assert_eq!(book.size(), 0);
}

#[test]
fn repeated_top_is_consistent_without_mutating() {
    let mut book = Book::new(Side::Buy);
    let low = order(1000, 3, Side::Buy, "B1");
    let high = order(1100, 3, Side::Buy, "B2");
    book.insert(low);
    book.insert(high);

    // A Buy-configured book exposes its lowest price level.
    assert_eq!(book.top().unwrap(), low);
    assert_eq!(book.top().unwrap(), low);
    assert_eq!(book.size(), 2);
}

#[test]
fn sell_incoming_crosses_resting_buy_liquidity() {
    let mut book = Book::new(Side::Buy);
    book.insert(order(1000, 3, Side::Buy, "B1"));

    let trades = book.cross(order(1000, 2, Side::Sell, "S1")).unwrap();
    assert_eq!(
        trades,
        vec![Trade { buyer: User::new("B1"), seller: User::new("S1"), quantity: 2, price: 1000 }]
    );

    // The resting buy is partially filled: exactly the traded quantity left.
    assert_eq!(book.size(), 1);
    assert_eq!(book.top().unwrap().quantity, 1);
}

#[test]
fn partial_fill_conserves_quantity() {
    let mut book = Book::new(Side::Sell);
    book.insert(order(1000, 5, Side::Sell, "S1"));

    let trades = book.cross(order(1000, 2, Side::Buy, "B1")).unwrap();
    assert_eq!(trades.len(), 1);
    assert_eq!(trades[0].quantity, 2);
    assert_eq!(book.top().unwrap().quantity, 3);
    assert_eq!(book.size(), 1);
}

#[test]
fn crossing_more_than_the_book_stops_at_empty() {
    let mut book = Book::new(Side::Sell);
    book.insert(order(1000, 3, Side::Sell, "S1"));

    let trades = book.cross(order(1100, 10, Side::Buy, "B1")).unwrap();
    assert_eq!(trades.len(), 1);
    assert_eq!(trades[0].quantity, 3);
    assert!(book.is_empty());
}

#[test]
fn dequeue_removes_emptied_level() {
    let mut book = Book::new(Side::Sell);
    book.insert(order(1000, 3, Side::Sell, "S1"));
    book.insert(order(1100, 3, Side::Sell, "S2"));
    assert_eq!(book.level_count(), 2);

    // A Sell-configured book dequeues from its highest price level.
    let popped = book.dequeue_top().unwrap();
    assert_eq!(popped.price, 1100);
    assert_eq!(book.level_count(), 1);
    assert_eq!(book.size(), 1);
}

#[test]
fn crossing_walks_levels_in_best_first_order() {
    let mut book = Book::new(Side::Buy);
    book.insert(order(1000, 2, Side::Buy, "B1"));
    book.insert(order(1100, 2, Side::Buy, "B2"));

    // An incoming Sell first meets the Buy book's top: its lowest level.
    let trades = book.cross(order(900, 4, Side::Sell, "S1")).unwrap();
    assert_eq!(trades.len(), 2);
    assert_eq!(trades[0].price, 1000);
    assert_eq!(trades[0].buyer, User::new("B1"));
    assert_eq!(trades[1].price, 1100);
    assert_eq!(trades[1].buyer, User::new("B2"));
    assert!(book.is_empty());
}
