use orderbook::book::Book;
use orderbook::order::Order;
use orderbook::side::Side;
use orderbook::user::User;

fn user() -> User {
    User::new("USR-123")
}

fn order(price: u64, side: Side) -> Order {
    Order { price, quantity: 3, side, creator: user() }
}

#[test]
fn can_insert_an_order() {
    let order = order(10, Side::Buy);
    let mut book = Book::new(Side::Buy);
    assert!(book.is_empty());

    book.insert(order);
    assert!(!book.is_empty());

    let first_order = book.top().unwrap().clone();
    assert_eq!(first_order, order);
}

#[test]
fn can_get_correct_top_order_when_a_sell_book() {
    let order1 = order(10, Side::Buy);
    let order2 = order(11, Side::Buy);
    let mut book = Book::new(Side::Sell);

    book.insert(order1);
    book.insert(order2);

    let highest_order = book.top().unwrap().clone();
    assert_eq!(highest_order, order2);
}

#[test]
fn can_get_correct_top_order_when_a_buy_book() {
    let order1 = order(10, Side::Buy);
    let order2 = order(11, Side::Buy);
    let mut book = Book::new(Side::Buy);

    book.insert(order1);
    book.insert(order2);

    let lowest_order = book.top().unwrap().clone();
    assert_eq!(lowest_order, order1);
}

#[test]
fn can_cross_a_sell_book_with_a_buy_order() {
    let mut book = Book::new(Side::Sell);
    let order1 = order(10, Side::Sell);
    let order2 = order(11, Side::Buy);

    book.insert(order1);
    assert_eq!(book.size(), 1);
    assert_eq!(book.level_count(), 1);

    book.cross(order2);
    assert_eq!(book.size(), 0);
    assert_eq!(book.level_count(), 0);
}
