use orderbook::order::Order;
use orderbook::side::Side;
use orderbook::user::User;

fn user() -> User {
    User::new("USR-123")
}

fn subject(price: u64) -> Order {
    Order { price, quantity: 3, side: Side::Buy, creator: user() }
}

#[test]
fn create_an_order() {
    let _order = subject(100);

    // Not a good test, but shows we can make it.
    assert!(true);
}

#[test]
fn it_can_make_a_string_of_the_price() {
    // Prices are fixed-point integers scaled by hundredths, so 10.00 and
    // 10.50 get the distinct exact keys 1000 and 1050 - no formatting is
    // involved.
    let order = subject(1000);
    assert_eq!(order.price_level_key(), 1000);

    let order2 = subject(1050);
    assert_eq!(order2.price_level_key(), 1050);
}
