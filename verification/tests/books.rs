use obmrs::key::{PriceKey, QuantizationError};
use obmrs::models::{Book, Books, OrderBoard, Side};
use rust_decimal::Decimal;

fn level(price: i64, price_scale: u32, size: i64) -> Book {
    Book {
        price: Decimal::new(price, price_scale),
        size: Decimal::new(size, 0),
    }
}

fn keys(books: &Books) -> Vec<i64> {
    books.books().iter().map(|(key, _)| key.0).collect()
}

fn filled(side: Side, capacity: usize, prices: &[i64]) -> Books {
    let mut books = Books::new(side, capacity, 1);
    for price in prices {
        books.push(level(*price, 1, 1)).unwrap();
    }
    books
}

#[test]
fn new_side_is_empty_and_keeps_its_settings() {
    let books = Books::new(Side::Ask, 7, 3);
    assert_eq!(books.len(), 0);
    assert_eq!(books.side(), Side::Ask);
    assert_eq!(books.capacity(), 7);
    assert_eq!(books.digits(), 3);
    assert!(books.best().is_none());
}

#[test]
fn best_of_empty_side_is_nothing_and_of_one_push_is_that_level() {
    let mut bids = Books::new(Side::Bid, 5, 1);
    assert!(bids.best().is_none());
    bids.push(level(95, 1, 3)).unwrap();
    let best = bids.best().unwrap();
    assert_eq!(best.price, Decimal::new(95, 1));
    assert_eq!(best.size, Decimal::new(3, 0));

    let mut asks = Books::new(Side::Ask, 5, 1);
    assert!(asks.best().is_none());
    asks.push(level(105, 1, 4)).unwrap();
    let best = asks.best().unwrap();
    assert_eq!(best.price, Decimal::new(105, 1));
    assert_eq!(best.size, Decimal::new(4, 0));
}

#[test]
fn best_bid_is_highest_and_best_ask_is_lowest() {
    let bids = filled(Side::Bid, 10, &[95, 100, 90]);
    assert_eq!(bids.best().unwrap().price, Decimal::new(100, 1));
    let asks = filled(Side::Ask, 10, &[105, 100, 110]);
    assert_eq!(asks.best().unwrap().price, Decimal::new(100, 1));
}

#[test]
fn pushes_in_any_order_are_kept_in_ascending_price_order() {
    let books = filled(Side::Bid, 10, &[50, 10, 40, 20, 30, 10, 50]);
    assert_eq!(keys(&books), vec![10, 20, 30, 40, 50]);
    let mut last: Option<Decimal> = None;
    for (_, book) in books.books().iter() {
        if let Some(previous) = last {
            assert!(previous < book.price);
        }
        last = Some(book.price);
    }
}

#[test]
fn push_at_a_present_key_replaces_the_level() {
    let mut books = Books::new(Side::Ask, 10, 2);
    books.push(level(1000, 2, 1)).unwrap();
    books.push(level(10, 0, 8)).unwrap();
    assert_eq!(books.len(), 1);
    assert_eq!(books.books()[0].0, PriceKey(1000));
    assert_eq!(books.best().unwrap().size, Decimal::new(8, 0));
}

#[test]
fn prices_that_quantize_alike_share_a_level() {
    let mut books = Books::new(Side::Bid, 10, 1);
    books.push(level(951, 2, 1)).unwrap();
    books.push(level(959, 2, 2)).unwrap();
    assert_eq!(keys(&books), vec![95]);
    assert_eq!(books.best().unwrap().price, Decimal::new(959, 2));
}

#[test]
fn push_of_size_zero_on_absent_key_changes_nothing() {
    let mut books = filled(Side::Bid, 10, &[90, 100]);
    books.push(level(95, 1, 0)).unwrap();
    assert_eq!(keys(&books), vec![90, 100]);
    let mut empty = Books::new(Side::Ask, 10, 1);
    empty.push(level(95, 1, 0)).unwrap();
    assert_eq!(empty.len(), 0);
}

#[test]
fn push_of_size_zero_removes_the_level() {
    let mut books = filled(Side::Bid, 10, &[90, 95, 100]);
    books.push(level(95, 1, 0)).unwrap();
    assert_eq!(keys(&books), vec![90, 100]);
    books.push(level(95, 1, 0)).unwrap();
    assert_eq!(keys(&books), vec![90, 100]);
}

#[test]
fn size_zero_at_any_scale_deletes() {
    let mut books = filled(Side::Ask, 10, &[90]);
    books
        .push(Book {
            price: Decimal::new(90, 1),
            size: Decimal::new(0, 5),
        })
        .unwrap();
    assert_eq!(books.len(), 0);
}

#[test]
fn push_fails_where_the_price_has_no_key() {
    let mut books = filled(Side::Bid, 10, &[90]);
    let r = books.push(Book {
        price: Decimal::MAX,
        size: Decimal::new(1, 0),
    });
    assert_eq!(r, Err(QuantizationError));
    assert_eq!(keys(&books), vec![90]);
}

#[test]
fn extend_applies_in_order_and_the_last_update_wins() {
    let mut books = Books::new(Side::Bid, 10, 1);
    let r = books.extend(vec![
        level(90, 1, 1),
        level(95, 1, 2),
        level(90, 1, 7),
        level(95, 1, 0),
        level(100, 1, 3),
    ]);
    assert_eq!(r, Ok(()));
    assert_eq!(keys(&books), vec![90, 100]);
    assert_eq!(books.books()[0].1.size, Decimal::new(7, 0));
}

#[test]
fn extend_stops_at_the_first_price_without_a_key() {
    let mut books = Books::new(Side::Ask, 10, 1);
    let r = books.extend(vec![
        level(90, 1, 1),
        Book {
            price: Decimal::MIN,
            size: Decimal::new(1, 0),
        },
        level(100, 1, 3),
    ]);
    assert_eq!(r, Err(QuantizationError));
    assert_eq!(keys(&books), vec![90]);
}

#[test]
fn push_and_extend_do_not_evict() {
    let mut books = Books::new(Side::Bid, 2, 1);
    books
        .extend(vec![level(90, 1, 1), level(95, 1, 1), level(100, 1, 1)])
        .unwrap();
    books.push(level(105, 1, 1)).unwrap();
    assert_eq!(books.len(), 4);
}

#[test]
fn restrict_evicts_the_lowest_bid() {
    let mut books = filled(Side::Bid, 2, &[95, 90, 100]);
    books.restrict();
    assert_eq!(keys(&books), vec![95, 100]);
    assert!(books.len() <= books.capacity());
    books.restrict();
    assert_eq!(keys(&books), vec![95, 100]);
}

#[test]
fn restrict_evicts_the_highest_ask() {
    let mut books = filled(Side::Ask, 2, &[105, 110, 100]);
    books.restrict();
    assert_eq!(keys(&books), vec![100, 105]);
    assert!(books.len() <= books.capacity());
    books.restrict();
    assert_eq!(keys(&books), vec![100, 105]);
}

#[test]
fn restrict_evicts_one_level_a_call() {
    let mut books = filled(Side::Bid, 1, &[90, 95, 100, 105]);
    books.restrict();
    assert_eq!(keys(&books), vec![95, 100, 105]);
    books.restrict();
    books.restrict();
    assert_eq!(keys(&books), vec![105]);
}

#[test]
fn restrict_with_capacity_zero_empties_one_level() {
    let mut books = filled(Side::Ask, 0, &[90]);
    books.restrict();
    assert_eq!(books.len(), 0);
    books.restrict();
    assert_eq!(books.len(), 0);
}

#[test]
fn trim_bids_at_reference_keeps_only_lower_prices() {
    let mut bids = filled(Side::Bid, 10, &[90, 95, 100]);
    bids.trim_inside_best_book(Decimal::new(95, 1)).unwrap();
    assert_eq!(bids.len(), 1);
    assert_eq!(bids.books()[0].1.price, Decimal::new(90, 1));
}

#[test]
fn trim_asks_at_reference_keeps_only_higher_prices() {
    let mut asks = filled(Side::Ask, 10, &[100, 105, 110]);
    asks.trim_inside_best_book(Decimal::new(105, 1)).unwrap();
    assert_eq!(asks.len(), 1);
    assert_eq!(asks.books()[0].1.price, Decimal::new(110, 1));
}

#[test]
fn trim_at_a_reference_between_levels() {
    let mut bids = filled(Side::Bid, 10, &[90, 95, 100]);
    bids.trim_inside_best_book(Decimal::new(97, 1)).unwrap();
    assert_eq!(keys(&bids), vec![90, 95]);
    let mut asks = filled(Side::Ask, 10, &[100, 105, 110]);
    asks.trim_inside_best_book(Decimal::new(102, 1)).unwrap();
    assert_eq!(keys(&asks), vec![105, 110]);
}

#[test]
fn trim_beyond_all_levels() {
    let mut bids = filled(Side::Bid, 10, &[90, 95]);
    bids.trim_inside_best_book(Decimal::new(200, 1)).unwrap();
    assert_eq!(keys(&bids), vec![90, 95]);
    bids.trim_inside_best_book(Decimal::new(10, 1)).unwrap();
    assert_eq!(bids.len(), 0);
    let mut asks = filled(Side::Ask, 10, &[100, 105]);
    asks.trim_inside_best_book(Decimal::new(10, 1)).unwrap();
    assert_eq!(keys(&asks), vec![100, 105]);
    asks.trim_inside_best_book(Decimal::new(200, 1)).unwrap();
    assert_eq!(asks.len(), 0);
}

#[test]
fn trim_asks_at_the_greatest_key_removes_all() {
    let mut asks = Books::new(Side::Ask, 10, 0);
    asks.push(level(i64::MAX, 0, 1)).unwrap();
    asks.push(level(5, 0, 1)).unwrap();
    asks.trim_inside_best_book(Decimal::from(i64::MAX)).unwrap();
    assert_eq!(asks.len(), 0);
}

#[test]
fn trim_fails_where_the_reference_has_no_key() {
    let mut bids = filled(Side::Bid, 10, &[90, 95]);
    assert_eq!(
        bids.trim_inside_best_book(Decimal::MAX),
        Err(QuantizationError)
    );
    assert_eq!(keys(&bids), vec![90, 95]);
}

#[test]
fn wall_is_the_first_level_from_the_best_above_the_threshold() {
    let mut bids = Books::new(Side::Bid, 10, 1);
    bids.push(level(100, 1, 1)).unwrap();
    bids.push(level(90, 1, 5)).unwrap();
    bids.push(level(80, 1, 2)).unwrap();
    let wall = bids.wall(Decimal::new(3, 0)).unwrap();
    assert_eq!(wall.price, Decimal::new(90, 1));
    assert_eq!(wall.size, Decimal::new(5, 0));
}

#[test]
fn wall_walks_asks_upwards_and_bids_downwards() {
    let mut asks = Books::new(Side::Ask, 10, 1);
    let mut bids = Books::new(Side::Bid, 10, 1);
    for (price, size) in [(100, 1), (105, 6), (110, 9)] {
        asks.push(level(price, 1, size)).unwrap();
        bids.push(level(price, 1, size)).unwrap();
    }
    assert_eq!(
        asks.wall(Decimal::new(5, 0)).unwrap().price,
        Decimal::new(105, 1)
    );
    assert_eq!(
        bids.wall(Decimal::new(5, 0)).unwrap().price,
        Decimal::new(110, 1)
    );
}

#[test]
fn wall_is_strictly_above_the_threshold() {
    let mut bids = Books::new(Side::Bid, 10, 1);
    bids.push(level(100, 1, 5)).unwrap();
    assert!(bids.wall(Decimal::new(5, 0)).is_none());
    assert!(bids.wall(Decimal::new(50, 1)).is_none());
    assert!(bids.wall(Decimal::new(49, 1)).is_some());
    assert!(Books::new(Side::Ask, 10, 1)
        .wall(Decimal::new(0, 0))
        .is_none());
}

#[test]
fn board_sides_are_independent() {
    let mut board = OrderBoard::new(3, 1);
    assert_eq!(board.asks.side(), Side::Ask);
    assert_eq!(board.bids.side(), Side::Bid);
    assert_eq!(board.asks.capacity(), 3);
    assert_eq!(board.bids.digits(), 1);
    let (ask, bid) = board.best();
    assert!(ask.is_none() && bid.is_none());
    board.asks.push(level(105, 1, 2)).unwrap();
    let (ask, bid) = board.best();
    assert_eq!(ask.unwrap().price, Decimal::new(105, 1));
    assert!(bid.is_none());
}

#[test]
fn board_best_and_wall_take_each_side() {
    let mut board = OrderBoard::new(10, 1);
    board
        .asks
        .extend(vec![level(105, 1, 1), level(110, 1, 8), level(115, 1, 9)])
        .unwrap();
    board
        .bids
        .extend(vec![level(100, 1, 1), level(95, 1, 8), level(90, 1, 9)])
        .unwrap();
    let (ask, bid) = board.best();
    assert_eq!(ask.unwrap().price, Decimal::new(105, 1));
    assert_eq!(bid.unwrap().price, Decimal::new(100, 1));
    let (ask, bid) = board.wall(Decimal::new(5, 0));
    assert_eq!(ask.unwrap().price, Decimal::new(110, 1));
    assert_eq!(bid.unwrap().price, Decimal::new(95, 1));
    let (ask, bid) = board.wall(Decimal::new(9, 0));
    assert!(ask.is_none() && bid.is_none());
}

#[test]
fn board_trim_takes_each_side_with_its_own_reference() {
    let mut board = OrderBoard::new(10, 1);
    board
        .asks
        .extend(vec![level(100, 1, 1), level(105, 1, 1), level(110, 1, 1)])
        .unwrap();
    board
        .bids
        .extend(vec![level(90, 1, 1), level(95, 1, 1), level(100, 1, 1)])
        .unwrap();
    board
        .trim_inside_best_book(Decimal::new(105, 1), Decimal::new(95, 1))
        .unwrap();
    assert_eq!(keys(&board.asks), vec![110]);
    assert_eq!(keys(&board.bids), vec![90]);
}

#[test]
fn board_trim_changes_nothing_where_a_reference_has_no_key() {
    let mut board = OrderBoard::new(10, 1);
    board.asks.push(level(100, 1, 1)).unwrap();
    board.bids.push(level(90, 1, 1)).unwrap();
    assert_eq!(
        board.trim_inside_best_book(Decimal::new(100, 1), Decimal::MAX),
        Err(QuantizationError)
    );
    assert_eq!(keys(&board.asks), vec![100]);
    assert_eq!(keys(&board.bids), vec![90]);
    assert_eq!(
        board.trim_inside_best_book(Decimal::MIN, Decimal::new(90, 1)),
        Err(QuantizationError)
    );
    assert_eq!(keys(&board.asks), vec![100]);
    assert_eq!(keys(&board.bids), vec![90]);
}
