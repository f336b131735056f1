use stock_tracing::order::sorted_quotes;
use stock_tracing::order::stable_order;
use stock_tracing::order::PricePoint;
use stock_tracing::stock::get_quote_history;
use stock_tracing::stock::Ratio;

fn point(timestamp: u64, close: i64) -> PricePoint {
    PricePoint { timestamp, close }
}

#[test]
fn closes_come_out_in_time_order() {
    let quotes = vec![point(30, 3), point(10, 1), point(40, 4), point(20, 2)];
    assert_eq!(stable_order(&quotes), vec![1, 3, 0, 2]);
    assert_eq!(sorted_quotes(quotes), vec![1, 2, 3, 4]);
}

#[test]
fn tied_timestamps_keep_input_order() {
    let quotes = vec![
        point(5, 100),
        point(1, 200),
        point(5, 300),
        point(1, 400),
        point(5, 500),
        point(0, 600),
    ];
    assert_eq!(stable_order(&quotes), vec![5, 1, 3, 0, 2, 4]);
    assert_eq!(sorted_quotes(quotes), vec![600, 200, 400, 100, 300, 500]);
}

#[test]
fn no_quotes_give_no_closes() {
    let quotes: Vec<PricePoint> = Vec::new();
    assert_eq!(stable_order(&quotes), Vec::<usize>::new());
    assert_eq!(sorted_quotes(quotes), Vec::<i64>::new());
}

#[test]
fn sorted_input_is_left_as_it_is() {
    let quotes = vec![point(1, 9), point(2, 8), point(3, 7)];
    assert_eq!(stable_order(&quotes), vec![0, 1, 2]);
    assert_eq!(sorted_quotes(quotes), vec![9, 8, 7]);
}

#[test]
fn reversed_input_is_turned_round() {
    let quotes = vec![point(u64::MAX, 1), point(7, 2), point(0, 3)];
    assert_eq!(sorted_quotes(quotes), vec![3, 2, 1]);
}

#[test]
fn order_agrees_with_a_stable_sort() {
    let mut quotes: Vec<PricePoint> = Vec::new();
    let mut seed: u64 = 17;
    for i in 0..200i64 {
        seed = seed.wrapping_mul(6364136223846793005).wrapping_add(1442695040888963407);
        quotes.push(point((seed >> 33) % 16, i));
    }
    let mut expected = quotes.clone();
    expected.sort_by_key(|q| q.timestamp);
    let expected: Vec<i64> = expected.iter().map(|q| q.close).collect();
    assert_eq!(sorted_quotes(quotes), expected);
}

#[test]
fn history_sorts_before_it_summarizes() {
    let fetched: Result<Vec<PricePoint>, String> =
        Ok(vec![point(3, 5), point(1, 0), point(2, 9)]);
    let qh = get_quote_history(String::from("AAPL"), fetched).unwrap();
    assert_eq!(qh.ticker, "AAPL");
    assert_eq!(qh.last_price, Some(5));
    assert_eq!(qh.price_diff, Some((5, Ratio { num: 5, den: 1 })));
    assert_eq!(qh.max, Some(9));
    assert_eq!(qh.min, Some(0));
    assert_eq!(qh.sma, Some(Vec::new()));
}

#[test]
fn provider_error_is_handed_on_unchanged() {
    let fetched: Result<Vec<PricePoint>, String> = Err(String::from("unknown symbol"));
    let r = get_quote_history(String::from("NOPE"), fetched);
    assert_eq!(r.err(), Some(String::from("unknown symbol")));
}

#[test]
fn history_of_no_quotes_is_an_empty_summary() {
    let fetched: Result<Vec<PricePoint>, u8> = Ok(Vec::new());
    let qh = get_quote_history(String::from("MSFT"), fetched).unwrap();
    assert_eq!(qh.max, None);
    assert_eq!(qh.min, None);
    assert_eq!(qh.last_price, Some(0));
    assert_eq!(qh.price_diff, None);
    assert_eq!(qh.sma, None);
}
