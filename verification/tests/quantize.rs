use obmrs::key::{quantize, PriceKey, QuantizationError};
use rust_decimal::Decimal;

#[test]
fn quantize_scales_by_digits() {
    assert_eq!(quantize(Decimal::new(12345, 4), 4), Ok(PriceKey(12345)));
    assert_eq!(quantize(Decimal::new(12, 0), 3), Ok(PriceKey(12000)));
    assert_eq!(quantize(Decimal::new(95, 1), 1), Ok(PriceKey(95)));
}

#[test]
fn quantize_rounds_down() {
    assert_eq!(quantize(Decimal::new(123456, 5), 4), Ok(PriceKey(12345)));
    assert_eq!(quantize(Decimal::new(19, 1), 0), Ok(PriceKey(1)));
    assert_eq!(quantize(Decimal::new(12399, 4), 2), Ok(PriceKey(123)));
}

#[test]
fn quantize_rounds_negative_prices_towards_negative_infinity() {
    assert_eq!(quantize(Decimal::new(-15, 1), 0), Ok(PriceKey(-2)));
    assert_eq!(quantize(Decimal::new(-1, 5), 4), Ok(PriceKey(-1)));
    assert_eq!(quantize(Decimal::new(-20, 1), 0), Ok(PriceKey(-2)));
    assert_eq!(quantize(Decimal::new(-123456, 5), 4), Ok(PriceKey(-12346)));
}

#[test]
fn quantize_zero_at_any_digits() {
    assert_eq!(quantize(Decimal::new(0, 0), 0), Ok(PriceKey(0)));
    assert_eq!(quantize(Decimal::new(0, 3), 40), Ok(PriceKey(0)));
    assert_eq!(quantize(Decimal::new(0, 28), u32::MAX), Ok(PriceKey(0)));
}

#[test]
fn quantize_reaches_both_ends_of_the_key_range() {
    assert_eq!(quantize(Decimal::from(i64::MAX), 0), Ok(PriceKey(i64::MAX)));
    assert_eq!(quantize(Decimal::from(i64::MIN), 0), Ok(PriceKey(i64::MIN)));
    assert_eq!(
        quantize(Decimal::new(922337203685477580, 0), 1),
        Ok(PriceKey(9223372036854775800))
    );
}

#[test]
fn quantize_fails_outside_the_key_range() {
    assert_eq!(quantize(Decimal::MAX, 0), Err(QuantizationError));
    assert_eq!(quantize(Decimal::MIN, 0), Err(QuantizationError));
    assert_eq!(quantize(Decimal::new(1, 0), 19), Err(QuantizationError));
    assert_eq!(quantize(Decimal::new(-1, 0), 19), Err(QuantizationError));
    assert_eq!(quantize(Decimal::new(1, 0), 4000), Err(QuantizationError));
    assert_eq!(
        quantize(Decimal::new(922337203685477581, 0), 1),
        Err(QuantizationError)
    );
    assert_eq!(
        quantize(Decimal::from(i64::MAX) + Decimal::ONE, 0),
        Err(QuantizationError)
    );
}

#[test]
fn quantize_small_fractions_with_deep_scale() {
    let tiny = Decimal::new(1, 28);
    assert_eq!(quantize(tiny, 0), Ok(PriceKey(0)));
    assert_eq!(quantize(-tiny, 0), Ok(PriceKey(-1)));
    assert_eq!(quantize(tiny, 28), Ok(PriceKey(1)));
}

#[test]
fn quantize_then_rebuild_gives_the_price_back() {
    let digits: u32 = 6;
    for mantissa in [0i64, 1, 95, 12345, 1000000, -7, -1234567] {
        for scale in [0u32, 1, 3, 6] {
            let price = Decimal::new(mantissa, scale);
            let key = quantize(price, digits).unwrap();
            assert_eq!(Decimal::new(key.0, digits), price);
        }
    }
}

#[test]
fn quantize_keeps_the_order_of_prices() {
    let prices = [
        Decimal::new(-25, 1),
        Decimal::new(-1, 3),
        Decimal::new(0, 0),
        Decimal::new(999, 3),
        Decimal::new(1, 0),
        Decimal::new(10001, 4),
        Decimal::new(95, 1),
    ];
    for a in prices.iter() {
        for b in prices.iter() {
            let ka = quantize(*a, 2).unwrap();
            let kb = quantize(*b, 2).unwrap();
            if ka.0 < kb.0 {
                assert!(a < b);
            }
        }
    }
}

#[test]
fn quantization_error_message() {
    assert_eq!(QuantizationError.message(), "Conversion to i64 failed");
}
