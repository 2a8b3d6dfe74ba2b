use obmrs::convert::{converter, ConversionError, Convertible};
use rust_decimal::Decimal;

#[test]
fn integers_convert_at_scale_zero() {
    let d = 18446744073709551615u64.convert_to_decimal().unwrap();
    assert_eq!(d.mantissa(), 18446744073709551615i128);
    assert_eq!(d.scale(), 0);
    let d = 4294967295u32.convert_to_decimal().unwrap();
    assert_eq!(d.mantissa(), 4294967295i128);
    assert_eq!(d.scale(), 0);
    let d = (-2147483648i32).convert_to_decimal().unwrap();
    assert_eq!(d.mantissa(), -2147483648i128);
    assert_eq!(d.scale(), 0);
    let d = i64::MIN.convert_to_decimal().unwrap();
    assert_eq!(d.mantissa(), -9223372036854775808i128);
    assert_eq!(d.scale(), 0);
}

#[test]
fn text_converts_with_its_scale() {
    let d = "12.340".convert_to_decimal().unwrap();
    assert_eq!(d.mantissa(), 12340);
    assert_eq!(d.scale(), 3);
    let d = String::from("-0.5").convert_to_decimal().unwrap();
    assert_eq!(d, Decimal::new(-5, 1));
}

#[test]
fn text_that_is_no_decimal_is_refused() {
    assert_eq!("abc".convert_to_decimal(), Err(ConversionError));
    assert_eq!("".convert_to_decimal(), Err(ConversionError));
    assert_eq!(String::from("1.2.3").convert_to_decimal(), Err(ConversionError));
}

#[test]
fn decimal_converts_to_itself() {
    let d = Decimal::new(-12345, 7);
    let c = d.convert_to_decimal().unwrap();
    assert_eq!(c.mantissa(), -12345);
    assert_eq!(c.scale(), 7);
}

#[test]
fn converter_takes_mixed_kinds() {
    let book = converter("9.5", 3u64).unwrap();
    assert_eq!(book.price, Decimal::new(95, 1));
    assert_eq!(book.size, Decimal::new(3, 0));
    let book = converter(-4i64, String::from("0.25")).unwrap();
    assert_eq!(book.price, Decimal::new(-4, 0));
    assert_eq!(book.size, Decimal::new(25, 2));
}

#[test]
fn converter_fails_where_either_part_has_no_decimal() {
    assert!(converter("x", 1).is_err());
    assert!(converter(1, "y").is_err());
    assert!(converter("x", "y").is_err());
}

#[test]
fn conversion_error_message() {
    assert_eq!(ConversionError.message(), "Failed to convert to Decimal");
}
