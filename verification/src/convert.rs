//! Conversion of integers, texts and decimals into the decimals that a price
//! level is made of.

use vstd::prelude::*;
use rust_decimal::Decimal;
use crate::decimal::{
    decimal_from_i32, decimal_from_i64, decimal_from_text, decimal_from_u32, decimal_from_u64,
    decimal_parts,
    parsed_decimal,
};
use crate::levels::Book;

verus! {

/// A value that has no decimal.
#[derive(Debug, Clone, Copy, PartialEq, Eq)]
pub struct ConversionError;

impl ConversionError {
    /// The text that describes the failure.
    pub fn message(&self) -> (text: &'static str)
        ensures
            text@ == "Failed to convert to Decimal"@,
    {
        "Failed to convert to Decimal"
    }
}

/// A value that can be turned into a decimal.
pub trait Convertible: Sized {
    /// The mantissa and scale of the decimal that the value converts to, or
    /// `None` where it has none.
    spec fn decimal_model(self) -> Option<(int, nat)>;

    /// Converts the value, failing exactly where it has no decimal.
    fn convert_to_decimal(self) -> (r: Result<Decimal, ConversionError>)
        ensures
            match r {
                Ok(d) => self.decimal_model() == Some(decimal_parts(d)),
                Err(_) => self.decimal_model() is None,
            },
    ;
}

impl Convertible for u64 {
    open spec fn decimal_model(self) -> Option<(int, nat)> {
        Some((self as int, 0nat))
    }

    fn convert_to_decimal(self) -> (r: Result<Decimal, ConversionError>) {
        match decimal_from_u64(self) {
            Some(d) => Ok(d),
            None => Err(ConversionError),
        }
    }
}

impl Convertible for u32 {
    open spec fn decimal_model(self) -> Option<(int, nat)> {
        Some((self as int, 0nat))
    }

    fn convert_to_decimal(self) -> (r: Result<Decimal, ConversionError>) {
        match decimal_from_u32(self) {
            Some(d) => Ok(d),
            None => Err(ConversionError),
        }
    }
}

impl Convertible for i32 {
    open spec fn decimal_model(self) -> Option<(int, nat)> {
        Some((self as int, 0nat))
    }

    fn convert_to_decimal(self) -> (r: Result<Decimal, ConversionError>) {
        match decimal_from_i32(self) {
            Some(d) => Ok(d),
            None => Err(ConversionError),
        }
    }
}

impl Convertible for i64 {
    open spec fn decimal_model(self) -> Option<(int, nat)> {
        Some((self as int, 0nat))
    }

    fn convert_to_decimal(self) -> (r: Result<Decimal, ConversionError>) {
        Ok(decimal_from_i64(self))
    }
}

impl Convertible for &str {
    open spec fn decimal_model(self) -> Option<(int, nat)> {
        parsed_decimal(self@)
    }

    fn convert_to_decimal(self) -> (r: Result<Decimal, ConversionError>) {
        match decimal_from_text(self) {
            Some(d) => Ok(d),
            None => Err(ConversionError),
        }
    }
}

impl Convertible for String {
    open spec fn decimal_model(self) -> Option<(int, nat)> {
        parsed_decimal(self@)
    }

    fn convert_to_decimal(self) -> (r: Result<Decimal, ConversionError>) {
        self.as_str().convert_to_decimal()
    }
}

impl Convertible for Decimal {
    open spec fn decimal_model(self) -> Option<(int, nat)> {
        Some(decimal_parts(self))
    }

    fn convert_to_decimal(self) -> (r: Result<Decimal, ConversionError>) {
        Ok(self)
    }
}

/// Whether both a price and a size have a decimal.
pub open spec fn convertible_pair<P: Convertible, S: Convertible>(price: P, size: S) -> bool {
    price.decimal_model() is Some && size.decimal_model() is Some
}

/// Makes a price level of a price and a size, each given as any convertible
/// value. Fails exactly where one of the two has no decimal.
pub fn converter<P: Convertible, S: Convertible>(price: P, size: S) -> (r: Result<
    Book,
    ConversionError,
>)
    ensures
        r is Ok <==> convertible_pair(price, size),
        r is Ok ==> price.decimal_model() == Some(decimal_parts(r->Ok_0.price)),
        r is Ok ==> size.decimal_model() == Some(decimal_parts(r->Ok_0.size)),
{
    let price = match price.convert_to_decimal() {
        Ok(d) => d,
        Err(e) => {
            return Err(e);
        },
    };
    let size = match size.convert_to_decimal() {
        Ok(d) => d,
        Err(e) => {
            return Err(e);
        },
    };
    Ok(Book { price, size })
}

} // verus!
