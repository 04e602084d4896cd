//! Conversion of loosely typed spreadsheet cells into dates, integers,
//! decimals and text, and the layout of typed tables as worksheet writes.

pub mod cell;
pub mod date;
pub mod decimal;
pub mod number;
pub mod plan_laws;
pub mod text;
pub mod types;
pub mod writer;

pub use cell::RawCell;
pub use date::Date;
pub use decimal::Decimal;
pub use number::Number;
pub use types::{
    convert_date, convert_decimal, convert_i32, convert_naivedate_to_datatype, convert_str_to_date,
    convert_string,
};
