//! Streams of recurring calendar dates: a lazy cursor over dates driven by a
//! pure transition rule, with weekday, month-ordinal and year-day recurrence rules.

pub mod date;
pub mod datestream;
pub mod rules;

pub use date::Date;
pub use date::Weekday;
pub use datestream::DateRangeIterator;
pub use datestream::weekday_iterator;
