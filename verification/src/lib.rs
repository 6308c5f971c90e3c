//! Verified parsing of iCalendar (RFC 5545) event components.
//!
//! The crate turns an already-tokenized sequence of calendar properties into
//! typed [`parser::Event`] records: it recognizes `BEGIN`/`END` component
//! markers, unwraps the outer `VCALENDAR` component, coerces each recognized
//! property value into a typed field, and reports precise, typed errors on
//! malformed input.

pub mod datetime;
pub mod parser;
pub mod props;
pub mod text;
pub mod types;

pub use datetime::DateTimeFields;
pub use parser::{CalendarParseError, Event, EventsReader};
pub use props::{RawProperty, TokenizeError};
pub use types::{IcalDateTime, IcalInt, IcalText};
