pub mod clock;
pub mod span;
pub mod wait_spec;

pub use clock::{LocalDateTime, LocalInstant, Now, TimeOfDay, Timestamp};
pub use span::{
    format_millis, parse_duration_str, parse_duration_str_with_units, ParseError, Span, Unit,
};
pub use wait_spec::{ResolveError, ToDuration, WaitSpec};
