//! A personal journal: timestamped text entries kept newest first, with
//! pagination, a "since" filter, and a parser for 12-hour clock times.
pub mod date_parser;
pub mod entries;
pub mod setup;
pub mod system;

pub use date_parser::{
    clean_clock_time, is_white_space, parse_clock_time, parse_date, strip_whitespace, ClockTime,
    DateParserError, LocalDateTime,
};
pub use setup::{build_application, setup_database};
pub use entries::{
    Client, EntriesService, EntryCreate, EntryDestroy, EntryPagination, EntryRead,
    ListEntriesParams, StoreError,
};
