//! Per-station temperature statistics (minimum, maximum, count and sum of tenths of a
//! degree) over measurement files made of lines `name;value\n`, in several variants
//! that trade simplicity for speed: scalar parsers, bitmask delimiter scanning,
//! packed 16-byte keys and open-addressing tables. Every variant is verified against
//! the specification in [`format`] and [`stats`].

pub mod format;
pub mod layout;
pub mod stats;
pub mod stations;
pub mod ver4;
pub mod ver7;
pub mod ver8;
pub mod fxmap;
mod search;
pub mod ver9;
pub mod ver10;
pub mod ver12;
pub mod ver13;
pub mod ver15;
pub mod ver17;
pub mod ver17_lines;
pub mod ver18;
pub mod ver20;
pub mod ver20_preload_entry;
pub mod ver21;
pub mod ver21_batches;
pub mod bits;
pub mod table;
pub mod scan;
pub mod ver22;
pub mod delims;
pub mod reader;
pub mod pages;
pub mod ver5;
pub mod testu128;
