//! A verified aggregation-and-layout pipeline for a two-column "next
//! arrivals" transit board.
//!
//! Raw arrival records are filtered to a set of watched stops, grouped by
//! direction and by (line, destination), ordered deterministically, turned
//! into bounded "minutes until arrival" countdown strings, and laid out as
//! absolute-coordinate drawing instructions for a fixed-size canvas. A thin
//! unverified shell fetches the feed, measures text and rasterizes the
//! instructions.

pub mod aggregate;
pub mod countdown;
pub mod layout;
pub mod order;
pub mod records;
