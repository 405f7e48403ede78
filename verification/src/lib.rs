//! Core logic for a weekly "directly responsible individual" (DRI) tracker.
//!
//! The library turns a calendar date and an ordered list of names into the
//! previous, current and upcoming assignee of a weekly rotation, and offers a
//! lossless, URL-safe serialization of the name list so that the whole state
//! of the tracker fits in a link.
//!
//! - [`calendar`] models Gregorian dates as plain values and counts days.
//! - [`schedule`] computes ISO-8601 week numbers and the rotation itself.
//! - [`text`] splits and joins newline-separated name lists.
//! - [`codec`] encodes a name list as a URL-safe token and back.
//! - [`state`] ties raw text, parsed names and the URL token together.

pub mod calendar;
pub mod schedule;
pub mod text;
pub mod codec;
pub mod state;
