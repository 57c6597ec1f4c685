//! An expect-style interaction engine, reduced to its decisions.
//!
//! A driver owns a subprocess and its pipes. It reads the clock and the
//! subprocess's output, hands every reading to a [`scan::Scan`], and does what
//! the scan asks for next, until the scan reports a match or a timeout.
//!
//! * [`decode`] turns the output bytes into characters, one unit at a time.
//! * [`pattern`] holds a compiled, ordered set of patterns.
//! * [`scan`] is the wait itself: accumulate, test after every character, stop
//!   at the first match or at the deadline.
//! * [`laws`] holds what is proved of every wait.
pub mod decode;
pub mod laws;
pub mod pattern;
pub mod scan;
