//! Status aggregation for the river compositor.
//!
//! The compositor tells its clients which tags each output focuses, which
//! are urgent, which tags the views of an output carry, how the layout is
//! called and which view a seat focuses. This library keeps the latest of
//! what was told and says, after each batch of events, what record of it is
//! to be written.
//!
//! - [`tags`] decodes tag masks and buffers of view tags.
//! - [`config`] reads the command line into the flags of a session.
//! - [`env`] holds the state of a session and applies events to it.
//! - [`snapshot`] is the record of a state.
//! - [`table`] and [`names`] keep entries in the order of their names.
//! - [`text`] writes numbers and strips names.
//!
//! Connecting to the compositor and writing the records is left to the
//! program that uses the library.

pub mod config;
pub mod env;
pub mod names;
pub mod snapshot;
pub mod table;
pub mod tags;
pub mod text;
