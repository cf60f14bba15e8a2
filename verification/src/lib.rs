//! Named environment store: keeps sets of environment variables as
//! `<name>.env` key/value files in one configuration directory, and
//! prepares child-process environments from a stored set.
//!
//! The modules follow the data's path: `names` maps environment names
//! to file names and back, `codec` turns file text into an
//! [`environment::Environment`] and back, `store` decides each store
//! operation and its error, and `launcher` builds what a child process
//! is to run with.

pub mod codec;
pub mod environment;
pub mod errors;
pub mod launcher;
pub mod names;
pub mod store;
