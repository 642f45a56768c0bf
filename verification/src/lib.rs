//! The variable environment of an interactive shell.
//!
//! Variables live in three tiers. A stack ([`EnvStack`]) holds a chain of
//! local frames that are pushed and popped as functions and blocks are
//! entered and left. The global frame and the universal variables, which
//! all running instances of the shell share through an external store, are
//! process-wide and live in one [`SharedEnv`], which every operation is
//! handed; it also keeps the export lines of its variables until one of
//! them is written. Nothing here locks, performs I/O or calls back: an
//! operation returns what the caller owes the rest of the shell (change
//! notifications, events, what to write to the store), to be acted on
//! once the caller has released its own lock.
//!
//! The module [`model`] holds the mathematical model that the operations
//! are specified against, and [`laws`] what is proved of it.

pub mod environment;
pub mod export;
pub mod frame;
pub mod init;
pub mod laws;
pub mod model;
pub mod path;
pub mod shared;
pub mod stack;
pub mod table;
pub mod text;
pub mod universal;
pub mod var;

pub use crate::environment::{
    EnvDyn, EnvNull, EnvScoped, Environment, PwdEnvironment, TestEnvironment,
};
pub use crate::export::c_string_bytes;
pub use crate::frame::Frame;
pub use crate::init::{
    env_init, repeats_exported_universal, Abbreviation, EnvInit, Position,
};
pub use crate::shared::{events_of, SharedEnv, SyncOutcome};
pub use crate::stack::{EnvStack, PopResult};
pub use crate::table::VarTable;
pub use crate::universal::{CallbackData, CallbackDataList, EnvUniversal, Event, EventKind};
pub use crate::var::{
    EnvMode, EnvStackSetResult, EnvVar, EnvVarFlags, ModResult, Statuses, ENV_EXPORT, ENV_GLOBAL,
    ENV_LOCAL, ENV_PATHVAR, ENV_UNIVERSAL, ENV_USER,
};
