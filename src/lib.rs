//! Host side of a serial telemetry display: the decisions behind the link to
//! the device and the screens it shows.
//!
//! - [`locate`] picks the serial device: named by the operator, discovered
//!   by vendor, or asked for.
//! - [`reconnect`] is the protocol that reopens a failed link, retrying and
//!   rediscovering the device as its policy says.
//! - [`schedule`] rotates the screens tick by tick, skipping those that
//!   cannot be shown; [`rotation`] states how the rotation cycles.
//! - [`decimal`] and [`frame`] turn readings into the text frames the device
//!   displays.
pub mod decimal;
pub mod frame;
pub mod locate;
pub mod reconnect;
pub mod rotation;
pub mod schedule;
