//! A login and seat session manager: it keeps track of the sessions of the
//! users that are logged in, contains each session in a resource group of its
//! own, and gives the devices of a seat to the one session that owns the seat.
//!
//! The library holds the rules and is free of input and output. What it knows
//! of the world it keeps as plain values: the text of a resource group's
//! control files (`cgroupv2`), the access-control lists of device files
//! (`acl`), the devices that discovery reported (`seat`,
//! `load_devices_udev`). Whoever drives it reads those from the system and
//! calls an operation of the manager (`session`). An operation that needs a
//! resource group made is told what the file system answered, and an
//! operation that changes who has access hands out the operations to perform
//! on the device files. `dbus_server` says which calls of the control channel
//! the manager answers and how.
//!
//! Every operation of the manager is one step of a state machine whose
//! states are mathematical values (`state`). `ownership` proves what every
//! sequence of steps keeps true: device access mirrors seat ownership.

pub mod acl;
pub mod cgroupv2;
pub mod dbus_server;
pub mod decimal;
pub mod load_devices_udev;
pub mod ownership;
pub mod seat;
pub mod session;
pub mod state;
pub mod text;
