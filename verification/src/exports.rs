//! The operations the host environment calls, over plain values: MAC lookup
//! and formatting under the host's calling conventions.

pub mod mac;
