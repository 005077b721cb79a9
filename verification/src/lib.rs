//! Hardware-address and IP-network utilities.
//!
//! Three engines make up the crate: a MAC-address codec ([`mac`]) that parses
//! tolerant textual forms into a canonical 48-bit value and formats such a
//! value in any of seven fixed styles; a vendor-prefix table ([`oui`]) built
//! from tab-separated source text that answers longest-prefix-match queries;
//! and an IP address/network normaliser ([`inet`]) that reconciles mixed
//! address, mask and CIDR inputs into one canonical network value and tests
//! containment. The [`exports`] module offers the MAC operations in the shape
//! a host environment calls them: plain text in, plain text or null out.

pub mod exports;
pub mod inet;
pub mod mac;
pub mod oui;
pub mod text;
