//! Discovery and verification of open HTTP proxies: address-range
//! enumeration, detection-rule parsing, probe construction, response
//! classification, and scan bookkeeping, with machine-checked contracts.
#![verifier::loop_isolation(false)]

pub mod detection;
pub mod http;
pub mod iprange;
pub mod scan;
pub mod text;
pub mod verify;
