//! Decision and data-path logic of a command-line tool that listens to and
//! sends IPv4 multicast UDP datagrams.

pub mod addr;
pub mod base64_lines;
pub mod params;
pub mod provision;
pub mod receive;
pub mod send;
