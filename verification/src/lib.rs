//! Core of a host-local transparent proxy: traffic towards virtual
//! addresses is caught on a TUN device, turned towards a local proxy, and
//! sent on directly or through an upstream server, as the rules say.
//!
//! - [`ip_pool`] hands out the virtual addresses of a block, and [`storage`]
//!   ties each to the domain it stands for, in both directions.
//! - [`dns`] reads and writes DNS messages, and [`fake_dns`] decides which
//!   queries get a virtual address for an answer.
//! - [`packet`] reads and rewrites IPv4 packets with their checksums
//!   ([`checksum`]), [`session`] keeps where each flow was headed, and
//!   [`router`] decides over each packet.
//! - [`rules`] classifies destinations, and [`proxy`] plans what the local
//!   proxy does with an accepted connection.
//! - [`config`] and [`duration`] hold the configuration and its defaults;
//!   [`net`] and [`text`] hold addresses, blocks and character helpers.
//!
//! Every function of the crate is verified against its contract; the one
//! thing taken on trust is what `String::push` of the standard library does
//! (see [`text`]). The laws that relate several functions are public proof
//! functions named `law_...`.

pub mod checksum;
pub mod config;
pub mod dns;
pub mod duration;
pub mod fake_dns;
pub mod ip_pool;
pub mod net;
pub mod packet;
pub mod proxy;
pub mod router;
pub mod rules;
pub mod session;
pub mod storage;
pub mod text;
