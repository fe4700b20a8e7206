//! A stateless, single-packet IPv4 scanner engine.
//!
//! The engine sends one probe to every allowed IPv4 address, in an order
//! that is fixed by a secret and looks random, and recognises the replies
//! without keeping any record of the probes:
//!
//! * `cyclic` walks the multiplicative group modulo the smallest prime above
//!   2^32; `order` and `coverage` show that one round of the walk passes
//!   every nonzero address once.
//! * `constraint` and `constraint_box` are two forms of the prefix tree that
//!   says which addresses may be probed; `cidr` reads subnet lists and
//!   `blacklist` builds the tree from them.
//! * `validate` derives the tag of a probe from its addresses; `packet` and
//!   `module_tcp_synscan` build SYN probes and judge replies.
//! * `send`, `recv` and `state` hold the decisions of the sender and the
//!   receiver, and the phases of a scan.

pub mod aesrand;
pub mod bits;
pub mod blacklist;
pub mod cidr;
pub mod config;
pub mod constraint;
pub mod constraint_box;
pub mod coverage;
pub mod cyclic;
pub mod mac;
pub mod module_tcp_synscan;
pub mod order;
pub mod packet;
pub mod probe_modules;
pub mod recv;
pub mod rijndael;
pub mod send;
pub mod state;
pub mod validate;
