//! A group audio call mediator: the verified core.
//!
//! The mediator forwards the encrypted packets of each participant of a call to
//! every other participant, without looking into them. This crate decides; it
//! does no input or output. What comes in on a stream or as a datagram is handed
//! to it as plain values, and it hands back what is to be sent and to whom.
//!
//! - [`tlv`] and [`protocol`]: the wire format.
//! - [`session`] and [`server`]: what the mediator knows.
//! - [`handlers`] and [`control`]: what a control stream does to it.
//! - [`media`]: the way of a datagram.
//! - [`identity`]: the key of the mediator.
//! - [`consistency`] and [`laws`]: what holds of the whole.
//! - [`meaning`]: what the words of these modules mean, in bytes and fields.
//! - [`exchanges`] and [`delivery`]: what each request brings about, who is told
//!   what, and where datagrams go.

pub mod bytes;
pub mod consistency;
pub mod constants;
pub mod control;
pub mod delivery;
pub mod exchanges;
pub mod handlers;
pub mod identity;
pub mod keyed;
pub mod laws;
pub mod meaning;
pub mod media;
pub mod protocol;
pub mod server;
pub mod session;
pub mod text;
pub mod tlv;
