//! A link-layer protocol stack for low-power long-range radio
//! networks on half-duplex, single-radio SX127x-class transceivers.
//!
//! The stack provides addressed unicast, group and broadcast delivery
//! of byte payloads across up to five channels, with packet
//! aggregation, receiver-side acknowledgement piggybacking,
//! retransmission tracking, duty-cycle regulation, and an adaptive
//! transmission power control loop that learns per-neighbor power
//! requirements from measured RSSI.
//!
//! The crate holds the verified protocol logic: the bit-packed wire
//! codec ([`frame`]), the power control ([`atpc`]), the channel-usage
//! ledger ([`channel`]) and the driver state machine ([`radio`]).
//! The physical radio, the clock and the application loop live with
//! the caller, which drives the protocol core and dispatches its
//! events ([`device`]).

use vstd::prelude::*;

pub mod atpc;
pub mod bytes;
pub mod channel;
pub mod device;
pub mod error;
pub mod frame;
pub mod radio;

verus! {

/// Simple alias for the representation of a peer address.
///
/// It is the physical name of a device on the link; only the low
/// fifteen bits carry the address, the high bit is reserved for the
/// acknowledgement flag when the address travels inside a frame.
pub type LoRaAddress = u16;

/// Representation of the recipients for a particular message that will
/// be sent or has been received by the radio.
pub enum LoRaDestination {
    /// This message is for everyone listening.
    Global,
    /// This message is intended for a group of peers.
    Group(Vec<LoRaAddress>),
    /// This message is intended for a single peer of the network.
    Unique(LoRaAddress),
}

} // verus!
