//! Definitions for the abstract device driver.
//!
//! Applications drive the protocol through the [`Device`] operations
//! and receive notifications either through the [`TxClient`] /
//! [`RxClient`] callback traits or by draining the [`DeviceEvent`]
//! stream that the protocol core produces.

use vstd::prelude::*;

use crate::frame::FrameNonce;
use crate::{LoRaAddress, LoRaDestination};

verus! {

/// Wrapper for an error that might indicate a full queue.
#[derive(Debug)]
pub enum QueueError<T> {
    /// This error is due to other reasons than a full queue.
    DeviceError(T),
    /// This error results from a full queue: the queue must be cleared
    /// (by transmitting, for instance) before the call is retried.
    QueueFullError(T),
}

/// One notification from the protocol core to the application.
///
/// The driver produces these instead of invoking callbacks directly,
/// so the application decides when and how to dispatch them.
pub enum DeviceEvent {
    /// A queued frame left the radio; the nonce identifies it.
    TransmissionDone(FrameNonce),
    /// The recipient acknowledged the frame with this nonce.
    TransmissionSuccessful(LoRaAddress, FrameNonce),
    /// No acknowledgement arrived in time; the payload travelled in
    /// the frame with this nonce and was addressed to this recipient.
    TransmissionFailed(LoRaAddress, FrameNonce, Vec<u8>),
    /// A payload arrived from this sender in the frame with this nonce.
    Received(LoRaAddress, Vec<u8>, FrameNonce),
}

impl DeviceEvent {
    /// The mathematical content of an event: peer address, nonce, and
    /// payload bytes (empty where the event carries none).
    pub open spec fn pair(self) -> (u16, u64, Seq<u8>) {
        match self {
            DeviceEvent::TransmissionDone(n) => (0u16, n, Seq::empty()),
            DeviceEvent::TransmissionSuccessful(a, n) => (a, n, Seq::empty()),
            DeviceEvent::TransmissionFailed(a, n, pl) => (a, n, pl@),
            DeviceEvent::Received(a, pl, n) => (a, n, pl@),
        }
    }
}

/// The mathematical content of an event list.
pub open spec fn event_pairs(evs: Seq<DeviceEvent>) -> Seq<(u16, u64, Seq<u8>)> {
    evs.map_values(|e: DeviceEvent| e.pair())
}

/// Device trait: a unit system that can receive and send messages
/// with acknowledgements, packet aggregation and adaptive power.
pub trait Device<'a> {
    type DeviceError;

    /// Registers the new transmission client which will receive packet
    /// acknowledgment and transmission completion signals.
    fn set_transmit_client(&mut self, client: Box<dyn TxClient>);

    /// Registers the new receiver client which will be called for every
    /// packet received matching the device address.
    fn set_receive_client(&mut self, client: Box<dyn RxClient>);

    /// Registers this device with a new address.
    fn set_address(&mut self, address: LoRaAddress);

    /// Retrieves the current registered address of this device.
    fn get_address(&self) -> LoRaAddress;

    /// Gets transmission status.
    fn is_transmitting(&mut self) -> Result<bool, Self::DeviceError>;

    /// Gets listening status.
    fn is_listening(&mut self) -> Result<bool, Self::DeviceError>;

    /// Flushes the packet queue and transmits it.
    ///
    /// No-op if the queue is empty.
    fn transmit(&mut self) -> Result<FrameNonce, Self::DeviceError>;

    /// Puts the device in listening mode on the first channel.
    fn start_reception(&mut self) -> Result<(), Self::DeviceError>;

    /// Checks reception of messages by the physical radio; also drains
    /// acknowledgement deadlines that have expired.
    fn check_reception(&mut self) -> Result<bool, Self::DeviceError>;

    /// Queues pending inbound acknowledgements for the next frame.
    fn queue_acknowledgements(&mut self) -> Result<bool, QueueError<Self::DeviceError>>;

    /// Adds the given payload as a packet to the internal queue.
    fn queue(&mut self, dest: LoRaDestination, payload: &[u8], ack: bool) -> Result<
        (),
        QueueError<Self::DeviceError>,
    >;

    /// Informs the application that the radio would like to send
    /// beacons.
    fn is_beacon_needed(&mut self) -> bool;

    /// Forces the radio to send beacons.
    fn transmit_beacon(&mut self) -> Result<(), QueueError<Self::DeviceError>>;
}

/// Transmission client: a callback surface for transmission outcomes.
pub trait TxClient {
    /// Device acknowledgement that a transmission completed.
    fn transmission_done(&self, nonce: FrameNonce) -> Result<(), ()>;

    /// An acknowledgement arrived from the given recipient for this
    /// particular message.
    fn transmission_successful(&self, recipient: LoRaAddress, nonce: FrameNonce) -> Result<
        (),
        (),
    >;

    /// No acknowledgement arrived in time from the given recipient for
    /// this particular message; a retransmission can be requested by
    /// queueing the passed payload again.
    fn transmission_failed(
        &self,
        sender: LoRaAddress,
        nonce: FrameNonce,
        payload: Vec<u8>,
    ) -> Result<(), ()>;
}

/// Reception client: a callback surface for received payloads.
pub trait RxClient {
    /// The device has received the given message.
    fn receive(&self, sender: LoRaAddress, payload: Vec<u8>, nonce: FrameNonce) -> Result<(), ()>;
}

} // verus!
