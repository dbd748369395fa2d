use radio_tipe_poc::atpc::{ControlModel, DefaultATPC, NeighborStatus};
use radio_tipe_poc::channel::{Channel, ChannelUsage, DelayParams};
use radio_tipe_poc::device::{DeviceEvent, QueueError};
use radio_tipe_poc::frame::{
    AddressHeader, FrameError, FrameSize, InfoHeader, PayloadFlag, RadioFrameWithHeaders,
    RadioHeaders, RecipientHeader,
};
use radio_tipe_poc::radio::{RadioCore, RadioError};
use radio_tipe_poc::LoRaDestination;

const T0_US: u64 = 1_000_000_000;
const T0_S: u64 = 1_700_000_000;

fn delay_params() -> DelayParams {
    DelayParams {
        duty_cycle_permille: 1000,
        min_delay: 0,
        poll_delay: 100_000,
        duty_interval: 120_000_000,
    }
}

fn five_channels() -> Vec<Channel<u8>> {
    (0..5u8).map(|i| Channel { radio_channel: i, delay: delay_params() }).collect()
}

fn test_atpc() -> DefaultATPC {
    DefaultATPC::new(vec![2, 4, 6, 8, 10], 2, -100, 28_800_000_000, T0_US)
}

fn new_core(address: u16) -> RadioCore<u8> {
    RadioCore::new(five_channels(), test_atpc(), -100, address, T0_US)
}

/// Runs the whole transmit flow of the pending frame, returning its
/// nonce.
fn transmit(core: &mut RadioCore<u8>, now_us: u64) -> u64 {
    let plan = core.transmit_prepare(now_us).expect("transmit_prepare failed");
    let plan = match plan {
        None => return 0,
        Some(p) => p,
    };
    for (i, _slot) in plan.slots.iter().enumerate() {
        core.record_slot(i, now_us).expect("record_slot failed");
    }
    let (nonce, events) = core.transmit_finalize(&plan.gated, now_us);
    assert!(matches!(events[0], DeviceEvent::TransmissionDone(n) if n == nonce));
    nonce
}

/// Builds the wire bytes of an inbound frame from `sender` to `to`,
/// carrying the given acknowledgements and payloads.
fn inbound_frame(
    sender: u16,
    to: u16,
    ack: bool,
    nonce: u64,
    acks: Vec<(AddressHeader, u64, i16)>,
    payloads: Vec<Vec<u8>>,
) -> Vec<u8> {
    let headers = RadioHeaders {
        rec_n_frames: InfoHeader::new(1, 1),
        recipients: RecipientHeader::Direct(AddressHeader::new(to, ack)),
        payloads: payloads.len() as u8,
        sender: AddressHeader::new(sender, false),
        nonce,
    };
    RadioFrameWithHeaders { headers, acknowledgements: acks, payloads }.to_bytes()
}

// -- Encode-decode scenarios ------------------------------------------

#[test]
fn direct_frame_wire_format() {
    let headers = RadioHeaders {
        rec_n_frames: InfoHeader::new(1, 1),
        recipients: RecipientHeader::Direct(AddressHeader::new(0x0002, false)),
        payloads: 1,
        sender: AddressHeader::new(0x0001, false),
        nonce: 0x0102030405060708,
    };
    let frame = RadioFrameWithHeaders {
        headers,
        acknowledgements: vec![],
        payloads: vec![b"HELO!".to_vec()],
    };
    let bytes = frame.to_bytes();
    let expected: Vec<u8> = vec![
        0x11, 0x01, 0x00, 0x02, 0x00, 0x01, 0x01, 0x01, 0x02, 0x03, 0x04, 0x05, 0x06, 0x07,
        0x08, 0x00, 0x00, 0x05, b'H', b'E', b'L', b'O', b'!',
    ];
    assert_eq!(bytes, expected);
    // Size exactness and the exact round trip.
    assert_eq!(frame.size(), bytes.len());
    let (decoded, consumed) = RadioFrameWithHeaders::try_from_bytes(&bytes).expect("decode");
    assert_eq!(consumed, bytes.len());
    assert_eq!(decoded.headers.rec_n_frames.0, frame.headers.rec_n_frames.0);
    assert_eq!(decoded.headers.sender.0, frame.headers.sender.0);
    assert_eq!(decoded.headers.nonce, frame.headers.nonce);
    assert_eq!(decoded.payloads, frame.payloads);
    assert_eq!(decoded.acknowledgements, frame.acknowledgements);
}

#[test]
fn group_frame_with_acks_round_trip() {
    let recipients = vec![
        (AddressHeader::new(0x0002, false), PayloadFlag::new(&[0, 2])),
        (AddressHeader::new(0x0100, true), PayloadFlag::new(&[1, 3])),
        (AddressHeader::new_global(true), PayloadFlag::new(&[13, 15])),
    ];
    let headers = RadioHeaders {
        rec_n_frames: InfoHeader::new(3, 1),
        recipients: RecipientHeader::Group(recipients.clone()),
        payloads: 4,
        sender: AddressHeader::new(0x0001, false),
        nonce: 0xAABBCCDD,
    };
    let acks = vec![
        (AddressHeader::new(0x0100, false), 0xCDEAD_u64, 10_i16),
        (AddressHeader::new(0x0200, false), 0xDEADBEEFCAFE_u64, -10_i16),
    ];
    let frame = RadioFrameWithHeaders {
        headers,
        acknowledgements: acks.clone(),
        payloads: vec![b"a".to_vec(), b"b".to_vec(), b"c".to_vec(), b"d".to_vec()],
    };
    let bytes = frame.to_bytes();
    // Headers take 1 + (1 + 3 * 4) + 2 + 1 + 8 = 25 bytes, so the
    // acknowledgement count byte sits at offset 25 and must be 2.
    assert_eq!(bytes[25], 2);
    assert_eq!(frame.size(), bytes.len());
    let (decoded, consumed) = RadioFrameWithHeaders::try_from_bytes(&bytes).expect("decode");
    assert_eq!(consumed, bytes.len());
    assert_eq!(decoded.acknowledgements, acks);
    assert_eq!(decoded.payloads, frame.payloads);
    match decoded.headers.recipients {
        RecipientHeader::Group(g) => {
            assert_eq!(g.len(), 3);
            for (i, (ah, pf)) in g.iter().enumerate() {
                assert_eq!(ah.0, recipients[i].0 .0);
                assert_eq!(pf.0, recipients[i].1 .0);
            }
        },
        _ => panic!("expected a group"),
    }
}

#[test]
fn decode_rejects_truncation_and_bad_counts() {
    // Too short for any recipient header.
    assert!(matches!(
        RecipientHeader::try_from_bytes(&[]),
        Err(FrameError::InvalidHeader { .. })
    ));
    // Zero recipients.
    assert!(matches!(
        RecipientHeader::try_from_bytes(&[0, 0, 0]),
        Err(FrameError::InvalidHeader { .. })
    ));
    // More than sixteen recipients.
    assert!(matches!(
        RecipientHeader::try_from_bytes(&[17, 0, 0]),
        Err(FrameError::InvalidHeader { .. })
    ));
    // A valid direct frame, truncated in the middle of its nonce.
    let bytes = inbound_frame(1, 2, false, 0x1234, vec![], vec![]);
    assert!(matches!(
        RadioFrameWithHeaders::try_from_bytes(&bytes[..10]),
        Err(FrameError::InvalidHeader { .. })
    ));
}

#[test]
fn payload_flag_sorted_unique_ids() {
    // Duplicated, unsorted ids come back out sorted and deduplicated.
    let pf = PayloadFlag::new(&[5, 3, 5, 1, 3]);
    assert_eq!(pf.to_message_ids(), vec![1, 3, 5]);
    let none = PayloadFlag::new(&[]);
    assert_eq!(none.to_message_ids(), Vec::<u8>::new());
}

// -- Queue aggregation and transmission -------------------------------

#[test]
fn queue_aggregation_overflow() {
    let mut core = new_core(0x0001);
    let payload = vec![0x5A_u8; 400];
    // Three payloads of 400 bytes fit in five slots.
    for _ in 0..3 {
        core.queue(LoRaDestination::Unique(0x0002), &payload, false, T0_S).expect("queue");
    }
    // A fourth does not.
    match core.queue(LoRaDestination::Unique(0x0002), &payload, false, T0_S) {
        Err(QueueError::QueueFullError(RadioError::TooBigFrameError { .. })) => {},
        other => panic!("expected a full queue, got {:?}", other.is_ok()),
    }
    // Transmitting drains the queue and returns a nonzero nonce.
    let nonce = transmit(&mut core, T0_US + 1_000_000);
    assert!(nonce != 0);
    // The fourth payload now fits.
    core.queue(LoRaDestination::Unique(0x0002), &payload, false, T0_S).expect("queue after drain");
}

#[test]
fn transmit_without_frame_is_a_no_op() {
    let mut core = new_core(0x0001);
    assert!(core.transmit_prepare(T0_US).expect("prepare").is_none());
    let (nonce, events) = core.transmit_finalize(&vec![], T0_US);
    assert_eq!(nonce, 0);
    assert!(events.is_empty());
}

#[test]
fn nonces_strictly_increase() {
    let mut core = new_core(0x0001);
    core.queue(LoRaDestination::Unique(0x0002), b"one", false, T0_S).expect("queue");
    let p1 = core.transmit_prepare(T0_US).expect("prepare").expect("plan");
    core.queue(LoRaDestination::Unique(0x0002), b"two", false, T0_S).expect("queue");
    let p2 = core.transmit_prepare(T0_US).expect("prepare").expect("plan");
    assert!(p2.nonce > p1.nonce);
    assert_ne!(p1.nonce, p2.nonce);
}

#[test]
fn invalid_recipient_counts_are_rejected() {
    let mut core = new_core(0x0001);
    // More than forty-eight recipients in one call.
    let many: Vec<u16> = (1..=49).collect();
    assert!(matches!(
        core.queue(LoRaDestination::Group(many), b"x", false, T0_S),
        Err(QueueError::QueueFullError(RadioError::InvalidRecipentsError))
    ));
    // An empty group expands to nobody.
    assert!(matches!(
        core.queue(LoRaDestination::Group(vec![]), b"x", false, T0_S),
        Err(QueueError::DeviceError(RadioError::InvalidRecipentsError))
    ));
}

#[test]
fn queue_registers_only_flagged_recipients() {
    let mut core = new_core(0x0001);
    // A flagged group call registers every member with the power
    // control; an unflagged one registers nobody.
    core.queue(LoRaDestination::Group(vec![0x0021, 0x0022]), b"x", true, T0_S).expect("queue");
    assert!(core.power_control().neighbor_state(0x0021).is_some());
    assert!(core.power_control().neighbor_state(0x0022).is_some());
    core.queue(LoRaDestination::Group(vec![0x0023]), b"y", false, T0_S).expect("queue");
    assert!(core.power_control().neighbor_state(0x0023).is_none());
    // An unflagged unicast registers nobody either.
    core.queue(LoRaDestination::Unique(0x0024), b"z", false, T0_S).expect("queue");
    assert!(core.power_control().neighbor_state(0x0024).is_none());
}

#[test]
fn record_slot_rejects_unknown_channel() {
    let mut core = new_core(0x0001);
    assert!(matches!(core.record_slot(99, T0_US), Err(RadioError::Unknown)));
}

// -- Channel regulations ----------------------------------------------

#[test]
fn duty_cycle_budget_enforced() {
    // One percent of a ten-second interval is a 100 ms budget: a
    // single 400 ms slot consumes it.
    let tight = DelayParams {
        duty_cycle_permille: 10,
        min_delay: 0,
        poll_delay: 100_000,
        duty_interval: 10_000_000,
    };
    let channels = vec![Channel { radio_channel: 0u8, delay: tight }];
    let mut core = RadioCore::new(channels, test_atpc(), -100, 0x0001, T0_US);
    core.record_slot(0, T0_US + 1).expect("first slot");
    assert!(matches!(
        core.transmission_check(1, T0_US + 2),
        Err(RadioError::DutyCycleConsumed)
    ));
    // Once the duty interval has elapsed, the window restarts.
    assert!(core.transmission_check(1, T0_US + 1 + 10_000_000).is_ok());
}

#[test]
fn min_channel_delay_enforced() {
    let slow = DelayParams {
        duty_cycle_permille: 1000,
        min_delay: 5_000_000,
        poll_delay: 100_000,
        duty_interval: 120_000_000,
    };
    let channels = vec![Channel { radio_channel: 0u8, delay: slow }];
    let core = RadioCore::new(channels, test_atpc(), -100, 0x0001, T0_US);
    assert!(matches!(
        core.transmission_check(1, T0_US + 1_000_000),
        Err(RadioError::MinChannelDelayError)
    ));
    assert!(core.transmission_check(1, T0_US + 5_000_000).is_ok());
}

#[test]
fn duty_window_resets_after_interval() {
    let p = DelayParams {
        duty_cycle_permille: 10,
        min_delay: 0,
        poll_delay: 100_000,
        duty_interval: 1_000_000,
    };
    let mut u = ChannelUsage::new(0);
    assert!(!u.duty_exceeded(&p, 0));
    u.credit(&p, 1, 400_000);
    assert_eq!(u.consumed, 400_000);
    // Within the interval the budget (10_000 us) is consumed.
    assert!(u.duty_exceeded(&p, 2));
    // Past the interval the check passes and the next credit restarts
    // the sum.
    assert!(!u.duty_exceeded(&p, 1 + 1_000_000));
    u.credit(&p, 1 + 1_000_000, 400_000);
    assert_eq!(u.consumed, 400_000);
    assert_eq!(u.last_use, 1 + 1_000_000);
}

// -- Reception ---------------------------------------------------------

#[test]
fn multi_slot_reception_reassembly() {
    let mut sender = new_core(0x0001);
    let mut receiver = new_core(0x0003);
    let payload = vec![0xA7_u8; 600];
    sender.queue(LoRaDestination::Unique(0x0003), &payload, false, T0_S).expect("queue");
    let plan = sender.transmit_prepare(T0_US).expect("prepare").expect("plan");
    assert_eq!(plan.slots.len(), 3);
    // The receiver inspects the lead slot and learns how many slots to
    // collect.
    let decision = receiver.classify_lead(&plan.slots[0]).expect("classify");
    assert_eq!(decision, Some(3));
    // Reassemble: strip each slot's discriminant byte and concatenate.
    let mut msg: Vec<u8> = Vec::new();
    for slot in &plan.slots {
        assert_eq!(slot[0], 1);
        msg.extend_from_slice(&slot[1..]);
    }
    let (delivered, events) = receiver.handle_message(&msg, 0).expect("handle");
    assert!(delivered);
    let received: Vec<_> = events
        .iter()
        .filter(|e| matches!(e, DeviceEvent::Received(..)))
        .collect();
    assert_eq!(received.len(), 1);
    match &received[0] {
        DeviceEvent::Received(from, body, nonce) => {
            assert_eq!(*from, 0x0001);
            assert_eq!(body, &payload);
            assert_eq!(*nonce, plan.nonce);
        },
        _ => unreachable!(),
    }
}

#[test]
fn uninterested_frames_are_ignored() {
    let mut sender = new_core(0x0001);
    let receiver = new_core(0x0042);
    sender.queue(LoRaDestination::Unique(0x0003), b"hi", false, T0_S).expect("queue");
    let plan = sender.transmit_prepare(T0_US).expect("prepare").expect("plan");
    // Not addressed to 0x0042.
    assert_eq!(receiver.classify_lead(&plan.slots[0]).expect("classify"), None);
    // Reserved discriminants are ignored.
    assert_eq!(receiver.classify_lead(&[0, 1, 2, 3]).expect("classify"), None);
    assert_eq!(receiver.classify_lead(&[]).expect("classify"), None);
}

#[test]
fn malformed_inbound_frame_is_an_error() {
    let mut core = new_core(0x0001);
    assert!(matches!(
        core.handle_message(&[1, 0], 0),
        Err(RadioError::FrameError(FrameError::InvalidHeader { .. }))
    ));
    assert!(matches!(
        core.classify_lead(&[1, 0]),
        Err(RadioError::FrameError(FrameError::InvalidHeader { .. }))
    ));
}

#[test]
fn reception_owes_acknowledgement_and_drains_it() {
    let mut core = new_core(0x0007);
    // An inbound frame requesting an acknowledgement leaves one owed.
    let bytes = inbound_frame(0x0009, 0x0007, true, 4242, vec![], vec![b"hi".to_vec()]);
    let (delivered, events) = core.handle_message(&bytes, -3).expect("handle");
    assert!(delivered);
    assert_eq!(events.len(), 1);
    assert!(matches!(&events[0], DeviceEvent::Received(0x0009, _, 4242)));
    // Draining it piggybacks the acknowledgement on the next frame.
    assert_eq!(core.queue_acknowledgements(T0_S).expect("queue acks"), true);
    let plan = core.transmit_prepare(T0_US).expect("prepare").expect("plan");
    let mut msg: Vec<u8> = Vec::new();
    for slot in &plan.slots {
        msg.extend_from_slice(&slot[1..]);
    }
    let (frame, _) = RadioFrameWithHeaders::try_from_bytes(&msg).expect("decode");
    assert_eq!(frame.acknowledgements.len(), 1);
    assert_eq!(frame.acknowledgements[0].0.get_address(), 0x0009);
    assert_eq!(frame.acknowledgements[0].1, 4242);
    assert_eq!(frame.acknowledgements[0].2, -3);
    // Nothing more to drain.
    assert_eq!(core.queue_acknowledgements(T0_S).expect("queue acks"), false);
}

#[test]
fn too_many_acknowledgements_reported() {
    let mut core = new_core(0x0007);
    // Seventeen owed acknowledgements to the same peer.
    for i in 0..17u64 {
        let bytes = inbound_frame(0x0009, 0x0007, true, 10_000 + i, vec![], vec![]);
        core.handle_message(&bytes, 0).expect("handle");
    }
    // The first drain takes sixteen.
    assert_eq!(core.queue_acknowledgements(T0_S).expect("queue acks"), true);
    // The outgoing list is full while one is still owed.
    assert!(matches!(
        core.queue_acknowledgements(T0_S),
        Err(QueueError::QueueFullError(RadioError::TooManyAcknowledgmentsError { count: 17 }))
    ));
}

#[test]
fn first_slot_overflow_reported() {
    let mut core = new_core(0x0007);
    // Sixteen owed acknowledgements to sixteen distinct peers: the
    // headers and the acknowledgement block no longer fit the lead
    // slot.
    for i in 0..16u64 {
        let bytes = inbound_frame(0x0100 + i as u16, 0x0007, true, 20_000 + i, vec![], vec![]);
        core.handle_message(&bytes, 0).expect("handle");
    }
    assert!(matches!(
        core.queue_acknowledgements(T0_S),
        Err(QueueError::DeviceError(RadioError::TooBigFirstFrameError { .. }))
    ));
}

// -- Acknowledgement tracking and the power control --------------------

#[test]
fn ack_timeout_propagation() {
    let mut core = new_core(0x0001);
    core.queue(LoRaDestination::Unique(0x0050), b"HELO!", true, T0_S).expect("queue");
    let nonce = transmit(&mut core, T0_US);
    assert!(nonce != 0);
    // Just before the deadline nothing fires.
    let early = core.expire_pending(T0_US + 59_999_999);
    assert!(early.is_empty());
    // At the deadline the failure fires exactly once, with the payload.
    let fired = core.expire_pending(T0_US + 60_000_000);
    assert_eq!(fired.len(), 1);
    match &fired[0] {
        DeviceEvent::TransmissionFailed(addr, n, payload) => {
            assert_eq!(*addr, 0x0050);
            assert_eq!(*n, nonce);
            assert_eq!(payload, &vec![0x48, 0x45, 0x4C, 0x4F, 0x21]);
        },
        _ => panic!("expected a failure notification"),
    }
    // And never again.
    assert!(core.expire_pending(T0_US + 61_000_000).is_empty());
    // The timeout nudged the neighbor's model: its intercept dropped
    // by thirty.
    let (status, model) = core.power_control().neighbor_state(0x0050).expect("neighbor");
    assert_eq!(status, NeighborStatus::Initializing);
    assert_eq!(model, ControlModel(0, -30));
}

#[test]
fn acknowledged_transmission_does_not_fire() {
    let mut core = new_core(0x0001);
    core.queue(LoRaDestination::Unique(0x0050), b"HELO!", true, T0_S).expect("queue");
    let nonce = transmit(&mut core, T0_US);
    // The peer acknowledges our frame before the deadline.
    let ack = inbound_frame(
        0x0050,
        0x0001,
        false,
        777,
        vec![(AddressHeader::new(0x0001, false), nonce, 4)],
        vec![],
    );
    let (_, events) = core.handle_message(&ack, 0).expect("handle");
    assert!(events
        .iter()
        .any(|e| matches!(e, DeviceEvent::TransmissionSuccessful(0x0050, n) if *n == nonce)));
    // The satisfied entry ages out silently.
    assert!(core.expire_pending(T0_US + 60_000_000).is_empty());
}

#[test]
fn beacon_round_updates_atpc() {
    // Powers in the beacon order of the round.
    let atpc = DefaultATPC::new(vec![10, 8, 6, 4, 2], 0, -100, 28_800_000_000, T0_US);
    let mut core = RadioCore::new(five_channels(), atpc, -100, 0x0001, T0_US);
    // Register the peer by queueing a flagged unicast to it.
    core.queue(LoRaDestination::Unique(0x0011), b"x", true, T0_S).expect("queue");
    assert!(core.is_beacon_needed(T0_US + 1));
    let beacons = core.beacon_prepare(T0_S, T0_US).expect("beacons");
    assert_eq!(beacons.len(), 5);
    let powers: Vec<i8> = beacons.iter().map(|b| b.0).collect();
    assert_eq!(powers, vec![10, 8, 6, 4, 2]);
    for b in &beacons {
        assert_eq!(b.1[0], 6);
    }
    // The peer answers every beacon with its measured deltas.
    let drssi = [-20i16, -25, -30, -35, -40];
    for (i, b) in beacons.iter().enumerate() {
        let ack = inbound_frame(
            0x0011,
            0x0001,
            false,
            30_000 + i as u64,
            vec![(AddressHeader::new(0x0001, false), b.2, drssi[i])],
            vec![],
        );
        core.handle_message(&ack, 0).expect("handle");
    }
    // The neighbor reached runtime state with the least-squares fit
    // over (10,-20) (8,-25) (6,-30) (4,-35) (2,-40).
    let (status, model) = core.power_control().neighbor_state(0x0011).expect("neighbor");
    assert_eq!(status, NeighborStatus::Runtime);
    assert_eq!(model, ControlModel(2, -45));
    // With the model fit, the smallest power predicted to reach the
    // target of -100 dBm is selected; here every power reaches it, so
    // the first of the list is used.
    assert!(!core.is_beacon_needed(T0_US + 2));
}
