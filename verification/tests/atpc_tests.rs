use radio_tipe_poc::atpc::{ControlModel, DefaultATPC, NeighborStatus, TestingATPC, ATPC};

fn atpc() -> DefaultATPC {
    // Ascending powers, default in the middle, target -100 dBm, one
    // beacon round every eight hours.
    DefaultATPC::new(vec![2, 4, 6, 8, 10], 2, -100, 28_800_000_000, 0)
}

#[test]
fn neighbor_registration_lifecycle() {
    let mut a = atpc();
    assert!(a.register_neighbor(0x0042));
    // Registering twice changes nothing.
    assert!(!a.register_neighbor(0x0042));
    let (status, model) = a.neighbor_state(0x0042).expect("registered");
    assert_eq!(status, NeighborStatus::Initializing);
    assert_eq!(model, ControlModel(0, 0));
    assert!(a.unregister_neighbor(0x0042));
    assert!(a.neighbor_state(0x0042).is_none());
    assert!(!a.unregister_neighbor(0x0042));
}

#[test]
fn unknown_and_initializing_peers_use_the_default_power() {
    let mut a = atpc();
    assert_eq!(a.get_tx_power(0x0042), 6);
    a.register_neighbor(0x0042);
    assert_eq!(a.get_tx_power(0x0042), 6);
}

#[test]
fn runtime_peer_uses_the_smallest_sufficient_power() {
    let mut a = atpc();
    a.register_neighbor(0x0042);
    // One beacon round with a noiseless linear channel
    // RSSI = 3 * TP - 118: samples at 2,4,6,8,10.
    for (tpi, tp) in [2i8, 4, 6, 8, 10].iter().enumerate() {
        let nonce = 100 + tpi as u64;
        a.register_beacon(tpi, nonce, 1);
        a.report_successful_reception(0x0042, nonce, 3 * (*tp as i16) - 118);
    }
    let (status, model) = a.neighbor_state(0x0042).expect("neighbor");
    assert_eq!(status, NeighborStatus::Runtime);
    assert_eq!(model, ControlModel(3, -118));
    // The smallest power with 3 * TP - 118 >= -100 is TP = 6.
    assert_eq!(a.get_tx_power(0x0042), 6);
}

#[test]
fn group_power_is_the_maximum_requirement() {
    let mut a = atpc();
    a.register_neighbor(0x0001);
    a.register_neighbor(0x0002);
    // 0x0001 needs TP 6 (RSSI = 3 TP - 118); 0x0002 needs TP 10
    // (RSSI = 3 TP - 129, smallest power at or above -100 is 10).
    for (tpi, tp) in [2i8, 4, 6, 8, 10].iter().enumerate() {
        let n1 = 200 + tpi as u64;
        a.register_beacon(tpi, n1, 1);
        a.report_successful_reception(0x0001, n1, 3 * (*tp as i16) - 118);
    }
    for (tpi, tp) in [2i8, 4, 6, 8, 10].iter().enumerate() {
        let n2 = 300 + tpi as u64;
        a.register_beacon(tpi, n2, 1);
        a.report_successful_reception(0x0002, n2, 3 * (*tp as i16) - 129);
    }
    let (tp, gated) = a.get_min_tx_power(vec![0x0001, 0x0002]);
    assert_eq!(tp, 10);
    assert_eq!(gated, vec![0x0002]);
    // An empty set falls back to the default power and gates nobody.
    let (tp0, gated0) = a.get_min_tx_power(vec![]);
    assert_eq!(tp0, 6);
    assert!(gated0.is_empty());
}

#[test]
fn runtime_feedback_shifts_the_intercept() {
    let mut a = atpc();
    a.register_neighbor(0x0042);
    // A non-beacon acknowledgement with a positive delta (signal under
    // target) lowers the intercept by the delta; the default power sits
    // under the top rail, so the adjustment applies.
    a.report_successful_reception(0x0042, 999_999, 7);
    let (_, model) = a.neighbor_state(0x0042).expect("neighbor");
    assert_eq!(model, ControlModel(0, -7));
    // A missed acknowledgement is a thirty-unit penalty the same way.
    a.report_failed_reception(0x0042);
    let (_, model) = a.neighbor_state(0x0042).expect("neighbor");
    assert_eq!(model, ControlModel(0, -37));
}

#[test]
fn beacon_scheduling_follows_the_delay_and_initializing_peers() {
    let mut a = DefaultATPC::new(vec![2, 4, 6], 0, -100, 1_000_000, 0);
    // No neighbor, delay not elapsed: no beacon.
    assert!(!a.is_beacon_needed(500_000));
    // Delay elapsed: beacon.
    assert!(a.is_beacon_needed(1_000_001));
    // An initializing neighbor forces a beacon even early.
    a.register_neighbor(0x0042);
    assert!(a.is_beacon_needed(1));
    // Registering a beacon restarts the timer.
    a.register_beacon(0, 4711, 2_000_000);
    assert_eq!(a.get_beacon_powers(), vec![2, 4, 6]);
}

#[test]
fn testing_atpc_cycles_through_the_powers() {
    let mut t = TestingATPC::new(vec![10, 8, 6]);
    assert!(!t.is_beacon_needed(0));
    assert!(t.get_beacon_powers().is_empty());
    assert!(t.register_neighbor(0x0001));
    assert_eq!(t.get_tx_power(0x0001), 10);
    assert_eq!(t.get_tx_power(0x0001), 8);
    assert_eq!(t.get_tx_power(0x0001), 6);
    assert_eq!(t.get_tx_power(0x0001), 10);
    let (tp, back) = t.get_min_tx_power(vec![0x0001, 0x0002]);
    assert_eq!(tp, 8);
    assert_eq!(back, vec![0x0001, 0x0002]);
}
