//! Adaptive Transmission Power Control interfaces and implementations.
//!
//! For each neighbor the control model approximates the RSSI seen on
//! the receiver end as `RSSI = a * TP + b` for a transmission power
//! `TP`.  Beacon rounds collect one RSSI sample per configured power
//! and the model is refit by ordinary least squares over the samples;
//! the fit is exact integer arithmetic, so a neighbor whose channel
//! really is linear (with integer coefficients) is recovered exactly.
//!
//! All times are in microseconds and come in as arguments: the caller
//! owns the clock.

use vstd::prelude::*;

use crate::frame::FrameNonce;
use crate::LoRaAddress;

verus! {

/// Model of the RSSI on the receiver end as a function of the
/// transmission power used by the transmitter:
/// `RSSI = a * TP + b` for `ControlModel(a, b)`.
#[derive(Copy, Clone, PartialEq, Eq, Structural, Debug)]
pub struct ControlModel(pub i16, pub i16);

/// Status of a neighbor for the adaptive power control.
#[derive(Copy, Clone, PartialEq, Eq, Structural, Debug)]
pub enum NeighborStatus {
    /// The neighbor has not yet answered our beacons (or only
    /// partially); its control model is not yet meaningful and the
    /// default transmission power is used.
    Initializing,
    /// The neighbor answered a beacon round; its control model was fit
    /// from the collected samples.
    Runtime,
}

/// Representation of a peer for the adaptive power control.
#[derive(Clone, Debug)]
pub struct NeighborModel {
    /// Address of this peer.
    pub node_address: LoRaAddress,
    /// Status of the peer.
    pub status: NeighborStatus,
    /// Dedicated control model for this particular node.
    pub control_model: ControlModel,
    /// RSSI responses, one sample per configured transmission power.
    pub rssi: Vec<i16>,
}

impl NeighborModel {
    /// Constructs a fresh neighbor model with one zeroed RSSI sample
    /// slot per configured transmission power.
    pub fn new(node_address: LoRaAddress, ntp: usize) -> (r: Self)
        ensures
            r.node_address == node_address,
            r.status == NeighborStatus::Initializing,
            r.control_model == (ControlModel(0, 0)),
            r.rssi@ == Seq::new(ntp as nat, |i: int| 0i16),
    {
        let mut rssi: Vec<i16> = Vec::new();
        let mut i: usize = 0;
        while i < ntp
            invariant
                i <= ntp,
                rssi@ == Seq::new(i as nat, |k: int| 0i16),
            decreases ntp - i,
        {
            rssi.push(0);
            proof {
                assert(rssi@ =~= Seq::new(i as nat + 1, |k: int| 0i16));
            }
            i = i + 1;
        }
        NeighborModel {
            node_address,
            status: NeighborStatus::Initializing,
            control_model: ControlModel(0, 0),
            rssi,
        }
    }
}

/// The RSSI the model predicts when transmitting at power `tp`.
pub open spec fn predicted(cm: ControlModel, tp: i8) -> int {
    cm.0 * tp + cm.1
}

// ---------------------------------------------------------------------
// Ordinary least squares over (transmission power, RSSI sample) pairs,
// in exact integer arithmetic.
// ---------------------------------------------------------------------

pub open spec fn sum_x(xs: Seq<i8>, i: int) -> int
    decreases xs.len() - i,
{
    if i < 0 || i >= xs.len() {
        0
    } else {
        xs[i] + sum_x(xs, i + 1)
    }
}

pub open spec fn sum_xx(xs: Seq<i8>, i: int) -> int
    decreases xs.len() - i,
{
    if i < 0 || i >= xs.len() {
        0
    } else {
        xs[i] * xs[i] + sum_xx(xs, i + 1)
    }
}

pub open spec fn sum_y(ys: Seq<i16>, i: int) -> int
    decreases ys.len() - i,
{
    if i < 0 || i >= ys.len() {
        0
    } else {
        ys[i] + sum_y(ys, i + 1)
    }
}

pub open spec fn sum_xy(xs: Seq<i8>, ys: Seq<i16>, i: int) -> int
    decreases xs.len() - i,
{
    if i < 0 || i >= xs.len() || xs.len() != ys.len() {
        0
    } else {
        xs[i] * ys[i] + sum_xy(xs, ys, i + 1)
    }
}

/// The least-squares denominator `n * Sxx - Sx^2`.
pub open spec fn fit_denom(xs: Seq<i8>) -> int {
    xs.len() * sum_xx(xs, 0) - sum_x(xs, 0) * sum_x(xs, 0)
}

/// The slope numerator `n * Sxy - Sx * Sy`.
pub open spec fn fit_a_num(xs: Seq<i8>, ys: Seq<i16>) -> int {
    xs.len() * sum_xy(xs, ys, 0) - sum_x(xs, 0) * sum_y(ys, 0)
}

/// The intercept numerator `Sy * Sxx - Sx * Sxy`.
pub open spec fn fit_b_num(xs: Seq<i8>, ys: Seq<i16>) -> int {
    sum_y(ys, 0) * sum_xx(xs, 0) - sum_x(xs, 0) * sum_xy(xs, ys, 0)
}

/// Division truncated towards zero, as the machine divides.
pub open spec fn div_tr(a: int, b: int) -> int {
    if b == 0 {
        0
    } else if a >= 0 && b > 0 {
        a / b
    } else if a < 0 && b > 0 {
        -((-a) / b)
    } else if a >= 0 {
        -(a / (-b))
    } else {
        (-a) / (-b)
    }
}

/// The least-squares fit `(a, b)`, or nothing when the powers are all
/// equal (degenerate denominator) or a coefficient leaves the sixteen
/// bit range of a control model.
pub open spec fn spec_fit(xs: Seq<i8>, ys: Seq<i16>) -> Option<(i16, i16)> {
    let d = fit_denom(xs);
    let qa = div_tr(fit_a_num(xs, ys), d);
    let qb = div_tr(fit_b_num(xs, ys), d);
    if d != 0 && i16::MIN <= qa <= i16::MAX && i16::MIN <= qb <= i16::MAX {
        Some((qa as i16, qb as i16))
    } else {
        None
    }
}

/// Truncated division is exact on exact multiples.
proof fn lemma_div_tr_mul(k: int, d: int)
    requires
        d != 0,
    ensures
        div_tr(k * d, d) == k,
{
    if d > 0 {
        if k >= 0 {
            assert(k * d >= 0) by (nonlinear_arith)
                requires
                    k >= 0,
                    d > 0,
            ;
            assert(k * d == d * k) by (nonlinear_arith);
            vstd::arithmetic::div_mod::lemma_div_multiples_vanish(k, d);
        } else {
            assert(k * d < 0) by (nonlinear_arith)
                requires
                    k < 0,
                    d > 0,
            ;
            assert(-(k * d) == d * (-k)) by (nonlinear_arith);
            vstd::arithmetic::div_mod::lemma_div_multiples_vanish(-k, d);
        }
    } else {
        if k >= 0 {
            assert(k * d <= 0) by (nonlinear_arith)
                requires
                    k >= 0,
                    d < 0,
            ;
            if k * d >= 0 {
                assert(k * d == 0);
                assert(k == 0) by (nonlinear_arith)
                    requires
                        k * d == 0,
                        d != 0,
                ;
                assert(div_tr(0, d) == -(0int / (-d)));
                assert(0int / (-d) == 0) by {
                    vstd::arithmetic::div_mod::lemma_div_multiples_vanish(0, -d);
                }
            } else {
                assert(k * d == -((-d) * k)) by (nonlinear_arith);
                vstd::arithmetic::div_mod::lemma_div_multiples_vanish(k, -d);
            }
        } else {
            assert(k * d > 0) by (nonlinear_arith)
                requires
                    k < 0,
                    d < 0,
            ;
            assert(k * d == (-d) * (-k)) by (nonlinear_arith);
            vstd::arithmetic::div_mod::lemma_div_multiples_vanish(-k, -d);
        }
    }
}

/// Over a noiseless linear channel the sums collapse to the ground
/// truth: `Sy = a Sx + b n` and `Sxy = a Sxx + b Sx`.
proof fn lemma_sums_linear(xs: Seq<i8>, ys: Seq<i16>, a: int, b: int, i: int)
    requires
        xs.len() == ys.len(),
        0 <= i <= xs.len(),
        forall|k: int| 0 <= k < xs.len() ==> ys[k] == a * xs[k] + b,
    ensures
        sum_y(ys, i) == a * sum_x(xs, i) + b * (xs.len() - i),
        sum_xy(xs, ys, i) == a * sum_xx(xs, i) + b * sum_x(xs, i),
    decreases xs.len() - i,
{
    if i < xs.len() {
        lemma_sums_linear(xs, ys, a, b, i + 1);
        assert(ys[i] == a * xs[i] + b);
        assert(a * (xs[i] + sum_x(xs, i + 1)) == a * xs[i] + a * sum_x(xs, i + 1))
            by (nonlinear_arith);
        assert(b * (xs.len() - i) == b + b * (xs.len() - i - 1)) by (nonlinear_arith);
        assert(xs[i] * ys[i] == a * (xs[i] * xs[i]) + b * xs[i]) by (nonlinear_arith)
            requires
                ys[i] == a * xs[i] + b,
        ;
        assert(a * (xs[i] * xs[i] + sum_xx(xs, i + 1)) == a * (xs[i] * xs[i]) + a * sum_xx(
            xs,
            i + 1,
        )) by (nonlinear_arith);
        assert(b * (xs[i] + sum_x(xs, i + 1)) == b * xs[i] + b * sum_x(xs, i + 1))
            by (nonlinear_arith);
    }
}

/// ATPC convergence: with a static linear ground truth
/// `RSSI(TP) = a * TP + b` and noiseless samples at every configured
/// power, one full refit recovers `(a, b)` exactly, so the model's
/// predicted RSSI agrees with the ground truth at every sample point.
pub proof fn lemma_atpc_convergence(xs: Seq<i8>, ys: Seq<i16>, a: int, b: int)
    requires
        xs.len() == ys.len(),
        fit_denom(xs) != 0,
        forall|k: int| 0 <= k < xs.len() ==> ys[k] == a * xs[k] + b,
        i16::MIN <= a <= i16::MAX,
        i16::MIN <= b <= i16::MAX,
    ensures
        spec_fit(xs, ys) == Some((a as i16, b as i16)),
        forall|k: int|
            0 <= k < xs.len() ==> predicted(ControlModel(a as i16, b as i16), xs[k]) == ys[k],
{
    let n = xs.len() as int;
    let sx = sum_x(xs, 0);
    let sy = sum_y(ys, 0);
    let sxx = sum_xx(xs, 0);
    let sxy = sum_xy(xs, ys, 0);
    let d = fit_denom(xs);
    lemma_sums_linear(xs, ys, a, b, 0);
    assert(fit_a_num(xs, ys) == a * d) by (nonlinear_arith)
        requires
            sy == a * sx + b * n,
            sxy == a * sxx + b * sx,
            fit_a_num(xs, ys) == n * sxy - sx * sy,
            d == n * sxx - sx * sx,
    ;
    assert(fit_b_num(xs, ys) == b * d) by (nonlinear_arith)
        requires
            sy == a * sx + b * n,
            sxy == a * sxx + b * sx,
            fit_b_num(xs, ys) == sy * sxx - sx * sxy,
            d == n * sxx - sx * sx,
    ;
    lemma_div_tr_mul(a, d);
    lemma_div_tr_mul(b, d);
}

/// Division truncated towards zero on machine words.
fn div_trunc(a: i64, b: i64) -> (r: i64)
    requires
        b != 0,
        a != i64::MIN,
        b != i64::MIN,
    ensures
        r as int == div_tr(a as int, b as int),
{
    let ua: u64 = if a < 0 {
        (-a) as u64
    } else {
        a as u64
    };
    let ub: u64 = if b < 0 {
        (-b) as u64
    } else {
        b as u64
    };
    let q = ua / ub;
    if (a < 0) != (b < 0) {
        -(q as i64)
    } else {
        q as i64
    }
}

/// Computes the least-squares fit over the configured powers and the
/// collected RSSI samples: exactly `spec_fit`.
fn fit_model(xs: &Vec<i8>, ys: &Vec<i16>) -> (r: Option<(i16, i16)>)
    requires
        xs@.len() == ys@.len(),
        xs@.len() <= 16,
    ensures
        r == spec_fit(xs@, ys@),
{
    let n = xs.len();
    let mut sx: i64 = 0;
    let mut sxx: i64 = 0;
    let mut sy: i64 = 0;
    let mut sxy: i64 = 0;
    let mut i: usize = 0;
    while i < n
        invariant
            i <= n,
            n == xs@.len() == ys@.len(),
            n <= 16,
            sx + sum_x(xs@, i as int) == sum_x(xs@, 0),
            sxx + sum_xx(xs@, i as int) == sum_xx(xs@, 0),
            sy + sum_y(ys@, i as int) == sum_y(ys@, 0),
            sxy + sum_xy(xs@, ys@, i as int) == sum_xy(xs@, ys@, 0),
            -(i as int) * 128 <= sx <= (i as int) * 128,
            0 <= sxx <= (i as int) * 16384,
            -(i as int) * 32768 <= sy <= (i as int) * 32768,
            -(i as int) * 4194304 <= sxy <= (i as int) * 4194304,
        decreases n - i,
    {
        let x = xs[i] as i64;
        let y = ys[i] as i64;
        proof {
            assert(0 <= x * x <= 16384) by (nonlinear_arith)
                requires
                    -128 <= x <= 127,
            ;
            assert(-4194304 <= x * y <= 4194304) by (nonlinear_arith)
                requires
                    -128 <= x <= 127,
                    -32768 <= y <= 32767,
            ;
            assert((i as int + 1) * 128 == (i as int) * 128 + 128) by (nonlinear_arith);
            assert((i as int + 1) * 16384 == (i as int) * 16384 + 16384) by (nonlinear_arith);
            assert((i as int + 1) * 32768 == (i as int) * 32768 + 32768) by (nonlinear_arith);
            assert((i as int + 1) * 4194304 == (i as int) * 4194304 + 4194304)
                by (nonlinear_arith);
        }
        sx = sx + x;
        sxx = sxx + x * x;
        sy = sy + y;
        sxy = sxy + x * y;
        i = i + 1;
    }
    let nn = n as i64;
    proof {
        assert(-16 * 2048 <= nn * sxx <= 16 * 262144 && -16 * 67108864 <= nn * sxy <= 16
            * 67108864 && -2048 * 2048 <= sx * sx <= 2048 * 2048 && -2048 * 524288 <= sx * sy
            <= 2048 * 524288 && -524288 * 262144 <= sy * sxx <= 524288 * 262144 && -2048
            * 67108864 <= sx * sxy <= 2048 * 67108864) by (nonlinear_arith)
            requires
                0 <= nn <= 16,
                -2048 <= sx <= 2048,
                0 <= sxx <= 262144,
                -524288 <= sy <= 524288,
                -67108864 <= sxy <= 67108864,
        ;
    }
    let d: i64 = nn * sxx - sx * sx;
    let an: i64 = nn * sxy - sx * sy;
    let bn: i64 = sy * sxx - sx * sxy;
    if d == 0 {
        return None;
    }
    let qa = div_trunc(an, d);
    let qb = div_trunc(bn, d);
    if qa < i16::MIN as i64 || qa > i16::MAX as i64 || qb < i16::MIN as i64 || qb > i16::MAX as i64
    {
        return None;
    }
    Some((qa as i16, qb as i16))
}

// ---------------------------------------------------------------------
// The beacon registry: recently emitted beacons, nonce to power index,
// kept in an outside least-recently-used cache.
// ---------------------------------------------------------------------

#[verifier::external_type_specification]
#[verifier::external_body]
#[verifier::reject_recursive_types(K)]
#[verifier::reject_recursive_types(V)]
#[verifier::reject_recursive_types(S)]
pub struct ExLruCache<K, V, S>(lru::LruCache<K, V, S>);

/// A beacon registry: maps the nonce of a recently emitted beacon to
/// the index of the transmission power it was sent at.
pub type BeaconCache = lru::LruCache<u64, u8, std::collections::hash_map::RandomState>;

/// The nonce-to-power-index mapping a beacon registry holds.
pub uninterp spec fn beacon_entries(c: BeaconCache) -> Map<u64, u8>;

/// The capacity a beacon registry was created with.
pub uninterp spec fn beacon_cap(c: BeaconCache) -> nat;

/// Relies on lru::LruCache::with_hasher: a fresh cache of the given
/// capacity holds nothing.
#[verifier::external_body]
fn beacon_cache_new(cap: usize) -> (r: BeaconCache)
    requires
        1 <= cap,
    ensures
        beacon_entries(r).dom() =~= Set::<u64>::empty(),
        beacon_cap(r) == cap,
{
    lru::LruCache::with_hasher(
        core::num::NonZeroUsize::new(cap).unwrap(),
        std::collections::hash_map::RandomState::new(),
    )
}

/// Relies on lru::LruCache::push: stores the pair, updating the value
/// if the key is present, else evicting the least-recently-used entry
/// when the cache is full; no other entry changes its value.
#[verifier::external_body]
fn beacon_cache_push(c: &mut BeaconCache, k: u64, v: u8)
    ensures
        beacon_cap(*final(c)) == beacon_cap(*old(c)),
        beacon_entries(*final(c)).contains_pair(k, v),
        beacon_entries(*final(c)).dom().subset_of(beacon_entries(*old(c)).dom().insert(k)),
        forall|k2: u64|
            #[trigger] beacon_entries(*final(c)).dom().contains(k2) && k2 != k ==> beacon_entries(
                *final(c),
            )[k2] == beacon_entries(*old(c))[k2],
{
    let _ = c.push(k, v);
}

/// Relies on lru::LruCache::get: returns the value stored under the
/// key (promoting the entry, which leaves the mapping unchanged).
#[verifier::external_body]
fn beacon_cache_get(c: &mut BeaconCache, k: u64) -> (r: Option<u8>)
    ensures
        beacon_entries(*final(c)) == beacon_entries(*old(c)),
        beacon_cap(*final(c)) == beacon_cap(*old(c)),
        r == (if beacon_entries(*old(c)).dom().contains(k) {
            Some(beacon_entries(*old(c))[k])
        } else {
            None::<u8>
        }),
{
    c.get(&k).copied()
}

// ---------------------------------------------------------------------
// The neighbor table: a bounded table in recency-of-registration
// order, oldest entry evicted at capacity (the bounded-memory,
// oldest-eviction requirement behind the neighbor cache).
// ---------------------------------------------------------------------

/// Capacity of the neighbor table.
pub const NEIGHBOR_CAPACITY: usize = 128;

/// The first neighbor of the table carrying this address, if any.
pub open spec fn find_nm(ns: Seq<NeighborModel>, addr: u16) -> Option<NeighborModel>
    decreases ns.len(),
{
    if ns.len() == 0 {
        None
    } else if ns[0].node_address == addr {
        Some(ns[0])
    } else {
        find_nm(ns.drop_first(), addr)
    }
}

/// No two neighbors share an address.
pub open spec fn distinct_addrs(ns: Seq<NeighborModel>) -> bool {
    forall|k: int, l: int|
        0 <= k < l < ns.len() ==> #[trigger] ns[k].node_address != #[trigger] ns[l].node_address
}

proof fn lemma_find_nm_cons(x: NeighborModel, ns: Seq<NeighborModel>, a: u16)
    ensures
        find_nm(seq![x] + ns, a) == (if x.node_address == a {
            Some(x)
        } else {
            find_nm(ns, a)
        }),
{
    assert((seq![x] + ns).drop_first() =~= ns);
    assert((seq![x] + ns)[0] == x);
}

proof fn lemma_find_nm_none(ns: Seq<NeighborModel>, a: u16)
    ensures
        (find_nm(ns, a) is None) <==> (forall|k: int|
            0 <= k < ns.len() ==> #[trigger] ns[k].node_address != a),
    decreases ns.len(),
{
    if ns.len() > 0 {
        lemma_find_nm_none(ns.drop_first(), a);
        assert(forall|k: int|
            1 <= k < ns.len() ==> #[trigger] ns[k] == ns.drop_first()[k - 1]);
    }
}

proof fn lemma_find_nm_drop_last(ns: Seq<NeighborModel>, a: u16)
    requires
        ns.len() > 0,
    ensures
        (find_nm(ns.drop_last(), a) is Some) ==> find_nm(ns, a) == find_nm(ns.drop_last(), a),
    decreases ns.len(),
{
    if ns.len() > 1 && !(ns[0].node_address == a) {
        assert(ns.drop_last()[0] == ns[0]);
        assert(ns.drop_last().drop_first() =~= ns.drop_first().drop_last());
        lemma_find_nm_drop_last(ns.drop_first(), a);
    }
}

proof fn lemma_find_nm_update(ns: Seq<NeighborModel>, i: int, m: NeighborModel, a: u16)
    requires
        0 <= i < ns.len(),
        ns[i].node_address == m.node_address,
        distinct_addrs(ns),
    ensures
        find_nm(ns.update(i, m), a) == (if m.node_address == a {
            Some(m)
        } else {
            find_nm(ns, a)
        }),
    decreases ns.len(),
{
    let upd = ns.update(i, m);
    if i == 0 {
        assert(upd[0] == m);
        assert(upd.drop_first() =~= ns.drop_first());
    } else {
        assert(upd[0] == ns[0]);
        if ns[0].node_address == a {
            assert(m.node_address != a);
        } else {
            assert(upd.drop_first() =~= ns.drop_first().update(i - 1, m));
            assert(distinct_addrs(ns.drop_first())) by {
                assert(forall|k: int|
                    0 <= k < ns.len() - 1 ==> #[trigger] ns.drop_first()[k] == ns[k + 1]);
            }
            lemma_find_nm_update(ns.drop_first(), i - 1, m, a);
        }
    }
}

proof fn lemma_find_nm_remove(ns: Seq<NeighborModel>, i: int, a: u16)
    requires
        0 <= i < ns.len(),
        distinct_addrs(ns),
    ensures
        find_nm(ns.remove(i), a) == (if ns[i].node_address == a {
            None
        } else {
            find_nm(ns, a)
        }),
    decreases ns.len(),
{
    let rem = ns.remove(i);
    if i == 0 {
        assert(rem =~= ns.drop_first());
        if ns[0].node_address == a {
            assert(forall|k: int|
                0 <= k < ns.drop_first().len() ==> #[trigger] ns.drop_first()[k].node_address
                    != a) by {
                assert(forall|k: int|
                    0 <= k < ns.len() - 1 ==> #[trigger] ns.drop_first()[k] == ns[k + 1]);
            }
            lemma_find_nm_none(ns.drop_first(), a);
        }
    } else {
        assert(rem[0] == ns[0]);
        if ns[0].node_address == a {
            assert(ns[i].node_address != a);
        } else {
            assert(rem.drop_first() =~= ns.drop_first().remove(i - 1));
            assert(distinct_addrs(ns.drop_first())) by {
                assert(forall|k: int|
                    0 <= k < ns.len() - 1 ==> #[trigger] ns.drop_first()[k] == ns[k + 1]);
            }
            lemma_find_nm_remove(ns.drop_first(), i - 1, a);
            assert(ns.drop_first()[i - 1] == ns[i]);
        }
    }
}

// ---------------------------------------------------------------------
// The adaptive power control interface and its implementations.
// ---------------------------------------------------------------------

/// Abstract representation of an Adaptive Transmission Power Control.
///
/// The driver consults it to pick the transmission power for each
/// outgoing frame, and feeds acknowledgement outcomes back into it.
/// Each implementation states what its operations do on its own
/// methods; the trait only fixes the operation surface and that every
/// operation preserves the implementation's well-formedness.
pub trait ATPC {
    /// The implementation's internal well-formedness.
    spec fn wf(&self) -> bool;

    /// Should the radio transmit beacons now?  Time is given by the
    /// caller, in microseconds.
    fn is_beacon_needed(&self, now_us: u64) -> bool
        requires
            self.wf(),
    ;

    /// The transmission powers to use for a beacon round (may be
    /// empty when the implementation does not use beacons).
    fn get_beacon_powers(&self) -> Vec<i8>
        requires
            self.wf(),
    ;

    /// Registers an emitted beacon under its nonce and power index.
    fn register_beacon(&mut self, tpi: usize, nonce: FrameNonce, now_us: u64)
        requires
            old(self).wf(),
        ensures
            final(self).wf(),
    ;

    /// Registers a neighbor the radio wants to transmit to.
    fn register_neighbor(&mut self, neighbor_addr: LoRaAddress) -> (r: bool)
        requires
            old(self).wf(),
        ensures
            final(self).wf(),
    ;

    /// Unregisters (forgets) a neighbor.
    fn unregister_neighbor(&mut self, neighbor_addr: LoRaAddress) -> (r: bool)
        requires
            old(self).wf(),
        ensures
            final(self).wf(),
    ;

    /// The transmission power needed for a particular neighbor.
    fn get_tx_power(&mut self, neighbor_addr: LoRaAddress) -> (r: i8)
        requires
            old(self).wf(),
        ensures
            final(self).wf(),
    ;

    /// The transmission power needed for a set of neighbors, and the
    /// subset actually gated by that power.
    fn get_min_tx_power(&mut self, neighbor_addrs: Vec<LoRaAddress>) -> (r: (i8, Vec<LoRaAddress>))
        requires
            old(self).wf(),
        ensures
            final(self).wf(),
    ;

    /// Reports an acknowledgement from a neighbor, with the delta
    /// between the receiver's RSSI target and what it measured.
    fn report_successful_reception(
        &mut self,
        neighbor_addr: LoRaAddress,
        nonce: FrameNonce,
        drssi: i16,
    )
        requires
            old(self).wf(),
        ensures
            final(self).wf(),
    ;

    /// Reports a missing acknowledgement from a neighbor.
    fn report_failed_reception(&mut self, neighbor_addr: LoRaAddress)
        requires
            old(self).wf(),
        ensures
            final(self).wf(),
    ;
}

/// Clamp to the sixteen-bit range of a control-model coefficient.
pub open spec fn clamp_i16(x: int) -> i16 {
    if x < i16::MIN {
        i16::MIN
    } else if x > i16::MAX {
        i16::MAX
    } else {
        x as i16
    }
}

/// The smallest configured power (in list order) whose predicted RSSI
/// reaches the threshold, or the last configured power.
pub open spec fn first_ok_tp(powers: Seq<i8>, lower: i16, cm: ControlModel, i: int) -> i8
    decreases powers.len() - i,
{
    if i < 0 || i >= powers.len() {
        powers[powers.len() - 1]
    } else if predicted(cm, powers[i]) >= lower {
        powers[i]
    } else {
        first_ok_tp(powers, lower, cm, i + 1)
    }
}

pub open spec fn max_i8(a: i8, b: i8) -> i8 {
    if a >= b {
        a
    } else {
        b
    }
}

/// Default implementation of the adaptive power control.
///
/// Neighbors are kept in a bounded table in registration order with
/// oldest eviction; recently emitted beacons are remembered in an
/// outside least-recently-used cache keyed by frame nonce.
pub struct DefaultATPC {
    /// Known peers, most recently registered first, at most
    /// [`NEIGHBOR_CAPACITY`] of them.
    neighbors: Vec<NeighborModel>,
    /// The transmission powers usable by the power control.
    transmission_powers: Vec<i8>,
    /// Index of the power used for unknown or initializing peers.
    default_tp: u8,
    /// The minimal RSSI the radio considers acceptable.
    lower_rssi: i16,
    /// Delay between beacon rounds (us).
    beacon_delay: u64,
    /// The latest transmitted beacons, nonce to power index.
    beacons: BeaconCache,
    /// Last time a beacon was transmitted (us).
    last_beacon: u64,
}

impl DefaultATPC {
    pub closed spec fn spec_powers(self) -> Seq<i8> {
        self.transmission_powers@
    }

    pub closed spec fn spec_default_power(self) -> i8 {
        self.transmission_powers@[self.default_tp as int]
    }

    pub closed spec fn spec_lower_rssi(self) -> i16 {
        self.lower_rssi
    }

    pub closed spec fn spec_beacon_delay(self) -> u64 {
        self.beacon_delay
    }

    pub closed spec fn spec_last_beacon(self) -> u64 {
        self.last_beacon
    }

    pub closed spec fn spec_beacons(self) -> Map<u64, u8> {
        beacon_entries(self.beacons)
    }

    pub closed spec fn spec_neighbors(self) -> Seq<NeighborModel> {
        self.neighbors@
    }

    /// The neighbor registered under this address, if any.
    pub open spec fn spec_neighbor(self, addr: u16) -> Option<NeighborModel> {
        find_nm(self.spec_neighbors(), addr)
    }

    /// The configuration is untouched.
    pub open spec fn same_config(pre: Self, post: Self) -> bool {
        &&& post.spec_powers() == pre.spec_powers()
        &&& post.spec_default_power() == pre.spec_default_power()
        &&& post.spec_lower_rssi() == pre.spec_lower_rssi()
        &&& post.spec_beacon_delay() == pre.spec_beacon_delay()
    }

    /// The transmission power the control selects for this address:
    /// for a neighbor in runtime state, the smallest configured power
    /// whose predicted RSSI reaches the threshold; for anyone else,
    /// the default power.
    pub open spec fn spec_tx_power(self, addr: u16) -> i8 {
        match self.spec_neighbor(addr) {
            Some(n) => {
                if n.status == NeighborStatus::Runtime {
                    first_ok_tp(self.spec_powers(), self.spec_lower_rssi(), n.control_model, 0)
                } else {
                    self.spec_default_power()
                }
            },
            None => self.spec_default_power(),
        }
    }

    /// The runtime adjustment: when the selected power is off the
    /// relevant rail, the model's intercept is decremented by the
    /// delta (clamped to the coefficient range); anything else is
    /// untouched.
    pub open spec fn update_rel(pre: Self, post: Self, addr: u16, delta: i16) -> bool {
        match pre.spec_neighbor(addr) {
            None => post.spec_neighbors() == pre.spec_neighbors(),
            Some(n) => {
                let tp = pre.spec_tx_power(addr);
                let apply = (delta > 0 && tp < pre.spec_powers()[pre.spec_powers().len() - 1])
                    || (delta < 0 && tp > pre.spec_powers()[0]);
                if apply {
                    &&& (post.spec_neighbor(addr) matches Some(m) && m.node_address == addr
                        && m.status == n.status && m.rssi@ == n.rssi@ && m.control_model.0
                        == n.control_model.0 && m.control_model.1 == clamp_i16(
                        n.control_model.1 - delta,
                    ))
                    &&& forall|a2: u16|
                        a2 != addr ==> post.spec_neighbor(a2) == pre.spec_neighbor(a2)
                } else {
                    post.spec_neighbors() == pre.spec_neighbors()
                }
            },
        }
    }

    /// Builds a new instance of the default power control.
    ///
    /// Times are in microseconds; `now_us` seeds the beacon timer.
    pub fn new(
        transmission_powers: Vec<i8>,
        default_tp: u8,
        lower_rssi: i16,
        beacon_delay_us: u64,
        now_us: u64,
    ) -> (r: Self)
        requires
            1 <= transmission_powers@.len() <= 16,
            (default_tp as int) < transmission_powers@.len(),
        ensures
            r.wf(),
            r.spec_powers() == transmission_powers@,
            r.spec_default_power() == transmission_powers@[default_tp as int],
            r.spec_lower_rssi() == lower_rssi,
            r.spec_beacon_delay() == beacon_delay_us,
            r.spec_last_beacon() == now_us,
            r.spec_neighbors().len() == 0,
            r.spec_beacons().dom() =~= Set::<u64>::empty(),
    {
        let cap = transmission_powers.len() + 1;
        let beacons = beacon_cache_new(cap);
        DefaultATPC {
            neighbors: Vec::new(),
            transmission_powers,
            default_tp,
            lower_rssi,
            beacon_delay: beacon_delay_us,
            beacons,
            last_beacon: now_us,
        }
    }

    /// Index of the neighbor registered under this address.
    fn find_neighbor(&self, addr: LoRaAddress) -> (r: Option<usize>)
        ensures
            match r {
                Some(i) => i < self.spec_neighbors().len() && self.spec_neighbors()[
                    i as int
                ].node_address == addr && self.spec_neighbor(addr) == Some(
                    self.spec_neighbors()[i as int],
                ),
                None => self.spec_neighbor(addr) is None,
            },
    {
        proof {
            assert(self.neighbors@.skip(0) =~= self.neighbors@);
        }
        let n = self.neighbors.len();
        let mut i: usize = 0;
        while i < n
            invariant
                i <= n,
                n == self.neighbors@.len(),
                find_nm(self.neighbors@, addr) == find_nm(self.neighbors@.skip(i as int), addr),
            decreases n - i,
        {
            proof {
                assert(self.neighbors@.skip(i as int)[0] == self.neighbors@[i as int]);
                assert(self.neighbors@.skip(i as int).drop_first() =~= self.neighbors@.skip(
                    i as int + 1,
                ));
            }
            if self.neighbors[i].node_address == addr {
                return Some(i);
            }
            i = i + 1;
        }
        proof {
            assert(self.neighbors@.skip(n as int) =~= Seq::<NeighborModel>::empty());
        }
        None
    }

    /// Registers a neighbor: a fresh initializing model is added in
    /// front, evicting the oldest registration at capacity.  Returns
    /// false (and changes nothing) when the address is already known.
    pub fn insert_neighbor(&mut self, addr: LoRaAddress) -> (r: bool)
        requires
            old(self).wf(),
        ensures
            final(self).wf(),
            Self::same_config(*old(self), *final(self)),
            final(self).spec_beacons() == old(self).spec_beacons(),
            final(self).spec_last_beacon() == old(self).spec_last_beacon(),
            r == (old(self).spec_neighbor(addr) is None),
            !r ==> *final(self) == *old(self),
            r ==> (final(self).spec_neighbor(addr) matches Some(m) && m.node_address == addr
                && m.status == NeighborStatus::Initializing && m.control_model == (ControlModel(
                0,
                0,
            )) && m.rssi@ == Seq::new(old(self).spec_powers().len(), |k: int| 0i16)),
            r && old(self).spec_neighbors().len() < NEIGHBOR_CAPACITY ==> forall|a2: u16|
                a2 != addr ==> final(self).spec_neighbor(a2) == old(self).spec_neighbor(a2),
            r ==> forall|a2: u16|
                a2 != addr ==> ((#[trigger] final(self).spec_neighbor(a2)) matches Some(_)
                    ==> final(self).spec_neighbor(a2) == old(self).spec_neighbor(a2)),
            r ==> final(self).spec_neighbors().len() as int == (if old(
                self,
            ).spec_neighbors().len() < NEIGHBOR_CAPACITY {
                old(self).spec_neighbors().len() as int + 1
            } else {
                NEIGHBOR_CAPACITY as int
            }),
            r ==> final(self).spec_neighbors()[0].node_address == addr,
            r ==> final(self).spec_neighbors().drop_first() == (if old(
                self,
            ).spec_neighbors().len() < NEIGHBOR_CAPACITY {
                old(self).spec_neighbors()
            } else {
                old(self).spec_neighbors().drop_last()
            }),
    {
        match self.find_neighbor(addr) {
            Some(_) => false,
            None => {
                let ghost ns0 = self.neighbors@;
                proof {
                    lemma_find_nm_none(ns0, addr);
                }
                let fresh = NeighborModel::new(addr, self.transmission_powers.len());
                let mut evicted = false;
                if self.neighbors.len() == NEIGHBOR_CAPACITY {
                    let _ = self.neighbors.pop();
                    evicted = true;
                }
                let ghost ns1 = self.neighbors@;
                proof {
                    assert(ns1 =~= if ns0.len() == NEIGHBOR_CAPACITY {
                        ns0.drop_last()
                    } else {
                        ns0
                    });
                }
                self.neighbors.insert(0, fresh);
                proof {
                    assert(self.neighbors@ =~= seq![fresh] + ns1);
                    assert forall|a2: u16| true implies #[trigger] find_nm(
                        seq![fresh] + ns1,
                        a2,
                    ) == (if a2 == addr {
                        Some(fresh)
                    } else {
                        find_nm(ns1, a2)
                    }) by {
                        lemma_find_nm_cons(fresh, ns1, a2);
                    }
                    assert forall|a2: u16|
                        a2 != addr && #[trigger] find_nm(ns1, a2) is Some implies find_nm(
                        ns1,
                        a2,
                    ) == find_nm(ns0, a2) by {
                        if ns0.len() == NEIGHBOR_CAPACITY {
                            lemma_find_nm_drop_last(ns0, a2);
                        }
                    }
                    assert forall|a2: u16|
                        a2 != addr && ns0.len() < NEIGHBOR_CAPACITY implies find_nm(ns1, a2)
                        == find_nm(ns0, a2) by {}
                    // Distinctness: the fresh address was absent, and the
                    // kept suffix was distinct already.
                    assert(forall|k: int|
                        0 <= k < ns1.len() ==> #[trigger] ns1[k].node_address != addr);
                    assert(distinct_addrs(seq![fresh] + ns1)) by {
                        assert(forall|k: int|
                            1 <= k < (seq![fresh] + ns1).len() ==> #[trigger] (seq![fresh]
                                + ns1)[k] == ns1[k - 1]);
                    }
                }
                true
            },
        }
    }

    /// Unregisters a neighbor; true when one was forgotten.
    pub fn remove_neighbor(&mut self, addr: LoRaAddress) -> (r: bool)
        requires
            old(self).wf(),
        ensures
            final(self).wf(),
            Self::same_config(*old(self), *final(self)),
            final(self).spec_beacons() == old(self).spec_beacons(),
            final(self).spec_last_beacon() == old(self).spec_last_beacon(),
            r == (old(self).spec_neighbor(addr) is Some),
            final(self).spec_neighbor(addr) is None,
            forall|a2: u16|
                a2 != addr ==> final(self).spec_neighbor(a2) == old(self).spec_neighbor(a2),
    {
        match self.find_neighbor(addr) {
            Some(i) => {
                let ghost ns0 = self.neighbors@;
                let _ = self.neighbors.remove(i);
                proof {
                    assert forall|a2: u16| true implies #[trigger] find_nm(
                        ns0.remove(i as int),
                        a2,
                    ) == (if a2 == addr {
                        None
                    } else {
                        find_nm(ns0, a2)
                    }) by {
                        lemma_find_nm_remove(ns0, i as int, a2);
                        if a2 != addr && ns0[i as int].node_address == a2 {
                        }
                    }
                    assert(distinct_addrs(ns0.remove(i as int))) by {
                        assert(forall|k: int|
                            0 <= k < ns0.len() - 1 ==> #[trigger] ns0.remove(i as int)[k] == (
                            if k < i as int {
                                ns0[k]
                            } else {
                                ns0[k + 1]
                            }));
                    }
                }
                true
            },
            None => {
                proof {
                    lemma_find_nm_none(self.neighbors@, addr);
                }
                false
            },
        }
    }

    /// The transmission power needed to reach this address, per the
    /// neighbor's control model (or the default power while the
    /// neighbor is unknown or still initializing).
    #[verifier::loop_isolation(false)]
    pub fn required_power(&self, addr: LoRaAddress) -> (r: i8)
        requires
            self.wf(),
        ensures
            r == self.spec_tx_power(addr),
    {
        match self.find_neighbor(addr) {
            Some(i) => {
                let st = self.neighbors[i].status;
                match st {
                    NeighborStatus::Runtime => {
                        let cm = self.neighbors[i].control_model;
                        let n = self.transmission_powers.len();
                        let mut k: usize = 0;
                        while k < n
                            invariant
                                k <= n,
                                n == self.transmission_powers@.len(),
                                first_ok_tp(
                                    self.transmission_powers@,
                                    self.lower_rssi,
                                    cm,
                                    0,
                                ) == first_ok_tp(
                                    self.transmission_powers@,
                                    self.lower_rssi,
                                    cm,
                                    k as int,
                                ),
                            decreases n - k,
                        {
                            let tp = self.transmission_powers[k];
                            proof {
                                assert(-(32768 * 128) <= (cm.0 as int) * (tp as int) <= 32768
                                    * 128) by (nonlinear_arith)
                                    requires
                                        -32768 <= cm.0 as int <= 32767,
                                        -128 <= tp as int <= 127,
                                ;
                            }
                            let pred: i32 = (cm.0 as i32) * (tp as i32) + (cm.1 as i32);
                            if pred >= self.lower_rssi as i32 {
                                return tp;
                            }
                            k = k + 1;
                        }
                        self.transmission_powers[n - 1]
                    },
                    NeighborStatus::Initializing => {
                        self.transmission_powers[self.default_tp as usize]
                    },
                }
            },
            None => self.transmission_powers[self.default_tp as usize],
        }
    }

    /// The maximum required power over a prefix of the address list.
    pub open spec fn spec_group_power(self, addrs: Seq<u16>, i: int) -> i8
        decreases i,
    {
        if i <= 1 {
            self.spec_tx_power(addrs[0])
        } else {
            max_i8(self.spec_group_power(addrs, i - 1), self.spec_tx_power(addrs[i - 1]))
        }
    }

    /// The power needed to reach a whole set of recipients (the
    /// maximum of the per-neighbor requirements, or the default power
    /// for nobody), together with the subset of recipients actually
    /// gated by that power: exactly those whose own requirement equals
    /// it.
    pub fn group_power(&self, addrs: &Vec<LoRaAddress>) -> (r: (i8, Vec<LoRaAddress>))
        requires
            self.wf(),
        ensures
            addrs@.len() == 0 ==> r.0 == self.spec_default_power() && r.1@.len() == 0,
            addrs@.len() > 0 ==> r.0 == self.spec_group_power(addrs@, addrs@.len() as int),
            forall|a: u16|
                #[trigger] r.1@.contains(a) <==> (addrs@.contains(a) && self.spec_tx_power(a)
                    == r.0),
    {
        let n = addrs.len();
        if n == 0 {
            let out: Vec<LoRaAddress> = Vec::new();
            return (self.transmission_powers[self.default_tp as usize], out);
        }
        let mut best = self.required_power(addrs[0]);
        let mut out: Vec<LoRaAddress> = Vec::new();
        out.push(addrs[0]);
        proof {
            assert(out@ =~= seq![addrs@[0]]);
            assert forall|a2: u16| #[trigger] out@.contains(a2) implies ((exists|k: int|
                0 <= k < 1 && addrs@[k] == a2) && self.spec_tx_power(a2) == best) by {
                let j = choose|j: int| 0 <= j < out@.len() && out@[j] == a2;
                assert(out@[0] == addrs@[0]);
                assert(addrs@[0] == a2);
            }
            assert forall|a2: u16|
                ((exists|k: int| 0 <= k < 1 && addrs@[k] == a2) && self.spec_tx_power(a2)
                    == best) implies #[trigger] out@.contains(a2) by {
                assert(out@[0] == a2);
            }
        }
        let mut i: usize = 1;
        while i < n
            invariant
                1 <= i <= n,
                n == addrs@.len(),
                self.wf(),
                best == self.spec_group_power(addrs@, i as int),
                forall|k: int| 0 <= k < i ==> self.spec_tx_power(#[trigger] addrs@[k]) <= best,
                forall|a: u16|
                    #[trigger] out@.contains(a) <==> ((exists|k: int|
                        0 <= k < i && addrs@[k] == a) && self.spec_tx_power(a) == best),
            decreases n - i,
        {
            let a = addrs[i];
            let tp = self.required_power(a);
            let ghost prev_out = out@;
            let ghost prev_best = best;
            if tp > best {
                let mut fresh: Vec<LoRaAddress> = Vec::new();
                fresh.push(a);
                out = fresh;
                best = tp;
                proof {
                    assert(out@ =~= seq![a]);
                }
            } else if tp == best {
                out.push(a);
            }
            proof {
                assert forall|a2: u16| #[trigger] out@.contains(a2) implies ((exists|k: int|
                    0 <= k < i + 1 && addrs@[k] == a2) && self.spec_tx_power(a2) == best) by {
                    let j = choose|j: int| 0 <= j < out@.len() && out@[j] == a2;
                    if tp > prev_best {
                        assert(out@[0] == a);
                        assert(a2 == a);
                        assert(addrs@[i as int] == a2);
                    } else if tp == prev_best {
                        if j < prev_out.len() {
                            assert(prev_out[j] == a2);
                            assert(prev_out.contains(a2));
                        } else {
                            assert(a2 == a);
                            assert(addrs@[i as int] == a2);
                        }
                    } else {
                        assert(prev_out.contains(a2));
                    }
                }
                assert forall|a2: u16|
                    ((exists|k: int| 0 <= k < i + 1 && addrs@[k] == a2) && self.spec_tx_power(a2)
                        == best) implies #[trigger] out@.contains(a2) by {
                    let k = choose|k: int| 0 <= k < i + 1 && addrs@[k] == a2;
                    if tp > prev_best {
                        if k < i {
                            assert(self.spec_tx_power(addrs@[k]) <= prev_best);
                            assert(false);
                        } else {
                            assert(a2 == a);
                            assert(out@[0] == a2);
                        }
                    } else {
                        if k < i {
                            assert(prev_out.contains(a2));
                            let j = choose|j: int| 0 <= j < prev_out.len() && prev_out[j] == a2;
                            assert(out@[j] == a2);
                        } else {
                            assert(a2 == a);
                            assert(self.spec_tx_power(a2) == tp);
                            assert(tp == best);
                            assert(out@[prev_out.len() as int] == a2);
                        }
                    }
                }
            }
            i = i + 1;
        }
        (best, out)
    }

    /// Records an emitted beacon: remembers its nonce under the power
    /// index it was sent at, and restarts the beacon timer.
    pub fn note_beacon(&mut self, tpi: usize, nonce: FrameNonce, now_us: u64)
        requires
            old(self).wf(),
        ensures
            final(self).wf(),
            Self::same_config(*old(self), *final(self)),
            final(self).spec_neighbors() == old(self).spec_neighbors(),
            final(self).spec_last_beacon() == now_us,
            (tpi as int) < old(self).spec_powers().len() ==> {
                &&& final(self).spec_beacons().contains_pair(nonce, tpi as u8)
                &&& final(self).spec_beacons().dom().subset_of(
                    old(self).spec_beacons().dom().insert(nonce),
                )
                &&& forall|k2: u64|
                    #[trigger] final(self).spec_beacons().dom().contains(k2) && k2 != nonce
                        ==> final(self).spec_beacons()[k2] == old(self).spec_beacons()[k2]
            },
            (tpi as int) >= old(self).spec_powers().len() ==> final(self).spec_beacons() == old(
                self,
            ).spec_beacons(),
    {
        self.last_beacon = now_us;
        if tpi < self.transmission_powers.len() {
            beacon_cache_push(&mut self.beacons, nonce, tpi as u8);
        }
    }

    /// Whether a beacon round is due: the beacon timer has run out,
    /// or some registered neighbor is still initializing.
    pub fn beacon_due(&self, now_us: u64) -> (r: bool)
        requires
            self.wf(),
        ensures
            r == (crate::channel::spec_elapsed(self.spec_last_beacon(), now_us)
                > self.spec_beacon_delay() || exists|k: int|
                0 <= k < self.spec_neighbors().len() && #[trigger] self.spec_neighbors()[k].status
                    == NeighborStatus::Initializing),
    {
        let elapsed: u64 = if now_us >= self.last_beacon {
            now_us - self.last_beacon
        } else {
            0
        };
        if elapsed > self.beacon_delay {
            return true;
        }
        let n = self.neighbors.len();
        let mut i: usize = 0;
        while i < n
            invariant
                i <= n,
                n == self.neighbors@.len(),
                forall|k: int|
                    0 <= k < i ==> #[trigger] self.neighbors@[k].status
                        != NeighborStatus::Initializing,
            decreases n - i,
        {
            match self.neighbors[i].status {
                NeighborStatus::Initializing => {
                    return true;
                },
                NeighborStatus::Runtime => {},
            }
            i = i + 1;
        }
        false
    }

    /// The transmission powers of a beacon round: all the configured
    /// powers, in list order.
    pub fn beacon_powers(&self) -> (r: Vec<i8>)
        ensures
            r@ == self.spec_powers(),
    {
        let n = self.transmission_powers.len();
        let mut out: Vec<i8> = Vec::new();
        let mut i: usize = 0;
        while i < n
            invariant
                i <= n,
                n == self.transmission_powers@.len(),
                out@ == self.transmission_powers@.take(i as int),
            decreases n - i,
        {
            out.push(self.transmission_powers[i]);
            proof {
                assert(out@ =~= self.transmission_powers@.take(i as int + 1));
            }
            i = i + 1;
        }
        proof {
            assert(out@ =~= self.transmission_powers@);
        }
        out
    }

    /// Updates the control model of a neighbor after feedback: when
    /// the selected power sits off the relevant rail, the intercept is
    /// decremented by the delta, shifting the predicted RSSI and so
    /// the required power.
    pub fn update_neighbor_model(&mut self, addr: LoRaAddress, delta: i16)
        requires
            old(self).wf(),
        ensures
            final(self).wf(),
            Self::same_config(*old(self), *final(self)),
            final(self).spec_beacons() == old(self).spec_beacons(),
            final(self).spec_last_beacon() == old(self).spec_last_beacon(),
            Self::update_rel(*old(self), *final(self), addr, delta),
    {
        let tp = self.required_power(addr);
        match self.find_neighbor(addr) {
            None => {},
            Some(i) => {
                let top = self.transmission_powers[self.transmission_powers.len() - 1];
                let bottom = self.transmission_powers[0];
                if (delta > 0 && tp < top) || (delta < 0 && tp > bottom) {
                    let ghost ns0 = self.neighbors@;
                    let mut n = self.neighbors.remove(i);
                    let nb32: i32 = (n.control_model.1 as i32) - (delta as i32);
                    let nb: i16 = if nb32 < i16::MIN as i32 {
                        i16::MIN
                    } else if nb32 > i16::MAX as i32 {
                        i16::MAX
                    } else {
                        nb32 as i16
                    };
                    n.control_model = ControlModel(n.control_model.0, nb);
                    self.neighbors.insert(i, n);
                    proof {
                        assert(self.neighbors@ =~= ns0.update(i as int, n));
                        assert forall|a2: u16| true implies #[trigger] find_nm(
                            ns0.update(i as int, n),
                            a2,
                        ) == (if a2 == addr {
                            Some(n)
                        } else {
                            find_nm(ns0, a2)
                        }) by {
                            lemma_find_nm_update(ns0, i as int, n, a2);
                        }
                        assert(distinct_addrs(ns0.update(i as int, n))) by {
                            assert(forall|k: int|
                                0 <= k < ns0.len() ==> #[trigger] ns0.update(
                                    i as int,
                                    n,
                                )[k].node_address == ns0[k].node_address);
                        }
                    }
                }
            },
        }
    }

    /// Feeds an acknowledgement into the model.  An acknowledgement of
    /// a beacon stores the reported delta as the RSSI sample of the
    /// power the beacon was sent at and refits the neighbor's model by
    /// least squares (promoting it to runtime state when the fit
    /// exists); any other acknowledgement runs the runtime adjustment
    /// with the reported delta.
    /// What feeding one acknowledgement does to the model state: the
    /// beacon path stores the sample and refits, any other
    /// acknowledgement runs the runtime adjustment.
    pub open spec fn ack_rel(pre: Self, post: Self, addr: u16, nonce: u64, drssi: i16) -> bool {
        let bm = pre.spec_beacons();
        if bm.dom().contains(nonce) {
            match pre.spec_neighbor(addr) {
                None => post.spec_neighbors() == pre.spec_neighbors(),
                Some(n) => {
                    &&& (post.spec_neighbor(addr) matches Some(m) && m.node_address == addr
                        && m.rssi@ == n.rssi@.update(bm[nonce] as int, drssi) && (match spec_fit(
                        pre.spec_powers(),
                        n.rssi@.update(bm[nonce] as int, drssi),
                    ) {
                        Some(ab) => m.control_model == (ControlModel(ab.0, ab.1)) && m.status
                            == NeighborStatus::Runtime,
                        None => m.control_model == n.control_model && m.status == n.status,
                    }))
                    &&& forall|a2: u16|
                        a2 != addr ==> post.spec_neighbor(a2) == pre.spec_neighbor(a2)
                },
            }
        } else {
            Self::update_rel(pre, post, addr, drssi)
        }
    }

    pub fn record_ack(&mut self, addr: LoRaAddress, nonce: FrameNonce, drssi: i16)
        requires
            old(self).wf(),
        ensures
            final(self).wf(),
            Self::same_config(*old(self), *final(self)),
            final(self).spec_beacons() == old(self).spec_beacons(),
            final(self).spec_last_beacon() == old(self).spec_last_beacon(),
            Self::ack_rel(*old(self), *final(self), addr, nonce, drssi),
    {
        let ghost pre = *self;
        let found = beacon_cache_get(&mut self.beacons, nonce);
        proof {
            assert(self.spec_neighbors() == pre.spec_neighbors());
            assert(self.spec_beacons() == pre.spec_beacons());
        }
        match found {
            Some(tpi) => {
                let t = tpi as usize;
                if t < self.transmission_powers.len() {
                    match self.find_neighbor(addr) {
                        Some(i) => {
                            let ghost ns0 = self.neighbors@;
                            let mut n = self.neighbors.remove(i);
                            n.rssi.set(t, drssi);
                            match fit_model(&self.transmission_powers, &n.rssi) {
                                Some((a, b)) => {
                                    n.control_model = ControlModel(a, b);
                                    n.status = NeighborStatus::Runtime;
                                },
                                None => {},
                            }
                            self.neighbors.insert(i, n);
                            proof {
                                assert(self.neighbors@ =~= ns0.update(i as int, n));
                                assert forall|a2: u16| true implies #[trigger] find_nm(
                                    ns0.update(i as int, n),
                                    a2,
                                ) == (if a2 == addr {
                                    Some(n)
                                } else {
                                    find_nm(ns0, a2)
                                }) by {
                                    lemma_find_nm_update(ns0, i as int, n, a2);
                                }
                                assert(distinct_addrs(ns0.update(i as int, n))) by {
                                    assert(forall|k: int|
                                        0 <= k < ns0.len() ==> #[trigger] ns0.update(
                                            i as int,
                                            n,
                                        )[k].node_address == ns0[k].node_address);
                                }
                            }
                        },
                        None => {},
                    }
                }
            },
            None => {
                let ghost mid = *self;
                self.update_neighbor_model(addr, drssi);
                proof {
                    assert(Self::update_rel(mid, *self, addr, drssi));
                    assert(mid.spec_neighbors() == pre.spec_neighbors());
                    assert(forall|a2: u16|
                        #[trigger] mid.spec_neighbor(a2) == pre.spec_neighbor(a2));
                    assert(mid.spec_tx_power(addr) == pre.spec_tx_power(addr));
                    assert(Self::update_rel(pre, *self, addr, drssi));
                }
            },
        }
    }

    /// Runs the runtime adjustment for a missing acknowledgement: the
    /// penalty stands for thirty decibel-milliwatts of missing signal,
    /// nudging the required power upward.
    pub fn record_timeout(&mut self, addr: LoRaAddress)
        requires
            old(self).wf(),
        ensures
            final(self).wf(),
            Self::same_config(*old(self), *final(self)),
            final(self).spec_beacons() == old(self).spec_beacons(),
            final(self).spec_last_beacon() == old(self).spec_last_beacon(),
            Self::update_rel(*old(self), *final(self), addr, 30),
    {
        self.update_neighbor_model(addr, 30);
    }

    /// The status and control model of a registered neighbor.
    pub fn neighbor_state(&self, addr: LoRaAddress) -> (r: Option<(NeighborStatus, ControlModel)>)
        ensures
            match self.spec_neighbor(addr) {
                Some(n) => r == Some((n.status, n.control_model)),
                None => r is None,
            },
    {
        match self.find_neighbor(addr) {
            Some(i) => Some((self.neighbors[i].status, self.neighbors[i].control_model)),
            None => None,
        }
    }
}

impl ATPC for DefaultATPC {
    closed spec fn wf(&self) -> bool {
        &&& 1 <= self.transmission_powers@.len() <= 16
        &&& (self.default_tp as int) < self.transmission_powers@.len()
        &&& self.neighbors@.len() <= NEIGHBOR_CAPACITY
        &&& distinct_addrs(self.neighbors@)
        &&& forall|k: int|
            0 <= k < self.neighbors@.len() ==> #[trigger] self.neighbors@[k].rssi@.len()
                == self.transmission_powers@.len()
        &&& forall|n: u64|
            #[trigger] beacon_entries(self.beacons).dom().contains(n) ==> (beacon_entries(
                self.beacons,
            )[n] as int) < self.transmission_powers@.len()
    }

    fn is_beacon_needed(&self, now_us: u64) -> bool {
        self.beacon_due(now_us)
    }

    fn get_beacon_powers(&self) -> Vec<i8> {
        self.beacon_powers()
    }

    fn register_beacon(&mut self, tpi: usize, nonce: FrameNonce, now_us: u64) {
        self.note_beacon(tpi, nonce, now_us)
    }

    fn register_neighbor(&mut self, neighbor_addr: LoRaAddress) -> (r: bool) {
        self.insert_neighbor(neighbor_addr)
    }

    fn unregister_neighbor(&mut self, neighbor_addr: LoRaAddress) -> (r: bool) {
        self.remove_neighbor(neighbor_addr)
    }

    fn get_tx_power(&mut self, neighbor_addr: LoRaAddress) -> (r: i8) {
        self.required_power(neighbor_addr)
    }

    fn get_min_tx_power(&mut self, neighbor_addrs: Vec<LoRaAddress>) -> (r: (i8, Vec<LoRaAddress>)) {
        self.group_power(&neighbor_addrs)
    }

    fn report_successful_reception(
        &mut self,
        neighbor_addr: LoRaAddress,
        nonce: FrameNonce,
        drssi: i16,
    ) {
        self.record_ack(neighbor_addr, nonce, drssi)
    }

    fn report_failed_reception(&mut self, neighbor_addr: LoRaAddress) {
        self.record_timeout(neighbor_addr)
    }
}

/// Testing implementation: cycles deterministically through the
/// configured powers, emits no beacons, and ignores feedback.
pub struct TestingATPC {
    /// The transmission powers usable by the power control.
    transmission_powers: Vec<i8>,
    /// Counter of transmissions, cycling through the power list.
    counter: usize,
}

impl TestingATPC {
    pub closed spec fn spec_powers(self) -> Seq<i8> {
        self.transmission_powers@
    }

    pub closed spec fn spec_counter(self) -> int {
        self.counter as int
    }

    /// Builds a new instance of the testing power control.
    pub fn new(transmission_powers: Vec<i8>) -> (r: Self)
        requires
            transmission_powers@.len() >= 1,
        ensures
            r.wf(),
            r.spec_powers() == transmission_powers@,
            r.spec_counter() == 0,
    {
        TestingATPC { transmission_powers, counter: 0 }
    }

    /// One step of the deterministic cycle: returns the power at the
    /// counter and advances the counter through the list, wrapping.
    pub fn cycle_power(&mut self) -> (r: i8)
        requires
            old(self).wf(),
        ensures
            final(self).wf(),
            r == old(self).spec_powers()[old(self).spec_counter()],
            final(self).spec_powers() == old(self).spec_powers(),
            final(self).spec_counter() == (old(self).spec_counter() + 1) % (old(
                self,
            ).spec_powers().len() as int),
    {
        let tp = self.transmission_powers[self.counter];
        let len = self.transmission_powers.len();
        self.counter = (self.counter + 1) % len;
        tp
    }
}

impl ATPC for TestingATPC {
    closed spec fn wf(&self) -> bool {
        1 <= self.transmission_powers@.len() && (self.counter as int)
            < self.transmission_powers@.len()
    }

    fn is_beacon_needed(&self, now_us: u64) -> bool {
        false
    }

    fn get_beacon_powers(&self) -> Vec<i8> {
        Vec::new()
    }

    fn register_beacon(&mut self, tpi: usize, nonce: FrameNonce, now_us: u64) {
    }

    fn register_neighbor(&mut self, neighbor_addr: LoRaAddress) -> (r: bool) {
        true
    }

    fn unregister_neighbor(&mut self, neighbor_addr: LoRaAddress) -> (r: bool) {
        true
    }

    fn get_tx_power(&mut self, neighbor_addr: LoRaAddress) -> (r: i8) {
        self.cycle_power()
    }

    fn get_min_tx_power(&mut self, neighbor_addrs: Vec<LoRaAddress>) -> (r: (i8, Vec<LoRaAddress>)) {
        (self.cycle_power(), neighbor_addrs)
    }

    fn report_successful_reception(
        &mut self,
        neighbor_addr: LoRaAddress,
        nonce: FrameNonce,
        drssi: i16,
    ) {
    }

    fn report_failed_reception(&mut self, neighbor_addr: LoRaAddress) {
    }
}

} // verus!
