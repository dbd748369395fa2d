//! The protocol core of the radio driver.
//!
//! This is the state machine that queues payloads, folds them into
//! aggregate frames, enforces the channel regulations, schedules
//! multi-slot transmissions, reassembles receptions, and routes
//! acknowledgements.  It is pure protocol state: the caller owns the
//! physical radio, performs the actual I/O (channel activity
//! detection, slot transmission and reception, delays), supplies the
//! clock, and dispatches the [`DeviceEvent`]s this core produces.

use vstd::prelude::*;

use vstd::pervasive::VecAdditionalExecFns;

use crate::atpc::{DefaultATPC, ATPC};
use crate::channel::{spec_elapsed, Channel, ChannelUsage, SLOT_TIME_US};
use crate::device::DeviceEvent;
use crate::frame::{
    acks_model, addr_part, dec_headers, enc_frame, has_bit, size_frame, size_payloads_from,
    AddressHeader, FrameError, FrameNonce, HeadersModel, InfoHeader, PayloadFlag,
    RadioFrameWithHeaders, RadioHeaders, RecipModel, RecipientHeader, ACKNOWLEDGMENT_BITMASK,
    ADDRESS_BITMASK, FRAME_TYPE_BEACON, FRAME_TYPE_MESSAGE, GLOBAL_ACKNOWLEDGMENT,
    GLOBAL_NO_ACKNOWLEDGMENT,
};
use crate::{LoRaAddress, LoRaDestination};

verus! {

/// Maximum length of a logical frame: five slots of protocol bytes.
pub const MAX_FRAME_LENGTH: usize = 1265;

/// Maximum usable length of one slot's protocol bytes (one byte of
/// each physical packet is the frame-type discriminant).
pub const MAX_LORA_PAYLOAD: usize = 253;

/// Maximum number of channel-activity probes before giving up.
pub const MAX_ATTEMPT_FREE_CHANNEL: usize = 25;

/// How long a transmitted frame waits for its acknowledgement (us).
pub const ACK_TIMEOUT_US: u64 = 60_000_000;

/// Capacity of the transmission history and of the pending
/// acknowledgement table: sixty seconds of history at one frame per
/// second.
pub const PENDING_CAPACITY: usize = 60;

/// Error representation of the radio driver.
#[derive(Debug)]
pub enum RadioError<R> {
    /// Frame is too big to be transmitted.
    TooBigFrameError { size: usize },
    /// The first slot (headers and acknowledgements) is too big.
    TooBigFirstFrameError { size: usize },
    /// Too many acknowledgements wait for one frame.
    TooManyAcknowledgmentsError { count: usize },
    /// The device missed the slot timing budget.
    OutOfSync,
    /// Zero, too many, or reserved recipients.
    InvalidRecipentsError,
    /// Malformed inbound byte stream.
    FrameError(FrameError),
    /// The radio is already transmitting.
    BusyDevice,
    /// No free channel was detected.
    BusyChannel,
    /// A needed channel has consumed its duty-cycle budget.
    DutyCycleConsumed,
    /// A needed channel was used too recently.
    MinChannelDelayError,
    /// Error of the underlying physical radio.
    InternalRadioError(R),
    /// Unknown radio error.
    Unknown,
}

/// Internal LoRa message representation: one queued payload and the
/// recipient words (address with acknowledgement bit) it goes to.
#[derive(Debug, Clone)]
pub struct LoRaMessage {
    /// Recipient words: fifteen address bits plus the flag bit.
    pub dest: Vec<u16>,
    /// The payload bytes.
    pub payload: Vec<u8>,
}

// ---------------------------------------------------------------------
// Recipient aggregation: fold the queued messages and pending
// acknowledgements into the recipient list of one frame, first
// appearance first.
// ---------------------------------------------------------------------

/// Whether payload `id` of the buffer is addressed to word `w`.
pub open spec fn dest_has(buffer: Seq<LoRaMessage>, w: u16, id: int) -> bool {
    0 <= id < buffer.len() && buffer[id].dest@.contains(w)
}

/// Whether word `w` occurs anywhere in the buffer or acknowledgements.
pub open spec fn word_used(
    buffer: Seq<LoRaMessage>,
    acks: Seq<(AddressHeader, FrameNonce, i16)>,
    w: u16,
) -> bool {
    (exists|id: int| dest_has(buffer, w, id)) || (exists|k: int|
        0 <= k < acks.len() && acks[k].0.0 == w)
}

/// Appends a word if it is new.
pub open spec fn add_word(ws: Seq<u16>, w: u16) -> Seq<u16> {
    if ws.contains(w) {
        ws
    } else {
        ws.push(w)
    }
}

/// The recipient words after folding one destination list.
pub open spec fn words_of_dest(ws: Seq<u16>, dest: Seq<u16>, j: int) -> Seq<u16>
    decreases dest.len() - j,
{
    if j < 0 || j >= dest.len() {
        ws
    } else {
        words_of_dest(add_word(ws, dest[j]), dest, j + 1)
    }
}

/// The recipient words after folding the message buffer.
pub open spec fn words_of_msgs(ws: Seq<u16>, buffer: Seq<LoRaMessage>, i: int) -> Seq<u16>
    decreases buffer.len() - i,
{
    if i < 0 || i >= buffer.len() {
        ws
    } else {
        words_of_msgs(words_of_dest(ws, buffer[i].dest@, 0), buffer, i + 1)
    }
}

/// The recipient words after folding the acknowledgement buffer.
pub open spec fn words_of_acks(
    ws: Seq<u16>,
    acks: Seq<(AddressHeader, FrameNonce, i16)>,
    k: int,
) -> Seq<u16>
    decreases acks.len() - k,
{
    if k < 0 || k >= acks.len() {
        ws
    } else {
        words_of_acks(add_word(ws, acks[k].0.0), acks, k + 1)
    }
}

/// The recipient words of a frame built from this buffer and these
/// acknowledgements, in order of first appearance.
pub open spec fn recip_words(
    buffer: Seq<LoRaMessage>,
    acks: Seq<(AddressHeader, FrameNonce, i16)>,
) -> Seq<u16> {
    words_of_acks(words_of_msgs(Seq::empty(), buffer, 0), acks, 0)
}

/// Total payload block size of the buffer (two length bytes plus the
/// body for each payload).
pub open spec fn payload_block_size(buffer: Seq<LoRaMessage>) -> int {
    size_payloads_from(buffer.map_values(|m: LoRaMessage| m.payload@), 0)
}

/// The byte-exact size the built frame will have: headers for the
/// recipient count, the acknowledgement block, and the payload block.
pub open spec fn built_recips_size(count: int) -> int {
    if count == 1 {
        3
    } else {
        1 + 4 * count
    }
}

pub open spec fn built_headers_size(count: int) -> int {
    built_recips_size(count) + 12
}

pub open spec fn built_frame_size(
    buffer: Seq<LoRaMessage>,
    acks: Seq<(AddressHeader, FrameNonce, i16)>,
) -> int {
    built_headers_size(recip_words(buffer, acks).len() as int) + 1 + 12 * acks.len()
        + payload_block_size(buffer)
}

/// The lead slot must carry the discriminant byte, the headers and
/// the whole acknowledgement block.
pub open spec fn built_lead_size(
    buffer: Seq<LoRaMessage>,
    acks: Seq<(AddressHeader, FrameNonce, i16)>,
) -> int {
    1 + built_headers_size(recip_words(buffer, acks).len() as int) + 1 + 12 * acks.len()
}

/// The payload views of the buffer.
pub open spec fn buffer_payloads(buffer: Seq<LoRaMessage>) -> Seq<Seq<u8>> {
    buffer.map_values(|m: LoRaMessage| m.payload@)
}

/// No two words of the list are equal.
pub open spec fn distinct_words(ws: Seq<u16>) -> bool {
    forall|k: int, l: int| 0 <= k < l < ws.len() ==> ws[k] != ws[l]
}

proof fn lemma_add_word(ws: Seq<u16>, w: u16, w2: u16)
    ensures
        add_word(ws, w).contains(w2) <==> (ws.contains(w2) || w2 == w),
        distinct_words(ws) ==> distinct_words(add_word(ws, w)),
        ws.contains(w2) ==> add_word(ws, w).contains(w2),
{
    if !ws.contains(w) {
        let p = ws.push(w);
        assert(p[ws.len() as int] == w);
        assert forall|x: u16| #[trigger] p.contains(x) implies (ws.contains(x) || x == w) by {
            let j = choose|j: int| 0 <= j < p.len() && p[j] == x;
            if j < ws.len() {
                assert(ws[j] == x);
            }
        }
        assert forall|x: u16| ws.contains(x) implies #[trigger] p.contains(x) by {
            let j = choose|j: int| 0 <= j < ws.len() && ws[j] == x;
            assert(p[j] == x);
        }
        if distinct_words(ws) {
            assert forall|k: int, l: int| 0 <= k < l < p.len() implies p[k] != p[l] by {
                if l == ws.len() as int {
                    assert(p[k] == ws[k]);
                    assert(!ws.contains(w));
                    if p[k] == w {
                        assert(ws[k] == w);
                        assert(ws.contains(w));
                    }
                }
            }
        }
    }
}

proof fn lemma_words_of_dest(ws: Seq<u16>, dest: Seq<u16>, j: int, w2: u16)
    requires
        0 <= j <= dest.len(),
    ensures
        words_of_dest(ws, dest, j).contains(w2) <==> (ws.contains(w2) || exists|t: int|
            j <= t < dest.len() && dest[t] == w2),
        distinct_words(ws) ==> distinct_words(words_of_dest(ws, dest, j)),
    decreases dest.len() - j,
{
    if j < dest.len() {
        lemma_add_word(ws, dest[j], w2);
        lemma_words_of_dest(add_word(ws, dest[j]), dest, j + 1, w2);
        if ws.contains(w2) || exists|t: int| j <= t < dest.len() && dest[t] == w2 {
            if !ws.contains(w2) && w2 != dest[j] {
                let t = choose|t: int| j <= t < dest.len() && dest[t] == w2;
                assert(j + 1 <= t < dest.len() && dest[t] == w2);
            }
        }
    }
}

proof fn lemma_words_of_msgs(ws: Seq<u16>, buffer: Seq<LoRaMessage>, i: int, w2: u16)
    requires
        0 <= i <= buffer.len(),
    ensures
        words_of_msgs(ws, buffer, i).contains(w2) <==> (ws.contains(w2) || exists|id: int|
            i <= id < buffer.len() && buffer[id].dest@.contains(w2)),
        distinct_words(ws) ==> distinct_words(words_of_msgs(ws, buffer, i)),
    decreases buffer.len() - i,
{
    if i < buffer.len() {
        lemma_words_of_dest(ws, buffer[i].dest@, 0, w2);
        lemma_words_of_msgs(words_of_dest(ws, buffer[i].dest@, 0), buffer, i + 1, w2);
        if ws.contains(w2) || exists|id: int|
            i <= id < buffer.len() && buffer[id].dest@.contains(w2) {
            if !ws.contains(w2) {
                let id = choose|id: int|
                    i <= id < buffer.len() && buffer[id].dest@.contains(w2);
                if id == i {
                    let t = choose|t: int|
                        0 <= t < buffer[i].dest@.len() && buffer[i].dest@[t] == w2;
                    assert(words_of_dest(ws, buffer[i].dest@, 0).contains(w2));
                }
            }
        }
    }
}

proof fn lemma_words_of_acks(
    ws: Seq<u16>,
    acks: Seq<(AddressHeader, FrameNonce, i16)>,
    k: int,
    w2: u16,
)
    requires
        0 <= k <= acks.len(),
    ensures
        words_of_acks(ws, acks, k).contains(w2) <==> (ws.contains(w2) || exists|t: int|
            k <= t < acks.len() && acks[t].0.0 == w2),
        distinct_words(ws) ==> distinct_words(words_of_acks(ws, acks, k)),
    decreases acks.len() - k,
{
    if k < acks.len() {
        lemma_add_word(ws, acks[k].0.0, w2);
        lemma_words_of_acks(add_word(ws, acks[k].0.0), acks, k + 1, w2);
        if ws.contains(w2) || exists|t: int| k <= t < acks.len() && acks[t].0.0 == w2 {
            if !ws.contains(w2) && w2 != acks[k].0.0 {
                let t = choose|t: int| k <= t < acks.len() && acks[t].0.0 == w2;
                assert(k + 1 <= t < acks.len() && acks[t].0.0 == w2);
            }
        }
    }
}

/// Membership in the aggregated recipient list is exactly use of the
/// word somewhere in the buffer or the acknowledgements.
pub proof fn lemma_recip_words(
    buffer: Seq<LoRaMessage>,
    acks: Seq<(AddressHeader, FrameNonce, i16)>,
    w: u16,
)
    ensures
        recip_words(buffer, acks).contains(w) <==> word_used(buffer, acks, w),
        distinct_words(recip_words(buffer, acks)),
{
    lemma_words_of_msgs(Seq::empty(), buffer, 0, w);
    lemma_words_of_acks(words_of_msgs(Seq::empty(), buffer, 0), acks, 0, w);
    assert(!Seq::<u16>::empty().contains(w));
    if exists|id: int| dest_has(buffer, w, id) {
        let id = choose|id: int| dest_has(buffer, w, id);
        assert(0 <= id < buffer.len() && buffer[id].dest@.contains(w));
    }
    if exists|id: int| 0 <= id < buffer.len() && buffer[id].dest@.contains(w) {
        let id = choose|id: int| 0 <= id < buffer.len() && buffer[id].dest@.contains(w);
        assert(dest_has(buffer, w, id));
    }
}

/// Finds a recipient word in the aggregation list.
fn find_word(entries: &Vec<(u16, PayloadFlag)>, w: u16) -> (r: Option<usize>)
    ensures
        match r {
            Some(j) => j < entries@.len() && entries@[j as int].0 == w,
            None => forall|k: int| 0 <= k < entries@.len() ==> (#[trigger] entries@[k]).0 != w,
        },
{
    let n = entries.len();
    let mut i: usize = 0;
    while i < n
        invariant
            i <= n,
            n == entries@.len(),
            forall|k: int| 0 <= k < i ==> (#[trigger] entries@[k]).0 != w,
        decreases n - i,
    {
        if entries[i].0 == w {
            return Some(i);
        }
        i = i + 1;
    }
    None
}

/// The words of the aggregation list.
pub open spec fn entry_words(es: Seq<(u16, PayloadFlag)>) -> Seq<u16> {
    es.map_values(|e: (u16, PayloadFlag)| e.0)
}

/// Whether word `w` was addressed by payload `id` within the part of
/// the buffer already folded: messages before `i` entirely, and the
/// first `j` destination words of message `i`.
pub open spec fn seen(buffer: Seq<LoRaMessage>, i: int, j: int, w: u16, id: int) -> bool {
    (0 <= id < i && id < buffer.len() && buffer[id].dest@.contains(w)) || (id == i && 0 <= i
        < buffer.len() && exists|t: int| 0 <= t < j && buffer[i].dest@[t] == w)
}

/// Builds the aggregate frame of a message buffer and an
/// acknowledgement buffer: recipients in order of first appearance,
/// payload flags marking exactly the payloads addressed to each
/// recipient, one direct recipient or a group of up to sixteen.
///
/// Fails, in this order of precedence, when nobody is addressed or
/// more than sixteen distinct recipients are (`InvalidRecipentsError`),
/// when the lead slot cannot hold the discriminant byte, the headers
/// and the acknowledgement block (`TooBigFirstFrameError`), or when
/// the whole frame exceeds five slots (`TooBigFrameError`).
#[verifier::loop_isolation(false)]
#[verifier::rlimit(50)]
fn build_frame(
    address: u16,
    buffer: &Vec<LoRaMessage>,
    acks: &Vec<(AddressHeader, FrameNonce, i16)>,
    nonce: u64,
) -> (r: Result<RadioFrameWithHeaders, RadioError<()>>)
    requires
        buffer@.len() <= 16,
        forall|k: int|
            0 <= k < buffer@.len() ==> (#[trigger] buffer@[k]).payload@.len()
                <= MAX_FRAME_LENGTH,
        acks@.len() <= 16,
    ensures
        ({
            let ws = recip_words(buffer@, acks@);
            match r {
                Ok(f) => {
                    &&& 1 <= ws.len() <= 16
                    &&& f.wf()
                    &&& f.model().headers.sender == address
                    &&& f.model().headers.nonce == nonce
                    &&& f.model().headers.payload_count as int == buffer@.len()
                    &&& f.model().payloads == buffer_payloads(buffer@)
                    &&& f.model().acks == acks_model(acks@)
                    &&& size_frame(f.model()) == built_frame_size(buffer@, acks@)
                    &&& built_frame_size(buffer@, acks@) <= MAX_FRAME_LENGTH
                    &&& built_lead_size(buffer@, acks@) <= 1 + MAX_LORA_PAYLOAD
                    &&& crate::frame::info_frames(f.model().headers.info) as int == (
                    built_frame_size(buffer@, acks@) + 252) / 253
                    &&& f.model().headers.info == crate::frame::info_pack(
                        if ws.len() > 15 {
                            15u8
                        } else {
                            ws.len() as u8
                        },
                        ((built_frame_size(buffer@, acks@) + 252) / 253) as u8,
                    )
                    &&& 1 <= (built_frame_size(buffer@, acks@) + 252) / 253 <= 5
                    &&& (match f.model().headers.recipients {
                        RecipModel::Direct(w) => ws.len() == 1 && w == ws[0],
                        RecipModel::Group(g) => {
                            &&& g.len() == ws.len() >= 2
                            &&& (forall|j: int| 0 <= j < g.len() ==> (#[trigger] g[j]).0 == ws[j])
                            &&& (forall|j: int, b: u8|
                                0 <= j < g.len() ==> (#[trigger] has_bit(g[j].1, b)
                                    <==> dest_has(buffer@, g[j].0, b as int)))
                        },
                    })
                },
                Err(e) => {
                    &&& (e is InvalidRecipentsError <==> (ws.len() == 0 || ws.len() > 16))
                    &&& (e is TooBigFirstFrameError <==> (1 <= ws.len() <= 16 && built_lead_size(
                        buffer@,
                        acks@,
                    ) > 1 + MAX_LORA_PAYLOAD))
                    &&& (e is TooBigFrameError <==> (1 <= ws.len() <= 16 && built_lead_size(
                        buffer@,
                        acks@,
                    ) <= 1 + MAX_LORA_PAYLOAD && built_frame_size(buffer@, acks@)
                        > MAX_FRAME_LENGTH))
                    &&& (e is InvalidRecipentsError || e is TooBigFirstFrameError
                        || e is TooBigFrameError)
                },
            }
        }),
{
    let ghost gbuf = buffer@;
    let ghost gacks = acks@;
    let mut entries: Vec<(u16, PayloadFlag)> = Vec::new();
    proof {
        assert(entry_words(entries@) =~= Seq::<u16>::empty());
    }
    let nb = buffer.len();
    let mut i: usize = 0;
    while i < nb
        invariant
            i <= nb,
            recip_words(gbuf, gacks) == words_of_acks(
                words_of_msgs(entry_words(entries@), gbuf, i as int),
                gacks,
                0,
            ),
            distinct_words(entry_words(entries@)),
            forall|e: int, b: u8|
                0 <= e < entries@.len() ==> (#[trigger] has_bit(entries@[e].1.0, b) <==> seen(
                    gbuf,
                    i as int,
                    0,
                    entries@[e].0,
                    b as int,
                )),
            forall|w2: u16, id: int|
                #[trigger] seen(gbuf, i as int, 0, w2, id) ==> entry_words(entries@).contains(
                    w2,
                ),
        decreases nb - i,
    {
        let dlen = buffer[i].dest.len();
        let mut j: usize = 0;
        while j < dlen
            invariant
                j <= dlen,
                i < nb,
                dlen == gbuf[i as int].dest@.len(),
                recip_words(gbuf, gacks) == words_of_acks(
                    words_of_msgs(
                        words_of_dest(entry_words(entries@), gbuf[i as int].dest@, j as int),
                        gbuf,
                        i as int + 1,
                    ),
                    gacks,
                    0,
                ),
                distinct_words(entry_words(entries@)),
                forall|e: int, b: u8|
                    0 <= e < entries@.len() ==> (#[trigger] has_bit(entries@[e].1.0, b)
                        <==> seen(gbuf, i as int, j as int, entries@[e].0, b as int)),
                forall|w2: u16, id: int|
                    #[trigger] seen(gbuf, i as int, j as int, w2, id) ==> entry_words(
                        entries@,
                    ).contains(w2),
            decreases dlen - j,
        {
            let w = buffer[i].dest[j];
            let ghost prev = entries@;
            match find_word(&entries, w) {
                Some(e) => {
                    let mut pf = entries[e].1;
                    pf.push(i as u8);
                    entries.set(e, (w, pf));
                    proof {
                        assert(entry_words(entries@) =~= entry_words(prev));
                        assert(entry_words(prev).contains(w)) by {
                            assert(entry_words(prev)[e as int] == w);
                        }
                        assert(add_word(entry_words(prev), w) == entry_words(prev));
                        assert forall|e2: int, b: u8|
                            0 <= e2 < entries@.len() implies (#[trigger] has_bit(
                            entries@[e2].1.0,
                            b,
                        ) <==> seen(gbuf, i as int, j as int + 1, entries@[e2].0, b as int)) by {
                            if e2 == e as int {
                                if b == i as u8 {
                                    assert(gbuf[i as int].dest@[j as int] == w);
                                    assert(seen(gbuf, i as int, j as int + 1, w, i as int));
                                }
                                if has_bit(entries@[e2].1.0, b) && b != i as u8 {
                                    assert(seen(gbuf, i as int, j as int, w, b as int));
                                }
                                if seen(gbuf, i as int, j as int + 1, w, b as int) && b != i
                                    as u8 {
                                    if b as int == i as int {
                                        assert(false);
                                    }
                                    assert(seen(gbuf, i as int, j as int, w, b as int));
                                }
                            } else {
                                assert(entries@[e2] == prev[e2]);
                                assert(entries@[e2].0 != w) by {
                                    assert(entry_words(prev)[e2] == prev[e2].0);
                                    assert(entry_words(prev)[e as int] == w);
                                }
                                assert forall|idq: int|
                                    seen(gbuf, i as int, j as int + 1, entries@[e2].0, idq)
                                        implies seen(
                                    gbuf,
                                    i as int,
                                    j as int,
                                    entries@[e2].0,
                                    idq,
                                ) by {
                                    if idq == i as int {
                                        let t = choose|t: int|
                                            0 <= t < j + 1 && gbuf[i as int].dest@[t]
                                                == entries@[e2].0;
                                        assert(t < j);
                                    }
                                }
                            }
                        }
                        assert forall|w2: u16, id: int|
                            #[trigger] seen(gbuf, i as int, j as int + 1, w2, id) implies
                            entry_words(entries@).contains(w2) by {
                            if id == i as int {
                                let t = choose|t: int|
                                    0 <= t < j + 1 && gbuf[i as int].dest@[t] == w2;
                                if t == j as int {
                                    assert(w2 == w);
                                    assert(entry_words(entries@)[e as int] == w);
                                } else {
                                    assert(seen(gbuf, i as int, j as int, w2, id));
                                }
                            } else {
                                assert(seen(gbuf, i as int, j as int, w2, id));
                            }
                        }
                    }
                },
                None => {
                    let mut pf = PayloadFlag(0);
                    pf.push(i as u8);
                    entries.push((w, pf));
                    proof {
                        assert(!entry_words(prev).contains(w)) by {
                            if entry_words(prev).contains(w) {
                                let q = choose|q: int|
                                    0 <= q < entry_words(prev).len() && entry_words(prev)[q]
                                        == w;
                                assert(prev[q].0 == w);
                            }
                        }
                        assert(entry_words(entries@) =~= entry_words(prev).push(w));
                        assert(entry_words(entries@) =~= add_word(entry_words(prev), w));
                        assert(distinct_words(entry_words(entries@))) by {
                            lemma_add_word(entry_words(prev), w, w);
                        }
                        assert forall|e2: int, b: u8|
                            0 <= e2 < entries@.len() implies (#[trigger] has_bit(
                            entries@[e2].1.0,
                            b,
                        ) <==> seen(gbuf, i as int, j as int + 1, entries@[e2].0, b as int)) by {
                            crate::frame::lemma_has_bit_zero(b);
                            if e2 == prev.len() as int {
                                assert(entries@[e2] == (w, pf));
                                if b == i as u8 {
                                    assert(gbuf[i as int].dest@[j as int] == w);
                                    assert(seen(gbuf, i as int, j as int + 1, w, i as int));
                                }
                                if b != i as u8 {
                                    assert(!has_bit(pf.0, b));
                                    if seen(gbuf, i as int, j as int + 1, w, b as int) {
                                        if b as int == i as int {
                                            assert(false);
                                        }
                                        assert(seen(gbuf, i as int, j as int, w, b as int));
                                        assert(entry_words(prev).contains(w));
                                        assert(false);
                                    }
                                }
                            } else {
                                assert(entries@[e2] == prev[e2]);
                                assert(entries@[e2].0 != w) by {
                                    if prev[e2].0 == w {
                                        assert(entry_words(prev)[e2] == w);
                                    }
                                }
                                assert forall|idq: int|
                                    seen(gbuf, i as int, j as int + 1, entries@[e2].0, idq)
                                        implies seen(
                                    gbuf,
                                    i as int,
                                    j as int,
                                    entries@[e2].0,
                                    idq,
                                ) by {
                                    if idq == i as int {
                                        let t = choose|t: int|
                                            0 <= t < j + 1 && gbuf[i as int].dest@[t]
                                                == entries@[e2].0;
                                        assert(t < j);
                                    }
                                }
                            }
                        }
                        assert forall|w2: u16, id: int|
                            #[trigger] seen(gbuf, i as int, j as int + 1, w2, id) implies
                            entry_words(entries@).contains(w2) by {
                            lemma_add_word(entry_words(prev), w, w2);
                            if id == i as int {
                                let t = choose|t: int|
                                    0 <= t < j + 1 && gbuf[i as int].dest@[t] == w2;
                                if t == j as int {
                                    assert(w2 == w);
                                } else {
                                    assert(seen(gbuf, i as int, j as int, w2, id));
                                }
                            } else {
                                assert(seen(gbuf, i as int, j as int, w2, id));
                            }
                        }
                    }
                },
            }
            j = j + 1;
        }
        proof {
            // Folding message i completely is the same as starting
            // message i + 1.
            assert forall|w2: u16, id: int|
                #![trigger seen(gbuf, i as int, dlen as int, w2, id)]
                #![trigger seen(gbuf, i as int + 1, 0, w2, id)]
                true implies (seen(gbuf, i as int, dlen as int, w2, id) <==> seen(
                gbuf,
                i as int + 1,
                0,
                w2,
                id,
            )) by {
                if seen(gbuf, i as int, dlen as int, w2, id) && id == i as int {
                    let t = choose|t: int|
                        0 <= t < dlen as int && gbuf[i as int].dest@[t] == w2;
                    assert(gbuf[i as int].dest@.contains(w2));
                }
                if seen(gbuf, i as int + 1, 0, w2, id) && id == i as int {
                    let t = choose|t: int|
                        0 <= t < gbuf[i as int].dest@.len() && gbuf[i as int].dest@[t] == w2;
                    assert(seen(gbuf, i as int, dlen as int, w2, id));
                }
            }
        }
        i = i + 1;
    }
    proof {
        assert forall|w2: u16, id: int| #[trigger] dest_has(gbuf, w2, id) implies seen(
            gbuf,
            nb as int,
            0,
            w2,
            id,
        ) by {}
        assert forall|w2: u16, id: int| #[trigger] seen(gbuf, nb as int, 0, w2, id) implies
            dest_has(gbuf, w2, id) by {}
    }
    // Acknowledged peers join the recipient list, with no payloads.
    let na = acks.len();
    let mut k: usize = 0;
    while k < na
        invariant
            k <= na,
            na == gacks.len(),
            recip_words(gbuf, gacks) == words_of_acks(entry_words(entries@), gacks, k as int),
            distinct_words(entry_words(entries@)),
            forall|e: int, b: u8|
                0 <= e < entries@.len() ==> (#[trigger] has_bit(entries@[e].1.0, b)
                    <==> dest_has(gbuf, entries@[e].0, b as int)),
            forall|w2: u16, id: int|
                #[trigger] dest_has(gbuf, w2, id) ==> entry_words(entries@).contains(w2),
        decreases na - k,
    {
        let w = acks[k].0.0;
        let ghost prev = entries@;
        match find_word(&entries, w) {
            Some(_) => {
                proof {
                    assert(entry_words(prev).contains(w)) by {
                        let e = choose|e: int| 0 <= e < prev.len() && prev[e].0 == w;
                        assert(entry_words(prev)[e] == w);
                    }
                    assert(add_word(entry_words(prev), w) == entry_words(prev));
                }
            },
            None => {
                entries.push((w, PayloadFlag(0)));
                proof {
                    assert(!entry_words(prev).contains(w)) by {
                        if entry_words(prev).contains(w) {
                            let q = choose|q: int|
                                0 <= q < entry_words(prev).len() && entry_words(prev)[q] == w;
                            assert(prev[q].0 == w);
                        }
                    }
                    assert(entry_words(entries@) =~= entry_words(prev).push(w));
                    assert(entry_words(entries@) =~= add_word(entry_words(prev), w));
                    lemma_add_word(entry_words(prev), w, w);
                    assert forall|e2: int, b: u8|
                        0 <= e2 < entries@.len() implies (#[trigger] has_bit(
                        entries@[e2].1.0,
                        b,
                    ) <==> dest_has(gbuf, entries@[e2].0, b as int)) by {
                        crate::frame::lemma_has_bit_zero(b);
                        if e2 == prev.len() as int {
                            if dest_has(gbuf, w, b as int) {
                                assert(entry_words(prev).contains(w));
                                assert(false);
                            }
                        } else {
                            assert(entries@[e2] == prev[e2]);
                        }
                    }
                    assert forall|w2: u16, id: int|
                        #[trigger] dest_has(gbuf, w2, id) implies entry_words(entries@).contains(
                        w2,
                    ) by {
                        lemma_add_word(entry_words(prev), w, w2);
                    }
                }
            },
        }
        k = k + 1;
    }
    let ghost ws = recip_words(gbuf, gacks);
    proof {
        assert(ws == entry_words(entries@));
        assert(ws.len() == entries@.len());
    }
    let count = entries.len();
    if count == 0 {
        return Err(RadioError::InvalidRecipentsError);
    }
    if count > 16 {
        return Err(RadioError::InvalidRecipentsError);
    }
    // Byte-exact sizes of the frame about to be built.
    let ghost pm = buffer_payloads(gbuf);
    let mut block: usize = 0;
    let mut t: usize = 0;
    while t < nb
        invariant
            t <= nb,
            block as int + size_payloads_from(pm, t as int) == payload_block_size(gbuf),
            block <= t * (MAX_FRAME_LENGTH + 2),
        decreases nb - t,
    {
        proof {
            assert(pm[t as int] == gbuf[t as int].payload@);
            assert((t + 1) * (MAX_FRAME_LENGTH + 2) == t * (MAX_FRAME_LENGTH + 2) + (
            MAX_FRAME_LENGTH + 2)) by (nonlinear_arith);
        }
        block = block + 2 + buffer[t].payload.len();
        t = t + 1;
    }
    let rsize: usize = if count == 1 {
        3
    } else {
        1 + 4 * count
    };
    let hsize = rsize + 12;
    let lead = 1 + hsize + 1 + 12 * acks.len();
    let total = hsize + 1 + 12 * acks.len() + block;
    if lead > 1 + MAX_LORA_PAYLOAD {
        return Err(RadioError::TooBigFirstFrameError { size: lead });
    }
    if total > MAX_FRAME_LENGTH {
        return Err(RadioError::TooBigFrameError { size: total });
    }
    let nframes = (total + 252) / 253;
    // Assemble the frame.
    let mut payloads: Vec<Vec<u8>> = Vec::new();
    let mut t2: usize = 0;
    while t2 < nb
        invariant
            t2 <= nb,
            payloads@.len() == t2,
            forall|q: int| 0 <= q < t2 ==> #[trigger] payloads@[q]@ == gbuf[q].payload@,
        decreases nb - t2,
    {
        payloads.push(clone_payload(&buffer[t2].payload));
        t2 = t2 + 1;
    }
    let mut ack_list: Vec<(AddressHeader, FrameNonce, i16)> = Vec::new();
    let mut t3: usize = 0;
    while t3 < na
        invariant
            t3 <= na,
            na == gacks.len(),
            ack_list@ == gacks.take(t3 as int),
        decreases na - t3,
    {
        ack_list.push(acks[t3]);
        proof {
            assert(ack_list@ =~= gacks.take(t3 as int + 1));
        }
        t3 = t3 + 1;
    }
    proof {
        assert(ack_list@ =~= gacks);
    }
    let recipients: RecipientHeader = if count == 1 {
        RecipientHeader::Direct(AddressHeader(entries[0].0))
    } else {
        let mut g: Vec<(AddressHeader, PayloadFlag)> = Vec::new();
        let mut t4: usize = 0;
        while t4 < count
            invariant
                t4 <= count,
                count == entries@.len(),
                g@.len() == t4,
                forall|q: int|
                    0 <= q < t4 ==> #[trigger] g@[q] == (
                    AddressHeader(entries@[q].0),
                    entries@[q].1,
                ),
            decreases count - t4,
        {
            g.push((AddressHeader(entries[t4].0), entries[t4].1));
            t4 = t4 + 1;
        }
        RecipientHeader::Group(g)
    };
    let cnt_nibble: u8 = if count > 15 {
        15
    } else {
        count as u8
    };
    let headers = RadioHeaders {
        rec_n_frames: InfoHeader::new(cnt_nibble, nframes as u8),
        recipients,
        payloads: nb as u8,
        sender: AddressHeader(address),
        nonce,
    };
    let f = RadioFrameWithHeaders { headers, acknowledgements: ack_list, payloads };
    proof {
        crate::frame::lemma_payloads_deep_view(&f.payloads);
        assert(f.model().payloads =~~= buffer_payloads(gbuf));
        assert(f.model().acks =~= acks_model(gacks));
        match f.model().headers.recipients {
            RecipModel::Direct(wd) => {
                assert(wd == ws[0]);
            },
            RecipModel::Group(g) => {
                assert(g.len() == ws.len());
                assert forall|q: int| 0 <= q < g.len() implies (#[trigger] g[q]).0 == ws[q]
                    && g[q].1 == entries@[q].1.0 by {
                    assert(entry_words(entries@)[q] == entries@[q].0);
                }
            },
        }
        assert(size_frame(f.model()) == built_frame_size(gbuf, gacks)) by {
            assert(f.model().payloads == buffer_payloads(gbuf));
            assert(size_payloads_from(f.model().payloads, 0) == payload_block_size(gbuf));
        }
        assert(crate::frame::info_frames(f.model().headers.info) as int == (built_frame_size(
            gbuf,
            gacks,
        ) + 252) / 253) by {
            assert(f.model().headers.info == crate::frame::info_pack(
                cnt_nibble,
                nframes as u8,
            ));
            assert(nframes <= 5);
            assert((nframes as u8) & 0x0F == nframes as u8) by (bit_vector)
                requires
                    nframes as u8 <= 5,
            ;
        }
    }
    Ok(f)
}

// ---------------------------------------------------------------------
// Nonce generation: (wall seconds << 16) | 16 random bits, forced
// strictly increasing per node.
// ---------------------------------------------------------------------

/// Relies on getrandom::getrandom: fills the buffer with random
/// bytes.  Nothing is assumed of the value; a failure of the source
/// leaves zeroes, which only weakens collision resistance.
#[verifier::external_body]
fn random_u16() -> u16 {
    let mut b = [0u8; 2];
    let _ = getrandom::getrandom(&mut b);
    u16::from_be_bytes(b)
}

/// The raw nonce candidate of a wall-clock second and a random
/// suffix.
pub open spec fn nonce_candidate(now_s: u64, rand: u16) -> u64 {
    ((now_s & 0xFFFF_FFFF_FFFF) << 16) | (rand as u64)
}

/// The nonce emitted given the last one: the candidate when it is
/// larger, else one past the last (saturating at the top of the
/// range).
pub open spec fn nonce_step(last: u64, cand: u64) -> u64 {
    if cand > last {
        cand
    } else if last < u64::MAX {
        (last + 1) as u64
    } else {
        last
    }
}

/// Nonce monotonicity: two successive nonces emitted by the same node
/// are strictly increasing, hence distinct, whatever the clock and
/// the random suffix did (as long as the generator has not saturated
/// its sixty-four bit range).
pub proof fn lemma_nonce_distinct(last: u64, c1: u64, c2: u64)
    requires
        last < u64::MAX,
        nonce_step(last, c1) < u64::MAX,
    ensures
        nonce_step(last, c1) > last,
        nonce_step(nonce_step(last, c1), c2) > nonce_step(last, c1),
        nonce_step(nonce_step(last, c1), c2) != nonce_step(last, c1),
{
}

/// The pending acknowledgement record of one transmitted frame and
/// one flagged recipient.
#[derive(Copy, Clone, Debug, PartialEq, Eq, Structural)]
pub struct PendingTxAck {
    /// The recipient the acknowledgement is expected from.
    pub recipient: AddressHeader,
    /// The nonce of the transmitted frame.
    pub nonce: FrameNonce,
    /// When the expectation expires (us).
    pub deadline_us: u64,
    /// Whether a missing acknowledgement should feed the power
    /// control (false for group members gated by someone farther).
    pub update_atpc: bool,
    /// Whether the acknowledgement already arrived.
    pub satisfied: bool,
}

/// Copies a payload.
fn clone_payload(p: &Vec<u8>) -> (r: Vec<u8>)
    ensures
        r@ == p@,
{
    let n = p.len();
    let mut out: Vec<u8> = Vec::new();
    let mut i: usize = 0;
    while i < n
        invariant
            i <= n,
            n == p@.len(),
            out@ == p@.take(i as int),
        decreases n - i,
    {
        out.push(p[i]);
        proof {
            assert(out@ =~= p@.take(i as int + 1));
        }
        i = i + 1;
    }
    proof {
        assert(out@ =~= p@);
    }
    out
}


/// Whether the word list contains the given word.
fn contains_word(v: &Vec<u16>, w: u16) -> (r: bool)
    ensures
        r == v@.contains(w),
{
    let n = v.len();
    let mut i: usize = 0;
    while i < n
        invariant
            i <= n,
            n == v@.len(),
            forall|k: int| 0 <= k < i ==> v@[k] != w,
        decreases n - i,
    {
        if v[i] == w {
            return true;
        }
        i = i + 1;
    }
    false
}

/// The transmission plan of a prepared frame: the per-channel slots
/// (discriminant byte included), the selected power, the recipients
/// gated by it, and the frame nonce.
pub struct TxPlan {
    /// One byte vector per slot, slot `i` for channel `i`.
    pub slots: Vec<Vec<u8>>,
    /// The transmission power to program.
    pub tx_power: i8,
    /// The recipients whose requirement equals the selected power.
    pub gated: Vec<LoRaAddress>,
    /// The nonce of the frame.
    pub nonce: FrameNonce,
}

/// Copies a byte slice into a fresh vector.
fn clone_slice(p: &[u8]) -> (r: Vec<u8>)
    ensures
        r@ == p@,
{
    let n = p.len();
    let mut out: Vec<u8> = Vec::new();
    let mut i: usize = 0;
    while i < n
        invariant
            i <= n,
            n == p@.len(),
            out@ == p@.take(i as int),
        decreases n - i,
    {
        out.push(p[i]);
        proof {
            assert(out@ =~= p@.take(i as int + 1));
        }
        i = i + 1;
    }
    proof {
        assert(out@ =~= p@);
    }
    out
}

// ---------------------------------------------------------------------
// The protocol core.
// ---------------------------------------------------------------------

/// The protocol state of the radio driver, generic over the physical
/// channel descriptor `C` (which the core only stores; the caller
/// programs the radio with it).
pub struct RadioCore<C> {
    /// The configured radio channels, slot `i` travels on channel `i`.
    channels: Vec<Channel<C>>,
    /// Per-channel usage ledger enforcing the regulations.
    channel_usages: Vec<ChannelUsage>,
    /// The RSSI level that allows good reception by the radio.
    rssi_target: i16,
    /// The adaptive transmission power control.
    atpc: DefaultATPC,
    /// Queue of messages to aggregate into the next frame.
    tx_buffer: Vec<LoRaMessage>,
    /// Queue of acknowledgements to piggyback on the next frame.
    tx_buf_acknowledgments: Vec<(AddressHeader, FrameNonce, i16)>,
    /// The prepared aggregate frame, if any.
    tx_frame: Option<RadioFrameWithHeaders>,
    /// Recently transmitted frames, for retransmission on failure.
    tx_history: Vec<RadioFrameWithHeaders>,
    /// Acknowledgements we owe to received frames.
    pending_rx_acknowledgments: Vec<(AddressHeader, FrameNonce, i16)>,
    /// Acknowledgements we await, with deadline.
    pending_tx_acknowledgments: Vec<PendingTxAck>,
    /// The last nonce this node emitted.
    last_nonce: u64,
    /// The address of this device.
    address: LoRaAddress,
}

/// The faults the per-channel regulation check can report, in check
/// order.
pub enum ChannelFault {
    /// The duty-cycle budget is consumed.
    Duty,
    /// The minimum inter-transmission delay has not elapsed.
    MinDelay,
}

impl<C> RadioCore<C> {
    pub closed spec fn spec_channels(self) -> Seq<Channel<C>> {
        self.channels@
    }

    pub closed spec fn spec_usages(self) -> Seq<ChannelUsage> {
        self.channel_usages@
    }

    pub closed spec fn spec_atpc(self) -> DefaultATPC {
        self.atpc
    }

    pub closed spec fn spec_buffer(self) -> Seq<LoRaMessage> {
        self.tx_buffer@
    }

    pub closed spec fn spec_buf_acks(self) -> Seq<(AddressHeader, FrameNonce, i16)> {
        self.tx_buf_acknowledgments@
    }

    pub closed spec fn spec_frame(self) -> Option<RadioFrameWithHeaders> {
        self.tx_frame
    }

    pub closed spec fn spec_history(self) -> Seq<RadioFrameWithHeaders> {
        self.tx_history@
    }

    pub closed spec fn spec_pending_rx(self) -> Seq<(AddressHeader, FrameNonce, i16)> {
        self.pending_rx_acknowledgments@
    }

    pub closed spec fn spec_pending_tx(self) -> Seq<PendingTxAck> {
        self.pending_tx_acknowledgments@
    }

    pub closed spec fn spec_last_nonce(self) -> u64 {
        self.last_nonce
    }

    pub closed spec fn spec_address(self) -> u16 {
        self.address
    }

    pub closed spec fn spec_rssi_target(self) -> i16 {
        self.rssi_target
    }

    /// Well-formedness of the whole driver state.
    pub open spec fn wf(self) -> bool {
        &&& 1 <= self.spec_channels().len()
        &&& self.spec_usages().len() == self.spec_channels().len()
        &&& forall|k: int|
            0 <= k < self.spec_channels().len() ==> crate::channel::wf_params(
                (#[trigger] self.spec_channels()[k]).delay,
            )
        &&& forall|k: int|
            0 <= k < self.spec_usages().len() ==> (#[trigger] self.spec_usages()[k]).wf(
                self.spec_channels()[k].delay,
            )
        &&& self.spec_atpc().wf()
        &&& self.spec_buffer().len() <= 16
        &&& forall|k: int|
            0 <= k < self.spec_buffer().len() ==> (#[trigger] self.spec_buffer()[
                k
            ]).payload@.len() <= MAX_FRAME_LENGTH
        &&& self.spec_buf_acks().len() <= 16
        &&& self.spec_history().len() <= PENDING_CAPACITY
        &&& self.spec_pending_tx().len() <= PENDING_CAPACITY
        &&& (match self.spec_frame() {
            Some(f) => {
                &&& f.wf()
                &&& size_frame(f.model()) <= MAX_FRAME_LENGTH
                &&& crate::frame::info_frames(f.model().headers.info) as int == (size_frame(
                    f.model(),
                ) + 252) / 253
                &&& 1 <= crate::frame::info_frames(f.model().headers.info) <= 5
            },
            None => true,
        })
    }


    /// All driver state equal except possibly the device address.
    pub open spec fn eq_except_address(a: Self, b: Self) -> bool {
        &&& a.spec_channels() == b.spec_channels()
        &&& a.spec_usages() == b.spec_usages()
        &&& a.spec_rssi_target() == b.spec_rssi_target()
        &&& a.spec_atpc() == b.spec_atpc()
        &&& a.spec_buffer() == b.spec_buffer()
        &&& a.spec_buf_acks() == b.spec_buf_acks()
        &&& a.spec_frame() == b.spec_frame()
        &&& a.spec_history() == b.spec_history()
        &&& a.spec_pending_rx() == b.spec_pending_rx()
        &&& a.spec_pending_tx() == b.spec_pending_tx()
        &&& a.spec_last_nonce() == b.spec_last_nonce()
    }

    /// All driver state equal except possibly the channel ledgers.
    pub open spec fn eq_except_usages(a: Self, b: Self) -> bool {
        &&& a.spec_channels() == b.spec_channels()
        &&& a.spec_rssi_target() == b.spec_rssi_target()
        &&& a.spec_atpc() == b.spec_atpc()
        &&& a.spec_buffer() == b.spec_buffer()
        &&& a.spec_buf_acks() == b.spec_buf_acks()
        &&& a.spec_frame() == b.spec_frame()
        &&& a.spec_history() == b.spec_history()
        &&& a.spec_pending_rx() == b.spec_pending_rx()
        &&& a.spec_pending_tx() == b.spec_pending_tx()
        &&& a.spec_last_nonce() == b.spec_last_nonce()
        &&& a.spec_address() == b.spec_address()
    }

    /// All driver state equal except possibly the nonce generator.
    pub open spec fn eq_except_nonce(a: Self, b: Self) -> bool {
        &&& a.spec_channels() == b.spec_channels()
        &&& a.spec_usages() == b.spec_usages()
        &&& a.spec_rssi_target() == b.spec_rssi_target()
        &&& a.spec_atpc() == b.spec_atpc()
        &&& a.spec_buffer() == b.spec_buffer()
        &&& a.spec_buf_acks() == b.spec_buf_acks()
        &&& a.spec_frame() == b.spec_frame()
        &&& a.spec_history() == b.spec_history()
        &&& a.spec_pending_rx() == b.spec_pending_rx()
        &&& a.spec_pending_tx() == b.spec_pending_tx()
        &&& a.spec_address() == b.spec_address()
    }

    /// Initializes the protocol core.
    pub fn new(
        channels: Vec<Channel<C>>,
        atpc: DefaultATPC,
        rssi_target: i16,
        address: LoRaAddress,
        now_us: u64,
    ) -> (r: Self)
        requires
            1 <= channels@.len(),
            forall|k: int|
                0 <= k < channels@.len() ==> crate::channel::wf_params(
                    (#[trigger] channels@[k]).delay,
                ),
            atpc.wf(),
        ensures
            r.wf(),
            r.spec_channels() == channels@,
            r.spec_atpc() == atpc,
            r.spec_address() == address,
            r.spec_rssi_target() == rssi_target,
            r.spec_buffer().len() == 0,
            r.spec_buf_acks().len() == 0,
            r.spec_frame() is None,
            r.spec_history().len() == 0,
            r.spec_pending_rx().len() == 0,
            r.spec_pending_tx().len() == 0,
    {
        let n = channels.len();
        let mut usages: Vec<ChannelUsage> = Vec::new();
        let mut i: usize = 0;
        while i < n
            invariant
                i <= n,
                usages@.len() == i,
                forall|k: int|
                    0 <= k < i ==> (#[trigger] usages@[k]) == (ChannelUsage {
                        last_use: now_us,
                        consumed: 0,
                    }),
            decreases n - i,
        {
            usages.push(ChannelUsage { last_use: now_us, consumed: 0 });
            i = i + 1;
        }
        let r = RadioCore {
            channels,
            channel_usages: usages,
            rssi_target,
            atpc,
            tx_buffer: Vec::new(),
            tx_buf_acknowledgments: Vec::new(),
            tx_frame: None,
            tx_history: Vec::new(),
            pending_rx_acknowledgments: Vec::new(),
            pending_tx_acknowledgments: Vec::new(),
            last_nonce: 0,
            address,
        };
        proof {
            assert forall|k: int| 0 <= k < r.spec_usages().len() implies (
            #[trigger] r.spec_usages()[k]).wf(r.spec_channels()[k].delay) by {
                assert(r.spec_usages()[k].consumed == 0);
                assert(r.spec_usages()[k].consumed * 1000 == 0);
                let p = r.spec_channels()[k].delay;
                assert(p.duty_cycle_permille * p.duty_interval >= 0) by (nonlinear_arith)
                    requires
                        p.duty_cycle_permille > 0,
                        p.duty_interval > 0,
                ;
            }
        }
        r
    }

    /// Registers this device with a new address.
    pub fn set_address(&mut self, address: LoRaAddress)
        ensures
            final(self).spec_address() == address,
            Self::eq_except_address(*old(self), *final(self)),
    {
        self.address = address;
    }

    /// Retrieves the current registered address of this device.
    pub fn get_address(&self) -> (r: LoRaAddress)
        ensures
            r == self.spec_address(),
    {
        self.address
    }

    /// The channel configured for slot `i`.
    pub fn channel_at(&self, i: usize) -> (r: &Channel<C>)
        requires
            (i as int) < self.spec_channels().len(),
        ensures
            *r == self.spec_channels()[i as int],
    {
        &self.channels[i]
    }

    /// How many channels are configured.
    pub fn channel_count(&self) -> (r: usize)
        ensures
            r as int == self.spec_channels().len(),
    {
        self.channels.len()
    }

    /// Emits the next frame nonce: wall-clock seconds shifted left by
    /// sixteen bits plus a random suffix, forced strictly above the
    /// previous nonce of this node.
    fn next_nonce(&mut self, now_s: u64) -> (r: u64)
        ensures
            Self::eq_except_nonce(*old(self), *final(self)),
            r == final(self).spec_last_nonce(),
            exists|rand: u16|
                r == nonce_step(old(self).spec_last_nonce(), nonce_candidate(now_s, rand)),
            old(self).spec_last_nonce() < u64::MAX ==> r > old(self).spec_last_nonce(),
            r >= old(self).spec_last_nonce(),
    {
        let rand = random_u16();
        let cand: u64 = ((now_s & 0xFFFF_FFFF_FFFF) << 16) | (rand as u64);
        if cand > self.last_nonce {
            self.last_nonce = cand;
        } else if self.last_nonce < u64::MAX {
            self.last_nonce = self.last_nonce + 1;
        }
        proof {
            assert(self.last_nonce == nonce_step(old(self).last_nonce, nonce_candidate(
                now_s,
                rand,
            )));
        }
        self.last_nonce
    }

    /// The first regulation fault among the first `k` channels.
    pub open spec fn spec_channel_fault(self, i: int, k: int, now: u64) -> Option<ChannelFault>
        decreases k - i,
    {
        if i < 0 || i >= k || i >= self.spec_usages().len() || i >= self.spec_channels().len() {
            None
        } else if crate::channel::spec_duty_exceeded(
            self.spec_usages()[i],
            self.spec_channels()[i].delay,
            now,
        ) {
            Some(ChannelFault::Duty)
        } else if crate::channel::spec_min_delay_violated(
            self.spec_usages()[i],
            self.spec_channels()[i].delay,
            now,
        ) {
            Some(ChannelFault::MinDelay)
        } else {
            self.spec_channel_fault(i + 1, k, now)
        }
    }

    /// Checks that the first `nframes` channels may transmit now:
    /// their duty-cycle budget is not consumed and their minimum
    /// inter-transmission delay has elapsed.
    #[verifier::loop_isolation(false)]
    pub fn transmission_check(&self, nframes: usize, now_us: u64) -> (r: Result<
        (),
        RadioError<()>,
    >)
        requires
            self.wf(),
            nframes as int <= self.spec_channels().len(),
        ensures
            match r {
                Ok(()) => self.spec_channel_fault(0, nframes as int, now_us) is None,
                Err(e) => {
                    &&& (e is DutyCycleConsumed <==> self.spec_channel_fault(
                        0,
                        nframes as int,
                        now_us,
                    ) == Some(ChannelFault::Duty))
                    &&& (e is MinChannelDelayError <==> self.spec_channel_fault(
                        0,
                        nframes as int,
                        now_us,
                    ) == Some(ChannelFault::MinDelay))
                    &&& (e is DutyCycleConsumed || e is MinChannelDelayError)
                },
            },
    {
        let mut i: usize = 0;
        while i < nframes
            invariant
                i <= nframes,
                self.spec_channel_fault(0, nframes as int, now_us) == self.spec_channel_fault(
                    i as int,
                    nframes as int,
                    now_us,
                ),
            decreases nframes - i,
        {
            let p = self.channels[i].delay;
            let u = self.channel_usages[i];
            if u.duty_exceeded(&p, now_us) {
                return Err(RadioError::DutyCycleConsumed);
            }
            if u.min_delay_violated(&p, now_us) {
                return Err(RadioError::MinChannelDelayError);
            }
            i = i + 1;
        }
        Ok(())
    }

    /// Credits one slot of on-air time to channel `idx` after its
    /// transmission, restarting the duty window when it has elapsed.
    pub fn record_slot(&mut self, idx: usize, now_us: u64) -> (r: Result<(), RadioError<()>>)
        requires
            old(self).wf(),
        ensures
            final(self).wf(),
            match r {
                Ok(()) => {
                    &&& (idx as int) < old(self).spec_channels().len()
                    &&& !crate::channel::spec_duty_exceeded(
                        old(self).spec_usages()[idx as int],
                        old(self).spec_channels()[idx as int].delay,
                        now_us,
                    )
                    &&& final(self).spec_usages() == old(self).spec_usages().update(
                        idx as int,
                        crate::channel::spec_credit(
                            old(self).spec_usages()[idx as int],
                            old(self).spec_channels()[idx as int].delay,
                            now_us,
                            SLOT_TIME_US,
                        ),
                    )
                    &&& Self::eq_except_usages(*old(self), *final(self))
                },
                Err(e) => {
                    &&& *final(self) == *old(self)
                    &&& (e is Unknown <==> (idx as int) >= old(self).spec_channels().len())
                    &&& (e is DutyCycleConsumed <==> ((idx as int) < old(
                        self,
                    ).spec_channels().len() && crate::channel::spec_duty_exceeded(
                        old(self).spec_usages()[idx as int],
                        old(self).spec_channels()[idx as int].delay,
                        now_us,
                    )))
                    &&& (e is Unknown || e is DutyCycleConsumed)
                },
            },
    {
        if idx >= self.channels.len() {
            return Err(RadioError::Unknown);
        }
        let p = self.channels[idx].delay;
        let mut u = self.channel_usages[idx];
        if u.duty_exceeded(&p, now_us) {
            return Err(RadioError::DutyCycleConsumed);
        }
        u.credit(&p, now_us, SLOT_TIME_US);
        self.channel_usages.set(idx, u);
        Ok(())
    }

    /// The recipient words a destination expands to: the global word,
    /// a single address, or every member of a group, each with the
    /// acknowledgement bit when requested.
    pub open spec fn spec_dest_words(dest: LoRaDestination, ack: bool) -> Seq<u16> {
        match dest {
            LoRaDestination::Global => if ack {
                seq![GLOBAL_ACKNOWLEDGMENT]
            } else {
                seq![GLOBAL_NO_ACKNOWLEDGMENT]
            },
            LoRaDestination::Unique(a) => seq![crate::frame::with_ack(a, ack)],
            LoRaDestination::Group(v) => v@.map_values(
                |a: u16| crate::frame::with_ack(a, ack),
            ),
        }
    }

    /// Adds the given payload as a packet to the internal queue and
    /// rebuilds the pending aggregate frame.
    ///
    /// A payload over the frame capacity, a sixteenth-plus message, or
    /// an aggregate that no longer fits five slots is rejected with a
    /// `QueueFullError` and leaves the queue untouched (the caller
    /// drains with a transmission and retries); more than forty-eight
    /// recipients in one call is a `QueueFullError` over
    /// `InvalidRecipentsError`; a lead slot overflow or an empty
    /// recipient expansion is a `DeviceError`.
    pub fn queue(
        &mut self,
        dest: LoRaDestination,
        payload: &[u8],
        ack: bool,
        now_s: u64,
    ) -> (r: Result<(), crate::device::QueueError<RadioError<()>>>)
        requires
            old(self).wf(),
        ensures
            final(self).wf(),
            final(self).spec_channels() == old(self).spec_channels(),
            final(self).spec_usages() == old(self).spec_usages(),
            final(self).spec_history() == old(self).spec_history(),
            final(self).spec_pending_rx() == old(self).spec_pending_rx(),
            final(self).spec_pending_tx() == old(self).spec_pending_tx(),
            final(self).spec_address() == old(self).spec_address(),
            final(self).spec_rssi_target() == old(self).spec_rssi_target(),
            crate::atpc::DefaultATPC::same_config(old(self).spec_atpc(), final(self).spec_atpc()),
            final(self).spec_buf_acks() == old(self).spec_buf_acks(),
            final(self).spec_last_nonce() >= old(self).spec_last_nonce(),
            // Only a flagged unicast or group call registers peers with
            // the power control.
            !ack || dest is Global ==> final(self).spec_atpc() == old(self).spec_atpc(),
            (ack && !(dest is Global) && old(self).spec_atpc().spec_neighbors().len()
                + Self::spec_dest_words(dest, ack).len() <= crate::atpc::NEIGHBOR_CAPACITY)
                ==> forall|t: int|
                0 <= t < Self::spec_dest_words(dest, ack).len()
                    ==> (#[trigger] final(self).spec_atpc().spec_neighbor(
                    addr_part(Self::spec_dest_words(dest, ack)[t]),
                )) is Some,
            match r {
                Ok(()) => {
                    &&& (exists|rand: u16|
                        final(self).spec_last_nonce() == nonce_step(
                            old(self).spec_last_nonce(),
                            nonce_candidate(now_s, rand),
                        ))
                    &&& final(self).spec_buffer().len() == old(self).spec_buffer().len() + 1
                    &&& final(self).spec_buffer().take(old(self).spec_buffer().len() as int)
                        == old(self).spec_buffer()
                    &&& final(self).spec_buffer().last().dest@ == Self::spec_dest_words(
                        dest,
                        ack,
                    )
                    &&& final(self).spec_buffer().last().payload@ == payload@
                    &&& (final(self).spec_frame() matches Some(f) && {
                        &&& f.wf()
                        &&& f.model().headers.sender == old(self).spec_address()
                        &&& f.model().headers.nonce == final(self).spec_last_nonce()
                        &&& f.model().payloads == buffer_payloads(final(self).spec_buffer())
                        &&& f.model().acks == acks_model(old(self).spec_buf_acks())
                        &&& size_frame(f.model()) == built_frame_size(
                            final(self).spec_buffer(),
                            old(self).spec_buf_acks(),
                        )
                        &&& size_frame(f.model()) <= MAX_FRAME_LENGTH
                    })
                    &&& (old(self).spec_last_nonce() < u64::MAX ==> final(self).spec_last_nonce() > old(self).spec_last_nonce())
                },
                Err(e) => ({
                    let words = Self::spec_dest_words(dest, ack);
                    &&& final(self).spec_buffer() == old(self).spec_buffer()
                    &&& final(self).spec_frame() == old(self).spec_frame()
                    // The error kind names the cause, in guard order.
                    &&& ((e matches crate::device::QueueError::QueueFullError(q1) && q1
                        is InvalidRecipentsError) <==> words.len() > 48)
                    &&& (words.len() <= 48 && (payload@.len() > MAX_FRAME_LENGTH || old(
                        self,
                    ).spec_buffer().len() >= 16) ==> (e matches
                    crate::device::QueueError::QueueFullError(q2) && q2 is TooBigFrameError))
                    &&& (words.len() <= 48 && payload@.len() <= MAX_FRAME_LENGTH && old(
                        self,
                    ).spec_buffer().len() < 16 ==> exists|tb: Seq<LoRaMessage>|
                        {
                            &&& #[trigger] tb.len() == old(self).spec_buffer().len() + 1
                            &&& tb.take(old(self).spec_buffer().len() as int) == old(
                                self,
                            ).spec_buffer()
                            &&& tb.last().dest@ == words
                            &&& tb.last().payload@ == payload@
                            &&& ((e matches crate::device::QueueError::QueueFullError(q3) && q3
                                is TooBigFrameError) <==> (1 <= recip_words(
                                tb,
                                old(self).spec_buf_acks(),
                            ).len() <= 16 && built_lead_size(tb, old(self).spec_buf_acks()) <= 1
                                + MAX_LORA_PAYLOAD && built_frame_size(
                                tb,
                                old(self).spec_buf_acks(),
                            ) > MAX_FRAME_LENGTH))
                            &&& ((e matches crate::device::QueueError::DeviceError(d1) && d1
                                is InvalidRecipentsError) <==> (recip_words(
                                tb,
                                old(self).spec_buf_acks(),
                            ).len() == 0 || recip_words(tb, old(self).spec_buf_acks()).len()
                                > 16))
                            &&& ((e matches crate::device::QueueError::DeviceError(d2) && d2
                                is TooBigFirstFrameError) <==> (1 <= recip_words(
                                tb,
                                old(self).spec_buf_acks(),
                            ).len() <= 16 && built_lead_size(tb, old(self).spec_buf_acks()) > 1
                                + MAX_LORA_PAYLOAD))
                        })
                    &&& (e matches crate::device::QueueError::QueueFullError(q4) ==> (q4
                        is TooBigFrameError || q4 is InvalidRecipentsError))
                    &&& (e matches crate::device::QueueError::DeviceError(d3) ==> (d3
                        is InvalidRecipentsError || d3 is TooBigFirstFrameError))
                }),
            },
    {
        // Expand the destination and register flagged peers.
        let mut recipients: Vec<u16> = Vec::new();
        match dest {
            LoRaDestination::Global => {
                if ack {
                    recipients.push(GLOBAL_ACKNOWLEDGMENT);
                } else {
                    recipients.push(GLOBAL_NO_ACKNOWLEDGMENT);
                }
            },
            LoRaDestination::Unique(addr) => {
                if ack {
                    let _ = self.atpc.insert_neighbor(addr & ADDRESS_BITMASK);
                    recipients.push((addr & ADDRESS_BITMASK) | ACKNOWLEDGMENT_BITMASK);
                    proof {
                        crate::frame::lemma_address_bit_discipline(addr, 0, ack);
                        assert(self.spec_atpc().spec_neighbor(addr_part(crate::frame::with_ack(
                            addr,
                            ack,
                        ))) is Some);
                    }
                } else {
                    recipients.push(addr & ADDRESS_BITMASK);
                }
                proof {
                    assert(recipients@ =~= Self::spec_dest_words(
                        LoRaDestination::Unique(addr),
                        ack,
                    ));
                }
            },
            LoRaDestination::Group(ref addrs) => {
                let n = addrs.len();
                let mut k: usize = 0;
                while k < n
                    invariant
                        k <= n,
                        n == addrs@.len(),
                        self.wf(),
                        recipients@ == addrs@.take(k as int).map_values(
                            |a: u16| crate::frame::with_ack(a, ack),
                        ),
                        self.spec_channels() == old(self).spec_channels(),
                        self.spec_usages() == old(self).spec_usages(),
                        self.spec_history() == old(self).spec_history(),
                        self.spec_pending_rx() == old(self).spec_pending_rx(),
                        self.spec_pending_tx() == old(self).spec_pending_tx(),
                        self.spec_address() == old(self).spec_address(),
                        self.spec_rssi_target() == old(self).spec_rssi_target(),
                        crate::atpc::DefaultATPC::same_config(
                            old(self).spec_atpc(),
                            self.spec_atpc(),
                        ),
                        !ack ==> self.spec_atpc() == old(self).spec_atpc(),
                        self.spec_atpc().spec_neighbors().len() as int <= old(
                            self,
                        ).spec_atpc().spec_neighbors().len() + k,
                        (ack && old(self).spec_atpc().spec_neighbors().len() + n
                            <= crate::atpc::NEIGHBOR_CAPACITY) ==> forall|t: int|
                            0 <= t < k ==> (#[trigger] self.spec_atpc().spec_neighbor(
                                addrs@[t] & ADDRESS_BITMASK,
                            )) is Some,
                        self.spec_buffer() == old(self).spec_buffer(),
                        self.spec_buf_acks() == old(self).spec_buf_acks(),
                        self.spec_frame() == old(self).spec_frame(),
                        self.spec_last_nonce() == old(self).spec_last_nonce(),
                    decreases n - k,
                {
                    let a = addrs[k];
                    if ack {
                        let _ = self.atpc.insert_neighbor(a & ADDRESS_BITMASK);
                        recipients.push((a & ADDRESS_BITMASK) | ACKNOWLEDGMENT_BITMASK);
                    } else {
                        recipients.push(a & ADDRESS_BITMASK);
                    }
                    proof {
                        assert(recipients@ =~= addrs@.take(k as int + 1).map_values(
                            |x: u16| crate::frame::with_ack(x, ack),
                        ));
                    }
                    k = k + 1;
                }
                proof {
                    assert(addrs@.take(n as int) =~= addrs@);
                    assert(recipients@ =~= Self::spec_dest_words(
                        LoRaDestination::Group(*addrs),
                        ack,
                    ));
                    if ack && old(self).spec_atpc().spec_neighbors().len() + n
                        <= crate::atpc::NEIGHBOR_CAPACITY {
                        let words = Self::spec_dest_words(dest, ack);
                        assert forall|t: int| 0 <= t < words.len() implies (
                        #[trigger] self.spec_atpc().spec_neighbor(
                            addr_part(words[t]),
                        )) is Some by {
                            assert(words[t] == crate::frame::with_ack(addrs@[t], ack));
                            crate::frame::lemma_address_bit_discipline(addrs@[t], 0, ack);
                            assert(addr_part(words[t]) == addrs@[t] & ADDRESS_BITMASK);
                        }
                    }
                }
            },
        }
        if recipients.len() > 48 {
            // By design, a packet can only address up to 48 peers at a
            // time.
            return Err(crate::device::QueueError::QueueFullError(
                RadioError::InvalidRecipentsError,
            ));
        }
        if payload.len() > MAX_FRAME_LENGTH {
            return Err(crate::device::QueueError::QueueFullError(RadioError::TooBigFrameError {
                size: payload.len(),
            }));
        }
        if self.tx_buffer.len() >= 16 {
            // A frame indexes at most sixteen payloads.
            return Err(crate::device::QueueError::QueueFullError(RadioError::TooBigFrameError {
                size: MAX_FRAME_LENGTH + 1,
            }));
        }
        // Tentatively append and rebuild the aggregate frame.
        let body = clone_slice(payload);
        self.tx_buffer.push(LoRaMessage { dest: recipients, payload: body });
        let nonce = self.next_nonce(now_s);
        match build_frame(
            self.address,
            &self.tx_buffer,
            &self.tx_buf_acknowledgments,
            nonce,
        ) {
            Ok(f) => {
                self.tx_frame = Some(f);
                proof {
                    assert(self.spec_buffer().take(old(self).spec_buffer().len() as int)
                        =~= old(self).spec_buffer());
                }
                Ok(())
            },
            Err(e) => {
                proof {
                    let tb = self.tx_buffer@;
                    assert(tb.take(old(self).spec_buffer().len() as int) =~= old(
                        self,
                    ).spec_buffer());
                    assert(tb.len() == old(self).spec_buffer().len() + 1);
                }
                let _ = self.tx_buffer.pop();
                proof {
                    assert(self.spec_buffer() =~= old(self).spec_buffer());
                }
                match e {
                    RadioError::TooBigFrameError { size } => Err(
                        crate::device::QueueError::QueueFullError(RadioError::TooBigFrameError {
                            size,
                        }),
                    ),
                    other => Err(crate::device::QueueError::DeviceError(other)),
                }
            },
        }
    }

    /// Queues pending inbound acknowledgements (up to the sixteen a
    /// frame can carry) for the next outgoing frame and rebuilds it.
    ///
    /// Returns false when nothing was pending.  Fails with a
    /// `QueueFullError` over `TooManyAcknowledgmentsError` when the
    /// outgoing acknowledgement list is already full, and over
    /// `TooBigFrameError` when the rebuilt frame no longer fits; both
    /// leave the state unchanged so the caller can transmit and retry.
    pub fn queue_acknowledgements(&mut self, now_s: u64) -> (r: Result<
        bool,
        crate::device::QueueError<RadioError<()>>,
    >)
        requires
            old(self).wf(),
        ensures
            final(self).wf(),
            final(self).spec_channels() == old(self).spec_channels(),
            final(self).spec_usages() == old(self).spec_usages(),
            final(self).spec_history() == old(self).spec_history(),
            final(self).spec_pending_tx() == old(self).spec_pending_tx(),
            final(self).spec_address() == old(self).spec_address(),
            final(self).spec_atpc() == old(self).spec_atpc(),
            final(self).spec_buffer() == old(self).spec_buffer(),
            match r {
                Ok(true) => ({
                    let take = vstd::math::min(
                        16 - old(self).spec_buf_acks().len() as int,
                        old(self).spec_pending_rx().len() as int,
                    );
                    &&& old(self).spec_pending_rx().len() > 0
                    &&& take > 0
                    &&& final(self).spec_buf_acks() == old(self).spec_buf_acks() + old(
                        self,
                    ).spec_pending_rx().take(take)
                    &&& final(self).spec_pending_rx() == old(self).spec_pending_rx().skip(take)
                    &&& (final(self).spec_frame() matches Some(f) && {
                        &&& f.wf()
                        &&& f.model().acks == acks_model(final(self).spec_buf_acks())
                        &&& f.model().payloads == buffer_payloads(old(self).spec_buffer())
                        &&& f.model().headers.nonce == final(self).spec_last_nonce()
                    })
                }),
                Ok(false) => old(self).spec_pending_rx().len() == 0 && *final(self) == *old(
                    self,
                ),
                Err(e) => ({
                    let take = vstd::math::min(
                        16 - old(self).spec_buf_acks().len() as int,
                        old(self).spec_pending_rx().len() as int,
                    );
                    let cand = old(self).spec_buf_acks() + old(self).spec_pending_rx().take(
                        take,
                    );
                    &&& final(self).spec_buf_acks() == old(self).spec_buf_acks()
                    &&& final(self).spec_pending_rx() == old(self).spec_pending_rx()
                    &&& final(self).spec_frame() == old(self).spec_frame()
                    &&& old(self).spec_pending_rx().len() > 0
                    // The error kind names the cause: a full outgoing
                    // list, an oversize rebuild, or a builder fault.
                    &&& ((e matches crate::device::QueueError::QueueFullError(q1) && q1
                        is TooManyAcknowledgmentsError) <==> old(self).spec_buf_acks().len()
                        >= 16)
                    &&& (old(self).spec_buf_acks().len() < 16 ==> {
                        &&& ((e matches crate::device::QueueError::QueueFullError(q2) && q2
                            is TooBigFrameError) <==> (1 <= recip_words(
                            old(self).spec_buffer(),
                            cand,
                        ).len() <= 16 && built_lead_size(old(self).spec_buffer(), cand) <= 1
                            + MAX_LORA_PAYLOAD && built_frame_size(
                            old(self).spec_buffer(),
                            cand,
                        ) > MAX_FRAME_LENGTH))
                        &&& ((e matches crate::device::QueueError::DeviceError(d1) && d1
                            is InvalidRecipentsError) <==> (recip_words(
                            old(self).spec_buffer(),
                            cand,
                        ).len() == 0 || recip_words(old(self).spec_buffer(), cand).len() > 16))
                        &&& ((e matches crate::device::QueueError::DeviceError(d2) && d2
                            is TooBigFirstFrameError) <==> (1 <= recip_words(
                            old(self).spec_buffer(),
                            cand,
                        ).len() <= 16 && built_lead_size(old(self).spec_buffer(), cand) > 1
                            + MAX_LORA_PAYLOAD))
                    })
                    &&& (e matches crate::device::QueueError::QueueFullError(q3) ==> (q3
                        is TooManyAcknowledgmentsError || q3 is TooBigFrameError))
                    &&& (e matches crate::device::QueueError::DeviceError(d3) ==> (d3
                        is InvalidRecipentsError || d3 is TooBigFirstFrameError))
                }),
            },
    {
        if self.pending_rx_acknowledgments.len() == 0 {
            return Ok(false);
        }
        if self.tx_buf_acknowledgments.len() >= 16 {
            let count = if self.pending_rx_acknowledgments.len() <= usize::MAX - 16 {
                16 + self.pending_rx_acknowledgments.len()
            } else {
                usize::MAX
            };
            return Err(crate::device::QueueError::QueueFullError(
                RadioError::TooManyAcknowledgmentsError { count },
            ));
        }
        let avail = 16 - self.tx_buf_acknowledgments.len();
        let take = if avail <= self.pending_rx_acknowledgments.len() {
            avail
        } else {
            self.pending_rx_acknowledgments.len()
        };
        // The candidate acknowledgement list.
        let mut cand: Vec<(AddressHeader, FrameNonce, i16)> = Vec::new();
        let nb = self.tx_buf_acknowledgments.len();
        let mut i: usize = 0;
        while i < nb
            invariant
                i <= nb,
                nb == self.tx_buf_acknowledgments@.len(),
                cand@ == self.tx_buf_acknowledgments@.take(i as int),
            decreases nb - i,
        {
            cand.push(self.tx_buf_acknowledgments[i]);
            proof {
                assert(cand@ =~= self.tx_buf_acknowledgments@.take(i as int + 1));
            }
            i = i + 1;
        }
        proof {
            assert(cand@ =~= self.tx_buf_acknowledgments@);
        }
        let mut j: usize = 0;
        while j < take
            invariant
                j <= take,
                take <= self.pending_rx_acknowledgments@.len(),
                cand@ == self.tx_buf_acknowledgments@ + self.pending_rx_acknowledgments@.take(
                    j as int,
                ),
            decreases take - j,
        {
            cand.push(self.pending_rx_acknowledgments[j]);
            proof {
                assert(cand@ =~= self.tx_buf_acknowledgments@
                    + self.pending_rx_acknowledgments@.take(j as int + 1));
            }
            j = j + 1;
        }
        let nonce = self.next_nonce(now_s);
        match build_frame(self.address, &self.tx_buffer, &cand, nonce) {
            Ok(f) => {
                self.tx_buf_acknowledgments = cand;
                let ghost committed = *self;
                let mut d: usize = 0;
                while d < take
                    invariant
                        d <= take,
                        take <= old(self).spec_pending_rx().len(),
                        self.pending_rx_acknowledgments@ == old(self).spec_pending_rx().skip(
                            d as int,
                        ),
                        self.wf(),
                        self.spec_channels() == committed.spec_channels(),
                        self.spec_usages() == committed.spec_usages(),
                        self.spec_history() == committed.spec_history(),
                        self.spec_pending_tx() == committed.spec_pending_tx(),
                        self.spec_address() == committed.spec_address(),
                        self.spec_atpc() == committed.spec_atpc(),
                        self.spec_buffer() == committed.spec_buffer(),
                        self.spec_buf_acks() == committed.spec_buf_acks(),
                        self.spec_frame() == committed.spec_frame(),
                        self.spec_last_nonce() == committed.spec_last_nonce(),
                        self.spec_rssi_target() == committed.spec_rssi_target(),
                    decreases take - d,
                {
                    let _ = self.pending_rx_acknowledgments.remove(0);
                    proof {
                        assert(self.pending_rx_acknowledgments@ =~= old(
                            self,
                        ).spec_pending_rx().skip(d as int + 1));
                    }
                    d = d + 1;
                }
                self.tx_frame = Some(f);
                Ok(true)
            },
            Err(e) => {
                match e {
                    RadioError::TooBigFrameError { size } => Err(
                        crate::device::QueueError::QueueFullError(RadioError::TooBigFrameError {
                            size,
                        }),
                    ),
                    other => Err(crate::device::QueueError::DeviceError(other)),
                }
            },
        }
    }


    /// The fifteen-bit addresses of a frame's recipients.
    pub open spec fn recip_addresses(r: RecipModel) -> Seq<u16> {
        match r {
            RecipModel::Direct(w) => seq![addr_part(w)],
            RecipModel::Group(g) => g.map_values(|p: (u16, u16)| addr_part(p.0)),
        }
    }

    /// Readies the pending frame for the air: checks the regulations
    /// of the needed channels, selects the transmission power, and
    /// splits the serialized frame into per-channel slots, each led by
    /// the message discriminant byte.  The caller transmits the slots
    /// (slot `i` on channel `i`), crediting each with `record_slot`,
    /// and then commits with `transmit_finalize`.
    ///
    /// Returns nothing when no frame is pending.
    #[verifier::loop_isolation(false)]
    pub fn transmit_prepare(&self, now_us: u64) -> (r: Result<Option<TxPlan>, RadioError<()>>)
        requires
            self.wf(),
        ensures
            match r {
                Ok(op) => {
                    match op {
                        None => self.spec_frame() is None,
                        Some(plan) => (self.spec_frame() matches Some(f) && {
                            let bytes = enc_frame(f.model());
                            let nf = crate::frame::info_frames(f.model().headers.info) as int;
                            &&& plan.nonce == f.model().headers.nonce
                            &&& nf <= self.spec_channels().len()
                            &&& self.spec_channel_fault(0, nf, now_us) is None
                            &&& plan.slots@.len() == nf
                            &&& forall|t: int|
                                0 <= t < nf ==> (#[trigger] plan.slots@[t])@ == seq![
                                    FRAME_TYPE_MESSAGE,
                                ] + bytes.subrange(
                                    253 * t,
                                    if 253 * (t + 1) <= bytes.len() {
                                        253 * (t + 1)
                                    } else {
                                        bytes.len() as int
                                    },
                                )
                            &&& plan.tx_power == self.spec_atpc().spec_group_power(
                                Self::recip_addresses(f.model().headers.recipients),
                                Self::recip_addresses(f.model().headers.recipients).len() as int,
                            )
                            &&& forall|a: u16|
                                #[trigger] plan.gated@.contains(a) <==> (Self::recip_addresses(
                                    f.model().headers.recipients,
                                ).contains(a) && self.spec_atpc().spec_tx_power(a)
                                    == plan.tx_power)
                        }),
                    }
                },
                Err(e) => {
                    &&& (e is Unknown ==> (self.spec_frame() matches Some(f)
                        && crate::frame::info_frames(f.model().headers.info) as int
                        > self.spec_channels().len()))
                    &&& (e is DutyCycleConsumed || e is MinChannelDelayError ==> (
                    self.spec_frame() matches Some(f) && self.spec_channel_fault(
                        0,
                        crate::frame::info_frames(f.model().headers.info) as int,
                        now_us,
                    ) is Some))
                    &&& (e is Unknown || e is DutyCycleConsumed || e is MinChannelDelayError)
                },
            },
    {
        let f = match &self.tx_frame {
            None => {
                return Ok(None);
            },
            Some(f) => f,
        };
        let nframes = f.headers.rec_n_frames.get_frames() as usize;
        if nframes > self.channels.len() {
            return Err(RadioError::Unknown);
        }
        match self.transmission_check(nframes, now_us) {
            Ok(()) => {},
            Err(e) => {
                return Err(e);
            },
        }
        // The transmission power for the frame's recipients.
        let mut addrs: Vec<LoRaAddress> = Vec::new();
        match &f.headers.recipients {
            RecipientHeader::Direct(ah) => {
                addrs.push(ah.get_address());
                proof {
                    assert(addrs@ =~= Self::recip_addresses(f.model().headers.recipients));
                }
            },
            RecipientHeader::Group(v) => {
                let ghost g = crate::frame::group_model(v@);
                let n = v.len();
                let mut k: usize = 0;
                while k < n
                    invariant
                        k <= n,
                        n == v@.len(),
                        g == crate::frame::group_model(v@),
                        addrs@ == g.map_values(|p: (u16, u16)| addr_part(p.0)).take(k as int),
                    decreases n - k,
                {
                    let (ah, _) = v[k];
                    addrs.push(ah.get_address());
                    proof {
                        assert(addrs@ =~= g.map_values(|p: (u16, u16)| addr_part(p.0)).take(
                            k as int + 1,
                        ));
                    }
                    k = k + 1;
                }
                proof {
                    assert(addrs@ =~= Self::recip_addresses(f.model().headers.recipients));
                }
            },
        }
        let (tx_power, gated) = self.atpc.group_power(&addrs);
        proof {
            assert forall|a: u16| #[trigger] gated@.contains(a) implies (Self::recip_addresses(
                f.model().headers.recipients,
            ).contains(a) && self.spec_atpc().spec_tx_power(a) == tx_power) by {}
            assert forall|a: u16|
                (Self::recip_addresses(f.model().headers.recipients).contains(a)
                    && self.spec_atpc().spec_tx_power(a) == tx_power) implies
                #[trigger] gated@.contains(a) by {}
        }
        // Serialize and split into slots.
        let bytes = f.to_bytes();
        let total = bytes.len();
        proof {
            vstd::arithmetic::div_mod::lemma_fundamental_div_mod(total as int + 252, 253);
            assert(253 * (nframes as int) <= total + 252 < 253 * (nframes as int + 1))
                by (nonlinear_arith)
                requires
                    nframes as int == (total as int + 252) / 253,
                    total as int + 252 == 253 * ((total as int + 252) / 253) + (total as int
                        + 252) % 253,
                    0 <= (total as int + 252) % 253 < 253,
            ;
        }
        let mut slots: Vec<Vec<u8>> = Vec::new();
        let mut t: usize = 0;
        while t < nframes
            invariant
                t <= nframes,
                slots@.len() == t,
                forall|q: int|
                    0 <= q < t ==> (#[trigger] slots@[q])@ == seq![FRAME_TYPE_MESSAGE]
                        + bytes@.subrange(
                        253 * q,
                        if 253 * (q + 1) <= total {
                            253 * (q + 1)
                        } else {
                            total as int
                        },
                    ),
            decreases nframes - t,
        {
            proof {
                assert(253 * (t as int) < total) by (nonlinear_arith)
                    requires
                        t < nframes,
                        253 * (nframes as int) <= total + 252,
                ;
                assert(253 * (t as int + 1) == 253 * (t as int) + 253) by (nonlinear_arith);
            }
            let start = 253 * t;
            let end = if start + 253 <= total {
                start + 253
            } else {
                total
            };
            let mut slot: Vec<u8> = Vec::new();
            slot.push(FRAME_TYPE_MESSAGE);
            let mut b = start;
            while b < end
                invariant
                    start <= b <= end,
                    end <= total,
                    total == bytes@.len(),
                    slot@ == seq![FRAME_TYPE_MESSAGE] + bytes@.subrange(start as int, b as int),
                decreases end - b,
            {
                slot.push(bytes[b]);
                proof {
                    assert(slot@ =~= seq![FRAME_TYPE_MESSAGE] + bytes@.subrange(
                        start as int,
                        b as int + 1,
                    ));
                }
                b = b + 1;
            }
            slots.push(slot);
            t = t + 1;
        }
        Ok(
            Some(
                TxPlan {
                    slots,
                    tx_power,
                    gated,
                    nonce: f.headers.nonce,
                },
            ),
        )
    }

    /// The acknowledgement deadline of a frame transmitted now.
    pub open spec fn spec_deadline(now_us: u64) -> u64 {
        if now_us <= u64::MAX - ACK_TIMEOUT_US {
            (now_us + ACK_TIMEOUT_US) as u64
        } else {
            u64::MAX
        }
    }

    /// The pending-acknowledgement entry of one flagged recipient.
    pub open spec fn spec_pending_entry(
        w: u16,
        nonce: FrameNonce,
        gated: Seq<u16>,
        deadline: u64,
    ) -> PendingTxAck {
        PendingTxAck {
            recipient: AddressHeader(w),
            nonce,
            deadline_us: deadline,
            update_atpc: gated.contains(addr_part(w)),
            satisfied: false,
        }
    }

    /// The pending entries a group frame adds, in recipient order:
    /// one per member that requested an acknowledgement and is not
    /// the broadcast address.
    pub open spec fn spec_pending_group(
        g: Seq<(u16, u16)>,
        i: int,
        nonce: FrameNonce,
        gated: Seq<u16>,
        deadline: u64,
    ) -> Seq<PendingTxAck>
        decreases g.len() - i,
    {
        if i < 0 || i >= g.len() {
            Seq::empty()
        } else {
            (if crate::frame::ack_part(g[i].0) && addr_part(g[i].0) != GLOBAL_NO_ACKNOWLEDGMENT {
                seq![Self::spec_pending_entry(g[i].0, nonce, gated, deadline)]
            } else {
                Seq::empty()
            }) + Self::spec_pending_group(g, i + 1, nonce, gated, deadline)
        }
    }

    /// The pending entries a transmitted frame adds.  A broadcast
    /// never asks for retransmission, so the global address adds
    /// nothing.
    pub open spec fn spec_pending_adds(
        r: RecipModel,
        nonce: FrameNonce,
        gated: Seq<u16>,
        deadline: u64,
    ) -> Seq<PendingTxAck> {
        match r {
            RecipModel::Direct(w) => {
                if crate::frame::ack_part(w) && addr_part(w) != GLOBAL_NO_ACKNOWLEDGMENT {
                    seq![Self::spec_pending_entry(w, nonce, gated, deadline)]
                } else {
                    Seq::empty()
                }
            },
            RecipModel::Group(g) => Self::spec_pending_group(g, 0, nonce, gated, deadline),
        }
    }

    /// The newest `PENDING_CAPACITY` elements of a sequence.
    pub open spec fn bounded_pending(s: Seq<PendingTxAck>) -> Seq<PendingTxAck> {
        if s.len() <= PENDING_CAPACITY {
            s
        } else {
            s.skip(s.len() - PENDING_CAPACITY as int)
        }
    }

    /// The newest `PENDING_CAPACITY` frames of a history.
    pub open spec fn bounded_history(s: Seq<RadioFrameWithHeaders>) -> Seq<
        RadioFrameWithHeaders,
    > {
        if s.len() <= PENDING_CAPACITY {
            s
        } else {
            s.skip(s.len() - PENDING_CAPACITY as int)
        }
    }

    /// Commits a transmission: archives the frame, records one
    /// pending acknowledgement per flagged unicast recipient (with a
    /// deadline one acknowledgement timeout from now, and power
    /// feedback only for the recipients gated by the selected power),
    /// clears the queues, and reports completion.
    ///
    /// With no pending frame this returns the sentinel nonce zero and
    /// changes nothing.
    #[verifier::loop_isolation(false)]
    pub fn transmit_finalize(&mut self, gated: &Vec<LoRaAddress>, now_us: u64) -> (r: (
        FrameNonce,
        Vec<DeviceEvent>,
    ))
        requires
            old(self).wf(),
        ensures
            final(self).wf(),
            old(self).spec_frame() is None ==> r.0 == 0 && r.1@.len() == 0 && *final(self)
                == *old(self),
            old(self).spec_frame() matches Some(f) ==> {
                &&& r.0 == f.model().headers.nonce
                &&& r.1@ =~= seq![DeviceEvent::TransmissionDone(f.model().headers.nonce)]
                &&& final(self).spec_frame() is None
                &&& final(self).spec_buffer().len() == 0
                &&& final(self).spec_buf_acks().len() == 0
                &&& final(self).spec_history() == Self::bounded_history(
                    old(self).spec_history().push(f),
                )
                &&& final(self).spec_pending_tx() == Self::bounded_pending(
                    old(self).spec_pending_tx() + Self::spec_pending_adds(
                        f.model().headers.recipients,
                        f.model().headers.nonce,
                        gated@,
                        Self::spec_deadline(now_us),
                    ),
                )
                &&& final(self).spec_pending_rx() == old(self).spec_pending_rx()
                &&& final(self).spec_channels() == old(self).spec_channels()
                &&& final(self).spec_usages() == old(self).spec_usages()
                &&& final(self).spec_atpc() == old(self).spec_atpc()
                &&& final(self).spec_address() == old(self).spec_address()
                &&& final(self).spec_last_nonce() == old(self).spec_last_nonce()
            },
    {
        let mut taken: Option<RadioFrameWithHeaders> = None;
        core::mem::swap(&mut taken, &mut self.tx_frame);
        let f = match taken {
            None => {
                let events: Vec<DeviceEvent> = Vec::new();
                return (0, events);
            },
            Some(f) => f,
        };
        let nonce = f.headers.nonce;
        let deadline: u64 = if now_us <= u64::MAX - ACK_TIMEOUT_US {
            now_us + ACK_TIMEOUT_US
        } else {
            u64::MAX
        };
        // Pending acknowledgements for flagged unicast recipients.
        let mut adds: Vec<PendingTxAck> = Vec::new();
        match &f.headers.recipients {
            RecipientHeader::Direct(ah) => {
                if ah.get_acknowledgment() && !ah.is_global() {
                    adds.push(
                        PendingTxAck {
                            recipient: AddressHeader(ah.0),
                            nonce,
                            deadline_us: deadline,
                            update_atpc: contains_word(gated, ah.get_address()),
                            satisfied: false,
                        },
                    );
                }
                proof {
                    assert(adds@ =~= Self::spec_pending_adds(
                        f.model().headers.recipients,
                        nonce,
                        gated@,
                        deadline,
                    ));
                }
            },
            RecipientHeader::Group(v) => {
                let ghost g = crate::frame::group_model(v@);
                let n = v.len();
                let mut k: usize = 0;
                while k < n
                    invariant
                        k <= n,
                        n == v@.len(),
                        g == crate::frame::group_model(v@),
                        adds@ + Self::spec_pending_group(g, k as int, nonce, gated@, deadline)
                            == Self::spec_pending_group(g, 0, nonce, gated@, deadline),
                    decreases n - k,
                {
                    let (ah, _) = v[k];
                    let ghost before = adds@;
                    if ah.get_acknowledgment() && !ah.is_global() {
                        adds.push(
                            PendingTxAck {
                                recipient: AddressHeader(ah.0),
                                nonce,
                                deadline_us: deadline,
                                update_atpc: contains_word(gated, ah.get_address()),
                                satisfied: false,
                            },
                        );
                    }
                    proof {
                        assert(g[k as int] == (v@[k as int].0.0, v@[k as int].1.0));
                        assert(adds@ + Self::spec_pending_group(
                            g,
                            k as int + 1,
                            nonce,
                            gated@,
                            deadline,
                        ) =~= before + Self::spec_pending_group(
                            g,
                            k as int,
                            nonce,
                            gated@,
                            deadline,
                        ));
                    }
                    k = k + 1;
                }
                proof {
                    assert(Self::spec_pending_group(g, n as int, nonce, gated@, deadline)
                        =~= Seq::<PendingTxAck>::empty());
                    assert(adds@ =~= adds@ + Self::spec_pending_group(
                        g,
                        n as int,
                        nonce,
                        gated@,
                        deadline,
                    ));
                }
            },
        }
        // Archive the frame, bounded.
        self.tx_history.push(f);
        if self.tx_history.len() > PENDING_CAPACITY {
            let _ = self.tx_history.remove(0);
        }
        proof {
            assert(self.tx_history@ =~= Self::bounded_history(
                old(self).spec_history().push(old(self).spec_frame()->Some_0),
            ));
        }
        // Record the pending acknowledgements, bounded.
        let ghost pend0 = self.pending_tx_acknowledgments@;
        let ghost mid = *self;
        let na = adds.len();
        let mut k2: usize = 0;
        while k2 < na
            invariant
                k2 <= na,
                na == adds@.len(),
                self.pending_tx_acknowledgments@ == pend0 + adds@.take(k2 as int),
                self.spec_channels() == mid.spec_channels(),
                self.spec_usages() == mid.spec_usages(),
                self.spec_rssi_target() == mid.spec_rssi_target(),
                self.spec_atpc() == mid.spec_atpc(),
                self.spec_buffer() == mid.spec_buffer(),
                self.spec_buf_acks() == mid.spec_buf_acks(),
                self.spec_frame() == mid.spec_frame(),
                self.spec_history() == mid.spec_history(),
                self.spec_pending_rx() == mid.spec_pending_rx(),
                self.spec_last_nonce() == mid.spec_last_nonce(),
                self.spec_address() == mid.spec_address(),
            decreases na - k2,
        {
            self.pending_tx_acknowledgments.push(adds[k2]);
            proof {
                assert(self.pending_tx_acknowledgments@ =~= pend0 + adds@.take(k2 as int + 1));
            }
            k2 = k2 + 1;
        }
        proof {
            assert(self.pending_tx_acknowledgments@ =~= pend0 + adds@);
        }
        let ghost all = self.pending_tx_acknowledgments@;
        let mut trimmed: usize = 0;
        while self.pending_tx_acknowledgments.len() > PENDING_CAPACITY
            invariant
                self.pending_tx_acknowledgments@ == all.skip(trimmed as int),
                trimmed as int <= all.len(),
                trimmed == 0 || all.len() - trimmed >= PENDING_CAPACITY,
                self.spec_channels() == mid.spec_channels(),
                self.spec_usages() == mid.spec_usages(),
                self.spec_rssi_target() == mid.spec_rssi_target(),
                self.spec_atpc() == mid.spec_atpc(),
                self.spec_buffer() == mid.spec_buffer(),
                self.spec_buf_acks() == mid.spec_buf_acks(),
                self.spec_frame() == mid.spec_frame(),
                self.spec_history() == mid.spec_history(),
                self.spec_pending_rx() == mid.spec_pending_rx(),
                self.spec_last_nonce() == mid.spec_last_nonce(),
                self.spec_address() == mid.spec_address(),
            decreases self.pending_tx_acknowledgments@.len(),
        {
            let _ = self.pending_tx_acknowledgments.remove(0);
            trimmed = trimmed + 1;
            proof {
                assert(self.pending_tx_acknowledgments@ =~= all.skip(trimmed as int));
            }
        }
        proof {
            assert(self.pending_tx_acknowledgments@ =~= Self::bounded_pending(all));
        }
        // Clear the queues and report completion.
        self.tx_buffer = Vec::new();
        self.tx_buf_acknowledgments = Vec::new();
        let mut events: Vec<DeviceEvent> = Vec::new();
        events.push(DeviceEvent::TransmissionDone(nonce));
        (nonce, events)
    }


    /// The pending entries that survive an expiry sweep at `now`:
    /// exactly those whose deadline has not passed.
    pub open spec fn keep_from(s: Seq<PendingTxAck>, i: int, now: u64) -> Seq<PendingTxAck>
        decreases s.len() - i,
    {
        if i < 0 || i >= s.len() {
            Seq::empty()
        } else {
            (if s[i].deadline_us > now {
                seq![s[i]]
            } else {
                Seq::empty()
            }) + Self::keep_from(s, i + 1, now)
        }
    }

    /// The pending entries that fire a failure notification at `now`:
    /// exactly those whose deadline has passed and whose
    /// acknowledgement never arrived.
    pub open spec fn fired_from(s: Seq<PendingTxAck>, i: int, now: u64) -> Seq<PendingTxAck>
        decreases s.len() - i,
    {
        if i < 0 || i >= s.len() {
            Seq::empty()
        } else {
            (if s[i].deadline_us <= now && !s[i].satisfied {
                seq![s[i]]
            } else {
                Seq::empty()
            }) + Self::fired_from(s, i + 1, now)
        }
    }

    /// The surviving entries are never more numerous than the table.
    proof fn lemma_keep_len(s: Seq<PendingTxAck>, i: int, now: u64)
        requires
            0 <= i <= s.len(),
        ensures
            Self::keep_from(s, i, now).len() <= s.len() - i,
        decreases s.len() - i,
    {
        if i < s.len() {
            Self::lemma_keep_len(s, i + 1, now);
        }
    }

    /// The first archived frame carrying this nonce, in arrival order.
    pub open spec fn find_frame(hist: Seq<RadioFrameWithHeaders>, nonce: u64) -> Option<
        RadioFrameWithHeaders,
    >
        decreases hist.len(),
    {
        if hist.len() == 0 {
            None
        } else if hist[0].headers.nonce == nonce {
            Some(hist[0])
        } else {
            Self::find_frame(hist.drop_first(), nonce)
        }
    }

    /// The payloads selected by a list of payload ids (ids past the
    /// payload list select nothing).
    pub open spec fn ids_payloads(ids: Seq<u8>, pls: Seq<Seq<u8>>, j: int) -> Seq<Seq<u8>>
        decreases ids.len() - j,
    {
        if j < 0 || j >= ids.len() {
            Seq::empty()
        } else {
            (if (ids[j] as int) < pls.len() {
                seq![pls[ids[j] as int]]
            } else {
                Seq::empty()
            }) + Self::ids_payloads(ids, pls, j + 1)
        }
    }

    /// The payloads a group frame addresses to `addr`: for each slot
    /// carrying that address, the flagged payloads in id order.
    pub open spec fn group_payloads(
        g: Seq<(u16, u16)>,
        pls: Seq<Seq<u8>>,
        addr: u16,
        i: int,
    ) -> Seq<Seq<u8>>
        decreases g.len() - i,
    {
        if i < 0 || i >= g.len() {
            Seq::empty()
        } else {
            (if addr_part(g[i].0) == addr {
                Self::ids_payloads(crate::frame::flag_ids(g[i].1), pls, 0)
            } else {
                Seq::empty()
            }) + Self::group_payloads(g, pls, addr, i + 1)
        }
    }

    /// The payloads of one frame addressed to `addr`: all of them for
    /// a matching direct frame, the flagged ones per matching slot of
    /// a group frame.
    pub open spec fn payloads_for(f: RadioFrameWithHeaders, addr: u16) -> Seq<Seq<u8>> {
        match f.headers.recipients {
            RecipientHeader::Direct(ah) => if addr_part(ah.0) == addr {
                f.model().payloads
            } else {
                Seq::empty()
            },
            RecipientHeader::Group(v) => Self::group_payloads(
                crate::frame::group_model(v@),
                f.model().payloads,
                addr,
                0,
            ),
        }
    }

    /// What a failure notification for `(addr, nonce)` replays.
    pub open spec fn spec_failed_payloads(
        hist: Seq<RadioFrameWithHeaders>,
        addr: u16,
        nonce: u64,
    ) -> Seq<Seq<u8>> {
        match Self::find_frame(hist, nonce) {
            None => Seq::empty(),
            Some(f) => Self::payloads_for(f, addr),
        }
    }

    /// The failure notifications one expired entry owes, as
    /// (recipient, nonce, payload) triples.
    pub open spec fn entry_pairs(e: PendingTxAck, hist: Seq<RadioFrameWithHeaders>) -> Seq<
        (u16, u64, Seq<u8>),
    > {
        Self::spec_failed_payloads(hist, e.recipient.address(), e.nonce).map_values(
            |pl: Seq<u8>| (e.recipient.address(), e.nonce, pl),
        )
    }

    /// The failure notifications a whole expiry sweep owes, entry by
    /// entry in table order.
    pub open spec fn failed_pairs(
        fired: Seq<PendingTxAck>,
        hist: Seq<RadioFrameWithHeaders>,
        q: int,
    ) -> Seq<(u16, u64, Seq<u8>)>
        decreases fired.len() - q,
    {
        if q < 0 || q >= fired.len() {
            Seq::empty()
        } else {
            Self::entry_pairs(fired[q], hist) + Self::failed_pairs(fired, hist, q + 1)
        }
    }

    /// What one expired entry does to the power control: the timeout
    /// adjustment when it was flagged for feedback, nothing otherwise.
    pub open spec fn timeout_step(
        pre: DefaultATPC,
        post: DefaultATPC,
        e: PendingTxAck,
    ) -> bool {
        if e.update_atpc {
            &&& crate::atpc::DefaultATPC::same_config(pre, post)
            &&& post.spec_beacons() == pre.spec_beacons()
            &&& post.spec_last_beacon() == pre.spec_last_beacon()
            &&& crate::atpc::DefaultATPC::update_rel(pre, post, e.recipient.address(), 30)
        } else {
            post == pre
        }
    }

    /// A trace of power-control states stepping through the expired
    /// entries in order: one state per entry boundary.
    pub open spec fn timeout_trace_ok(trace: Seq<DefaultATPC>, fired: Seq<PendingTxAck>) -> bool {
        &&& trace.len() == fired.len() + 1
        &&& forall|k: int|
            0 <= k < fired.len() ==> Self::timeout_step(trace[k], #[trigger] trace[k + 1], fired[k])
    }

    /// Sweeps the pending acknowledgements: every entry whose deadline
    /// has passed leaves the table; each expired entry whose
    /// acknowledgement never arrived fires one failure notification
    /// per payload that travelled to that recipient (recovered from
    /// the transmission history), and feeds the power control when it
    /// was gated by the transmission's power.  An entry fires on the
    /// first sweep past its deadline and never before or again.
    #[verifier::loop_isolation(false)]
    pub fn expire_pending(&mut self, now_us: u64) -> (r: Vec<DeviceEvent>)
        requires
            old(self).wf(),
        ensures
            final(self).wf(),
            final(self).spec_pending_tx() == Self::keep_from(old(self).spec_pending_tx(), 0, now_us),
            final(self).spec_channels() == old(self).spec_channels(),
            final(self).spec_usages() == old(self).spec_usages(),
            final(self).spec_buffer() == old(self).spec_buffer(),
            final(self).spec_buf_acks() == old(self).spec_buf_acks(),
            final(self).spec_frame() == old(self).spec_frame(),
            final(self).spec_history() == old(self).spec_history(),
            final(self).spec_pending_rx() == old(self).spec_pending_rx(),
            final(self).spec_address() == old(self).spec_address(),
            final(self).spec_last_nonce() == old(self).spec_last_nonce(),
            final(self).spec_rssi_target() == old(self).spec_rssi_target(),
            crate::atpc::DefaultATPC::same_config(old(self).spec_atpc(), final(self).spec_atpc()),
            // One failure notification per expired unsatisfied entry and
            // per archived payload addressed to it, in order.
            crate::device::event_pairs(r@) == Self::failed_pairs(
                Self::fired_from(old(self).spec_pending_tx(), 0, now_us),
                old(self).spec_history(),
                0,
            ),
            forall|k: int| 0 <= k < r@.len() ==> (#[trigger] r@[k]) is TransmissionFailed,
            // The power control was fed the timeout of every flagged
            // expired entry, in order: some state trace steps through
            // them from the old state to the new one.
            exists|trace: Seq<DefaultATPC>|
                {
                    &&& #[trigger] Self::timeout_trace_ok(
                        trace,
                        Self::fired_from(old(self).spec_pending_tx(), 0, now_us),
                    )
                    &&& trace[0] == old(self).spec_atpc()
                    &&& trace[Self::fired_from(old(self).spec_pending_tx(), 0, now_us).len()
                        as int] == final(self).spec_atpc()
                },
    {
        let ghost pend0 = self.pending_tx_acknowledgments@;
        // Partition the table into surviving and fired entries.
        let mut kept: Vec<PendingTxAck> = Vec::new();
        let mut fired: Vec<PendingTxAck> = Vec::new();
        let n = self.pending_tx_acknowledgments.len();
        let mut i: usize = 0;
        while i < n
            invariant
                i <= n,
                n == pend0.len(),
                self.pending_tx_acknowledgments@ == pend0,
                kept@ + Self::keep_from(pend0, i as int, now_us) == Self::keep_from(
                    pend0,
                    0,
                    now_us,
                ),
                fired@ + Self::fired_from(pend0, i as int, now_us) == Self::fired_from(
                    pend0,
                    0,
                    now_us,
                ),
            decreases n - i,
        {
            let e = self.pending_tx_acknowledgments[i];
            let ghost pk = kept@;
            let ghost pf = fired@;
            if e.deadline_us > now_us {
                kept.push(e);
            } else if !e.satisfied {
                fired.push(e);
            }
            proof {
                assert(kept@ + Self::keep_from(pend0, i as int + 1, now_us) =~= pk
                    + Self::keep_from(pend0, i as int, now_us));
                assert(fired@ + Self::fired_from(pend0, i as int + 1, now_us) =~= pf
                    + Self::fired_from(pend0, i as int, now_us));
            }
            i = i + 1;
        }
        proof {
            assert(kept@ =~= kept@ + Self::keep_from(pend0, n as int, now_us));
            assert(fired@ =~= fired@ + Self::fired_from(pend0, n as int, now_us));
        }
        proof {
            Self::lemma_keep_len(pend0, 0, now_us);
        }
        self.pending_tx_acknowledgments = kept;
        let ghost gfired = fired@;
        let ghost swept = *self;
        let ghost hist0 = self.spec_history();
        let ghost mut trace: Seq<DefaultATPC> = seq![self.spec_atpc()];
        // Notify and feed the power control for each fired entry.
        let mut events: Vec<DeviceEvent> = Vec::new();
        let nf = fired.len();
        let mut q: usize = 0;
        while q < nf
            invariant
                q <= nf,
                nf == gfired.len(),
                fired@ == gfired,
                self.wf(),
                self.spec_pending_tx() == swept.spec_pending_tx(),
                self.spec_channels() == swept.spec_channels(),
                self.spec_usages() == swept.spec_usages(),
                self.spec_buffer() == swept.spec_buffer(),
                self.spec_buf_acks() == swept.spec_buf_acks(),
                self.spec_frame() == swept.spec_frame(),
                self.spec_history() == swept.spec_history(),
                hist0 == swept.spec_history(),
                self.spec_pending_rx() == swept.spec_pending_rx(),
                self.spec_address() == swept.spec_address(),
                self.spec_last_nonce() == swept.spec_last_nonce(),
                self.spec_rssi_target() == swept.spec_rssi_target(),
                crate::atpc::DefaultATPC::same_config(swept.spec_atpc(), self.spec_atpc()),
                trace.len() == q + 1,
                trace[0] == swept.spec_atpc(),
                trace[q as int] == self.spec_atpc(),
                forall|k: int|
                    0 <= k < q ==> Self::timeout_step(trace[k], #[trigger] trace[k + 1], gfired[k]),
                crate::device::event_pairs(events@) + Self::failed_pairs(gfired, hist0, q as int)
                    == Self::failed_pairs(gfired, hist0, 0),
                forall|k: int|
                    0 <= k < events@.len() ==> (#[trigger] events@[k]) is TransmissionFailed,
            decreases nf - q,
        {
            let e = fired[q];
            let addr = e.recipient.get_address();
            let ghost amid = self.atpc;
            if e.update_atpc {
                self.atpc.record_timeout(addr);
            }
            proof {
                assert(Self::timeout_step(amid, self.spec_atpc(), gfired[q as int]));
                trace = trace.push(self.spec_atpc());
                assert(forall|k: int|
                    0 <= k < q ==> Self::timeout_step(
                        trace[k],
                        #[trigger] trace[k + 1],
                        gfired[k],
                    ));
                assert(Self::timeout_step(trace[q as int], trace[q as int + 1], gfired[q as int]));
            }
            let payloads = self.history_payloads(addr, e.nonce);
            let ghost dv = payloads.deep_view();
            let ghost epairs = Self::entry_pairs(gfired[q as int], hist0);
            proof {
                assert(epairs =~~= dv.map_values(
                    |pl: Seq<u8>| (gfired[q as int].recipient.address(), gfired[q as int].nonce, pl),
                ));
                assert(Self::failed_pairs(gfired, hist0, q as int) == epairs
                    + Self::failed_pairs(gfired, hist0, q as int + 1));
                assert(epairs.skip(0) =~~= epairs);
            }
            let np = payloads.len();
            let mut p: usize = 0;
            while p < np
                invariant
                    p <= np,
                    q < nf,
                    np == payloads@.len(),
                    np == dv.len(),
                    np == epairs.len(),
                    dv == payloads.deep_view(),
                    epairs == Self::entry_pairs(gfired[q as int], hist0),
                    nf == gfired.len(),
                    fired@ == gfired,
                    gfired[q as int].recipient.address() == addr,
                    gfired[q as int].nonce == e.nonce,
                    crate::device::event_pairs(events@) + epairs.skip(p as int)
                        + Self::failed_pairs(gfired, hist0, q as int + 1) == Self::failed_pairs(
                        gfired,
                        hist0,
                        0,
                    ),
                    forall|k: int|
                        0 <= k < events@.len() ==> (#[trigger] events@[k])
                            is TransmissionFailed,
                decreases np - p,
            {
                let body = clone_payload(&payloads[p]);
                let ghost evs0 = events@;
                events.push(DeviceEvent::TransmissionFailed(addr, e.nonce, body));
                proof {
                    assert(dv[p as int] == payloads@[p as int]@);
                    assert(epairs[p as int] == (addr, e.nonce, dv[p as int]));
                    assert(crate::device::event_pairs(events@) =~~= crate::device::event_pairs(
                        evs0,
                    ) + seq![(addr, e.nonce, body@)]);
                    assert(epairs.skip(p as int) =~~= seq![epairs[p as int]] + epairs.skip(
                        p as int + 1,
                    ));
                    assert(crate::device::event_pairs(events@) + epairs.skip(p as int + 1)
                        =~~= (crate::device::event_pairs(evs0) + epairs.skip(p as int)));
                }
                p = p + 1;
            }
            proof {
                assert(epairs.skip(np as int) =~~= Seq::<(u16, u64, Seq<u8>)>::empty());
                assert(crate::device::event_pairs(events@) + Self::failed_pairs(
                    gfired,
                    hist0,
                    q as int + 1,
                ) =~~= crate::device::event_pairs(events@) + epairs.skip(np as int)
                    + Self::failed_pairs(gfired, hist0, q as int + 1));
            }
            q = q + 1;
        }
        proof {
            assert(Self::failed_pairs(gfired, hist0, nf as int)
                =~~= Seq::<(u16, u64, Seq<u8>)>::empty());
            assert(crate::device::event_pairs(events@) =~~= crate::device::event_pairs(events@)
                + Self::failed_pairs(gfired, hist0, nf as int));
            assert(Self::timeout_trace_ok(trace, gfired));
        }
        events
    }

    /// The payloads of the first archived frame with this nonce that
    /// were addressed to this recipient (all of them for a direct
    /// frame, the flagged ones for each matching group slot).
    fn history_payloads(&self, addr: LoRaAddress, nonce: FrameNonce) -> (r: Vec<Vec<u8>>)
        ensures
            r.deep_view() == Self::spec_failed_payloads(self.spec_history(), addr, nonce),
    {
        let ghost hist = self.spec_history();
        proof {
            assert(hist.skip(0) =~= hist);
        }
        let n = self.tx_history.len();
        let mut i: usize = 0;
        while i < n
            invariant
                i <= n,
                n == hist.len(),
                hist == self.spec_history(),
                Self::find_frame(hist, nonce) == Self::find_frame(hist.skip(i as int), nonce),
            decreases n - i,
        {
            proof {
                assert(hist.skip(i as int)[0] == hist[i as int]);
                assert(hist.skip(i as int).drop_first() =~= hist.skip(i as int + 1));
            }
            if self.tx_history[i].headers.nonce == nonce {
                return self.frame_payloads_for(i, addr);
            }
            i = i + 1;
        }
        proof {
            assert(hist.skip(n as int) =~= Seq::<RadioFrameWithHeaders>::empty());
        }
        let out: Vec<Vec<u8>> = Vec::new();
        proof {
            assert(out.deep_view() =~~= Seq::<Seq<u8>>::empty());
        }
        out
    }

    /// The payloads of archived frame `i` addressed to `addr`.
    #[verifier::loop_isolation(false)]
    fn frame_payloads_for(&self, i: usize, addr: LoRaAddress) -> (r: Vec<Vec<u8>>)
        requires
            (i as int) < self.spec_history().len(),
        ensures
            r.deep_view() == Self::payloads_for(self.spec_history()[i as int], addr),
    {
        let f = &self.tx_history[i];
        let ghost pls = f.model().payloads;
        proof {
            crate::frame::lemma_payloads_deep_view(&f.payloads);
        }
        let mut out: Vec<Vec<u8>> = Vec::new();
        match &f.headers.recipients {
            RecipientHeader::Direct(ah) => {
                if ah.get_address() == addr {
                    let np = f.payloads.len();
                    let mut p: usize = 0;
                    while p < np
                        invariant
                            p <= np,
                            out.deep_view() == pls.take(p as int),
                        decreases np - p,
                    {
                        out.push(clone_payload(&f.payloads[p]));
                        proof {
                            assert(out.deep_view() =~~= pls.take(p as int + 1));
                        }
                        p = p + 1;
                    }
                    proof {
                        assert(out.deep_view() =~~= pls);
                    }
                } else {
                    proof {
                        assert(out.deep_view() =~~= Seq::<Seq<u8>>::empty());
                    }
                }
            },
            RecipientHeader::Group(v) => {
                let ghost g = crate::frame::group_model(v@);
                let ng = v.len();
                let mut gi: usize = 0;
                while gi < ng
                    invariant
                        gi <= ng,
                        out.deep_view() + Self::group_payloads(g, pls, addr, gi as int)
                            == Self::group_payloads(g, pls, addr, 0),
                    decreases ng - gi,
                {
                    let (ah, pf) = v[gi];
                    proof {
                        assert(g[gi as int] == (v@[gi as int].0.0, v@[gi as int].1.0));
                    }
                    if ah.get_address() == addr {
                        let ids = pf.to_message_ids();
                        let ghost base = out.deep_view();
                        let ni = ids.len();
                        let mut x: usize = 0;
                        while x < ni
                            invariant
                                x <= ni,
                                ni == ids@.len(),
                                ids@ == crate::frame::flag_ids(g[gi as int].1),
                                out.deep_view() + Self::ids_payloads(ids@, pls, x as int) == base
                                    + Self::ids_payloads(ids@, pls, 0),
                            decreases ni - x,
                        {
                            let id = ids[x] as usize;
                            let ghost before = out.deep_view();
                            if id < f.payloads.len() {
                                out.push(clone_payload(&f.payloads[id]));
                                proof {
                                    assert(out.deep_view() =~~= before.push(pls[id as int]));
                                }
                            }
                            proof {
                                assert(out.deep_view() + Self::ids_payloads(
                                    ids@,
                                    pls,
                                    x as int + 1,
                                ) =~~= before + Self::ids_payloads(ids@, pls, x as int));
                            }
                            x = x + 1;
                        }
                        proof {
                            assert(Self::ids_payloads(ids@, pls, ni as int)
                                =~~= Seq::<Seq<u8>>::empty());
                            assert(out.deep_view() =~~= base + Self::ids_payloads(ids@, pls, 0));
                            assert(out.deep_view() + Self::group_payloads(
                                g,
                                pls,
                                addr,
                                gi as int + 1,
                            ) =~~= base + Self::group_payloads(g, pls, addr, gi as int));
                        }
                    } else {
                        proof {
                            assert(addr_part(g[gi as int].0) != addr);
                            assert(out.deep_view() + Self::group_payloads(
                                g,
                                pls,
                                addr,
                                gi as int + 1,
                            ) =~~= out.deep_view() + Self::group_payloads(
                                g,
                                pls,
                                addr,
                                gi as int,
                            ));
                        }
                    }
                    gi = gi + 1;
                }
                proof {
                    assert(Self::group_payloads(g, pls, addr, ng as int)
                        =~~= Seq::<Seq<u8>>::empty());
                    assert(out.deep_view() =~~= Self::group_payloads(g, pls, addr, 0));
                }
            },
        }
        out
    }

    /// Whether the decoded headers interest this device: a direct
    /// frame to our address or the broadcast address, or a group
    /// containing either.
    pub open spec fn spec_interest(h: HeadersModel, me: u16) -> bool {
        match h.recipients {
            RecipModel::Direct(w) => addr_part(w) == me || addr_part(w)
                == GLOBAL_NO_ACKNOWLEDGMENT,
            RecipModel::Group(g) => exists|j: int|
                0 <= j < g.len() && (addr_part((#[trigger] g[j]).0) == me || addr_part(g[j].0)
                    == GLOBAL_NO_ACKNOWLEDGMENT),
        }
    }

    /// What a received lead slot decides: ignore it (wrong
    /// discriminant, not addressed to us, or an unusable slot count),
    /// collect its declared number of slots, or report a malformed
    /// header.
    pub open spec fn spec_lead_decision(lead: Seq<u8>, me: u16) -> Result<Option<u8>, ()> {
        if lead.len() == 0 {
            Ok(None)
        } else if lead[0] != FRAME_TYPE_MESSAGE && lead[0] != FRAME_TYPE_BEACON {
            Ok(None)
        } else {
            match dec_headers(lead.skip(1)) {
                None => Err(()),
                Some((h, _)) => {
                    if !Self::spec_interest(h, me) {
                        Ok(None)
                    } else {
                        let k = crate::frame::info_frames(h.info);
                        if 1 <= k <= 5 {
                            Ok(Some(k))
                        } else {
                            Ok(None)
                        }
                    }
                },
            }
        }
    }

    /// Classifies a received lead slot: how many slots to collect when
    /// the frame interests this device (capped at five, larger claims
    /// are rejected), nothing when it does not, an error when the
    /// header does not parse.
    pub fn classify_lead(&self, lead: &[u8]) -> (r: Result<Option<u8>, RadioError<()>>)
        ensures
            match r {
                Ok(op) => Self::spec_lead_decision(lead@, self.spec_address()) == Ok::<
                    Option<u8>,
                    (),
                >(op),
                Err(e) => Self::spec_lead_decision(lead@, self.spec_address()) == Err::<
                    Option<u8>,
                    (),
                >(()) && e is FrameError,
            },
    {
        if lead.len() == 0 {
            return Ok(None);
        }
        let d = lead[0];
        if d != FRAME_TYPE_MESSAGE && d != FRAME_TYPE_BEACON {
            return Ok(None);
        }
        let sub = vstd::slice::slice_subrange(lead, 1, lead.len());
        proof {
            assert(sub@ =~= lead@.skip(1));
        }
        match RadioHeaders::try_from_bytes(sub) {
            Err(e) => Err(RadioError::FrameError(e)),
            Ok((headers, _read)) => {
                let interested: bool = match &headers.recipients {
                    RecipientHeader::Direct(ah) => ah.get_address() == self.address
                        || ah.is_global(),
                    RecipientHeader::Group(v) => {
                        let ng = v.len();
                        let mut g: usize = 0;
                        let mut found = false;
                        while g < ng
                            invariant
                                g <= ng,
                                ng == v@.len(),
                                found == exists|j: int|
                                    0 <= j < g && (addr_part(
                                        (#[trigger] crate::frame::group_model(v@)[j]).0,
                                    ) == self.spec_address() || addr_part(
                                        crate::frame::group_model(v@)[j].0,
                                    ) == GLOBAL_NO_ACKNOWLEDGMENT),
                            decreases ng - g,
                        {
                            let (ah, _) = v[g];
                            if ah.get_address() == self.address || ah.is_global() {
                                proof {
                                    assert(addr_part(crate::frame::group_model(v@)[g as int].0)
                                        == ah.address());
                                }
                                found = true;
                            }
                            g = g + 1;
                        }
                        found
                    },
                };
                if !interested {
                    return Ok(None);
                }
                let k = headers.rec_n_frames.get_frames();
                if k >= 1 && k <= 5 {
                    Ok(Some(k))
                } else {
                    Ok(None)
                }
            },
        }
    }

    /// The success notifications the piggybacked acknowledgements owe:
    /// one per entry addressed to this device, in order, as
    /// (sender, acknowledged nonce, empty) triples.
    pub open spec fn success_pairs(
        acks: Seq<(u16, u64, i16)>,
        me: u16,
        sender: u16,
        k: int,
    ) -> Seq<(u16, u64, Seq<u8>)>
        decreases acks.len() - k,
    {
        if k < 0 || k >= acks.len() {
            Seq::empty()
        } else {
            (if addr_part(acks[k].0) == me {
                seq![(sender, acks[k].1, Seq::<u8>::empty())]
            } else {
                Seq::empty()
            }) + Self::success_pairs(acks, me, sender, k + 1)
        }
    }

    /// The union of the payload flags of every slot addressed to this
    /// device or to the broadcast address.
    pub open spec fn union_flags(g: Seq<(u16, u16)>, me: u16, i: int, acc: u16) -> u16
        decreases g.len() - i,
    {
        if i < 0 || i >= g.len() {
            acc
        } else {
            Self::union_flags(
                g,
                me,
                i + 1,
                if addr_part(g[i].0) == me || addr_part(g[i].0) == GLOBAL_NO_ACKNOWLEDGMENT {
                    acc | g[i].1
                } else {
                    acc
                },
            )
        }
    }

    /// The payloads one reception delivers to this device, in payload
    /// id order and once each: all of them for a direct frame, the
    /// union of the matching slots' flags for a group frame.
    pub open spec fn delivered_payloads(r: RecipModel, pls: Seq<Seq<u8>>, me: u16) -> Seq<
        Seq<u8>,
    > {
        match r {
            RecipModel::Direct(_) => pls,
            RecipModel::Group(g) => Self::ids_payloads(
                crate::frame::flag_ids(Self::union_flags(g, me, 0, 0)),
                pls,
                0,
            ),
        }
    }

    /// The delivery notifications of one reception.
    pub open spec fn received_pairs(pls: Seq<Seq<u8>>, sender: u16, nonce: u64) -> Seq<
        (u16, u64, Seq<u8>),
    > {
        pls.map_values(|pl: Seq<u8>| (sender, nonce, pl))
    }

    /// What one piggybacked acknowledgement does (or does not) to the
    /// power control.
    pub open spec fn ack_step(
        pre: DefaultATPC,
        post: DefaultATPC,
        me: u16,
        sender: u16,
        a: (u16, u64, i16),
    ) -> bool {
        if addr_part(a.0) == me {
            &&& crate::atpc::DefaultATPC::same_config(pre, post)
            &&& post.spec_beacons() == pre.spec_beacons()
            &&& post.spec_last_beacon() == pre.spec_last_beacon()
            &&& crate::atpc::DefaultATPC::ack_rel(pre, post, sender, a.1, a.2)
        } else {
            post == pre
        }
    }

    /// A trace of power-control states stepping through the frame's
    /// acknowledgement entries in order.
    pub open spec fn ack_trace_ok(
        trace: Seq<DefaultATPC>,
        acks: Seq<(u16, u64, i16)>,
        me: u16,
        sender: u16,
    ) -> bool {
        &&& trace.len() == acks.len() + 1
        &&& forall|k: int|
            0 <= k < acks.len() ==> Self::ack_step(
                trace[k],
                #[trigger] trace[k + 1],
                me,
                sender,
                acks[k],
            )
    }

    /// The power control was fed every acknowledgement addressed to
    /// this device, in order.
    pub open spec fn acks_applied(
        pre: DefaultATPC,
        post: DefaultATPC,
        acks: Seq<(u16, u64, i16)>,
        me: u16,
        sender: u16,
    ) -> bool {
        exists|trace: Seq<DefaultATPC>|
            #![trigger Self::ack_trace_ok(trace, acks, me, sender)]
            Self::ack_trace_ok(trace, acks, me, sender) && trace[0] == pre && trace[acks.len()
                as int] == post
    }

    /// Whether the frame's recipient entries ask us to acknowledge:
    /// some entry addressed to us (or broadcast) carries the flag.
    pub open spec fn spec_wants_ack(r: RecipModel, me: u16) -> bool {
        match r {
            RecipModel::Direct(w) => crate::frame::ack_part(w),
            RecipModel::Group(g) => exists|j: int|
                0 <= j < g.len() && (addr_part((#[trigger] g[j]).0) == me || addr_part(g[j].0)
                    == GLOBAL_NO_ACKNOWLEDGMENT) && crate::frame::ack_part(g[j].0),
        }
    }

    /// Handles a fully reassembled inbound frame: feeds piggybacked
    /// acknowledgements addressed to us into the power control, marks
    /// the matching pending entries satisfied (they then age out
    /// silently instead of firing), delivers the payloads addressed to
    /// us exactly once each, and owes the sender an acknowledgement
    /// when one was requested.  `drssi` is the delta between our RSSI
    /// target and the lead slot's measured RSSI.
    ///
    /// Fails exactly on the byte streams the frame decoding rejects.
    #[verifier::loop_isolation(false)]
    pub fn handle_message(&mut self, msg: &[u8], drssi: i16) -> (r: Result<
        (bool, Vec<DeviceEvent>),
        RadioError<()>,
    >)
        requires
            old(self).wf(),
        ensures
            final(self).wf(),
            final(self).spec_channels() == old(self).spec_channels(),
            final(self).spec_usages() == old(self).spec_usages(),
            final(self).spec_buffer() == old(self).spec_buffer(),
            final(self).spec_buf_acks() == old(self).spec_buf_acks(),
            final(self).spec_frame() == old(self).spec_frame(),
            final(self).spec_history() == old(self).spec_history(),
            final(self).spec_address() == old(self).spec_address(),
            final(self).spec_last_nonce() == old(self).spec_last_nonce(),
            final(self).spec_rssi_target() == old(self).spec_rssi_target(),
            crate::atpc::DefaultATPC::same_config(old(self).spec_atpc(), final(self).spec_atpc()),
            match r {
                Err(e) => {
                    &&& crate::frame::dec_frame(msg@) is None
                    &&& e is FrameError
                    &&& final(self).spec_pending_tx() == old(self).spec_pending_tx()
                    &&& final(self).spec_pending_rx() == old(self).spec_pending_rx()
                    &&& final(self).spec_atpc() == old(self).spec_atpc()
                },
                Ok((delivered, events)) => (crate::frame::dec_frame(msg@) matches Some(d) && {
                    let fm = d.0;
                    &&& delivered == (match fm.headers.recipients {
                        RecipModel::Direct(_) => true,
                        RecipModel::Group(g) => exists|j: int|
                            0 <= j < g.len() && (addr_part((#[trigger] g[j]).0) == old(
                                self,
                            ).spec_address() || addr_part(g[j].0) == GLOBAL_NO_ACKNOWLEDGMENT),
                    })
                    &&& final(self).spec_pending_tx().len() == old(self).spec_pending_tx().len()
                    &&& forall|j: int|
                        0 <= j < old(self).spec_pending_tx().len() ==> {
                            let oe = old(self).spec_pending_tx()[j];
                            let ne = #[trigger] final(self).spec_pending_tx()[j];
                            &&& ne.recipient == oe.recipient
                            &&& ne.nonce == oe.nonce
                            &&& ne.deadline_us == oe.deadline_us
                            &&& ne.update_atpc == oe.update_atpc
                            &&& ne.satisfied == (oe.satisfied || exists|k: int|
                                0 <= k < fm.acks.len() && addr_part((#[trigger] fm.acks[k]).0)
                                    == old(self).spec_address() && addr_part(fm.headers.sender)
                                    == oe.recipient.address() && fm.acks[k].1 == oe.nonce)
                        }
                    &&& final(self).spec_pending_rx() == old(self).spec_pending_rx() + (
                    if delivered && Self::spec_wants_ack(
                        fm.headers.recipients,
                        old(self).spec_address(),
                    ) {
                        seq![
                            (
                                AddressHeader(fm.headers.sender),
                                fm.headers.nonce,
                                drssi,
                            ),
                        ]
                    } else {
                        Seq::empty()
                    })
                    // The events are exactly the success notifications
                    // (one per acknowledgement addressed to us, in
                    // order) followed by the deliveries (one per
                    // payload addressed to us, in id order).
                    &&& crate::device::event_pairs(events@) == Self::success_pairs(
                        fm.acks,
                        old(self).spec_address(),
                        addr_part(fm.headers.sender),
                        0,
                    ) + Self::received_pairs(
                        Self::delivered_payloads(
                            fm.headers.recipients,
                            fm.payloads,
                            old(self).spec_address(),
                        ),
                        addr_part(fm.headers.sender),
                        fm.headers.nonce,
                    )
                    &&& forall|k: int|
                        0 <= k < Self::success_pairs(
                            fm.acks,
                            old(self).spec_address(),
                            addr_part(fm.headers.sender),
                            0,
                        ).len() ==> (#[trigger] events@[k]) is TransmissionSuccessful
                    &&& forall|k: int|
                        Self::success_pairs(
                            fm.acks,
                            old(self).spec_address(),
                            addr_part(fm.headers.sender),
                            0,
                        ).len() <= k < events@.len() ==> (#[trigger] events@[k]) is Received
                    &&& Self::acks_applied(
                        old(self).spec_atpc(),
                        final(self).spec_atpc(),
                        fm.acks,
                        old(self).spec_address(),
                        addr_part(fm.headers.sender),
                    )
                }),
            },
    {
        let (frame, _consumed) = match RadioFrameWithHeaders::try_from_bytes(msg) {
            Err(e) => {
                return Err(RadioError::FrameError(e));
            },
            Ok(p) => p,
        };
        let ghost fm = frame.model();
        let sender = frame.headers.sender.get_address();
        let nonce = frame.headers.nonce;
        let mut events: Vec<DeviceEvent> = Vec::new();
        // Acknowledgements addressed to us.
        let ghost entry0 = *self;
        let ghost me = entry0.spec_address();
        let ghost sp0 = Self::success_pairs(fm.acks, me, sender, 0);
        let ghost mut atrace: Seq<DefaultATPC> = seq![self.spec_atpc()];
        proof {
            crate::frame::lemma_payloads_deep_view(&frame.payloads);
        }
        let na = frame.acknowledgements.len();
        let mut k: usize = 0;
        while k < na
            invariant
                k <= na,
                na == frame.acknowledgements@.len(),
                na == fm.acks.len(),
                fm == frame.model(),
                sender == addr_part(fm.headers.sender),
                self.wf(),
                self.spec_channels() == entry0.spec_channels(),
                self.spec_usages() == entry0.spec_usages(),
                self.spec_buffer() == entry0.spec_buffer(),
                self.spec_buf_acks() == entry0.spec_buf_acks(),
                self.spec_frame() == entry0.spec_frame(),
                self.spec_history() == entry0.spec_history(),
                self.spec_pending_rx() == entry0.spec_pending_rx(),
                self.spec_pending_tx() == entry0.spec_pending_tx(),
                self.spec_address() == entry0.spec_address(),
                self.spec_last_nonce() == entry0.spec_last_nonce(),
                self.spec_rssi_target() == entry0.spec_rssi_target(),
                crate::atpc::DefaultATPC::same_config(entry0.spec_atpc(), self.spec_atpc()),
                atrace.len() == k + 1,
                atrace[0] == entry0.spec_atpc(),
                atrace[k as int] == self.spec_atpc(),
                forall|t: int|
                    0 <= t < k ==> Self::ack_step(
                        atrace[t],
                        #[trigger] atrace[t + 1],
                        me,
                        sender,
                        fm.acks[t],
                    ),
                crate::device::event_pairs(events@) + Self::success_pairs(
                    fm.acks,
                    me,
                    sender,
                    k as int,
                ) == sp0,
                forall|t: int|
                    0 <= t < events@.len() ==> (#[trigger] events@[t]) is TransmissionSuccessful,
            decreases na - k,
        {
            let (ah, anonce, adrssi) = frame.acknowledgements[k];
            let ghost amid = self.spec_atpc();
            let ghost evs0 = events@;
            if ah.get_address() == self.address {
                self.atpc.record_ack(sender, anonce, adrssi);
                events.push(DeviceEvent::TransmissionSuccessful(sender, anonce));
                proof {
                    assert(fm.acks[k as int] == (ah.0, anonce, adrssi));
                    assert(addr_part(fm.acks[k as int].0) == ah.address());
                    assert(crate::device::event_pairs(events@) =~~= crate::device::event_pairs(
                        evs0,
                    ) + seq![(sender, anonce, Seq::<u8>::empty())]);
                    assert(Self::success_pairs(fm.acks, me, sender, k as int) =~~= seq![
                        (sender, anonce, Seq::<u8>::empty()),
                    ] + Self::success_pairs(fm.acks, me, sender, k as int + 1));
                    assert(crate::device::event_pairs(events@) + Self::success_pairs(
                        fm.acks,
                        me,
                        sender,
                        k as int + 1,
                    ) =~~= crate::device::event_pairs(evs0) + Self::success_pairs(
                        fm.acks,
                        me,
                        sender,
                        k as int,
                    ));
                }
            } else {
                proof {
                    assert(addr_part(fm.acks[k as int].0) == ah.address());
                    assert(Self::success_pairs(fm.acks, me, sender, k as int)
                        == Self::success_pairs(fm.acks, me, sender, k as int + 1));
                }
            }
            proof {
                atrace = atrace.push(self.spec_atpc());
                assert(Self::ack_step(amid, self.spec_atpc(), me, sender, fm.acks[k as int]));
                assert(forall|t: int|
                    0 <= t < k ==> Self::ack_step(
                        atrace[t],
                        #[trigger] atrace[t + 1],
                        me,
                        sender,
                        fm.acks[t],
                    ));
                assert(Self::ack_step(
                    atrace[k as int],
                    atrace[k as int + 1],
                    me,
                    sender,
                    fm.acks[k as int],
                ));
            }
            k = k + 1;
        }
        proof {
            assert(Self::success_pairs(fm.acks, me, sender, na as int)
                =~~= Seq::<(u16, u64, Seq<u8>)>::empty());
            assert(crate::device::event_pairs(events@) =~~= sp0);
            assert(Self::ack_trace_ok(atrace, fm.acks, me, sender));
        }
        let ghost spn = events@.len();
        // Mark satisfied the pending entries the acknowledgements
        // answer.
        let ghost pend0 = self.pending_tx_acknowledgments@;
        let ghost marked0 = *self;
        let np = self.pending_tx_acknowledgments.len();
        let mut j: usize = 0;
        while j < np
            invariant
                j <= np,
                np == pend0.len(),
                self.pending_tx_acknowledgments@.len() == pend0.len(),
                self.wf(),
                self.spec_channels() == marked0.spec_channels(),
                self.spec_usages() == marked0.spec_usages(),
                self.spec_buffer() == marked0.spec_buffer(),
                self.spec_buf_acks() == marked0.spec_buf_acks(),
                self.spec_frame() == marked0.spec_frame(),
                self.spec_history() == marked0.spec_history(),
                self.spec_pending_rx() == marked0.spec_pending_rx(),
                self.spec_last_nonce() == marked0.spec_last_nonce(),
                self.spec_rssi_target() == marked0.spec_rssi_target(),
                self.spec_atpc() == marked0.spec_atpc(),
                fm == frame.model(),
                sender == addr_part(fm.headers.sender),
                self.spec_address() == entry0.spec_address(),
                frame.acknowledgements@.len() == fm.acks.len(),
                forall|t: int|
                    j <= t < np ==> #[trigger] self.pending_tx_acknowledgments@[t] == pend0[t],
                forall|t: int|
                    0 <= t < j ==> {
                        let oe = pend0[t];
                        let ne = #[trigger] self.pending_tx_acknowledgments@[t];
                        &&& ne.recipient == oe.recipient
                        &&& ne.nonce == oe.nonce
                        &&& ne.deadline_us == oe.deadline_us
                        &&& ne.update_atpc == oe.update_atpc
                        &&& ne.satisfied == (oe.satisfied || exists|x: int|
                            0 <= x < fm.acks.len() && addr_part((#[trigger] fm.acks[x]).0)
                                == entry0.spec_address() && addr_part(fm.headers.sender)
                                == oe.recipient.address() && fm.acks[x].1 == oe.nonce)
                    },
            decreases np - j,
        {
            let e = self.pending_tx_acknowledgments[j];
            let mut matched = false;
            let mut x: usize = 0;
            while x < na
                invariant
                    x <= na,
                    na == frame.acknowledgements@.len(),
                    fm == frame.model(),
                    e == self.pending_tx_acknowledgments@[j as int],
                    j < self.pending_tx_acknowledgments@.len(),
                    sender == addr_part(fm.headers.sender),
                    matched == exists|t: int|
                        0 <= t < x && addr_part((#[trigger] fm.acks[t]).0) == entry0.spec_address()
                            && addr_part(fm.headers.sender) == e.recipient.address() && fm.acks[
                            t
                        ].1 == e.nonce,
                    self.spec_address() == entry0.spec_address(),
                decreases na - x,
            {
                let (ah, anonce, _ad) = frame.acknowledgements[x];
                if ah.get_address() == self.address && sender == e.recipient.get_address()
                    && anonce == e.nonce {
                    proof {
                        assert(addr_part(fm.acks[x as int].0) == ah.address());
                    }
                    matched = true;
                }
                x = x + 1;
            }
            if matched && !e.satisfied {
                let ne = PendingTxAck { satisfied: true, ..e };
                self.pending_tx_acknowledgments.set(j, ne);
            }
            j = j + 1;
        }
        // Deliver the payloads addressed to us.
        let mut delivered = false;
        let mut want_ack = false;
        match &frame.headers.recipients {
            RecipientHeader::Direct(ah) => {
                delivered = true;
                want_ack = ah.get_acknowledgment();
                let ghost rp = Self::received_pairs(fm.payloads, sender, fm.headers.nonce);
                proof {
                    assert(rp.skip(0) =~~= rp);
                }
                let npl = frame.payloads.len();
                let mut p: usize = 0;
                while p < npl
                    invariant
                        p <= npl,
                        npl == frame.payloads@.len(),
                        npl == fm.payloads.len(),
                        npl == rp.len(),
                        fm == frame.model(),
                        rp == Self::received_pairs(fm.payloads, sender, fm.headers.nonce),
                        sender == addr_part(fm.headers.sender),
                        nonce == fm.headers.nonce,
                        forall|t: int|
                            0 <= t < fm.payloads.len() ==> #[trigger] fm.payloads[t]
                                == frame.payloads@[t]@,
                        crate::device::event_pairs(events@) + rp.skip(p as int) == sp0 + rp,
                        spn <= events@.len(),
                        forall|t: int| 0 <= t < spn ==> (#[trigger] events@[t])
                            is TransmissionSuccessful,
                        forall|t: int|
                            spn <= t < events@.len() ==> (#[trigger] events@[t]) is Received,
                    decreases npl - p,
                {
                    let body = clone_payload(&frame.payloads[p]);
                    let ghost evs0 = events@;
                    events.push(DeviceEvent::Received(sender, body, nonce));
                    proof {
                        assert(rp[p as int] == (sender, fm.headers.nonce, fm.payloads[p as int]));
                        assert(crate::device::event_pairs(events@)
                            =~~= crate::device::event_pairs(evs0) + seq![(sender, nonce, body@)]);
                        assert(rp.skip(p as int) =~~= seq![rp[p as int]] + rp.skip(p as int + 1));
                        assert(crate::device::event_pairs(events@) + rp.skip(p as int + 1)
                            =~~= crate::device::event_pairs(evs0) + rp.skip(p as int));
                    }
                    p = p + 1;
                }
                proof {
                    assert(rp.skip(npl as int) =~~= Seq::<(u16, u64, Seq<u8>)>::empty());
                    assert(crate::device::event_pairs(events@) =~~= sp0 + rp);
                }
            },
            RecipientHeader::Group(v) => {
                let ghost g = crate::frame::group_model(v@);
                let ng = v.len();
                let mut uf = PayloadFlag(0);
                let mut gi: usize = 0;
                while gi < ng
                    invariant
                        gi <= ng,
                        ng == v@.len(),
                        g == crate::frame::group_model(v@),
                        delivered == exists|t: int|
                            0 <= t < gi && (addr_part((#[trigger] g[t]).0)
                                == entry0.spec_address() || addr_part(g[t].0)
                                == GLOBAL_NO_ACKNOWLEDGMENT),
                        want_ack == exists|t: int|
                            0 <= t < gi && (addr_part((#[trigger] g[t]).0)
                                == entry0.spec_address() || addr_part(g[t].0)
                                == GLOBAL_NO_ACKNOWLEDGMENT) && crate::frame::ack_part(g[t].0),
                        !delivered ==> uf.0 == 0,
                        Self::union_flags(g, me, gi as int, uf.0) == Self::union_flags(
                            g,
                            me,
                            0,
                            0,
                        ),
                        self.spec_address() == entry0.spec_address(),
                    decreases ng - gi,
                {
                    let (ah, pf) = v[gi];
                    if ah.get_address() == self.address || ah.is_global() {
                        proof {
                            assert(addr_part(g[gi as int].0) == ah.address());
                            assert(crate::frame::ack_part(g[gi as int].0) == ah.ack());
                            assert(g[gi as int].1 == pf.0);
                        }
                        delivered = true;
                        if ah.get_acknowledgment() {
                            want_ack = true;
                        }
                        uf.0 = uf.0 | pf.0;
                    } else {
                        proof {
                            assert(addr_part(g[gi as int].0) == ah.address());
                        }
                    }
                    gi = gi + 1;
                }
                proof {
                    assert(Self::union_flags(g, me, ng as int, uf.0) == uf.0);
                }
                let ghost dlv = Self::delivered_payloads(fm.headers.recipients, fm.payloads, me);
                let ghost rp = Self::received_pairs(dlv, sender, fm.headers.nonce);
                if delivered {
                    let ids = uf.to_message_ids();
                    proof {
                        assert(ids@ == crate::frame::flag_ids(Self::union_flags(g, me, 0, 0)));
                        assert(dlv == Self::ids_payloads(ids@, fm.payloads, 0));
                    }
                    let ni = ids.len();
                    let mut x2: usize = 0;
                    while x2 < ni
                        invariant
                            x2 <= ni,
                            ni == ids@.len(),
                            fm == frame.model(),
                            sender == addr_part(fm.headers.sender),
                            nonce == fm.headers.nonce,
                            dlv == Self::ids_payloads(ids@, fm.payloads, 0),
                            rp == Self::received_pairs(dlv, sender, fm.headers.nonce),
                            forall|t: int|
                                0 <= t < fm.payloads.len() ==> #[trigger] fm.payloads[t]
                                    == frame.payloads@[t]@,
                            crate::device::event_pairs(events@) + Self::received_pairs(
                                Self::ids_payloads(ids@, fm.payloads, x2 as int),
                                sender,
                                fm.headers.nonce,
                            ) == sp0 + rp,
                            spn <= events@.len(),
                            forall|t: int| 0 <= t < spn ==> (#[trigger] events@[t])
                                is TransmissionSuccessful,
                            forall|t: int|
                                spn <= t < events@.len() ==> (#[trigger] events@[t]) is Received,
                        decreases ni - x2,
                    {
                        let id = ids[x2] as usize;
                        let ghost evs0 = events@;
                        if id < frame.payloads.len() {
                            let body = clone_payload(&frame.payloads[id]);
                            events.push(DeviceEvent::Received(sender, body, nonce));
                            proof {
                                assert(Self::ids_payloads(ids@, fm.payloads, x2 as int)
                                    =~~= seq![fm.payloads[id as int]] + Self::ids_payloads(
                                    ids@,
                                    fm.payloads,
                                    x2 as int + 1,
                                ));
                                assert(Self::received_pairs(
                                    Self::ids_payloads(ids@, fm.payloads, x2 as int),
                                    sender,
                                    fm.headers.nonce,
                                ) =~~= seq![(sender, fm.headers.nonce, fm.payloads[id as int])]
                                    + Self::received_pairs(
                                    Self::ids_payloads(ids@, fm.payloads, x2 as int + 1),
                                    sender,
                                    fm.headers.nonce,
                                ));
                                assert(crate::device::event_pairs(events@)
                                    =~~= crate::device::event_pairs(evs0) + seq![
                                    (sender, nonce, body@),
                                ]);
                            }
                        } else {
                            proof {
                                assert(Self::ids_payloads(ids@, fm.payloads, x2 as int)
                                    =~~= Self::ids_payloads(ids@, fm.payloads, x2 as int + 1));
                            }
                        }
                        x2 = x2 + 1;
                    }
                    proof {
                        assert(Self::ids_payloads(ids@, fm.payloads, ni as int)
                            =~~= Seq::<Seq<u8>>::empty());
                        assert(Self::received_pairs(
                            Self::ids_payloads(ids@, fm.payloads, ni as int),
                            sender,
                            fm.headers.nonce,
                        ) =~~= Seq::<(u16, u64, Seq<u8>)>::empty());
                        assert(crate::device::event_pairs(events@) =~~= sp0 + rp);
                    }
                } else {
                    proof {
                        // Nobody matched: the flag union is zero, so
                        // nothing is delivered.
                        assert(crate::frame::flag_ids(0u16).len() == 0) by {
                            crate::frame::lemma_flag_ids(0u16);
                            if crate::frame::flag_ids(0u16).len() > 0 {
                                let b = crate::frame::flag_ids(0u16)[0];
                                assert(crate::frame::flag_ids(0u16).contains(b));
                                crate::frame::lemma_has_bit_zero(b);
                            }
                        }
                        assert(dlv =~~= Seq::<Seq<u8>>::empty());
                        assert(rp =~~= Seq::<(u16, u64, Seq<u8>)>::empty());
                        assert(crate::device::event_pairs(events@) =~~= sp0 + rp);
                    }
                }
            },
        }
        // Owe the sender an acknowledgement when one was requested.
        if delivered && want_ack {
            self.pending_rx_acknowledgments.push(
                (AddressHeader(frame.headers.sender.0), nonce, drssi),
            );
        }
        proof {
            if !(delivered && want_ack) {
                assert(self.spec_pending_rx() =~= entry0.spec_pending_rx() + Seq::empty());
            }
        }
        Ok((delivered, events))
    }


    /// Whether the power control would like a beacon round now.
    pub fn is_beacon_needed(&self, now_us: u64) -> (r: bool)
        requires
            self.wf(),
        ensures
            r == (spec_elapsed(self.spec_atpc().spec_last_beacon(), now_us) > self.spec_atpc(
            ).spec_beacon_delay() || exists|k: int|
                0 <= k < self.spec_atpc().spec_neighbors().len() && (#[trigger] self.spec_atpc(
                ).spec_neighbors()[k]).status == crate::atpc::NeighborStatus::Initializing),
    {
        self.atpc.beacon_due(now_us)
    }

    /// The power control, for inspection.
    pub fn power_control(&self) -> (r: &DefaultATPC)
        ensures
            *r == self.spec_atpc(),
    {
        &self.atpc
    }

    /// The frame a beacon carries: a direct broadcast-with-
    /// acknowledgement with one empty payload, in a single slot.
    pub open spec fn beacon_model(sender: u16, nonce: u64) -> crate::frame::FrameModel {
        crate::frame::FrameModel {
            headers: HeadersModel {
                info: crate::frame::info_pack(1, 1),
                recipients: RecipModel::Direct(GLOBAL_ACKNOWLEDGMENT),
                sender,
                payload_count: 1,
                nonce,
            },
            acks: Seq::empty(),
            payloads: seq![Seq::empty()],
        }
    }

    /// Readies a beacon round: one broadcast-with-acknowledgement
    /// frame per configured transmission power, each with a fresh
    /// nonce registered with the power control under its power index,
    /// so the answering acknowledgement updates the right RSSI
    /// sample.  Every beacon travels in a single slot on the first
    /// channel, led by the beacon discriminant byte; the caller
    /// transmits each at its power and credits the channel with
    /// `record_slot`.
    ///
    /// Fails exactly when the first channel's regulations refuse a
    /// transmission now.
    #[verifier::loop_isolation(false)]
    #[verifier::rlimit(50)]
    pub fn beacon_prepare(&mut self, now_s: u64, now_us: u64) -> (r: Result<
        Vec<(i8, Vec<u8>, FrameNonce)>,
        RadioError<()>,
    >)
        requires
            old(self).wf(),
        ensures
            final(self).wf(),
            final(self).spec_channels() == old(self).spec_channels(),
            final(self).spec_usages() == old(self).spec_usages(),
            final(self).spec_buffer() == old(self).spec_buffer(),
            final(self).spec_buf_acks() == old(self).spec_buf_acks(),
            final(self).spec_frame() == old(self).spec_frame(),
            final(self).spec_pending_rx() == old(self).spec_pending_rx(),
            final(self).spec_pending_tx() == old(self).spec_pending_tx(),
            final(self).spec_address() == old(self).spec_address(),
            final(self).spec_rssi_target() == old(self).spec_rssi_target(),
            crate::atpc::DefaultATPC::same_config(old(self).spec_atpc(), final(self).spec_atpc()),
            final(self).spec_atpc().spec_neighbors() == old(self).spec_atpc().spec_neighbors(),
            match r {
                Ok(v) => {
                    &&& old(self).spec_channel_fault(0, 1, now_us) is None
                    &&& v@.len() == old(self).spec_atpc().spec_powers().len()
                    &&& forall|i: int|
                        0 <= i < v@.len() ==> (#[trigger] v@[i]).0 == old(
                            self,
                        ).spec_atpc().spec_powers()[i]
                    // Each beacon's bytes are exactly the beacon
                    // discriminant followed by the broadcast-with-
                    // acknowledgement frame carrying its nonce.
                    &&& forall|i: int|
                        0 <= i < v@.len() ==> (#[trigger] v@[i]).1@ == seq![FRAME_TYPE_BEACON]
                            + enc_frame(
                            Self::beacon_model(old(self).spec_address(), v@[i].2),
                        )
                    &&& (v@.len() > 0 ==> final(self).spec_atpc().spec_last_beacon() == now_us)
                    // The nonces are fresh and strictly increasing, and
                    // the power control remembers each under its power
                    // index (entries may age out of the bounded
                    // registry, but never change their index).
                    &&& (final(self).spec_last_nonce() < u64::MAX ==> forall|i1: int, i2: int|
                        0 <= i1 < i2 < v@.len() ==> (#[trigger] v@[i1]).2 < (#[trigger] v@[
                            i2
                        ]).2)
                    &&& (final(self).spec_last_nonce() < u64::MAX ==> forall|i: int|
                        0 <= i < v@.len()
                            ==> (final(self).spec_atpc().spec_beacons().dom().contains(
                            (#[trigger] v@[i]).2,
                        ) ==> final(self).spec_atpc().spec_beacons()[v@[i].2] == i as u8))
                    &&& (v@.len() > 0 ==> final(self).spec_atpc().spec_beacons().contains_pair(
                        v@[v@.len() - 1].2,
                        (v@.len() - 1) as u8,
                    ))
                },
                Err(e) => {
                    &&& *final(self) == *old(self)
                    &&& (e is DutyCycleConsumed <==> old(self).spec_channel_fault(0, 1, now_us)
                        == Some(ChannelFault::Duty))
                    &&& (e is MinChannelDelayError <==> old(self).spec_channel_fault(
                        0,
                        1,
                        now_us,
                    ) == Some(ChannelFault::MinDelay))
                    &&& (e is DutyCycleConsumed || e is MinChannelDelayError)
                },
            },
    {
        match self.transmission_check(1, now_us) {
            Ok(()) => {},
            Err(e) => {
                return Err(e);
            },
        }
        let powers = self.atpc.beacon_powers();
        let ghost entry0 = *self;
        let np = powers.len();
        let mut out: Vec<(i8, Vec<u8>, FrameNonce)> = Vec::new();
        let mut i: usize = 0;
        while i < np
            invariant
                i <= np,
                np == powers@.len(),
                powers@ == entry0.spec_atpc().spec_powers(),
                out@.len() == i,
                self.wf(),
                self.spec_channels() == entry0.spec_channels(),
                self.spec_usages() == entry0.spec_usages(),
                self.spec_buffer() == entry0.spec_buffer(),
                self.spec_buf_acks() == entry0.spec_buf_acks(),
                self.spec_frame() == entry0.spec_frame(),
                self.spec_pending_rx() == entry0.spec_pending_rx(),
                self.spec_pending_tx() == entry0.spec_pending_tx(),
                self.spec_address() == entry0.spec_address(),
                self.spec_rssi_target() == entry0.spec_rssi_target(),
                crate::atpc::DefaultATPC::same_config(entry0.spec_atpc(), self.spec_atpc()),
                self.spec_atpc().spec_neighbors() == entry0.spec_atpc().spec_neighbors(),
                self.spec_atpc().spec_powers() == entry0.spec_atpc().spec_powers(),
                i > 0 ==> self.spec_atpc().spec_last_beacon() == now_us,
                self.spec_last_nonce() >= entry0.spec_last_nonce(),
                forall|q: int|
                    0 <= q < i ==> (#[trigger] out@[q]).0 == powers@[q],
                forall|q: int|
                    0 <= q < i ==> (#[trigger] out@[q]).1@ == seq![FRAME_TYPE_BEACON]
                        + enc_frame(
                        Self::beacon_model(old(self).spec_address(), out@[q].2),
                    ),
                forall|q: int| 0 <= q < i ==> (#[trigger] out@[q]).2 <= self.spec_last_nonce(),
                self.spec_last_nonce() < u64::MAX ==> forall|q1: int, q2: int|
                    0 <= q1 < q2 < i ==> (#[trigger] out@[q1]).2 < (#[trigger] out@[q2]).2,
                self.spec_last_nonce() < u64::MAX ==> forall|q: int|
                    0 <= q < i ==> (self.spec_atpc().spec_beacons().dom().contains(
                        (#[trigger] out@[q]).2,
                    ) ==> self.spec_atpc().spec_beacons()[out@[q].2] == q as u8),
                i > 0 ==> self.spec_atpc().spec_beacons().contains_pair(
                    out@[i - 1].2,
                    (i - 1) as u8,
                ),
            decreases np - i,
        {
            // One empty broadcast-with-acknowledgement message.
            let mut dest: Vec<u16> = Vec::new();
            dest.push(GLOBAL_ACKNOWLEDGMENT);
            let body: Vec<u8> = Vec::new();
            let mut buf: Vec<LoRaMessage> = Vec::new();
            buf.push(LoRaMessage { dest, payload: body });
            let acks: Vec<(AddressHeader, FrameNonce, i16)> = Vec::new();
            let ghost pre_nonce = self.spec_last_nonce();
            let nonce = self.next_nonce(now_s);
            proof {
                // The beacon buffer expands to the single broadcast
                // word, so the builder cannot refuse it.
                assert(buf@[0].dest@ =~= seq![GLOBAL_ACKNOWLEDGMENT]);
                assert(buf@[0].payload@ =~= Seq::<u8>::empty());
                assert(!Seq::<u16>::empty().contains(GLOBAL_ACKNOWLEDGMENT));
                assert(add_word(Seq::empty(), GLOBAL_ACKNOWLEDGMENT) =~= seq![
                    GLOBAL_ACKNOWLEDGMENT,
                ]);
                assert(words_of_dest(seq![GLOBAL_ACKNOWLEDGMENT], buf@[0].dest@, 1) =~= seq![
                    GLOBAL_ACKNOWLEDGMENT,
                ]);
                assert(words_of_dest(Seq::empty(), buf@[0].dest@, 0) =~= seq![
                    GLOBAL_ACKNOWLEDGMENT,
                ]);
                assert(words_of_msgs(seq![GLOBAL_ACKNOWLEDGMENT], buf@, 1) =~= seq![
                    GLOBAL_ACKNOWLEDGMENT,
                ]);
                assert(words_of_msgs(Seq::empty(), buf@, 0) =~= seq![GLOBAL_ACKNOWLEDGMENT]);
                assert(recip_words(buf@, acks@) =~= seq![GLOBAL_ACKNOWLEDGMENT]);
                let pm = buffer_payloads(buf@);
                assert(pm.len() == 1 && pm[0] =~= Seq::<u8>::empty());
                assert(size_payloads_from(pm, 1) == 0);
                assert(size_payloads_from(pm, 0) == 2);
                assert(payload_block_size(buf@) == 2);
                assert(built_frame_size(buf@, acks@) == 18);
                assert(built_lead_size(buf@, acks@) == 17);
                assert(acks_model(acks@) =~= Seq::<(u16, u64, i16)>::empty());
            }
            let f = match build_frame(self.address, &buf, &acks, nonce) {
                Ok(f) => f,
                Err(_) => {
                    proof {
                        assert(false);
                    }
                    vstd::pervasive::unreached()
                },
            };
            let ghost fmodel = f.model();
            proof {
                assert((18int + 252) / 253 == 1);
                assert(fmodel.headers.recipients == RecipModel::Direct(GLOBAL_ACKNOWLEDGMENT))
                    by {
                    match fmodel.headers.recipients {
                        RecipModel::Direct(w) => {
                            assert(w == recip_words(buf@, acks@)[0]);
                        },
                        RecipModel::Group(g) => {
                            assert(g.len() == recip_words(buf@, acks@).len());
                            assert(false);
                        },
                    }
                }
                assert(fmodel.payloads =~~= seq![Seq::<u8>::empty()]) by {
                    assert(fmodel.payloads == buffer_payloads(buf@));
                    assert(buffer_payloads(buf@).len() == 1);
                    assert(buffer_payloads(buf@)[0] == buf@[0].payload@);
                }
                assert(fmodel =~~= Self::beacon_model(old(self).spec_address(), nonce));
            }
            self.atpc.note_beacon(i, nonce, now_us);
            // Archive, bounded.
            let bytes = f.to_bytes();
            self.tx_history.push(f);
            if self.tx_history.len() > PENDING_CAPACITY {
                let _ = self.tx_history.remove(0);
            }
            let mut slot: Vec<u8> = Vec::new();
            slot.push(FRAME_TYPE_BEACON);
            let nb = bytes.len();
            let mut b: usize = 0;
            while b < nb
                invariant
                    b <= nb,
                    nb == bytes@.len(),
                    slot@ == seq![FRAME_TYPE_BEACON] + bytes@.take(b as int),
                decreases nb - b,
            {
                slot.push(bytes[b]);
                proof {
                    assert(slot@ =~= seq![FRAME_TYPE_BEACON] + bytes@.take(b as int + 1));
                }
                b = b + 1;
            }
            proof {
                assert(bytes@.take(nb as int) =~= bytes@);
                assert(slot@ == seq![FRAME_TYPE_BEACON] + enc_frame(
                    Self::beacon_model(old(self).spec_address(), nonce),
                ));
                // Freshness: this nonce sits strictly above every
                // earlier one unless the generator saturated.
                if self.spec_last_nonce() < u64::MAX {
                    assert(pre_nonce < u64::MAX);
                    assert(nonce > pre_nonce);
                }
            }
            out.push((powers[i], slot, nonce));
            i = i + 1;
        }
        Ok(out)
    }

    /// The delta between this device's RSSI target and a measured
    /// RSSI, clamped to the sixteen-bit range the wire carries.
    pub fn rssi_delta(&self, measured: i16) -> (r: i16)
        ensures
            r as int == crate::atpc::clamp_i16(self.spec_rssi_target() - measured) as int,
    {
        let d: i32 = (self.rssi_target as i32) - (measured as i32);
        if d < i16::MIN as i32 {
            i16::MIN
        } else if d > i16::MAX as i32 {
            i16::MAX
        } else {
            d as i16
        }
    }

}

} // verus!
