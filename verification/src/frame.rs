//! Frame description, utilities and helpers.
//!
//! The wire layout is byte exact: every multi-byte integer is
//! big-endian, headers are bit packed, and the encoded length of a
//! frame is a function of its contents alone.

use vstd::prelude::*;

use crate::bytes::{
    dec_be, enc_be, lemma_dec_be_frame, lemma_enc_be_len, lemma_enc_dec_be, lemma_pow256_unfold,
    pow256, push_be, read_be,
};

verus! {

/// Type alias for a frame nonce.
pub type FrameNonce = u64;

/// The constant size of a frame nonce on the wire.
pub const FRAME_NONCE_SIZE: usize = 8;

/// Type alias for a payload (a simple byte sequence).
pub type Payload = Vec<u8>;

/// Type alias for a frame body.
pub type RadioFrame = Vec<Payload>;

/// Special address reserved for a global message with acknowledgement.
pub const GLOBAL_ACKNOWLEDGMENT: u16 = 0xFFFF;

/// Special address reserved for a global message without acknowledgement.
pub const GLOBAL_NO_ACKNOWLEDGMENT: u16 = 0x7FFF;

/// Bit mask of the address part of an address header.
pub const ADDRESS_BITMASK: u16 = 0x7FFF;

/// Bit mask of the acknowledgement part of an address header.
pub const ACKNOWLEDGMENT_BITMASK: u16 = 0x8000;

/// Discriminant for a frame.
///
/// On the wire a message slot starts with byte 1 and a beacon slot
/// with byte 6; the remaining values are reserved and ignored on
/// receive.
#[derive(Copy, Clone, Debug, PartialEq, Eq, Structural)]
pub enum FrameType {
    /// A *simple* message.
    Message,
    /// A beacon message, that can be safely ignored.
    BroadcastCheckSignal,
}

/// Wire discriminant of a message slot.
pub const FRAME_TYPE_MESSAGE: u8 = 1;

/// Wire discriminant of a beacon slot.
pub const FRAME_TYPE_BEACON: u8 = 6;

impl FrameType {
    pub open spec fn spec_value(self) -> u8 {
        match self {
            FrameType::Message => FRAME_TYPE_MESSAGE,
            FrameType::BroadcastCheckSignal => FRAME_TYPE_BEACON,
        }
    }

    /// The discriminant byte that starts every slot of this frame kind.
    pub fn value(&self) -> (r: u8)
        ensures
            r == self.spec_value(),
    {
        match self {
            FrameType::Message => FRAME_TYPE_MESSAGE,
            FrameType::BroadcastCheckSignal => FRAME_TYPE_BEACON,
        }
    }
}

// ---------------------------------------------------------------------
// InfoHeader: high nibble = recipient count, low nibble = slot count.
// ---------------------------------------------------------------------

/// Compact representation of recipient number and slot number.
#[derive(Copy, Clone, Debug, PartialEq, Eq, Structural)]
pub struct InfoHeader(pub u8);

/// Recipient count packed in the high nibble of an info header byte.
pub open spec fn info_recipients(x: u8) -> u8 {
    x >> 4
}

/// Slot count packed in the low nibble of an info header byte.
pub open spec fn info_frames(x: u8) -> u8 {
    x & 0x0F
}

/// The info header byte built from a recipient count and a slot count.
pub open spec fn info_pack(recipients: u8, frames: u8) -> u8 {
    ((recipients << 4) & 0xF0) | (frames & 0x0F)
}

impl InfoHeader {
    /// Builds an info header from scratch.
    pub fn new(recipients: u8, frames: u8) -> (r: Self)
        ensures
            r.0 == info_pack(recipients, frames),
            info_recipients(r.0) == recipients & 0x0F,
            info_frames(r.0) == frames & 0x0F,
    {
        let inner: u8 = ((recipients << 4) & 0xF0) | (frames & 0x0F);
        proof {
            lemma_info_pack(recipients, frames);
        }
        InfoHeader(inner)
    }

    /// Sets the number of recipients of a frame.
    pub fn set_recipients(&mut self, recipients: u8) -> (r: Self)
        ensures
            final(self).0 == info_pack(recipients, old(self).0),
            info_recipients(final(self).0) == recipients & 0x0F,
            info_frames(final(self).0) == info_frames(old(self).0),
            r == *final(self),
    {
        let x = self.0;
        let inner: u8 = ((recipients << 4) & 0xF0) | (x & 0x0F);
        proof {
            lemma_info_pack(recipients, x);
        }
        self.0 = inner;
        *self
    }

    /// Sets the number of slots (or physical frames) of a frame.
    pub fn set_frames(&mut self, frames: u8) -> (r: Self)
        ensures
            info_recipients(final(self).0) == info_recipients(old(self).0),
            info_frames(final(self).0) == frames & 0x0F,
            r == *final(self),
    {
        let x = self.0;
        let inner: u8 = (x & 0xF0) | (frames & 0x0F);
        proof {
            assert((((x & 0xF0) | (frames & 0x0F)) >> 4) == (x >> 4)) by (bit_vector);
            assert((((x & 0xF0) | (frames & 0x0F)) & 0x0F) == (frames & 0x0F)) by (bit_vector);
        }
        self.0 = inner;
        *self
    }

    /// Gets the number of recipients of a frame.
    pub fn get_recipients(&self) -> (r: u8)
        ensures
            r == info_recipients(self.0),
            r < 16,
    {
        let x = self.0;
        proof {
            assert(((x >> 4) & 0x0F) == (x >> 4) && (x >> 4) < 16) by (bit_vector);
        }
        (x >> 4) & 0x0F
    }

    /// Gets the number of slots (or physical frames) of a frame.
    pub fn get_frames(&self) -> (r: u8)
        ensures
            r == info_frames(self.0),
            r < 16,
    {
        let x = self.0;
        proof {
            assert((x & 0x0F) < 16) by (bit_vector);
        }
        x & 0x0F
    }
}

proof fn lemma_info_pack(recipients: u8, low_source: u8)
    ensures
        ((((recipients << 4) & 0xF0) | (low_source & 0x0F)) >> 4) == (recipients & 0x0F),
        ((((recipients << 4) & 0xF0) | (low_source & 0x0F)) & 0x0F) == (low_source & 0x0F),
{
    assert(((((recipients << 4) & 0xF0) | (low_source & 0x0F)) >> 4) == (recipients & 0x0F))
        by (bit_vector);
    assert(((((recipients << 4) & 0xF0) | (low_source & 0x0F)) & 0x0F) == (low_source & 0x0F))
        by (bit_vector);
}

// ---------------------------------------------------------------------
// AddressHeader: fifteen address bits plus the acknowledgement flag.
// ---------------------------------------------------------------------

/// Compact representation of a LoRa address (and acknowledgment flag).
#[derive(Copy, Clone, Debug, PartialEq, Eq, Hash, Structural)]
pub struct AddressHeader(pub u16);

/// The address part of a raw address header word.
pub open spec fn addr_part(x: u16) -> u16 {
    x & ADDRESS_BITMASK
}

/// The acknowledgement flag of a raw address header word.
pub open spec fn ack_part(x: u16) -> bool {
    x & ACKNOWLEDGMENT_BITMASK == ACKNOWLEDGMENT_BITMASK
}

/// The word with the given acknowledgement flag and the address kept.
pub open spec fn with_ack(x: u16, ack: bool) -> u16 {
    if ack {
        (x & ADDRESS_BITMASK) | ACKNOWLEDGMENT_BITMASK
    } else {
        x & ADDRESS_BITMASK
    }
}

/// The word with the given address and the acknowledgement flag kept.
pub open spec fn with_addr(x: u16, addr: u16) -> u16 {
    (addr & ADDRESS_BITMASK) | (x & ACKNOWLEDGMENT_BITMASK)
}

impl AddressHeader {
    /// The fifteen address bits of this header.
    pub open spec fn address(self) -> u16 {
        addr_part(self.0)
    }

    /// Whether this header requests an acknowledgement.
    pub open spec fn ack(self) -> bool {
        ack_part(self.0)
    }

    /// Whether the address bits are the global broadcast address.
    pub open spec fn spec_is_global(self) -> bool {
        self.address() == GLOBAL_NO_ACKNOWLEDGMENT
    }

    /// Builds an address header from scratch; the flag bit of `addr`
    /// is ignored, only `ack` decides the acknowledgement bit.
    pub fn new(addr: u16, ack: bool) -> (r: Self)
        ensures
            r.0 == with_ack(addr, ack),
            r.address() == addr & ADDRESS_BITMASK,
            r.ack() == ack,
    {
        let mut inner = addr & ADDRESS_BITMASK;
        if ack {
            inner = inner | ACKNOWLEDGMENT_BITMASK;
        }
        proof {
            lemma_with_ack(addr, ack);
        }
        Self(inner)
    }

    /// Builds a *global* address header from scratch.
    pub fn new_global(ack: bool) -> (r: Self)
        ensures
            r.0 == (if ack {
                GLOBAL_ACKNOWLEDGMENT
            } else {
                GLOBAL_NO_ACKNOWLEDGMENT
            }),
            r.address() == GLOBAL_NO_ACKNOWLEDGMENT,
            r.ack() == ack,
    {
        proof {
            assert(0xFFFFu16 & 0x7FFF == 0x7FFFu16 && 0x7FFFu16 & 0x7FFF == 0x7FFFu16
                && 0xFFFFu16 & 0x8000 == 0x8000u16 && 0x7FFFu16 & 0x8000 == 0u16) by (bit_vector);
        }
        if ack {
            Self(GLOBAL_ACKNOWLEDGMENT)
        } else {
            Self(GLOBAL_NO_ACKNOWLEDGMENT)
        }
    }

    /// Sets the acknowledgement bit for an address.
    pub fn set_acknowledgment(&mut self, ack: bool) -> (r: Self)
        ensures
            final(self).0 == with_ack(old(self).0, ack),
            final(self).address() == old(self).address(),
            final(self).ack() == ack,
            r == *final(self),
    {
        let x = self.0;
        let mut inner = x & ADDRESS_BITMASK;
        if ack {
            inner = inner | ACKNOWLEDGMENT_BITMASK;
        }
        proof {
            lemma_with_ack(x, ack);
        }
        self.0 = inner;
        *self
    }

    /// Sets the address part of an address header.
    pub fn set_address(&mut self, addr: u16) -> (r: Self)
        ensures
            final(self).0 == with_addr(old(self).0, addr),
            final(self).address() == addr & ADDRESS_BITMASK,
            final(self).ack() == old(self).ack(),
            r == *final(self),
    {
        let x = self.0;
        let inner = (addr & ADDRESS_BITMASK) | (x & ACKNOWLEDGMENT_BITMASK);
        proof {
            lemma_with_addr(x, addr);
        }
        self.0 = inner;
        *self
    }

    /// Sets the address part of an address header to the global address.
    pub fn set_global(&mut self) -> (r: Self)
        ensures
            final(self).address() == GLOBAL_NO_ACKNOWLEDGMENT,
            final(self).ack() == old(self).ack(),
            r == *final(self),
    {
        proof {
            assert(0x7FFFu16 & 0x7FFF == 0x7FFFu16) by (bit_vector);
        }
        self.set_address(GLOBAL_NO_ACKNOWLEDGMENT)
    }

    /// Gets the acknowledgement bit of the address header.
    ///
    /// True means an acknowledgement is expected.
    pub fn get_acknowledgment(&self) -> (r: bool)
        ensures
            r == self.ack(),
    {
        (self.0 & ACKNOWLEDGMENT_BITMASK) == ACKNOWLEDGMENT_BITMASK
    }

    /// Gets the address part of an address header.
    pub fn get_address(&self) -> (r: u16)
        ensures
            r == self.address(),
            r <= GLOBAL_NO_ACKNOWLEDGMENT,
    {
        let x = self.0;
        proof {
            assert((x & 0x7FFF) <= 0x7FFFu16) by (bit_vector);
        }
        x & ADDRESS_BITMASK
    }

    /// Is this header's address the global broadcast address.
    pub fn is_global(&self) -> (r: bool)
        ensures
            r == self.spec_is_global(),
    {
        self.get_address() == GLOBAL_NO_ACKNOWLEDGMENT
    }
}

proof fn lemma_with_ack(x: u16, ack: bool)
    ensures
        addr_part(with_ack(x, ack)) == addr_part(x),
        ack_part(with_ack(x, ack)) == ack,
{
    assert((((x & 0x7FFF) | 0x8000) & 0x7FFF) == (x & 0x7FFF)) by (bit_vector);
    assert(((x & 0x7FFF) & 0x7FFF) == (x & 0x7FFF)) by (bit_vector);
    assert((((x & 0x7FFF) | 0x8000) & 0x8000) == 0x8000u16) by (bit_vector);
    assert(((x & 0x7FFF) & 0x8000) == 0u16) by (bit_vector);
}

proof fn lemma_with_addr(x: u16, addr: u16)
    ensures
        addr_part(with_addr(x, addr)) == addr_part(addr),
        ack_part(with_addr(x, addr)) == ack_part(x),
{
    assert((((addr & 0x7FFF) | (x & 0x8000)) & 0x7FFF) == (addr & 0x7FFF)) by (bit_vector);
    assert((((addr & 0x7FFF) | (x & 0x8000)) & 0x8000) == (x & 0x8000)) by (bit_vector);
}

/// Bit discipline of address headers: changing the acknowledgement
/// flag never touches the address bits, changing the address never
/// touches the acknowledgement bit, and the global constructor carries
/// the broadcast address.
pub proof fn lemma_address_bit_discipline(x: u16, addr: u16, ack: bool)
    ensures
        addr_part(with_ack(x, ack)) == addr_part(x),
        ack_part(with_ack(x, ack)) == ack,
        addr_part(with_addr(x, addr)) == addr_part(addr),
        ack_part(with_addr(x, addr)) == ack_part(x),
        addr_part(if ack {
            GLOBAL_ACKNOWLEDGMENT
        } else {
            GLOBAL_NO_ACKNOWLEDGMENT
        }) == GLOBAL_NO_ACKNOWLEDGMENT,
{
    lemma_with_ack(x, ack);
    lemma_with_addr(x, addr);
    assert((0xFFFFu16 & 0x7FFF) == 0x7FFFu16 && (0x7FFFu16 & 0x7FFF) == 0x7FFFu16)
        by (bit_vector);
}

// ---------------------------------------------------------------------
// PayloadFlag: bit i set <=> payload index i is for this recipient.
// ---------------------------------------------------------------------

/// Compact representation of the recipient-payload association.
#[derive(Copy, Clone, Debug, PartialEq, Eq, Structural)]
pub struct PayloadFlag(pub u16);

/// Whether payload index `b` is marked in the flag word `x`.
pub open spec fn has_bit(x: u16, b: u8) -> bool {
    b < 16 && ((x >> (b as u16)) & 1) == 1
}

/// The flag word `x` with payload index `b` marked.
pub open spec fn set_bit(x: u16, b: u8) -> u16 {
    x | (1u16 << (b as u16))
}

/// The flag word collecting the ids of `ids[i..]` on top of `acc`.
pub open spec fn flag_fold(ids: Seq<u8>, i: int, acc: u16) -> u16
    decreases ids.len() - i,
{
    if i < 0 || i >= ids.len() {
        acc
    } else {
        flag_fold(ids, i + 1, set_bit(acc, ids[i]))
    }
}

/// The flag word of a list of payload ids.
pub open spec fn flag_of_ids(ids: Seq<u8>) -> u16 {
    flag_fold(ids, 0, 0)
}

/// The ids below `n` marked in the flag word `x`, in increasing order.
pub open spec fn ids_below(x: u16, n: int) -> Seq<u8>
    decreases n,
{
    if n <= 0 {
        Seq::empty()
    } else if has_bit(x, (n - 1) as u8) {
        ids_below(x, n - 1) + seq![(n - 1) as u8]
    } else {
        ids_below(x, n - 1)
    }
}

/// The ids marked in the flag word `x`, in increasing order.
pub open spec fn flag_ids(x: u16) -> Seq<u8> {
    ids_below(x, 16)
}

proof fn lemma_set_bit(x: u16, id: u8, b: u8)
    requires
        id < 16,
    ensures
        has_bit(set_bit(x, id), b) <==> (has_bit(x, b) || b == id),
{
    if b < 16 {
        let idw = id as u16;
        let bw = b as u16;
        assert((((x | (1u16 << idw)) >> bw) & 1 == 1) <==> (((x >> bw) & 1 == 1) || bw == idw))
            by (bit_vector)
            requires
                idw < 16,
                bw < 16,
        ;
    }
}

pub proof fn lemma_has_bit_zero(b: u8)
    ensures
        !has_bit(0u16, b),
{
    let bw = b as u16;
    assert(((0u16 >> bw) & 1) == 0) by (bit_vector);
}

/// What `flag_fold` collects: a bit is set in the result iff it is set
/// in the accumulator or appears in the remaining ids.
proof fn lemma_flag_fold(ids: Seq<u8>, i: int, acc: u16, b: u8)
    requires
        forall|k: int| 0 <= k < ids.len() ==> ids[k] < 16,
        0 <= i <= ids.len(),
    ensures
        has_bit(flag_fold(ids, i, acc), b) <==> (has_bit(acc, b) || exists|k: int|
            i <= k < ids.len() && ids[k] == b),
    decreases ids.len() - i,
{
    if i < ids.len() {
        lemma_set_bit(acc, ids[i], b);
        lemma_flag_fold(ids, i + 1, set_bit(acc, ids[i]), b);
        if has_bit(flag_fold(ids, i, acc), b) {
            if !has_bit(acc, b) {
                if b == ids[i] {
                    assert(i <= i < ids.len() && ids[i] == b);
                }
            }
        }
    }
}

/// Membership in the flag word built from a list of ids.
pub proof fn lemma_flag_of_ids(ids: Seq<u8>, b: u8)
    requires
        forall|k: int| 0 <= k < ids.len() ==> ids[k] < 16,
    ensures
        has_bit(flag_of_ids(ids), b) <==> ids.contains(b),
{
    lemma_flag_fold(ids, 0, 0, b);
    lemma_has_bit_zero(b);
}

/// Shape of `ids_below`: increasing, bounded, and member iff marked.
proof fn lemma_ids_below(x: u16, n: int)
    requires
        0 <= n <= 16,
    ensures
        forall|k: int| 0 <= k < ids_below(x, n).len() ==> #[trigger] ids_below(x, n)[k] < n,
        forall|k: int, l: int|
            0 <= k < l < ids_below(x, n).len() ==> #[trigger] ids_below(x, n)[k]
                < #[trigger] ids_below(x, n)[l],
        forall|b: u8| ids_below(x, n).contains(b) <==> (has_bit(x, b) && b < n),
    decreases n,
{
    if n > 0 {
        lemma_ids_below(x, n - 1);
        let prev = ids_below(x, n - 1);
        let cur = ids_below(x, n);
        if has_bit(x, (n - 1) as u8) {
            assert(forall|b: u8| cur.contains(b) <==> (prev.contains(b) || b == (n - 1) as u8))
                by {
                assert(forall|b: u8| prev.contains(b) ==> #[trigger] cur.contains(b)) by {
                    assert(forall|k: int|
                        0 <= k < prev.len() ==> cur[k] == prev[k]);
                }
                assert(cur[cur.len() - 1] == (n - 1) as u8);
                assert(forall|b: u8| #[trigger] cur.contains(b) ==> prev.contains(b) || b == (n
                    - 1) as u8) by {
                    assert forall|b: u8| #[trigger] cur.contains(b) implies prev.contains(b) || b
                        == (n - 1) as u8 by {
                        let k = choose|k: int| 0 <= k < cur.len() && cur[k] == b;
                        if k < prev.len() {
                            assert(prev[k] == b);
                        }
                    }
                }
            }
        } else {
            assert(cur =~= prev);
        }
    }
}

/// The id list read out of a flag word: strictly increasing, all below
/// sixteen, and a member exactly when the bit is set.
pub proof fn lemma_flag_ids(x: u16)
    ensures
        forall|k: int| 0 <= k < flag_ids(x).len() ==> #[trigger] flag_ids(x)[k] < 16,
        forall|k: int, l: int|
            0 <= k < l < flag_ids(x).len() ==> #[trigger] flag_ids(x)[k] < #[trigger] flag_ids(
                x,
            )[l],
        forall|b: u8| flag_ids(x).contains(b) <==> has_bit(x, b),
{
    lemma_ids_below(x, 16);
}

/// The PayloadFlag law: reading the ids back out of the flag built
/// from a list gives the sorted deduplication of that list -- the
/// result is strictly increasing and holds exactly the ids of the
/// input.
pub proof fn lemma_flag_round_trip(ids: Seq<u8>)
    requires
        forall|k: int| 0 <= k < ids.len() ==> ids[k] < 16,
    ensures
        forall|k: int, l: int|
            0 <= k < l < flag_ids(flag_of_ids(ids)).len() ==> #[trigger] flag_ids(
                flag_of_ids(ids),
            )[k] < #[trigger] flag_ids(flag_of_ids(ids))[l],
        forall|b: u8| flag_ids(flag_of_ids(ids)).contains(b) <==> ids.contains(b),
{
    lemma_flag_ids(flag_of_ids(ids));
    assert forall|b: u8| flag_ids(flag_of_ids(ids)).contains(b) <==> ids.contains(b) by {
        lemma_flag_of_ids(ids, b);
    }
}

impl PayloadFlag {
    /// Builds a payload flag from scratch.
    ///
    /// Message ids must lie in 0..16.
    pub fn new(message_ids: &[u8]) -> (r: Self)
        requires
            forall|k: int| 0 <= k < message_ids@.len() ==> message_ids@[k] < 16,
        ensures
            r.0 == flag_of_ids(message_ids@),
            forall|b: u8| has_bit(r.0, b) <==> message_ids@.contains(b),
    {
        let ids = message_ids;
        let n = ids.len();
        let mut inner: u16 = 0;
        let mut i: usize = 0;
        while i < n
            invariant
                i <= n,
                n == ids@.len(),
                forall|k: int| 0 <= k < ids@.len() ==> ids@[k] < 16,
                flag_fold(ids@, 0, 0) == flag_fold(ids@, i as int, inner),
            decreases n - i,
        {
            let id = ids[i];
            inner = inner | (1u16 << (id as u16));
            i = i + 1;
        }
        proof {
            assert forall|b: u8| has_bit(flag_of_ids(ids@), b) <==> ids@.contains(b) by {
                lemma_flag_of_ids(ids@, b);
            }
        }
        Self(inner)
    }

    /// Pushes a new message id into the payload flag.
    pub fn push(&mut self, id: u8)
        requires
            id < 16,
        ensures
            final(self).0 == set_bit(old(self).0, id),
            forall|b: u8|
                has_bit(final(self).0, b) <==> (has_bit(old(self).0, b) || b == id),
    {
        proof {
            assert forall|b: u8|
                has_bit(set_bit(old(self).0, id), b) <==> (has_bit(old(self).0, b) || b
                    == id) by {
                lemma_set_bit(old(self).0, id, b);
            }
        }
        self.0 = self.0 | (1u16 << (id as u16));
    }

    /// Converts the payload flag to the increasing list of message ids.
    pub fn to_message_ids(&self) -> (r: Vec<u8>)
        ensures
            r@ == flag_ids(self.0),
            forall|k: int| 0 <= k < r@.len() ==> r@[k] < 16,
            forall|k: int, l: int| 0 <= k < l < r@.len() ==> r@[k] < r@[l],
            forall|b: u8| r@.contains(b) <==> has_bit(self.0, b),
    {
        let x = self.0;
        let mut ids: Vec<u8> = Vec::new();
        let mut i: u8 = 0;
        while i < 16
            invariant
                i <= 16,
                x == self.0,
                ids@ == ids_below(x, i as int),
            decreases 16 - i,
        {
            if (x & (1u16 << (i as u16))) > 0 {
                proof {
                    let iw = i as u16;
                    assert(((x & (1u16 << iw)) > 0) == (((x >> iw) & 1) == 1)) by (bit_vector)
                        requires
                            iw < 16,
                    ;
                }
                ids.push(i);
            } else {
                proof {
                    let iw = i as u16;
                    assert(((x & (1u16 << iw)) > 0) == (((x >> iw) & 1) == 1)) by (bit_vector)
                        requires
                            iw < 16,
                    ;
                }
            }
            proof {
                assert(ids@ =~= ids_below(x, i as int + 1));
            }
            i = i + 1;
        }
        proof {
            lemma_flag_ids(x);
        }
        ids
    }
}

// ---------------------------------------------------------------------
// Structured frame data and its mathematical model.
// ---------------------------------------------------------------------

/// Compact representation of recipients (with payload association) and
/// acknowledgement handling.
#[derive(Clone, Debug)]
pub enum RecipientHeader {
    /// Direct message: one recipient, all payloads are for it.
    Direct(AddressHeader),
    /// Group message: packet aggregation and/or multiple recipients.
    Group(Vec<(AddressHeader, PayloadFlag)>),
}

/// Radio header representation.
#[derive(Clone, Debug)]
pub struct RadioHeaders {
    /// Number of recipients and slots of this transmission.
    pub rec_n_frames: InfoHeader,
    /// Recipient addresses and their payload associations.
    pub recipients: RecipientHeader,
    /// Number of payloads (limited to 16).
    pub payloads: u8,
    /// Sender address.
    pub sender: AddressHeader,
    /// Nonce identifying this frame for acknowledgement matching.
    pub nonce: FrameNonce,
}

/// Full representation of a radio frame with headers and payloads.
#[derive(Clone, Debug)]
pub struct RadioFrameWithHeaders {
    /// Frame headers.
    pub headers: RadioHeaders,
    /// Piggybacked acknowledgements: originator, acknowledged nonce,
    /// and the delta between the receiver's RSSI target and the RSSI it
    /// measured on the acknowledged frame.
    pub acknowledgements: Vec<(AddressHeader, FrameNonce, i16)>,
    /// Frame payloads.
    pub payloads: Vec<Payload>,
}

/// Mathematical model of a recipient header.
#[verifier::ext_equal]
pub enum RecipModel {
    Direct(u16),
    Group(Seq<(u16, u16)>),
}

/// Mathematical model of the radio headers.
#[verifier::ext_equal]
pub struct HeadersModel {
    pub info: u8,
    pub recipients: RecipModel,
    pub sender: u16,
    pub payload_count: u8,
    pub nonce: u64,
}

/// Mathematical model of a whole frame.
#[verifier::ext_equal]
pub struct FrameModel {
    pub headers: HeadersModel,
    pub acks: Seq<(u16, u64, i16)>,
    pub payloads: Seq<Seq<u8>>,
}

pub open spec fn group_model(v: Seq<(AddressHeader, PayloadFlag)>) -> Seq<(u16, u16)> {
    v.map_values(|p: (AddressHeader, PayloadFlag)| (p.0.0, p.1.0))
}

pub open spec fn acks_model(v: Seq<(AddressHeader, FrameNonce, i16)>) -> Seq<(u16, u64, i16)> {
    v.map_values(|t: (AddressHeader, FrameNonce, i16)| (t.0.0, t.1, t.2))
}

impl RecipientHeader {
    pub open spec fn model(self) -> RecipModel {
        match self {
            RecipientHeader::Direct(a) => RecipModel::Direct(a.0),
            RecipientHeader::Group(v) => RecipModel::Group(group_model(v@)),
        }
    }

    pub open spec fn wf(self) -> bool {
        wf_recips(self.model())
    }
}

impl RadioHeaders {
    pub open spec fn model(self) -> HeadersModel {
        HeadersModel {
            info: self.rec_n_frames.0,
            recipients: self.recipients.model(),
            sender: self.sender.0,
            payload_count: self.payloads,
            nonce: self.nonce,
        }
    }

    pub open spec fn wf(self) -> bool {
        wf_recips(self.recipients.model())
    }
}

impl RadioFrameWithHeaders {
    pub open spec fn model(self) -> FrameModel {
        FrameModel {
            headers: self.headers.model(),
            acks: acks_model(self.acknowledgements@),
            payloads: self.payloads.deep_view(),
        }
    }

    pub open spec fn wf(self) -> bool {
        wf_frame(self.model())
    }
}

/// A recipient model that can travel on the wire: a group carries
/// between two and sixteen entries (one entry is a direct frame).
pub open spec fn wf_recips(r: RecipModel) -> bool {
    match r {
        RecipModel::Direct(_) => true,
        RecipModel::Group(g) => 2 <= g.len() <= 16,
    }
}

/// A frame that can travel on the wire: well-formed recipients, at
/// most sixteen acknowledgements, the payload-count header equal to
/// the payload list length (at most sixteen), and each payload short
/// enough for its two-byte length field.
pub open spec fn wf_frame(f: FrameModel) -> bool {
    &&& wf_recips(f.headers.recipients)
    &&& f.acks.len() <= 16
    &&& f.headers.payload_count as int == f.payloads.len()
    &&& f.payloads.len() <= 16
    &&& forall|i: int| 0 <= i < f.payloads.len() ==> #[trigger] f.payloads[i].len() <= 0xFFFF
}

// ---------------------------------------------------------------------
// The wire encoding, as a function of the model.
// ---------------------------------------------------------------------

pub open spec fn enc_u16(x: u16) -> Seq<u8> {
    enc_be(x as nat, 2)
}

pub open spec fn enc_u64(x: u64) -> Seq<u8> {
    enc_be(x as nat, 8)
}

/// The sixteen-bit two's-complement word of a signed delta.
pub open spec fn u16_of_i16(x: i16) -> u16 {
    if x >= 0 {
        x as u16
    } else {
        (x + 0x10000) as u16
    }
}

/// The signed delta read back from its two's-complement word.
pub open spec fn i16_of_u16(x: u16) -> i16 {
    if x < 0x8000 {
        x as i16
    } else {
        (x - 0x10000) as i16
    }
}

pub open spec fn enc_i16(x: i16) -> Seq<u8> {
    enc_u16(u16_of_i16(x))
}

pub open spec fn enc_group_from(g: Seq<(u16, u16)>, i: int) -> Seq<u8>
    decreases g.len() - i,
{
    if i < 0 || i >= g.len() {
        Seq::empty()
    } else {
        enc_u16(g[i].0) + enc_u16(g[i].1) + enc_group_from(g, i + 1)
    }
}

pub open spec fn enc_recips(r: RecipModel) -> Seq<u8> {
    match r {
        RecipModel::Direct(a) => seq![1u8] + enc_u16(a),
        RecipModel::Group(g) => seq![g.len() as u8] + enc_group_from(g, 0),
    }
}

pub open spec fn enc_headers(h: HeadersModel) -> Seq<u8> {
    seq![h.info] + enc_recips(h.recipients) + enc_u16(h.sender) + seq![h.payload_count]
        + enc_u64(h.nonce)
}

pub open spec fn enc_acks_from(a: Seq<(u16, u64, i16)>, i: int) -> Seq<u8>
    decreases a.len() - i,
{
    if i < 0 || i >= a.len() {
        Seq::empty()
    } else {
        enc_u16(a[i].0) + enc_u64(a[i].1) + enc_i16(a[i].2) + enc_acks_from(a, i + 1)
    }
}

pub open spec fn enc_payloads_from(p: Seq<Seq<u8>>, i: int) -> Seq<u8>
    decreases p.len() - i,
{
    if i < 0 || i >= p.len() {
        Seq::empty()
    } else {
        enc_u16(p[i].len() as u16) + p[i] + enc_payloads_from(p, i + 1)
    }
}

/// The byte-exact wire form of a whole frame (without the per-slot
/// discriminant bytes, which the driver adds when it splits the frame
/// over slots).
pub open spec fn enc_frame(f: FrameModel) -> Seq<u8> {
    enc_headers(f.headers) + seq![f.acks.len() as u8] + enc_acks_from(f.acks, 0)
        + enc_payloads_from(f.payloads, 0)
}

// ---------------------------------------------------------------------
// The wire decoding, as a function of the byte sequence.
// ---------------------------------------------------------------------

pub open spec fn dec_group(b: Seq<u8>, k: int) -> Seq<(u16, u16)>
    decreases k,
{
    if k <= 0 {
        Seq::empty()
    } else {
        seq![(dec_be(b, 0, 2) as u16, dec_be(b, 2, 2) as u16)] + dec_group(b.skip(4), k - 1)
    }
}

pub open spec fn dec_recips(b: Seq<u8>) -> Option<(RecipModel, int)> {
    if b.len() < 1 {
        None
    } else {
        let n = b[0] as int;
        if n == 0 {
            None
        } else if n == 1 {
            if b.len() < 3 {
                None
            } else {
                Some((RecipModel::Direct(dec_be(b, 1, 2) as u16), 3))
            }
        } else if n <= 16 {
            if b.len() < 1 + 4 * n {
                None
            } else {
                Some((RecipModel::Group(dec_group(b.skip(1), n)), 1 + 4 * n))
            }
        } else {
            None
        }
    }
}

pub open spec fn dec_headers(b: Seq<u8>) -> Option<(HeadersModel, int)> {
    if b.len() < 1 {
        None
    } else {
        match dec_recips(b.skip(1)) {
            None => None,
            Some((r, read)) => {
                if b.len() < 1 + read + 11 {
                    None
                } else {
                    Some(
                        (
                            HeadersModel {
                                info: b[0],
                                recipients: r,
                                sender: dec_be(b, 1 + read, 2) as u16,
                                payload_count: b[1 + read + 2],
                                nonce: dec_be(b, 1 + read + 3, 8) as u64,
                            },
                            1 + read + 11,
                        ),
                    )
                }
            },
        }
    }
}

pub open spec fn dec_acks(b: Seq<u8>, k: int) -> Option<(Seq<(u16, u64, i16)>, int)>
    decreases k,
{
    if k <= 0 {
        Some((Seq::empty(), 0))
    } else if b.len() < 12 {
        None
    } else {
        match dec_acks(b.skip(12), k - 1) {
            None => None,
            Some((s, c)) => Some(
                (
                    seq![
                        (
                            dec_be(b, 0, 2) as u16,
                            dec_be(b, 2, 8) as u64,
                            i16_of_u16(dec_be(b, 10, 2) as u16),
                        )
                    ] + s,
                    12 + c,
                ),
            ),
        }
    }
}

pub open spec fn dec_payloads(b: Seq<u8>, k: int) -> Option<(Seq<Seq<u8>>, int)>
    decreases k,
{
    if k <= 0 {
        Some((Seq::empty(), 0))
    } else if b.len() < 2 {
        None
    } else {
        let l = dec_be(b, 0, 2) as int;
        if b.len() < 2 + l {
            None
        } else {
            match dec_payloads(b.skip(2 + l), k - 1) {
                None => None,
                Some((s, c)) => Some((seq![b.subrange(2, 2 + l)] + s, 2 + l + c)),
            }
        }
    }
}

pub open spec fn dec_frame(b: Seq<u8>) -> Option<(FrameModel, int)> {
    match dec_headers(b) {
        None => None,
        Some((h, hr)) => {
            if b.len() < hr + 1 {
                None
            } else {
                let an = b[hr] as int;
                match dec_acks(b.skip(hr + 1), an) {
                    None => None,
                    Some((acks, ac)) => {
                        match dec_payloads(b.skip(hr + 1 + ac), h.payload_count as int) {
                            None => None,
                            Some((ps, pc)) => Some(
                                (
                                    FrameModel { headers: h, acks: acks, payloads: ps },
                                    hr + 1 + ac + pc,
                                ),
                            ),
                        }
                    },
                }
            }
        },
    }
}

// ---------------------------------------------------------------------
// Byte-exact sizes (the FrameSize arithmetic of the model).
// ---------------------------------------------------------------------

pub open spec fn size_recips(r: RecipModel) -> int {
    match r {
        RecipModel::Direct(_) => 3,
        RecipModel::Group(g) => 1 + 4 * g.len() as int,
    }
}

pub open spec fn size_headers(h: HeadersModel) -> int {
    1 + size_recips(h.recipients) + 2 + 1 + 8
}

pub open spec fn size_payloads_from(p: Seq<Seq<u8>>, i: int) -> int
    decreases p.len() - i,
{
    if i < 0 || i >= p.len() {
        0
    } else {
        2 + p[i].len() + size_payloads_from(p, i + 1)
    }
}

/// The exact number of bytes `enc_frame` produces, computed from the
/// model alone: headers, one acknowledgement-count byte, twelve bytes
/// per acknowledgement, and two length bytes plus the body per payload.
pub open spec fn size_frame(f: FrameModel) -> int {
    size_headers(f.headers) + 1 + 12 * f.acks.len() + size_payloads_from(f.payloads, 0)
}

proof fn lemma_enc_group_len(g: Seq<(u16, u16)>, i: int)
    requires
        0 <= i <= g.len(),
    ensures
        enc_group_from(g, i).len() == 4 * (g.len() - i),
    decreases g.len() - i,
{
    if i < g.len() {
        lemma_enc_group_len(g, i + 1);
        lemma_enc_be_len(g[i].0 as nat, 2);
        lemma_enc_be_len(g[i].1 as nat, 2);
    }
}

proof fn lemma_enc_recips_len(r: RecipModel)
    ensures
        enc_recips(r).len() == size_recips(r),
{
    match r {
        RecipModel::Direct(a) => {
            lemma_enc_be_len(a as nat, 2);
        },
        RecipModel::Group(g) => {
            lemma_enc_group_len(g, 0);
        },
    }
}

proof fn lemma_enc_headers_len(h: HeadersModel)
    ensures
        enc_headers(h).len() == size_headers(h),
{
    lemma_enc_recips_len(h.recipients);
    lemma_enc_be_len(h.sender as nat, 2);
    lemma_enc_be_len(h.nonce as nat, 8);
}

proof fn lemma_enc_acks_len(a: Seq<(u16, u64, i16)>, i: int)
    requires
        0 <= i <= a.len(),
    ensures
        enc_acks_from(a, i).len() == 12 * (a.len() - i),
    decreases a.len() - i,
{
    if i < a.len() {
        lemma_enc_acks_len(a, i + 1);
        lemma_enc_be_len(a[i].0 as nat, 2);
        lemma_enc_be_len(a[i].1 as nat, 8);
        lemma_enc_be_len(u16_of_i16(a[i].2) as nat, 2);
    }
}

proof fn lemma_enc_payloads_len(p: Seq<Seq<u8>>, i: int)
    requires
        0 <= i <= p.len(),
    ensures
        enc_payloads_from(p, i).len() == size_payloads_from(p, i),
    decreases p.len() - i,
{
    if i < p.len() {
        lemma_enc_payloads_len(p, i + 1);
        lemma_enc_be_len(p[i].len() as u16 as nat, 2);
    }
}

/// Size exactness: the encoding of a frame has exactly the length that
/// the size arithmetic of the model computes.
pub proof fn lemma_size_exact(f: FrameModel)
    ensures
        enc_frame(f).len() == size_frame(f),
{
    lemma_enc_headers_len(f.headers);
    lemma_enc_acks_len(f.acks, 0);
    lemma_enc_payloads_len(f.payloads, 0);
}

// ---------------------------------------------------------------------
// The round trip: decoding an encoded frame gives the frame back.
// ---------------------------------------------------------------------

proof fn lemma_i16_word_round_trip(x: i16)
    ensures
        u16_of_i16(x) < 0x10000,
        i16_of_u16(u16_of_i16(x)) == x,
{
}

/// Reading a two-byte value out of the middle of a buffer that holds
/// an encoding there.
proof fn lemma_dec_at(b: Seq<u8>, i: int, x: nat, n: nat, t: Seq<u8>)
    requires
        0 <= i <= b.len(),
        x < pow256(n),
        b =~= b.subrange(0, i) + (enc_be(x, n) + t),
    ensures
        dec_be(b, i, n) == x,
{
    lemma_enc_be_len(x, n);
    lemma_enc_dec_be(x, n, t);
    assert(b.subrange(0, i).len() == i);
    assert forall|k: int| 0 <= k < n implies b[i + k] == #[trigger] (enc_be(x, n) + t)[0 + k] by {
        assert(b == b.subrange(0, i) + (enc_be(x, n) + t));
        assert((b.subrange(0, i) + (enc_be(x, n) + t))[i + k] == (enc_be(x, n) + t)[(i + k) - i]);
        assert((i + k) - i == 0 + k);
    }
    crate::bytes::lemma_dec_be_frame(b, enc_be(x, n) + t, i, 0, n);
}

proof fn lemma_group_round_trip(g: Seq<(u16, u16)>, i: int, t: Seq<u8>)
    requires
        0 <= i <= g.len(),
    ensures
        dec_group(enc_group_from(g, i) + t, g.len() - i) == g.skip(i),
    decreases g.len() - i,
{
    lemma_pow256_unfold();
    if i == g.len() {
        assert(dec_group(enc_group_from(g, i) + t, 0) =~= g.skip(i));
    } else {
        let b = enc_group_from(g, i) + t;
        let r1 = enc_u16(g[i].1) + (enc_group_from(g, i + 1) + t);
        lemma_enc_be_len(g[i].0 as nat, 2);
        lemma_enc_be_len(g[i].1 as nat, 2);
        assert(b =~= enc_u16(g[i].0) + r1);
        lemma_enc_dec_be(g[i].0 as nat, 2, r1);
        assert(dec_be(b, 0, 2) == g[i].0 as nat);
        assert(b =~= b.subrange(0, 2) + (enc_u16(g[i].1) + (enc_group_from(g, i + 1) + t)));
        lemma_dec_at(b, 2, g[i].1 as nat, 2, enc_group_from(g, i + 1) + t);
        assert(b.skip(4) =~= enc_group_from(g, i + 1) + t);
        lemma_group_round_trip(g, i + 1, t);
        assert(dec_group(b, g.len() - i) =~= g.skip(i)) by {
            assert(g.skip(i) =~= seq![g[i]] + g.skip(i + 1));
            assert((g[i].0, g[i].1) == g[i]);
        }
    }
}

proof fn lemma_recips_round_trip(r: RecipModel, t: Seq<u8>)
    requires
        wf_recips(r),
    ensures
        dec_recips(enc_recips(r) + t) == Some((r, size_recips(r))),
{
    lemma_pow256_unfold();
    lemma_enc_recips_len(r);
    let b = enc_recips(r) + t;
    match r {
        RecipModel::Direct(a) => {
            lemma_enc_be_len(a as nat, 2);
            assert(b[0] == 1);
            assert(b =~= b.subrange(0, 1) + (enc_be(a as nat, 2) + t));
            lemma_dec_at(b, 1, a as nat, 2, t);
        },
        RecipModel::Group(g) => {
            lemma_enc_group_len(g, 0);
            assert(b[0] == g.len() as u8);
            let n = b[0] as int;
            assert(n == g.len());
            assert(b.skip(1) =~= enc_group_from(g, 0) + t);
            lemma_group_round_trip(g, 0, t);
            assert(g.skip(0) =~= g);
            assert(dec_recips(b) == Some((RecipModel::Group(dec_group(b.skip(1), n)), 1 + 4 * n)));
            assert(RecipModel::Group(dec_group(b.skip(1), n)) =~= r);
        },
    }
}

proof fn lemma_headers_round_trip(h: HeadersModel, t: Seq<u8>)
    requires
        wf_recips(h.recipients),
    ensures
        dec_headers(enc_headers(h) + t) == Some((h, size_headers(h))),
{
    lemma_pow256_unfold();
    lemma_enc_recips_len(h.recipients);
    lemma_enc_be_len(h.sender as nat, 2);
    lemma_enc_be_len(h.nonce as nat, 8);
    let b = enc_headers(h) + t;
    let rl = size_recips(h.recipients);
    assert(b[0] == h.info);
    assert(b.skip(1) =~= enc_recips(h.recipients) + (enc_u16(h.sender) + seq![h.payload_count]
        + enc_u64(h.nonce) + t));
    lemma_recips_round_trip(
        h.recipients,
        enc_u16(h.sender) + seq![h.payload_count] + enc_u64(h.nonce) + t,
    );
    assert(dec_recips(b.skip(1)) == Some((h.recipients, rl)));
    assert(b =~= b.subrange(0, 1 + rl) + (enc_be(h.sender as nat, 2) + (seq![h.payload_count]
        + enc_u64(h.nonce) + t)));
    lemma_dec_at(b, 1 + rl, h.sender as nat, 2, seq![h.payload_count] + enc_u64(h.nonce) + t);
    assert(b[1 + rl + 2] == h.payload_count);
    assert(b =~= b.subrange(0, 1 + rl + 3) + (enc_be(h.nonce as nat, 8) + t));
    lemma_dec_at(b, 1 + rl + 3, h.nonce as nat, 8, t);
    let m = dec_headers(b)->Some_0.0;
    assert(m =~= h);
}

proof fn lemma_acks_round_trip(a: Seq<(u16, u64, i16)>, i: int, t: Seq<u8>)
    requires
        0 <= i <= a.len(),
    ensures
        dec_acks(enc_acks_from(a, i) + t, a.len() - i) == Some((a.skip(i), 12 * (a.len() - i))),
    decreases a.len() - i,
{
    lemma_pow256_unfold();
    if i == a.len() {
        assert(dec_acks(enc_acks_from(a, i) + t, 0) == Some((Seq::<(u16, u64, i16)>::empty(), 0int)));
        assert(a.skip(i) =~= Seq::<(u16, u64, i16)>::empty());
    } else {
        let b = enc_acks_from(a, i) + t;
        let (ad, no, dr) = a[i];
        lemma_enc_be_len(ad as nat, 2);
        lemma_enc_be_len(no as nat, 8);
        lemma_i16_word_round_trip(dr);
        lemma_enc_be_len(u16_of_i16(dr) as nat, 2);
        lemma_enc_acks_len(a, i);
        assert(b =~= enc_be(ad as nat, 2) + (enc_u64(no) + enc_i16(dr) + (enc_acks_from(a, i + 1)
            + t)));
        lemma_enc_dec_be(ad as nat, 2, enc_u64(no) + enc_i16(dr) + (enc_acks_from(a, i + 1) + t));
        assert(dec_be(b, 0, 2) == ad as nat);
        assert(b =~= b.subrange(0, 2) + (enc_be(no as nat, 8) + (enc_i16(dr) + (enc_acks_from(
            a,
            i + 1,
        ) + t))));
        lemma_dec_at(b, 2, no as nat, 8, enc_i16(dr) + (enc_acks_from(a, i + 1) + t));
        assert(b =~= b.subrange(0, 10) + (enc_be(u16_of_i16(dr) as nat, 2) + (enc_acks_from(
            a,
            i + 1,
        ) + t)));
        lemma_dec_at(b, 10, u16_of_i16(dr) as nat, 2, enc_acks_from(a, i + 1) + t);
        assert(b.skip(12) =~= enc_acks_from(a, i + 1) + t);
        lemma_acks_round_trip(a, i + 1, t);
        let parsed = dec_acks(b, a.len() - i)->Some_0.0;
        assert(parsed =~= a.skip(i)) by {
            assert(a.skip(i) =~= seq![a[i]] + a.skip(i + 1));
            assert((ad, no, dr) == a[i]);
        }
    }
}

proof fn lemma_payloads_round_trip(p: Seq<Seq<u8>>, i: int, t: Seq<u8>)
    requires
        0 <= i <= p.len(),
        forall|k: int| 0 <= k < p.len() ==> #[trigger] p[k].len() <= 0xFFFF,
    ensures
        dec_payloads(enc_payloads_from(p, i) + t, p.len() - i) == Some(
            (p.skip(i), size_payloads_from(p, i)),
        ),
    decreases p.len() - i,
{
    lemma_pow256_unfold();
    if i == p.len() {
        assert(dec_payloads(enc_payloads_from(p, i) + t, 0) == Some(
            (Seq::<Seq<u8>>::empty(), 0int),
        ));
        assert(p.skip(i) =~= Seq::<Seq<u8>>::empty());
    } else {
        let b = enc_payloads_from(p, i) + t;
        let pl = p[i];
        let lw = pl.len() as u16;
        assert(lw as int == pl.len());
        lemma_enc_be_len(lw as nat, 2);
        lemma_enc_payloads_len(p, i);
        lemma_enc_payloads_len(p, i + 1);
        assert(b =~= enc_be(lw as nat, 2) + (pl + (enc_payloads_from(p, i + 1) + t)));
        lemma_enc_dec_be(lw as nat, 2, pl + (enc_payloads_from(p, i + 1) + t));
        assert(dec_be(b, 0, 2) == lw as nat);
        let l = dec_be(b, 0, 2) as int;
        assert(l == pl.len());
        assert(b.subrange(2, 2 + l) =~= pl);
        assert(b.skip(2 + l) =~= enc_payloads_from(p, i + 1) + t);
        lemma_payloads_round_trip(p, i + 1, t);
        let parsed = dec_payloads(b, p.len() - i)->Some_0.0;
        assert(parsed =~= p.skip(i)) by {
            assert(p.skip(i) =~= seq![p[i]] + p.skip(i + 1));
        }
    }
}

/// The codec round trip: decoding the encoding of any well-formed
/// frame gives back exactly that frame, consuming exactly the encoded
/// length.
pub proof fn lemma_frame_round_trip(f: FrameModel)
    requires
        wf_frame(f),
    ensures
        dec_frame(enc_frame(f)) == Some((f, enc_frame(f).len() as int)),
{
    let b = enc_frame(f);
    let hs = enc_headers(f.headers);
    let hl = size_headers(f.headers);
    let asq = enc_acks_from(f.acks, 0);
    let psq = enc_payloads_from(f.payloads, 0);
    lemma_enc_headers_len(f.headers);
    lemma_enc_acks_len(f.acks, 0);
    lemma_enc_payloads_len(f.payloads, 0);
    assert(b =~= hs + (seq![f.acks.len() as u8] + asq + psq));
    lemma_headers_round_trip(f.headers, seq![f.acks.len() as u8] + asq + psq);
    assert(dec_headers(b) == Some((f.headers, hl)));
    assert(b[hl] == f.acks.len() as u8);
    let an = b[hl] as int;
    assert(an == f.acks.len());
    assert(b.skip(hl + 1) =~= asq + psq);
    lemma_acks_round_trip(f.acks, 0, psq);
    assert(f.acks.skip(0) =~= f.acks);
    assert(dec_acks(b.skip(hl + 1), an) == Some((f.acks, 12 * f.acks.len() as int)));
    let ac = 12 * f.acks.len() as int;
    assert(b.skip(hl + 1 + ac) =~= psq + Seq::<u8>::empty());
    lemma_payloads_round_trip(f.payloads, 0, Seq::empty());
    assert(f.payloads.skip(0) =~= f.payloads);
    assert(dec_payloads(b.skip(hl + 1 + ac), f.headers.payload_count as int) == Some(
        (f.payloads, size_payloads_from(f.payloads, 0)),
    ));
    let m = dec_frame(b)->Some_0.0;
    assert(m =~= f);
    lemma_size_exact(f);
}

// ---------------------------------------------------------------------
// Errors of the codec.
// ---------------------------------------------------------------------

/// Which part of the byte stream a decode gave up on.
#[derive(Copy, Clone, Debug, PartialEq, Eq, Structural)]
pub enum DecodeFault {
    /// The recipient header needs at least its count byte.
    EmptyRecipients,
    /// A recipient count of zero is not a frame.
    ZeroRecipients,
    /// Too few bytes for a direct recipient.
    TruncatedDirect,
    /// Too few bytes for the declared group.
    TruncatedGroup,
    /// More than sixteen recipients claimed.
    TooManyRecipients,
    /// The radio header needs at least its info byte.
    EmptyHeader,
    /// The sender address is missing.
    MissingSender,
    /// The payload count byte is missing.
    MissingPayloadCount,
    /// The nonce is missing.
    MissingNonce,
    /// The acknowledgement count byte is missing.
    MissingAckCount,
    /// Too few bytes for a declared acknowledgement entry.
    TruncatedAcknowledgement,
    /// Too few bytes for a declared payload.
    TruncatedPayload,
}

/// Error due to an invalid construction or deserialization of a frame
/// component.
#[derive(Copy, Clone, Debug, PartialEq, Eq, Structural)]
pub enum FrameError {
    /// The frame component cannot be built due to an invalid header.
    InvalidHeader { context: DecodeFault },
    /// Unknown frame error.
    Unknown { context: DecodeFault },
}

// ---------------------------------------------------------------------
// Signed/unsigned wire conversions.
// ---------------------------------------------------------------------

fn u16_from_i16(x: i16) -> (r: u16)
    ensures
        r == u16_of_i16(x),
{
    if x >= 0 {
        x as u16
    } else {
        ((x as i32) + 0x10000) as u16
    }
}

fn i16_from_u16(x: u16) -> (r: i16)
    ensures
        r == i16_of_u16(x),
{
    if x < 0x8000 {
        x as i16
    } else {
        ((x as i32) - 0x10000) as i16
    }
}

// ---------------------------------------------------------------------
// Executable encoding.
// ---------------------------------------------------------------------

impl RecipientHeader {
    /// Builds the byte/network representation of this recipient header.
    pub fn to_bytes(&self) -> (r: Vec<u8>)
        requires
            self.wf(),
        ensures
            r@ == enc_recips(self.model()),
    {
        proof {
            lemma_pow256_unfold();
        }
        let mut bytes: Vec<u8> = Vec::new();
        match self {
            RecipientHeader::Direct(addr) => {
                bytes.push(1u8);
                push_be(&mut bytes, addr.0 as u64, 2);
                proof {
                    assert(bytes@ =~= enc_recips(self.model()));
                }
            },
            RecipientHeader::Group(addrs) => {
                let ghost m = group_model(addrs@);
                bytes.push(addrs.len() as u8);
                let ghost prefix = bytes@;
                let n = addrs.len();
                let mut i: usize = 0;
                while i < n
                    invariant
                        i <= n,
                        n == addrs@.len(),
                        m == group_model(addrs@),
                        m.len() == n,
                        bytes@ + enc_group_from(m, i as int) == prefix + enc_group_from(m, 0),
                    decreases n - i,
                {
                    proof {
                        lemma_pow256_unfold();
                    }
                    let (a, pf) = addrs[i];
                    let ghost before = bytes@;
                    push_be(&mut bytes, a.0 as u64, 2);
                    push_be(&mut bytes, pf.0 as u64, 2);
                    proof {
                        assert(m[i as int] == (a.0, pf.0));
                        assert(bytes@ + enc_group_from(m, i as int + 1) == prefix + enc_group_from(
                            m,
                            0,
                        )) by {
                            assert(enc_group_from(m, i as int) == enc_u16(a.0) + enc_u16(pf.0)
                                + enc_group_from(m, i as int + 1));
                            assert(bytes@ + enc_group_from(m, i as int + 1) =~= before
                                + enc_group_from(m, i as int));
                        }
                    }
                    i = i + 1;
                }
                proof {
                    assert(enc_group_from(m, n as int) =~= Seq::<u8>::empty());
                    assert(bytes@ =~= bytes@ + enc_group_from(m, n as int));
                    assert(bytes@ =~= enc_recips(self.model()));
                }
            },
        }
        bytes
    }
}

impl RadioHeaders {
    /// Builds the byte/network representation of these radio headers.
    pub fn to_bytes(&self) -> (r: Vec<u8>)
        requires
            self.wf(),
        ensures
            r@ == enc_headers(self.model()),
    {
        proof {
            lemma_pow256_unfold();
        }
        let mut bytes: Vec<u8> = Vec::new();
        bytes.push(self.rec_n_frames.0);
        let mut recips = self.recipients.to_bytes();
        bytes.append(&mut recips);
        push_be(&mut bytes, self.sender.0 as u64, 2);
        bytes.push(self.payloads);
        push_be(&mut bytes, self.nonce, 8);
        proof {
            assert(bytes@ =~= enc_headers(self.model()));
        }
        bytes
    }
}

impl RadioFrameWithHeaders {
    /// Builds the byte/network representation of this entire frame with
    /// its headers; the total is the exact wire form of the frame, to
    /// be split into slots by the caller.
    pub fn to_bytes(&self) -> (r: Vec<u8>)
        requires
            self.wf(),
        ensures
            r@ == enc_frame(self.model()),
            r@.len() == size_frame(self.model()),
    {
        proof {
            lemma_pow256_unfold();
            lemma_size_exact(self.model());
        }
        let mut bytes = self.headers.to_bytes();

        // Acknowledgements
        bytes.push(self.acknowledgements.len() as u8);
        let ghost am = acks_model(self.acknowledgements@);
        let ghost prefix = bytes@;
        let n = self.acknowledgements.len();
        let mut i: usize = 0;
        while i < n
            invariant
                i <= n,
                n == self.acknowledgements@.len(),
                am == acks_model(self.acknowledgements@),
                am.len() == n,
                bytes@ + enc_acks_from(am, i as int) == prefix + enc_acks_from(am, 0),
            decreases n - i,
        {
            proof {
                lemma_pow256_unfold();
            }
            let (ah, nonce, drssi) = self.acknowledgements[i];
            let ghost before = bytes@;
            push_be(&mut bytes, ah.0 as u64, 2);
            push_be(&mut bytes, nonce, 8);
            let dw = u16_from_i16(drssi);
            push_be(&mut bytes, dw as u64, 2);
            proof {
                assert(am[i as int] == (ah.0, nonce, drssi));
                assert(bytes@ + enc_acks_from(am, i as int + 1) == prefix + enc_acks_from(am, 0))
                    by {
                    assert(enc_acks_from(am, i as int) == enc_u16(ah.0) + enc_u64(nonce) + enc_i16(
                        drssi,
                    ) + enc_acks_from(am, i as int + 1));
                    assert(bytes@ + enc_acks_from(am, i as int + 1) =~= before + enc_acks_from(
                        am,
                        i as int,
                    ));
                }
            }
            i = i + 1;
        }
        proof {
            assert(enc_acks_from(am, n as int) =~= Seq::<u8>::empty());
            assert(bytes@ =~= bytes@ + enc_acks_from(am, n as int));
        }

        // Payloads
        let ghost pm = self.payloads.deep_view();
        let ghost prefix2 = bytes@;
        let np = self.payloads.len();
        let mut i: usize = 0;
        while i < np
            invariant
                i <= np,
                np == self.payloads@.len(),
                pm == self.payloads.deep_view(),
                pm.len() == np,
                forall|k: int| 0 <= k < np ==> #[trigger] pm[k].len() <= 0xFFFF,
                forall|k: int| 0 <= k < np ==> #[trigger] pm[k] == self.payloads@[k]@,
                bytes@ + enc_payloads_from(pm, i as int) == prefix2 + enc_payloads_from(pm, 0),
            decreases np - i,
        {
            proof {
                lemma_pow256_unfold();
            }
            let pl = &self.payloads[i];
            let ghost before = bytes@;
            push_be(&mut bytes, pl.len() as u64, 2);
            let ghost base = bytes@;
            let lp = pl.len();
            let mut j: usize = 0;
            while j < lp
                invariant
                    j <= lp,
                    lp == pl@.len(),
                    bytes@ == base + pl@.take(j as int),
                decreases lp - j,
            {
                bytes.push(pl[j]);
                proof {
                    assert(bytes@ =~= base + pl@.take(j as int + 1));
                }
                j = j + 1;
            }
            proof {
                assert(pl@.take(lp as int) =~= pl@);
                assert(pm[i as int] == pl@);
                assert((pl@.len() as u16) as nat == pl@.len());
                assert(bytes@ + enc_payloads_from(pm, i as int + 1) == prefix2 + enc_payloads_from(
                    pm,
                    0,
                )) by {
                    assert(enc_payloads_from(pm, i as int) == enc_u16(pm[i as int].len() as u16)
                        + pm[i as int] + enc_payloads_from(pm, i as int + 1));
                    assert(bytes@ + enc_payloads_from(pm, i as int + 1) =~= before
                        + enc_payloads_from(pm, i as int));
                }
            }
            i = i + 1;
        }
        proof {
            assert(enc_payloads_from(pm, np as int) =~= Seq::<u8>::empty());
            assert(bytes@ =~= bytes@ + enc_payloads_from(pm, np as int));
            assert(bytes@ =~= enc_frame(self.model()));
        }
        bytes
    }
}

// ---------------------------------------------------------------------
// Executable decoding.
// ---------------------------------------------------------------------

fn parse_group(bytes: &[u8], start: usize, k: u8) -> (r: Vec<(AddressHeader, PayloadFlag)>)
    requires
        start + 4 * (k as int) <= bytes@.len(),
    ensures
        r@.len() == k as int,
        group_model(r@) == dec_group(bytes@.skip(start as int), k as int),
    decreases k,
{
    proof {
        lemma_pow256_unfold();
    }
    if k == 0 {
        let r: Vec<(AddressHeader, PayloadFlag)> = Vec::new();
        proof {
            assert(group_model(r@) =~= dec_group(bytes@.skip(start as int), 0));
        }
        r
    } else {
        let len = bytes.len();
        let a = read_be(bytes, start, 2);
        let pf = read_be(bytes, start + 2, 2);
        let mut rest = parse_group(bytes, start + 4, k - 1);
        rest.insert(0, (AddressHeader(a as u16), PayloadFlag(pf as u16)));
        proof {
            let b = bytes@.skip(start as int);
            lemma_dec_be_frame(bytes@, b, start as int, 0, 2);
            lemma_dec_be_frame(bytes@, b, start as int + 2, 2, 2);
            assert(b.skip(4) =~= bytes@.skip(start as int + 4));
            assert(group_model(rest@) =~= dec_group(b, k as int));
        }
        rest
    }
}

fn parse_acks(bytes: &[u8], start: usize, k: u8) -> (r: Result<
    (Vec<(AddressHeader, FrameNonce, i16)>, usize),
    FrameError,
>)
    requires
        start <= bytes@.len(),
    ensures
        match r {
            Ok((v, c)) => {
                &&& dec_acks(bytes@.skip(start as int), k as int) == Some(
                    (acks_model(v@), c as int),
                )
                &&& start + c <= bytes@.len()
                &&& v@.len() == k as int
            },
            Err(e) => dec_acks(bytes@.skip(start as int), k as int) is None && e is InvalidHeader,
        },
    decreases k,
{
    proof {
        lemma_pow256_unfold();
    }
    if k == 0 {
        let v: Vec<(AddressHeader, FrameNonce, i16)> = Vec::new();
        proof {
            assert(acks_model(v@) =~= Seq::<(u16, u64, i16)>::empty());
        }
        Ok((v, 0))
    } else if bytes.len() - start < 12 {
        Err(FrameError::InvalidHeader { context: DecodeFault::TruncatedAcknowledgement })
    } else {
        let a = read_be(bytes, start, 2);
        let nonce = read_be(bytes, start + 2, 8);
        let dw = read_be(bytes, start + 10, 2);
        let drssi = i16_from_u16(dw as u16);
        match parse_acks(bytes, start + 12, k - 1) {
            Err(e) => {
                proof {
                    let b = bytes@.skip(start as int);
                    assert(b.skip(12) =~= bytes@.skip(start as int + 12));
                }
                Err(e)
            },
            Ok((mut v, c)) => {
                v.insert(0, (AddressHeader(a as u16), nonce, drssi));
                proof {
                    let b = bytes@.skip(start as int);
                    lemma_dec_be_frame(bytes@, b, start as int, 0, 2);
                    lemma_dec_be_frame(bytes@, b, start as int + 2, 2, 8);
                    lemma_dec_be_frame(bytes@, b, start as int + 10, 10, 2);
                    assert(b.skip(12) =~= bytes@.skip(start as int + 12));
                    assert(acks_model(v@) =~= dec_acks(b, k as int)->Some_0.0);
                }
                Ok((v, 12 + c))
            },
        }
    }
}

fn parse_payloads(bytes: &[u8], start: usize, k: u8) -> (r: Result<(Vec<Payload>, usize), FrameError>)
    requires
        start <= bytes@.len(),
    ensures
        match r {
            Ok((v, c)) => {
                &&& dec_payloads(bytes@.skip(start as int), k as int) == Some(
                    (v.deep_view(), c as int),
                )
                &&& start + c <= bytes@.len()
                &&& v@.len() == k as int
            },
            Err(e) => dec_payloads(bytes@.skip(start as int), k as int) is None && e
                is InvalidHeader,
        },
    decreases k,
{
    proof {
        lemma_pow256_unfold();
    }
    if k == 0 {
        let v: Vec<Payload> = Vec::new();
        proof {
            assert(v.deep_view() =~= Seq::<Seq<u8>>::empty());
        }
        Ok((v, 0))
    } else if bytes.len() - start < 2 {
        Err(FrameError::InvalidHeader { context: DecodeFault::TruncatedPayload })
    } else {
        let l = read_be(bytes, start, 2) as usize;
        proof {
            lemma_dec_be_frame(bytes@, bytes@.skip(start as int), start as int, 0, 2);
        }
        if bytes.len() - start - 2 < l {
            Err(FrameError::InvalidHeader { context: DecodeFault::TruncatedPayload })
        } else {
            let len = bytes.len();
            let mut pl: Vec<u8> = Vec::new();
            let mut j: usize = 0;
            while j < l
                invariant
                    j <= l,
                    len == bytes@.len(),
                    start + 2 + l <= bytes@.len(),
                    pl@ == bytes@.subrange(start as int + 2, start as int + 2 + j as int),
                decreases l - j,
            {
                pl.push(bytes[start + 2 + j]);
                proof {
                    assert(pl@ =~= bytes@.subrange(start as int + 2, start as int + 2 + j + 1));
                }
                j = j + 1;
            }
            match parse_payloads(bytes, start + 2 + l, k - 1) {
                Err(e) => {
                    proof {
                        let b = bytes@.skip(start as int);
                        assert(b.skip(2 + l as int) =~= bytes@.skip(start as int + 2 + l as int));
                    }
                    Err(e)
                },
                Ok((mut v, c)) => {
                    v.insert(0, pl);
                    proof {
                        let b = bytes@.skip(start as int);
                        assert(b.skip(2 + l as int) =~= bytes@.skip(start as int + 2 + l as int));
                        assert(b.subrange(2, 2 + l as int) =~= bytes@.subrange(
                            start as int + 2,
                            start as int + 2 + l as int,
                        ));
                        assert(v.deep_view() =~~= dec_payloads(b, k as int)->Some_0.0);
                    }
                    Ok((v, 2 + l + c))
                },
            }
        }
    }
}

impl RecipientHeader {
    /// Builds a new recipient header from its byte/network
    /// representation, together with the number of bytes consumed.
    ///
    /// Fails exactly on the inputs the wire decoding rejects: a missing
    /// count byte, a zero recipient count, more than sixteen
    /// recipients, or too few bytes for the declared recipients.
    pub fn try_from_bytes(bytes: &[u8]) -> (r: Result<(Self, usize), FrameError>)
        ensures
            match r {
                Ok((h, c)) => {
                    &&& dec_recips(bytes@) == Some((h.model(), c as int))
                    &&& h.wf()
                    &&& c <= bytes@.len()
                },
                Err(e) => dec_recips(bytes@) is None && e is InvalidHeader,
            },
    {
        proof {
            lemma_pow256_unfold();
        }
        if bytes.len() < 1 {
            return Err(FrameError::InvalidHeader { context: DecodeFault::EmptyRecipients });
        }
        let nrec = bytes[0];
        if nrec == 0 {
            Err(FrameError::InvalidHeader { context: DecodeFault::ZeroRecipients })
        } else if nrec == 1 {
            if bytes.len() < 3 {
                return Err(FrameError::InvalidHeader { context: DecodeFault::TruncatedDirect });
            }
            let a = read_be(bytes, 1, 2);
            Ok((RecipientHeader::Direct(AddressHeader(a as u16)), 3))
        } else if nrec <= 16 {
            let need = 1 + 4 * (nrec as usize);
            if bytes.len() < need {
                return Err(FrameError::InvalidHeader { context: DecodeFault::TruncatedGroup });
            }
            let v = parse_group(bytes, 1, nrec);
            let h = RecipientHeader::Group(v);
            proof {
                assert(h.model() =~= dec_recips(bytes@)->Some_0.0);
            }
            Ok((h, need))
        } else {
            Err(FrameError::InvalidHeader { context: DecodeFault::TooManyRecipients })
        }
    }
}

impl RadioHeaders {
    /// Builds the radio headers from a byte/network representation,
    /// together with the number of bytes consumed.
    ///
    /// Fails exactly on the inputs the wire decoding rejects: an
    /// invalid recipient header or a truncated sender, payload count or
    /// nonce.
    pub fn try_from_bytes(bytes: &[u8]) -> (r: Result<(Self, usize), FrameError>)
        ensures
            match r {
                Ok((h, c)) => {
                    &&& dec_headers(bytes@) == Some((h.model(), c as int))
                    &&& h.wf()
                    &&& c <= bytes@.len()
                },
                Err(e) => dec_headers(bytes@) is None && e is InvalidHeader,
            },
    {
        proof {
            lemma_pow256_unfold();
        }
        if bytes.len() < 1 {
            return Err(FrameError::InvalidHeader { context: DecodeFault::EmptyHeader });
        }
        let info = InfoHeader(bytes[0]);
        let sub = vstd::slice::slice_subrange(bytes, 1, bytes.len());
        proof {
            assert(sub@ =~= bytes@.skip(1));
        }
        match RecipientHeader::try_from_bytes(sub) {
            Err(e) => Err(e),
            Ok((recipients, read)) => {
                let remaining = bytes.len() - 1 - read;
                if remaining < 2 {
                    Err(FrameError::InvalidHeader { context: DecodeFault::MissingSender })
                } else if remaining < 3 {
                    Err(FrameError::InvalidHeader { context: DecodeFault::MissingPayloadCount })
                } else if remaining < 11 {
                    Err(FrameError::InvalidHeader { context: DecodeFault::MissingNonce })
                } else {
                    let cursor = 1 + read;
                    let sender = AddressHeader(read_be(bytes, cursor, 2) as u16);
                    let payloads = bytes[cursor + 2];
                    let nonce = read_be(bytes, cursor + 3, 8);
                    let h = RadioHeaders { rec_n_frames: info, recipients, payloads, sender, nonce };
                    proof {
                        assert(h.model() =~= dec_headers(bytes@)->Some_0.0);
                    }
                    Ok((h, cursor + 11))
                }
            },
        }
    }
}

impl RadioFrameWithHeaders {
    /// Builds a radio frame and its headers from its byte/network
    /// representation, together with the number of bytes consumed (so a
    /// caller can detect trailing garbage).
    ///
    /// Fails exactly on the inputs the wire decoding rejects:
    /// truncation anywhere, a zero recipient count, or more than
    /// sixteen recipients.
    pub fn try_from_bytes(bytes: &[u8]) -> (r: Result<(Self, usize), FrameError>)
        ensures
            match r {
                Ok((f, c)) => {
                    &&& dec_frame(bytes@) == Some((f.model(), c as int))
                    &&& f.headers.wf()
                    &&& c <= bytes@.len()
                },
                Err(e) => dec_frame(bytes@) is None && e is InvalidHeader,
            },
    {
        match RadioHeaders::try_from_bytes(bytes) {
            Err(e) => Err(e),
            Ok((headers, hr)) => {
                if bytes.len() - hr < 1 {
                    return Err(FrameError::InvalidHeader { context: DecodeFault::MissingAckCount });
                }
                let ackn = bytes[hr];
                match parse_acks(bytes, hr + 1, ackn) {
                    Err(e) => Err(e),
                    Ok((acks, ac)) => {
                        match parse_payloads(bytes, hr + 1 + ac, headers.payloads) {
                            Err(e) => Err(e),
                            Ok((ps, pc)) => {
                                let f = RadioFrameWithHeaders {
                                    headers,
                                    acknowledgements: acks,
                                    payloads: ps,
                                };
                                proof {
                                    assert(f.model() =~= dec_frame(bytes@)->Some_0.0);
                                }
                                Ok((f, hr + 1 + ac + pc))
                            },
                        }
                    },
                }
            },
        }
    }
}

// ---------------------------------------------------------------------
// FrameSize: byte-exact encoded sizes of every frame component.
// ---------------------------------------------------------------------

/// Trait to calculate the encoded size of every component of a frame.
pub trait FrameSize {
    /// The component's encoded size, at the level of the model.
    spec fn spec_size(&self) -> int;

    /// Whether the size arithmetic stays within machine bounds.
    spec fn size_ok(&self) -> bool;

    /// Calculates the component's size on a frame (encoded) in bytes.
    fn size(&self) -> (r: usize)
        requires
            self.size_ok(),
        ensures
            r as int == self.spec_size(),
    ;
}

impl FrameSize for u8 {
    open spec fn spec_size(&self) -> int {
        1
    }

    open spec fn size_ok(&self) -> bool {
        true
    }

    fn size(&self) -> usize {
        1
    }
}

impl FrameSize for u16 {
    open spec fn spec_size(&self) -> int {
        2
    }

    open spec fn size_ok(&self) -> bool {
        true
    }

    fn size(&self) -> usize {
        2
    }
}

impl FrameSize for InfoHeader {
    open spec fn spec_size(&self) -> int {
        1
    }

    open spec fn size_ok(&self) -> bool {
        true
    }

    fn size(&self) -> usize {
        1
    }
}

impl FrameSize for PayloadFlag {
    open spec fn spec_size(&self) -> int {
        2
    }

    open spec fn size_ok(&self) -> bool {
        true
    }

    fn size(&self) -> usize {
        2
    }
}

impl FrameSize for AddressHeader {
    open spec fn spec_size(&self) -> int {
        2
    }

    open spec fn size_ok(&self) -> bool {
        true
    }

    fn size(&self) -> usize {
        2
    }
}

impl FrameSize for Payload {
    open spec fn spec_size(&self) -> int {
        2 + self@.len() as int
    }

    open spec fn size_ok(&self) -> bool {
        self@.len() <= 0xFFFF
    }

    fn size(&self) -> usize {
        2 + self.len()
    }
}

impl FrameSize for Vec<Payload> {
    open spec fn spec_size(&self) -> int {
        1 + size_payloads_from(self.deep_view(), 0)
    }

    open spec fn size_ok(&self) -> bool {
        self@.len() <= 16 && forall|i: int|
            0 <= i < self@.len() ==> #[trigger] self@[i]@.len() <= 0xFFFF
    }

    fn size(&self) -> (r: usize)
    {
        let ghost dv = self.deep_view();
        proof {
            lemma_payloads_deep_view(self);
            lemma_size_payloads_bound(dv, 0);
        }
        let n = self.len();
        let mut acc: usize = 1;
        let mut i: usize = 0;
        while i < n
            invariant
                i <= n,
                n == self@.len() == dv.len(),
                n <= 16,
                forall|k: int| 0 <= k < dv.len() ==> #[trigger] dv[k].len() <= 0xFFFF,
                forall|k: int| 0 <= k < dv.len() ==> #[trigger] dv[k] == self@[k]@,
                acc as int + size_payloads_from(dv, i as int) == 1 + size_payloads_from(dv, 0),
                acc <= 1 + i * 0x10001,
            decreases n - i,
        {
            let pl = &self[i];
            proof {
                lemma_size_payloads_bound(dv, i as int + 1);
                assert((i + 1) * 0x10001 == i * 0x10001 + 0x10001) by (nonlinear_arith);
            }
            acc = acc + 2 + pl.len();
            i = i + 1;
        }
        acc
    }
}

impl FrameSize for Vec<(AddressHeader, FrameNonce, i16)> {
    open spec fn spec_size(&self) -> int {
        12 * self@.len() as int
    }

    open spec fn size_ok(&self) -> bool {
        self@.len() <= 16
    }

    fn size(&self) -> usize {
        self.len() * 12
    }
}

impl FrameSize for RecipientHeader {
    open spec fn spec_size(&self) -> int {
        size_recips(self.model())
    }

    open spec fn size_ok(&self) -> bool {
        self.wf()
    }

    fn size(&self) -> usize {
        match self {
            RecipientHeader::Direct(_) => 3,
            RecipientHeader::Group(addrs) => 1 + 4 * addrs.len(),
        }
    }
}

impl FrameSize for RadioHeaders {
    open spec fn spec_size(&self) -> int {
        size_headers(self.model())
    }

    open spec fn size_ok(&self) -> bool {
        self.wf()
    }

    fn size(&self) -> usize {
        self.rec_n_frames.size() + self.recipients.size() + self.payloads.size()
            + self.sender.size() + FRAME_NONCE_SIZE
    }
}

impl FrameSize for RadioFrameWithHeaders {
    open spec fn spec_size(&self) -> int {
        size_frame(self.model())
    }

    open spec fn size_ok(&self) -> bool {
        self.wf()
    }

    /// The exact encoded size of the frame: `to_bytes` produces
    /// exactly this many bytes.
    fn size(&self) -> (r: usize)
    {
        proof {
            lemma_payloads_deep_view(&self.payloads);
            lemma_size_payloads_bound(self.payloads.deep_view(), 0);
            assert forall|i: int| 0 <= i < self.payloads@.len() implies #[trigger] self.payloads@[
                i
            ]@.len() <= 0xFFFF by {
                assert(self.model().payloads[i].len() <= 0xFFFF);
            }
        }
        self.headers.size() + self.payloads.size() + self.acknowledgements.size()
    }
}

/// Each element of the deep view of a payload list is that payload's
/// byte sequence.
pub proof fn lemma_payloads_deep_view(v: &Vec<Payload>)
    ensures
        v.deep_view().len() == v@.len(),
        forall|k: int| 0 <= k < v@.len() ==> #[trigger] v.deep_view()[k] == v@[k]@,
{
    assert forall|k: int| 0 <= k < v@.len() implies #[trigger] v.deep_view()[k] == v@[k]@ by {
        assert(v.deep_view()[k] =~= v@[k]@);
    }
}

/// The payload block's size is nonnegative and at most 0x10001 bytes
/// per payload.
proof fn lemma_size_payloads_bound(p: Seq<Seq<u8>>, i: int)
    requires
        0 <= i <= p.len(),
        forall|k: int| 0 <= k < p.len() ==> #[trigger] p[k].len() <= 0xFFFF,
    ensures
        0 <= size_payloads_from(p, i) <= (p.len() - i) * 0x10001,
    decreases p.len() - i,
{
    if i < p.len() {
        lemma_size_payloads_bound(p, i + 1);
        assert((p.len() - i) * 0x10001 == (p.len() - i - 1) * 0x10001 + 0x10001)
            by (nonlinear_arith);
    }
}

} // verus!
