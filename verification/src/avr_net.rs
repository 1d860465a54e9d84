//! The bus wire format: `[addrHi][addrLo][lenHi][lenLo][payload...]`, all
//! integers big-endian, and the byte-at-a-time decoder that surfaces only the
//! frames addressed to its own bus address.

use vstd::prelude::*;

verus! {

/// Largest payload that the 16-bit length field can announce.
pub const MAX_WIRE_PAYLOAD: usize = 65535;

/// Capacity of a decoder's payload buffer.
pub const BUFFER_CAPACITY: usize = 256;

/// Number of header bytes in front of the payload.
pub const HEADER_LEN: usize = 4;

/// Why a frame was refused.
#[derive(Debug, Clone, Copy, PartialEq, Eq, Structural)]
pub enum FormatError {
    /// The bytes at hand are not exactly a header followed by as many payload
    /// bytes as the header announces.
    LengthMismatch,
    /// The payload is larger than the operation admits.
    PayloadTooLarge,
}

/// An addressed unit of bytes on the bus.
#[derive(Debug)]
pub struct AvrNetMessage {
    pub address: u16,
    pub data: Vec<u8>,
}

/// The mathematical content of a message.
pub struct Frame {
    pub address: u16,
    pub payload: Seq<u8>,
}

impl View for AvrNetMessage {
    type V = Frame;

    open spec fn view(&self) -> Frame {
        Frame { address: self.address, payload: self.data@ }
    }
}

/// The more significant byte of a 16-bit value.
pub open spec fn high_byte(x: u16) -> u8 {
    (x / 256) as u8
}

/// The less significant byte of a 16-bit value.
pub open spec fn low_byte(x: u16) -> u8 {
    (x % 256) as u8
}

/// The 16-bit value whose big-endian bytes are `hi`, `lo`.
pub open spec fn be16(hi: u8, lo: u8) -> u16 {
    (hi * 256 + lo) as u16
}

/// The wire form of a frame whose payload fits the length field.
pub open spec fn wire_bytes(f: Frame) -> Seq<u8>
    recommends
        f.payload.len() <= MAX_WIRE_PAYLOAD,
{
    seq![
        high_byte(f.address),
        low_byte(f.address),
        high_byte(f.payload.len() as u16),
        low_byte(f.payload.len() as u16),
    ] + f.payload
}

/// What encoding a frame gives: its wire form, unless the payload is too
/// large for the length field.
pub open spec fn encode_spec(f: Frame) -> Result<Seq<u8>, FormatError> {
    if f.payload.len() > MAX_WIRE_PAYLOAD {
        Err(FormatError::PayloadTooLarge)
    } else {
        Ok(wire_bytes(f))
    }
}

/// The length that the header of `bytes` announces.
pub open spec fn declared_len(bytes: Seq<u8>) -> int
    recommends
        bytes.len() >= HEADER_LEN,
{
    be16(bytes[2], bytes[3]) as int
}

/// What decoding a whole buffer gives. A buffer is a frame when it holds a
/// header, the announced length fits a decoder's buffer, and exactly that many
/// payload bytes follow.
pub open spec fn decode_spec(bytes: Seq<u8>) -> Result<Frame, FormatError> {
    if bytes.len() < HEADER_LEN {
        Err(FormatError::LengthMismatch)
    } else if declared_len(bytes) > BUFFER_CAPACITY {
        Err(FormatError::PayloadTooLarge)
    } else if bytes.len() - HEADER_LEN != declared_len(bytes) {
        Err(FormatError::LengthMismatch)
    } else {
        Ok(Frame { address: be16(bytes[0], bytes[1]), payload: bytes.skip(HEADER_LEN as int) })
    }
}

/// Splits a 16-bit value into its big-endian bytes.
pub fn split_be16(x: u16) -> (r: (u8, u8))
    ensures
        r.0 == high_byte(x),
        r.1 == low_byte(x),
        be16(r.0, r.1) == x,
{
    ((x / 256) as u8, (x % 256) as u8)
}

/// Joins two big-endian bytes into a 16-bit value.
pub fn join_be16(hi: u8, lo: u8) -> (r: u16)
    ensures
        r == be16(hi, lo),
        high_byte(r) == hi,
        low_byte(r) == lo,
{
    (hi as u16) * 256 + (lo as u16)
}

impl AvrNetMessage {
    /// Encodes the message as header and payload.
    pub fn encode(&self) -> (r: Result<Vec<u8>, FormatError>)
        ensures
            r is Ok <==> self.data@.len() <= MAX_WIRE_PAYLOAD,
            match r {
                Ok(bytes) => encode_spec(self@) == Ok::<Seq<u8>, FormatError>(bytes@),
                Err(e) => encode_spec(self@) == Err::<Seq<u8>, FormatError>(e),
            },
    {
        if self.data.len() > MAX_WIRE_PAYLOAD {
            return Err(FormatError::PayloadTooLarge);
        }
        let (addr_hi, addr_lo) = split_be16(self.address);
        let (len_hi, len_lo) = split_be16(self.data.len() as u16);
        let mut bytes: Vec<u8> = Vec::with_capacity(HEADER_LEN + self.data.len());
        bytes.push(addr_hi);
        bytes.push(addr_lo);
        bytes.push(len_hi);
        bytes.push(len_lo);
        bytes.extend_from_slice(self.data.as_slice());
        assert(bytes@ =~= wire_bytes(self@));
        Ok(bytes)
    }

    /// Decodes a whole buffer that holds exactly one frame.
    pub fn decode(bytes: &Vec<u8>) -> (r: Result<AvrNetMessage, FormatError>)
        ensures
            match r {
                Ok(m) => decode_spec(bytes@) == Ok::<Frame, FormatError>(m@),
                Err(e) => decode_spec(bytes@) == Err::<Frame, FormatError>(e),
            },
    {
        if bytes.len() < HEADER_LEN {
            return Err(FormatError::LengthMismatch);
        }
        let address = join_be16(bytes[0], bytes[1]);
        let len = join_be16(bytes[2], bytes[3]);
        if len as usize > BUFFER_CAPACITY {
            return Err(FormatError::PayloadTooLarge);
        }
        if bytes.len() - HEADER_LEN != len as usize {
            return Err(FormatError::LengthMismatch);
        }
        let mut data: Vec<u8> = Vec::with_capacity(len as usize);
        let mut i: usize = HEADER_LEN;
        while i < bytes.len()
            invariant
                HEADER_LEN <= i <= bytes.len(),
                data@ == bytes@.subrange(HEADER_LEN as int, i as int),
            decreases bytes.len() - i,
        {
            data.push(bytes[i]);
            i += 1;
        }
        assert(data@ =~= bytes@.skip(HEADER_LEN as int));
        Ok(AvrNetMessage { address, data })
    }
}

impl TryFrom<AvrNetMessage> for Vec<u8> {
    type Error = FormatError;

    /// The wire form of `msg`; see [`AvrNetMessage::encode`].
    fn try_from(msg: AvrNetMessage) -> (r: Result<Vec<u8>, FormatError>)
        ensures
            r is Ok <==> msg.data@.len() <= MAX_WIRE_PAYLOAD,
            match r {
                Ok(bytes) => encode_spec(msg@) == Ok::<Seq<u8>, FormatError>(bytes@),
                Err(e) => encode_spec(msg@) == Err::<Seq<u8>, FormatError>(e),
            },
    {
        msg.encode()
    }
}

impl TryFrom<Vec<u8>> for AvrNetMessage {
    type Error = FormatError;

    /// The frame that `data` holds; see [`AvrNetMessage::decode`].
    fn try_from(data: Vec<u8>) -> (r: Result<AvrNetMessage, FormatError>)
        ensures
            match r {
                Ok(m) => decode_spec(data@) == Ok::<Frame, FormatError>(m@),
                Err(e) => decode_spec(data@) == Err::<Frame, FormatError>(e),
            },
    {
        AvrNetMessage::decode(&data)
    }
}

/// The conversion is specified over views, by the `ensures` of `try_from`
/// itself, so no value-level specification is claimed here.
impl vstd::std_specs::convert::TryFromSpecImpl<AvrNetMessage> for Vec<u8> {
    open spec fn obeys_try_from_spec() -> bool {
        false
    }

    open spec fn try_from_spec(msg: AvrNetMessage) -> Result<Vec<u8>, FormatError> {
        arbitrary()
    }
}

/// The conversion is specified over views, by the `ensures` of `try_from`
/// itself, so no value-level specification is claimed here.
impl vstd::std_specs::convert::TryFromSpecImpl<Vec<u8>> for AvrNetMessage {
    open spec fn obeys_try_from_spec() -> bool {
        false
    }

    open spec fn try_from_spec(data: Vec<u8>) -> Result<AvrNetMessage, FormatError> {
        arbitrary()
    }
}

/// Where a decoder stands within a frame, with what it has read of it.
pub enum Phase {
    /// Between frames: the next byte is the high byte of an address.
    AddressMsb,
    /// The high address byte is in.
    AddressLsb { hi: u8 },
    /// The address is in.
    LengthMsb { address: u16 },
    /// The address and the high length byte are in.
    LengthLsb { address: u16, hi: u8 },
    /// The header is in; `got` holds the payload bytes read so far, fewer than
    /// `length`.
    Data { address: u16, length: u16, got: Seq<u8> },
}

/// The mathematical content of a decoder: the address it answers to and its
/// position in the stream.
pub struct Decoder {
    pub my_address: u16,
    pub phase: Phase,
}

/// The frame that a decoder answering to `my_address` surfaces when a frame
/// for `address` with `payload` completes: the frame itself if it is addressed
/// to the decoder, and nothing otherwise.
pub open spec fn surfaced(my_address: u16, address: u16, payload: Seq<u8>) -> Option<Frame> {
    if address == my_address {
        Some(Frame { address, payload })
    } else {
        None
    }
}

/// One transition of the decoder: the phase after consuming `c`, and the frame
/// surfaced by it, if any.
///
/// A header that announces more than [`BUFFER_CAPACITY`] bytes is dropped and
/// the decoder goes back to the start of a frame. A frame that completes sends
/// the decoder back to the start of a frame whoever it is addressed to.
pub open spec fn step(my_address: u16, phase: Phase, c: u8) -> (Phase, Option<Frame>) {
    match phase {
        Phase::AddressMsb => (Phase::AddressLsb { hi: c }, None),
        Phase::AddressLsb { hi } => (Phase::LengthMsb { address: be16(hi, c) }, None),
        Phase::LengthMsb { address } => (Phase::LengthLsb { address, hi: c }, None),
        Phase::LengthLsb { address, hi } => {
            let length = be16(hi, c);
            if length > BUFFER_CAPACITY {
                (Phase::AddressMsb, None)
            } else if length == 0 {
                (Phase::AddressMsb, surfaced(my_address, address, Seq::empty()))
            } else {
                (Phase::Data { address, length, got: Seq::empty() }, None)
            }
        },
        Phase::Data { address, length, got } => {
            if got.len() + 1 == length {
                (Phase::AddressMsb, surfaced(my_address, address, got.push(c)))
            } else {
                (Phase::Data { address, length, got: got.push(c) }, None)
            }
        },
    }
}

/// Whether a decoder in this phase holds less than its buffer's capacity, and
/// less than the frame under way announces.
pub open spec fn within_capacity(phase: Phase) -> bool {
    phase matches Phase::Data { length, got, .. } ==> got.len() < length <= BUFFER_CAPACITY
}

/// The phase after consuming all of `bytes` in order, and the frames surfaced
/// on the way, in order.
pub open spec fn run(my_address: u16, phase: Phase, bytes: Seq<u8>) -> (Phase, Seq<Frame>)
    decreases bytes.len(),
{
    if bytes.len() == 0 {
        (phase, Seq::empty())
    } else {
        let before = run(my_address, phase, bytes.drop_last());
        let last = step(my_address, before.0, bytes.last());
        match last.1 {
            Some(f) => (last.0, before.1.push(f)),
            None => (last.0, before.1),
        }
    }
}

/// The position of a decoder within a frame.
#[derive(Debug, Clone, Copy, PartialEq, Eq, Structural)]
pub enum AvrNetMode {
    AddressMsb,
    AddressLsb,
    LengthMsb,
    LengthLsb,
    Data,
}

/// A streaming decoder for one byte stream. It consumes one byte per call of
/// [`AvrNetState::rx`] and surfaces the frames addressed to it.
pub struct AvrNetState {
    my_address: u16,
    message_address: u16,
    length: u16,
    data: Vec<u8>,
    mode: AvrNetMode,
}

impl View for AvrNetState {
    type V = Decoder;

    closed spec fn view(&self) -> Decoder {
        Decoder {
            my_address: self.my_address,
            phase: match self.mode {
                AvrNetMode::AddressMsb => Phase::AddressMsb,
                AvrNetMode::AddressLsb => Phase::AddressLsb { hi: high_byte(self.message_address) },
                AvrNetMode::LengthMsb => Phase::LengthMsb { address: self.message_address },
                AvrNetMode::LengthLsb => Phase::LengthLsb {
                    address: self.message_address,
                    hi: high_byte(self.length),
                },
                AvrNetMode::Data => Phase::Data {
                    address: self.message_address,
                    length: self.length,
                    got: self.data@,
                },
            },
        }
    }
}

impl AvrNetState {
    /// The invariant of a decoder: nothing is buffered outside a payload, and
    /// a payload under way is shorter than announced and fits the buffer. It
    /// holds of every decoder that [`AvrNetState::new`] made, whatever it has
    /// consumed since.
    pub closed spec fn wf(&self) -> bool {
        &&& self.mode != AvrNetMode::Data ==> self.data@.len() == 0
        &&& self.mode == AvrNetMode::Data ==> self.data@.len() < self.length <= BUFFER_CAPACITY
    }

    /// A sound decoder holds less than its buffer's capacity.
    pub proof fn lemma_buffer_bounded(&self)
        requires
            self.wf(),
        ensures
            within_capacity(self@.phase),
    {
    }

    /// A decoder that answers to `my_address`, at the start of a frame.
    pub fn new(my_address: u16) -> (s: AvrNetState)
        ensures
            s.wf(),
            s@ == (Decoder { my_address, phase: Phase::AddressMsb }),
    {
        AvrNetState {
            my_address,
            message_address: 0,
            length: 0,
            data: Vec::with_capacity(BUFFER_CAPACITY),
            mode: AvrNetMode::AddressMsb,
        }
    }

    /// Where the decoder stands within a frame.
    pub fn mode(&self) -> (m: AvrNetMode)
        ensures
            m == AvrNetMode::AddressMsb <==> self@.phase is AddressMsb,
            m == AvrNetMode::AddressLsb <==> self@.phase is AddressLsb,
            m == AvrNetMode::LengthMsb <==> self@.phase is LengthMsb,
            m == AvrNetMode::LengthLsb <==> self@.phase is LengthLsb,
            m == AvrNetMode::Data <==> self@.phase is Data,
    {
        self.mode
    }

    /// The address this decoder answers to.
    pub fn my_address(&self) -> (a: u16)
        ensures
            a == self@.my_address,
    {
        self.my_address
    }

    /// Drops whatever was read of the current frame and goes back to the start
    /// of a frame.
    pub fn reset(&mut self)
        ensures
            final(self).wf(),
            final(self)@ == (Decoder { my_address: old(self)@.my_address, phase: Phase::AddressMsb }),
    {
        self.message_address = 0;
        self.length = 0;
        self.mode = AvrNetMode::AddressMsb;
        self.data.clear();
    }

    /// Hands out the frame that just completed, if it is addressed to this
    /// decoder, and goes back to the start of a frame either way.
    fn complete(&mut self) -> (r: Option<AvrNetMessage>)
        ensures
            final(self).wf(),
            final(self)@ == (Decoder { my_address: old(self).my_address, phase: Phase::AddressMsb }),
            final(self).my_address == old(self).my_address,
            match r {
                Some(m) => surfaced(old(self).my_address, old(self).message_address, old(self).data@)
                    == Some(m@),
                None => surfaced(old(self).my_address, old(self).message_address, old(self).data@)
                    is None,
            },
    {
        let r = if self.message_address == self.my_address {
            let mut data: Vec<u8> = Vec::new();
            data.extend_from_slice(self.data.as_slice());
            assert(data@ =~= self.data@);
            Some(AvrNetMessage { address: self.message_address, data })
        } else {
            None
        };
        self.reset();
        r
    }

    /// Consumes one byte of the stream. Returns the frame that this byte
    /// completes if that frame is addressed to this decoder.
    pub fn rx(&mut self, c: u8) -> (r: Option<AvrNetMessage>)
        ensures
            old(self).wf() ==> final(self).wf(),
            final(self)@.my_address == old(self)@.my_address,
            final(self)@.phase == step(old(self)@.my_address, old(self)@.phase, c).0,
            match r {
                Some(m) => step(old(self)@.my_address, old(self)@.phase, c).1 == Some(m@),
                None => step(old(self)@.my_address, old(self)@.phase, c).1 is None,
            },
    {
        match self.mode {
            AvrNetMode::AddressMsb => {
                self.message_address = join_be16(c, 0);
                self.mode = AvrNetMode::AddressLsb;
                None
            },
            AvrNetMode::AddressLsb => {
                let (hi, _) = split_be16(self.message_address);
                self.message_address = join_be16(hi, c);
                self.mode = AvrNetMode::LengthMsb;
                None
            },
            AvrNetMode::LengthMsb => {
                self.length = join_be16(c, 0);
                self.mode = AvrNetMode::LengthLsb;
                None
            },
            AvrNetMode::LengthLsb => {
                let (hi, _) = split_be16(self.length);
                self.length = join_be16(hi, c);
                if self.length as usize > BUFFER_CAPACITY {
                    self.reset();
                    None
                } else if self.length == 0 {
                    self.data.clear();
                    self.complete()
                } else {
                    self.data.clear();
                    self.mode = AvrNetMode::Data;
                    None
                }
            },
            AvrNetMode::Data => {
                self.data.push(c);
                if self.data.len() == self.length as usize {
                    self.complete()
                } else {
                    None
                }
            },
        }
    }
}

/// Consuming one more byte is one more transition.
pub proof fn lemma_run_push(my_address: u16, phase: Phase, bytes: Seq<u8>, c: u8)
    ensures
        run(my_address, phase, bytes.push(c)).0 == step(
            my_address,
            run(my_address, phase, bytes).0,
            c,
        ).0,
        run(my_address, phase, bytes.push(c)).1 == match step(
            my_address,
            run(my_address, phase, bytes).0,
            c,
        ).1 {
            Some(f) => run(my_address, phase, bytes).1.push(f),
            None => run(my_address, phase, bytes).1,
        },
{
    assert(bytes.push(c).drop_last() =~= bytes);
}

/// Consuming two streams one after the other is consuming their
/// concatenation: the second starts where the first left the decoder, and the
/// frames surfaced are those of the first followed by those of the second.
pub proof fn lemma_run_concat(my_address: u16, phase: Phase, first: Seq<u8>, second: Seq<u8>)
    ensures
        run(my_address, phase, first + second).0 == run(
            my_address,
            run(my_address, phase, first).0,
            second,
        ).0,
        run(my_address, phase, first + second).1 == run(my_address, phase, first).1 + run(
            my_address,
            run(my_address, phase, first).0,
            second,
        ).1,
    decreases second.len(),
{
    let mid = run(my_address, phase, first).0;
    if second.len() == 0 {
        assert(first + second =~= first);
        assert(run(my_address, phase, first).1 + Seq::<Frame>::empty() =~= run(
            my_address,
            phase,
            first,
        ).1);
    } else {
        let init = second.drop_last();
        let c = second.last();
        lemma_run_concat(my_address, phase, first, init);
        assert(first + second =~= (first + init).push(c));
        assert(second =~= init.push(c));
        lemma_run_push(my_address, phase, first + init, c);
        lemma_run_push(my_address, mid, init, c);
        let a = run(my_address, phase, first).1;
        let b = run(my_address, mid, init).1;
        match step(my_address, run(my_address, mid, init).0, c).1 {
            Some(f) => {
                assert((a + b).push(f) =~= a + b.push(f));
            },
            None => {},
        }
    }
}

/// The buffer never overflows: a decoder that holds less than its buffer's
/// capacity still does after any bytes, and the payload of every frame it
/// surfaces fits the buffer.
pub proof fn lemma_run_within_capacity(my_address: u16, phase: Phase, bytes: Seq<u8>)
    requires
        within_capacity(phase),
    ensures
        within_capacity(run(my_address, phase, bytes).0),
        forall|i: int|
            0 <= i < run(my_address, phase, bytes).1.len() ==> (#[trigger] run(
                my_address,
                phase,
                bytes,
            ).1[i]).payload.len() <= BUFFER_CAPACITY,
    decreases bytes.len(),
{
    if bytes.len() > 0 {
        lemma_run_within_capacity(my_address, phase, bytes.drop_last());
        let before = run(my_address, phase, bytes.drop_last());
        let out = run(my_address, phase, bytes).1;
        assert forall|i: int| 0 <= i < out.len() implies (#[trigger] out[i]).payload.len()
            <= BUFFER_CAPACITY by {
            if i < before.1.len() {
                assert(out[i] == before.1[i]);
            }
        }
    }
}

/// Where a decoder stands does not depend on the address it answers to: two
/// decoders that start at the same position are at the same position after
/// the same bytes.
pub proof fn lemma_position_ignores_address(a: u16, b: u16, phase: Phase, bytes: Seq<u8>)
    ensures
        run(a, phase, bytes).0 == run(b, phase, bytes).0,
    decreases bytes.len(),
{
    if bytes.len() > 0 {
        lemma_position_ignores_address(a, b, phase, bytes.drop_last());
    }
}

/// A decoder surfaces no frame but those addressed to it.
pub proof fn lemma_surfaces_own_address_only(my_address: u16, phase: Phase, bytes: Seq<u8>)
    ensures
        forall|i: int|
            0 <= i < run(my_address, phase, bytes).1.len() ==> (#[trigger] run(
                my_address,
                phase,
                bytes,
            ).1[i]).address == my_address,
    decreases bytes.len(),
{
    if bytes.len() > 0 {
        lemma_surfaces_own_address_only(my_address, phase, bytes.drop_last());
        let before = run(my_address, phase, bytes.drop_last());
        let out = run(my_address, phase, bytes).1;
        assert forall|i: int| 0 <= i < out.len() implies (#[trigger] out[i]).address
            == my_address by {
            if i < before.1.len() {
                assert(out[i] == before.1[i]);
            }
        }
    }
}

/// The position of a decoder that started between frames and has consumed the
/// first `k` bytes of the wire form of `f`.
pub open spec fn phase_within(f: Frame, k: int) -> Phase {
    let length = f.payload.len() as u16;
    if k == 1 {
        Phase::AddressLsb { hi: high_byte(f.address) }
    } else if k == 2 {
        Phase::LengthMsb { address: f.address }
    } else if k == 3 {
        Phase::LengthLsb { address: f.address, hi: high_byte(length) }
    } else if 4 <= k < 4 + f.payload.len() {
        Phase::Data { address: f.address, length, got: f.payload.take(k - 4) }
    } else {
        Phase::AddressMsb
    }
}

/// A decoder that starts between frames follows the wire form of a frame that
/// fits its buffer byte by byte, and surfaces nothing before the last byte.
pub proof fn lemma_run_within_frame(my_address: u16, f: Frame, k: int)
    requires
        f.payload.len() <= BUFFER_CAPACITY,
        0 <= k < 4 + f.payload.len(),
    ensures
        run(my_address, Phase::AddressMsb, wire_bytes(f).take(k)) == (
            phase_within(f, k),
            Seq::<Frame>::empty(),
        ),
    decreases k,
{
    let w = wire_bytes(f);
    if k > 0 {
        lemma_run_within_frame(my_address, f, k - 1);
        assert(w.take(k) =~= w.take(k - 1).push(w[k - 1]));
        lemma_run_push(my_address, Phase::AddressMsb, w.take(k - 1), w[k - 1]);
        if k > 4 {
            assert(w[k - 1] == f.payload[k - 5]);
            assert(f.payload.take(k - 4) =~= f.payload.take(k - 5).push(f.payload[k - 5]));
        } else if k == 4 {
            assert(f.payload.take(0) =~= Seq::<u8>::empty());
        }
    } else {
        assert(w.take(0) =~= Seq::<u8>::empty());
    }
}

/// Streaming and whole-buffer decoding agree on one frame: a decoder that
/// starts between frames and consumes the wire form of a frame that fits its
/// buffer surfaces exactly that frame if it is addressed to it, nothing if it
/// is not, and stands between frames again afterwards.
pub proof fn lemma_run_one_frame(my_address: u16, f: Frame)
    requires
        f.payload.len() <= BUFFER_CAPACITY,
    ensures
        run(my_address, Phase::AddressMsb, wire_bytes(f)) == (
            Phase::AddressMsb,
            if f.address == my_address {
                seq![f]
            } else {
                Seq::<Frame>::empty()
            },
        ),
{
    let w = wire_bytes(f);
    let n = w.len() as int;
    lemma_run_within_frame(my_address, f, n - 1);
    assert(w =~= w.take(n - 1).push(w[n - 1]));
    lemma_run_push(my_address, Phase::AddressMsb, w.take(n - 1), w[n - 1]);
    if f.payload.len() > 0 {
        assert(f.payload =~= f.payload.take(n - 5).push(w[n - 1]));
    } else {
        assert(f.payload =~= Seq::<u8>::empty());
    }
    if f.address == my_address {
        assert(Seq::<Frame>::empty().push(f) =~= seq![f]);
    }
}

/// Decoding undoes encoding: a message whose payload fits a decoder's buffer
/// encodes to its wire form, and that wire form decodes to the message.
pub proof fn lemma_decode_encode(f: Frame)
    requires
        f.payload.len() <= BUFFER_CAPACITY,
    ensures
        encode_spec(f) == Ok::<Seq<u8>, FormatError>(wire_bytes(f)),
        decode_spec(wire_bytes(f)) == Ok::<Frame, FormatError>(f),
{
    assert(wire_bytes(f).skip(HEADER_LEN as int) =~= f.payload);
}

/// Encoding undoes decoding: a buffer that decodes to a message is the wire
/// form of that message.
pub proof fn lemma_encode_decode(bytes: Seq<u8>)
    requires
        decode_spec(bytes) is Ok,
    ensures
        encode_spec(decode_spec(bytes)->Ok_0) == Ok::<Seq<u8>, FormatError>(bytes),
{
    assert(wire_bytes(decode_spec(bytes)->Ok_0) =~= bytes);
}

/// Of two decoders that answer to different addresses and consume the same
/// frame from between frames, only the one that the frame is addressed to
/// surfaces it; the other surfaces nothing, and both stand between frames
/// afterwards, ready for the next frame.
pub proof fn lemma_address_filtering(a: u16, b: u16, f: Frame)
    requires
        a != b,
        f.address == a,
        f.payload.len() <= BUFFER_CAPACITY,
    ensures
        run(a, Phase::AddressMsb, wire_bytes(f)) == (Phase::AddressMsb, seq![f]),
        run(b, Phase::AddressMsb, wire_bytes(f)) == (Phase::AddressMsb, Seq::<Frame>::empty()),
{
    lemma_run_one_frame(a, f);
    lemma_run_one_frame(b, f);
}

/// The wire forms of `frames`, one after the other.
pub open spec fn wire_stream(frames: Seq<Frame>) -> Seq<u8>
    decreases frames.len(),
{
    if frames.len() == 0 {
        Seq::empty()
    } else {
        wire_stream(frames.drop_last()) + wire_bytes(frames.last())
    }
}

/// Address filtering on a stream: a decoder that starts between frames and
/// consumes the wire forms of frames that fit its buffer, one after the other,
/// surfaces exactly those addressed to it, in order, and stands between frames
/// at the end. So decoders that answer to different addresses and consume the
/// same stream each surface their own frames only, and all stay in step.
pub proof fn lemma_run_stream(my_address: u16, frames: Seq<Frame>)
    requires
        forall|i: int| 0 <= i < frames.len() ==> (#[trigger] frames[i]).payload.len() <= BUFFER_CAPACITY,
    ensures
        run(my_address, Phase::AddressMsb, wire_stream(frames)) == (
            Phase::AddressMsb,
            frames.filter(|f: Frame| f.address == my_address),
        ),
    decreases frames.len(),
{
    reveal(Seq::filter);
    let mine = |f: Frame| f.address == my_address;
    if frames.len() == 0 {
        assert(frames.filter(mine) =~= Seq::<Frame>::empty());
    } else {
        let head = frames.drop_last();
        let last = frames.last();
        lemma_run_stream(my_address, head);
        lemma_run_one_frame(my_address, last);
        lemma_run_concat(my_address, Phase::AddressMsb, wire_stream(head), wire_bytes(last));
        if last.address == my_address {
            assert(head.filter(mine) + seq![last] =~= head.filter(mine).push(last));
        } else {
            assert(head.filter(mine) + Seq::<Frame>::empty() =~= head.filter(mine));
        }
    }
}

} // verus!
