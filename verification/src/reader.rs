//! Packet/payload reading and dispatching utilities

use crate::cli::PacketFormat;
use crate::stat::{EncapHeader, EncapNormalHeader, EncapNullHeader, SmiHeader};
use crate::util::Selector;
use riscv_etrace::packet::builder;
use riscv_etrace::packet::encap::Packet as Encap;
use riscv_etrace::packet::Error as DecodeError;
use std::collections::HashMap;
use vstd::prelude::*;

verus! {

/// Size of the buffer of a [`BufReader`]
pub const BUFFER_SIZE: usize = 16384;

/// `a + b`, capped at the largest `usize`.
pub open spec fn sat_add_usize(a: usize, b: usize) -> usize {
    if a + b > usize::MAX {
        usize::MAX
    } else {
        (a + b) as usize
    }
}

/// Buffer for reading a trace file, with support for looking ahead
///
/// The reading itself happens outside: [`fill_request`][Self::fill_request]
/// and [`peek_request`][Self::peek_request] tell how much to read, and
/// [`fill_complete`][Self::fill_complete] and
/// [`peek_complete`][Self::peek_complete] take the data read.
#[derive(Debug)]
pub struct BufReader {
    buffer: Vec<u8>,
    pos: usize,
}

impl BufReader {
    /// The bytes held by the buffer.
    pub closed spec fn spec_buffer(self) -> Seq<u8> {
        self.buffer@
    }

    /// The read position within the buffer.
    pub closed spec fn spec_pos(self) -> usize {
        self.pos
    }

    /// The buffer holds at most [`BUFFER_SIZE`] bytes.
    pub open spec fn wf(self) -> bool {
        self.spec_buffer().len() <= BUFFER_SIZE
    }

    /// The bytes available for reading: those from the read position on.
    pub open spec fn unread(self) -> Seq<u8> {
        self.spec_buffer().subrange(self.spec_pos() as int, self.spec_buffer().len() as int)
    }

    /// `new` is `old` after a request to look `n` bytes ahead, which returned `r`.
    pub open spec fn peek_requested(old: BufReader, new: BufReader, n: usize, r: Option<usize>) -> bool {
        let b = old.spec_buffer();
        let p = old.spec_pos();
        if sat_add_usize(p, n) > b.len() {
            &&& r == Some((b.len() - p) as usize)
            &&& new.spec_buffer() == b.subrange(p as int, b.len() as int) + b.subrange(
                b.len() - p,
                b.len() as int,
            )
            &&& new.spec_pos() == 0
        } else {
            &&& r is None
            &&& new.spec_buffer() == b
            &&& new.spec_pos() == p
        }
    }

    /// `new` is `old` with `data` placed at `read_base`, ending the buffer.
    pub open spec fn peek_completed(old: BufReader, new: BufReader, read_base: usize, data: Seq<u8>) -> bool {
        &&& new.spec_buffer() == old.spec_buffer().take(read_base as int) + data
        &&& new.spec_pos() == old.spec_pos()
    }

    /// Create a new reader
    ///
    /// The buffer holds [`BUFFER_SIZE`] bytes, all of them consumed.
    pub fn new() -> (r: BufReader)
        ensures
            r.wf(),
            r.spec_buffer().len() == BUFFER_SIZE,
            r.spec_pos() == usize::MAX,
    {
        BufReader { buffer: vec![0u8; BUFFER_SIZE], pos: usize::MAX }
    }

    /// Whether the buffer needs to be filled before reading, and with how
    /// many bytes at most
    pub fn fill_request(&self) -> (r: Option<usize>)
        ensures
            self.spec_pos() >= self.spec_buffer().len() ==> r == Some(
                self.spec_buffer().len() as usize,
            ),
            self.spec_pos() < self.spec_buffer().len() ==> r is None,
    {
        if self.pos >= self.buffer.len() {
            Some(self.buffer.len())
        } else {
            None
        }
    }

    /// Take the data read for filling the buffer
    ///
    /// The data read replace the buffer's contents, and reading starts anew.
    pub fn fill_complete(&mut self, data: &[u8])
        requires
            data@.len() <= old(self).spec_buffer().len(),
        ensures
            final(self).spec_buffer() == data@,
            final(self).spec_pos() == 0,
            old(self).wf() ==> final(self).wf(),
    {
        let mut i: usize = 0;
        while i < data.len()
            invariant
                i <= data@.len(),
                data@.len() <= self.buffer@.len(),
                self.buffer@.len() == old(self).buffer@.len(),
                self.buffer@.take(i as int) == data@.take(i as int),
            decreases data.len() - i,
        {
            self.buffer.set(i, data[i]);
            i = i + 1;
            assert(self.buffer@.take(i as int) =~= data@.take(i as int));
        }
        self.buffer.truncate(data.len());
        assert(self.buffer@ =~= data@.take(data@.len() as int));
        assert(data@.take(data@.len() as int) =~= data@);
        self.pos = 0;
    }

    /// The bytes available for reading
    pub fn available(&self) -> (r: &[u8])
        requires
            self.spec_pos() <= self.spec_buffer().len(),
        ensures
            r@ == self.spec_buffer().subrange(self.spec_pos() as int, self.spec_buffer().len() as int),
    {
        let s = self.buffer.as_slice();
        &s[self.pos..s.len()]
    }

    /// Prepare for looking `n` bytes ahead
    ///
    /// If the buffer does not hold `n` bytes beyond the read position, the
    /// bytes left are moved to the start of the buffer and the position
    /// after them is returned: more data is to be read into the buffer
    /// from there up to its end.
    pub fn peek_request(&mut self, n: usize) -> (r: Option<usize>)
        requires
            old(self).spec_pos() <= old(self).spec_buffer().len(),
        ensures
            BufReader::peek_requested(*old(self), *final(self), n, r),
            old(self).wf() ==> final(self).wf(),
    {
        let n_end = self.pos.saturating_add(n);
        if n_end <= self.buffer.len() {
            return None;
        }
        let len = self.buffer.len();
        let pos = self.pos;
        let ghost b = self.buffer@;
        let mut i: usize = 0;
        while i < len - pos
            invariant
                pos <= len,
                len == b.len(),
                i <= len - pos,
                self.buffer@.len() == len,
                forall|j: int| 0 <= j < i ==> #[trigger] self.buffer@[j] == b[pos + j],
                forall|j: int| i <= j < len ==> #[trigger] self.buffer@[j] == b[j],
            decreases len - pos - i,
        {
            let v = self.buffer[pos + i];
            self.buffer.set(i, v);
            i = i + 1;
        }
        assert(self.buffer@ =~= b.subrange(pos as int, len as int) + b.subrange(
            len - pos,
            len as int,
        ));
        self.pos = 0;
        Some(len - pos)
    }

    /// Take the data read after [`peek_request`][Self::peek_request]
    ///
    /// The data are placed at `read_base` and the buffer ends after them.
    pub fn peek_complete(&mut self, read_base: usize, data: &[u8])
        requires
            read_base + data@.len() <= old(self).spec_buffer().len(),
        ensures
            BufReader::peek_completed(*old(self), *final(self), read_base, data@),
            old(self).wf() ==> final(self).wf(),
    {
        let ghost b = self.buffer@;
        let blen = self.buffer.len();
        let mut i: usize = 0;
        while i < data.len()
            invariant
                i <= data@.len(),
                blen == b.len(),
                self.pos == old(self).pos,
                read_base + data@.len() <= b.len(),
                self.buffer@.len() == b.len(),
                self.buffer@.take(read_base as int) == b.take(read_base as int),
                self.buffer@.subrange(read_base as int, read_base + i) == data@.take(i as int),
            decreases data.len() - i,
        {
            self.buffer.set(read_base + i, data[i]);
            i = i + 1;
            assert(self.buffer@.take(read_base as int) =~= b.take(read_base as int));
            assert(self.buffer@.subrange(read_base as int, read_base + i) =~= data@.take(i as int));
        }
        assert(data@.take(data@.len() as int) =~= data@);
        self.buffer.truncate(read_base + data.len());
        assert(self.buffer@ =~= self.buffer@.take(read_base as int) + self.buffer@.subrange(
            read_base as int,
            read_base + data@.len(),
        ));
        assert(self.buffer@ =~= b.take(read_base as int) + data@);
    }

    /// Retrieve up to `n` bytes without advancing the read position
    pub fn peeked(&self, n: usize) -> (r: &[u8])
        requires
            self.spec_pos() <= self.spec_buffer().len(),
        ensures
            ({
                let b = self.spec_buffer();
                let p = self.spec_pos();
                r@ == b.subrange(p as int, if p + n <= b.len() { p + n } else { b.len() as int })
            }),
    {
        let s = self.buffer.as_slice();
        let end = if n <= s.len() - self.pos {
            self.pos + n
        } else {
            s.len()
        };
        &s[self.pos..end]
    }

    /// Consume the given number of bytes
    pub fn consume(&mut self, amount: usize)
        ensures
            final(self).spec_pos() == sat_add_usize(old(self).spec_pos(), amount),
            final(self).spec_buffer() == old(self).spec_buffer(),
            old(self).wf() ==> final(self).wf(),
    {
        self.pos = self.pos.saturating_add(amount);
    }
}

/// Looking ahead keeps the bytes not yet read: after a request to look ahead
/// that asks for more data and the completion with the data read, the bytes
/// available are those available before, followed by the data read.
pub proof fn peek_keeps_unread(
    r0: BufReader,
    r1: BufReader,
    r2: BufReader,
    n: usize,
    read_base: usize,
    data: Seq<u8>,
)
    requires
        r0.spec_pos() <= r0.spec_buffer().len(),
        BufReader::peek_requested(r0, r1, n, Some(read_base)),
        BufReader::peek_completed(r1, r2, read_base, data),
    ensures
        r2.spec_pos() == 0,
        r2.unread() == r0.unread() + data,
{
    let b = r0.spec_buffer();
    let p = r0.spec_pos();
    assert(r1.spec_buffer().take(read_base as int) =~= b.subrange(p as int, b.len() as int));
    assert(r2.unread() =~= r2.spec_buffer());
}

/// Looking ahead when the bytes are there changes nothing.
pub proof fn peek_in_buffer_keeps_all(r0: BufReader, r1: BufReader, n: usize, r: Option<usize>)
    requires
        BufReader::peek_requested(r0, r1, n, r),
        sat_add_usize(r0.spec_pos(), n) <= r0.spec_buffer().len(),
    ensures
        r is None,
        r1.spec_buffer() == r0.spec_buffer(),
        r1.spec_pos() == r0.spec_pos(),
{
}

/// Consuming bytes that are available drops exactly them from the bytes
/// available.
pub proof fn consume_drops_read(r0: BufReader, r1: BufReader, amount: usize)
    requires
        r0.spec_pos() <= r0.spec_buffer().len() <= usize::MAX,
        amount <= r0.unread().len(),
        r1.spec_buffer() == r0.spec_buffer(),
        r1.spec_pos() == sat_add_usize(r0.spec_pos(), amount),
    ensures
        r1.unread() == r0.unread().skip(amount as int),
{
    assert(r1.unread() =~= r0.unread().skip(amount as int));
}

/// Configuration of packet decoding, as far as packet headers depend on it
#[derive(Copy, Clone, Debug, PartialEq, Eq, Structural)]
pub struct DecoderConfig {
    /// The packet format
    pub format: PacketFormat,
    /// Width of the source (HART) index field, in bits
    pub hart_index_width: u8,
    /// Width of the timestamp of encapsulation structures, in bytes
    pub timestamp_width: u8,
}

impl DecoderConfig {
    /// The widths are within those that the header fields can hold: a source
    /// index of an encapsulation structure has 16 bits at most and its
    /// timestamp 8 bytes, a HART index of an SMI packet 64 bits.
    pub open spec fn decodable(self) -> bool {
        match self.format {
            PacketFormat::Encap => self.hart_index_width <= 16 && self.timestamp_width <= 8,
            PacketFormat::Smi => self.hart_index_width <= 64,
        }
    }

    /// Create a configuration, if its widths are [decodable][Self::decodable]
    pub fn new(format: PacketFormat, hart_index_width: u8, timestamp_width: u8) -> (r: Option<DecoderConfig>)
        ensures
            ({
                let c = DecoderConfig { format, hart_index_width, timestamp_width };
                if c.decodable() { r == Some(c) } else { r is None }
            }),
    {
        let c = DecoderConfig { format, hart_index_width, timestamp_width };
        let ok = match format {
            PacketFormat::Encap => hart_index_width <= 16 && timestamp_width <= 8,
            PacketFormat::Smi => hart_index_width <= 64,
        };
        if ok {
            Some(c)
        } else {
            None
        }
    }
}

/// The header of a packet of either format
#[derive(Copy, Clone, Debug, PartialEq, Eq, Structural)]
pub enum PacketHeader {
    Encap(EncapHeader),
    Smi(SmiHeader),
}

/// Outcome of an attempt to decode a packet from the bytes available
#[derive(Copy, Clone, Debug, PartialEq, Eq, Structural)]
pub enum Decoded {
    /// A packet with this header was decoded, leaving `left` bytes
    Packet { left: usize, header: PacketHeader },
    /// The bytes available do not hold a full packet; `need` more are needed
    Insufficient { need: usize },
    /// Decoding failed
    Failed,
}

/// What `riscv_etrace`'s decoder makes of `buf` as an encapsulation structure,
/// with source indices of `hart_index_width` bits and timestamps of
/// `timestamp_width` bytes.
pub uninterp spec fn spec_encap_decoded(hart_index_width: u8, timestamp_width: u8, buf: Seq<u8>) -> Decoded;

/// What `riscv_etrace`'s decoder makes of `buf` as an SMI packet, with HART
/// indices of `hart_index_width` bits.
pub uninterp spec fn spec_smi_decoded(hart_index_width: u8, buf: Seq<u8>) -> Decoded;

/// What decoding `buf` under `cfg` yields.
pub open spec fn spec_decoded(cfg: DecoderConfig, buf: Seq<u8>) -> Decoded {
    match cfg.format {
        PacketFormat::Encap => spec_encap_decoded(cfg.hart_index_width, cfg.timestamp_width, buf),
        PacketFormat::Smi => spec_smi_decoded(cfg.hart_index_width, buf),
    }
}

/// Decodes the header of an encapsulation structure from `buf` with
/// `riscv_etrace::packet::decoder::Decoder::decode_encap_packet`, on a decoder
/// that `riscv_etrace::packet::Builder::decoder` made for `buf` with the given
/// widths.
///
/// Claimed: the outcome is a function of the widths and the bytes; a packet
/// leaves at most the bytes given (the decoder's `bytes_left`) and has the
/// header of an encapsulation structure. The decoder reads its fields with
/// shifts that stay within their types for source indices of at most 16 bits
/// and timestamps of at most 8 bytes, and counts bits in a `usize`.
#[verifier::external_body]
fn decode_encap_packet(hart_index_width: u8, timestamp_width: u8, buf: &[u8]) -> (r: Decoded)
    requires
        hart_index_width <= 16,
        timestamp_width <= 8,
        buf@.len() <= usize::MAX / 16,
    ensures
        r == spec_encap_decoded(hart_index_width, timestamp_width, buf@),
        r matches Decoded::Packet { left, header } ==> left <= buf@.len() && header is Encap,
{
    let mut d = builder().with_hart_index_width(hart_index_width).with_timestamp_width(timestamp_width).decoder(buf);
    let header = match d.decode_encap_packet() {
        Ok(Encap::NullIdle { flow }) => EncapHeader::Null(EncapNullHeader { flow, align: false }),
        Ok(Encap::NullAlign { flow }) => EncapHeader::Null(EncapNullHeader { flow, align: true }),
        Ok(Encap::Normal(n)) => EncapHeader::Normal(
            EncapNormalHeader { flow: n.flow(), src_id: n.src_id(), timestamp: n.timestamp().is_some() },
        ),
        Err(DecodeError::InsufficientData(need)) => return Decoded::Insufficient { need: need.get() },
        Err(_) => return Decoded::Failed,
    };
    Decoded::Packet { left: d.bytes_left(), header: PacketHeader::Encap(header) }
}

/// Decodes the header of an SMI packet from `buf` with
/// `riscv_etrace::packet::decoder::Decoder::decode_smi_packet`, on a decoder
/// that `riscv_etrace::packet::Builder::decoder` made for `buf` with the given
/// width.
///
/// Claimed: the outcome is a function of the width and the bytes; a packet
/// leaves at most the bytes given (the decoder's `bytes_left`) and has the
/// header of an SMI packet. The decoder reads the HART index with shifts that
/// stay within a `u64` for at most 64 bits, and counts bits in a `usize`.
#[verifier::external_body]
fn decode_smi_packet(hart_index_width: u8, buf: &[u8]) -> (r: Decoded)
    requires
        hart_index_width <= 64,
        buf@.len() <= usize::MAX / 16,
    ensures
        r == spec_smi_decoded(hart_index_width, buf@),
        r matches Decoded::Packet { left, header } ==> left <= buf@.len() && header is Smi,
{
    let mut d = builder().with_hart_index_width(hart_index_width).decoder(buf);
    let p = match d.decode_smi_packet() {
        Ok(p) => p,
        Err(DecodeError::InsufficientData(need)) => return Decoded::Insufficient { need: need.get() },
        Err(_) => return Decoded::Failed,
    };
    let header = SmiHeader { trace_type: p.raw_trace_type(), hart: p.hart(), time_tag: p.time_tag().is_some() };
    Decoded::Packet { left: d.bytes_left(), header: PacketHeader::Smi(header) }
}

/// Decode the header of the packet at the start of `buf`
pub fn decode(cfg: &DecoderConfig, buf: &[u8]) -> (r: Decoded)
    requires
        cfg.decodable(),
        buf@.len() <= usize::MAX / 16,
    ensures
        r == spec_decoded(*cfg, buf@),
        r matches Decoded::Packet { left, header } ==> left <= buf@.len() && (match cfg.format {
            PacketFormat::Encap => header is Encap,
            PacketFormat::Smi => header is Smi,
        }),
{
    match cfg.format {
        PacketFormat::Encap => decode_encap_packet(cfg.hart_index_width, cfg.timestamp_width, buf),
        PacketFormat::Smi => decode_smi_packet(cfg.hart_index_width, buf),
    }
}

/// What reading does after an attempt to decode a packet
#[derive(Copy, Clone, Debug, PartialEq, Eq, Structural)]
pub enum ReadAction {
    /// Hand the packet with this header to the handler and consume its bytes
    Handle { amount: usize, header: PacketHeader },
    /// Look ahead this many bytes in total, then try again
    Peek { total: usize },
    /// Report the decoding error
    Fail,
}

/// What reading does with `available` bytes, of which decoding made `decoded`:
/// a packet is handled and its bytes consumed, missing bytes are looked ahead
/// for, and a failure is reported.
pub open spec fn spec_next_action(available: usize, decoded: Decoded) -> ReadAction {
    match decoded {
        Decoded::Packet { left, header } => ReadAction::Handle { amount: (available - left) as usize, header },
        Decoded::Insufficient { need } => ReadAction::Peek { total: sat_add_usize(available, need) },
        Decoded::Failed => ReadAction::Fail,
    }
}

/// Decide what to do after an attempt to decode a packet from `available`
/// bytes
pub fn next_action(available: usize, decoded: Decoded) -> (r: ReadAction)
    requires
        decoded matches Decoded::Packet { left, .. } ==> left <= available,
    ensures
        r == spec_next_action(available, decoded),
{
    match decoded {
        Decoded::Packet { left, header } => ReadAction::Handle { amount: available - left, header },
        Decoded::Insufficient { need } => ReadAction::Peek { total: available.saturating_add(need) },
        Decoded::Failed => ReadAction::Fail,
    }
}

/// Decode the packet at the read position of `r` and decide what to do next
pub fn read_step(r: &BufReader, cfg: &DecoderConfig) -> (a: ReadAction)
    requires
        r.wf(),
        r.spec_pos() <= r.spec_buffer().len(),
        cfg.decodable(),
    ensures
        a == spec_next_action(r.unread().len() as usize, spec_decoded(*cfg, r.unread())),
{
    let buf = r.available();
    let d = decode(cfg, buf);
    next_action(buf.len(), d)
}

/// Whether looking ahead yielded the bytes needed; if not, the file ended in
/// the middle of a packet
pub fn peek_sufficient(got: usize, total: usize) -> (r: bool)
    ensures
        r == (got >= total),
{
    got >= total
}

/// A handler filtering for tracing payloads emitted by a single source
#[derive(Copy, Clone, Debug)]
pub struct SingleHart<S> {
    selector: S,
    src_id: u64,
}

impl<S> SingleHart<S> {
    /// The selector applied in addition to the source id.
    pub closed spec fn spec_selector(self) -> S {
        self.selector
    }

    /// The source id selected.
    pub closed spec fn spec_src_id(self) -> u64 {
        self.src_id
    }

    /// Create a handler from configuration
    pub fn new(selector: S, src_id: u64) -> (r: SingleHart<S>)
        ensures
            r.spec_selector() == selector,
            r.spec_src_id() == src_id,
    {
        SingleHart { selector, src_id }
    }
}

impl<S: Selector<EncapNormalHeader>> SingleHart<S> {
    /// Whether the payload of an encap packet is to be decoded and yielded
    ///
    /// This holds for normal encapsulation structures from the selected
    /// source that the selector accepts.
    pub fn handle_encap(&self, packet: &EncapHeader) -> (r: bool)
        ensures
            r == (*packet matches EncapHeader::Normal(n) && self.spec_selector().selects(n)
                && n.src_id as u64 == self.spec_src_id()),
    {
        match packet {
            EncapHeader::Normal(n) => self.selector.matches(n) && self.src_id.matches(n),
            EncapHeader::Null(_) => false,
        }
    }
}

impl<S: Selector<SmiHeader>> SingleHart<S> {
    /// Whether the payload of an SMI packet is to be decoded and yielded
    ///
    /// This holds for packets from the selected HART that the selector
    /// accepts.
    pub fn handle_smi(&self, packet: &SmiHeader) -> (r: bool)
        ensures
            r == (self.spec_selector().selects(*packet) && packet.hart == self.spec_src_id()),
    {
        self.selector.matches(packet) && self.src_id.matches(packet)
    }
}

/// Where to send a payload
#[derive(Copy, Clone, Debug, PartialEq, Eq, Structural)]
pub enum Route {
    /// Send to the worker with this index
    Existing(usize),
    /// Set up a worker with this index, then send to it
    New(usize),
    /// Drop the payload
    Skip,
}

/// A handler dispatching payloads to a separate worker for each source id
///
/// Workers are numbered in the order in which their sources first appear.
#[derive(Clone, Debug)]
pub struct ThreadDispatch<S> {
    targets: HashMap<u64, usize>,
    selector: S,
    src_id: Vec<u64>,
}

impl<S> ThreadDispatch<S> {
    /// The worker of each source id that has one.
    pub closed spec fn spec_targets(self) -> Map<u64, usize> {
        self.targets@
    }

    /// The selector applied to packets.
    pub closed spec fn spec_selector(self) -> S {
        self.selector
    }

    /// The source ids to dispatch; all if empty.
    pub closed spec fn spec_src_ids(self) -> Seq<u64> {
        self.src_id@
    }

    /// The workers are numbered from 0 on, each source id having its own.
    pub open spec fn wf(self) -> bool {
        let t = self.spec_targets();
        &&& t.dom().finite()
        &&& forall|k: u64| #[trigger] t.contains_key(k) ==> t[k] < t.len()
        &&& forall|a: u64, b: u64|
            #[trigger] t.contains_key(a) && #[trigger] t.contains_key(b) && a != b ==> t[a] != t[b]
    }

    /// Create a handler from configuration
    pub fn new(selector: S, src_id: Vec<u64>) -> (r: ThreadDispatch<S>)
        ensures
            r.wf(),
            r.spec_targets() == Map::<u64, usize>::empty(),
            r.spec_selector() == selector,
            r.spec_src_ids() == src_id@,
    {
        ThreadDispatch { targets: HashMap::new(), selector, src_id }
    }

    /// Retrieve the worker to which to dispatch payloads with the given
    /// source id
    ///
    /// A source id with a worker goes to it. Otherwise, a source id that is
    /// not selected is skipped, and a selected one gets the next worker,
    /// which [`add_worker`][Self::add_worker] records once the payload is
    /// in hand. Nothing changes here.
    pub fn dispatch(&self, src_id: u64) -> (r: Route)
        requires
            self.wf(),
        ensures
            r == dispatched(*self, src_id),
            r matches Route::Existing(k) ==> k < self.spec_targets().len(),
    {
        broadcast use vstd::std_specs::hash::group_hash_axioms;

        match self.targets.get(&src_id) {
            Some(k) => Route::Existing(*k),
            None => {
                if self.src_id.len() != 0 {
                    let mut found = false;
                    let mut j: usize = 0;
                    while j < self.src_id.len()
                        invariant
                            j <= self.src_id@.len(),
                            found == (exists|k: int| 0 <= k < j && self.src_id@[k] == src_id),
                        decreases self.src_id.len() - j,
                    {
                        if self.src_id[j] == src_id {
                            found = true;
                        }
                        j = j + 1;
                    }
                    if !found {
                        return Route::Skip;
                    }
                }
                Route::New(self.targets.len())
            },
        }
    }

    /// Record the worker for a source id that [`dispatch`][Self::dispatch]
    /// routed to a new worker
    ///
    /// The worker gets the next number.
    pub fn add_worker(&mut self, src_id: u64)
        requires
            old(self).wf(),
            !old(self).spec_targets().contains_key(src_id),
        ensures
            final(self).wf(),
            final(self).spec_targets() == old(self).spec_targets().insert(
                src_id,
                old(self).spec_targets().len() as usize,
            ),
            final(self).spec_selector() == old(self).spec_selector(),
            final(self).spec_src_ids() == old(self).spec_src_ids(),
    {
        broadcast use vstd::std_specs::hash::group_hash_axioms;

        let n = self.targets.len();
        let ghost t = self.targets@;
        self.targets.insert(src_id, n);
        proof {
            let t2 = self.targets@;
            assert(t2.dom() =~= t.dom().insert(src_id));
            assert(t2.len() == t.len() + 1);
            assert forall|a: u64, b: u64|
                #[trigger] t2.contains_key(a) && #[trigger] t2.contains_key(b) && a != b implies t2[a] != t2[b] by {
                if a != src_id && b != src_id {
                    assert(t.contains_key(a) && t.contains_key(b));
                } else if a == src_id {
                    assert(t.contains_key(b));
                } else {
                    assert(t.contains_key(a));
                }
            }
            assert forall|k: u64| #[trigger] t2.contains_key(k) implies t2[k] < t2.len() by {
                if k != src_id {
                    assert(t.contains_key(k));
                }
            }
        }
    }
}

impl<S: Selector<EncapNormalHeader>> ThreadDispatch<S> {
    /// Route an encap packet: normal encapsulation structures that the
    /// selector accepts are dispatched by their source id, others skipped
    pub fn handle_encap(&self, packet: &EncapHeader) -> (r: Route)
        requires
            self.wf(),
        ensures
            r == match *packet {
                EncapHeader::Normal(n) => if self.spec_selector().selects(n) {
                    dispatched(*self, n.src_id as u64)
                } else {
                    Route::Skip
                },
                EncapHeader::Null(_) => Route::Skip,
            },
    {
        match packet {
            EncapHeader::Normal(n) => {
                if self.selector.matches(n) {
                    self.dispatch(n.src_id as u64)
                } else {
                    Route::Skip
                }
            },
            EncapHeader::Null(_) => Route::Skip,
        }
    }
}

impl<S: Selector<SmiHeader>> ThreadDispatch<S> {
    /// Route an SMI packet: packets that the selector accepts are dispatched
    /// by their HART, others skipped
    pub fn handle_smi(&self, packet: &SmiHeader) -> (r: Route)
        requires
            self.wf(),
        ensures
            r == if self.spec_selector().selects(*packet) {
                dispatched(*self, packet.hart)
            } else {
                Route::Skip
            },
    {
        if self.selector.matches(packet) {
            self.dispatch(packet.hart)
        } else {
            Route::Skip
        }
    }
}

/// The route that [`ThreadDispatch::dispatch`] yields for `src_id`: the
/// worker of the source if it has one, none if it is not selected, and the
/// next worker otherwise.
pub open spec fn dispatched<S>(d: ThreadDispatch<S>, src_id: u64) -> Route {
    if d.spec_targets().contains_key(src_id) {
        Route::Existing(d.spec_targets()[src_id])
    } else if d.spec_src_ids().len() != 0 && !d.spec_src_ids().contains(src_id) {
        Route::Skip
    } else {
        Route::New(d.spec_targets().len() as usize)
    }
}

/// Kind of [`ThreadDispatch`]
#[derive(Copy, Clone, Debug, PartialEq, Eq, Structural)]
pub enum TDKind {
    /// Decode RISC-V Encapsulation structures
    Encap(u8),
    /// Decode Siemens Messaging Infrastructure (SMI) packets
    Smi,
}

/// A handler that yields nothing
#[derive(Copy, Clone, Default, Debug)]
pub struct DefaultHandler;

impl DefaultHandler {
    /// Handle an encap packet: nothing is yielded
    pub fn handle_encap(&mut self, packet: &EncapHeader) -> (r: Option<()>)
        ensures
            r is None,
    {
        None
    }

    /// Handle an SMI packet: nothing is yielded
    pub fn handle_smi(&mut self, packet: &SmiHeader) -> (r: Option<()>)
        ensures
            r is None,
    {
        None
    }
}

/// Error type signalling early worker exit
#[derive(Copy, Clone, Default, Debug)]
pub struct EarlyWorkerExit;

impl EarlyWorkerExit {
    /// The message describing this error
    pub fn message(&self) -> (r: &'static str)
        ensures
            r@ == "Worker thread existted prematurely"@,
    {
        "Worker thread existted prematurely"
    }
}


/// Once a source id has a worker, its payloads keep going to that worker,
/// and no other source id goes there.
pub proof fn dispatch_is_stable<S>(d: ThreadDispatch<S>, src_id: u64, other: u64)
    requires
        d.wf(),
        d.spec_targets().contains_key(src_id),
        other != src_id,
    ensures
        dispatched(d, src_id) == Route::Existing(d.spec_targets()[src_id]),
        dispatched(d, other) != dispatched(d, src_id),
{
}

/// Workers are numbered in the order in which their sources first appear: a
/// selected source without a worker is routed to the next number, and once
/// that worker is recorded, the source stays with it.
pub proof fn new_worker_numbered_next<S>(d: ThreadDispatch<S>, d2: ThreadDispatch<S>, src_id: u64)
    requires
        d.wf(),
        !d.spec_targets().contains_key(src_id),
        d.spec_src_ids().len() == 0 || d.spec_src_ids().contains(src_id),
        d2.spec_targets() == d.spec_targets().insert(src_id, d.spec_targets().len() as usize),
    ensures
        dispatched(d, src_id) == Route::New(d.spec_targets().len() as usize),
        dispatched(d2, src_id) == Route::Existing(d.spec_targets().len() as usize),
{
}

/// A payload that cannot be converted leaves no route behind: as long as no
/// worker is recorded, the source is routed to a new worker again.
pub proof fn no_route_without_worker<S>(d: ThreadDispatch<S>, src_id: u64)
    requires
        !d.spec_targets().contains_key(src_id),
        d.spec_src_ids().len() == 0 || d.spec_src_ids().contains(src_id),
    ensures
        dispatched(d, src_id) == Route::New(d.spec_targets().len() as usize),
{
}

} // verus!
