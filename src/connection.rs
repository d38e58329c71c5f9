//! Control-line framing and pack-stream decoding.
use crate::codec::{read_variable_length_int, varint_closed, varint_decode, varint_groups, varint_run};
use crate::database::{
    lemma_insert_keeps_store, object_digest, same_digest, store_find, sha1_digest, sha1_of, store_get,
    store_insert, store_wf, Database, ObjectID, Record, RecordView, TreeEntryView,
};
use crate::delta::{apply_delta, delta_result};
use crate::record::{
    encodable_entry, entry_of, lemma_tree_round_trip, parse_blob, parse_commit, parse_ref_delta,
    parse_tree, parsed_record, tree_encoding, utf8_lossy,
};
use crate::util::{array20_at, as_u32_be, ascii_hex_to_bytes, be_value, copy_range, padded_hex};
use vstd::arithmetic::power2::lemma2_to64;
use vstd::prelude::*;
use vstd::slice::slice_subrange;

verus! {

/// Why a packet could not be produced.
#[derive(Debug, PartialEq, Eq, Structural)]
pub enum ConnectionResult {
    /// The input ended before the bytes a packet needs.
    IOError,
    /// The flush line `0000`: negotiation is over.
    EndOfStream,
    /// A line header that is no valid length.
    InvalidLength,
    /// A compressed stream that does not inflate.
    DecompressionError,
    /// A pack record of an unknown type.
    UnknownRecordType(u8),
    /// An offset delta, which this decoder does not resolve.
    UnsupportedFeature,
    /// Tree content cut short.
    MalformedTree,
    /// Delta instructions that are cut short or copy outside the base.
    MalformedDelta,
}

/// What one zlib stream at the start of `s` inflates to, and how many bytes of
/// `s` it takes up.
pub uninterp spec fn zlib_inflate(s: Seq<u8>) -> Option<(Seq<u8>, nat)>;

/// Relies on flate2::bufread::ZlibDecoder (`read_to_end`, then `total_in`): the
/// inflated content of the one zlib stream at the start of `input`, and the
/// number of input bytes that stream spans, which the decoder consumes from the
/// slice and no more.
#[verifier::external_body]
fn inflate_stream(input: &[u8]) -> (r: Option<(Vec<u8>, usize)>)
    ensures
        match r {
            Some((out, n)) => zlib_inflate(input@) == Some((out@, n as nat)) && n <= input@.len(),
            None => zlib_inflate(input@) is None,
        },
{
    let mut decoder = flate2::bufread::ZlibDecoder::new(input);
    let mut out: Vec<u8> = Vec::new();
    match std::io::Read::read_to_end(&mut decoder, &mut out) {
        Ok(_) => Some((out, decoder.total_in() as usize)),
        Err(_) => None,
    }
}

/// The stream inflated from position `q` of `s`.
pub open spec fn inflate_at(s: Seq<u8>, q: int) -> Option<(Seq<u8>, nat)> {
    zlib_inflate(s.subrange(q, s.len() as int))
}

/// The outcome of decoding one pack record.
pub enum RecordStep {
    Done { rec: RecordView, next: int, degraded: bool },
    Failed(ConnectionResult),
}

/// The record of the base's type that rebuilt content `out` makes.
pub open spec fn rebuilt_record(base: RecordView, out: Seq<u8>) -> Option<RecordView> {
    match base {
        RecordView::Commit { .. } => parsed_record(1, out),
        RecordView::Tree { .. } => parsed_record(2, out),
        RecordView::Blob { .. } => parsed_record(3, out),
    }
}

/// The pack type tag in a record's first header byte: bits 4 to 6.
pub open spec fn record_tag(first: u8) -> u8 {
    ((first / 16) % 8) as u8
}

/// The object that delta instructions `d` rebuild, of the base's type, and
/// whether the base was missing; without a base only inserted bytes remain and
/// the object is kept as a blob.
pub open spec fn delta_resolution(base: Option<RecordView>, d: Seq<u8>) -> Result<
    (RecordView, bool),
    ConnectionResult,
> {
    match base {
        Some(b) => match delta_result(Some(b.raw()), d) {
            None => Err(ConnectionResult::MalformedDelta),
            Some(out) => match rebuilt_record(b, out) {
                Some(rec) => Ok((rec, false)),
                None => Err(ConnectionResult::MalformedTree),
            },
        },
        None => match delta_result(None, d) {
            None => Err(ConnectionResult::MalformedDelta),
            Some(out) => Ok((RecordView::Blob { raw: out }, true)),
        },
    }
}

/// Whether an executable outcome carries the given record views.
pub open spec fn outcome_is(
    r: Result<(Record, bool), ConnectionResult>,
    e: Result<(RecordView, bool), ConnectionResult>,
) -> bool {
    match (r, e) {
        (Ok((a, x)), Ok((b, y))) => a@ == b && x == y,
        (Err(x), Err(y)) => x == y,
        _ => false,
    }
}

/// Decoding the ref-delta whose 20-byte base id starts at `q`.
pub open spec fn ref_delta_step(s: Seq<u8>, q: int, store: Seq<(Seq<u8>, RecordView)>) -> RecordStep {
    if q + 20 > s.len() {
        RecordStep::Failed(ConnectionResult::IOError)
    } else {
        match inflate_at(s, q + 20) {
            None => RecordStep::Failed(ConnectionResult::DecompressionError),
            Some((d, n)) => match delta_resolution(store_get(store, s.subrange(q, q + 20)), d) {
                Ok((rec, degraded)) => RecordStep::Done { rec, next: q + 20 + n, degraded },
                Err(e) => RecordStep::Failed(e),
            },
        }
    }
}

/// Decoding the pack record at `p` against the store as it stands: a header
/// integer with a 4-bit first group whose first byte carries the type tag, then
/// a zlib stream (for a ref-delta: a 20-byte base id, then the stream of delta
/// instructions). A missing base is no failure: the record is rebuilt without
/// it as a blob and marked degraded.
pub open spec fn record_step(s: Seq<u8>, p: int, store: Seq<(Seq<u8>, RecordView)>) -> RecordStep {
    match varint_decode(s, p, 4) {
        None => RecordStep::Failed(ConnectionResult::IOError),
        Some((first, _, q)) => {
            let tag = record_tag(first);
            if tag == 1 || tag == 2 || tag == 3 {
                match inflate_at(s, q) {
                    None => RecordStep::Failed(ConnectionResult::DecompressionError),
                    Some((out, n)) => match parsed_record(tag, out) {
                        Some(rec) => RecordStep::Done { rec, next: q + n, degraded: false },
                        None => RecordStep::Failed(ConnectionResult::MalformedTree),
                    },
                }
            } else if tag == 7 {
                ref_delta_step(s, q, store)
            } else if tag == 6 {
                RecordStep::Failed(ConnectionResult::UnsupportedFeature)
            } else {
                RecordStep::Failed(ConnectionResult::UnknownRecordType(tag))
            }
        },
    }
}

/// Views of a vector of records.
pub open spec fn records_view(v: Seq<Record>) -> Seq<RecordView> {
    v.map_values(|r: Record| r@)
}

/// Rebuilds the object of a ref-delta from its instructions and the base
/// record, if the store has it; the flag tells that it did not.
fn resolve_ref_delta(base: Option<&Record>, instructions: &[u8]) -> (r: Result<(Record, bool), ConnectionResult>)
    ensures
        outcome_is(
            r,
            delta_resolution(
                match base {
                    Some(b) => Some(b@),
                    None => None,
                },
                instructions@,
            ),
        ),
{
    match base {
        Some(b) => {
            let out = match apply_delta(Some(b.data().as_slice()), instructions) {
                Some(o) => o,
                None => return Err(ConnectionResult::MalformedDelta),
            };
            match b {
                Record::Commit { .. } => Ok((parse_commit(out), false)),
                Record::Tree { .. } => match parse_tree(out) {
                    Some(t) => Ok((t, false)),
                    None => Err(ConnectionResult::MalformedTree),
                },
                Record::Blob { .. } => Ok((parse_blob(out), false)),
            }
        },
        None => match apply_delta(None, instructions) {
            Some(o) => Ok((parse_ref_delta(o), true)),
            None => Err(ConnectionResult::MalformedDelta),
        },
    }
}


/// Decodes the pack record at `*pos` and moves `*pos` past it; a ref-delta's base
/// is looked up in `database`. The flag tells that the base was missing. On an
/// error the position is left where it was.
pub fn parse_pack_object_record(data: &[u8], pos: &mut usize, database: &Database) -> (r: Result<
    (Record, bool),
    ConnectionResult,
>)
    ensures
        match record_step(data@, *old(pos) as int, database@) {
            RecordStep::Done { rec, next, degraded } => outcome_is(r, Ok((rec, degraded)))
                && *final(pos) == next,
            RecordStep::Failed(e) => outcome_is(r, Err(e)) && *final(pos) == *old(pos),
        },
        r is Ok ==> *old(pos) < *final(pos) <= data@.len(),
{
    let ghost s = data@;
    let mut p: usize = *pos;
    let (first, _size) = match read_variable_length_int(data, &mut p, 4) {
        Some(x) => x,
        None => return Err(ConnectionResult::IOError),
    };
    let tag: u8 = (first / 16) % 8;
    assert(tag == record_tag(first));
    if tag == 1 || tag == 2 || tag == 3 {
        let rest = slice_subrange(data, p, data.len());
        let (out, n) = match inflate_stream(rest) {
            Some(x) => x,
            None => return Err(ConnectionResult::DecompressionError),
        };
        let rec = if tag == 1 {
            parse_commit(out)
        } else if tag == 2 {
            match parse_tree(out) {
                Some(t) => t,
                None => return Err(ConnectionResult::MalformedTree),
            }
        } else {
            parse_blob(out)
        };
        *pos = p + n;
        Ok((rec, false))
    } else if tag == 7 {
        if data.len() - p < 20 {
            return Err(ConnectionResult::IOError);
        }
        let base_id = ObjectID::from_oid_bytes(array20_at(data, p));
        let rest = slice_subrange(data, p + 20, data.len());
        let (instructions, n) = match inflate_stream(rest) {
            Some(x) => x,
            None => return Err(ConnectionResult::DecompressionError),
        };
        let base = database.fetch(&base_id);
        let resolved = resolve_ref_delta(base, instructions.as_slice());
        match resolved {
            Ok(x) => {
                *pos = p + 20 + n;
                Ok(x)
            },
            Err(e) => Err(e),
        }
    } else if tag == 6 {
        Err(ConnectionResult::UnsupportedFeature)
    } else {
        Err(ConnectionResult::UnknownRecordType(tag))
    }
}


/// Where decoding a run of pack records got to: the records and their degraded
/// flags, the store after inserting them, the position reached, and the error
/// that stopped it, if any.
pub struct PackRun {
    pub records: Seq<RecordView>,
    pub degraded: Seq<bool>,
    pub store: Seq<(Seq<u8>, RecordView)>,
    pub next: int,
    pub error: Option<ConnectionResult>,
}

/// `run` with records and flags decoded before it in front.
pub open spec fn after(recs: Seq<RecordView>, flags: Seq<bool>, run: PackRun) -> PackRun {
    PackRun {
        records: recs + run.records,
        degraded: flags + run.degraded,
        store: run.store,
        next: run.next,
        error: run.error,
    }
}

/// Decoding `n` records from `p`, each inserted into the store before the next
/// is decoded; the first failure stops the run with what was inserted kept.
pub open spec fn pack_records(s: Seq<u8>, p: int, n: nat, store: Seq<(Seq<u8>, RecordView)>) -> PackRun
    decreases n,
{
    if n == 0 {
        PackRun { records: Seq::empty(), degraded: Seq::empty(), store, next: p, error: None }
    } else {
        match record_step(s, p, store) {
            RecordStep::Failed(e) => PackRun {
                records: Seq::empty(),
                degraded: Seq::empty(),
                store,
                next: p,
                error: Some(e),
            },
            RecordStep::Done { rec, next, degraded } => after(
                seq![rec],
                seq![degraded],
                pack_records(s, next, (n - 1) as nat, store_insert(store, rec)),
            ),
        }
    }
}

/// Decoding the pack that follows the `PACK` magic at `p`: a 4-byte version,
/// a big-endian 4-byte record count, the records, and a 20-byte trailer.
pub open spec fn pack_decode(s: Seq<u8>, p: int, store: Seq<(Seq<u8>, RecordView)>) -> PackRun {
    if p < 0 || p + 8 > s.len() {
        PackRun {
            records: Seq::empty(),
            degraded: Seq::empty(),
            store,
            next: p,
            error: Some(ConnectionResult::IOError),
        }
    } else {
        let run = pack_records(s, p + 8, be_value(s.subrange(p + 4, p + 8)) as nat, store);
        if run.error is Some {
            run
        } else if run.next + 20 > s.len() {
            PackRun {
                records: run.records,
                degraded: run.degraded,
                store: run.store,
                next: run.next,
                error: Some(ConnectionResult::IOError),
            }
        } else {
            PackRun {
                records: run.records,
                degraded: run.degraded,
                store: run.store,
                next: run.next + 20,
                error: None,
            }
        }
    }
}

/// Decodes the pack that starts at `*pos` (after its magic), inserting each
/// record into `database` as it comes; returns the records and their degraded
/// flags. On an error the records inserted so far stay in the store.
pub fn parse_pack(data: &[u8], pos: &mut usize, database: &mut Database) -> (r: Result<
    (Vec<Record>, Vec<bool>),
    ConnectionResult,
>)
    requires
        old(database).wf(),
    ensures
        final(database).wf(),
        ({
            let run = pack_decode(data@, *old(pos) as int, old(database)@);
            &&& final(database)@ == run.store
            &&& *final(pos) == run.next
            &&& match r {
                Ok((recs, flags)) => run.error is None && records_view(recs@) == run.records
                    && flags@ == run.degraded,
                Err(e) => run.error == Some(e),
            }
        }),
        r is Ok ==> *old(pos) + 28 <= *final(pos) <= data@.len(),
{
    let ghost s = data@;
    let ghost st0 = database@;
    let start: usize = *pos;
    if start > data.len() || data.len() - start < 8 {
        return Err(ConnectionResult::IOError);
    }
    let count_bytes: [u8; 4] = [data[start + 4], data[start + 5], data[start + 6], data[start + 7]];
    assert(count_bytes@ =~= s.subrange(start + 4, start + 8));
    let count: u32 = as_u32_be(&count_bytes);
    let mut p: usize = start + 8;
    let mut recs: Vec<Record> = Vec::new();
    let mut flags: Vec<bool> = Vec::new();
    let mut k: u32 = 0;
    assert(records_view(recs@) =~= Seq::<RecordView>::empty());
    assert(after(Seq::empty(), Seq::empty(), pack_records(s, p as int, count as nat, st0))
        =~= pack_records(s, p as int, count as nat, st0));
    while k < count
        invariant
            s == data@,
            *pos == start,
            *old(pos) == start,
            start + 8 <= data.len(),
            start + 8 <= p <= data.len(),
            st0 == old(database)@,
            count == be_value(s.subrange(start + 4, start + 8)),
            k <= count,
            database.wf(),
            pack_records(s, start + 8, count as nat, st0) == after(
                records_view(recs@),
                flags@,
                pack_records(s, p as int, (count - k) as nat, database@),
            ),
        decreases count - k,
    {
        let ghost p0 = p as int;
        let ghost db0 = database@;
        match parse_pack_object_record(data, &mut p, database) {
            Err(e) => {
                proof {
                    let run = pack_records(s, p0, (count - k) as nat, db0);
                    assert(run.records =~= Seq::<RecordView>::empty());
                    assert(records_view(recs@) + run.records =~= records_view(recs@));
                    assert(flags@ + run.degraded =~= flags@);
                }
                *pos = p;
                return Err(e);
            },
            Ok((rec, flag)) => {
                let ghost rv = rec@;
                let ghost before_recs = records_view(recs@);
                let ghost before_flags = flags@;
                recs.push(rec.duplicate());
                flags.push(flag);
                database.insert(rec);
                proof {
                    let rest = pack_records(s, p as int, (count - k - 1) as nat, database@);
                    assert(records_view(recs@) =~= before_recs + seq![rv]);
                    assert(flags@ =~= before_flags + seq![flag]);
                    assert(before_recs + (seq![rv] + rest.records) =~= (before_recs + seq![rv])
                        + rest.records);
                    assert(before_flags + (seq![flag] + rest.degraded) =~= (before_flags
                        + seq![flag]) + rest.degraded);
                }
                k = k + 1;
            },
        }
    }
    proof {
        let run = pack_records(s, p as int, 0, database@);
        assert(records_view(recs@) + run.records =~= records_view(recs@));
        assert(flags@ + run.degraded =~= flags@);
    }
    if data.len() - p < 20 {
        *pos = p;
        return Err(ConnectionResult::IOError);
    }
    *pos = p + 20;
    Ok((recs, flags))
}


/// What a packet holds, as values.
pub enum PacketView {
    Message { size: nat, data: Seq<u8> },
    Pack { records: Seq<RecordView>, degraded: Seq<bool>, trailer_ok: bool },
}

/// A unit read from the connection: a control line's payload with its declared
/// length, or the records of a pack with, for each, whether its delta base was
/// missing, and whether the pack's trailer matches the digest of its bytes.
#[derive(Debug)]
pub enum Packet {
    Message { size: usize, data: Vec<u8> },
    Pack { records: Vec<Record>, degraded: Vec<bool>, trailer_ok: bool },
}

impl View for Packet {
    type V = PacketView;

    open spec fn view(&self) -> PacketView {
        match self {
            Packet::Message { size, data } => PacketView::Message { size: *size as nat, data: data@ },
            Packet::Pack { records, degraded, trailer_ok } => PacketView::Pack {
                records: records_view(records@),
                degraded: degraded@,
                trailer_ok: *trailer_ok,
            },
        }
    }
}

/// The outcome of reading one packet: the packet or error, the position after
/// it, and the store afterwards.
pub struct PacketStep {
    pub result: Result<PacketView, ConnectionResult>,
    pub next: int,
    pub store: Seq<(Seq<u8>, RecordView)>,
}

/// The ASCII bytes `PACK`.
pub open spec fn pack_magic() -> Seq<u8> {
    seq![0x50u8, 0x41, 0x43, 0x4b]
}

/// The ASCII bytes `0000`.
pub open spec fn flush_line() -> Seq<u8> {
    seq![0x30u8, 0x30, 0x30, 0x30]
}

/// Reading the control line whose 4-byte header `h` ends at `p`: the header is
/// the line's total length in hex digits, header included.
pub open spec fn message_step(s: Seq<u8>, p: int, h: Seq<u8>, store: Seq<(Seq<u8>, RecordView)>) -> PacketStep {
    match padded_hex(h) {
        None => PacketStep { result: Err(ConnectionResult::InvalidLength), next: p, store },
        Some(b) => {
            let l = be_value(b);
            if l < 4 {
                PacketStep { result: Err(ConnectionResult::InvalidLength), next: p, store }
            } else if p + l - 4 > s.len() {
                PacketStep { result: Err(ConnectionResult::IOError), next: p, store }
            } else {
                PacketStep {
                    result: Ok(PacketView::Message { size: l as nat, data: s.subrange(p, p + l - 4) }),
                    next: p + l - 4,
                    store,
                }
            }
        },
    }
}

/// Whether the 20 bytes before `end` are the SHA-1 digest of the pack bytes
/// from `start` up to them.
pub open spec fn trailer_matches(s: Seq<u8>, start: int, end: int) -> bool {
    sha1_of(s.subrange(start, end - 20)) == s.subrange(end - 20, end)
}

/// Reading one packet at `p`: four header bytes, then a pack after `PACK`, the
/// end of the stream at `0000`, else a control line.
pub open spec fn packet_step(s: Seq<u8>, p: int, store: Seq<(Seq<u8>, RecordView)>) -> PacketStep {
    if p < 0 || p + 4 > s.len() {
        PacketStep { result: Err(ConnectionResult::IOError), next: p, store }
    } else {
        let h = s.subrange(p, p + 4);
        if h == pack_magic() {
            let run = pack_decode(s, p + 4, store);
            PacketStep {
                result: match run.error {
                    None => Ok(
                        PacketView::Pack {
                            records: run.records,
                            degraded: run.degraded,
                            trailer_ok: trailer_matches(s, p, run.next),
                        },
                    ),
                    Some(e) => Err(e),
                },
                next: run.next,
                store: run.store,
            }
        } else if h == flush_line() {
            PacketStep { result: Err(ConnectionResult::EndOfStream), next: p + 4, store }
        } else {
            message_step(s, p + 4, h, store)
        }
    }
}

/// Whether an executable packet result carries the given views.
pub open spec fn packet_is(
    r: Result<Packet, ConnectionResult>,
    e: Result<PacketView, ConnectionResult>,
) -> bool {
    match (r, e) {
        (Ok(a), Ok(b)) => a@ == b,
        (Err(x), Err(y)) => x == y,
        _ => false,
    }
}

/// A session over one input stream, with the store that its packs fill.
pub struct Connection {
    stream: Vec<u8>,
    pos: usize,
    database: Database,
}

impl Connection {
    /// The whole input stream.
    pub closed spec fn input(&self) -> Seq<u8> {
        self.stream@
    }

    /// How far the input has been read.
    pub closed spec fn position(&self) -> int {
        self.pos as int
    }

    /// The store's contents.
    pub closed spec fn store(&self) -> Seq<(Seq<u8>, RecordView)> {
        self.database@
    }

    pub closed spec fn wf(&self) -> bool {
        self.database.wf()
    }

    pub fn new(stream: Vec<u8>, database: Database) -> (r: Connection)
        requires
            database.wf(),
        ensures
            r.wf(),
            r.input() == stream@,
            r.position() == 0,
            r.store() == database@,
    {
        Connection { stream, pos: 0, database }
    }

    /// Reads the next packet. `Err(EndOfStream)` reports the flush line.
    pub fn receive_packet(&mut self) -> (r: Result<Packet, ConnectionResult>)
        requires
            old(self).wf(),
        ensures
            final(self).wf(),
            final(self).input() == old(self).input(),
            ({
                let st = packet_step(old(self).input(), old(self).position(), old(self).store());
                &&& packet_is(r, st.result)
                &&& final(self).position() == st.next
                &&& final(self).store() == st.store
            }),
    {
        let ghost s = self.stream@;
        let start: usize = self.pos;
        if start > self.stream.len() || self.stream.len() - start < 4 {
            return Err(ConnectionResult::IOError);
        }
        let header: [u8; 4] = [
            self.stream[start],
            self.stream[start + 1],
            self.stream[start + 2],
            self.stream[start + 3],
        ];
        assert(header@ =~= s.subrange(start as int, start + 4));
        self.pos = start + 4;
        if header[0] == 0x50 && header[1] == 0x41 && header[2] == 0x43 && header[3] == 0x4b {
            assert(header@ =~= pack_magic());
            self.receive_pack(start)
        } else if header[0] == 0x30 && header[1] == 0x30 && header[2] == 0x30 && header[3] == 0x30 {
            assert(header@ =~= flush_line());
            Err(ConnectionResult::EndOfStream)
        } else {
            assert(header@ != pack_magic() && header@ != flush_line()) by {
                if header@ == pack_magic() {
                    assert(header@[0] == 0x50);
                }
                if header@ == flush_line() {
                    assert(header@[0] == 0x30);
                }
            }
            self.receive_message(header)
        }
    }

    /// Whether the whole input has been read.
    pub fn at_end(&self) -> (r: bool)
        ensures
            r == (self.position() >= self.input().len()),
    {
        self.pos >= self.stream.len()
    }

    /// The store that this session fills.
    pub fn get_database(&self) -> (r: &Database)
        requires
            self.wf(),
        ensures
            r.wf(),
            r@ == self.store(),
    {
        &self.database
    }

    fn receive_pack(&mut self, magic_start: usize) -> (r: Result<Packet, ConnectionResult>)
        requires
            old(self).wf(),
            magic_start + 4 == old(self).position(),
        ensures
            final(self).wf(),
            final(self).input() == old(self).input(),
            ({
                let run = pack_decode(old(self).input(), old(self).position(), old(self).store());
                &&& packet_is(
                    r,
                    match run.error {
                        None => Ok(
                            PacketView::Pack {
                                records: run.records,
                                degraded: run.degraded,
                                trailer_ok: trailer_matches(
                                    old(self).input(),
                                    magic_start as int,
                                    run.next,
                                ),
                            },
                        ),
                        Some(e) => Err(e),
                    },
                )
                &&& final(self).position() == run.next
                &&& final(self).store() == run.store
            }),
    {
        let mut p: usize = self.pos;
        let result = parse_pack(self.stream.as_slice(), &mut p, &mut self.database);
        self.pos = p;
        match result {
            Ok((records, degraded)) => {
                let body = slice_subrange(self.stream.as_slice(), magic_start, p - 20);
                let digest = sha1_digest(body);
                let trailer = array20_at(self.stream.as_slice(), p - 20);
                let trailer_ok = same_digest(&digest, &trailer);
                Ok(Packet::Pack { records, degraded, trailer_ok })
            },
            Err(e) => Err(e),
        }
    }

    fn receive_message(&mut self, header: [u8; 4]) -> (r: Result<Packet, ConnectionResult>)
        requires
            old(self).wf(),
            old(self).position() <= old(self).input().len(),
        ensures
            final(self).wf(),
            final(self).input() == old(self).input(),
            ({
                let st = message_step(old(self).input(), old(self).position(), header@, old(self).store());
                &&& packet_is(r, st.result)
                &&& final(self).position() == st.next
                &&& final(self).store() == st.store
            }),
    {
        let mut text: Vec<u8> = Vec::new();
        text.push(header[0]);
        text.push(header[1]);
        text.push(header[2]);
        text.push(header[3]);
        assert(text@ =~= header@);
        let bytes = match ascii_hex_to_bytes(&text) {
            Some(b) => b,
            None => return Err(ConnectionResult::InvalidLength),
        };
        let arr: [u8; 4] = [bytes[0], bytes[1], bytes[2], bytes[3]];
        assert(arr@ =~= bytes@);
        let size: usize = as_u32_be(&arr) as usize;
        if size < 4 {
            return Err(ConnectionResult::InvalidLength);
        }
        let body: usize = size - 4;
        if self.stream.len() - self.pos < body {
            return Err(ConnectionResult::IOError);
        }
        let data = copy_range(self.stream.as_slice(), self.pos, self.pos + body);
        self.pos = self.pos + body;
        Ok(Packet::Message { size, data })
    }
}


/// A ref-delta record whose base is not in the store does not fail when its
/// instructions are well formed: it decodes to a result marked degraded, and
/// inserting that result keeps the store well formed with every earlier entry.
pub proof fn lemma_missing_base_degrades(s: Seq<u8>, p: int, store: Seq<(Seq<u8>, RecordView)>)
    requires
        store_wf(store),
        match varint_decode(s, p, 4) {
            Some((first, _v, q)) => {
                &&& record_tag(first) == 7
                &&& q + 20 <= s.len()
                &&& store_get(store, s.subrange(q, q + 20)) is None
                &&& match inflate_at(s, q + 20) {
                    Some((d, _n)) => delta_result(None, d) is Some,
                    None => false,
                }
            },
            None => false,
        },
    ensures
        match record_step(s, p, store) {
            RecordStep::Done { rec, degraded, .. } => {
                &&& degraded
                &&& store_wf(store_insert(store, rec))
                &&& store_insert(store, rec).subrange(0, store.len() as int) == store
            },
            RecordStep::Failed(_) => false,
        },
{
    if let RecordStep::Done { rec, .. } = record_step(s, p, store) {
        lemma_insert_keeps_store(store, rec);
    }
}

/// A run of pack records keeps the store well formed and every entry that was
/// there before, gives one degraded flag per record, decodes all `n` records
/// unless it stops, and stops only at a record whose own decoding fails. So a
/// ref-delta with a missing base, which decodes degraded without failing, never
/// stops a pack: the records after it are decoded and inserted as usual.
pub proof fn lemma_pack_run_stops_only_on_failure(
    s: Seq<u8>,
    p: int,
    n: nat,
    store: Seq<(Seq<u8>, RecordView)>,
)
    requires
        store_wf(store),
    ensures
        ({
            let run = pack_records(s, p, n, store);
            &&& store_wf(run.store)
            &&& run.store.len() >= store.len()
            &&& run.store.subrange(0, store.len() as int) == store
            &&& run.records.len() == run.degraded.len()
            &&& run.error is None ==> run.records.len() == n
            &&& match run.error {
                Some(e) => run.records.len() < n && record_step(s, run.next, run.store)
                    == RecordStep::Failed(e),
                None => true,
            }
        }),
    decreases n,
{
    if n > 0 {
        if let RecordStep::Done { rec, next, .. } = record_step(s, p, store) {
            let st1 = store_insert(store, rec);
            lemma_insert_keeps_store(store, rec);
            lemma_pack_run_stops_only_on_failure(s, next, (n - 1) as nat, st1);
            let rest = pack_records(s, next, (n - 1) as nat, st1);
            assert(rest.store.subrange(0, store.len() as int) =~= rest.store.subrange(
                0,
                st1.len() as int,
            ).subrange(0, store.len() as int));
        }
    }
}

/// The blob holding the two bytes `hi`.
pub open spec fn hi_blob() -> RecordView {
    RecordView::Blob { raw: seq![0x68u8, 0x69] }
}

/// Tree content with one entry, mode `100644`, name `hi`, naming object `id`.
pub open spec fn hi_tree_content(id: Seq<u8>) -> Seq<u8> {
    seq![0x31u8, 0x30, 0x30, 0x36, 0x34, 0x34, 0x20, 0x68, 0x69, 0u8] + id
}

/// The tree record that `hi_tree_content(id)` parses to.
pub open spec fn hi_tree(id: Seq<u8>) -> RecordView {
    RecordView::Tree {
        raw: hi_tree_content(id),
        entries: seq![
            TreeEntryView {
                mode: seq![0x31u8, 0x30, 0x30, 0x36, 0x34, 0x34, 0x20],
                name: utf8_lossy(seq![0x68u8, 0x69, 0u8]),
                id,
            },
        ],
    }
}

/// A version 2 pack of two records: a blob record (type 3, size 2) with zlib
/// stream `z1`, a tree record (type 2, size 30) with zlib stream `z2`, then the
/// trailer `t`.
pub open spec fn two_record_pack(z1: Seq<u8>, z2: Seq<u8>, t: Seq<u8>) -> Seq<u8> {
    seq![0x50u8, 0x41, 0x43, 0x4b, 0, 0, 0, 2, 0, 0, 0, 2, 0x32] + z1 + seq![0xAEu8, 0x01] + z2 + t
}

/// Whether the two zlib streams of `two_record_pack(z1, z2, t)` inflate to the
/// blob's and the tree's content and span exactly `z1` and `z2`.
pub open spec fn streams_inflate_as_written(z1: Seq<u8>, z2: Seq<u8>, t: Seq<u8>) -> bool {
    let s = two_record_pack(z1, z2, t);
    &&& zlib_inflate(s.subrange(13, s.len() as int)) == Some((seq![0x68u8, 0x69], z1.len()))
    &&& zlib_inflate(s.subrange(15 + z1.len() as int, s.len() as int)) == Some(
        (hi_tree_content(object_digest(hi_blob())), z2.len()),
    )
}

proof fn lemma_hi_tree_parses(id: Seq<u8>)
    requires
        id.len() == 20,
    ensures
        parsed_record(2, hi_tree_content(id)) == Some(hi_tree(id)),
{
    let es = seq![(seq![0x31u8, 0x30, 0x30, 0x36, 0x34, 0x34], seq![0x68u8, 0x69], id)];
    assert(encodable_entry(es[0]));
    lemma_tree_round_trip(es);
    assert(tree_encoding(es.subrange(1, 1)) =~= Seq::<u8>::empty());
    assert(tree_encoding(es) =~= hi_tree_content(id));
    assert(es[0].0 + seq![0x20u8] =~= seq![0x31u8, 0x30, 0x30, 0x36, 0x34, 0x34, 0x20]);
    assert(es[0].1 + seq![0u8] =~= seq![0x68u8, 0x69, 0u8]);
    assert(es.map_values(|e: (Seq<u8>, Seq<u8>, Seq<u8>)| entry_of(e)) =~= seq![
        TreeEntryView {
            mode: seq![0x31u8, 0x30, 0x30, 0x36, 0x34, 0x34, 0x20],
            name: utf8_lossy(seq![0x68u8, 0x69, 0u8]),
            id,
        },
    ]);
}

proof fn lemma_hi_blob_step(z1: Seq<u8>, z2: Seq<u8>, t: Seq<u8>, store: Seq<(Seq<u8>, RecordView)>)
    requires
        streams_inflate_as_written(z1, z2, t),
    ensures
        record_step(two_record_pack(z1, z2, t), 12, store) == (RecordStep::Done {
            rec: hi_blob(),
            next: 13 + z1.len() as int,
            degraded: false,
        }),
{
    let s = two_record_pack(z1, z2, t);
    lemma2_to64();
    assert(s[12] == 0x32);
    assert(varint_run(s, 12) == 1);
    assert(varint_closed(s, 12));
    assert(varint_decode(s, 12, 4) == Some((0x32u8, 2int, 13int)));
    assert(record_tag(0x32) == 3);
}

proof fn lemma_hi_tree_step(z1: Seq<u8>, z2: Seq<u8>, t: Seq<u8>, store: Seq<(Seq<u8>, RecordView)>)
    requires
        object_digest(hi_blob()).len() == 20,
        streams_inflate_as_written(z1, z2, t),
    ensures
        record_step(two_record_pack(z1, z2, t), 13 + z1.len() as int, store) == (RecordStep::Done {
            rec: hi_tree(object_digest(hi_blob())),
            next: 15 + z1.len() as int + z2.len() as int,
            degraded: false,
        }),
{
    let s = two_record_pack(z1, z2, t);
    let q2: int = 13 + z1.len() as int;
    lemma2_to64();
    assert(s[q2] == 0xAE);
    assert(s[q2 + 1] == 0x01);
    assert(varint_closed(s, q2 + 1));
    assert(varint_run(s, q2 + 1) == 1);
    assert(varint_closed(s, q2));
    assert(varint_run(s, q2) == 2);
    assert(varint_groups(s, q2 + 1, 4) == 16);
    assert(varint_decode(s, q2, 4) == Some((0xAEu8, 30int, q2 + 2)));
    assert(record_tag(0xAE) == 2);
    lemma_hi_tree_parses(object_digest(hi_blob()));
}

/// A pack of a blob `hi` and a tree whose one entry names that blob decodes,
/// into an empty store, to exactly two entries: the blob under its identity,
/// then the tree, whose entry's id is the blob's identity. What is assumed is
/// only what the two zlib streams inflate to, and that the two identities
/// differ.
pub proof fn lemma_blob_and_tree_pack(z1: Seq<u8>, z2: Seq<u8>, t: Seq<u8>)
    requires
        object_digest(hi_blob()).len() == 20,
        t.len() == 20,
        streams_inflate_as_written(z1, z2, t),
        object_digest(hi_tree(object_digest(hi_blob()))) != object_digest(hi_blob()),
    ensures
        ({
            let s = two_record_pack(z1, z2, t);
            let id = object_digest(hi_blob());
            let run = pack_decode(s, 4, Seq::empty());
            &&& run.error is None
            &&& run.next == s.len()
            &&& run.records == seq![hi_blob(), hi_tree(id)]
            &&& run.degraded == seq![false, false]
            &&& run.store == seq![(id, hi_blob()), (object_digest(hi_tree(id)), hi_tree(id))]
        }),
{
    let s = two_record_pack(z1, z2, t);
    let id = object_digest(hi_blob());
    let blob = hi_blob();
    let tree = hi_tree(id);
    let td = object_digest(tree);
    let empty = Seq::<(Seq<u8>, RecordView)>::empty();
    let q2: int = 13 + z1.len() as int;
    let end: int = q2 + 2 + z2.len() as int;
    assert(s.len() == end + 20);
    assert(s.subrange(8, 12) =~= seq![0u8, 0, 0, 2]);
    lemma_hi_blob_step(z1, z2, t, empty);
    let st1 = store_insert(empty, blob);
    assert(st1 =~= seq![(id, blob)]);
    lemma_hi_tree_step(z1, z2, t, st1);
    assert(store_find(st1, td, 1) is None);
    assert(store_get(st1, td) is None);
    let st2 = store_insert(st1, tree);
    assert(st2 =~= seq![(id, blob), (td, tree)]);
    let r0 = pack_records(s, end, 0, st2);
    assert(r0.records == Seq::<RecordView>::empty() && r0.error is None && r0.next == end
        && r0.store == st2);
    let r1 = pack_records(s, q2, 1, st1);
    assert(r1 == after(seq![tree], seq![false], r0));
    let r2 = pack_records(s, 12, 2, empty);
    assert(r2 == after(seq![blob], seq![false], r1));
    assert(r1.records =~= seq![tree]);
    assert(r1.degraded =~= seq![false]);
    assert(r2.records =~= seq![blob, tree]);
    assert(r2.degraded =~= seq![false, false]);
}

/// The size in a record header is advisory: two commit, tree or blob records
/// whose headers carry the same type and are followed by the same bytes decode
/// to the same record, ending the same number of bytes after their headers.
pub proof fn lemma_record_size_is_advisory(
    s1: Seq<u8>,
    p1: int,
    s2: Seq<u8>,
    p2: int,
    store: Seq<(Seq<u8>, RecordView)>,
)
    requires
        match (varint_decode(s1, p1, 4), varint_decode(s2, p2, 4)) {
            (Some((b1, _v1, q1)), Some((b2, _v2, q2))) => {
                &&& record_tag(b1) == record_tag(b2)
                &&& 1 <= record_tag(b1) <= 3
                &&& s1.subrange(q1, s1.len() as int) == s2.subrange(q2, s2.len() as int)
            },
            _ => false,
        },
    ensures
        match (varint_decode(s1, p1, 4), varint_decode(s2, p2, 4)) {
            (Some((_b1, _v1, q1)), Some((_b2, _v2, q2))) => match (
                record_step(s1, p1, store),
                record_step(s2, p2, store),
            ) {
                (
                    RecordStep::Done { rec: r1, next: n1, degraded: d1 },
                    RecordStep::Done { rec: r2, next: n2, degraded: d2 },
                ) => r1 == r2 && n1 - q1 == n2 - q2 && d1 == d2,
                (RecordStep::Failed(e1), RecordStep::Failed(e2)) => e1 == e2,
                _ => false,
            },
            _ => true,
        },
{
}

} // verus!
