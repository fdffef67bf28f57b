//! The write-ahead log: how records stand in it and are read back.
//!
//! A log is a sequence of frames. A frame is the checksum of its body, the body's length
//! and the body: the record type and the payload, compressed where that pays.

use crate::common::checksum;
use crate::common::codec;
use crate::common::error::{Error, Fault};
use crate::common::lz4;
use crate::common::text;
use vstd::prelude::*;

verus! {

pub const COMPRESSION_FLAG: u8 = 0x80;

pub const COMPRESSION_THRESHOLD: usize = 64;

const TYPE_MASK: u8 = 0x7f;

#[derive(Debug, Clone, Copy, PartialEq, Eq, Structural)]
pub enum SyncMode {
    NoSync,
    Sync,
    DataSync,
    GroupSync,
}

impl Default for SyncMode {
    fn default() -> (mode: Self)
        ensures
            mode == SyncMode::NoSync,
    {
        SyncMode::NoSync
    }
}

#[derive(Debug, Clone, Copy, PartialEq, Eq, Structural)]
pub enum RecordType {
    Put,
    Delete,
}

impl RecordType {
    pub open spec fn code(self) -> u8 {
        match self {
            RecordType::Put => 1,
            RecordType::Delete => 2,
        }
    }

    /// The type that a record's first byte stands for.
    pub open spec fn of(value: u8) -> Option<RecordType> {
        let code = value & 0x7f;
        if code == 1 {
            Some(RecordType::Put)
        } else if code == 2 {
            Some(RecordType::Delete)
        } else {
            None
        }
    }

    pub fn to_u8(self) -> (code: u8)
        ensures
            code == self.code(),
    {
        match self {
            RecordType::Put => 1,
            RecordType::Delete => 2,
        }
    }

    /// The type behind a record's first byte, whatever its compression flag.
    pub fn try_from(value: u8) -> (result: Result<Self, Error>)
        ensures
            match result {
                Ok(t) => RecordType::of(value) == Some(t),
                Err(e) => RecordType::of(value) is None && e@ == bad_type(value),
            },
    {
        let code: u8 = value & TYPE_MASK;
        if code == 1 {
            Ok(RecordType::Put)
        } else if code == 2 {
            Ok(RecordType::Delete)
        } else {
            Err(
                Error::Corruption(
                    "Invalid record type: ".to_owned().concat(text::decimal(value as u64).as_str()),
                ),
            )
        }
    }
}

pub open spec fn bad_type(value: u8) -> Fault {
    Fault::Corruption("Invalid record type: "@ + text::digit_chars(value as nat))
}

#[derive(Debug, Clone)]
pub struct WalRecord {
    pub record_type: RecordType,
    pub key: Vec<u8>,
    pub value: Option<Vec<u8>>,
    pub timestamp: u64,
}

/// A record as a mathematical value.
#[verifier::ext_equal]
pub struct RecordView {
    pub record_type: RecordType,
    pub key: Seq<u8>,
    pub value: Option<Seq<u8>>,
    pub timestamp: u64,
}

/// The bytes of a value that may be absent.
pub open spec fn value_view(value: Option<Vec<u8>>) -> Option<Seq<u8>> {
    match value {
        Some(v) => Some(v@),
        None => None,
    }
}

impl View for WalRecord {
    type V = RecordView;

    open spec fn view(&self) -> RecordView {
        RecordView {
            record_type: self.record_type,
            key: self.key@,
            value: value_view(self.value),
            timestamp: self.timestamp,
        }
    }
}

pub open spec fn record_views(records: Seq<WalRecord>) -> Seq<RecordView> {
    records.map_values(|r: WalRecord| r@)
}

impl RecordView {
    /// Timestamp, key and value, each behind its length.
    pub open spec fn payload(self) -> Seq<u8> {
        codec::le64(self.timestamp) + codec::sized(self.key) + match self.value {
            Some(v) => codec::sized(v),
            None => Seq::empty(),
        }
    }

    pub open spec fn plain_body(self) -> Seq<u8> {
        seq![self.record_type.code()] + self.payload()
    }

    pub open spec fn packed_body(self, packed: Seq<u8>) -> Seq<u8> {
        seq![self.record_type.code() | 0x80] + packed
    }

    /// The body, given the compressed payload: whichever is shorter.
    pub open spec fn shorter_body(self, packed: Seq<u8>) -> Seq<u8> {
        if packed.len() < self.payload().len() {
            self.packed_body(packed)
        } else {
            self.plain_body()
        }
    }

    /// What the log gives back of the record: a delete carries no value.
    pub open spec fn logged(self) -> RecordView {
        match self.record_type {
            RecordType::Put => self,
            RecordType::Delete => RecordView { value: None, ..self },
        }
    }
}

/// A payload of this length is compressed.
pub open spec fn compresses(enable_compression: bool, len: nat) -> bool {
    enable_compression && COMPRESSION_THRESHOLD <= len && lz4::packable(len)
}

/// `body` is what is written for the record `r`: compression may shorten it, and which
/// bytes it gives is left open, but they decompress to the payload.
pub open spec fn written(enable_compression: bool, r: RecordView, body: Seq<u8>) -> bool {
    if compresses(enable_compression, r.payload().len()) {
        exists|packed: Seq<u8>|
            lz4::unpacks_to(packed, r.payload()) && body == #[trigger] r.shorter_body(packed)
    } else {
        body == r.plain_body()
    }
}

pub open spec fn frame(body: Seq<u8>) -> Seq<u8> {
    codec::le32(checksum::crc32(body)) + codec::le32(body.len() as u32) + body
}

/// The frames of `bodies`, one behind the other.
pub open spec fn log_of(bodies: Seq<Seq<u8>>) -> Seq<u8>
    decreases bodies.len(),
{
    if bodies.len() == 0 {
        Seq::empty()
    } else {
        log_of(bodies.drop_last()) + frame(bodies.last())
    }
}

/// Each body is what is written for the record in its place.
pub open spec fn all_written(
    enable_compression: bool,
    records: Seq<RecordView>,
    bodies: Seq<Seq<u8>>,
) -> bool {
    &&& bodies.len() == records.len()
    &&& forall|i: int|
        0 <= i < records.len() ==> written(enable_compression, #[trigger] records[i], bodies[i])
}

/// The record that stands in a payload.
pub open spec fn fields(t: RecordType, p: Seq<u8>) -> Option<RecordView> {
    if p.len() < 12 {
        None
    } else {
        let timestamp = codec::int64_at(p, 0);
        let key_end = 12 + codec::int32_at(p, 8);
        if key_end > p.len() {
            None
        } else {
            let key = p.subrange(12, key_end);
            match t {
                RecordType::Delete => Some(
                    RecordView { record_type: t, key, value: None, timestamp },
                ),
                RecordType::Put => if key_end + 4 > p.len() {
                    None
                } else {
                    let value_end = key_end + 4 + codec::int32_at(p, key_end);
                    if value_end > p.len() {
                        None
                    } else {
                        Some(
                            RecordView {
                                record_type: t,
                                key,
                                value: Some(p.subrange(key_end + 4, value_end)),
                                timestamp,
                            },
                        )
                    }
                },
            }
        }
    }
}

pub open spec fn truncated() -> Fault {
    Fault::Corruption("Truncated WAL record"@)
}

pub open spec fn unpack_failure(reason: Seq<char>) -> Fault {
    Fault::Corruption("WAL decompression failed: "@ + reason)
}

pub open spec fn flagged(first: u8) -> bool {
    first & 0x80 != 0
}

/// The payload in a body.
pub open spec fn payload_of(body: Seq<u8>, decompress: bool) -> Result<Seq<u8>, Fault> {
    let rest = body.skip(1);
    if flagged(body[0]) && decompress {
        if lz4::overlong(rest) || !lz4::size_allocatable(rest) {
            Err(unpack_failure("length out of range"@))
        } else {
            match lz4::lz4_unpacked(rest) {
                Ok(payload) => Ok(payload),
                Err(reason) => Err(unpack_failure(reason)),
            }
        }
    } else {
        Ok(rest)
    }
}

/// The record in a body.
pub open spec fn record_of(body: Seq<u8>, decompress: bool) -> Result<RecordView, Fault> {
    if body.len() == 0 {
        Err(truncated())
    } else {
        match RecordType::of(body[0]) {
            None => Err(bad_type(body[0])),
            Some(t) => match payload_of(body, decompress) {
                Err(f) => Err(f),
                Ok(payload) => match fields(t, payload) {
                    None => Err(truncated()),
                    Some(r) => Ok(r),
                },
            },
        }
    }
}

/// What stands in a log at some position.
pub enum Frame {
    /// Too few bytes for another frame.
    End,
    Bad(Fault),
    /// A record, and where the next frame begins.
    Good(RecordView, int),
}

pub open spec fn frame_at(data: Seq<u8>, pos: int, decompress: bool) -> Frame {
    if pos + 8 > data.len() {
        Frame::End
    } else {
        let end = pos + 8 + codec::int32_at(data, pos + 4);
        if end > data.len() {
            Frame::Bad(Fault::Io("failed to fill whole buffer"@))
        } else {
            let body = data.subrange(pos + 8, end);
            if checksum::crc32(body) != codec::int32_at(data, pos) {
                Frame::Bad(Fault::Corruption("WAL checksum mismatch"@))
            } else {
                match record_of(body, decompress) {
                    Err(f) => Frame::Bad(f),
                    Ok(r) => Frame::Good(r, end),
                }
            }
        }
    }
}

/// The records in a log from `pos` on, or the first thing that is wrong with it.
pub open spec fn recovered(data: Seq<u8>, pos: int, decompress: bool) -> Result<
    Seq<RecordView>,
    Fault,
>
    decreases data.len() - pos,
{
    match frame_at(data, pos, decompress) {
        Frame::End => Ok(Seq::empty()),
        Frame::Bad(f) => Err(f),
        Frame::Good(r, next) => match recovered(data, next, decompress) {
            Ok(rest) => Ok(seq![r] + rest),
            Err(f) => Err(f),
        },
    }
}

/// The records before a position in front of those behind it.
pub open spec fn preceded(
    records: Seq<RecordView>,
    rest: Result<Seq<RecordView>, Fault>,
) -> Result<Seq<RecordView>, Fault> {
    match rest {
        Ok(more) => Ok(records + more),
        Err(f) => Err(f),
    }
}

#[derive(Debug, Clone)]
pub struct WalOptions {
    pub sync_mode: SyncMode,
    pub enable_compression: bool,
    pub group_commit_interval_ms: u64,
    pub group_commit_size_bytes: usize,
}

impl Default for WalOptions {
    fn default() -> (options: Self)
        ensures
            options == (WalOptions {
                sync_mode: SyncMode::NoSync,
                enable_compression: false,
                group_commit_interval_ms: 0,
                group_commit_size_bytes: 0,
            }),
    {
        WalOptions {
            sync_mode: SyncMode::NoSync,
            enable_compression: false,
            group_commit_interval_ms: 0,
            group_commit_size_bytes: 0,
        }
    }
}

/// What has to be done to the log file after bytes were written to it.
#[derive(Debug, Clone, Copy, PartialEq, Eq, Structural)]
pub enum SyncAction {
    /// The bytes may stay in the buffer.
    Buffer,
    /// Data and metadata have to reach the disk.
    SyncAll,
    /// The data has to reach the disk.
    SyncData,
}

/// How far the bytes that are written have to go, by the sync mode.
pub open spec fn sync_action(options: WalOptions, pending_bytes: usize) -> SyncAction {
    match options.sync_mode {
        SyncMode::NoSync => SyncAction::Buffer,
        SyncMode::Sync => SyncAction::SyncAll,
        SyncMode::DataSync => SyncAction::SyncData,
        SyncMode::GroupSync => if pending_bytes >= options.group_commit_size_bytes {
            SyncAction::SyncAll
        } else {
            SyncAction::Buffer
        },
    }
}

/// How many bytes have yet to reach the disk once an action was taken.
pub open spec fn still_pending(action: SyncAction, pending_bytes: usize) -> usize {
    if action == SyncAction::Buffer {
        pending_bytes
    } else {
        0
    }
}

/// Bytes for the end of the log file, and how far they have to go.
pub struct LogWrite {
    pub bytes: Vec<u8>,
    pub sync: SyncAction,
}

/// The state of a log that is being written.
pub struct Wal {
    options: WalOptions,
    pending_bytes: usize,
}

impl Wal {
    pub closed spec fn spec_options(&self) -> WalOptions {
        self.options
    }

    /// How many bytes were written since the last sync.
    pub closed spec fn pending(&self) -> usize {
        self.pending_bytes
    }

    pub fn create() -> (wal: Self)
        ensures
            wal.spec_options() == (WalOptions {
                sync_mode: SyncMode::NoSync,
                enable_compression: false,
                group_commit_interval_ms: 0,
                group_commit_size_bytes: 0,
            }),
            wal.pending() == 0,
    {
        Wal::create_with_options(WalOptions::default())
    }

    pub fn create_with_options(options: WalOptions) -> (wal: Self)
        ensures
            wal.spec_options() == options,
            wal.pending() == 0,
    {
        Wal { options, pending_bytes: 0 }
    }

    /// The frame of one record, for the end of the log.
    pub fn append(&mut self, record: &WalRecord) -> (write: LogWrite)
        ensures
            final(self).spec_options() == old(self).spec_options(),
            exists|body: Seq<u8>| #[trigger]
                frame(body) == write.bytes@ && written(
                    old(self).spec_options().enable_compression,
                    record@,
                    body,
                ),
            ({
                let pending = usize::wrapping_add(
                    old(self).pending(),
                    write.bytes@.len() as usize,
                );
                &&& write.sync == sync_action(old(self).spec_options(), pending)
                &&& final(self).pending() == still_pending(write.sync, pending)
            }),
    {
        let body = self.encode_record(record);
        let mut bytes: Vec<u8> = Vec::new();
        put_frame(&mut bytes, body.as_slice());
        assert(bytes@ =~= frame(body@));
        let sync = self.maybe_sync(bytes.len());
        LogWrite { bytes, sync }
    }

    /// The frames of several records, for the end of the log.
    pub fn append_batch(&mut self, records: &[WalRecord]) -> (write: LogWrite)
        ensures
            final(self).spec_options() == old(self).spec_options(),
            exists|bodies: Seq<Seq<u8>>| #[trigger]
                log_of(bodies) == write.bytes@ && all_written(
                    old(self).spec_options().enable_compression,
                    record_views(records@),
                    bodies,
                ),
            ({
                let pending = usize::wrapping_add(
                    old(self).pending(),
                    write.bytes@.len() as usize,
                );
                &&& write.sync == sync_action(old(self).spec_options(), pending)
                &&& final(self).pending() == still_pending(write.sync, pending)
            }),
    {
        let mut bytes: Vec<u8> = Vec::new();
        let ghost mut bodies: Seq<Seq<u8>> = Seq::empty();
        let ghost views = record_views(records@);
        assert(log_of(bodies) == bytes@);
        let mut i: usize = 0;
        while i < records.len()
            invariant
                i <= records@.len(),
                views == record_views(records@),
                bodies.len() == i,
                log_of(bodies) == bytes@,
                forall|k: int|
                    0 <= k < i ==> written(
                        self.options.enable_compression,
                        #[trigger] views[k],
                        bodies[k],
                    ),
            decreases records@.len() - i,
        {
            let body = self.encode_record(&records[i]);
            let ghost so_far = bytes@;
            put_frame(&mut bytes, body.as_slice());
            proof {
                assert(views[i as int] == records@[i as int]@);
                assert(bodies.push(body@).drop_last() =~= bodies);
                bodies = bodies.push(body@);
            }
            i += 1;
        }
        let sync = self.maybe_sync(bytes.len());
        assert(all_written(self.options.enable_compression, views, bodies));
        LogWrite { bytes, sync }
    }

    /// Counts bytes that were written, and says how far they have to go.
    fn maybe_sync(&mut self, bytes: usize) -> (action: SyncAction)
        ensures
            final(self).options == old(self).options,
            ({
                let pending = usize::wrapping_add(old(self).pending_bytes, bytes);
                &&& action == sync_action(old(self).options, pending)
                &&& final(self).pending_bytes == still_pending(action, pending)
            }),
    {
        self.pending_bytes = self.pending_bytes.wrapping_add(bytes);
        let action = match self.options.sync_mode {
            SyncMode::NoSync => SyncAction::Buffer,
            SyncMode::Sync => SyncAction::SyncAll,
            SyncMode::DataSync => SyncAction::SyncData,
            SyncMode::GroupSync => if self.pending_bytes >= self.options.group_commit_size_bytes {
                SyncAction::SyncAll
            } else {
                SyncAction::Buffer
            },
        };
        if action != SyncAction::Buffer {
            self.pending_bytes = 0;
        }
        action
    }

    /// The body of a record's frame.
    fn encode_record(&self, record: &WalRecord) -> (body: Vec<u8>)
        ensures
            written(self.options.enable_compression, record@, body@),
    {
        let payload = encode_payload(record);
        if self.options.enable_compression && payload.len() >= COMPRESSION_THRESHOLD
            && payload.len() <= usize::MAX / 220 {
            let packed = lz4::pack_with_size(payload.as_slice());
            let body = choose_body(record, payload.as_slice(), packed.as_slice());
            assert(record@.shorter_body(packed@) == body@);
            body
        } else {
            let mut body: Vec<u8> = Vec::new();
            body.push(record.record_type.to_u8());
            codec::put_slice(&mut body, payload.as_slice());
            assert(body@ =~= record@.plain_body());
            body
        }
    }

    /// The records of a log.
    pub fn recover(data: &[u8]) -> (result: Result<Vec<WalRecord>, Error>)
        ensures
            match result {
                Ok(records) => recovered(data@, 0, true) == Ok::<Seq<RecordView>, Fault>(
                    record_views(records@),
                ),
                Err(e) => recovered(data@, 0, true) == Err::<Seq<RecordView>, Fault>(e@),
            },
    {
        Wal::recover_with_compression(data, true)
    }

    /// The records of a log. Where `decompress` is false, compressed payloads are taken as
    /// they stand.
    pub fn recover_with_compression(data: &[u8], decompress: bool) -> (result: Result<
        Vec<WalRecord>,
        Error,
    >)
        ensures
            match result {
                Ok(records) => recovered(data@, 0, decompress) == Ok::<Seq<RecordView>, Fault>(
                    record_views(records@),
                ),
                Err(e) => recovered(data@, 0, decompress) == Err::<Seq<RecordView>, Fault>(e@),
            },
    {
        let mut records: Vec<WalRecord> = Vec::new();
        let mut pos: usize = 0;
        let len: usize = data.len();
        assert(match recovered(data@, 0, decompress) {
            Ok(rest) => record_views(records@) + rest =~= rest,
            Err(_) => true,
        });
        while len - pos >= 8
            invariant
                pos <= len,
                len == data@.len(),
                recovered(data@, 0, decompress) == preceded(
                    record_views(records@),
                    recovered(data@, pos as int, decompress),
                ),
            decreases len - pos,
        {
            let sum: u32 = codec::get_u32(data, pos);
            let body_len: usize = codec::get_u32(data, pos + 4) as usize;
            if body_len > len - pos - 8 {
                return Err(Error::Io("failed to fill whole buffer".to_owned()));
            }
            let start: usize = pos + 8;
            let end: usize = start + body_len;
            let body = codec::copy_range(data, start, end);
            if checksum::checksum(body.as_slice()) != sum {
                return Err(Error::corruption("WAL checksum mismatch"));
            }
            let record = decode_record(body.as_slice(), decompress)?;
            let ghost before = record_views(records@);
            let ghost rest = recovered(data@, end as int, decompress);
            records.push(record);
            proof {
                assert(record_views(records@) =~= before.push(record@));
                match rest {
                    Ok(more) => {
                        assert(before + (seq![record@] + more) =~= record_views(records@) + more);
                    },
                    Err(_) => {},
                }
            }
            pos = end;
        }
        assert(record_views(records@) + Seq::empty() =~= record_views(records@));
        Ok(records)
    }

    /// Everything that was written has to reach the disk.
    pub fn sync(&mut self) -> (action: SyncAction)
        ensures
            action == SyncAction::SyncAll,
            final(self).spec_options() == old(self).spec_options(),
            final(self).pending() == 0,
    {
        self.pending_bytes = 0;
        SyncAction::SyncAll
    }

    pub fn options(&self) -> (options: &WalOptions)
        ensures
            *options == self.spec_options(),
    {
        &self.options
    }

    pub fn pending_bytes(&self) -> (bytes: usize)
        ensures
            bytes == self.pending(),
    {
        self.pending_bytes
    }
}

/// The record in the body of a frame.
pub fn decode_record(body: &[u8], decompress: bool) -> (result: Result<WalRecord, Error>)
    ensures
        match result {
            Ok(r) => record_of(body@, decompress) == Ok::<RecordView, Fault>(r@),
            Err(e) => record_of(body@, decompress) == Err::<RecordView, Fault>(e@),
        },
{
    if body.len() == 0 {
        return Err(Error::corruption("Truncated WAL record"));
    }
    let first: u8 = body[0];
    let record_type = RecordType::try_from(first)?;
    let rest = codec::copy_range(body, 1, body.len());
    assert(rest@ =~= body@.skip(1));
    let payload = if first & COMPRESSION_FLAG != 0 && decompress {
        if lz4::is_overlong(rest.as_slice()) || !lz4::is_size_allocatable(rest.as_slice()) {
            unpacked_payload(Err("length out of range".to_owned()))?
        } else {
            unpacked_payload(lz4::unpack_with_size(rest.as_slice()))?
        }
    } else {
        rest
    };
    decode_payload(record_type, payload.as_slice())
}

/// The payload, given what became of decompressing it.
pub fn unpacked_payload(unpacked: Result<Vec<u8>, String>) -> (result: Result<Vec<u8>, Error>)
    ensures
        match unpacked {
            Ok(payload) => result == Ok::<Vec<u8>, Error>(payload),
            Err(reason) => result matches Err(e) && e@ == unpack_failure(reason@),
        },
{
    match unpacked {
        Ok(payload) => Ok(payload),
        Err(reason) => Err(
            Error::Corruption("WAL decompression failed: ".to_owned().concat(reason.as_str())),
        ),
    }
}

/// The record in a payload.
pub fn decode_payload(record_type: RecordType, payload: &[u8]) -> (result: Result<
    WalRecord,
    Error,
>)
    ensures
        match result {
            Ok(r) => fields(record_type, payload@) == Some(r@),
            Err(e) => fields(record_type, payload@) is None && e@ == truncated(),
        },
{
    let len: usize = payload.len();
    if len < 12 {
        return Err(Error::corruption("Truncated WAL record"));
    }
    let timestamp: u64 = codec::get_u64(payload, 0);
    let key_len: usize = codec::get_u32(payload, 8) as usize;
    if key_len > len - 12 {
        return Err(Error::corruption("Truncated WAL record"));
    }
    let key_end: usize = 12 + key_len;
    let key = codec::copy_range(payload, 12, key_end);
    let value = match record_type {
        RecordType::Put => {
            if len - key_end < 4 {
                return Err(Error::corruption("Truncated WAL record"));
            }
            let value_len: usize = codec::get_u32(payload, key_end) as usize;
            if value_len > len - key_end - 4 {
                return Err(Error::corruption("Truncated WAL record"));
            }
            Some(codec::copy_range(payload, key_end + 4, key_end + 4 + value_len))
        },
        RecordType::Delete => None,
    };
    Ok(WalRecord { record_type, key, value, timestamp })
}

/// The payload of a record.
pub fn encode_payload(record: &WalRecord) -> (payload: Vec<u8>)
    ensures
        payload@ == record@.payload(),
{
    let mut payload: Vec<u8> = Vec::new();
    codec::put_u64(&mut payload, record.timestamp);
    codec::put_sized(&mut payload, record.key.as_slice());
    if let Some(value) = &record.value {
        codec::put_sized(&mut payload, value.as_slice());
    }
    assert(payload@ =~= record@.payload());
    payload
}

/// The body of a record, given its payload and the payload compressed.
pub fn choose_body(record: &WalRecord, payload: &[u8], packed: &[u8]) -> (body: Vec<u8>)
    requires
        payload@ == record@.payload(),
    ensures
        body@ == record@.shorter_body(packed@),
{
    let code: u8 = record.record_type.to_u8();
    let mut body: Vec<u8> = Vec::new();
    if packed.len() < payload.len() {
        body.push(code | COMPRESSION_FLAG);
        codec::put_slice(&mut body, packed);
        assert(body@ =~= record@.packed_body(packed@));
    } else {
        body.push(code);
        codec::put_slice(&mut body, payload);
        assert(body@ =~= record@.plain_body());
    }
    body
}

fn put_frame(log: &mut Vec<u8>, body: &[u8])
    ensures
        final(log)@ == old(log)@ + frame(body@),
{
    codec::put_u32(log, checksum::checksum(body));
    codec::put_u32(log, #[verifier::truncate] (body.len() as u32));
    codec::put_slice(log, body);
    assert(log@ =~= old(log)@ + frame(body@));
}

/// A record can be written so that it is read back: a put has a value, and the body's
/// length fits in the 32 bits that it has.
pub open spec fn recordable(r: RecordView) -> bool {
    &&& r.record_type == RecordType::Put ==> r.value is Some
    &&& r.payload().len() < u32::MAX
}

/// Such a record that compression cannot make too long for the decompressor.
pub open spec fn restorable(enable_compression: bool, r: RecordView) -> bool {
    &&& recordable(r)
    &&& enable_compression ==> r.payload().len() <= lz4::RESTORABLE
}

proof fn lemma_fields(r: RecordView)
    requires
        recordable(r),
    ensures
        fields(r.record_type, r.payload()) == Some(r.logged()),
{
    codec::lemma_le_round_trip();
    let p = r.payload();
    let none = Seq::<u8>::empty();
    let tail = match r.value {
        Some(v) => codec::sized(v),
        None => none,
    };
    let ts = codec::le64(r.timestamp);
    let key_len = codec::le32(r.key.len() as u32);
    assert(p.len() == 12 + r.key.len() + tail.len());
    assert(p =~= none + ts + (codec::sized(r.key) + tail));
    codec::lemma_int64_at(none, r.timestamp, codec::sized(r.key) + tail);
    assert(p =~= ts + key_len + (r.key + tail));
    codec::lemma_int32_at(ts, r.key.len() as u32, r.key + tail);
    let key_end: int = 12 + r.key.len() as int;
    assert(p.subrange(12, key_end) =~= r.key);
    if let Some(v) = r.value {
        let head = ts + key_len + r.key;
        assert(p =~= head + codec::le32(v.len() as u32) + v);
        codec::lemma_int32_at(head, v.len() as u32, v);
        assert(p.subrange(key_end + 4, key_end + 4 + v.len()) =~= v);
    }
}

/// A record is read back from its body.
proof fn lemma_record_of(enable_compression: bool, r: RecordView, body: Seq<u8>)
    requires
        restorable(enable_compression, r),
        written(enable_compression, r, body),
    ensures
        record_of(body, true) == Ok::<RecordView, Fault>(r.logged()),
        body.len() <= u32::MAX,
{
    lemma_fields(r);
    let code = r.record_type.code();
    assert((code == 1 || code == 2) ==> (code | 0x80u8) & 0x7f == code && code & 0x7f == code && (
    code | 0x80u8) & 0x80 != 0 && code & 0x80 == 0) by (bit_vector);
    if body == r.plain_body() {
        assert(body.skip(1) =~= r.payload());
    } else {
        let packed = choose|packed: Seq<u8>|
            lz4::unpacks_to(packed, r.payload()) && body == #[trigger] r.shorter_body(packed);
        assert(body.skip(1) =~= packed);
        lz4::lemma_unpacked_again(packed, r.payload());
    }
}

proof fn lemma_frame_at(before: Seq<u8>, body: Seq<u8>, after: Seq<u8>, decompress: bool)
    requires
        body.len() <= u32::MAX,
    ensures
        frame_at(before + frame(body) + after, before.len() as int, decompress) == (
        match record_of(body, decompress) {
            Ok(r) => Frame::Good(r, (before.len() + frame(body).len()) as int),
            Err(f) => Frame::Bad(f),
        }),
        frame(body).len() == 8 + body.len(),
{
    codec::lemma_le_round_trip();
    let data = before + frame(body) + after;
    let sum = codec::le32(checksum::crc32(body));
    let len = codec::le32(body.len() as u32);
    let pos = before.len() as int;
    assert(data =~= before + sum + (len + body + after));
    codec::lemma_int32_at(before, checksum::crc32(body), len + body + after);
    assert(data =~= (before + sum) + len + (body + after));
    codec::lemma_int32_at(before + sum, body.len() as u32, body + after);
    assert(data.subrange(pos + 8, pos + 8 + body.len()) =~= body);
}

/// What a log gives back of what was written to it: every record, in order. Fewer bytes
/// than a frame's header at the end are passed over.
pub proof fn lemma_recovers_what_was_written(
    enable_compression: bool,
    records: Seq<RecordView>,
    bodies: Seq<Seq<u8>>,
    tail: Seq<u8>,
)
    requires
        all_written(enable_compression, records, bodies),
        forall|i: int|
            0 <= i < records.len() ==> restorable(enable_compression, #[trigger] records[i]),
        tail.len() < 8,
    ensures
        recovered(log_of(bodies) + tail, 0, true) == Ok::<Seq<RecordView>, Fault>(
            records.map_values(|r: RecordView| r.logged()),
        ),
{
    lemma_recovers_from(enable_compression, records, bodies, tail, 0);
    assert(bodies.take(0) =~= Seq::empty());
    assert(records.skip(0) =~= records);
    let all = records.map_values(|r: RecordView| r.logged());
    assert(all + Seq::<RecordView>::empty() =~= all);
}

/// The records that were written stand in front of whatever follows them in the log.
proof fn lemma_recovers_from(
    enable_compression: bool,
    records: Seq<RecordView>,
    bodies: Seq<Seq<u8>>,
    tail: Seq<u8>,
    k: int,
)
    requires
        all_written(enable_compression, records, bodies),
        forall|i: int|
            0 <= i < records.len() ==> restorable(enable_compression, #[trigger] records[i]),
        0 <= k <= bodies.len(),
    ensures
        recovered(log_of(bodies) + tail, log_of(bodies.take(k)).len() as int, true) == preceded(
            records.skip(k).map_values(|r: RecordView| r.logged()),
            recovered(log_of(bodies) + tail, log_of(bodies).len() as int, true),
        ),
    decreases bodies.len() - k,
{
    let data = log_of(bodies) + tail;
    let before = log_of(bodies.take(k));
    let logged = |r: RecordView| r.logged();
    if k == bodies.len() {
        assert(bodies.take(k) =~= bodies);
        assert(records.skip(k).map_values(logged) =~= Seq::empty());
        if let Ok(more) = recovered(data, before.len() as int, true) {
            assert(Seq::<RecordView>::empty() + more =~= more);
        }
    } else {
        lemma_recovers_from(enable_compression, records, bodies, tail, k + 1);
        let body = bodies[k];
        let head = log_of(bodies.take(k + 1));
        assert(bodies.take(k + 1).drop_last() =~= bodies.take(k));
        assert(head == before + frame(body));
        let after = lemma_log_prefix(bodies, k + 1);
        assert(data =~= before + frame(body) + (after + tail));
        assert(written(enable_compression, records[k], bodies[k]));
        lemma_record_of(enable_compression, records[k], body);
        lemma_frame_at(before, body, after + tail, true);
        let later = records.skip(k + 1).map_values(logged);
        let first = seq![records[k].logged()];
        assert(records.skip(k).map_values(logged) =~= first + later);
        if let Ok(more) = recovered(data, log_of(bodies).len() as int, true) {
            assert(first + (later + more) =~= (first + later) + more);
        }
    }
}

/// The frames of the first bodies stand at the front of the log.
proof fn lemma_log_prefix(bodies: Seq<Seq<u8>>, k: int) -> (after: Seq<u8>)
    requires
        0 <= k <= bodies.len(),
    ensures
        log_of(bodies) == log_of(bodies.take(k)) + after,
    decreases bodies.len() - k,
{
    if k == bodies.len() {
        assert(bodies.take(k) =~= bodies);
        assert(log_of(bodies) =~= log_of(bodies) + Seq::<u8>::empty());
        Seq::empty()
    } else {
        let after = lemma_log_prefix(bodies, k + 1);
        assert(bodies.take(k + 1).drop_last() =~= bodies.take(k));
        let longer = frame(bodies[k]) + after;
        assert(log_of(bodies) =~= log_of(bodies.take(k)) + longer);
        longer
    }
}

/// A damaged frame is not taken for a record, nor for the end of the log: wherever among
/// what was written a checksum is not that of the body, recovery of the whole log fails with
/// a corruption error.
pub proof fn lemma_damage_is_found(
    enable_compression: bool,
    records: Seq<RecordView>,
    bodies: Seq<Seq<u8>>,
    sum: u32,
    body: Seq<u8>,
    after: Seq<u8>,
)
    requires
        all_written(enable_compression, records, bodies),
        forall|i: int|
            0 <= i < records.len() ==> restorable(enable_compression, #[trigger] records[i]),
        body.len() <= u32::MAX,
        sum != checksum::crc32(body),
    ensures
        recovered(
            log_of(bodies) + (codec::le32(sum) + codec::le32(body.len() as u32) + body + after),
            0,
            true,
        ) == Err::<Seq<RecordView>, Fault>(Fault::Corruption("WAL checksum mismatch"@)),
{
    codec::lemma_le_round_trip();
    let before = log_of(bodies);
    let first = codec::le32(sum);
    let len = codec::le32(body.len() as u32);
    let tail = first + len + body + after;
    let data = before + tail;
    let pos = before.len() as int;
    assert(data =~= before + first + (len + body + after));
    codec::lemma_int32_at(before, sum, len + body + after);
    assert(data =~= (before + first) + len + (body + after));
    codec::lemma_int32_at(before + first, body.len() as u32, body + after);
    assert(data.subrange(pos + 8, pos + 8 + body.len()) =~= body);
    lemma_recovers_from(enable_compression, records, bodies, tail, 0);
    assert(bodies.take(0) =~= Seq::empty());
}

/// How far bytes go by the sync mode. Each write reaches the disk where every write is to be
/// synced, and none where none is. Where groups are synced, a write does once the bytes that
/// wait make up a group, so that less than a group ever waits.
pub proof fn lemma_sync_modes(options: WalOptions, pending_bytes: usize)
    ensures
        ({
            let action = sync_action(options, pending_bytes);
            let left = still_pending(action, pending_bytes);
            &&& options.sync_mode == SyncMode::Sync ==> action == SyncAction::SyncAll && left == 0
            &&& options.sync_mode == SyncMode::DataSync ==> action == SyncAction::SyncData && left
                == 0
            &&& options.sync_mode == SyncMode::NoSync ==> action == SyncAction::Buffer && left
                == pending_bytes
            &&& options.sync_mode == SyncMode::GroupSync && pending_bytes
                >= options.group_commit_size_bytes ==> action == SyncAction::SyncAll && left == 0
            &&& options.sync_mode == SyncMode::GroupSync && pending_bytes
                < options.group_commit_size_bytes ==> action == SyncAction::Buffer && left
                == pending_bytes
        }),
{
}

/// Compression only ever makes a record shorter. A record is written as it is where nothing
/// is to be compressed, and else in the shorter of its two forms, which the first bit tells
/// apart.
pub proof fn lemma_bodies_are_short(enable_compression: bool, r: RecordView, body: Seq<u8>)
    requires
        written(enable_compression, r, body),
    ensures
        body.len() <= 1 + r.payload().len(),
        !enable_compression ==> body == r.plain_body(),
        body[0] & 0x7f == (match r.record_type {
            RecordType::Put => 1u8,
            RecordType::Delete => 2u8,
        }),
        body[0] & 0x80 == 0 ==> body.skip(1) == r.payload(),
        body[0] & 0x80 != 0 ==> body.len() < 1 + r.payload().len() && lz4::unpacks_to(
            body.skip(1),
            r.payload(),
        ),
{
    let code = r.record_type.code();
    assert((code == 1 || code == 2) ==> (code | 0x80u8) & 0x7f == code && code & 0x7f == code && (
    code | 0x80u8) & 0x80 != 0 && code & 0x80 == 0) by (bit_vector);
    if body == r.plain_body() {
        assert(body.skip(1) =~= r.payload());
    } else {
        let packed = choose|packed: Seq<u8>|
            lz4::unpacks_to(packed, r.payload()) && body == #[trigger] r.shorter_body(packed);
        assert(body.skip(1) =~= packed);
    }
}

/// A frame that was cut off is not passed over: where at least its header stands behind what
/// was written and the rest is missing, recovery of the whole log fails.
pub proof fn lemma_torn_frame_is_found(
    enable_compression: bool,
    records: Seq<RecordView>,
    bodies: Seq<Seq<u8>>,
    body: Seq<u8>,
    cut: int,
)
    requires
        all_written(enable_compression, records, bodies),
        forall|i: int|
            0 <= i < records.len() ==> restorable(enable_compression, #[trigger] records[i]),
        body.len() <= u32::MAX,
        8 <= cut < frame(body).len(),
    ensures
        recovered(log_of(bodies) + frame(body).take(cut), 0, true) == Err::<
            Seq<RecordView>,
            Fault,
        >(Fault::Io("failed to fill whole buffer"@)),
{
    codec::lemma_le_round_trip();
    let before = log_of(bodies);
    let sum = codec::le32(checksum::crc32(body));
    let len = codec::le32(body.len() as u32);
    let tail = frame(body).take(cut);
    let rest = body.take(cut - 8);
    assert(tail =~= sum + len + rest);
    let data = before + tail;
    let pos = before.len() as int;
    assert(data =~= (before + sum) + len + rest);
    codec::lemma_int32_at(before + sum, body.len() as u32, rest);
    lemma_recovers_from(enable_compression, records, bodies, tail, 0);
    assert(bodies.take(0) =~= Seq::empty());
}

} // verus!
