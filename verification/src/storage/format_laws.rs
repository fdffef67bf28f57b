//! Where things stand in the files.

use crate::common::checksum;
use crate::common::codec;
use crate::common::error::Fault;
use crate::common::text;
use crate::storage::block;
use crate::storage::block::EntryView;
use crate::storage::lsm;
use crate::storage::manifest;
use crate::storage::manifest::{ManifestEdit, ManifestView};
use crate::storage::sstable;
use crate::storage::sstable::{BlockMetaView, CompressionType, TableView};
use crate::storage::table_builder;
use crate::storage::table_builder::BuiltBlock;
use crate::storage::wal;
use crate::storage::wal::{RecordType, RecordView};
use vstd::prelude::*;

verus! {

/// A frame of the log: four bytes of checksum, four bytes of length, and the body.
pub proof fn lemma_frame_layout(body: Seq<u8>)
    requires
        body.len() <= u32::MAX,
    ensures
        wal::frame(body).len() == 8 + body.len(),
        codec::int32_at(wal::frame(body), 0) == checksum::crc32(body),
        codec::int32_at(wal::frame(body), 4) == body.len(),
        wal::frame(body).skip(8) == body,
{
    let sum = codec::le32(checksum::crc32(body));
    let len = codec::le32(body.len() as u32);
    codec::lemma_int32_at(Seq::empty(), checksum::crc32(body), len + body);
    codec::lemma_int32_at(sum, body.len() as u32, body);
    assert(Seq::<u8>::empty() + sum + (len + body) =~= wal::frame(body));
    assert(wal::frame(body).skip(8) =~= body);
}

/// The body of a record that is not compressed: one byte for its type, eight for the time,
/// four for the length of the key, the key, and where there is a value the same for that.
pub proof fn lemma_record_layout(r: RecordView)
    requires
        r.key.len() <= u32::MAX,
        r.value matches Some(v) ==> v.len() <= u32::MAX,
    ensures
        ({
            let body = r.plain_body();
            let n = r.key.len() as int;
            &&& body[0] == (match r.record_type {
                RecordType::Put => 1u8,
                RecordType::Delete => 2u8,
            })
            &&& codec::int64_at(body, 1) == r.timestamp
            &&& codec::int32_at(body, 9) == n
            &&& body.subrange(13, 13 + n) == r.key
            &&& match r.value {
                Some(v) => {
                    &&& body.len() == 17 + n + v.len()
                    &&& codec::int32_at(body, 13 + n) == v.len()
                    &&& body.skip(17 + n) == v
                },
                None => body.len() == 13 + n,
            }
        }),
{
    codec::lemma_le_round_trip();
    let code = seq![r.record_type.code()];
    let time = codec::le64(r.timestamp);
    let len = codec::le32(r.key.len() as u32);
    let rest = match r.value {
        Some(v) => codec::sized(v),
        None => Seq::<u8>::empty(),
    };
    let body = r.plain_body();
    let n = r.key.len() as int;
    codec::lemma_int64_at(code, r.timestamp, len + r.key + rest);
    assert(code + time + (len + r.key + rest) =~= body);
    codec::lemma_int32_at(code + time, r.key.len() as u32, r.key + rest);
    assert(code + time + len + (r.key + rest) =~= body);
    assert(body.subrange(13, 13 + n) =~= r.key);
    if let Some(v) = r.value {
        let front = code + time + len + r.key;
        codec::lemma_int32_at(front, v.len() as u32, v);
        assert(front + codec::le32(v.len() as u32) + v =~= body);
        assert(body.skip(17 + n) =~= v);
    }
}

/// An entry of a block: four bytes for the length of the key, the key, eight for the time,
/// and four for the length of the value before the value. A deleted key has the greatest
/// length there is and no value.
pub proof fn lemma_entry_layout(e: EntryView)
    requires
        e.storable(),
    ensures
        ({
            let bytes = e.encoded();
            let n = e.key.len() as int;
            &&& codec::int32_at(bytes, 0) == n
            &&& bytes.subrange(4, 4 + n) == e.key
            &&& codec::int64_at(bytes, 4 + n) == e.timestamp
            &&& match e.value {
                Some(v) => {
                    &&& bytes.len() == 16 + n + v.len()
                    &&& codec::int32_at(bytes, 12 + n) == v.len()
                    &&& bytes.skip(16 + n) == v
                },
                None => bytes.len() == 16 + n && codec::int32_at(bytes, 12 + n) == u32::MAX,
            }
        }),
{
    codec::lemma_le_round_trip();
    let len = codec::le32(e.key.len() as u32);
    let time = codec::le64(e.timestamp);
    let bytes = e.encoded();
    let n = e.key.len() as int;
    let (mark, value) = match e.value {
        Some(v) => (v.len() as u32, v),
        None => (u32::MAX, Seq::<u8>::empty()),
    };
    let size = codec::le32(mark);
    codec::lemma_int32_at(Seq::empty(), e.key.len() as u32, e.key + time + size + value);
    assert(Seq::<u8>::empty() + len + (e.key + time + size + value) =~= bytes);
    codec::lemma_int64_at(len + e.key, e.timestamp, size + value);
    assert(len + e.key + time + (size + value) =~= bytes);
    codec::lemma_int32_at(len + e.key + time, mark, value);
    assert(len + e.key + time + size + value =~= bytes);
    assert(bytes.subrange(4, 4 + n) =~= e.key);
    if let Some(v) = e.value {
        assert(bytes.skip(16 + n) =~= v);
    }
}

/// The end of the file of a table: eight bytes for the newest time in it, eight for where the
/// index begins, and the four that mark the file.
pub proof fn lemma_footer_layout(
    blocks: Seq<BuiltBlock>,
    compression: CompressionType,
    bloom: crate::storage::bloom::FilterView,
)
    ensures
        ({
            let image = table_builder::image_of(blocks, compression, bloom);
            let n = image.len() as int;
            &&& n >= 20
            &&& codec::int64_at(image, n - 20) == table_builder::newest_of(
                table_builder::entries_of(blocks),
            )
            &&& codec::int64_at(image, n - 12) == table_builder::next_offset(blocks)
            &&& codec::int32_at(image, n - 4) == 0x53535456
            &&& image.take(table_builder::file_blocks(blocks).len() as int)
                == table_builder::file_blocks(blocks)
        }),
{
    codec::lemma_le_round_trip();
    let front = table_builder::file_blocks(blocks) + table_builder::encoded_metadata(
        compression,
        table_builder::index_of(blocks),
        bloom,
    );
    let newest = table_builder::newest_of(table_builder::entries_of(blocks));
    let offset = table_builder::next_offset(blocks);
    let a = codec::le64(newest);
    let b = codec::le64(offset);
    let c = codec::le32(0x53535456);
    let image = table_builder::image_of(blocks, compression, bloom);
    assert(image =~= front + a + b + c);
    codec::lemma_int64_at(front, newest, b + c);
    assert(front + a + (b + c) =~= image);
    codec::lemma_int64_at(front + a, offset, c);
    codec::lemma_int32_at(front + a + b, 0x53535456, Seq::empty());
    assert(front + a + b + c + Seq::<u8>::empty() =~= image);
    assert(image.take(table_builder::file_blocks(blocks).len() as int)
        =~= table_builder::file_blocks(blocks));
}

/// What is logged of a write: its key, its value or that the key is deleted, and its time.
pub proof fn lemma_logged_write(op: crate::storage::batch::OperationView, ts: u64)
    ensures
        lsm::record_for(op, ts).key == op.key,
        lsm::record_for(op, ts).value == op.value,
        lsm::record_for(op, ts).timestamp == ts,
        lsm::record_for(op, ts).record_type == RecordType::Put <==> op.value is Some,
{
}

/// Integers stand for the bytes that they are read from.
proof fn lemma_bytes_again(data: Seq<u8>, pos: int)
    ensures
        0 <= pos && pos + 4 <= data.len() ==> codec::le32(codec::int32_at(data, pos))
            == data.subrange(pos, pos + 4),
        0 <= pos && pos + 8 <= data.len() ==> codec::le64(codec::int64_at(data, pos))
            == data.subrange(pos, pos + 8),
{
    vstd::bytes::lemma_auto_spec_u32_to_from_le_bytes();
    vstd::bytes::lemma_auto_spec_u64_to_from_le_bytes();
    if 0 <= pos && pos + 4 <= data.len() {
        assert(data.subrange(pos, pos + 4).len() == 4);
    }
    if 0 <= pos && pos + 8 <= data.len() {
        assert(data.subrange(pos, pos + 8).len() == 8);
    }
}

/// An entry that is read from a block is the one that is written there, and no more of the
/// block is taken for it. Where no whole entry is left, none is read, and a search or a walk
/// that comes there fails.
pub proof fn lemma_read_entry_is_written(data: Seq<u8>, pos: int, key: Seq<u8>, ts: u64)
    requires
        0 <= pos,
    ensures
        block::entry_at(data, pos) matches Some((e, next)) ==> {
            &&& pos < next <= data.len()
            &&& data.subrange(pos, next) == e.encoded()
            &&& block::searched(data, pos, key, ts) == if e.key == key && e.timestamp <= ts {
                Ok::<Option<Option<Seq<u8>>>, Fault>(Some(e.value))
            } else {
                block::searched(data, next, key, ts)
            }
        },
        pos < data.len() && block::entry_at(data, pos) is None ==> block::searched(
            data,
            pos,
            key,
            ts,
        ) is Err,
        pos >= data.len() ==> block::searched(data, pos, key, ts) == Ok::<
            Option<Option<Seq<u8>>>,
            Fault,
        >(None),
{
    if let Some((e, next)) = block::entry_at(data, pos) {
        let key_end = pos + 4 + codec::int32_at(data, pos);
        lemma_bytes_again(data, pos);
        lemma_bytes_again(data, key_end);
        lemma_bytes_again(data, key_end + 8);
        codec::lemma_le_round_trip();
        assert(data.subrange(pos, next) =~= e.encoded());
    }
}

/// What the index of a table says of a block that is read from it is what is written there.
proof fn lemma_read_meta_is_written(data: Seq<u8>, pos: int)
    requires
        0 <= pos,
    ensures
        sstable::meta_at(data, pos) matches Some((m, next)) ==> pos < next <= data.len()
            && data.subrange(pos, next) == table_builder::encoded_meta(m),
{
    if let Some((m, next)) = sstable::meta_at(data, pos) {
        let first_end = pos + 20 + codec::int32_at(data, pos + 16);
        lemma_bytes_again(data, pos);
        lemma_bytes_again(data, pos + 8);
        lemma_bytes_again(data, pos + 12);
        lemma_bytes_again(data, pos + 16);
        lemma_bytes_again(data, first_end);
        codec::lemma_le_round_trip();
        assert(data.subrange(pos, next) =~= table_builder::encoded_meta(m));
    }
}

proof fn lemma_read_metas_are_written(data: Seq<u8>, pos: int, n: nat)
    requires
        0 <= pos <= data.len(),
    ensures
        sstable::metas_at(data, pos, n) matches Some((metas, end)) ==> {
            &&& metas.len() == n
            &&& pos <= end <= data.len()
            &&& data.subrange(pos, end) == table_builder::encoded_metas(metas)
        },
    decreases n,
{
    if n == 0 {
        assert(data.subrange(pos, pos) =~= Seq::empty());
    } else if let Some((m, next)) = sstable::meta_at(data, pos) {
        lemma_read_meta_is_written(data, pos);
        lemma_read_metas_are_written(data, next, (n - 1) as nat);
        if let Some((rest, end)) = sstable::metas_at(data, next, (n - 1) as nat) {
            lemma_metas_in_front(m, rest);
            assert(data.subrange(pos, end) =~= data.subrange(pos, next) + data.subrange(next, end));
        }
    }
}

proof fn lemma_metas_in_front(m: BlockMetaView, rest: Seq<BlockMetaView>)
    ensures
        table_builder::encoded_metas(seq![m] + rest) == table_builder::encoded_meta(m)
            + table_builder::encoded_metas(rest),
    decreases rest.len(),
{
    let all = seq![m] + rest;
    if rest.len() == 0 {
        assert(all.drop_last() =~= Seq::empty());
        assert(all.last() == m);
        assert(table_builder::encoded_metas(Seq::empty()) =~= Seq::empty());
        assert(table_builder::encoded_metas(all) =~= table_builder::encoded_meta(m));
        assert(table_builder::encoded_meta(m) + table_builder::encoded_metas(rest)
            =~= table_builder::encoded_meta(m));
    } else {
        lemma_metas_in_front(m, rest.drop_last());
        assert(all.drop_last() =~= seq![m] + rest.drop_last());
        assert(table_builder::encoded_metas(all) =~= table_builder::encoded_meta(m)
            + table_builder::encoded_metas(rest));
    }
}

/// A file that is opened as a table holds what the table says of itself: where the end of the
/// file says that the index begins, there stand the compression, the number of blocks, what
/// is known of each, and the filter. A file where that does not fit is refused.
pub proof fn lemma_opened_is_written(id: u64, image: Seq<u8>, t: TableView)
    requires
        sstable::opened(id, image) == Ok::<TableView, Fault>(t),
    ensures
        ({
            let n = image.len() as int;
            let index = codec::int64_at(image, n - 12) as int;
            let said = codec::le32(t.metas.len() as u32) + table_builder::encoded_metas(t.metas)
                + codec::le32(t.bloom.num_hashes) + codec::sized(t.bloom.bits);
            &&& n >= 20
            &&& index + 1 + said.len() <= n - 20
            &&& image.subrange(index + 1, index + 1 + said.len()) == said
            &&& t.compression == CompressionType::Lz4 <==> image[index] == 1
            &&& t.newest == codec::int64_at(image, n - 20)
            &&& t.image == image
            &&& t.id == id
        }),
{
    codec::lemma_le_round_trip();
    let n = image.len() as int;
    let index = codec::int64_at(image, n - 12) as int;
    let data = image.subrange(index, n - 20);
    let count = codec::int32_at(data, 1);
    lemma_bytes_again(data, 1);
    lemma_read_metas_are_written(data, 5, count as nat);
    let (metas, pos) = sstable::metas_at(data, 5, count as nat)->Some_0;
    lemma_bytes_again(data, pos);
    lemma_bytes_again(data, pos + 4);
    let end = pos + 8 + codec::int32_at(data, pos + 4);
    let said = codec::le32(t.metas.len() as u32) + table_builder::encoded_metas(t.metas)
        + codec::le32(t.bloom.num_hashes) + codec::sized(t.bloom.bits);
    assert(said =~= data.subrange(1, 5) + data.subrange(5, pos) + data.subrange(pos, pos + 4)
        + data.subrange(pos + 4, pos + 8) + data.subrange(pos + 8, end));
    assert(said =~= data.subrange(1, end));
    assert(image.subrange(index + 1, index + end) =~= data.subrange(1, end));
}

/// A record that is read from a payload is the one that is written at its front.
pub proof fn lemma_read_record_is_written(t: RecordType, p: Seq<u8>)
    ensures
        wal::fields(t, p) matches Some(r) ==> {
            &&& r.record_type == t
            &&& r.value is Some <==> t == RecordType::Put
            &&& r.payload().len() <= p.len()
            &&& p.take(r.payload().len() as int) == r.payload()
        },
        wal::fields(t, p) is None ==> forall|r: RecordView|
            #![trigger r.payload()]
            r.key.len() <= u32::MAX && (r.value matches Some(v) ==> v.len() <= u32::MAX) && (
            r.value is Some <==> t == RecordType::Put) ==> p != r.payload(),
{
    codec::lemma_le_round_trip();
    let key_end = 12 + codec::int32_at(p, 8);
    lemma_bytes_again(p, 0);
    lemma_bytes_again(p, 8);
    lemma_bytes_again(p, key_end);
    if let Some(r) = wal::fields(t, p) {
        assert(p.take(r.payload().len() as int) =~= r.payload());
    } else {
        assert forall|r: RecordView|
            #![trigger r.payload()]
            r.key.len() <= u32::MAX && (r.value matches Some(v) ==> v.len() <= u32::MAX) && (
            r.value is Some <==> t == RecordType::Put) implies p != r.payload() by {
            if p == r.payload() {
                let time = codec::le64(r.timestamp);
                let len = codec::le32(r.key.len() as u32);
                let rest = match r.value {
                    Some(v) => codec::sized(v),
                    None => Seq::<u8>::empty(),
                };
                codec::lemma_int32_at(time, r.key.len() as u32, r.key + rest);
                assert(time + len + (r.key + rest) =~= p);
                if let Some(v) = r.value {
                    codec::lemma_int32_at(time + len + r.key, v.len() as u32, v);
                    assert(time + len + r.key + codec::le32(v.len() as u32) + v =~= p);
                }
            }
        }
    }
}

/// What a line of a manifest means. The three words stand for the three edits, and a line
/// that begins with one of them and does not go on as it should is refused, as is one that is
/// no text. All other lines mean nothing.
pub proof fn lemma_line_meaning(line: Seq<u8>, level: u32, id: u64)
    ensures
        ({
            let f = text::parts(line, 0x3a);
            let words = vstd::utf8::valid_utf8(line);
            let edit = manifest::edit_of(line);
            let sst = seq![0x53u8, 0x53, 0x54];
            let del = seq![0x44u8, 0x45, 0x4c];
            let log = seq![0x57u8, 0x41, 0x4c];
            &&& edit == Ok::<Option<ManifestEdit>, Fault>(
                Some(ManifestEdit::AddSst { level, id }),
            ) <==> words && f[0] == sst && f.len() >= 3 && text::parsed(f[1], 0xffff_ffff) == Some(
                level as nat,
            ) && text::parsed(f[2], 0xffff_ffff_ffff_fffe) == Some(id as nat)
            &&& edit == Ok::<Option<ManifestEdit>, Fault>(
                Some(ManifestEdit::RemoveSst { level, id }),
            ) <==> words && f[0] == del && f.len() >= 3 && text::parsed(f[1], 0xffff_ffff) == Some(
                level as nat,
            ) && text::parsed(f[2], 0xffff_ffff_ffff_ffff) == Some(id as nat)
            &&& edit == Ok::<Option<ManifestEdit>, Fault>(Some(ManifestEdit::AddWal { id }))
                <==> words && f[0] == log && f.len() >= 2 && text::parsed(
                f[1],
                0xffff_ffff_ffff_fffe,
            ) == Some(id as nat)
            &&& edit == Ok::<Option<ManifestEdit>, Fault>(None) <==> words && f[0] != sst && f[0]
                != del && f[0] != log
        }),
{
    let f = text::parts(line, 0x3a);
    let sst = seq![0x53u8, 0x53, 0x54];
    let del = seq![0x44u8, 0x45, 0x4c];
    let log = seq![0x57u8, 0x41, 0x4c];
    assert(sst[0] != del[0] && sst[0] != log[0] && del[0] != log[0]);
    text::lemma_parsed_bound(f[1], 0xffff_ffff);
    text::lemma_parsed_bound(f[2], 0xffff_ffff_ffff_fffe);
    text::lemma_parsed_bound(f[2], 0xffff_ffff_ffff_ffff);
    text::lemma_parsed_bound(f[1], 0xffff_ffff_ffff_fffe);
}

/// A line that is refused stops the replay of a manifest.
pub proof fn lemma_bad_line_stops(m: ManifestView, data: Seq<u8>)
    requires
        data.len() > 0,
        manifest::edit_of(manifest::first_line(data).0) is Err,
    ensures
        manifest::replayed(m, data) is Err,
{
}

} // verus!
