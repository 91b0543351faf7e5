//! The message repository and its FMG message files.
//!
//! An FMG file is modelled by its byte image: the header, followed by the
//! message groups, followed by whatever else the file holds (the table of
//! message offsets and the UTF-16 texts of the messages). Every position in
//! the image is a byte offset from the start of the header.

use vstd::prelude::*;
use crate::bytes::{
    lemma_u16_le_of, lemma_u32_le_of, lemma_u64_le_of, read_i64_le, read_u16_le, read_u32_le,
    read_u64_le, spec_byte, spec_i64_le, spec_u16_high, spec_u16_le, spec_u16_low, spec_u32_le,
    spec_u64_le, write_u16_le,
};

verus! {

/// Byte size of the header that starts every message file image.
pub const HEADER_SIZE: usize = 0x28;

/// Byte size of one message group record.
pub const GROUP_SIZE: usize = 0x10;

/// The contents that follow the header span the header's file size less this
/// many bytes (none when the file size is smaller).
pub const FILE_SIZE_SLACK: u32 = 0x10;

const OFF_ENDIANNESS: usize = 0x01;
const OFF_VERSION: usize = 0x02;
const OFF_FILE_SIZE: usize = 0x04;
const OFF_UNK08: usize = 0x08;
const OFF_GROUP_COUNT: usize = 0x0C;
const OFF_MSG_COUNT: usize = 0x10;
const OFF_MAX_GROUP_SIZE: usize = 0x14;
const OFF_MSG_OFFSETS: usize = 0x18;
const OFF_UNK20: usize = 0x20;

// ---------------------------------------------------------------------------
// The image, field by field.

/// The header's file size field.
pub open spec fn spec_file_size(d: Seq<u8>) -> u32 {
    spec_u32_le(d, 0x04)
}

/// The header's group count field.
pub open spec fn spec_group_count(d: Seq<u8>) -> u32 {
    spec_u32_le(d, 0x0C)
}

/// The header's message count field.
pub open spec fn spec_msg_count(d: Seq<u8>) -> u32 {
    spec_u32_le(d, 0x10)
}

/// The header's position of the message offset table.
pub open spec fn spec_offsets_pos(d: Seq<u8>) -> u64 {
    spec_u64_le(d, 0x18)
}

/// The position of group `k`'s record.
pub open spec fn spec_group_pos(k: int) -> int {
    HEADER_SIZE + GROUP_SIZE * k
}

/// The index of the first message of group `k`.
pub open spec fn spec_group_offset(d: Seq<u8>, k: int) -> u32 {
    spec_u32_le(d, spec_group_pos(k))
}

/// The first message id of group `k`.
pub open spec fn spec_group_first(d: Seq<u8>, k: int) -> u32 {
    spec_u32_le(d, spec_group_pos(k) + 4)
}

/// The last message id of group `k`.
pub open spec fn spec_group_last(d: Seq<u8>, k: int) -> u32 {
    spec_u32_le(d, spec_group_pos(k) + 8)
}

/// The end of the group records: the header and the group records are the
/// file's own tables.
pub open spec fn spec_groups_end(d: Seq<u8>) -> int {
    spec_group_pos(spec_group_count(d) as int)
}

/// Group `k` holds message id `id`.
pub open spec fn spec_group_holds(d: Seq<u8>, k: int, id: u32) -> bool {
    spec_group_first(d, k) <= id <= spec_group_last(d, k)
}

/// The message index that group `k` gives message id `id`.
pub open spec fn spec_group_index(d: Seq<u8>, k: int, id: u32) -> int {
    id - spec_group_first(d, k) + spec_group_offset(d, k)
}

/// An image that a message file can have: the header is there.
pub open spec fn spec_fmg_valid(d: Seq<u8>) -> bool {
    HEADER_SIZE <= d.len()
}

/// The group records lie in the image and within the contents that the file
/// size gives (reading them does not run past the contents).
pub open spec fn spec_groups_fit(d: Seq<u8>) -> bool {
    &&& spec_groups_end(d) <= d.len()
    &&& spec_group_count(d) == 0 || GROUP_SIZE * spec_group_count(d) + FILE_SIZE_SLACK
        <= spec_file_size(d)
}

/// Looking up `id` runs without fault: the group records fit, and the group
/// that the search settles on, if any, gives an index within `u32`.
pub open spec fn spec_lookup_defined(d: Seq<u8>, id: u32) -> bool {
    &&& spec_groups_fit(d)
    &&& spec_group_of(d, id) matches Some(k) ==> spec_group_index(d, k, id) <= u32::MAX
}

/// The groups are in ascending order of ids and do not overlap.
pub open spec fn spec_groups_sorted(d: Seq<u8>) -> bool {
    &&& forall|k: int|
        0 <= k < spec_group_count(d) ==> #[trigger] spec_group_first(d, k) <= spec_group_last(d, k)
    &&& forall|j: int, k: int|
        0 <= j < k < spec_group_count(d) ==> #[trigger] spec_group_last(d, j)
            < #[trigger] spec_group_first(d, k)
}

// ---------------------------------------------------------------------------
// Finding a message id: a binary search over the groups.

/// The group that the binary search over groups `left..=right` settles on for
/// `id`, if any.
pub open spec fn spec_search(d: Seq<u8>, id: u32, left: int, right: int) -> Option<int>
    decreases right - left + 1,
{
    if left < 0 || left > right {
        None
    } else {
        let mid = (left + right) / 2;
        if spec_group_last(d, mid) < id {
            spec_search(d, id, mid + 1, right)
        } else if spec_group_first(d, mid) <= id {
            Some(mid)
        } else if mid == 0 {
            None
        } else {
            spec_search(d, id, left, mid - 1)
        }
    }
}

/// The group in which the lookup of `id` finds it: none when there are no
/// groups or `id` lies before the first group's first id or after the last
/// group's last id, else the group that the binary search settles on.
pub open spec fn spec_group_of(d: Seq<u8>, id: u32) -> Option<int> {
    let n = spec_group_count(d) as int;
    if n == 0 {
        None
    } else if id < spec_group_first(d, 0) || id > spec_group_last(d, n - 1) {
        None
    } else {
        spec_search(d, id, 0, n - 1)
    }
}

/// The message index of `id`.
pub open spec fn spec_index_by_id(d: Seq<u8>, id: u32) -> Option<u32> {
    match spec_group_of(d, id) {
        Some(k) => Some(spec_group_index(d, k, id) as u32),
        None => None,
    }
}

/// What the search settles on is a group in range that holds `id`.
pub proof fn lemma_search_sound(d: Seq<u8>, id: u32, left: int, right: int)
    requires
        0 <= left,
    ensures
        spec_search(d, id, left, right) matches Some(k) ==> left <= k <= right
            && spec_group_holds(d, k, id),
    decreases right - left + 1,
{
    if left <= right {
        let mid = (left + right) / 2;
        if spec_group_last(d, mid) < id {
            lemma_search_sound(d, id, mid + 1, right);
        } else if spec_group_first(d, mid) <= id {
        } else if mid == 0 {
        } else {
            lemma_search_sound(d, id, left, mid - 1);
        }
    }
}

/// On sorted groups, a search over a range that holds the one group `k` that
/// holds `id` settles on `k`.
pub proof fn lemma_search_complete(d: Seq<u8>, id: u32, left: int, right: int, k: int)
    requires
        spec_groups_sorted(d),
        0 <= left <= k <= right < spec_group_count(d),
        spec_group_holds(d, k, id),
    ensures
        spec_search(d, id, left, right) == Some(k),
    decreases right - left + 1,
{
    let mid = (left + right) / 2;
    if spec_group_last(d, mid) < id {
        if k <= mid {
            if k < mid {
                assert(spec_group_last(d, k) < spec_group_first(d, mid));
            }
        }
        lemma_search_complete(d, id, mid + 1, right, k);
    } else if spec_group_first(d, mid) <= id {
        if k < mid {
            assert(spec_group_last(d, k) < spec_group_first(d, mid));
        } else if k > mid {
            assert(spec_group_last(d, mid) < spec_group_first(d, k));
        }
    } else {
        if k >= mid {
            if k > mid {
                assert(spec_group_last(d, mid) < spec_group_first(d, k));
                assert(spec_group_first(d, mid) <= spec_group_last(d, mid));
            }
        }
        lemma_search_complete(d, id, left, mid - 1, k);
    }
}

/// The group that the lookup finds for `id` is one that holds `id`.
pub proof fn lemma_group_of_sound(d: Seq<u8>, id: u32)
    ensures
        spec_group_of(d, id) matches Some(k) ==> 0 <= k < spec_group_count(d)
            && spec_group_holds(d, k, id),
        spec_index_by_id(d, id) is Some ==> exists|k: int|
            0 <= k < spec_group_count(d) && spec_group_holds(d, k, id),
{
    let n = spec_group_count(d) as int;
    if n > 0 {
        lemma_search_sound(d, id, 0, n - 1);
        if let Some(k) = spec_group_of(d, id) {
            assert(spec_group_holds(d, k, id));
        }
    }
}

/// A found message index comes from a group that holds the id, offset by the
/// id's distance from the group's first id.
pub proof fn lemma_index_by_id_sound(d: Seq<u8>, id: u32)
    requires
        spec_lookup_defined(d, id),
    ensures
        spec_index_by_id(d, id) matches Some(i) ==> exists|k: int|
            0 <= k < spec_group_count(d) && spec_group_holds(d, k, id) && i as int
                == spec_group_index(d, k, id),
        spec_index_by_id(d, id) is Some ==> exists|k: int|
            0 <= k < spec_group_count(d) && spec_group_holds(d, k, id),
{
    lemma_group_of_sound(d, id);
    if let Some(k) = spec_group_of(d, id) {
        assert(spec_group_holds(d, k, id));
    }
}

/// When the groups are sorted, the lookup of an id finds it exactly when a
/// group holds it, and gives the index that this group assigns.
pub proof fn lemma_index_by_id_complete(d: Seq<u8>, id: u32, k: int)
    requires
        spec_groups_sorted(d),
        0 <= k < spec_group_count(d),
        spec_group_holds(d, k, id),
    ensures
        spec_group_of(d, id) == Some(k),
        spec_index_by_id(d, id) == Some(spec_group_index(d, k, id) as u32),
{
    let n = spec_group_count(d) as int;
    assert(spec_group_first(d, 0) <= spec_group_first(d, k)) by {
        if k > 0 {
            assert(spec_group_last(d, 0) < spec_group_first(d, k));
        }
    }
    assert(spec_group_last(d, k) <= spec_group_last(d, n - 1)) by {
        if k < n - 1 {
            assert(spec_group_last(d, k) < spec_group_first(d, n - 1));
        }
    }
    lemma_search_complete(d, id, 0, n - 1, k);
}

/// An id that no group holds is not found.
pub proof fn lemma_index_by_id_absent(d: Seq<u8>, id: u32)
    requires
        forall|k: int| 0 <= k < spec_group_count(d) ==> !spec_group_holds(d, k, id),
    ensures
        spec_index_by_id(d, id) is None,
{
    lemma_group_of_sound(d, id);
}

/// On sorted groups, when group `k`'s record holds `id` (its first id, the
/// `u32` at byte 4 of the record, is at most `id`, and its last id, the `u32`
/// at byte 8, at least `id`), the index found for `id` is the record's offset,
/// the `u32` at byte 0, plus `id`'s distance from the first id; the lookup
/// runs without fault when that sum fits a `u32` and the records fit.
pub proof fn lemma_index_is_offset_plus_distance(d: Seq<u8>, id: u32, k: int)
    requires
        spec_groups_sorted(d),
        0 <= k < spec_u32_le(d, 0x0C),
        spec_u32_le(d, 0x28 + 0x10 * k + 4) <= id <= spec_u32_le(d, 0x28 + 0x10 * k + 8),
        spec_u32_le(d, 0x28 + 0x10 * k) + (id - spec_u32_le(d, 0x28 + 0x10 * k + 4)) <= u32::MAX,
    ensures
        spec_index_by_id(d, id) == Some(
            (spec_u32_le(d, 0x28 + 0x10 * k) + (id - spec_u32_le(d, 0x28 + 0x10 * k + 4))) as u32,
        ),
        spec_groups_fit(d) ==> spec_lookup_defined(d, id),
{
    lemma_index_by_id_complete(d, id, k);
}

/// Whatever the groups, an index that the lookup finds (when it runs without
/// fault) is the offset of the group record that the search settles on, which
/// holds `id`, plus `id`'s distance from that record's first id.
pub proof fn lemma_found_index_is_offset_plus_distance(d: Seq<u8>, id: u32)
    requires
        spec_lookup_defined(d, id),
    ensures
        spec_index_by_id(d, id) matches Some(i) ==> spec_group_of(d, id) is Some && ({
            let k = spec_group_of(d, id).unwrap();
            &&& 0 <= k < spec_u32_le(d, 0x0C)
            &&& spec_u32_le(d, 0x28 + 0x10 * k + 4) <= id <= spec_u32_le(d, 0x28 + 0x10 * k + 8)
            &&& i as int == spec_u32_le(d, 0x28 + 0x10 * k) + (id - spec_u32_le(
                d,
                0x28 + 0x10 * k + 4,
            ))
        }),
{
    lemma_group_of_sound(d, id);
}

// ---------------------------------------------------------------------------
// Message offsets and message texts.

/// The message offset table is there: its position is nonzero and 8-aligned,
/// and the table, one 8-byte entry per message, lies in the image.
pub open spec fn spec_offsets_present(d: Seq<u8>) -> bool {
    let p = spec_offsets_pos(d) as int;
    p != 0 && p % 8 == 0 && p + 8 * spec_msg_count(d) <= d.len()
}

/// The position of entry `i` of the message offset table.
pub open spec fn spec_offset_entry_pos(d: Seq<u8>, i: int) -> int {
    spec_offsets_pos(d) + 8 * i
}

/// Entry `i` of the message offset table: the position of message `i`'s text,
/// none when the entry is zero.
pub open spec fn spec_offset_entry(d: Seq<u8>, i: int) -> Option<i64> {
    let e = spec_i64_le(d, spec_offset_entry_pos(d, i));
    if e == 0 {
        None
    } else {
        Some(e)
    }
}

/// The message offset table: empty when it is not there.
pub open spec fn spec_msg_offsets(d: Seq<u8>) -> Seq<Option<i64>> {
    if spec_offsets_present(d) {
        Seq::new(spec_msg_count(d) as nat, |i: int| spec_offset_entry(d, i))
    } else {
        Seq::empty()
    }
}

/// The position of message `i`'s text, if the table gives one.
pub open spec fn spec_msg_offset(d: Seq<u8>, i: int) -> Option<i64> {
    if spec_offsets_present(d) && 0 <= i < spec_msg_count(d) {
        spec_offset_entry(d, i)
    } else {
        None
    }
}

/// The zero-terminated UTF-16 text at byte position `pos`, without its
/// terminator: none when the position lies outside the image or the image
/// ends before a terminator.
pub open spec fn spec_wide_str(d: Seq<u8>, pos: int) -> Option<Seq<u16>>
    decreases d.len() - pos,
{
    if pos < 0 || pos + 2 > d.len() {
        None
    } else if spec_u16_le(d, pos) == 0 {
        Some(Seq::empty())
    } else {
        match spec_wide_str(d, pos + 2) {
            Some(t) => Some(seq![spec_u16_le(d, pos)] + t),
            None => None,
        }
    }
}

/// The text of message `i`.
pub open spec fn spec_msg_by_index(d: Seq<u8>, i: int) -> Option<Seq<u16>> {
    match spec_msg_offset(d, i) {
        Some(o) => spec_wide_str(d, o as int),
        None => None,
    }
}

/// The text of the message with id `id`.
pub open spec fn spec_get_msg(d: Seq<u8>, id: u32) -> Option<Seq<u16>> {
    match spec_index_by_id(d, id) {
        Some(i) => spec_msg_by_index(d, i as int),
        None => None,
    }
}

/// The image with the units of `t` stored little-endian from byte position `pos` on.
pub open spec fn spec_write_units(d: Seq<u8>, pos: int, t: Seq<u16>) -> Seq<u8> {
    Seq::new(
        d.len(),
        |j: int|
            if pos <= j < pos + 2 * t.len() {
                if (j - pos) % 2 == 0 {
                    spec_u16_low(t[(j - pos) / 2])
                } else {
                    spec_u16_high(t[(j - pos) / 2])
                }
            } else {
                d[j]
            },
    )
}

/// Where `n` units go that overwrite the first units of the text at `pos`:
/// `pos` itself, none when there is no text there or it has fewer than `n` units.
pub open spec fn spec_text_target(d: Seq<u8>, pos: int, n: int) -> Option<int> {
    match spec_wide_str(d, pos) {
        Some(m) => if n <= m.len() {
            Some(pos)
        } else {
            None
        },
        None => None,
    }
}

/// Where `n` units go that overwrite the start of message `i`'s text.
pub open spec fn spec_msg_target(d: Seq<u8>, i: int, n: int) -> Option<int> {
    match spec_msg_offset(d, i) {
        Some(o) => spec_text_target(d, o as int, n),
        None => None,
    }
}

/// Where `n` units go that overwrite the start of the text of the message
/// with id `id`.
pub open spec fn spec_id_target(d: Seq<u8>, id: u32, n: int) -> Option<int> {
    match spec_index_by_id(d, id) {
        Some(i) => spec_msg_target(d, i as int, n),
        None => None,
    }
}

/// The image after `t` overwrites the first units of the text at `pos`: none
/// when there is no text there or `t` is longer than it.
pub open spec fn spec_write_at(d: Seq<u8>, pos: int, t: Seq<u16>) -> Option<Seq<u8>> {
    match spec_text_target(d, pos, t.len() as int) {
        Some(p) => Some(spec_write_units(d, p, t)),
        None => None,
    }
}

/// The image after `t` overwrites the start of message `i`'s text.
pub open spec fn spec_put_msg_by_index(d: Seq<u8>, i: int, t: Seq<u16>) -> Option<Seq<u8>> {
    match spec_msg_offset(d, i) {
        Some(o) => spec_write_at(d, o as int, t),
        None => None,
    }
}

/// The image after `t` overwrites the start of the text of the message with id `id`.
pub open spec fn spec_put_msg(d: Seq<u8>, id: u32, t: Seq<u16>) -> Option<Seq<u8>> {
    match spec_index_by_id(d, id) {
        Some(i) => spec_put_msg_by_index(d, i as int, t),
        None => None,
    }
}

// ---------------------------------------------------------------------------
// Structures.

/// The header of a message file.
#[derive(Debug, Clone, Copy)]
pub struct FmgFileHeader {
    pub _unk00: u8,
    pub endianness: u8,
    pub version: u16,
    pub file_size: u32,
    pub _unk08: u32,
    pub group_count: u32,
    pub msg_count: u32,
    pub max_group_size: u32,
    /// Position of the message offset table in the file image; zero when the
    /// file has none.
    pub msg_offsets: u64,
    pub _unk20: u64,
}

/// The header that the image starts with.
pub open spec fn spec_header_of(d: Seq<u8>) -> FmgFileHeader {
    FmgFileHeader {
        _unk00: d[0],
        endianness: d[1],
        version: spec_u16_le(d, 0x02),
        file_size: spec_u32_le(d, 0x04),
        _unk08: spec_u32_le(d, 0x08),
        group_count: spec_u32_le(d, 0x0C),
        msg_count: spec_u32_le(d, 0x10),
        max_group_size: spec_u32_le(d, 0x14),
        msg_offsets: spec_u64_le(d, 0x18),
        _unk20: spec_u64_le(d, 0x20),
    }
}

/// Byte `j` of the bytes that store header `h`.
pub open spec fn spec_header_byte(h: FmgFileHeader, j: int) -> u8 {
    if j == 0 {
        h._unk00
    } else if j == 1 {
        h.endianness
    } else if j < 0x04 {
        spec_byte(h.version as int, j - 0x02)
    } else if j < 0x08 {
        spec_byte(h.file_size as int, j - 0x04)
    } else if j < 0x0C {
        spec_byte(h._unk08 as int, j - 0x08)
    } else if j < 0x10 {
        spec_byte(h.group_count as int, j - 0x0C)
    } else if j < 0x14 {
        spec_byte(h.msg_count as int, j - 0x10)
    } else if j < 0x18 {
        spec_byte(h.max_group_size as int, j - 0x14)
    } else if j < 0x20 {
        spec_byte(h.msg_offsets as int, j - 0x18)
    } else {
        spec_byte(h._unk20 as int, j - 0x20)
    }
}

/// The image with its header replaced by `h`.
pub open spec fn spec_with_header(d: Seq<u8>, h: FmgFileHeader) -> Seq<u8> {
    Seq::new(d.len(), |j: int| if j < HEADER_SIZE { spec_header_byte(h, j) } else { d[j] })
}

/// Reading the header after replacing it gives the new header.
pub proof fn lemma_header_roundtrip(d: Seq<u8>, h: FmgFileHeader)
    requires
        HEADER_SIZE <= d.len(),
    ensures
        spec_with_header(d, h).len() == d.len(),
        spec_header_of(spec_with_header(d, h)) == h,
{
    let b = spec_with_header(d, h);
    lemma_u16_le_of(b, 0x02, h.version);
    lemma_u32_le_of(b, 0x04, h.file_size);
    lemma_u32_le_of(b, 0x08, h._unk08);
    lemma_u32_le_of(b, 0x0C, h.group_count);
    lemma_u32_le_of(b, 0x10, h.msg_count);
    lemma_u32_le_of(b, 0x14, h.max_group_size);
    lemma_u64_le_of(b, 0x18, h.msg_offsets);
    lemma_u64_le_of(b, 0x20, h._unk20);
}

/// Each field of the header that an image starts with is the little-endian
/// value of the bytes at the field's offset: `_unk00` at 0x00, `endianness` at
/// 0x01, `version` at 0x02, `file_size` at 0x04, `_unk08` at 0x08,
/// `group_count` at 0x0C, `msg_count` at 0x10, `max_group_size` at 0x14,
/// `msg_offsets` at 0x18 and `_unk20` at 0x20.
pub proof fn lemma_header_field_offsets(d: Seq<u8>, h: FmgFileHeader)
    requires
        HEADER_SIZE <= d.len(),
        h == spec_header_of(d),
    ensures
        h._unk00 == d[0x00],
        h.endianness == d[0x01],
        h.version as int == d[0x02] + 256 * d[0x03],
        h.file_size as int == d[0x04] + 256 * d[0x05] + 65536 * d[0x06] + 16777216 * d[0x07],
        h._unk08 as int == d[0x08] + 256 * d[0x09] + 65536 * d[0x0a] + 16777216 * d[0x0b],
        h.group_count as int == d[0x0c] + 256 * d[0x0d] + 65536 * d[0x0e] + 16777216 * d[0x0f],
        h.msg_count as int == d[0x10] + 256 * d[0x11] + 65536 * d[0x12] + 16777216 * d[0x13],
        h.max_group_size as int == d[0x14] + 256 * d[0x15] + 65536 * d[0x16] + 16777216 * d[0x17],
        h.msg_offsets as int == d[0x18] + 256 * d[0x19] + 65536 * d[0x1a] + 16777216 * d[0x1b]
                + 4294967296 * (d[0x1c] + 256 * d[0x1d] + 65536 * d[0x1e] + 16777216 * d[0x1f]),
        h._unk20 as int == d[0x20] + 256 * d[0x21] + 65536 * d[0x22] + 16777216 * d[0x23]
                + 4294967296 * (d[0x24] + 256 * d[0x25] + 65536 * d[0x26] + 16777216 * d[0x27]),
{
}

/// Replacing the header stores each field of the new header little-endian at
/// the field's offset (the offsets that [`lemma_header_field_offsets`] reads)
/// and leaves every byte past the header as it was.
pub proof fn lemma_with_header_bytes(d: Seq<u8>, h: FmgFileHeader, b: Seq<u8>)
    requires
        HEADER_SIZE <= d.len(),
        b == spec_with_header(d, h),
    ensures
        b.len() == d.len(),
        b[0x00] == h._unk00,
        b[0x01] == h.endianness,
        b[0x02] == h.version % 256,
        b[0x03] == (h.version / 0x100) % 256,
        b[0x04] == h.file_size % 256,
        b[0x05] == (h.file_size / 0x100) % 256,
        b[0x06] == (h.file_size / 0x10000) % 256,
        b[0x07] == (h.file_size / 0x1000000) % 256,
        b[0x08] == h._unk08 % 256,
        b[0x09] == (h._unk08 / 0x100) % 256,
        b[0x0a] == (h._unk08 / 0x10000) % 256,
        b[0x0b] == (h._unk08 / 0x1000000) % 256,
        b[0x0c] == h.group_count % 256,
        b[0x0d] == (h.group_count / 0x100) % 256,
        b[0x0e] == (h.group_count / 0x10000) % 256,
        b[0x0f] == (h.group_count / 0x1000000) % 256,
        b[0x10] == h.msg_count % 256,
        b[0x11] == (h.msg_count / 0x100) % 256,
        b[0x12] == (h.msg_count / 0x10000) % 256,
        b[0x13] == (h.msg_count / 0x1000000) % 256,
        b[0x14] == h.max_group_size % 256,
        b[0x15] == (h.max_group_size / 0x100) % 256,
        b[0x16] == (h.max_group_size / 0x10000) % 256,
        b[0x17] == (h.max_group_size / 0x1000000) % 256,
        b[0x18] == h.msg_offsets % 256,
        b[0x19] == (h.msg_offsets / 0x100) % 256,
        b[0x1a] == (h.msg_offsets / 0x10000) % 256,
        b[0x1b] == (h.msg_offsets / 0x1000000) % 256,
        b[0x1c] == (h.msg_offsets / 0x100000000) % 256,
        b[0x1d] == (h.msg_offsets / 0x10000000000) % 256,
        b[0x1e] == (h.msg_offsets / 0x1000000000000) % 256,
        b[0x1f] == (h.msg_offsets / 0x100000000000000) % 256,
        b[0x20] == h._unk20 % 256,
        b[0x21] == (h._unk20 / 0x100) % 256,
        b[0x22] == (h._unk20 / 0x10000) % 256,
        b[0x23] == (h._unk20 / 0x1000000) % 256,
        b[0x24] == (h._unk20 / 0x100000000) % 256,
        b[0x25] == (h._unk20 / 0x10000000000) % 256,
        b[0x26] == (h._unk20 / 0x1000000000000) % 256,
        b[0x27] == (h._unk20 / 0x100000000000000) % 256,
        forall|j: int| HEADER_SIZE <= j < d.len() ==> #[trigger] b[j] == d[j],
{
}

/// A run of consecutive message ids, `first_id..=last_id`, whose messages
/// have consecutive indices starting at `offset`.
#[derive(Debug, Clone, Copy)]
pub struct MsgGroup {
    pub offset: u32,
    pub first_id: u32,
    pub last_id: u32,
    pub _unk0c: u32,
}

/// A message file, held as its byte image.
pub struct FmgFile {
    data: Vec<u8>,
}

impl View for FmgFile {
    type V = Seq<u8>;

    closed spec fn view(&self) -> Seq<u8> {
        self.data@
    }
}

/// `g` carries the fields of group `k`'s record.
pub open spec fn spec_group_is(d: Seq<u8>, g: MsgGroup, k: int) -> bool {
    &&& g.offset == spec_group_offset(d, k)
    &&& g.first_id == spec_group_first(d, k)
    &&& g.last_id == spec_group_last(d, k)
}

/// Reads the zero-terminated UTF-16 text at byte position `pos`.
fn read_wide_str(d: &Vec<u8>, pos: usize) -> (r: Option<Vec<u16>>)
    ensures
        match r {
            Some(v) => spec_wide_str(d@, pos as int) == Some(v@),
            None => spec_wide_str(d@, pos as int) is None,
        },
{
    let len = d.len();
    let mut out: Vec<u16> = Vec::new();
    let mut p = pos;
    assert(out@ + Seq::<u16>::empty() =~= out@);
    while p < len && len - p >= 2
        invariant
            len == d@.len(),
            pos <= p,
            spec_wide_str(d@, pos as int) == match spec_wide_str(d@, p as int) {
                Some(t) => Some(out@ + t),
                None => None,
            },
        decreases len - p,
    {
        let u = read_u16_le(d, p);
        if u == 0 {
            assert(out@ + Seq::<u16>::empty() =~= out@);
            return Some(out);
        }
        proof {
            match spec_wide_str(d@, p + 2) {
                Some(t) => {
                    assert(out@ + (seq![u] + t) =~= out@.push(u) + t);
                },
                None => {},
            }
        }
        out.push(u);
        p = p + 2;
    }
    None
}

/// A text found at `pos` lies in the image together with its terminator.
pub proof fn lemma_wide_str_fits(d: Seq<u8>, pos: int)
    ensures
        spec_wide_str(d, pos) matches Some(m) ==> 0 <= pos && pos + 2 * m.len() + 2 <= d.len(),
    decreases d.len() - pos,
{
    if 0 <= pos && pos + 2 <= d.len() && spec_u16_le(d, pos) != 0 {
        lemma_wide_str_fits(d, pos + 2);
    }
}

/// The search reads nothing but the group records.
proof fn lemma_search_frame(d0: Seq<u8>, d1: Seq<u8>, id: u32, left: int, right: int)
    requires
        forall|k: int|
            0 <= k < spec_group_count(d0) ==> spec_group_first(d1, k) == spec_group_first(d0, k)
                && spec_group_last(d1, k) == spec_group_last(d0, k),
        right < spec_group_count(d0),
    ensures
        spec_search(d1, id, left, right) == spec_search(d0, id, left, right),
    decreases right - left + 1,
{
    if 0 <= left <= right {
        let mid = (left + right) / 2;
        lemma_search_frame(d0, d1, id, mid + 1, right);
        lemma_search_frame(d0, d1, id, left, mid - 1);
    }
}

/// An image that agrees with another on the header, and has its length, has
/// the same header fields.
proof fn lemma_header_frame(d0: Seq<u8>, d1: Seq<u8>)
    requires
        HEADER_SIZE <= d0.len(),
        d1.len() == d0.len(),
        forall|j: int| 0 <= j < HEADER_SIZE ==> d1[j] == d0[j],
    ensures
        spec_file_size(d1) == spec_file_size(d0),
        spec_group_count(d1) == spec_group_count(d0),
        spec_msg_count(d1) == spec_msg_count(d0),
        spec_offsets_pos(d1) == spec_offsets_pos(d0),
{
    assert(d1[4] == d0[4] && d1[5] == d0[5] && d1[6] == d0[6] && d1[7] == d0[7]);
    assert(d1[12] == d0[12] && d1[13] == d0[13] && d1[14] == d0[14] && d1[15] == d0[15]);
    assert(d1[16] == d0[16] && d1[17] == d0[17] && d1[18] == d0[18] && d1[19] == d0[19]);
    assert forall|j: int| 24 <= j < 32 implies d1[j] == d0[j] by {}
}

/// An image that agrees with another on the header and the group records, and
/// has its length, has the same header fields and groups, its group records
/// fit as well, and it finds every message id in the same group.
pub proof fn lemma_tables_frame(d0: Seq<u8>, d1: Seq<u8>)
    requires
        spec_groups_fit(d0),
        d1.len() == d0.len(),
        forall|j: int| 0 <= j < spec_groups_end(d0) ==> d1[j] == d0[j],
    ensures
        spec_groups_fit(d1),
        spec_file_size(d1) == spec_file_size(d0),
        spec_group_count(d1) == spec_group_count(d0),
        spec_msg_count(d1) == spec_msg_count(d0),
        spec_offsets_pos(d1) == spec_offsets_pos(d0),
        spec_groups_end(d1) == spec_groups_end(d0),
        forall|k: int|
            0 <= k < spec_group_count(d0) ==> spec_group_first(d1, k) == spec_group_first(d0, k)
                && spec_group_last(d1, k) == spec_group_last(d0, k) && spec_group_offset(d1, k)
                == spec_group_offset(d0, k),
        forall|id: u32| #[trigger] spec_group_of(d1, id) == spec_group_of(d0, id),
{
    lemma_header_frame(d0, d1);
    let n = spec_group_count(d0) as int;
    assert forall|k: int| 0 <= k < n implies spec_group_first(d1, k) == spec_group_first(d0, k)
        && spec_group_last(d1, k) == spec_group_last(d0, k) && spec_group_offset(d1, k)
        == spec_group_offset(d0, k) by {
        let p = spec_group_pos(k);
        assert forall|j: int| p <= j < p + 12 implies d1[j] == d0[j] by {}
    }
    assert forall|id: u32| #[trigger] spec_group_of(d1, id) == spec_group_of(d0, id) by {
        if n > 0 {
            lemma_search_frame(d0, d1, id, 0, n - 1);
        }
    }
}

/// The text found at `pos` continues, `j` units in, as the rest of it.
pub proof fn lemma_wide_str_skip(d: Seq<u8>, pos: int, m: Seq<u16>, j: int)
    requires
        spec_wide_str(d, pos) == Some(m),
        0 <= j <= m.len(),
    ensures
        spec_wide_str(d, pos + 2 * j) == Some(m.skip(j)),
    decreases j,
{
    if j == 0 {
        assert(m.skip(0) =~= m);
    } else {
        lemma_wide_str_skip(d, pos, m, j - 1);
        let q = pos + 2 * (j - 1);
        assert(m.skip(j - 1).len() > 0);
        match spec_wide_str(d, q + 2) {
            Some(x) => {
                assert(seq![spec_u16_le(d, q)] + x == m.skip(j - 1));
                assert(x =~= (seq![spec_u16_le(d, q)] + x).drop_first());
                assert(m.skip(j - 1).drop_first() =~= m.skip(j));
            },
            None => {},
        }
    }
}

/// The text at `q` depends on the bytes from `q` on only.
pub proof fn lemma_wide_str_frame(d: Seq<u8>, d2: Seq<u8>, q: int)
    requires
        d2.len() == d.len(),
        forall|x: int| q <= x < d.len() ==> d2[x] == d[x],
    ensures
        spec_wide_str(d2, q) == spec_wide_str(d, q),
    decreases d.len() - q,
{
    if 0 <= q && q + 2 <= d.len() {
        assert(d2[q] == d[q] && d2[q + 1] == d[q + 1]);
        lemma_wide_str_frame(d, d2, q + 2);
    }
}

/// Units written over the start of a text, none of them zero, replace its
/// first units and leave the rest.
proof fn lemma_wide_str_written(d: Seq<u8>, pos: int, t: Seq<u16>, m: Seq<u16>, j: int)
    requires
        spec_wide_str(d, pos) == Some(m),
        t.len() <= m.len(),
        forall|k: int| 0 <= k < t.len() ==> t[k] != 0,
        0 <= j <= t.len(),
    ensures
        spec_wide_str(spec_write_units(d, pos, t), pos + 2 * j) == Some(
            t.skip(j) + m.skip(t.len() as int),
        ),
    decreases t.len() - j,
{
    let d2 = spec_write_units(d, pos, t);
    lemma_wide_str_fits(d, pos);
    if j == t.len() {
        lemma_wide_str_frame(d, d2, pos + 2 * j);
        lemma_wide_str_skip(d, pos, m, j);
        assert(t.skip(j) + m.skip(j) =~= m.skip(j));
    } else {
        lemma_wide_str_written(d, pos, t, m, j + 1);
        let q = pos + 2 * j;
        let u = t[j];
        assert((q - pos) % 2 == 0 && (q - pos) / 2 == j);
        assert((q + 1 - pos) % 2 == 1 && (q + 1 - pos) / 2 == j);
        assert(d2[q] == spec_u16_low(u));
        assert(d2[q + 1] == spec_u16_high(u));
        assert(spec_u16_le(d2, q) == u);
        assert(seq![u] + (t.skip(j + 1) + m.skip(t.len() as int)) =~= t.skip(j) + m.skip(
            t.len() as int,
        ));
    }
}

/// Reading a message after writing it: when the message with id `id` takes
/// `t`, a text without zero units, and the write lands past the group records
/// and leaves the message's entry in the offset table alone, the message then
/// reads `t` followed by the rest of its former text.
pub proof fn lemma_put_then_get(d: Seq<u8>, id: u32, t: Seq<u16>)
    requires
        spec_lookup_defined(d, id),
        spec_put_msg(d, id, t) is Some,
        forall|k: int| 0 <= k < t.len() ==> t[k] != 0,
        ({
            let i = spec_index_by_id(d, id).unwrap() as int;
            let o = spec_msg_offset(d, i).unwrap() as int;
            let e = spec_offset_entry_pos(d, i);
            &&& t.len() == 0 || spec_groups_end(d) <= o
            &&& o + 2 * t.len() <= e || e + 8 <= o
        }),
    ensures
        spec_get_msg(d, id) is Some,
        spec_get_msg(spec_put_msg(d, id, t).unwrap(), id) == Some(
            t + spec_get_msg(d, id).unwrap().skip(t.len() as int),
        ),
{
    let i = spec_index_by_id(d, id).unwrap() as int;
    let o = spec_msg_offset(d, i).unwrap() as int;
    let m = spec_wide_str(d, o).unwrap();
    let d2 = spec_write_units(d, o, t);
    lemma_wide_str_written(d, o, t, m, 0);
    assert(t.skip(0) =~= t);
    if t.len() == 0 {
        assert(d2 =~= d);
    } else {
        lemma_write_keeps_index(d, id, o, t);
        lemma_write_keeps_offset(d, i, o, t);
    }
}

/// A write from a position past the group records keeps every id's message
/// index, and the group records still fit.
proof fn lemma_write_keeps_index(d: Seq<u8>, id: u32, o: int, t: Seq<u16>)
    requires
        spec_groups_fit(d),
        o >= spec_groups_end(d),
    ensures
        spec_index_by_id(spec_write_units(d, o, t), id) == spec_index_by_id(d, id),
        spec_groups_fit(spec_write_units(d, o, t)),
{
    let d2 = spec_write_units(d, o, t);
    assert forall|j: int| 0 <= j < spec_groups_end(d) implies d2[j] == d[j] by {}
    lemma_tables_frame(d, d2);
    assert(spec_group_of(d2, id) == spec_group_of(d, id));
    let n = spec_group_count(d) as int;
    if n > 0 {
        lemma_search_sound(d, id, 0, n - 1);
    }
    if let Some(k) = spec_group_of(d, id) {
        assert(spec_group_first(d2, k) == spec_group_first(d, k));
        assert(spec_group_offset(d2, k) == spec_group_offset(d, k));
    }
}

/// A write from a position past the header that leaves entry `i` of the
/// offset table alone keeps message `i`'s position.
proof fn lemma_write_keeps_offset(d: Seq<u8>, i: int, o: int, t: Seq<u16>)
    requires
        HEADER_SIZE <= d.len(),
        o >= HEADER_SIZE,
        o + 2 * t.len() <= spec_offset_entry_pos(d, i) || spec_offset_entry_pos(d, i) + 8 <= o,
    ensures
        spec_msg_offset(spec_write_units(d, o, t), i) == spec_msg_offset(d, i),
{
    let d2 = spec_write_units(d, o, t);
    assert forall|j: int| 0 <= j < HEADER_SIZE implies d2[j] == d[j] by {}
    lemma_header_frame(d, d2);
    let e = spec_offset_entry_pos(d, i);
    if spec_offsets_present(d) && 0 <= i < spec_msg_count(d) {
        assert forall|j: int| e <= j < e + 8 implies d2[j] == d[j] by {}
        assert(spec_u32_le(d2, e) == spec_u32_le(d, e));
        assert(spec_u32_le(d2, e + 4) == spec_u32_le(d, e + 4));
        assert(spec_offset_entry(d2, i) == spec_offset_entry(d, i));
    }
}

/// Byte `k` of `x`, from the least significant one.
fn byte_of(x: u64, k: usize) -> (r: u8)
    requires
        k < 8,
    ensures
        r == spec_byte(x as int, k as int),
{
    match k {
        0 => (x % 256) as u8,
        1 => ((x / 0x100) % 256) as u8,
        2 => ((x / 0x1_0000) % 256) as u8,
        3 => ((x / 0x100_0000) % 256) as u8,
        4 => ((x / 0x1_0000_0000) % 256) as u8,
        5 => ((x / 0x100_0000_0000) % 256) as u8,
        6 => ((x / 0x1_0000_0000_0000) % 256) as u8,
        _ => ((x / 0x100_0000_0000_0000) % 256) as u8,
    }
}

/// Byte `j` of the bytes that store header `h`.
fn header_byte(h: &FmgFileHeader, j: usize) -> (r: u8)
    requires
        j < HEADER_SIZE,
    ensures
        r == spec_header_byte(*h, j as int),
{
    if j == 0 {
        h._unk00
    } else if j == 1 {
        h.endianness
    } else if j < 0x04 {
        byte_of(h.version as u64, j - 0x02)
    } else if j < 0x08 {
        byte_of(h.file_size as u64, j - 0x04)
    } else if j < 0x0C {
        byte_of(h._unk08 as u64, j - 0x08)
    } else if j < 0x10 {
        byte_of(h.group_count as u64, j - 0x0C)
    } else if j < 0x14 {
        byte_of(h.msg_count as u64, j - 0x10)
    } else if j < 0x18 {
        byte_of(h.max_group_size as u64, j - 0x14)
    } else if j < 0x20 {
        byte_of(h.msg_offsets, j - 0x18)
    } else {
        byte_of(h._unk20, j - 0x20)
    }
}

/// Tells whether `d` is the image of a message file.
fn is_valid_image(d: &Vec<u8>) -> (r: bool)
    ensures
        r == spec_fmg_valid(d@),
{
    d.len() >= HEADER_SIZE
}

impl FmgFile {
    /// The image is that of a message file; every function of `FmgFile` keeps it so.
    pub open spec fn wf(&self) -> bool {
        spec_fmg_valid(self@)
    }

    /// Takes `data` as the image of a message file, if it is one.
    pub fn from_bytes(data: Vec<u8>) -> (r: Option<FmgFile>)
        ensures
            r is Some <==> spec_fmg_valid(data@),
            r matches Some(f) ==> f@ == data@ && f.wf(),
    {
        if is_valid_image(&data) {
            Some(FmgFile { data })
        } else {
            None
        }
    }

    /// Tells whether the image is that of a message file.
    pub(crate) fn is_valid(&self) -> (r: bool)
        ensures
            r == self.wf(),
    {
        is_valid_image(&self.data)
    }

    /// The file's byte image.
    pub fn as_bytes(&self) -> (r: &Vec<u8>)
        ensures
            r@ == self@,
    {
        &self.data
    }

    /// The file's header.
    pub fn header(&self) -> (r: FmgFileHeader)
        requires
            self.wf(),
        ensures
            r == spec_header_of(self@),
    {
        let d = &self.data;
        FmgFileHeader {
            _unk00: d[0],
            endianness: d[OFF_ENDIANNESS],
            version: read_u16_le(d, OFF_VERSION),
            file_size: read_u32_le(d, OFF_FILE_SIZE),
            _unk08: read_u32_le(d, OFF_UNK08),
            group_count: read_u32_le(d, OFF_GROUP_COUNT),
            msg_count: read_u32_le(d, OFF_MSG_COUNT),
            max_group_size: read_u32_le(d, OFF_MAX_GROUP_SIZE),
            msg_offsets: read_u64_le(d, OFF_MSG_OFFSETS),
            _unk20: read_u64_le(d, OFF_UNK20),
        }
    }

    /// Replaces the file's header with `header`.
    pub fn set_header(&mut self, header: FmgFileHeader)
        requires
            old(self).wf(),
        ensures
            final(self).wf(),
            final(self)@ == spec_with_header(old(self)@, header),
            spec_header_of(final(self)@) == header,
    {
        let ghost d0 = self@;
        let mut j: usize = 0;
        while j < HEADER_SIZE
            invariant
                self.data@ == self@,
                self@.len() == d0.len(),
                HEADER_SIZE <= d0.len(),
                j <= HEADER_SIZE,
                forall|x: int|
                    0 <= x < d0.len() ==> #[trigger] self@[x] == if x < j {
                        spec_header_byte(header, x)
                    } else {
                        d0[x]
                    },
            decreases HEADER_SIZE - j,
        {
            let b = header_byte(&header, j);
            self.data.set(j, b);
            j = j + 1;
        }
        assert(self@ =~= spec_with_header(d0, header));
        proof {
            lemma_header_roundtrip(d0, header);
        }
    }

    /// Tells whether the group records lie in the image and within the
    /// contents that the file size gives.
    pub fn groups_fit(&self) -> (r: bool)
        requires
            self.wf(),
        ensures
            r == spec_groups_fit(self@),
    {
        let gc: u64 = read_u32_le(&self.data, OFF_GROUP_COUNT) as u64;
        let fs: u64 = read_u32_le(&self.data, OFF_FILE_SIZE) as u64;
        assert(gc <= u32::MAX);
        let size: u64 = gc * 16;
        size + 40 <= self.data.len() as u64 && (gc == 0 || size + 16 <= fs)
    }

    /// Reads group `k`'s record.
    fn group(&self, k: usize) -> (r: MsgGroup)
        requires
            self.wf(),
            spec_groups_fit(self@),
            k < spec_group_count(self@),
        ensures
            r.offset == spec_group_offset(self@, k as int),
            r.first_id == spec_group_first(self@, k as int),
            r.last_id == spec_group_last(self@, k as int),
    {
        let d = &self.data;
        let pos = HEADER_SIZE + GROUP_SIZE * k;
        MsgGroup {
            offset: read_u32_le(d, pos),
            first_id: read_u32_le(d, pos + 4),
            last_id: read_u32_le(d, pos + 8),
            _unk0c: read_u32_le(d, pos + 12),
        }
    }

    /// The file's message groups, in the order of their records.
    pub fn msg_groups(&self) -> (r: Vec<MsgGroup>)
        requires
            self.wf(),
            spec_groups_fit(self@),
        ensures
            r@.len() == spec_group_count(self@),
            forall|k: int| 0 <= k < r@.len() ==> spec_group_is(self@, #[trigger] r@[k], k),
    {
        let n = read_u32_le(&self.data, OFF_GROUP_COUNT) as usize;
        let mut groups: Vec<MsgGroup> = Vec::new();
        let mut k: usize = 0;
        while k < n
            invariant
                self.wf(),
                spec_groups_fit(self@),
                n == spec_group_count(self@),
                k <= n,
                groups@.len() == k,
                forall|j: int| 0 <= j < k ==> spec_group_is(self@, #[trigger] groups@[j], j),
            decreases n - k,
        {
            let g = self.group(k);
            groups.push(g);
            k = k + 1;
        }
        groups
    }

    /// The group in which the lookup of `id` finds it, by a binary search over
    /// the groups.
    fn group_of(&self, id: u32) -> (r: Option<usize>)
        requires
            self.wf(),
            spec_groups_fit(self@),
        ensures
            match r {
                Some(k) => spec_group_of(self@, id) == Some(k as int),
                None => spec_group_of(self@, id) is None,
            },
    {
        let gc = read_u32_le(&self.data, OFF_GROUP_COUNT);
        let mut left: usize = 0;
        let mut right: usize = match gc.checked_sub(1) {
            Some(r) => r as usize,
            None => return None,
        };
        let g_left = self.group(left);
        let g_right = self.group(right);
        if id < g_left.first_id || id > g_right.last_id {
            return None;
        }
        while left <= right
            invariant
                self.wf(),
                spec_groups_fit(self@),
                gc == spec_group_count(self@),
                right < gc,
                left <= right + 1,
                spec_group_of(self@, id) == spec_search(self@, id, left as int, right as int),
            decreases right + 1 - left,
        {
            let mid = (left + right) / 2;
            let group = self.group(mid);
            if group.last_id < id {
                left = mid + 1;
            } else {
                if group.first_id <= id {
                    return Some(mid);
                }
                right = match mid.checked_sub(1) {
                    Some(r) => r,
                    None => return None,
                };
            }
        }
        None
    }

    /// Tells whether looking up `id` runs without fault: the group records
    /// fit, and the group found for `id`, if any, gives an index within `u32`.
    pub fn lookup_defined(&self, id: u32) -> (r: bool)
        requires
            self.wf(),
        ensures
            r == spec_lookup_defined(self@, id),
    {
        if !self.groups_fit() {
            return false;
        }
        proof {
            lemma_group_of_sound(self@, id);
        }
        match self.group_of(id) {
            Some(k) => {
                let g = self.group(k);
                (id - g.first_id) as u64 + g.offset as u64 <= u32::MAX as u64
            },
            None => true,
        }
    }

    /// The index of the message with id `id`, found by a binary search over
    /// the groups.
    pub fn msg_index_by_id(&self, id: u32) -> (r: Option<u32>)
        requires
            self.wf(),
            spec_lookup_defined(self@, id),
        ensures
            r == spec_index_by_id(self@, id),
            r matches Some(i) ==> exists|k: int|
                0 <= k < spec_group_count(self@) && spec_group_holds(self@, k, id) && i as int
                    == spec_group_index(self@, k, id),
            spec_groups_sorted(self@) ==> (r is Some <==> exists|k: int|
                0 <= k < spec_group_count(self@) && spec_group_holds(self@, k, id)),
    {
        proof {
            lemma_index_by_id_sound(self@, id);
            lemma_group_of_sound(self@, id);
            if spec_groups_sorted(self@) {
                if exists|k: int| 0 <= k < spec_group_count(self@) && spec_group_holds(self@, k, id) {
                    let k = choose|k: int|
                        0 <= k < spec_group_count(self@) && spec_group_holds(self@, k, id);
                    lemma_index_by_id_complete(self@, id, k);
                }
            }
        }
        match self.group_of(id) {
            Some(k) => {
                let group = self.group(k);
                Some(id - group.first_id + group.offset)
            },
            None => None,
        }
    }

    /// The message offset table: the position of each message's text, none for
    /// a zero entry; empty when the table position is zero or misaligned, or the
    /// table does not lie in the image.
    pub fn msg_offsets(&self) -> (r: Vec<Option<i64>>)
        requires
            self.wf(),
        ensures
            r@ == spec_msg_offsets(self@),
    {
        let mut out: Vec<Option<i64>> = Vec::new();
        if !self.offsets_present() {
            assert(out@ =~= spec_msg_offsets(self@));
            return out;
        }
        let n = read_u32_le(&self.data, OFF_MSG_COUNT) as usize;
        let mut i: usize = 0;
        while i < n
            invariant
                self.wf(),
                spec_offsets_present(self@),
                n == spec_msg_count(self@),
                i <= n,
                out@.len() == i,
                forall|j: int| 0 <= j < i ==> #[trigger] out@[j] == spec_offset_entry(self@, j),
            decreases n - i,
        {
            let e = self.offset_entry(i);
            out.push(e);
            i = i + 1;
        }
        assert(out@ =~= spec_msg_offsets(self@));
        out
    }

    /// Tells whether the message offset table is there.
    fn offsets_present(&self) -> (r: bool)
        requires
            self.wf(),
        ensures
            r == spec_offsets_present(self@),
    {
        let p = read_u64_le(&self.data, OFF_MSG_OFFSETS);
        let n = read_u32_le(&self.data, OFF_MSG_COUNT);
        let len = self.data.len() as u64;
        p != 0 && p % 8 == 0 && p <= len && (n as u64) * 8 <= len - p
    }

    /// Reads entry `i` of a message offset table that is there.
    fn offset_entry(&self, i: usize) -> (r: Option<i64>)
        requires
            self.wf(),
            spec_offsets_present(self@),
            i < spec_msg_count(self@),
        ensures
            r == spec_offset_entry(self@, i as int),
    {
        let len = self.data.len();
        let p = read_u64_le(&self.data, OFF_MSG_OFFSETS);
        assert(p + 8 * i + 8 <= len);
        let e = read_i64_le(&self.data, p as usize + 8 * i);
        if e == 0 {
            None
        } else {
            Some(e)
        }
    }

    /// The position of message `index`'s text, if the table gives one.
    fn msg_offset(&self, index: u32) -> (r: Option<i64>)
        requires
            self.wf(),
        ensures
            r == spec_msg_offset(self@, index as int),
    {
        if self.offsets_present() && index < read_u32_le(&self.data, OFF_MSG_COUNT) {
            self.offset_entry(index as usize)
        } else {
            None
        }
    }

    /// The text of message `index`: the zero-terminated UTF-16 text at the
    /// position that the offset table gives, without its terminator.
    pub fn msg_by_index(&self, index: u32) -> (r: Option<Vec<u16>>)
        requires
            self.wf(),
        ensures
            match r {
                Some(v) => spec_msg_by_index(self@, index as int) == Some(v@),
                None => spec_msg_by_index(self@, index as int) is None,
            },
    {
        let off = match self.msg_offset(index) {
            Some(o) => o,
            None => return None,
        };
        if off < 0 || off as u64 > self.data.len() as u64 {
            return None;
        }
        read_wide_str(&self.data, off as usize)
    }

    /// The text of the message with id `id`.
    pub fn get_msg(&self, id: u32) -> (r: Option<Vec<u16>>)
        requires
            self.wf(),
            spec_lookup_defined(self@, id),
        ensures
            match r {
                Some(v) => spec_get_msg(self@, id) == Some(v@),
                None => spec_get_msg(self@, id) is None,
            },
    {
        match self.msg_index_by_id(id) {
            Some(index) => self.msg_by_index(index),
            None => None,
        }
    }

    /// Where a write of `n` units over the start of message `index`'s text
    /// goes: none when the message has no text or its text has fewer units.
    fn write_target(&self, index: u32, n: usize) -> (r: Option<usize>)
        requires
            self.wf(),
        ensures
            match r {
                Some(pos) => spec_msg_target(self@, index as int, n as int) == Some(pos as int),
                None => spec_msg_target(self@, index as int, n as int) is None,
            },
            r matches Some(pos) ==> pos + 2 * n <= self@.len(),
    {
        let off = match self.msg_offset(index) {
            Some(o) => o,
            None => return None,
        };
        if off < 0 || off as u64 > self.data.len() as u64 {
            return None;
        }
        let pos = off as usize;
        let cur = match read_wide_str(&self.data, pos) {
            Some(c) => c,
            None => return None,
        };
        if n > cur.len() {
            return None;
        }
        proof {
            lemma_wide_str_fits(self@, pos as int);
        }
        Some(pos)
    }

    /// Where a write of `n` units over the start of the text of the message
    /// with id `id` goes.
    fn id_target(&self, id: u32, n: usize) -> (r: Option<usize>)
        requires
            self.wf(),
            spec_lookup_defined(self@, id),
        ensures
            match r {
                Some(pos) => spec_id_target(self@, id, n as int) == Some(pos as int),
                None => spec_id_target(self@, id, n as int) is None,
            },
            r matches Some(pos) ==> pos + 2 * n <= self@.len(),
    {
        match self.msg_index_by_id(id) {
            Some(index) => self.write_target(index, n),
            None => None,
        }
    }

    /// Stores the units of `text` little-endian from byte position `pos` on.
    pub(crate) fn write_units(&mut self, pos: usize, text: &[u16])
        requires
            old(self).wf(),
            pos + 2 * text@.len() <= old(self)@.len(),
        ensures
            final(self).wf(),
            final(self)@ == spec_write_units(old(self)@, pos as int, text@),
    {
        let ghost d0 = self@;
        let n = text.len();
        let mut k: usize = 0;
        while k < n
            invariant
                n == text@.len(),
                k <= n,
                pos + 2 * n <= d0.len(),
                self.data.len() == d0.len(),
                self.data@ == self@,
                forall|j: int|
                    0 <= j < d0.len() ==> #[trigger] self@[j] == if pos <= j < pos + 2 * k {
                        spec_write_units(d0, pos as int, text@)[j]
                    } else {
                        d0[j]
                    },
            decreases n - k,
        {
            write_u16_le(&mut self.data, pos + 2 * k, text[k]);
            k = k + 1;
        }
        assert(self@ =~= spec_write_units(d0, pos as int, text@));
    }

    /// Tells whether [`FmgFile::get_msg_mut`] writes `text` for `id`.
    pub fn accepts_msg(&self, id: u32, text: &[u16]) -> (r: bool)
        requires
            self.wf(),
            spec_lookup_defined(self@, id),
        ensures
            r == spec_put_msg(self@, id, text@) is Some,
    {
        self.id_target(id, text.len()).is_some()
    }

    /// Overwrites the first units of message `index`'s text with `text`.
    /// Returns whether it wrote: it does not when the message has no text or
    /// `text` is longer than the text.
    pub fn msg_by_index_mut(&mut self, index: u32, text: &[u16]) -> (r: bool)
        requires
            old(self).wf(),
        ensures
            final(self).wf(),
            match spec_put_msg_by_index(old(self)@, index as int, text@) {
                Some(d) => r && final(self)@ == d,
                None => !r && final(self)@ == old(self)@,
            },
    {
        match self.write_target(index, text.len()) {
            Some(pos) => {
                self.write_units(pos, text);
                true
            },
            None => false,
        }
    }

    /// Overwrites the first units of the text of the message with id `id` with
    /// `text`, as [`FmgFile::msg_by_index_mut`] does for the message's index.
    pub fn get_msg_mut(&mut self, id: u32, text: &[u16]) -> (r: bool)
        requires
            old(self).wf(),
            spec_lookup_defined(old(self)@, id),
        ensures
            final(self).wf(),
            match spec_put_msg(old(self)@, id, text@) {
                Some(d) => r && final(self)@ == d,
                None => !r && final(self)@ == old(self)@,
            },
    {
        match self.id_target(id, text.len()) {
            Some(pos) => {
                self.write_units(pos, text);
                true
            },
            None => false,
        }
    }
}

/// When the table position (the `u64` at 0x18) is nonzero and 8-aligned and
/// the table of one 8-byte entry per message (the count is the `u32` at 0x10)
/// lies in the image, the offset table has one entry per message, and entry
/// `i` is the `i64` stored little-endian at the table position plus `8 * i`,
/// none when it is zero; message `i`'s text is read from that position.
pub proof fn lemma_msg_offsets_entries(d: Seq<u8>, i: int)
    requires
        spec_u64_le(d, 0x18) != 0,
        spec_u64_le(d, 0x18) % 8 == 0,
        spec_u64_le(d, 0x18) + 8 * spec_u32_le(d, 0x10) <= d.len(),
        0 <= i < spec_u32_le(d, 0x10),
    ensures
        spec_msg_offsets(d).len() == spec_u32_le(d, 0x10),
        spec_msg_offsets(d)[i] == if spec_i64_le(d, spec_u64_le(d, 0x18) + 8 * i) == 0 {
            None
        } else {
            Some(spec_i64_le(d, spec_u64_le(d, 0x18) + 8 * i))
        },
        spec_msg_offsets(d)[i] matches Some(o) ==> spec_msg_by_index(d, i) == spec_wide_str(
            d,
            o as int,
        ),
        spec_msg_offsets(d)[i] is None ==> spec_msg_by_index(d, i) is None,
{
}

/// When the table position is zero or not 8-aligned, the offset table is
/// empty and no message has a text.
pub proof fn lemma_msg_offsets_absent(d: Seq<u8>, i: int)
    requires
        spec_u64_le(d, 0x18) == 0 || spec_u64_le(d, 0x18) % 8 != 0,
    ensures
        spec_msg_offsets(d).len() == 0,
        spec_msg_by_index(d, i) is None,
{
}

/// A write of `t` over message `i` is made whenever the message has a text
/// with at least as many units as `t`, whatever those units are: the image
/// keeps its length, the units of `t` are stored little-endian from the
/// position that the offset table gives the message, and every other byte
/// stays as it was.
pub proof fn lemma_put_by_index_accepts_fitting_text(d: Seq<u8>, i: int, t: Seq<u16>)
    requires
        spec_msg_by_index(d, i) is Some,
        t.len() <= spec_msg_by_index(d, i).unwrap().len(),
    ensures
        spec_put_msg_by_index(d, i, t) is Some,
        ({
            let o = spec_msg_offset(d, i).unwrap() as int;
            let d2 = spec_put_msg_by_index(d, i, t).unwrap();
            &&& d2.len() == d.len()
            &&& forall|k: int| 0 <= k < t.len() ==> spec_u16_le(d2, o + 2 * k) == #[trigger] t[k]
            &&& forall|j: int|
                0 <= j < d.len() && !(o <= j < o + 2 * t.len()) ==> #[trigger] d2[j] == d[j]
        }),
{
    let o = spec_msg_offset(d, i).unwrap() as int;
    lemma_wide_str_fits(d, o);
    let d2 = spec_write_units(d, o, t);
    assert forall|k: int| 0 <= k < t.len() implies spec_u16_le(d2, o + 2 * k) == #[trigger] t[k] by {
        let q = o + 2 * k;
        assert((q - o) % 2 == 0 && (q - o) / 2 == k);
        assert((q + 1 - o) % 2 == 1 && (q + 1 - o) / 2 == k);
        assert(d2[q] == spec_u16_low(t[k]));
        assert(d2[q + 1] == spec_u16_high(t[k]));
    }
}

/// A write of `t` over the message with id `id` is made whenever the message
/// has a text with at least as many units as `t`, and stores `t` as
/// [`lemma_put_by_index_accepts_fitting_text`] says.
pub proof fn lemma_put_accepts_fitting_text(d: Seq<u8>, id: u32, t: Seq<u16>)
    requires
        spec_get_msg(d, id) is Some,
        t.len() <= spec_get_msg(d, id).unwrap().len(),
    ensures
        spec_put_msg(d, id, t) is Some,
        ({
            let i = spec_index_by_id(d, id).unwrap() as int;
            let o = spec_msg_offset(d, i).unwrap() as int;
            let d2 = spec_put_msg(d, id, t).unwrap();
            &&& d2.len() == d.len()
            &&& forall|k: int| 0 <= k < t.len() ==> spec_u16_le(d2, o + 2 * k) == #[trigger] t[k]
            &&& forall|j: int|
                0 <= j < d.len() && !(o <= j < o + 2 * t.len()) ==> #[trigger] d2[j] == d[j]
        }),
{
    let i = spec_index_by_id(d, id).unwrap() as int;
    lemma_put_by_index_accepts_fitting_text(d, i, t);
}

// ---------------------------------------------------------------------------
// The repository.

/// The images of a row of file slots.
pub open spec fn spec_slots_view(v: Seq<Option<FmgFile>>) -> Seq<Option<Seq<u8>>> {
    v.map_values(|f: Option<FmgFile>| match f {
        Some(x) => Some(x@),
        None => None,
    })
}

/// The images of the rows of file slots, one row per version.
pub open spec fn spec_rows_view(rows: Seq<Option<Vec<Option<FmgFile>>>>) -> Seq<Option<Seq<Option<Seq<u8>>>>> {
    rows.map_values(|o: Option<Vec<Option<FmgFile>>>| match o {
        Some(v) => Some(spec_slots_view(v@)),
        None => None,
    })
}

/// Rows of file slots that a repository can hold: one row per version, a
/// present row has `file_capacity` slots, and every file in them is a valid
/// message file.
pub open spec fn spec_rows_valid(
    rows: Seq<Option<Seq<Option<Seq<u8>>>>>,
    version_count: u32,
    file_capacity: u32,
) -> bool {
    &&& rows.len() == version_count
    &&& forall|v: int|
        #![trigger rows[v]]
        0 <= v < rows.len() && rows[v] is Some ==> rows[v].unwrap().len() == file_capacity
    &&& forall|v: int, c: int|
        #![trigger rows[v].unwrap()[c]]
        0 <= v < rows.len() && rows[v] is Some && 0 <= c < rows[v].unwrap().len()
            && rows[v].unwrap()[c] is Some ==> spec_fmg_valid(rows[v].unwrap()[c].unwrap())
}

/// The file of category `category`: the one in that slot of the first
/// version's row, if the repository has a first version, the row is there and
/// the category is below the capacity.
pub open spec fn spec_repo_file(
    rows: Seq<Option<Seq<Option<Seq<u8>>>>>,
    version_count: u32,
    file_capacity: u32,
    category: u32,
) -> Option<Seq<u8>> {
    if 0 < version_count && category < file_capacity {
        match rows[0] {
            Some(slots) => slots[category as int],
            None => None,
        }
    } else {
        None
    }
}

/// The repository with the file of category `category` replaced by `d`.
pub open spec fn spec_with_file(v: MsgRepositoryView, category: u32, d: Seq<u8>) -> MsgRepositoryView {
    MsgRepositoryView {
        rows: v.rows.update(0, Some(v.rows[0].unwrap().update(category as int, Some(d)))),
        ..v
    }
}

/// Looking up `id` in the file of category `category` runs without fault
/// (there is nothing to look up when there is no such file).
pub open spec fn spec_repo_lookup_defined(v: MsgRepositoryView, category: u32, id: u32) -> bool {
    match spec_repo_file(v.rows, v.version_count, v.file_capacity, category) {
        Some(d) => spec_lookup_defined(d, id),
        None => true,
    }
}

/// The repository after `t` overwrites the start of the text of the message
/// with id `id` in the file of category `category`: none when there is no
/// such file or the file refuses the write.
pub open spec fn spec_repo_put(v: MsgRepositoryView, category: u32, id: u32, t: Seq<u16>) -> Option<
    MsgRepositoryView,
> {
    match spec_repo_file(v.rows, v.version_count, v.file_capacity, category) {
        Some(d) => match spec_put_msg(d, id, t) {
            Some(d2) => Some(spec_with_file(v, category, d2)),
            None => None,
        },
        None => None,
    }
}

/// Where `n` units go that overwrite the start of the text of the message
/// with id `id` in the file of category `category`.
pub open spec fn spec_repo_target(v: MsgRepositoryView, category: u32, id: u32, n: int) -> Option<int> {
    match spec_repo_file(v.rows, v.version_count, v.file_capacity, category) {
        Some(d) => spec_id_target(d, id, n),
        None => None,
    }
}

/// The repository with the units of `t` stored from byte position `pos` on in
/// the file of category `category`.
pub open spec fn spec_repo_write(v: MsgRepositoryView, category: u32, pos: int, t: Seq<u16>) -> MsgRepositoryView {
    spec_with_file(
        v,
        category,
        spec_write_units(
            spec_repo_file(v.rows, v.version_count, v.file_capacity, category).unwrap(),
            pos,
            t,
        ),
    )
}

/// The text of the message with id `id` in the file of category `category`.
pub open spec fn spec_repo_get_msg(v: MsgRepositoryView, category: u32, id: u32) -> Option<Seq<u16>> {
    match spec_repo_file(v.rows, v.version_count, v.file_capacity, category) {
        Some(d) => spec_get_msg(d, id),
        None => None,
    }
}

/// Replacing the file of one category by an image of the same length keeps a
/// valid repository valid, with the same counts, and leaves the files of all
/// other categories as they were.
pub proof fn lemma_with_file(v: MsgRepositoryView, category: u32, d: Seq<u8>)
    requires
        spec_rows_valid(v.rows, v.version_count, v.file_capacity),
        spec_repo_file(v.rows, v.version_count, v.file_capacity, category) is Some,
        d.len() == spec_repo_file(v.rows, v.version_count, v.file_capacity, category).unwrap().len(),
    ensures
        ({
            let v2 = spec_with_file(v, category, d);
            &&& spec_rows_valid(v2.rows, v2.version_count, v2.file_capacity)
            &&& v2.version_count == v.version_count
            &&& v2.file_capacity == v.file_capacity
            &&& forall|c: u32|
                #[trigger] spec_repo_file(v2.rows, v2.version_count, v2.file_capacity, c) == if c
                    == category {
                    Some(d)
                } else {
                    spec_repo_file(v.rows, v.version_count, v.file_capacity, c)
                }
        }),
{
    let v2 = spec_with_file(v, category, d);
    let row = v.rows[0].unwrap();
    assert(row[category as int] is Some);
    let row2 = row.update(category as int, Some(d));
    assert(v2.rows[0] == Some(row2));
    assert forall|w: int, c: int|
        0 <= w < v2.rows.len() && v2.rows[w] is Some && 0 <= c < v2.rows[w].unwrap().len()
            && v2.rows[w].unwrap()[c] is Some implies spec_fmg_valid(
        #[trigger] v2.rows[w].unwrap()[c].unwrap(),
    ) by {
        if w == 0 && c == category {
        } else if w == 0 {
            assert(row2[c] == row[c]);
        } else {
            assert(v2.rows[w] == v.rows[w]);
        }
    }
    assert forall|w: int| 0 <= w < v2.rows.len() && #[trigger] v2.rows[w] is Some implies v2.rows[
        w
    ].unwrap().len() == v2.file_capacity by {
        if w != 0 {
            assert(v2.rows[w] == v.rows[w]);
        }
    }
}

/// Reading a message of the repository after writing it: the message reads
/// the written text, followed by the rest of its former text, when the text
/// has no zero units and the write lands past the file's group records and
/// leaves the message's entry in the offset table alone (as
/// [`lemma_put_then_get`] says of a file).
pub proof fn lemma_repo_put_then_get(v: MsgRepositoryView, category: u32, id: u32, t: Seq<u16>)
    requires
        spec_rows_valid(v.rows, v.version_count, v.file_capacity),
        spec_repo_lookup_defined(v, category, id),
        spec_repo_put(v, category, id, t) is Some,
        forall|k: int| 0 <= k < t.len() ==> t[k] != 0,
        ({
            let d = spec_repo_file(v.rows, v.version_count, v.file_capacity, category).unwrap();
            let i = spec_index_by_id(d, id).unwrap() as int;
            let o = spec_msg_offset(d, i).unwrap() as int;
            let e = spec_offset_entry_pos(d, i);
            &&& t.len() == 0 || spec_groups_end(d) <= o
            &&& o + 2 * t.len() <= e || e + 8 <= o
        }),
    ensures
        spec_repo_get_msg(v, category, id) is Some,
        spec_repo_get_msg(spec_repo_put(v, category, id, t).unwrap(), category, id) == Some(
            t + spec_repo_get_msg(v, category, id).unwrap().skip(t.len() as int),
        ),
{
    let d = spec_repo_file(v.rows, v.version_count, v.file_capacity, category).unwrap();
    let d2 = spec_put_msg(d, id, t).unwrap();
    lemma_put_then_get(d, id, t);
    lemma_with_file(v, category, d2);
}

/// A write to one category leaves the files of all other categories as they were.
pub proof fn lemma_repo_put_other_file(
    v: MsgRepositoryView,
    category: u32,
    id: u32,
    t: Seq<u16>,
    other: u32,
)
    requires
        spec_rows_valid(v.rows, v.version_count, v.file_capacity),
        spec_repo_put(v, category, id, t) is Some,
        other != category,
    ensures
        ({
            let v2 = spec_repo_put(v, category, id, t).unwrap();
            spec_repo_file(v2.rows, v2.version_count, v2.file_capacity, other) == spec_repo_file(
                v.rows,
                v.version_count,
                v.file_capacity,
                other,
            )
        }),
{
    let d = spec_repo_file(v.rows, v.version_count, v.file_capacity, category).unwrap();
    let d2 = spec_put_msg(d, id, t).unwrap();
    lemma_put_keeps_len(d, id, t);
    lemma_with_file(v, category, d2);
}

/// A write keeps a valid repository valid.
pub proof fn lemma_repo_put_valid(v: MsgRepositoryView, category: u32, id: u32, t: Seq<u16>)
    requires
        spec_rows_valid(v.rows, v.version_count, v.file_capacity),
        spec_repo_put(v, category, id, t) is Some,
    ensures
        ({
            let v2 = spec_repo_put(v, category, id, t).unwrap();
            spec_rows_valid(v2.rows, v2.version_count, v2.file_capacity)
        }),
{
    let d = spec_repo_file(v.rows, v.version_count, v.file_capacity, category).unwrap();
    let d2 = spec_put_msg(d, id, t).unwrap();
    lemma_put_keeps_len(d, id, t);
    lemma_with_file(v, category, d2);
}

/// A write into a file keeps the image's length.
proof fn lemma_put_keeps_len(d: Seq<u8>, id: u32, t: Seq<u16>)
    requires
        spec_put_msg(d, id, t) is Some,
    ensures
        spec_put_msg(d, id, t).unwrap().len() == d.len(),
{
}

/// No two entries of `q` name the same message (category and id).
pub open spec fn spec_keys_distinct(q: Seq<(u32, u32, Vec<u16>)>) -> bool {
    forall|i: int, j: int|
        0 <= i < j < q.len() ==> (#[trigger] q[i].0, q[i].1) != (#[trigger] q[j].0, q[j].1)
}

/// The repository accepts each write of `q` on its own.
pub open spec fn spec_all_accepted(v: MsgRepositoryView, q: Seq<(u32, u32, Vec<u16>)>) -> bool {
    forall|i: int| 0 <= i < q.len() ==> (#[trigger] spec_repo_put(v, q[i].0, q[i].1, q[i].2@)) is Some
}

/// Every lookup of `q` that a batch of writes makes runs without fault: the
/// lookup of an entry is made when the repository accepts the writes of all
/// entries before it.
pub open spec fn spec_lookups_defined(v: MsgRepositoryView, q: Seq<(u32, u32, Vec<u16>)>) -> bool {
    forall|i: int|
        0 <= i < q.len() && spec_all_accepted(v, q.take(i)) ==> #[trigger] spec_repo_lookup_defined(
            v,
            q[i].0,
            q[i].1,
        )
}

/// The repository after the writes of `q`, one after the other, each to the
/// place that the repository `v0` gives it (a write that `v0` refuses is left out).
pub open spec fn spec_put_all(v0: MsgRepositoryView, q: Seq<(u32, u32, Vec<u16>)>) -> MsgRepositoryView
    decreases q.len(),
{
    if q.len() == 0 {
        v0
    } else {
        let v1 = spec_put_all(v0, q.drop_last());
        let (c, id, t) = q.last();
        match spec_repo_target(v0, c, id, t@.len() as int) {
            Some(p) => spec_repo_write(v1, c, p, t@),
            None => v1,
        }
    }
}

/// A batch of writes is made in full exactly when no two of its entries name
/// the same message, that is the same category together with the same id
/// (entries with one id in different categories name different messages), and
/// the repository accepts each write on its own: this is when
/// [`MsgRepository::get_msg_disjoint_mut`] returns true.
pub proof fn lemma_batch_made_when_messages_differ(v: MsgRepositoryView, q: Seq<(u32, u32, Vec<u16>)>)
    ensures
        (spec_keys_distinct(q) && spec_all_accepted(v, q)) <==> ((forall|i: int, j: int|
            0 <= i < j < q.len() ==> #[trigger] q[i].0 != #[trigger] q[j].0 || q[i].1 != q[j].1)
            && (forall|i: int|
            0 <= i < q.len() ==> (#[trigger] spec_repo_put(v, q[i].0, q[i].1, q[i].2@)) is Some)),
{
    if spec_keys_distinct(q) {
        assert forall|i: int, j: int| 0 <= i < j < q.len() implies #[trigger] q[i].0 != #[trigger] q[j].0
            || q[i].1 != q[j].1 by {
            assert((q[i].0, q[i].1) != (q[j].0, q[j].1));
        }
    }
    if forall|i: int, j: int|
        0 <= i < j < q.len() ==> #[trigger] q[i].0 != #[trigger] q[j].0 || q[i].1 != q[j].1 {
        assert forall|i: int, j: int| 0 <= i < j < q.len() implies (#[trigger] q[i].0, q[i].1) != (
            #[trigger] q[j].0,
            q[j].1,
        ) by {
            assert(q[i].0 != q[j].0 || q[i].1 != q[j].1);
        }
    }
}

/// A write of `t` over a message of the repository is made whenever the
/// message has a text with at least as many units as `t`, whatever its units.
pub proof fn lemma_repo_put_accepts_fitting_text(v: MsgRepositoryView, category: u32, id: u32, t: Seq<u16>)
    requires
        spec_repo_get_msg(v, category, id) is Some,
        t.len() <= spec_repo_get_msg(v, category, id).unwrap().len(),
    ensures
        spec_repo_put(v, category, id, t) is Some,
{
    let d = spec_repo_file(v.rows, v.version_count, v.file_capacity, category).unwrap();
    lemma_put_accepts_fitting_text(d, id, t);
}

/// The repository of message files, one row of file slots per version, one
/// slot per message category.
pub struct MsgRepository {
    files: Vec<Option<Vec<Option<FmgFile>>>>,
    version_count: u32,
    file_capacity: u32,
}

/// What a repository holds: the images of its rows of file slots and its counts.
#[verifier::ext_equal]
pub struct MsgRepositoryView {
    pub rows: Seq<Option<Seq<Option<Seq<u8>>>>>,
    pub version_count: u32,
    pub file_capacity: u32,
}

impl View for MsgRepository {
    type V = MsgRepositoryView;

    closed spec fn view(&self) -> MsgRepositoryView {
        MsgRepositoryView {
            rows: spec_rows_view(self.files@),
            version_count: self.version_count,
            file_capacity: self.file_capacity,
        }
    }
}

impl MsgRepository {
    /// The rows match the counts and every file in them is valid.
    pub open spec fn wf(&self) -> bool {
        spec_rows_valid(self@.rows, self@.version_count, self@.file_capacity)
    }

    /// The file of category `category`.
    pub open spec fn spec_file(&self, category: u32) -> Option<Seq<u8>> {
        spec_repo_file(self@.rows, self@.version_count, self@.file_capacity, category)
    }

    /// A repository of the rows `files`, one per version, each with
    /// `file_capacity` slots: none when there are more than `u32::MAX` rows, a
    /// row has another number of slots, or a file in them is not a valid
    /// message file.
    pub fn new(files: Vec<Option<Vec<Option<FmgFile>>>>, file_capacity: u32) -> (r: Option<MsgRepository>)
        ensures
            r is Some <==> files@.len() <= u32::MAX && spec_rows_valid(
                spec_rows_view(files@),
                files@.len() as u32,
                file_capacity,
            ),
            r matches Some(repo) ==> repo@.rows == spec_rows_view(files@) && repo@.version_count
                == files@.len() && repo@.file_capacity == file_capacity && repo.wf(),
    {
        if files.len() > u32::MAX as usize {
            return None;
        }
        let ghost rows = spec_rows_view(files@);
        let n = files.len();
        let mut v: usize = 0;
        while v < n
            invariant
                n == files@.len(),
                n <= u32::MAX,
                rows == spec_rows_view(files@),
                v <= n,
                forall|w: int|
                    #![trigger rows[w]]
                    0 <= w < v && rows[w] is Some ==> rows[w].unwrap().len() == file_capacity,
                forall|w: int, c: int|
                    #![trigger rows[w].unwrap()[c]]
                    0 <= w < v && rows[w] is Some && 0 <= c < rows[w].unwrap().len()
                        && rows[w].unwrap()[c] is Some ==> spec_fmg_valid(rows[w].unwrap()[c].unwrap()),
            decreases n - v,
        {
            match &files[v] {
                Some(slots) => {
                    if slots.len() != file_capacity as usize {
                        assert(rows[v as int] is Some);
                        return None;
                    }
                    let m = slots.len();
                    let mut c: usize = 0;
                    while c < m
                        invariant
                            m == slots@.len(),
                            rows == spec_rows_view(files@),
                            v < n,
                            n == files@.len(),
                            rows[v as int] == Some(spec_slots_view(slots@)),
                            c <= m,
                            forall|c2: int|
                                0 <= c2 < c && #[trigger] slots@[c2] is Some ==> spec_fmg_valid(
                                    slots@[c2].unwrap()@,
                                ),
                        decreases m - c,
                    {
                        match &slots[c] {
                            Some(f) => {
                                if !f.is_valid() {
                                    assert(rows[v as int].unwrap()[c as int] == Some(f@));
                                    assert(rows[v as int].unwrap().len() == m);
                                    assert(!spec_fmg_valid(rows[v as int].unwrap()[c as int].unwrap()));
                                    return None;
                                }
                            },
                            None => {},
                        }
                        c = c + 1;
                    }
                    assert forall|c2: int|
                        0 <= c2 < m && rows[v as int].unwrap()[c2] is Some implies spec_fmg_valid(
                        rows[v as int].unwrap()[c2].unwrap(),
                    ) by {
                        assert(slots@[c2] is Some);
                    }
                },
                None => {},
            }
            v = v + 1;
        }
        Some(MsgRepository { files, version_count: n as u32, file_capacity })
    }

    /// The row of file slots of version `version`, when the version is below
    /// the version count and its row is there.
    fn files_by_version(&self, version: u32) -> (r: Option<&Vec<Option<FmgFile>>>)
        requires
            self.wf(),
        ensures
            match r {
                Some(slots) => version < self@.version_count && self@.rows[version as int] == Some(
                    spec_slots_view(slots@),
                ),
                None => version >= self@.version_count || self@.rows[version as int] is None,
            },
    {
        if version < self.version_count {
            match &self.files[version as usize] {
                Some(slots) => Some(slots),
                None => None,
            }
        } else {
            None
        }
    }

    /// The message file of category `category`.
    pub fn get_file(&self, category: u32) -> (r: Option<&FmgFile>)
        requires
            self.wf(),
        ensures
            match r {
                Some(f) => self.spec_file(category) == Some(f@) && f.wf(),
                None => self.spec_file(category) is None,
            },
    {
        let slots = match self.files_by_version(0) {
            Some(s) => s,
            None => return None,
        };
        if category < self.file_capacity {
            match &slots[category as usize] {
                Some(f) => {
                    assert(self@.rows[0].unwrap()[category as int] == Some(f@));
                    Some(f)
                },
                None => None,
            }
        } else {
            None
        }
    }

    /// The number of versions, one row of file slots each.
    pub fn version_count(&self) -> (r: u32)
        ensures
            r == self@.version_count,
    {
        self.version_count
    }

    /// The number of file slots in each row, one per message category.
    pub fn file_capacity(&self) -> (r: u32)
        ensures
            r == self@.file_capacity,
    {
        self.file_capacity
    }

    /// Tells whether looking up `id` in the file of category `category` runs
    /// without fault.
    pub fn lookup_defined(&self, category: u32, id: u32) -> (r: bool)
        requires
            self.wf(),
        ensures
            r == spec_repo_lookup_defined(self@, category, id),
    {
        match self.get_file(category) {
            Some(file) => file.lookup_defined(id),
            None => true,
        }
    }

    /// The text of the message with id `id` in the file of category `category`.
    pub fn get_msg(&self, category: u32, id: u32) -> (r: Option<Vec<u16>>)
        requires
            self.wf(),
            spec_repo_lookup_defined(self@, category, id),
        ensures
            match r {
                Some(v) => spec_repo_get_msg(self@, category, id) == Some(v@),
                None => spec_repo_get_msg(self@, category, id) is None,
            },
    {
        match self.get_file(category) {
            Some(file) => file.get_msg(id),
            None => None,
        }
    }

    /// Where a write of `n` units over the start of the text of the message
    /// with id `id` in the file of category `category` goes.
    fn target(&self, category: u32, id: u32, n: usize) -> (r: Option<usize>)
        requires
            self.wf(),
            spec_repo_lookup_defined(self@, category, id),
        ensures
            match r {
                Some(pos) => spec_repo_target(self@, category, id, n as int) == Some(pos as int),
                None => spec_repo_target(self@, category, id, n as int) is None,
            },
            r matches Some(pos) ==> self.spec_file(category) is Some && pos + 2 * n <= self.spec_file(
                category,
            ).unwrap().len(),
    {
        match self.get_file(category) {
            Some(file) => file.id_target(id, n),
            None => None,
        }
    }

    /// Stores the units of `text` from byte position `pos` on in the file of
    /// category `category`.
    fn put_units(&mut self, category: u32, pos: usize, text: &[u16])
        requires
            old(self).wf(),
            old(self).spec_file(category) is Some,
            pos + 2 * text@.len() <= old(self).spec_file(category).unwrap().len(),
        ensures
            final(self).wf(),
            final(self)@ == spec_repo_write(old(self)@, category, pos as int, text@),
    {
        let ghost v0 = self@;
        let ghost files0 = self.files@;
        let ghost rows0 = self@.rows;
        let ghost d0 = self.spec_file(category).unwrap();
        let c = category as usize;
        let mut row: Option<Vec<Option<FmgFile>>> = None;
        self.files.set_and_swap(0, &mut row);
        let mut slots = match row {
            Some(s) => s,
            None => {
                assert(false);
                return;
            },
        };
        let ghost slots0 = slots@;
        assert(rows0[0] == Some(spec_slots_view(slots0)));
        let mut slot: Option<FmgFile> = None;
        slots.set_and_swap(c, &mut slot);
        let mut f = match slot {
            Some(f) => f,
            None => {
                assert(spec_slots_view(slots0)[c as int] is None);
                assert(false);
                return;
            },
        };
        assert(spec_slots_view(slots0)[c as int] == Some(f@));
        assert(f@ == d0);
        f.write_units(pos, text);
        let ghost d1 = f@;
        let mut back = Some(f);
        slots.set_and_swap(c, &mut back);
        proof {
            assert(spec_slots_view(slots@) =~= spec_slots_view(slots0).update(c as int, Some(d1)));
        }
        let ghost slots1 = slots@;
        let mut row_back = Some(slots);
        let ghost row_back0 = row_back;
        self.files.set_and_swap(0, &mut row_back);
        proof {
            assert(self.files@ =~= files0.update(0, row_back0));
            assert(self@.rows =~= rows0.update(0, Some(spec_slots_view(slots1))));
            assert(self@ =~= spec_repo_write(v0, category, pos as int, text@));
            lemma_with_file(v0, category, d1);
        }
    }

    /// Overwrites the first units of the text of the message with id `id` in
    /// the file of category `category` with `text`, as
    /// [`FmgFile::get_msg_mut`] does. Returns whether it wrote.
    pub fn get_msg_mut(&mut self, category: u32, id: u32, text: &[u16]) -> (r: bool)
        requires
            old(self).wf(),
            spec_repo_lookup_defined(old(self)@, category, id),
        ensures
            final(self).wf(),
            match spec_repo_put(old(self)@, category, id, text@) {
                Some(v) => r && final(self)@ == v,
                None => !r && final(self)@ == old(self)@,
            },
    {
        match self.target(category, id, text.len()) {
            Some(pos) => {
                self.put_units(category, pos, text);
                true
            },
            None => false,
        }
    }

    /// Tells whether [`MsgRepository::get_msg_mut`] writes `text` for the
    /// message with id `id` in the file of category `category`.
    pub fn accepts_msg(&self, category: u32, id: u32, text: &[u16]) -> (r: bool)
        requires
            self.wf(),
            spec_repo_lookup_defined(self@, category, id),
        ensures
            r == spec_repo_put(self@, category, id, text@) is Some,
    {
        self.target(category, id, text.len()).is_some()
    }

    /// Writes several messages at once. Each entry of `query` names a message
    /// by category and id and gives the text to overwrite the start of its text
    /// with. Nothing is written, and the result is false, when two entries name
    /// the same message or the repository refuses one of the writes; else every
    /// write goes where the repository placed it before any of them was made,
    /// in the order of `query`, and the result is true.
    pub fn get_msg_disjoint_mut(&mut self, query: &Vec<(u32, u32, Vec<u16>)>) -> (r: bool)
        requires
            old(self).wf(),
            spec_keys_distinct(query@) ==> spec_lookups_defined(old(self)@, query@),
        ensures
            final(self).wf(),
            r == (spec_keys_distinct(query@) && spec_all_accepted(old(self)@, query@)),
            r ==> final(self)@ == spec_put_all(old(self)@, query@),
            !r ==> final(self)@ == old(self)@,
    {
        let n = query.len();
        let mut i: usize = 0;
        while i < n
            invariant
                self.wf(),
                self@ == old(self)@,
                n == query@.len(),
                i <= n,
                forall|a: int, b: int|
                    0 <= a < b < i ==> (#[trigger] query@[a].0, query@[a].1) != (
                        #[trigger] query@[b].0,
                        query@[b].1,
                    ),
            decreases n - i,
        {
            let mut j: usize = 0;
            while j < i
                invariant
                    self.wf(),
                    self@ == old(self)@,
                    n == query@.len(),
                    i < n,
                    j <= i,
                    forall|a: int|
                        0 <= a < j ==> (query@[a].0, query@[a].1) != (
                            #[trigger] query@[i as int].0,
                            query@[i as int].1,
                        ),
                decreases i - j,
            {
                if query[j].0 == query[i].0 && query[j].1 == query[i].1 {
                    return false;
                }
                j = j + 1;
            }
            i = i + 1;
        }
        let ghost v0 = self@;
        let mut targets: Vec<usize> = Vec::new();
        let mut i: usize = 0;
        while i < n
            invariant
                self.wf(),
                self@ == v0,
                spec_lookups_defined(v0, query@),
                n == query@.len(),
                i <= n,
                targets@.len() == i,
                forall|a: int|
                    0 <= a < i ==> spec_repo_target(
                        v0,
                        query@[a].0,
                        query@[a].1,
                        query@[a].2@.len() as int,
                    ) == Some(#[trigger] targets@[a] as int),
                forall|a: int|
                    0 <= a < i ==> #[trigger] spec_repo_file(
                        v0.rows,
                        v0.version_count,
                        v0.file_capacity,
                        query@[a].0,
                    ) is Some && targets@[a] + 2 * query@[a].2@.len() <= spec_repo_file(
                        v0.rows,
                        v0.version_count,
                        v0.file_capacity,
                        query@[a].0,
                    ).unwrap().len(),
                forall|a: int|
                    0 <= a < i ==> (#[trigger] spec_repo_put(v0, query@[a].0, query@[a].1, query@[a].2@)) is Some,
            decreases n - i,
        {
            assert(spec_all_accepted(v0, query@.take(i as int)));
            assert(spec_repo_lookup_defined(v0, query@[i as int].0, query@[i as int].1));
            match self.target(query[i].0, query[i].1, query[i].2.len()) {
                Some(p) => {
                    targets.push(p);
                },
                None => {
                    assert(spec_repo_put(v0, query@[i as int].0, query@[i as int].1, query@[i as int].2@) is None);
                    return false;
                },
            }
            i = i + 1;
        }
        let mut i: usize = 0;
        while i < n
            invariant
                self.wf(),
                n == query@.len(),
                i <= n,
                targets@.len() == n,
                self@ == spec_put_all(v0, query@.take(i as int)),
                self@.version_count == v0.version_count,
                self@.file_capacity == v0.file_capacity,
                forall|c: u32|
                    #[trigger] spec_repo_file(self@.rows, self@.version_count, self@.file_capacity, c)
                        is Some == spec_repo_file(v0.rows, v0.version_count, v0.file_capacity, c)
                        is Some,
                forall|c: u32|
                    spec_repo_file(v0.rows, v0.version_count, v0.file_capacity, c) is Some
                        ==> #[trigger] spec_repo_file(
                        self@.rows,
                        self@.version_count,
                        self@.file_capacity,
                        c,
                    ).unwrap().len() == spec_repo_file(
                        v0.rows,
                        v0.version_count,
                        v0.file_capacity,
                        c,
                    ).unwrap().len(),
                forall|a: int|
                    0 <= a < n ==> spec_repo_target(
                        v0,
                        query@[a].0,
                        query@[a].1,
                        query@[a].2@.len() as int,
                    ) == Some(#[trigger] targets@[a] as int),
                forall|a: int|
                    0 <= a < n ==> #[trigger] spec_repo_file(
                        v0.rows,
                        v0.version_count,
                        v0.file_capacity,
                        query@[a].0,
                    ) is Some && targets@[a] + 2 * query@[a].2@.len() <= spec_repo_file(
                        v0.rows,
                        v0.version_count,
                        v0.file_capacity,
                        query@[a].0,
                    ).unwrap().len(),
            decreases n - i,
        {
            assert(query@.take(i + 1).drop_last() =~= query@.take(i as int));
            assert(query@.take(i + 1).last() == query@[i as int]);
            let ghost before = self@;
            let ghost c = query@[i as int].0;
            let ghost d = spec_repo_file(before.rows, before.version_count, before.file_capacity, c).unwrap();
            assert(spec_repo_file(v0.rows, v0.version_count, v0.file_capacity, c) is Some);
            self.put_units(query[i].0, targets[i], query[i].2.as_slice());
            proof {
                lemma_with_file(before, c, spec_write_units(d, targets@[i as int] as int, query@[i as int].2@));
            }
            i = i + 1;
        }
        assert(query@.take(n as int) =~= query@);
        true
    }
}

} // verus!
