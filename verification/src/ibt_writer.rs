//! The contents of `.ibt` telemetry files.
//!
//! Disk-based telemetry tools do not read the simulator's shared memory; they
//! read the `.ibt` files that it writes. On the target machine nothing writes
//! them, so the target can record one from the map that it keeps up to date.
//! Layout of a file:
//!
//! ```text
//! [0   : 112]  header       ver, status, tick rate, offsets, one buffer
//! [112 : 144]  subheader    start date, start and end time, laps, records
//! [144 : S  ]  descriptors  144 bytes per variable, as in the map
//! [S   : B  ]  session YAML as in the map
//! [B   : EOF]  records      one row of the variable buffer each
//! ```
//!
//! This module decides what is written and when. It is handed the map and
//! answers with the bytes that belong in the file.

use vstd::prelude::*;

use crate::irsdk::{
    IRSDK_HEADER_SIZE, OFF_BUFLEN, OFF_NUMBUF, OFF_NUMVARS, OFF_SESSIONINFOLEN, OFF_SESSIONINFOOFFSET,
    OFF_SESSIONINFOUPDATE, OFF_STATUS, OFF_TICKRATE, OFF_VARBUF, OFF_VARHEADEROFFSET, OFF_VER,
    VARHEADER_SIZE,
};
use crate::irsdk;
use crate::protocol;
use crate::text;
use crate::wire;

verus! {

/// Bytes of the subheader of a file.
pub const DISK_SUBHEADER_SIZE: usize = 32;

/// Where the descriptors begin in a file: after header and subheader.
pub const DISK_VARHEADER_OFFSET: usize = 144;

/// Descriptor field: type of the variable.
pub const VH_TYPE_OFF: usize = 0;

/// Descriptor field: offset of the variable in a row.
pub const VH_OFFSET_OFF: usize = 4;

/// Descriptor field: name of the variable, filled up with NUL.
pub const VH_NAME_OFF: usize = 16;

/// Bytes of the name field.
pub const VH_NAME_LEN: usize = 32;

/// Status of a connected session.
pub const STATUS_CONNECTED: i32 = 1;

/// Version written where the map has none.
pub const IRSDK_VER: i32 = 2;

/// Tick rate written where the map has none.
pub const DEFAULT_TICK_RATE: i32 = 60;

// ── Variables ─────────────────────────────────────────────────────────────────

/// A NUL-filled field holds exactly `name`.
pub open spec fn names(field: Seq<u8>, name: Seq<u8>) -> bool {
    &&& name.len() <= field.len()
    &&& forall|i: int| 0 <= i < name.len() ==> #[trigger] field[i] == name[i] && name[i] != 0
    &&& name.len() < field.len() ==> field[name.len() as int] == 0
}

/// The name field of the descriptor at `base`.
pub open spec fn name_field(map: Seq<u8>, base: int) -> Seq<u8> {
    map.subrange(base + VH_NAME_OFF, base + VH_NAME_OFF + VH_NAME_LEN)
}

/// Descriptor `i` of the array at `vh_off` lies inside the map and is called
/// `name`.
pub open spec fn describes(map: Seq<u8>, vh_off: int, i: int, name: Seq<u8>) -> bool {
    &&& vh_off + (i + 1) * VARHEADER_SIZE <= map.len()
    &&& names(name_field(map, vh_off + i * VARHEADER_SIZE), name)
}

/// Row offset and type of the variable called `name`: those of the first of
/// the `n` descriptors that has this name.
pub open spec fn variable(map: Seq<u8>, vh_off: int, n: int, name: Seq<u8>) -> Option<(int, int)>
    decreases n,
{
    if n <= 0 {
        None
    } else {
        match variable(map, vh_off, n - 1, name) {
            Some(v) => Some(v),
            None => if describes(map, vh_off, n - 1, name) {
                Some(
                    (
                        wire::i32_at(map, vh_off + (n - 1) * VARHEADER_SIZE + VH_OFFSET_OFF),
                        wire::i32_at(map, vh_off + (n - 1) * VARHEADER_SIZE + VH_TYPE_OFF),
                    ),
                )
            } else {
                None
            },
        }
    }
}

fn name_matches(map: &[u8], base: usize, name: &[u8]) -> (r: bool)
    requires
        base + VARHEADER_SIZE <= map@.len(),
    ensures
        r == names(name_field(map@, base as int), name@),
{
    assert(base + VARHEADER_SIZE <= map.len());
    let at: usize = base + VH_NAME_OFF;
    let ghost field = name_field(map@, base as int);
    if name.len() > VH_NAME_LEN {
        return false;
    }
    let mut i: usize = 0;
    while i < name.len()
        invariant
            i <= name@.len() <= VH_NAME_LEN,
            at + VH_NAME_LEN <= map@.len(),
            at + VH_NAME_LEN <= usize::MAX,
            at == base + VH_NAME_OFF,
            field == name_field(map@, base as int),
            forall|j: int| 0 <= j < i ==> #[trigger] field[j] == name@[j] && name@[j] != 0,
        decreases name@.len() - i,
    {
        assert(field[i as int] == map@[at + i]);
        if name[i] == 0 || map[at + i] != name[i] {
            return false;
        }
        i = i + 1;
    }
    if i < VH_NAME_LEN {
        assert(field[i as int] == map@[at + i]);
        map[at + i] == 0
    } else {
        true
    }
}

proof fn lemma_no_variable(map: Seq<u8>, vh_off: int, n: int, m: int, name: Seq<u8>)
    requires
        0 <= n <= m,
        variable(map, vh_off, n, name) is None,
        vh_off + (n + 1) * VARHEADER_SIZE > map.len(),
    ensures
        variable(map, vh_off, m, name) is None,
    decreases m,
{
    if n < m {
        lemma_no_variable(map, vh_off, n, m - 1, name);
    }
}

proof fn lemma_variable_stays(map: Seq<u8>, vh_off: int, n: int, m: int, name: Seq<u8>)
    requires
        0 <= n <= m,
        variable(map, vh_off, n, name) is Some,
    ensures
        variable(map, vh_off, m, name) == variable(map, vh_off, n, name),
    decreases m,
{
    if n < m {
        lemma_variable_stays(map, vh_off, n, m - 1, name);
    }
}

/// Finds a variable by name: its offset in a row and its type.
pub fn find_var(map: &[u8], vh_off: usize, num_vars: usize, name: &str) -> (r: Option<(i32, i32)>)
    ensures
        ({
            let bytes = vstd::utf8::encode_utf8(name@);
            match r {
                Some((offset, vtype)) => variable(map@, vh_off as int, num_vars as int, bytes)
                    == Some((offset as int, vtype as int)),
                None => variable(map@, vh_off as int, num_vars as int, bytes) is None,
            }
        }),
{
    let ghost bytes = vstd::utf8::encode_utf8(name@);
    let wanted: &[u8] = name.as_bytes();
    let mut i: usize = 0;
    let mut base: usize = vh_off;
    while i < num_vars
        invariant
            i <= num_vars,
            wanted@ == bytes,
            bytes == vstd::utf8::encode_utf8(name@),
            base == vh_off + i * VARHEADER_SIZE,
            variable(map@, vh_off as int, i as int, bytes) is None,
        decreases num_vars - i,
    {
        if base > map.len() || map.len() - base < VARHEADER_SIZE {
            proof {
                lemma_no_variable(map@, vh_off as int, i as int, num_vars as int, bytes);
            }
            return None;
        }
        if name_matches(map, base, wanted) {
            assert(variable(map@, vh_off as int, i + 1, bytes) is Some);
            proof {
                lemma_variable_stays(map@, vh_off as int, i + 1, num_vars as int, bytes);
            }
            return Some(
                (wire::rd_i32(map, base + VH_OFFSET_OFF), wire::rd_i32(map, base + VH_TYPE_OFF)),
            );
        }
        base = base + VARHEADER_SIZE;
        i = i + 1;
    }
    None
}

// ── Layout ────────────────────────────────────────────────────────────────────

/// What a recording needs to know of a map.
#[derive(Clone, Copy)]
pub struct MapLayout {
    pub ver: i32,
    pub tick_rate: i32,
    pub session_info_update: i32,
    pub num_vars: usize,
    /// Length of a row as the header has it, which may be negative.
    pub buf_len: i32,
    /// Offset of the descriptors in the map.
    pub vh_off: usize,
    /// Offset of the session YAML in the map.
    pub si_off: usize,
    /// Length of the session YAML.
    pub si_len: usize,
    /// Offset of `SessionTime`, a double, in a row.
    pub session_time_row_off: Option<i32>,
    /// Offset of `Lap`, an integer, in a row.
    pub lap_row_off: Option<i32>,
}

/// The row offset of a variable, where the map has it.
pub open spec fn row_offset(map: Seq<u8>, vh_off: int, n: int, name: Seq<u8>) -> Option<i32> {
    match variable(map, vh_off, n, name) {
        Some((offset, vtype)) => Some(offset as i32),
        None => None,
    }
}

/// The map is that of a connected session, with variables and a session YAML
/// that lie inside it.
pub open spec fn is_populated(map: Seq<u8>) -> bool {
    let num_vars = wire::i32_at(map, OFF_NUMVARS as int);
    let vh_off = wire::i32_at(map, OFF_VARHEADEROFFSET as int);
    let si_len = wire::i32_at(map, OFF_SESSIONINFOLEN as int);
    let si_off = wire::i32_at(map, OFF_SESSIONINFOOFFSET as int);
    &&& map.len() >= IRSDK_HEADER_SIZE
    &&& map[OFF_STATUS as int] % 2 == 1
    &&& wire::i32_at(map, OFF_BUFLEN as int) != 0
    &&& num_vars > 0 && vh_off >= 0 && vh_off + num_vars * VARHEADER_SIZE <= map.len()
    &&& si_len > 0 && si_off >= 0 && si_off + si_len <= map.len()
}

/// The layout of a populated map.
pub open spec fn layout_of(map: Seq<u8>) -> Option<MapLayout> {
    if is_populated(map) {
        let num_vars = wire::i32_at(map, OFF_NUMVARS as int);
        let vh_off = wire::i32_at(map, OFF_VARHEADEROFFSET as int);
        Some(
            MapLayout {
                ver: wire::i32_at(map, OFF_VER as int) as i32,
                tick_rate: wire::i32_at(map, OFF_TICKRATE as int) as i32,
                session_info_update: wire::i32_at(map, OFF_SESSIONINFOUPDATE as int) as i32,
                num_vars: num_vars as usize,
                buf_len: wire::i32_at(map, OFF_BUFLEN as int) as i32,
                vh_off: vh_off as usize,
                si_off: wire::i32_at(map, OFF_SESSIONINFOOFFSET as int) as usize,
                si_len: wire::i32_at(map, OFF_SESSIONINFOLEN as int) as usize,
                session_time_row_off: row_offset(
                    map,
                    vh_off,
                    num_vars,
                    vstd::utf8::encode_utf8("SessionTime"@),
                ),
                lap_row_off: row_offset(
                    map,
                    vh_off,
                    num_vars,
                    vstd::utf8::encode_utf8("Lap"@),
                ),
            },
        )
    } else {
        None
    }
}

impl MapLayout {
    /// Reads the layout of a map. `None` if it is not that of a populated,
    /// connected session.
    pub fn parse(map: &[u8]) -> (r: Option<MapLayout>)
        ensures
            r == layout_of(map@),
    {
        if map.len() < IRSDK_HEADER_SIZE {
            return None;
        }
        if map[OFF_STATUS] % 2 == 0 {
            return None;
        }
        let num_vars: i32 = wire::rd_i32(map, OFF_NUMVARS);
        let buf_len: i32 = wire::rd_i32(map, OFF_BUFLEN);
        let vh_off: i32 = wire::rd_i32(map, OFF_VARHEADEROFFSET);
        let si_off: i32 = wire::rd_i32(map, OFF_SESSIONINFOOFFSET);
        let si_len: i32 = wire::rd_i32(map, OFF_SESSIONINFOLEN);
        if num_vars <= 0 || buf_len == 0 || si_len <= 0 || vh_off < 0 || si_off < 0 {
            return None;
        }
        let size: u64 = map.len() as u64;
        if vh_off as u64 + num_vars as u64 * VARHEADER_SIZE as u64 > size {
            return None;
        }
        if si_off as u64 + si_len as u64 > size {
            return None;
        }
        let session_time_row_off = match find_var(
            map,
            vh_off as usize,
            num_vars as usize,
            "SessionTime",
        ) {
            Some((offset, _)) => Some(offset),
            None => None,
        };
        let lap_row_off = match find_var(
            map,
            vh_off as usize,
            num_vars as usize,
            "Lap",
        ) {
            Some((offset, _)) => Some(offset),
            None => None,
        };
        Some(
            MapLayout {
                ver: wire::rd_i32(map, OFF_VER),
                tick_rate: wire::rd_i32(map, OFF_TICKRATE),
                session_info_update: wire::rd_i32(map, OFF_SESSIONINFOUPDATE),
                num_vars: num_vars as usize,
                buf_len,
                vh_off: vh_off as usize,
                si_off: si_off as usize,
                si_len: si_len as usize,
                session_time_row_off,
                lap_row_off,
            },
        )
    }
}

// ── File prefix ───────────────────────────────────────────────────────────────

/// Where the session YAML begins in the file.
pub open spec fn yaml_offset(l: MapLayout) -> int {
    DISK_VARHEADER_OFFSET + l.num_vars * VARHEADER_SIZE
}

/// Where the records begin in the file.
pub open spec fn rows_offset(l: MapLayout) -> int {
    yaml_offset(l) + l.si_len
}

/// The fields of the header of a file whose only buffer carries `tick`.
pub open spec fn header_words(l: MapLayout, tick: int) -> Seq<int> {
    seq![
        if l.ver != 0 {
            l.ver as int
        } else {
            IRSDK_VER as int
        },
        STATUS_CONNECTED as int,
        if l.tick_rate != 0 {
            l.tick_rate as int
        } else {
            DEFAULT_TICK_RATE as int
        },
        l.session_info_update as int,
        l.si_len as int,
        yaml_offset(l),
        l.num_vars as int,
        DISK_VARHEADER_OFFSET as int,
        1,
        l.buf_len as int,
        0,
        0,
        tick,
        rows_offset(l),
    ] + Seq::new(14, |i: int| 0int)
}

/// The header of a file whose only buffer carries `tick`.
#[verifier::opaque]
pub open spec fn header_bytes(l: MapLayout, tick: int) -> Seq<u8> {
    wire::words_bytes(header_words(l, tick))
}

/// The subheader with these statistics. The two times are doubles, given by
/// their bits.
#[verifier::opaque]
pub open spec fn subheader(
    start_date: int,
    start_t: int,
    end_t: int,
    laps: int,
    records: int,
) -> Seq<u8> {
    wire::u64_bytes(start_date) + wire::u64_bytes(start_t) + wire::u64_bytes(end_t)
        + wire::u32_bytes(laps) + wire::u32_bytes(records)
}

/// The descriptors and the session YAML, as they stand in the map.
pub open spec fn static_part(map: Seq<u8>, l: MapLayout) -> Seq<u8> {
    map.subrange(l.vh_off as int, l.vh_off + l.num_vars * VARHEADER_SIZE) + map.subrange(
        l.si_off as int,
        l.si_off + l.si_len,
    )
}

/// Everything before the records, with empty statistics.
pub open spec fn prefix_bytes(map: Seq<u8>, l: MapLayout, start_date: int) -> Seq<u8> {
    header_bytes(l, 0) + subheader(start_date, 0, 0, 0, 0) + static_part(map, l)
}

fn push_header(out: &mut Vec<u8>, layout: &MapLayout)
    requires
        layout.num_vars <= i32::MAX,
        layout.si_len <= i32::MAX,
    ensures
        final(out)@ == old(out)@ + header_bytes(*layout, 0),
{
    reveal(header_bytes);
    let si_disk_off: i64 = DISK_VARHEADER_OFFSET as i64 + layout.num_vars as i64
        * VARHEADER_SIZE as i64;
    let buf_off: i64 = si_disk_off + layout.si_len as i64;
    let ver: i32 = if layout.ver != 0 {
        layout.ver
    } else {
        IRSDK_VER
    };
    let tick_rate: i32 = if layout.tick_rate != 0 {
        layout.tick_rate
    } else {
        DEFAULT_TICK_RATE
    };
    let mut words: Vec<i64> = Vec::new();
    words.push(ver as i64);
    words.push(STATUS_CONNECTED as i64);
    words.push(tick_rate as i64);
    words.push(layout.session_info_update as i64);
    words.push(layout.si_len as i64);
    words.push(si_disk_off);
    words.push(layout.num_vars as i64);
    words.push(DISK_VARHEADER_OFFSET as i64);
    words.push(1);
    words.push(layout.buf_len as i64);
    words.push(0);
    words.push(0);
    words.push(0);
    words.push(buf_off);
    let ghost fields = header_words(*layout, 0);
    let ghost head = words@;
    assert(head.len() == 14);
    assert(forall|j: int| 0 <= j < 14 ==> #[trigger] fields[j] == head[j]);
    words.resize(28, 0);
    assert(words@.len() == 28);
    assert(forall|j: int| 0 <= j < 14 ==> #[trigger] words@[j] == head[j]);
    assert(forall|j: int| 14 <= j < 28 ==> #[trigger] words@[j] == 0);
    assert forall|j: int| 0 <= j < 28 implies #[trigger] fields[j] == words@[j] by {
        if j < 14 {
            assert(words@[j] == head[j]);
        } else {
            assert(words@[j] == 0);
        }
    }
    let mut i: usize = 0;
    while i < 28
        invariant
            i <= 28,
            words@.len() == 28,
            fields.len() == 28,
            forall|j: int| 0 <= j < 28 ==> #[trigger] fields[j] == words@[j],
            forall|j: int| 0 <= j < 28 ==> #[trigger] words@[j] >= -0x8000_0000,
            out@ == old(out)@ + wire::words_bytes(fields.take(i as int)),
        decreases 28 - i,
    {
        wire::push_word(out, words[i]);
        proof {
            wire::lemma_words_push(fields.take(i as int), fields[i as int]);
            assert(fields.take(i + 1) =~= fields.take(i as int).push(fields[i as int]));
        }
        i = i + 1;
        assert(out@ =~= old(out)@ + wire::words_bytes(fields.take(i as int)));
    }
    assert(fields.take(28) =~= fields);
}

fn push_subheader(
    out: &mut Vec<u8>,
    start_date: i64,
    start_t: u64,
    end_t: u64,
    laps: i32,
    records: i32,
)
    ensures
        final(out)@ == old(out)@ + subheader(
            start_date as int,
            start_t as int,
            end_t as int,
            laps as int,
            records as int,
        ),
{
    reveal(subheader);
    wire::push_i64(out, start_date);
    wire::push_u64(out, start_t);
    wire::push_u64(out, end_t);
    wire::push_word(out, laps as i64);
    wire::push_word(out, records as i64);
    assert(out@ =~= old(out)@ + subheader(
        start_date as int,
        start_t as int,
        end_t as int,
        laps as int,
        records as int,
    ));
}

proof fn lemma_part_lengths(
    l: MapLayout,
    tick: int,
    start_date: int,
    start_t: int,
    end_t: int,
    laps: int,
    records: int,
)
    ensures
        header_bytes(l, tick).len() == IRSDK_HEADER_SIZE,
        subheader(start_date, start_t, end_t, laps, records).len() == DISK_SUBHEADER_SIZE,
{
    reveal(header_bytes);
    reveal(subheader);
}

/// The part of a file before its records. Its statistics are empty; they are
/// written when the file is finished.
pub fn build_prefix(map: &[u8], layout: &MapLayout, start_date: i64) -> (out: Vec<u8>)
    requires
        layout.num_vars <= i32::MAX,
        layout.si_len <= i32::MAX,
        layout.vh_off + layout.num_vars * VARHEADER_SIZE <= map@.len(),
        layout.si_off + layout.si_len <= map@.len(),
    ensures
        out@ == prefix_bytes(map@, *layout, start_date as int),
        out@.len() == rows_offset(*layout),
{
    let mut out: Vec<u8> = Vec::new();
    push_header(&mut out, layout);
    assert(out@ =~= header_bytes(*layout, 0));
    push_subheader(&mut out, start_date, 0, 0, 0, 0);
    proof {
        lemma_part_lengths(*layout, 0, start_date as int, 0, 0, 0, 0);
    }
    assert(layout.vh_off + layout.num_vars * VARHEADER_SIZE <= map.len());
    assert(layout.si_off + layout.si_len <= map.len());
    let vh_end: usize = layout.vh_off + layout.num_vars * VARHEADER_SIZE;
    out.extend_from_slice(&map[layout.vh_off..vh_end]);
    out.extend_from_slice(&map[layout.si_off..layout.si_off + layout.si_len]);
    assert(out@ =~= prefix_bytes(map@, *layout, start_date as int));
    out
}

/// The 32 bytes of a subheader.
pub fn subheader_bytes(
    start_date: i64,
    start_t: u64,
    end_t: u64,
    laps: i32,
    records: i32,
) -> (out: Vec<u8>)
    ensures
        out@ == subheader(
            start_date as int,
            start_t as int,
            end_t as int,
            laps as int,
            records as int,
        ),
        out@.len() == DISK_SUBHEADER_SIZE,
{
    let mut out: Vec<u8> = Vec::new();
    push_subheader(&mut out, start_date, start_t, end_t, laps, records);
    assert(out@ =~= subheader(
        start_date as int,
        start_t as int,
        end_t as int,
        laps as int,
        records as int,
    ));
    proof {
        reveal(subheader);
    }
    out
}

// ── Times ─────────────────────────────────────────────────────────────────────

/// The bits are those of a double that is not a number.
pub open spec fn is_nan(bits: int) -> bool {
    bits % 0x8000_0000_0000_0000 > 0x7ff0_0000_0000_0000
}

/// An integer that orders doubles by their bits as their values are ordered.
/// Both zeros have the key 0.
pub open spec fn order_key(bits: int) -> int {
    if bits < 0x8000_0000_0000_0000 {
        bits
    } else {
        0x8000_0000_0000_0000 - bits
    }
}

/// The double with bits `a` is greater than the double with bits `b`.
pub open spec fn is_later(a: int, b: int) -> bool {
    !is_nan(a) && !is_nan(b) && order_key(a) > order_key(b)
}

/// Tells whether the double with bits `a` is greater than that with bits `b`.
pub fn later(a: u64, b: u64) -> (r: bool)
    ensures
        r == is_later(a as int, b as int),
        a <= 0x7ff0_0000_0000_0000 && b <= 0x7ff0_0000_0000_0000 ==> r == (a > b),
{
    let mag_a: u64 = a % 0x8000_0000_0000_0000;
    let mag_b: u64 = b % 0x8000_0000_0000_0000;
    if mag_a > 0x7ff0_0000_0000_0000 || mag_b > 0x7ff0_0000_0000_0000 {
        return false;
    }
    let neg_a: bool = a >= 0x8000_0000_0000_0000;
    let neg_b: bool = b >= 0x8000_0000_0000_0000;
    if neg_a {
        neg_b && mag_a < mag_b
    } else if neg_b {
        mag_a > 0 || mag_b > 0
    } else {
        mag_a > mag_b
    }
}

// ── Recording ─────────────────────────────────────────────────────────────────

/// An open file: what it records and the statistics it will be finished with.
#[derive(Clone, Copy)]
pub struct OpenIbt {
    pub layout: MapLayout,
    /// Start of the session in seconds since 1970.
    pub start_date: i64,
    pub record_count: i32,
    /// First session time, as the bits of a double.
    pub start_time: u64,
    /// Highest session time, as the bits of a double.
    pub end_time: u64,
    pub lap_count: i32,
    pub last_lap: i32,
    pub last_tick: i32,
}

/// The number after `v`; after the highest comes the lowest.
pub open spec fn following(v: i32) -> i32 {
    if v == i32::MAX {
        i32::MIN
    } else {
        (v + 1) as i32
    }
}

/// The number before `v`; before the lowest comes the highest.
pub open spec fn preceding(v: i32) -> i32 {
    if v == i32::MIN {
        i32::MAX
    } else {
        (v - 1) as i32
    }
}

/// Where `len` bytes lie in a row, if the offset is known and they fit.
pub open spec fn column(offset: Option<i32>, len: int, row: Seq<u8>) -> Option<int> {
    match offset {
        Some(o) => if 0 <= o && o + len <= row.len() {
            Some(o as int)
        } else {
            None
        },
        None => None,
    }
}

impl OpenIbt {
    /// A file without records.
    pub open spec fn fresh(layout: MapLayout, start_date: i64) -> OpenIbt {
        OpenIbt {
            layout,
            start_date,
            record_count: 0,
            start_time: 0,
            end_time: 0,
            lap_count: 0,
            last_lap: i32::MIN,
            last_tick: i32::MIN,
        }
    }

    /// The map's tick is ahead of the last one.
    pub open spec fn ticks(self, map: Seq<u8>) -> bool {
        match irsdk::active_slot(map) {
            Some((tick, offset)) => tick > self.last_tick,
            None => false,
        }
    }

    /// The file after it has seen the map's tick.
    pub open spec fn observed(self, map: Seq<u8>) -> OpenIbt {
        if self.ticks(map) {
            let (tick, offset) = irsdk::active_slot(map).unwrap();
            OpenIbt { last_tick: tick as i32, ..self }
        } else {
            self
        }
    }

    /// The row that the map adds to the file: its newest buffer, if the tick
    /// advanced and the buffer lies inside the map.
    pub open spec fn row_of(self, map: Seq<u8>) -> Option<Seq<u8>> {
        if self.ticks(map) {
            let (tick, offset) = irsdk::active_slot(map).unwrap();
            if 0 <= offset && 0 <= self.layout.buf_len && offset + self.layout.buf_len
                <= map.len() {
                Some(map.subrange(offset, offset + self.layout.buf_len))
            } else {
                None
            }
        } else {
            None
        }
    }

    /// The file after a new state of the map: where it gives a row, that is
    /// appended.
    pub open spec fn updated(self, map: Seq<u8>) -> OpenIbt {
        match self.row_of(map) {
            Some(row) => self.observed(map).with_row(row),
            None => self.observed(map),
        }
    }

    /// The session time in a row.
    pub open spec fn time_in(self, row: Seq<u8>) -> Option<int> {
        match column(self.layout.session_time_row_off, 8, row) {
            Some(o) => Some(wire::u64_at(row, o)),
            None => None,
        }
    }

    /// The lap in a row.
    pub open spec fn lap_in(self, row: Seq<u8>) -> Option<int> {
        match column(self.layout.lap_row_off, 4, row) {
            Some(o) => Some(wire::i32_at(row, o)),
            None => None,
        }
    }

    /// The file with one more record: the first one sets the start time, a
    /// later time moves the end, and a higher lap counts.
    pub open spec fn with_row(self, row: Seq<u8>) -> OpenIbt {
        let count = following(self.record_count);
        let (start_time, end_time) = match self.time_in(row) {
            Some(t) => if count == 1 {
                (t as u64, t as u64)
            } else if is_later(t, self.end_time as int) {
                (self.start_time, t as u64)
            } else {
                (self.start_time, self.end_time)
            },
            None => (self.start_time, self.end_time),
        };
        let (lap_count, last_lap) = match self.lap_in(row) {
            Some(lap) => {
                let last = if count == 1 {
                    preceding(lap as i32)
                } else {
                    self.last_lap
                };
                if lap > last {
                    (following(self.lap_count), lap as i32)
                } else {
                    (self.lap_count, last)
                }
            },
            None => (self.lap_count, self.last_lap),
        };
        OpenIbt { record_count: count, start_time, end_time, lap_count, last_lap, ..self }
    }

    /// The tick that the finished file carries.
    pub open spec fn final_tick(self) -> i32 {
        if self.record_count > 0 && self.last_tick != i32::MIN {
            self.last_tick
        } else {
            0
        }
    }

    /// The subheader of the finished file.
    pub open spec fn final_subheader(self) -> Seq<u8> {
        subheader(
            self.start_date as int,
            self.start_time as int,
            self.end_time as int,
            self.lap_count as int,
            self.record_count as int,
        )
    }
}

/// What is still to be written to a file before it is closed.
pub struct Closing {
    /// Goes to the tick count of the header's only buffer.
    pub final_tick: i32,
    /// Goes to the place of the subheader.
    pub subheader: Vec<u8>,
    pub record_count: i32,
    pub lap_count: i32,
}

impl Closing {
    /// These are the closing values of `file`.
    pub open spec fn closes(&self, file: OpenIbt) -> bool {
        &&& self.final_tick == file.final_tick()
        &&& self.subheader@ == file.final_subheader()
        &&& self.record_count == file.record_count
        &&& self.lap_count == file.lap_count
    }
}

/// What a new state of the map asks for.
pub enum Update {
    /// The map is not that of a connected session.
    Ignored,
    /// The file that is open goes on.
    Append,
    /// No file is open: one is to be started.
    Start(MapLayout),
    /// The session changed: the file that was open is to be closed and another
    /// one started.
    Roll(Closing, MapLayout),
}

/// Decides what goes into `.ibt` files, one per connected session.
pub struct IbtWriter {
    /// The file that is being written.
    pub open: Option<OpenIbt>,
}

impl IbtWriter {
    /// A writer with no file open.
    pub fn new() -> (w: IbtWriter)
        ensures
            w.open is None,
    {
        IbtWriter { open: None }
    }

    /// To be called with the map after every change of it, and then
    /// [`append_row`](IbtWriter::append_row) unless the answer is `Ignored`.
    pub fn on_map_update(&mut self, map: &[u8]) -> (r: Update)
        ensures
            match layout_of(map@) {
                None => r is Ignored && final(self).open == old(self).open,
                Some(layout) => match old(self).open {
                    None => r == Update::Start(layout) && final(self).open is None,
                    Some(file) => if file.layout.session_info_update
                        == layout.session_info_update {
                        r is Append && final(self).open == old(self).open
                    } else {
                        &&& r matches Update::Roll(closing, next)
                        &&& closing.closes(file)
                        &&& next == layout
                        &&& final(self).open is None
                    },
                },
            },
    {
        let layout = match MapLayout::parse(map) {
            Some(l) => l,
            None => {
                return Update::Ignored;
            },
        };
        match self.open {
            None => Update::Start(layout),
            Some(file) => {
                if file.layout.session_info_update == layout.session_info_update {
                    Update::Append
                } else {
                    match self.finish() {
                        Some(closing) => Update::Roll(closing, layout),
                        None => Update::Start(layout),
                    }
                }
            },
        }
    }

    /// A file was started and its prefix written.
    pub fn start_session(&mut self, layout: MapLayout, start_date: i64)
        ensures
            final(self).open == Some(OpenIbt::fresh(layout, start_date)),
    {
        self.open = Some(
            OpenIbt {
                layout,
                start_date,
                record_count: 0,
                start_time: 0,
                end_time: 0,
                lap_count: 0,
                last_lap: i32::MIN,
                last_tick: i32::MIN,
            },
        );
    }

    /// The row to append to the file, if the map's tick advanced. A tick whose
    /// buffer does not lie inside the map is passed over.
    pub fn append_row<'a>(&mut self, map: &'a [u8]) -> (r: Option<&'a [u8]>)
        ensures
            match old(self).open {
                None => r is None && final(self).open is None,
                Some(file) => {
                    &&& final(self).open == Some(file.observed(map@))
                    &&& match r {
                        Some(row) => file.row_of(map@) == Some(row@),
                        None => file.row_of(map@) is None,
                    }
                },
            },
    {
        let mut file = match self.open {
            Some(f) => f,
            None => {
                return None;
            },
        };
        let (tick, offset): (i32, i32) = match irsdk::active_varbuf(map) {
            Some(slot) => slot,
            None => {
                return None;
            },
        };
        if tick <= file.last_tick {
            return None;
        }
        let buf_len: i32 = file.layout.buf_len;
        file.last_tick = tick;
        self.open = Some(file);
        if offset < 0 || buf_len < 0 || offset as u64 + buf_len as u64 > map.len() as u64 {
            return None;
        }
        Some(&map[offset as usize..offset as usize + buf_len as usize])
    }

    /// The row was appended to the file.
    pub fn row_written(&mut self, row: &[u8])
        ensures
            final(self).open == match old(self).open {
                Some(file) => Some(file.with_row(row@)),
                None => None,
            },
    {
        let mut file = match self.open {
            Some(f) => f,
            None => {
                return;
            },
        };
        file.record_count = if file.record_count == i32::MAX {
            i32::MIN
        } else {
            file.record_count + 1
        };
        match file.layout.session_time_row_off {
            Some(off) => {
                if off >= 0 && row.len() >= 8 && off as usize <= row.len() - 8 {
                    let t: u64 = wire::rd_u64(row, off as usize);
                    if file.record_count == 1 {
                        file.start_time = t;
                        file.end_time = t;
                    } else if later(t, file.end_time) {
                        file.end_time = t;
                    }
                }
            },
            None => {},
        }
        match file.layout.lap_row_off {
            Some(off) => {
                if off >= 0 && row.len() >= 4 && off as usize <= row.len() - 4 {
                    let lap: i32 = wire::rd_i32(row, off as usize);
                    if file.record_count == 1 {
                        file.last_lap = if lap == i32::MIN {
                            i32::MAX
                        } else {
                            lap - 1
                        };
                    }
                    if lap > file.last_lap {
                        file.lap_count = if file.lap_count == i32::MAX {
                            i32::MIN
                        } else {
                            file.lap_count + 1
                        };
                        file.last_lap = lap;
                    }
                }
            },
            None => {},
        }
        self.open = Some(file);
    }

    /// Finishes the file that is open. To be called on a stale timeout and on
    /// shutdown too.
    pub fn finish(&mut self) -> (r: Option<Closing>)
        ensures
            final(self).open is None,
            match old(self).open {
                Some(file) => r matches Some(closing) && closing.closes(file),
                None => r is None,
            },
            old(self).open matches Some(file) ==> {
                &&& r matches Some(closing)
                &&& closing.record_count == file.record_count
                &&& closing.lap_count == file.lap_count
                &&& closing.final_tick == file.final_tick()
                &&& closing.subheader@ == subheader(
                    file.start_date as int,
                    file.start_time as int,
                    file.end_time as int,
                    file.lap_count as int,
                    file.record_count as int,
                )
            },
    {
        let file = match self.open {
            Some(f) => f,
            None => {
                return None;
            },
        };
        self.open = None;
        let subheader = subheader_bytes(
            file.start_date,
            file.start_time,
            file.end_time,
            file.lap_count,
            file.record_count,
        );
        let final_tick: i32 = if file.record_count > 0 && file.last_tick != i32::MIN {
            file.last_tick
        } else {
            0
        };
        Some(
            Closing {
                final_tick,
                subheader,
                record_count: file.record_count,
                lap_count: file.lap_count,
            },
        )
    }
}

// ── File names ────────────────────────────────────────────────────────────────

/// How many names are tried for one file.
pub const NAME_ATTEMPTS: u32 = 100;

/// The name tried at an attempt: without a suffix at first, then with the
/// number of the attempt in two digits.
pub open spec fn name_at(stamp: int, attempt: int) -> Seq<char> {
    "telemetry_"@ + text::signed_decimal(stamp) + if attempt == 0 {
        Seq::empty()
    } else {
        "_"@ + seq![text::digit(attempt / 10), text::digit(attempt % 10)]
    } + ".ibt"@
}

/// The file name to try at an attempt. `None` once all have been tried.
pub fn file_name(stamp: i64, attempt: u32) -> (r: Option<String>)
    ensures
        match r {
            Some(name) => attempt < NAME_ATTEMPTS && name@ == name_at(
                stamp as int,
                attempt as int,
            ),
            None => attempt >= NAME_ATTEMPTS,
        },
        r is Some <==> attempt < 100,
{
    if attempt >= NAME_ATTEMPTS {
        return None;
    }
    let mut name = String::new();
    name.append("telemetry_");
    if stamp < 0 {
        name.append("-");
        text::append_decimal(&mut name, (-(stamp + 1)) as u64 + 1);
    } else {
        text::append_decimal(&mut name, stamp as u64);
    }
    assert(name@ =~= "telemetry_"@ + text::signed_decimal(stamp as int));
    if attempt > 0 {
        name.append("_");
        name.append(text::digit_str(attempt as u64 / 10));
        name.append(text::digit_str(attempt as u64 % 10));
    }
    name.append(".ibt");
    assert(name@ =~= name_at(stamp as int, attempt as int));
    Some(name)
}

/// No two attempts have the same name.
pub proof fn names_differ(stamp: int, a: int, b: int)
    requires
        0 <= a < b < NAME_ATTEMPTS,
    ensures
        name_at(stamp, a) != name_at(stamp, b),
{
    let head = "telemetry_"@ + text::signed_decimal(stamp);
    let tail = ".ibt"@;
    reveal_strlit("_");
    if a == 0 {
        assert(name_at(stamp, a).len() + 3 == name_at(stamp, b).len());
    } else {
        let n = head.len() as int;
        assert(name_at(stamp, a)[n + 1] == text::digit(a / 10));
        assert(name_at(stamp, a)[n + 2] == text::digit(a % 10));
        assert(name_at(stamp, b)[n + 1] == text::digit(b / 10));
        assert(name_at(stamp, b)[n + 2] == text::digit(b % 10));
    }
}

// ── Laws ──────────────────────────────────────────────────────────────────────

/// The file after the rows.
pub open spec fn with_rows(file: OpenIbt, rows: Seq<Seq<u8>>) -> OpenIbt
    decreases rows.len(),
{
    if rows.len() == 0 {
        file
    } else {
        with_rows(file, rows.drop_last()).with_row(rows.last())
    }
}

/// The rows, one after another.
pub open spec fn concat(rows: Seq<Seq<u8>>) -> Seq<u8>
    decreases rows.len(),
{
    if rows.len() == 0 {
        Seq::empty()
    } else {
        concat(rows.drop_last()) + rows.last()
    }
}

/// The bytes of a file that was started from `map`, given `rows` and closed.
pub open spec fn finished(
    map: Seq<u8>,
    layout: MapLayout,
    start_date: i64,
    rows: Seq<Seq<u8>>,
    last_tick: i32,
) -> Seq<u8> {
    let file = OpenIbt { last_tick, ..with_rows(OpenIbt::fresh(layout, start_date), rows) };
    let written = prefix_bytes(map, layout, start_date as int) + concat(rows);
    protocol::overwritten(
        protocol::overwritten(
            written,
            OFF_VARBUF as int,
            wire::u32_bytes(file.final_tick() as int),
        ),
        IRSDK_HEADER_SIZE as int,
        file.final_subheader(),
    )
}

/// A finished file is its header, the final statistics, the map's descriptors
/// and session YAML as they were, and the rows.
pub proof fn finished_file(
    map: Seq<u8>,
    layout: MapLayout,
    start_date: i64,
    rows: Seq<Seq<u8>>,
    last_tick: i32,
)
    requires
        layout_of(map) == Some(layout),
    ensures
        ({
            let file = OpenIbt { last_tick, ..with_rows(OpenIbt::fresh(layout, start_date), rows) };
            finished(map, layout, start_date, rows, last_tick) == header_bytes(
                layout,
                file.final_tick() as int,
            ) + file.final_subheader() + static_part(map, layout) + concat(rows)
        }),
{
    let file = OpenIbt { last_tick, ..with_rows(OpenIbt::fresh(layout, start_date), rows) };
    let tick = file.final_tick() as int;
    lemma_part_lengths(layout, 0, start_date as int, 0, 0, 0, 0);
    lemma_part_lengths(
        layout,
        tick,
        file.start_date as int,
        file.start_time as int,
        file.end_time as int,
        file.lap_count as int,
        file.record_count as int,
    );
    let h0 = header_bytes(layout, 0);
    let h1 = header_bytes(layout, tick);
    assert(protocol::overwritten(h0, OFF_VARBUF as int, wire::u32_bytes(tick)) =~= h1) by {
        reveal(header_bytes);
        let w0 = header_words(layout, 0);
        let w1 = header_words(layout, tick);
        assert forall|i: int| 0 <= i < 112 implies protocol::overwritten(
            h0,
            OFF_VARBUF as int,
            wire::u32_bytes(tick),
        )[i] == h1[i] by {
            let k = i / 4;
            if k != 12 {
                assert(w0[k] == w1[k]);
            } else {
                assert(i % 4 == i - 48);
            }
        }
    }
    let written = prefix_bytes(map, layout, start_date as int) + concat(rows);
    let once = protocol::overwritten(written, OFF_VARBUF as int, wire::u32_bytes(tick));
    assert forall|i: int| 0 <= i < IRSDK_HEADER_SIZE implies once[i] == h1[i] by {
        assert(written[i] == h0[i]);
        assert(protocol::overwritten(h0, OFF_VARBUF as int, wire::u32_bytes(tick))[i] == h1[i]);
    }
    assert(finished(map, layout, start_date, rows, last_tick) =~= h1 + file.final_subheader()
        + static_part(map, layout) + concat(rows));
}

proof fn lemma_concat_len(rows: Seq<Seq<u8>>, len: nat)
    requires
        forall|i: int| 0 <= i < rows.len() ==> #[trigger] rows[i].len() == len,
    ensures
        concat(rows).len() == rows.len() * len,
    decreases rows.len(),
{
    if rows.len() > 0 {
        let before = rows.drop_last();
        lemma_concat_len(before, len);
        assert(rows.last() == rows[rows.len() - 1]);
        assert((before.len() + 1) * len == before.len() * len + len) by (nonlinear_arith);
    } else {
        assert(0 * len == 0) by (nonlinear_arith);
    }
}

/// The records fill the file from the end of the session YAML on, exactly.
pub proof fn file_length(
    map: Seq<u8>,
    layout: MapLayout,
    start_date: i64,
    rows: Seq<Seq<u8>>,
    last_tick: i32,
)
    requires
        layout_of(map) == Some(layout),
        layout.buf_len >= 0,
        forall|i: int| 0 <= i < rows.len() ==> #[trigger] rows[i].len() == layout.buf_len,
    ensures
        finished(map, layout, start_date, rows, last_tick).len() == rows_offset(layout)
            + rows.len() * layout.buf_len,
{
    lemma_concat_len(rows, layout.buf_len as nat);
    lemma_part_lengths(layout, 0, start_date as int, 0, 0, 0, 0);
}

/// A reader of the header finds what the writer put there.
pub proof fn header_reads_back(layout: MapLayout, tick: i32, rest: Seq<u8>)
    requires
        layout.num_vars <= i32::MAX,
        rows_offset(layout) <= i32::MAX,
    ensures
        ({
            let file = header_bytes(layout, tick as int) + rest;
            &&& wire::i32_at(file, OFF_STATUS as int) == STATUS_CONNECTED
            &&& wire::i32_at(file, OFF_SESSIONINFOUPDATE as int) == layout.session_info_update
            &&& wire::i32_at(file, OFF_SESSIONINFOLEN as int) == layout.si_len
            &&& wire::i32_at(file, OFF_SESSIONINFOOFFSET as int) == yaml_offset(layout)
            &&& wire::i32_at(file, OFF_NUMVARS as int) == layout.num_vars
            &&& wire::i32_at(file, OFF_VARHEADEROFFSET as int) == DISK_VARHEADER_OFFSET
            &&& wire::i32_at(file, OFF_NUMBUF as int) == 1
            &&& wire::i32_at(file, OFF_BUFLEN as int) == layout.buf_len
            &&& irsdk::tick_at(file, 0) == tick
            &&& irsdk::offset_at(file, 0) == rows_offset(layout)
        }),
{
    reveal(header_bytes);
    let words = header_words(layout, tick as int);
    wire::lemma_words_read(words, 1, rest);
    wire::lemma_words_read(words, 3, rest);
    wire::lemma_words_read(words, 4, rest);
    wire::lemma_words_read(words, 5, rest);
    wire::lemma_words_read(words, 6, rest);
    wire::lemma_words_read(words, 7, rest);
    wire::lemma_words_read(words, 8, rest);
    wire::lemma_words_read(words, 9, rest);
    wire::lemma_words_read(words, 12, rest);
    wire::lemma_words_read(words, 13, rest);
}

proof fn lemma_variable_moved(
    a: Seq<u8>,
    at_a: int,
    b: Seq<u8>,
    at_b: int,
    n: int,
    name: Seq<u8>,
)
    requires
        0 <= at_a && at_a + n * VARHEADER_SIZE <= a.len(),
        0 <= at_b && at_b + n * VARHEADER_SIZE <= b.len(),
        forall|j: int| 0 <= j < n * VARHEADER_SIZE ==> #[trigger] a[at_a + j] == b[at_b + j],
    ensures
        variable(a, at_a, n, name) == variable(b, at_b, n, name),
    decreases n,
{
    if n > 0 {
        lemma_variable_moved(a, at_a, b, at_b, n - 1, name);
        let k = (n - 1) * VARHEADER_SIZE;
        assert forall|j: int| 0 <= j < VARHEADER_SIZE implies #[trigger] a[at_a + k + j] == b[at_b + k
            + j] by {
            assert(a[at_a + (k + j)] == b[at_b + (k + j)]);
        }
        let field_a = name_field(a, at_a + k);
        let field_b = name_field(b, at_b + k);
        assert forall|j: int| 0 <= j < VH_NAME_LEN implies field_a[j] == field_b[j] by {
            assert(a[at_a + k + (VH_NAME_OFF + j)] == b[at_b + k + (VH_NAME_OFF + j)]);
        }
        assert(field_a =~= field_b);
        assert(a[at_a + k + 0] == b[at_b + k + 0]);
        assert(a[at_a + k + 1] == b[at_b + k + 1]);
        assert(a[at_a + k + 2] == b[at_b + k + 2]);
        assert(a[at_a + k + 3] == b[at_b + k + 3]);
        assert(a[at_a + k + 4] == b[at_b + k + 4]);
        assert(a[at_a + k + 5] == b[at_b + k + 5]);
        assert(a[at_a + k + 6] == b[at_b + k + 6]);
        assert(a[at_a + k + 7] == b[at_b + k + 7]);
    }
}

/// The layout of the file that a map of layout `l` is recorded in: the
/// descriptors and the YAML have moved, and defaults stand for what is missing.
pub open spec fn disk_layout(l: MapLayout) -> MapLayout {
    MapLayout {
        ver: if l.ver != 0 {
            l.ver
        } else {
            IRSDK_VER
        },
        tick_rate: if l.tick_rate != 0 {
            l.tick_rate
        } else {
            DEFAULT_TICK_RATE
        },
        vh_off: DISK_VARHEADER_OFFSET,
        si_off: yaml_offset(l) as usize,
        ..l
    }
}

/// The prefix of a file is itself a map, of the same variables and the same
/// YAML, and the prefix made of it is the same, byte for byte.
pub proof fn prefix_parses_back(map: Seq<u8>, layout: MapLayout, start_date: i64)
    requires
        layout_of(map) == Some(layout),
        rows_offset(layout) <= i32::MAX,
    ensures
        ({
            let prefix = prefix_bytes(map, layout, start_date as int);
            &&& layout_of(prefix) == Some(disk_layout(layout))
            &&& static_part(prefix, disk_layout(layout)) == static_part(map, layout)
            &&& prefix_bytes(prefix, disk_layout(layout), start_date as int) == prefix
        }),
{
    let prefix = prefix_bytes(map, layout, start_date as int);
    let head = header_bytes(layout, 0);
    let sub = subheader(start_date as int, 0, 0, 0, 0);
    let body = static_part(map, layout);
    let disk = disk_layout(layout);
    let n = layout.num_vars as int;
    lemma_part_lengths(layout, 0, start_date as int, 0, 0, 0, 0);
    header_reads_back(layout, 0, sub + body);
    assert(prefix =~= head + (sub + body));
    assert(wire::i32_at(prefix, OFF_VER as int) == disk.ver && wire::i32_at(
        prefix,
        OFF_TICKRATE as int,
    ) == disk.tick_rate && prefix[OFF_STATUS as int] == 1) by {
        reveal(header_bytes);
        let words = header_words(layout, 0);
        wire::lemma_words_read(words, 0, sub + body);
        wire::lemma_words_read(words, 2, sub + body);
        assert(prefix[4] == wire::u32_bytes(words[1])[0]);
    }
    assert forall|j: int| 0 <= j < body.len() implies #[trigger] prefix[DISK_VARHEADER_OFFSET + j]
        == body[j] by {}
    assert forall|j: int| 0 <= j < n * VARHEADER_SIZE implies #[trigger] map[layout.vh_off + j]
        == prefix[DISK_VARHEADER_OFFSET + j] by {
        assert(body[j] == map[layout.vh_off + j]);
    }
    lemma_variable_moved(
        map,
        layout.vh_off as int,
        prefix,
        DISK_VARHEADER_OFFSET as int,
        n,
        vstd::utf8::encode_utf8("SessionTime"@),
    );
    lemma_variable_moved(
        map,
        layout.vh_off as int,
        prefix,
        DISK_VARHEADER_OFFSET as int,
        n,
        vstd::utf8::encode_utf8("Lap"@),
    );
    assert(layout_of(prefix) == Some(disk));
    assert(static_part(prefix, disk) =~= body);
    assert(header_bytes(disk, 0) == head) by {
        reveal(header_bytes);
        assert(header_words(disk, 0) =~= header_words(layout, 0));
    }
}

/// A reader of the subheader finds the statistics that the file was finished
/// with.
pub proof fn statistics_read_back(file: OpenIbt, header: Seq<u8>, rest: Seq<u8>)
    requires
        header.len() == IRSDK_HEADER_SIZE,
        file.start_date >= 0,
    ensures
        ({
            let bytes = header + file.final_subheader() + rest;
            &&& wire::u64_at(bytes, 112) == file.start_date
            &&& wire::u64_at(bytes, 120) == file.start_time
            &&& wire::u64_at(bytes, 128) == file.end_time
            &&& wire::i32_at(bytes, 136) == file.lap_count
            &&& wire::i32_at(bytes, 140) == file.record_count
        }),
{
    reveal(subheader);
    let bytes = header + file.final_subheader() + rest;
    wire::lemma_u64_round_trip(file.start_date as int);
    wire::lemma_u64_round_trip(file.start_time as int);
    wire::lemma_u64_round_trip(file.end_time as int);
    wire::lemma_i32_round_trip(file.lap_count as int);
    wire::lemma_i32_round_trip(file.record_count as int);
    assert(wire::u64_at(bytes, 112) == wire::u64_at(wire::u64_bytes(file.start_date as int), 0));
    assert(wire::u64_at(bytes, 120) == wire::u64_at(wire::u64_bytes(file.start_time as int), 0));
    assert(wire::u64_at(bytes, 128) == wire::u64_at(wire::u64_bytes(file.end_time as int), 0));
    assert(wire::i32_at(bytes, 136) == wire::i32_at(wire::u32_bytes(file.lap_count as int), 0));
    assert(wire::i32_at(bytes, 140) == wire::i32_at(wire::u32_bytes(file.record_count as int), 0));
}

/// A map that is seen twice adds one row.
pub proof fn same_tick_is_recorded_once(file: OpenIbt, map: Seq<u8>)
    ensures
        file.observed(map).row_of(map) is None,
        file.observed(map).observed(map) == file.observed(map),
{
}

/// A map whose tick did not advance, because it went back or stands still, adds
/// nothing.
pub proof fn older_tick_adds_nothing(file: OpenIbt, map: Seq<u8>)
    requires
        irsdk::active_slot(map) matches Some((tick, offset)) ==> tick <= file.last_tick,
    ensures
        file.row_of(map) is None,
        file.updated(map) == file,
{
}

/// The file after the maps, one after another.
pub open spec fn recorded(file: OpenIbt, maps: Seq<Seq<u8>>) -> OpenIbt
    decreases maps.len(),
{
    if maps.len() == 0 {
        file
    } else {
        recorded(file, maps.drop_last()).updated(maps.last())
    }
}

/// The tick count of a map's newest slot.
pub open spec fn tick_of(map: Seq<u8>) -> int {
    irsdk::active_slot(map).unwrap().0
}

/// The newest buffer of a map, `len` bytes long.
pub open spec fn newest_row(map: Seq<u8>, len: int) -> Seq<u8> {
    let offset = irsdk::active_slot(map).unwrap().1;
    map.subrange(offset, offset + len)
}

/// The newest buffers of the maps.
pub open spec fn newest_rows(maps: Seq<Seq<u8>>, len: int) -> Seq<Seq<u8>> {
    Seq::new(maps.len(), |k: int| newest_row(maps[k], len))
}

/// The newest buffer of a map lies inside it.
pub open spec fn has_row(map: Seq<u8>, len: int) -> bool {
    irsdk::active_slot(map) matches Some((tick, offset)) && 0 <= offset && offset + len
        <= map.len()
}

/// Maps whose ticks rise each add the newest buffer to the file.
pub proof fn rising_ticks_are_recorded(file: OpenIbt, maps: Seq<Seq<u8>>)
    requires
        file.layout.buf_len >= 0,
        forall|k: int|
            0 <= k < maps.len() ==> has_row(#[trigger] maps[k], file.layout.buf_len as int),
        forall|k: int| 0 <= k < maps.len() ==> tick_of(#[trigger] maps[k]) > file.last_tick,
        forall|j: int, k: int|
            0 <= j < k < maps.len() ==> tick_of(#[trigger] maps[j]) < tick_of(#[trigger] maps[k]),
    ensures
        recorded(file, maps) == (OpenIbt {
            last_tick: if maps.len() == 0 {
                file.last_tick
            } else {
                tick_of(maps.last()) as i32
            },
            ..with_rows(file, newest_rows(maps, file.layout.buf_len as int))
        }),
        recorded(file, maps).layout == file.layout,
    decreases maps.len(),
{
    let len = file.layout.buf_len as int;
    let rows = newest_rows(maps, len);
    if maps.len() > 0 {
        let before = maps.drop_last();
        let last = maps.len() - 1;
        let prior = recorded(file, before);
        assert forall|k: int| 0 <= k < before.len() implies #[trigger] before[k] == maps[k] by {}
        rising_ticks_are_recorded(file, before);
        assert(rows.drop_last() =~= newest_rows(before, len));
        assert(has_row(maps[last], len));
        assert(tick_of(maps[last]) > file.last_tick);
        if before.len() > 0 {
            assert(tick_of(maps[last - 1]) < tick_of(maps[last]));
            assert(before.last() == maps[last - 1]);
        }
        assert(prior.row_of(maps[last]) == Some(rows[last]));
    }
}

/// The records are counted.
pub proof fn records_are_counted(layout: MapLayout, start_date: i64, rows: Seq<Seq<u8>>)
    requires
        rows.len() <= i32::MAX,
    ensures
        with_rows(OpenIbt::fresh(layout, start_date), rows).record_count == rows.len(),
        with_rows(OpenIbt::fresh(layout, start_date), rows).layout == layout,
        with_rows(OpenIbt::fresh(layout, start_date), rows).start_date == start_date,
    decreases rows.len(),
{
    if rows.len() > 0 {
        records_are_counted(layout, start_date, rows.drop_last());
    }
}

/// The start time is that of the first record; the end time is that of some
/// record, and no record is later.
pub proof fn times_span_the_records(layout: MapLayout, start_date: i64, rows: Seq<Seq<u8>>)
    requires
        1 <= rows.len() <= i32::MAX,
        forall|i: int|
            0 <= i < rows.len() ==> OpenIbt::fresh(layout, start_date).time_in(
                #[trigger] rows[i],
            ) is Some,
    ensures
        ({
            let fresh = OpenIbt::fresh(layout, start_date);
            let file = with_rows(fresh, rows);
            &&& fresh.time_in(rows[0]) == Some(file.start_time as int)
            &&& exists|i: int|
                0 <= i < rows.len() && fresh.time_in(#[trigger] rows[i]) == Some(
                    file.end_time as int,
                )
            &&& forall|i: int|
                0 <= i < rows.len() ==> !is_later(
                    fresh.time_in(#[trigger] rows[i]).unwrap(),
                    file.end_time as int,
                )
        }),
    decreases rows.len(),
{
    let fresh = OpenIbt::fresh(layout, start_date);
    let before = rows.drop_last();
    let last = rows.len() - 1;
    records_are_counted(layout, start_date, before);
    let prior = with_rows(fresh, before);
    let file = with_rows(fresh, rows);
    assert(rows.last() == rows[last]);
    assert(prior.time_in(rows.last()) == fresh.time_in(rows[last]));
    if before.len() > 0 {
        assert forall|i: int| 0 <= i < before.len() implies fresh.time_in(
            #[trigger] before[i],
        ) is Some by {
            assert(before[i] == rows[i]);
        }
        times_span_the_records(layout, start_date, before);
        assert(before[0] == rows[0]);
        let w = choose|i: int|
            0 <= i < before.len() && fresh.time_in(#[trigger] before[i]) == Some(
                prior.end_time as int,
            );
        assert(before[w] == rows[w]);
        assert(fresh.time_in(rows[w]) == Some(prior.end_time as int));
        assert forall|i: int| 0 <= i < rows.len() implies !is_later(
            fresh.time_in(#[trigger] rows[i]).unwrap(),
            file.end_time as int,
        ) by {
            if i < last {
                assert(before[i] == rows[i]);
            }
        }
    } else {
        assert(prior == fresh);
    }
}

/// The lap of a row.
spec fn lap_of(layout: MapLayout, row: Seq<u8>) -> int {
    OpenIbt::fresh(layout, 0).lap_in(row).unwrap()
}

/// How many rows are on a higher lap than all rows before them. The first row
/// is one of them.
pub open spec fn laps_begun(layout: MapLayout, rows: Seq<Seq<u8>>) -> nat
    decreases rows.len(),
{
    if rows.len() == 0 {
        0
    } else {
        let fresh = OpenIbt::fresh(layout, 0);
        laps_begun(layout, rows.drop_last()) + if forall|j: int|
            0 <= j < rows.len() - 1 ==> fresh.lap_in(#[trigger] rows[j]).unwrap() < fresh.lap_in(
                rows.last(),
            ).unwrap() {
            1nat
        } else {
            0nat
        }
    }
}

proof fn lemma_laps(layout: MapLayout, start_date: i64, rows: Seq<Seq<u8>>)
    requires
        1 <= rows.len() <= i32::MAX,
        forall|i: int|
            0 <= i < rows.len() ==> OpenIbt::fresh(layout, 0).lap_in(#[trigger] rows[i]) is Some,
        lap_of(layout, rows[0]) != i32::MIN,
    ensures
        ({
            let file = with_rows(OpenIbt::fresh(layout, start_date), rows);
            &&& file.lap_count == laps_begun(layout, rows) <= rows.len()
            &&& exists|i: int|
                0 <= i < rows.len() && lap_of(layout, #[trigger] rows[i]) == file.last_lap
            &&& forall|i: int|
                0 <= i < rows.len() ==> lap_of(layout, #[trigger] rows[i]) <= file.last_lap
        }),
    decreases rows.len(),
{
    let fresh = OpenIbt::fresh(layout, start_date);
    let before = rows.drop_last();
    let last = rows.len() - 1;
    records_are_counted(layout, start_date, before);
    let prior = with_rows(fresh, before);
    let file = with_rows(fresh, rows);
    assert(rows.last() == rows[last]);
    assert(prior.lap_in(rows.last()) == Some(lap_of(layout, rows[last])));
    if before.len() > 0 {
        assert forall|i: int| 0 <= i < before.len() implies OpenIbt::fresh(layout, 0).lap_in(
            #[trigger] before[i],
        ) is Some by {
            assert(before[i] == rows[i]);
        }
        assert(before[0] == rows[0]);
        lemma_laps(layout, start_date, before);
        let w = choose|i: int|
            0 <= i < before.len() && lap_of(layout, #[trigger] before[i]) == prior.last_lap;
        assert(before[w] == rows[w]);
        assert(lap_of(layout, rows[w]) == prior.last_lap);
        assert forall|i: int| 0 <= i < rows.len() implies lap_of(layout, #[trigger] rows[i])
            <= file.last_lap by {
            if i < last {
                assert(before[i] == rows[i]);
            }
        }
        if lap_of(layout, rows[last]) > prior.last_lap {
            assert forall|j: int| 0 <= j < rows.len() - 1 implies OpenIbt::fresh(layout, 0).lap_in(
                #[trigger] rows[j],
            ).unwrap() < OpenIbt::fresh(layout, 0).lap_in(rows.last()).unwrap() by {
                assert(before[j] == rows[j]);
            }
        }
    } else {
        assert(prior == fresh);
        assert(laps_begun(layout, before) == 0);
    }
}

/// The lap count is the number of laps begun while recording, the first one
/// included. It needs a first lap that has a number before it.
pub proof fn laps_are_counted(layout: MapLayout, start_date: i64, rows: Seq<Seq<u8>>)
    requires
        1 <= rows.len() <= i32::MAX,
        forall|i: int|
            0 <= i < rows.len() ==> OpenIbt::fresh(layout, 0).lap_in(#[trigger] rows[i]) is Some,
        OpenIbt::fresh(layout, 0).lap_in(rows[0]) != Some(i32::MIN as int),
    ensures
        with_rows(OpenIbt::fresh(layout, start_date), rows).lap_count == laps_begun(layout, rows),
{
    lemma_laps(layout, start_date, rows);
}

/// Doubles that are not negative are ordered as their bits are, and negative
/// ones the other way round; a negative one is never later than one that is not,
/// and both zeros are equal. What is not a number is neither later nor earlier.
pub proof fn doubles_are_ordered_by_their_bits(a: u64, b: u64)
    ensures
        a <= 0x7ff0_0000_0000_0000 && b <= 0x7ff0_0000_0000_0000 ==> (is_later(a as int, b as int)
            <==> a > b),
        0x8000_0000_0000_0000 <= a <= 0xfff0_0000_0000_0000 && 0x8000_0000_0000_0000 <= b
            <= 0xfff0_0000_0000_0000 ==> (is_later(a as int, b as int) <==> a < b),
        a <= 0x7ff0_0000_0000_0000 && 0x8000_0000_0000_0000 <= b <= 0xfff0_0000_0000_0000 ==> (
        is_later(a as int, b as int) <==> !(a == 0 && b == 0x8000_0000_0000_0000)),
        a >= 0x8000_0000_0000_0000 && b < 0x8000_0000_0000_0000 ==> !is_later(a as int, b as int),
        0x7ff0_0000_0000_0000 < a < 0x8000_0000_0000_0000 || a > 0xfff0_0000_0000_0000
            ==> !is_later(a as int, b as int) && !is_later(b as int, a as int),
{
}

/// Of rows with finite times that are not negative, the end time is the highest,
/// as bits and so as a double.
pub proof fn end_time_is_the_highest(
    layout: MapLayout,
    start_date: i64,
    rows: Seq<Seq<u8>>,
    at: int,
)
    requires
        1 <= rows.len() <= i32::MAX,
        layout.session_time_row_off == Some(at as i32),
        0 <= at <= i32::MAX,
        forall|i: int|
            #![trigger rows[i]]
            0 <= i < rows.len() ==> at + 8 <= rows[i].len() && wire::u64_at(rows[i], at)
                < 0x7ff0_0000_0000_0000,
    ensures
        ({
            let file = with_rows(OpenIbt::fresh(layout, start_date), rows);
            &&& file.start_time == wire::u64_at(rows[0], at)
            &&& forall|i: int|
                0 <= i < rows.len() ==> wire::u64_at(#[trigger] rows[i], at) <= file.end_time
            &&& exists|i: int|
                0 <= i < rows.len() && wire::u64_at(#[trigger] rows[i], at) == file.end_time
        }),
{
    let fresh = OpenIbt::fresh(layout, start_date);
    assert forall|i: int| 0 <= i < rows.len() implies fresh.time_in(#[trigger] rows[i]) == Some(
        wire::u64_at(rows[i], at),
    ) by {}
    times_span_the_records(layout, start_date, rows);
    let file = with_rows(fresh, rows);
    let w = choose|i: int|
        0 <= i < rows.len() && fresh.time_in(#[trigger] rows[i]) == Some(file.end_time as int);
    assert(wire::u64_at(rows[w], at) == file.end_time);
    assert(file.end_time < 0x7ff0_0000_0000_0000);
    assert forall|i: int| 0 <= i < rows.len() implies wire::u64_at(#[trigger] rows[i], at)
        <= file.end_time by {
        wire::numbers_are_little_endian(rows[i], at);
        let t = wire::u64_at(rows[i], at) as u64;
        assert(!is_later(fresh.time_in(rows[i]).unwrap(), file.end_time as int));
        doubles_are_ordered_by_their_bits(t, file.end_time);
    }
    assert(fresh.time_in(rows[0]) == Some(wire::u64_at(rows[0], at)));
}

/// The field of descriptor `i`, 32 bytes from byte 16 of it on, holds `name` and
/// nothing else.
pub open spec fn is_called(map: Seq<u8>, vh_off: int, i: int, name: Seq<u8>) -> bool {
    let field = vh_off + 144 * i + 16;
    &&& vh_off + 144 * i + 144 <= map.len()
    &&& name.len() <= 32
    &&& forall|k: int| 0 <= k < name.len() ==> map[field + k] == #[trigger] name[k]
    &&& !name.contains(0)
    &&& name.len() < 32 ==> map[field + name.len()] == 0
}

proof fn lemma_is_called(map: Seq<u8>, vh_off: int, i: int, name: Seq<u8>)
    requires
        0 <= vh_off,
        0 <= i,
    ensures
        is_called(map, vh_off, i, name) == describes(map, vh_off, i, name),
{
    if vh_off + 144 * i + 144 <= map.len() {
        let base = vh_off + i * VARHEADER_SIZE;
        let field = name_field(map, base);
        assert forall|k: int| 0 <= k < 32 implies #[trigger] field[k] == map[base + 16 + k] by {}
        if is_called(map, vh_off, i, name) {
            assert forall|k: int| 0 <= k < name.len() implies #[trigger] field[k] == name[k]
                && name[k] != 0 by {
                assert(map[base + 16 + k] == name[k]);
                assert(name.contains(name[k]));
            }
        }
        if describes(map, vh_off, i, name) {
            assert forall|k: int| 0 <= k < name.len() implies map[base + 16 + k]
                == #[trigger] name[k] by {
                assert(field[k] == name[k]);
            }
            if name.contains(0) {
                let k = choose|k: int| 0 <= k < name.len() && name[k] == 0;
                assert(field[k] == name[k]);
            }
            if name.len() < 32 {
                assert(field[name.len() as int] == map[base + 16 + name.len()]);
            }
        }
    }
}

/// A variable is found by the first descriptor that is called so, descriptor
/// `i`, and has the offset and the type that stand there.
pub proof fn variable_is_found(map: Seq<u8>, vh_off: int, n: int, name: Seq<u8>, i: int)
    requires
        0 <= vh_off,
        0 <= i < n,
        is_called(map, vh_off, i, name),
        forall|j: int| 0 <= j < i ==> !#[trigger] is_called(map, vh_off, j, name),
    ensures
        variable(map, vh_off, n, name) == Some(
            (wire::i32_at(map, vh_off + 144 * i + 4), wire::i32_at(map, vh_off + 144 * i)),
        ),
{
    assert forall|j: int| 0 <= j < i implies !describes(map, vh_off, j, name) by {
        assert(!is_called(map, vh_off, j, name));
        lemma_is_called(map, vh_off, j, name);
    }
    lemma_is_called(map, vh_off, i, name);
    lemma_absent(map, vh_off, i, name);
    assert(variable(map, vh_off, i + 1, name) is Some);
    lemma_variable_stays(map, vh_off, i + 1, n, name);
}

proof fn lemma_absent(map: Seq<u8>, vh_off: int, n: int, name: Seq<u8>)
    requires
        forall|j: int| 0 <= j < n ==> !describes(map, vh_off, j, name),
    ensures
        variable(map, vh_off, n, name) is None,
    decreases n,
{
    if n > 0 {
        lemma_absent(map, vh_off, n - 1, name);
    }
}

/// A variable that no descriptor is called after is not found.
pub proof fn other_variables_are_not_found(map: Seq<u8>, vh_off: int, n: int, name: Seq<u8>)
    requires
        0 <= vh_off,
        forall|j: int| 0 <= j < n ==> !#[trigger] is_called(map, vh_off, j, name),
    ensures
        variable(map, vh_off, n, name) is None,
{
    assert forall|j: int| 0 <= j < n implies !describes(map, vh_off, j, name) by {
        assert(!is_called(map, vh_off, j, name));
        lemma_is_called(map, vh_off, j, name);
    }
    lemma_absent(map, vh_off, n, name);
}

/// A map can be recorded if and only if it has a header that shows a connected
/// session, with rows, and with descriptors and a YAML that lie inside it. The
/// layout is what the header says.
pub proof fn layout_is_what_the_header_says(map: Seq<u8>)
    requires
        map.len() >= 112,
    ensures
        ({
            let num_vars = wire::i32_at(map, 24);
            let vh_off = wire::i32_at(map, 28);
            let si_len = wire::i32_at(map, 16);
            let si_off = wire::i32_at(map, 20);
            &&& layout_of(map) is Some <==> {
                &&& map[4] & 1 == 1
                &&& wire::i32_at(map, 36) != 0
                &&& num_vars > 0 && vh_off >= 0 && vh_off + 144 * num_vars <= map.len()
                &&& si_len > 0 && si_off >= 0 && si_off + si_len <= map.len()
            }
            &&& layout_of(map) matches Some(l) ==> {
                &&& l.ver == wire::i32_at(map, 0)
                &&& l.tick_rate == wire::i32_at(map, 8)
                &&& l.session_info_update == wire::i32_at(map, 12)
                &&& l.num_vars == num_vars
                &&& l.buf_len == wire::i32_at(map, 36)
                &&& l.vh_off == vh_off
                &&& l.si_off == si_off
                &&& l.si_len == si_len
                &&& match variable(
                    map,
                    vh_off,
                    num_vars,
                    vstd::utf8::encode_utf8("SessionTime"@),
                ) {
                    Some((o, t)) => l.session_time_row_off == Some(o as i32),
                    None => l.session_time_row_off is None,
                }
                &&& match variable(map, vh_off, num_vars, vstd::utf8::encode_utf8("Lap"@)) {
                    Some((o, t)) => l.lap_row_off == Some(o as i32),
                    None => l.lap_row_off is None,
                }
            }
        }),
{
    let b = map[4];
    assert((b & 1 == 1) == (b % 2 == 1)) by (bit_vector);
    wire::signed_numbers_are_complements(map, 0);
    wire::signed_numbers_are_complements(map, 8);
    wire::signed_numbers_are_complements(map, 12);
    wire::signed_numbers_are_complements(map, 36);
}

/// A map without room for a header cannot be recorded.
pub proof fn short_map_has_no_layout(map: Seq<u8>)
    requires
        map.len() < 112,
    ensures
        layout_of(map) is None,
{
}

/// The part of a file before its rows: 112 bytes of header, 32 of statistics,
/// and then the descriptors and the YAML, byte for byte as the map has them.
pub proof fn prefix_copies_the_map(map: Seq<u8>, l: MapLayout, start_date: i64)
    requires
        l.vh_off + 144 * l.num_vars <= map.len(),
        l.si_off + l.si_len <= map.len(),
    ensures
        ({
            let p = prefix_bytes(map, l, start_date as int);
            let yaml = 144 + 144 * l.num_vars;
            &&& p.len() == yaml + l.si_len
            &&& p.take(112) == header_bytes(l, 0)
            &&& wire::u64_at(p, 112) == (start_date as int) % 0x1_0000_0000_0000_0000
            &&& wire::u64_at(p, 120) == 0 && wire::u64_at(p, 128) == 0 && wire::u64_at(p, 136) == 0
            &&& p.subrange(144, yaml) == map.subrange(l.vh_off as int, l.vh_off + 144 * l.num_vars)
            &&& p.skip(yaml) == map.subrange(l.si_off as int, l.si_off + l.si_len)
        }),
{
    let p = prefix_bytes(map, l, start_date as int);
    let yaml = 144 + 144 * l.num_vars;
    lemma_part_lengths(l, 0, start_date as int, 0, 0, 0, 0);
    let sub = subheader(start_date as int, 0, 0, 0, 0);
    subheader_fields_have_their_places(start_date, 0, 0, 0, 0);
    assert(p.take(112) =~= header_bytes(l, 0));
    assert(wire::u64_at(p, 112) == wire::u64_at(sub, 0));
    assert(wire::u64_at(p, 120) == wire::u64_at(sub, 8));
    assert(wire::u64_at(p, 128) == wire::u64_at(sub, 16));
    assert(wire::u64_at(p, 136) == wire::u64_at(sub, 24));
    wire::signed_numbers_are_complements(sub, 24);
    wire::signed_numbers_are_complements(sub, 28);
    assert(p.subrange(144, yaml) =~= map.subrange(l.vh_off as int, l.vh_off + 144 * l.num_vars));
    assert(p.skip(yaml) =~= map.subrange(l.si_off as int, l.si_off + l.si_len));
}

/// The version and the tick rate are the map's, and 2 and 60 where it has none.
/// What the header does not use is zero.
pub proof fn header_has_version_and_rate(l: MapLayout, tick: i32, i: int)
    ensures
        ({
            let b = header_bytes(l, tick as int);
            &&& b.len() == 112
            &&& wire::i32_at(b, 0) == if l.ver == 0 {
                2
            } else {
                l.ver as int
            }
            &&& wire::i32_at(b, 8) == if l.tick_rate == 0 {
                60
            } else {
                l.tick_rate as int
            }
            &&& 40 <= i < 48 || 56 <= i < 112 ==> b[i] == 0
        }),
{
    reveal(header_bytes);
    let words = header_words(l, tick as int);
    let b = header_bytes(l, tick as int);
    wire::lemma_words_read(words, 0, Seq::empty());
    wire::lemma_words_read(words, 2, Seq::empty());
    assert(b + Seq::<u8>::empty() =~= b);
    if 40 <= i < 48 || 56 <= i < 112 {
        assert(words[i / 4] == 0);
    }
}

/// The session time and the lap of a row stand where the layout says, if they
/// lie inside the row.
pub proof fn row_values_have_their_places(file: OpenIbt, row: Seq<u8>)
    ensures
        file.layout.session_time_row_off matches Some(o) ==> if 0 <= o && o + 8 <= row.len() {
            file.time_in(row) == Some(wire::u64_at(row, o as int))
        } else {
            file.time_in(row) is None
        },
        file.layout.session_time_row_off is None ==> file.time_in(row) is None,
        file.layout.lap_row_off matches Some(o) ==> if 0 <= o && o + 4 <= row.len() {
            file.lap_in(row) == Some(wire::i32_at(row, o as int))
        } else {
            file.lap_in(row) is None
        },
        file.layout.lap_row_off is None ==> file.lap_in(row) is None,
{
}

/// One more row is one more record. It brings its time and its lap, or leaves
/// both as they are; nothing else changes.
pub proof fn row_moves_the_statistics(file: OpenIbt, row: Seq<u8>)
    requires
        0 <= file.record_count < i32::MAX,
        file.lap_count < i32::MAX,
    ensures
        ({
            let next = file.with_row(row);
            let first = file.record_count == 0;
            &&& next.record_count == file.record_count + 1
            &&& next.layout == file.layout
            &&& next.start_date == file.start_date
            &&& next.last_tick == file.last_tick
            &&& file.time_in(row) is None ==> next.start_time == file.start_time && next.end_time
                == file.end_time
            &&& file.time_in(row) matches Some(t) ==> {
                &&& first ==> next.start_time == t as u64 && next.end_time == t as u64
                &&& !first ==> next.start_time == file.start_time
                &&& !first && is_later(t, file.end_time as int) ==> next.end_time == t as u64
                &&& !first && !is_later(t, file.end_time as int) ==> next.end_time == file.end_time
            }
            &&& file.lap_in(row) is None ==> next.lap_count == file.lap_count && next.last_lap
                == file.last_lap
            &&& file.lap_in(row) matches Some(lap) ==> lap > -0x8000_0000 && lap < 0x8000_0000 ==> {
                &&& first || lap > file.last_lap ==> next.lap_count == file.lap_count + 1
                    && next.last_lap == lap
                &&& !first && lap <= file.last_lap ==> next.lap_count == file.lap_count
                    && next.last_lap == file.last_lap
            }
        }),
{
}

/// A finished file carries the last tick, and 0 if it has no rows.
pub proof fn finished_file_has_the_last_tick(file: OpenIbt)
    ensures
        file.record_count > 0 && file.last_tick > i32::MIN ==> file.final_tick() == file.last_tick,
        file.record_count <= 0 || file.last_tick == i32::MIN ==> file.final_tick() == 0,
{
}

/// A new file has counted nothing and has seen no tick.
pub proof fn new_file_is_empty(layout: MapLayout, start_date: i64)
    ensures
        ({
            let file = OpenIbt::fresh(layout, start_date);
            &&& file.layout == layout
            &&& file.start_date == start_date
            &&& file.record_count == 0 && file.lap_count == 0
            &&& file.start_time == 0 && file.end_time == 0
            &&& file.last_tick == -0x8000_0000
        }),
{
}

/// A map whose tick advanced gives the newest buffer, as long as rows are, and
/// moves the tick. One whose buffer does not lie inside it moves the tick only.
pub proof fn new_tick_gives_a_row(file: OpenIbt, map: Seq<u8>)
    requires
        irsdk::active_slot(map) is Some,
        irsdk::active_slot(map).unwrap().0 > file.last_tick,
    ensures
        ({
            let (tick, offset) = irsdk::active_slot(map).unwrap();
            let len = file.layout.buf_len as int;
            &&& file.observed(map).last_tick == tick as i32
            &&& file.observed(map) == (OpenIbt { last_tick: tick as i32, ..file })
            &&& if 0 <= offset && 0 <= len && offset + len <= map.len() {
                file.row_of(map) == Some(map.subrange(offset, offset + len))
            } else {
                file.row_of(map) is None
            }
        }),
{
}

/// A file is called `telemetry_`, then its time in seconds, then from the second
/// attempt on an underscore and the attempt in two digits, then `.ibt`.
pub proof fn file_name_reads_back(stamp: int, attempt: int)
    requires
        0 <= attempt < 100,
    ensures
        ({
            let name = name_at(stamp, attempt);
            let time = text::signed_decimal(stamp);
            let at = 10 + time.len() as int;
            &&& name.take(10) == "telemetry_"@
            &&& name.subrange(10, at) == time
            &&& name.skip(name.len() - 4) == ".ibt"@
            &&& attempt == 0 ==> name.len() == at + 4
            &&& attempt > 0 ==> {
                &&& name.len() == at + 7
                &&& name[at] == '_'
                &&& text::value_of(name.subrange(at + 1, at + 3)) == attempt
            }
        }),
{
    reveal_strlit("telemetry_");
    reveal_strlit("_");
    reveal_strlit(".ibt");
    let name = name_at(stamp, attempt);
    let time = text::signed_decimal(stamp);
    let at = 10 + time.len() as int;
    assert(name.take(10) =~= "telemetry_"@);
    assert(name.subrange(10, at) =~= time);
    assert(name.skip(name.len() - 4) =~= ".ibt"@);
    if attempt > 0 {
        let two = name.subrange(at + 1, at + 3);
        assert(two =~= seq![text::digit(attempt / 10), text::digit(attempt % 10)]);
        assert(two.drop_last() =~= seq![text::digit(attempt / 10)]);
        assert(two.drop_last().drop_last() =~= Seq::<char>::empty());
        assert(text::value_of(Seq::<char>::empty()) == 0);
        assert(text::value_of(two.drop_last()) == attempt / 10);
    }
}

/// The closing values of a file are what it has counted.
pub proof fn closing_says_what_was_counted(closing: Closing, file: OpenIbt)
    requires
        closing.closes(file),
    ensures
        closing.record_count == file.record_count,
        closing.lap_count == file.lap_count,
        closing.final_tick == if file.record_count > 0 && file.last_tick > i32::MIN {
            file.last_tick
        } else {
            0
        },
        closing.subheader@.len() == 32,
        wire::u64_at(closing.subheader@, 0) == (file.start_date as int) % 0x1_0000_0000_0000_0000,
        wire::u64_at(closing.subheader@, 8) == file.start_time,
        wire::u64_at(closing.subheader@, 16) == file.end_time,
        wire::i32_at(closing.subheader@, 24) == file.lap_count,
        wire::i32_at(closing.subheader@, 28) == file.record_count,
{
    subheader_fields_have_their_places(
        file.start_date,
        file.start_time,
        file.end_time,
        file.lap_count,
        file.record_count,
    );
}

/// Every field of the statistics has its place.
pub proof fn subheader_fields_have_their_places(
    start_date: i64,
    start_t: u64,
    end_t: u64,
    laps: i32,
    records: i32,
)
    ensures
        ({
            let b = subheader(
                start_date as int,
                start_t as int,
                end_t as int,
                laps as int,
                records as int,
            );
            &&& b.len() == 32
            &&& wire::u64_at(b, 0) == (start_date as int) % 0x1_0000_0000_0000_0000
            &&& wire::u64_at(b, 8) == start_t
            &&& wire::u64_at(b, 16) == end_t
            &&& wire::i32_at(b, 24) == laps
            &&& wire::i32_at(b, 28) == records
        }),
{
    reveal(subheader);
    let b = subheader(
        start_date as int,
        start_t as int,
        end_t as int,
        laps as int,
        records as int,
    );
    wire::low_64_bits_are_written(start_date as int);
    wire::lemma_u64_round_trip(start_t as int);
    wire::lemma_u64_round_trip(end_t as int);
    wire::lemma_i32_round_trip(laps as int);
    wire::lemma_i32_round_trip(records as int);
    assert(wire::u64_at(b, 0) == wire::u64_at(wire::u64_bytes(start_date as int), 0));
    assert(wire::u64_at(b, 8) == wire::u64_at(wire::u64_bytes(start_t as int), 0));
    assert(wire::u64_at(b, 16) == wire::u64_at(wire::u64_bytes(end_t as int), 0));
    assert(wire::i32_at(b, 24) == wire::i32_at(wire::u32_bytes(laps as int), 0));
    assert(wire::i32_at(b, 28) == wire::i32_at(wire::u32_bytes(records as int), 0));
}

} // verus!
