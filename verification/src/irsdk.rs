//! The shared-memory map of the simulator.
//!
//! The map starts with a 112-byte header of little-endian 32-bit fields. It
//! tells where the variable descriptors and the session YAML lie, and holds a
//! ring of up to four variable buffers. The slot with the highest tick count
//! is the one written last.

use vstd::prelude::*;

use crate::wire;

verus! {

/// Bytes of the map header.
pub const IRSDK_HEADER_SIZE: usize = 112;

/// Header field: version of the layout.
pub const OFF_VER: usize = 0;

/// Header field: status, whose lowest bit means connected.
pub const OFF_STATUS: usize = 4;

/// Header field: ticks per second.
pub const OFF_TICKRATE: usize = 8;

/// Header field: count of changes of the session YAML.
pub const OFF_SESSIONINFOUPDATE: usize = 12;

/// Header field: length of the session YAML.
pub const OFF_SESSIONINFOLEN: usize = 16;

/// Header field: offset of the session YAML.
pub const OFF_SESSIONINFOOFFSET: usize = 20;

/// Header field: number of variables.
pub const OFF_NUMVARS: usize = 24;

/// Header field: offset of the variable descriptors.
pub const OFF_VARHEADEROFFSET: usize = 28;

/// Header field: number of variable buffers.
pub const OFF_NUMBUF: usize = 32;

/// Header field: length of one variable buffer.
pub const OFF_BUFLEN: usize = 36;

/// The ring of variable buffers: 16 bytes per slot, tick count and offset
/// first.
pub const OFF_VARBUF: usize = 48;

/// Bytes of one variable descriptor.
pub const VARHEADER_SIZE: usize = 144;

/// The tick count of a slot.
pub open spec fn tick_at(map: Seq<u8>, slot: int) -> int {
    wire::i32_at(map, OFF_VARBUF + 16 * slot)
}

/// The buffer offset of a slot.
pub open spec fn offset_at(map: Seq<u8>, slot: int) -> int {
    wire::i32_at(map, OFF_VARBUF + 16 * slot + 4)
}

/// `slot` is the first of the `n` slots that have the highest tick count.
pub open spec fn is_newest(map: Seq<u8>, n: int, slot: int) -> bool {
    &&& 0 <= slot < n
    &&& forall|j: int| 0 <= j < n ==> #[trigger] tick_at(map, j) <= tick_at(map, slot)
    &&& forall|j: int| 0 <= j < slot ==> #[trigger] tick_at(map, j) < tick_at(map, slot)
}

/// The first of the `n` slots that have the highest tick count.
pub open spec fn newest(map: Seq<u8>, n: int) -> int {
    choose|slot: int| is_newest(map, n, slot)
}

/// There is only one first slot with the highest tick count.
pub proof fn newest_is_unique(map: Seq<u8>, n: int, slot: int)
    requires
        is_newest(map, n, slot),
    ensures
        newest(map, n) == slot,
{
    let other = newest(map, n);
    assert(is_newest(map, n, other));
    assert(tick_at(map, slot) <= tick_at(map, other));
    assert(tick_at(map, other) <= tick_at(map, slot));
}

/// Finds the first of the `n` slots that have the highest tick count.
fn newest_slot(map: &[u8], n: usize) -> (slot: usize)
    requires
        map@.len() >= IRSDK_HEADER_SIZE,
        1 <= n <= 4,
    ensures
        slot < n,
        slot == newest(map@, n as int),
        is_newest(map@, n as int, slot as int),
{
    let mut best: usize = 0;
    let mut best_tick: i32 = wire::rd_i32(map, OFF_VARBUF);
    assert(best_tick == tick_at(map@, 0));
    let mut i: usize = 1;
    while i < n
        invariant
            1 <= i <= n <= 4,
            map@.len() >= IRSDK_HEADER_SIZE,
            best_tick == tick_at(map@, best as int),
            is_newest(map@, i as int, best as int),
        decreases n - i,
    {
        let tick: i32 = wire::rd_i32(map, OFF_VARBUF + 16 * i);
        assert(tick == tick_at(map@, i as int));
        if tick > best_tick {
            best_tick = tick;
            best = i;
        }
        i = i + 1;
    }
    proof {
        newest_is_unique(map@, n as int, best as int);
    }
    best
}

/// How many slots the recorder looks at: the number in the header, but at
/// least one and at most four.
pub open spec fn clamped_slots(map: Seq<u8>) -> int {
    let n = wire::i32_at(map, OFF_NUMBUF as int);
    if n < 1 {
        1
    } else if n > 4 {
        4
    } else {
        n
    }
}

/// The tick count and the buffer offset of the slot written last. An offset
/// may be anything that the header holds, also negative.
pub open spec fn active_slot(map: Seq<u8>) -> Option<(int, int)> {
    if map.len() < IRSDK_HEADER_SIZE {
        None
    } else {
        let k = newest(map, clamped_slots(map));
        Some((tick_at(map, k), offset_at(map, k)))
    }
}

/// Finds the slot written last. `None` if the map has no room for a header.
pub fn active_varbuf(map: &[u8]) -> (r: Option<(i32, i32)>)
    ensures
        match r {
            Some((tick, offset)) => active_slot(map@) == Some((tick as int, offset as int)),
            None => active_slot(map@) is None,
        },
{
    if map.len() < IRSDK_HEADER_SIZE {
        return None;
    }
    let num_buf: i32 = wire::rd_i32(map, OFF_NUMBUF);
    let n: usize = if num_buf < 1 {
        1
    } else if num_buf > 4 {
        4
    } else {
        num_buf as usize
    };
    let k: usize = newest_slot(map, n);
    Some((wire::rd_i32(map, OFF_VARBUF + 16 * k), wire::rd_i32(map, OFF_VARBUF + 16 * k + 4)))
}

/// Where the buffer written last lies in a map of `map_len` bytes with this
/// header: offset and length. A slot that was never written has the lowest tick
/// count there is; if all are such, the offset is 0. A buffer that does not lie
/// inside the map is none.
pub open spec fn extent_in(header: Seq<u8>, map_len: int) -> Option<(int, int)> {
    let len = wire::i32_at(header, OFF_BUFLEN as int);
    let n = wire::i32_at(header, OFF_NUMBUF as int);
    if header.len() < IRSDK_HEADER_SIZE || len <= 0 || len > map_len || n == 0 {
        None
    } else {
        let k = newest(
            header,
            if n < 0 || n > 4 {
                4
            } else {
                n
            },
        );
        let offset = if tick_at(header, k) == i32::MIN {
            0
        } else {
            offset_at(header, k)
        };
        if offset < 0 || offset + len > map_len {
            None
        } else {
            Some((offset, len))
        }
    }
}

/// Where the buffer written last lies in a map.
pub open spec fn frame_extent(map: Seq<u8>) -> Option<(int, int)> {
    extent_in(map, map.len() as int)
}

/// Finds the buffer written last in a map of `map_len` bytes with this header,
/// as offset and length. `None` if the header does not describe one inside the
/// map.
pub fn active_var_buf_in(header: &[u8], map_len: usize) -> (r: Option<(usize, usize)>)
    ensures
        match r {
            Some((offset, len)) => extent_in(header@, map_len as int) == Some(
                (offset as int, len as int),
            ),
            None => extent_in(header@, map_len as int) is None,
        },
{
    if header.len() < IRSDK_HEADER_SIZE {
        return None;
    }
    let buf_len: i32 = wire::rd_i32(header, OFF_BUFLEN);
    if buf_len <= 0 || buf_len as usize > map_len {
        return None;
    }
    let num_buf: i32 = wire::rd_i32(header, OFF_NUMBUF);
    if num_buf == 0 {
        return None;
    }
    let n: usize = if num_buf < 0 || num_buf > 4 {
        4
    } else {
        num_buf as usize
    };
    let k: usize = newest_slot(header, n);
    let tick: i32 = wire::rd_i32(header, OFF_VARBUF + 16 * k);
    let offset: i32 = if tick == i32::MIN {
        0
    } else {
        wire::rd_i32(header, OFF_VARBUF + 16 * k + 4)
    };
    if offset < 0 || offset as usize > map_len - buf_len as usize {
        return None;
    }
    Some((offset as usize, buf_len as usize))
}

/// Finds the buffer written last, as offset and length. `None` if the header
/// does not describe one inside the map.
pub fn active_var_buf(map: &[u8]) -> (r: Option<(usize, usize)>)
    ensures
        match r {
            Some((offset, len)) => frame_extent(map@) == Some((offset as int, len as int)),
            None => frame_extent(map@) is None,
        },
{
    active_var_buf_in(map, map.len())
}

/// Both begin with the same header.
pub open spec fn same_header(a: Seq<u8>, b: Seq<u8>) -> bool {
    &&& a.len() >= IRSDK_HEADER_SIZE
    &&& b.len() >= IRSDK_HEADER_SIZE
    &&& forall|i: int| 0 <= i < IRSDK_HEADER_SIZE ==> #[trigger] a[i] == b[i]
}

proof fn lemma_newest_exists(map: Seq<u8>, n: int)
    requires
        n >= 1,
    ensures
        is_newest(map, n, newest(map, n)),
    decreases n,
{
    if n == 1 {
        assert(is_newest(map, 1, 0));
    } else {
        lemma_newest_exists(map, n - 1);
        let k = newest(map, n - 1);
        if tick_at(map, n - 1) > tick_at(map, k) {
            assert(is_newest(map, n, n - 1));
        } else {
            assert(is_newest(map, n, k));
        }
    }
}

proof fn lemma_same_ring(a: Seq<u8>, b: Seq<u8>, n: int)
    requires
        same_header(a, b),
        1 <= n <= 4,
    ensures
        newest(a, n) == newest(b, n),
        0 <= newest(a, n) < n,
        forall|k: int| 0 <= k < 4 ==> #[trigger] tick_at(a, k) == tick_at(b, k),
        forall|k: int| 0 <= k < 4 ==> #[trigger] offset_at(a, k) == offset_at(b, k),
{
    lemma_newest_exists(a, n);
    let slot = newest(a, n);
    assert(is_newest(b, n, slot)) by {
        assert forall|j: int| 0 <= j < n implies #[trigger] tick_at(b, j) <= tick_at(b, slot) by {
            assert(tick_at(a, j) <= tick_at(a, slot));
        }
        assert forall|j: int| 0 <= j < slot implies #[trigger] tick_at(b, j) < tick_at(b, slot) by {
            assert(tick_at(a, j) < tick_at(a, slot));
        }
    }
    newest_is_unique(b, n, slot);
}

/// The header alone decides which buffer is the newest: a reader of two maps
/// with the same header finds it at the same place, if it lies inside both.
pub proof fn header_names_the_buffer(a: Seq<u8>, b: Seq<u8>)
    requires
        same_header(a, b),
    ensures
        active_slot(a) == active_slot(b),
        forall|n: int| #[trigger] extent_in(a, n) == extent_in(b, n),
        frame_extent(a) matches Some((offset, len)) ==> offset + len <= b.len() ==> frame_extent(b)
            == Some((offset, len)),
{
    assert(wire::i32_at(a, OFF_NUMBUF as int) == wire::i32_at(b, OFF_NUMBUF as int));
    assert(wire::i32_at(a, OFF_BUFLEN as int) == wire::i32_at(b, OFF_BUFLEN as int));
    lemma_same_ring(a, b, clamped_slots(a));
    let n = wire::i32_at(a, OFF_NUMBUF as int);
    if n != 0 {
        lemma_same_ring(
            a,
            b,
            if n < 0 || n > 4 {
                4
            } else {
                n
            },
        );
    }
}

/// Where the header counts its buffers and the newest was written, the recorder
/// and the source take the same one.
pub proof fn readers_agree(map: Seq<u8>)
    requires
        frame_extent(map) is Some,
        wire::i32_at(map, OFF_NUMBUF as int) >= 1,
        active_slot(map).unwrap().0 > i32::MIN,
    ensures
        active_slot(map).unwrap().1 == frame_extent(map).unwrap().0,
{
}

/// The tick count of the first slot whose buffer lies at `offset`.
pub open spec fn tick_of_buffer(map: Seq<u8>, offset: int, slots: int) -> Option<int>
    decreases slots,
{
    if slots <= 0 {
        None
    } else {
        match tick_of_buffer(map, offset, slots - 1) {
            Some(tick) => Some(tick),
            None => if offset_at(map, slots - 1) == offset {
                Some(tick_at(map, slots - 1))
            } else {
                None
            },
        }
    }
}

/// Reads the tick count of the slot whose buffer lies at `offset`. A copy of
/// the buffer is torn if it changed meanwhile.
pub fn slot_tick(map: &[u8], offset: usize) -> (r: Option<i32>)
    ensures
        match r {
            Some(tick) => map@.len() >= IRSDK_HEADER_SIZE && tick_of_buffer(map@, offset as int, 4)
                == Some(tick as int),
            None => map@.len() < IRSDK_HEADER_SIZE || tick_of_buffer(map@, offset as int, 4) is None,
        },
        r is Some <==> map@.len() >= 112 && (wire::i32_at(map@, 52) == offset || wire::i32_at(
            map@,
            68,
        ) == offset || wire::i32_at(map@, 84) == offset || wire::i32_at(map@, 100) == offset),
{
    if map.len() < IRSDK_HEADER_SIZE {
        return None;
    }
    proof {
        buffer_has_its_slots_tick(map@, offset as int);
    }
    let mut i: usize = 0;
    while i < 4
        invariant
            i <= 4,
            map@.len() >= IRSDK_HEADER_SIZE,
            tick_of_buffer(map@, offset as int, 4) is Some <==> (wire::i32_at(map@, 52) == offset
                || wire::i32_at(map@, 68) == offset || wire::i32_at(map@, 84) == offset
                || wire::i32_at(map@, 100) == offset),
            tick_of_buffer(map@, offset as int, i as int) is None,
        decreases 4 - i,
    {
        let at: i32 = wire::rd_i32(map, OFF_VARBUF + 16 * i + 4);
        if at >= 0 && at as usize == offset {
            let tick: i32 = wire::rd_i32(map, OFF_VARBUF + 16 * i);
            proof {
                assert(tick_of_buffer(map@, offset as int, i + 1) == Some(tick as int));
                lemma_tick_stays(map@, offset as int, i + 1, 4);
            }
            return Some(tick);
        }
        i = i + 1;
    }
    None
}

proof fn lemma_tick_stays(map: Seq<u8>, offset: int, n: int, m: int)
    requires
        0 <= n <= m,
        tick_of_buffer(map, offset, n) is Some,
    ensures
        tick_of_buffer(map, offset, m) == tick_of_buffer(map, offset, n),
    decreases m,
{
    if n < m {
        lemma_tick_stays(map, offset, n, m - 1);
    }
}

/// `map` with the status field zeroed, where it has one.
pub open spec fn status_cleared(map: Seq<u8>) -> Seq<u8> {
    if map.len() < 8 {
        map
    } else {
        map.update(4, 0).update(5, 0).update(6, 0).update(7, 0)
    }
}

/// Zeroes the status field, so that a reader of the map sees a disconnect.
pub fn clear_status(map: &mut [u8])
    ensures
        final(map)@ == status_cleared(old(map)@),
{
    if map.len() >= 8 {
        map[4] = 0;
        map[5] = 0;
        map[6] = 0;
        map[7] = 0;
    }
}

// ── Laws ──────────────────────────────────────────────────────────────────────

/// The recorder's slot has the highest tick count of all slots that the header
/// counts, and is the first of those. Of a ring of more than four slots four
/// are looked at, and of one without any the first.
pub proof fn highest_tick_is_active(map: Seq<u8>)
    requires
        map.len() >= 112,
    ensures
        ({
            let n = wire::i32_at(map, 32);
            &&& active_slot(map) matches Some((tick, offset))
            &&& tick >= wire::i32_at(map, 48)
            &&& n >= 2 ==> tick >= wire::i32_at(map, 64)
            &&& n >= 3 ==> tick >= wire::i32_at(map, 80)
            &&& n >= 4 ==> tick >= wire::i32_at(map, 96)
            &&& if tick == wire::i32_at(map, 48) {
                offset == wire::i32_at(map, 52)
            } else if n >= 2 && tick == wire::i32_at(map, 64) {
                offset == wire::i32_at(map, 68)
            } else if n >= 3 && tick == wire::i32_at(map, 80) {
                offset == wire::i32_at(map, 84)
            } else {
                n >= 4 && tick == wire::i32_at(map, 96) && offset == wire::i32_at(map, 100)
            }
        }),
{
    let n = clamped_slots(map);
    lemma_newest_exists(map, n);
    let k = newest(map, n);
    assert(tick_at(map, 0) == wire::i32_at(map, 48) && offset_at(map, 0) == wire::i32_at(map, 52));
    assert(tick_at(map, 1) == wire::i32_at(map, 64) && offset_at(map, 1) == wire::i32_at(map, 68));
    assert(tick_at(map, 2) == wire::i32_at(map, 80) && offset_at(map, 2) == wire::i32_at(map, 84));
    assert(tick_at(map, 3) == wire::i32_at(map, 96) && offset_at(map, 3) == wire::i32_at(
        map,
        100,
    ));
}

/// A map without room for a header has no active slot, and no buffer to send.
pub proof fn short_map_has_no_slot(map: Seq<u8>, map_len: int)
    requires
        map.len() < 112,
    ensures
        active_slot(map) is None,
        extent_in(map, map_len) is None,
{
}

/// The source's buffer is that of slot `k`, the first with the highest tick
/// count of all that the header counts, where it lies inside the map. A negative
/// count stands for a full ring, and a slot that was never written for the start
/// of the map.
pub proof fn highest_tick_is_sent(header: Seq<u8>, map_len: int, k: int)
    requires
        header.len() >= 112,
        ({
            let n = wire::i32_at(header, 32);
            let tick = wire::i32_at(header, 48 + 16 * k);
            &&& 0 <= k < 4
            &&& n < 0 || k < n
            &&& tick >= wire::i32_at(header, 48)
            &&& n < 0 || n >= 2 ==> tick >= wire::i32_at(header, 64)
            &&& n < 0 || n >= 3 ==> tick >= wire::i32_at(header, 80)
            &&& n < 0 || n >= 4 ==> tick >= wire::i32_at(header, 96)
            &&& k > 0 ==> tick > wire::i32_at(header, 48)
            &&& k > 1 ==> tick > wire::i32_at(header, 64)
            &&& k > 2 ==> tick > wire::i32_at(header, 80)
        }),
    ensures
        ({
            let len = wire::i32_at(header, 36);
            let offset = if wire::i32_at(header, 48 + 16 * k) == -0x8000_0000 {
                0
            } else {
                wire::i32_at(header, 52 + 16 * k)
            };
            if len > 0 && offset >= 0 && offset + len <= map_len {
                extent_in(header, map_len) == Some((offset, len))
            } else {
                extent_in(header, map_len) is None
            }
        }),
{
    let n = wire::i32_at(header, OFF_NUMBUF as int);
    let slots = if n < 0 || n > 4 {
        4
    } else {
        n
    };
    assert(tick_at(header, 0) == wire::i32_at(header, 48));
    assert(tick_at(header, 1) == wire::i32_at(header, 64));
    assert(tick_at(header, 2) == wire::i32_at(header, 80));
    assert(tick_at(header, 3) == wire::i32_at(header, 96));
    assert(offset_at(header, k) == wire::i32_at(header, 52 + 16 * k));
    assert(is_newest(header, slots, k));
    newest_is_unique(header, slots, k);
}

/// What the source sends lies inside the map, is as long as the header says, and
/// belongs to a slot that the header counts, with a tick count that none of
/// those exceeds.
pub proof fn sent_buffer_is_the_newest(header: Seq<u8>, map_len: int)
    requires
        extent_in(header, map_len) is Some,
    ensures
        ({
            let n = wire::i32_at(header, 32);
            let t0 = wire::i32_at(header, 48);
            let t1 = wire::i32_at(header, 64);
            let t2 = wire::i32_at(header, 80);
            let t3 = wire::i32_at(header, 96);
            let (offset, len) = extent_in(header, map_len).unwrap();
            &&& n != 0
            &&& len == wire::i32_at(header, 36) && len > 0
            &&& 0 <= offset && offset + len <= map_len
            &&& exists|k: int|
                {
                    let tick = #[trigger] tick_at(header, k);
                    &&& 0 <= k < 4 && (n < 0 || k < n)
                    &&& tick == wire::i32_at(header, 48 + 16 * k)
                    &&& tick >= t0
                    &&& n < 0 || n >= 2 ==> tick >= t1
                    &&& n < 0 || n >= 3 ==> tick >= t2
                    &&& n < 0 || n >= 4 ==> tick >= t3
                    &&& offset == wire::i32_at(header, 52 + 16 * k) || (tick == -0x8000_0000
                        && offset == 0)
                }
        }),
{
    let n = wire::i32_at(header, OFF_NUMBUF as int);
    let slots = if n < 0 || n > 4 {
        4
    } else {
        n
    };
    lemma_newest_exists(header, slots);
    let k = newest(header, slots);
    assert(tick_at(header, 0) == wire::i32_at(header, 48));
    assert(tick_at(header, 1) == wire::i32_at(header, 64));
    assert(tick_at(header, 2) == wire::i32_at(header, 80));
    assert(tick_at(header, 3) == wire::i32_at(header, 96));
    assert(offset_at(header, k) == wire::i32_at(header, 52 + 16 * k));
    assert(tick_at(header, k) == wire::i32_at(header, 48 + 16 * k));
}

/// A ring that counts no buffers has none to send.
pub proof fn empty_ring_sends_nothing(header: Seq<u8>, map_len: int)
    requires
        wire::i32_at(header, 32) == 0,
    ensures
        extent_in(header, map_len) is None,
{
}

/// The tick of a buffer is that of the first of the four slots that have its
/// offset.
pub proof fn buffer_has_its_slots_tick(map: Seq<u8>, offset: int)
    ensures
        tick_of_buffer(map, offset, 4) == if wire::i32_at(map, 52) == offset {
            Some(wire::i32_at(map, 48))
        } else if wire::i32_at(map, 68) == offset {
            Some(wire::i32_at(map, 64))
        } else if wire::i32_at(map, 84) == offset {
            Some(wire::i32_at(map, 80))
        } else if wire::i32_at(map, 100) == offset {
            Some(wire::i32_at(map, 96))
        } else {
            None
        },
{
    reveal_with_fuel(tick_of_buffer, 5);
}

/// Clearing the status zeroes four bytes and leaves all others.
pub proof fn only_the_status_is_cleared(map: Seq<u8>)
    ensures
        status_cleared(map).len() == map.len(),
        map.len() >= 8 ==> wire::i32_at(status_cleared(map), 4) == 0,
        forall|i: int|
            0 <= i < map.len() && (i < 4 || i >= 8 || map.len() < 8) ==> #[trigger] status_cleared(
                map,
            )[i] == map[i],
{
}

} // verus!
