//! What the sender and the receiver promise together.
//!
//! The laws here speak of a message as the sender puts it on the wire and of
//! the receiver that its datagrams reach in some order, some of them perhaps
//! more than once.

use vstd::prelude::*;

use crate::protocol::{Header, Message, Outcome, ReceiverState, HEADER_SIZE, MAX_FRAGMENTS};
use crate::protocol;

verus! {

/// The state of a receiver after all of the datagrams, one after another.
pub open spec fn run(s: ReceiverState, datagrams: Seq<Seq<u8>>) -> ReceiverState
    decreases datagrams.len(),
{
    if datagrams.len() == 0 {
        s
    } else {
        run(s, datagrams.drop_last()).step(datagrams.last()).0
    }
}

/// What the receiver reports for the last of the datagrams.
pub open spec fn last_outcome(s: ReceiverState, datagrams: Seq<Seq<u8>>) -> Outcome {
    run(s, datagrams.drop_last()).step(datagrams.last()).1
}

/// The datagrams of a message as they are delivered: `order` names the
/// fragment that comes first, second, and so on.
pub open spec fn deliveries(m: Message, order: Seq<int>) -> Seq<Seq<u8>> {
    Seq::new(order.len(), |k: int| m.datagram(order[k]))
}

/// A message that a receiver for up to `max_payload` bytes can take.
pub open spec fn acceptable(m: Message, max_payload: nat) -> bool {
    &&& m.per > 0
    &&& 1 <= m.count() <= MAX_FRAGMENTS
    &&& m.data.len() <= max_payload
    &&& m.data.len() <= u32::MAX
}

/// The receiver has not begun a message of this number, and has not just handed
/// out one with such a datagram.
pub open spec fn is_new(m: Message, s: ReceiverState) -> bool {
    &&& s.current != Some(m.sequence)
    &&& forall|i: int| 0 <= i < m.count() ==> !s.repeats(#[trigger] m.datagram(i))
}

/// Every fragment is among the deliveries.
pub open spec fn all_arrived(m: Message, order: Seq<int>) -> bool {
    forall|i: int| 0 <= i < m.count() ==> #[trigger] order.contains(i)
}

/// The deliveries of one message up to the one that completes it.
pub open spec fn delivery_order(m: Message, order: Seq<int>) -> bool {
    &&& order.len() > 0
    &&& forall|k: int| 0 <= k < order.len() ==> 0 <= #[trigger] order[k] < m.count()
    &&& forall|k: int| 0 <= k < order.len() ==> !all_arrived(m, #[trigger] order.take(k))
}

// ── Arithmetic of chunks ──────────────────────────────────────────────────────

/// Byte `p` of a message lies in fragment `p / per` and in no other.
proof fn lemma_chunk_of(p: int, per: int, i: int)
    requires
        per > 0,
        p >= 0,
    ensures
        (i * per <= p < (i + 1) * per) <==> p / per == i,
{
    vstd::arithmetic::div_mod::lemma_fundamental_div_mod(p, per);
    vstd::arithmetic::div_mod::lemma_mod_bound(p, per);
    let q = p / per;
    assert((q + 1) * per == q * per + per) by (nonlinear_arith);
    assert(q * per == per * q) by (nonlinear_arith);
    if i < q {
        assert((i + 1) * per <= q * per) by (nonlinear_arith)
            requires
                i + 1 <= q,
                per > 0,
        ;
    } else if i > q {
        assert((q + 1) * per <= i * per) by (nonlinear_arith)
            requires
                q + 1 <= i,
                per > 0,
        ;
    }
}

/// Fragment `i` holds the bytes from `i * per` on: `per` of them, or what is
/// left in the last one.
proof fn lemma_chunk(m: Message, i: int)
    requires
        m.per > 0,
        0 <= i < m.count(),
    ensures
        0 <= i * m.per < m.data.len(),
        i < m.count() - 1 ==> (i + 1) * m.per < m.data.len(),
        i == m.count() - 1 ==> (i + 1) * m.per >= m.data.len(),
        (i + 1) * m.per == i * m.per + m.per,
        protocol::chunk(m.data, m.per, i).len() <= m.per,
        i < m.count() - 1 ==> protocol::chunk(m.data, m.per, i).len() == m.per,
        i * m.per + protocol::chunk(m.data, m.per, i).len() == if i < m.count() - 1 {
            (i + 1) * m.per
        } else {
            m.data.len() as int
        },
{
    protocol::lemma_fragment_count(m.data.len(), m.per);
    assert((i + 1) * m.per == i * m.per + m.per) by (nonlinear_arith);
    if i < m.count() - 1 {
        assert((i + 1) * m.per < m.data.len());
    }
}

/// The fragment that holds byte `p` is one of the message's.
proof fn lemma_chunk_index(m: Message, p: int)
    requires
        m.per > 0,
        0 <= p < m.data.len(),
    ensures
        0 <= p / (m.per as int) < m.count(),
{
    let q = p / m.per as int;
    let n = m.count();
    lemma_chunk_of(p, m.per as int, q);
    protocol::lemma_fragment_count(m.data.len(), m.per);
    assert(0 <= q < n) by (nonlinear_arith)
        requires
            q * m.per <= p < (q + 1) * m.per,
            0 <= p < m.data.len(),
            m.data.len() <= n * m.per,
            m.per > 0,
    ;
}

// ── One delivery ──────────────────────────────────────────────────────────────

/// The receiver is putting `m` together, and what it holds of it is right.
spec fn holding(m: Message, s: ReceiverState) -> bool {
    &&& s.wf()
    &&& s.current == Some(m.sequence)
    &&& s.received.len() == m.count()
    &&& s.payload.len() == m.data.len()
    &&& s.buf_offset == m.buf_offset
    &&& s.frag_size == 0 || (s.frag_size == m.per && m.count() > 1)
    &&& forall|p: int|
        0 <= p < m.data.len() && s.received[p / m.per as int] ==> #[trigger] s.payload[p]
            == m.data[p]
}

/// Bytes in each fragment but the last, as every fragment tells.
spec fn share_in(m: Message) -> int {
    if m.count() == 1 {
        m.data.len() as int
    } else {
        m.per as int
    }
}

proof fn lemma_share_in(m: Message, i: int)
    requires
        m.per > 0,
        0 <= i < m.count(),
    ensures
        protocol::share(
            m.count() as int,
            m.data.len() as int,
            i,
            protocol::chunk(m.data, m.per, i).len() as int,
        ) == Some(share_in(m)),
        i * share_in(m) == i * m.per,
{
    let n = m.count() as int;
    let total = m.data.len() as int;
    let c = protocol::chunk(m.data, m.per, i);
    lemma_chunk(m, i);
    if n == 1 {
        assert(i * share_in(m) == 0 && i * m.per == 0) by (nonlinear_arith)
            requires
                i == 0,
        ;
    } else if i == n - 1 {
        assert(m.per * (n - 1) == (n - 1) * m.per) by (nonlinear_arith);
        vstd::arithmetic::div_mod::lemma_fundamental_div_mod_converse(
            total - c.len(),
            n - 1,
            m.per as int,
            0,
        );
        assert((n - 1) * m.per > 0) by (nonlinear_arith)
            requires
                n > 1,
                m.per > 0,
        ;
    } else {
        lemma_chunk(m, n - 1);
    }
}

/// Once a message is handed out, each of its datagrams is a repeat.
proof fn lemma_repeats(m: Message, t: ReceiverState, i: int)
    requires
        m.per > 0,
        1 <= m.count() <= u16::MAX,
        0 <= i < m.count(),
        t.completed == Some(
            protocol::Completed { header: m.header(i), per: share_in(m) as nat, data: m.data },
        ),
    ensures
        forall|j: int| 0 <= j < m.count() ==> t.repeats(#[trigger] m.datagram(j)),
{
    let n = m.count() as int;
    let per = share_in(m) as nat;
    assert forall|j: int| 0 <= j < n implies t.repeats(#[trigger] m.datagram(j)) by {
        lemma_datagram(m, j);
        lemma_chunk(m, j);
        lemma_share_in(m, j);
        assert(protocol::part(m.data, per, n, j) =~= protocol::chunk(m.data, m.per, j));
    }
}

/// Storing a fragment keeps the bounds.
proof fn lemma_keeps(s: ReceiverState, h: Header, data: Seq<u8>)
    requires
        s.wf(),
    ensures
        s.stored(h, data).0.wf(),
{
    let idx = h.fragment as int;
    let n = s.received.len() as int;
    if idx < n && protocol::share(n, s.payload.len() as int, idx, data.len() as int) is Some {
        protocol::lemma_share(n, s.payload.len() as int, idx, data.len() as int);
    }
}

proof fn lemma_stored(m: Message, s: ReceiverState, i: int)
    requires
        acceptable(m, s.max_payload),
        holding(m, s),
        0 <= i < m.count(),
    ensures
        ({
            let (t, o) = s.stored(m.header(i), protocol::chunk(m.data, m.per, i));
            let done = !s.received[i] && t.complete();
            &&& t.received == s.received.update(i, true)
            &&& t.max_payload == s.max_payload
            &&& t.source_us == s.source_us
            &&& t.dropped == s.dropped
            &&& t.buf_offset == m.buf_offset
            &&& o == report(m, i == 0 && !s.received[0], done)
            &&& if done {
                &&& t.current is None
                &&& forall|j: int| 0 <= j < m.count() ==> t.repeats(#[trigger] m.datagram(j))
                &&& t.payload == m.data
                &&& t.fragment_count == m.count()
            } else {
                &&& holding(m, t)
                &&& t.completed == s.completed
                &&& t.fragment_count == s.fragment_count
            }
        }),
{
    let n = m.count();
    let c = protocol::chunk(m.data, m.per, i);
    lemma_chunk(m, i);
    let (t, o) = s.stored(m.header(i), c);
    if s.received[i] {
        assert(s.received.update(i, true) =~= s.received);
    } else {
        let per = share_in(m);
        let at = i * per;
        lemma_share_in(m, i);
        assert(at == i * m.per);
        let next = ReceiverState {
            received: s.received.update(i, true),
            payload: protocol::overwritten(s.payload, at, c),
            frag_size: per as nat,
            ..s
        };
        assert forall|p: int|
            0 <= p < m.data.len() && next.received[p / m.per as int] implies #[trigger] next.payload[p]
            == m.data[p] by {
            lemma_chunk_of(p, m.per as int, i);
            lemma_chunk_index(m, p);
            if p / m.per as int != i {
                assert(s.payload[p] == m.data[p]);
            }
        }
        if next.complete() {
            assert forall|p: int| 0 <= p < m.data.len() implies #[trigger] next.payload[p]
                == m.data[p] by {
                lemma_chunk_index(m, p);
                assert(next.received[p / m.per as int]);
            }
            assert(next.payload =~= m.data);
            lemma_repeats(m, t, i);
        } else if n == 1 {
            assert(next.received[0]);
        }
        assert(t.received == s.received.update(i, true));
        lemma_keeps(s, m.header(i), c);
    }
}

/// The bytes of a datagram are its header and its chunk again.
proof fn lemma_datagram(m: Message, i: int)
    requires
        1 <= m.count() <= u16::MAX,
        0 <= i < m.count(),
    ensures
        Header::of(m.datagram(i)) == m.header(i),
        m.datagram(i).skip(HEADER_SIZE as int) == protocol::chunk(m.data, m.per, i),
        m.datagram(i).len() >= HEADER_SIZE,
{
    protocol::header_round_trip(m.header(i), protocol::chunk(m.data, m.per, i));
    assert(m.datagram(i).skip(HEADER_SIZE as int) =~= protocol::chunk(m.data, m.per, i));
}

/// The message begins with any of its fragments.
proof fn lemma_begun(m: Message, s: ReceiverState, i: int)
    requires
        s.wf(),
        acceptable(m, s.max_payload),
        is_new(m, s),
        0 <= i < m.count(),
    ensures
        ({
            let t = s.joined(m.header(i));
            &&& holding(m, t)
            &&& t.max_payload == s.max_payload
            &&& t.received == Seq::new(m.count(), |j: int| false)
            &&& t.dropped == dropped_after(s)
            &&& t.source_us == if i == 0 {
                m.source_us
            } else {
                s.source_us
            }
            &&& t.completed == s.completed
            &&& t.fragment_count == s.fragment_count
        }),
{
    let t = s.joined(m.header(i));
    assert(m.data.len() % 0x1_0000_0000 == m.data.len());
    assert forall|p: int|
        0 <= p < m.data.len() && t.received[p / m.per as int] implies #[trigger] t.payload[p]
        == m.data[p] by {
        lemma_chunk_index(m, p);
    }
}

// ── All deliveries ────────────────────────────────────────────────────────────

/// Messages given up once another message begins.
pub open spec fn dropped_after(s: ReceiverState) -> u64 {
    if s.interrupted() {
        ((s.dropped + 1) % 0x1_0000_0000_0000_0000) as u64
    } else {
        s.dropped
    }
}

/// An element is in a sequence if it is among the first ones or the last.
pub proof fn lemma_contains_last(order: Seq<int>, v: int)
    requires
        order.len() > 0,
    ensures
        order.contains(v) == (order.drop_last().contains(v) || order.last() == v),
{
    let before = order.drop_last();
    if before.contains(v) {
        let k = choose|k: int| 0 <= k < before.len() && before[k] == v;
        assert(order[k] == v);
    }
    if order.contains(v) {
        let k = choose|k: int| 0 <= k < order.len() && order[k] == v;
        if k < before.len() {
            assert(before[k] == v);
        }
    }
    assert(order[order.len() - 1] == order.last());
}

/// What the deliveries of `order` have led to, from the state `s` on.
spec fn reached(s: ReceiverState, m: Message, order: Seq<int>, t: ReceiverState) -> bool {
    &&& t.max_payload == s.max_payload
    &&& t.received.len() == m.count()
    &&& forall|i: int| 0 <= i < m.count() ==> #[trigger] t.received[i] == order.contains(i)
    &&& t.dropped == dropped_after(s)
    &&& t.buf_offset == m.buf_offset
}

/// The report for a delivery of the message.
pub open spec fn report(m: Message, new_seq: bool, done: bool) -> Outcome {
    Outcome {
        assembled: if done {
            Some(m.data)
        } else {
            None
        },
        buf_offset: if done {
            m.buf_offset
        } else {
            0
        },
        new_seq,
        heartbeat: false,
    }
}

/// The last delivery is the first fragment, which was not among those before.
pub open spec fn opens(order: Seq<int>) -> bool {
    order.last() == 0 && !order.drop_last().contains(0)
}

/// The state in which the bytes of one more delivery are stored.
proof fn lemma_next(s: ReceiverState, m: Message, order: Seq<int>, q: ReceiverState)
    requires
        acceptable(m, s.max_payload),
        delivery_order(m, order),
        holding(m, q),
        reached(s, m, order.drop_last(), q),
        q.completed == s.completed,
        q.fragment_count == s.fragment_count,
    ensures
        ({
            let i = order.last();
            let (t, o) = q.stored(m.header(i), protocol::chunk(m.data, m.per, i));
            let done = all_arrived(m, order);
            &&& reached(s, m, order, t)
            &&& t.source_us == q.source_us
            &&& o == report(m, opens(order), done)
            &&& ended(s, m, t, done)
        }),
{
    let n = m.count();
    let before = order.drop_last();
    let i = order.last();
    assert(i == order[order.len() - 1]);
    lemma_stored(m, q, i);
    let t = q.stored(m.header(i), protocol::chunk(m.data, m.per, i)).0;
    assert forall|j: int| 0 <= j < n implies #[trigger] t.received[j] == order.contains(j) by {
        lemma_contains_last(order, j);
        assert(q.received[j] == before.contains(j));
    }
    assert(q.received[0] == before.contains(0));
    assert(order.take(order.len() - 1) =~= before);
    if all_arrived(m, order) {
        assert forall|j: int| 0 <= j < n implies #[trigger] t.received[j] by {
            assert(order.contains(j));
        }
        if q.received[i] {
            assert forall|j: int| 0 <= j < n implies #[trigger] before.contains(j) by {
                assert(t.received[j]);
                assert(q.received[j]);
            }
            assert(all_arrived(m, before));
        }
    } else {
        let j = choose|j: int| 0 <= j < n && !#[trigger] order.contains(j);
        assert(!t.received[j]);
    }
}

/// The message was handed out, or the receiver goes on with it.
spec fn ended(s: ReceiverState, m: Message, t: ReceiverState, done: bool) -> bool {
    if done {
        &&& t.current is None
        &&& forall|j: int| 0 <= j < m.count() ==> t.repeats(#[trigger] m.datagram(j))
        &&& t.payload == m.data
        &&& t.fragment_count == m.count()
    } else {
        &&& holding(m, t)
        &&& t.completed == s.completed
        &&& t.fragment_count == s.fragment_count
    }
}

proof fn lemma_run(s: ReceiverState, m: Message, order: Seq<int>)
    requires
        s.wf(),
        acceptable(m, s.max_payload),
        is_new(m, s),
        delivery_order(m, order),
    ensures
        ({
            let t = run(s, deliveries(m, order));
            let done = all_arrived(m, order);
            &&& reached(s, m, order, t)
            &&& t.source_us == if order.contains(0) {
                m.source_us
            } else {
                s.source_us
            }
            &&& last_outcome(s, deliveries(m, order)) == report(m, opens(order), done)
            &&& ended(s, m, t, done)
        }),
    decreases order.len(),
{
    let n = m.count();
    let before = order.drop_last();
    let i = order.last();
    assert(i == order[order.len() - 1]);
    let ds = deliveries(m, order);
    assert(ds.drop_last() =~= deliveries(m, before));
    assert(ds.last() == m.datagram(i));
    lemma_datagram(m, i);
    let p = run(s, ds.drop_last());
    let q = p.joined(m.header(i));
    lemma_contains_last(order, 0);
    if before.len() == 0 {
        lemma_begun(m, s, i);
        assert(reached(s, m, before, q));
    } else {
        assert(order.take(order.len() - 1) =~= before);
        assert forall|k: int| 0 <= k < before.len() implies !all_arrived(
            m,
            #[trigger] before.take(k),
        ) by {
            assert(before.take(k) =~= order.take(k));
        }
        assert forall|k: int| 0 <= k < before.len() implies 0 <= #[trigger] before[k] < n by {
            assert(before[k] == order[k]);
        }
        lemma_run(s, m, before);
        assert(holding(m, q));
        assert(reached(s, m, before, q));
    }
    assert(p.step(m.datagram(i)) == q.stored(
        m.header(i),
        protocol::chunk(m.data, m.per, i),
    ));
    lemma_next(s, m, order, q);
}

// ── Laws ──────────────────────────────────────────────────────────────────────

/// A message is handed out, byte for byte, with the delivery that brings in
/// the last of its fragments, whatever the order and however often each is
/// delivered.
pub proof fn message_is_reassembled(s: ReceiverState, m: Message, order: Seq<int>)
    requires
        s.wf(),
        acceptable(m, s.max_payload),
        is_new(m, s),
        delivery_order(m, order),
        all_arrived(m, order),
    ensures
        last_outcome(s, deliveries(m, order)) == (Outcome {
            assembled: Some(m.data),
            new_seq: order.last() == 0,
            heartbeat: false,
            buf_offset: m.buf_offset,
        }),
        run(s, deliveries(m, order)).payload == m.data,
        run(s, deliveries(m, order)).buf_offset == m.buf_offset,
        run(s, deliveries(m, order)).source_us == m.source_us,
        run(s, deliveries(m, order)).fragment_count == m.count(),
        run(s, deliveries(m, order)).current is None,
        forall|i: int|
            0 <= i < m.count() ==> run(s, deliveries(m, order)).repeats(#[trigger] m.datagram(i)),
        run(s, deliveries(m, order)).dropped == dropped_after(s),
{
    lemma_run(s, m, order);
    assert(order.contains(0));
    let before = order.drop_last();
    assert(order.take(order.len() - 1) =~= before);
    if before.contains(order.last()) {
        assert forall|j: int| 0 <= j < m.count() implies #[trigger] before.contains(j) by {
            assert(order.contains(j));
            lemma_contains_last(order, j);
        }
        assert(all_arrived(m, before));
    }
}

/// Once a message was handed out, more deliveries of it change nothing and
/// lead to nothing.
pub proof fn repeats_change_nothing(s: ReceiverState, m: Message, order: Seq<int>, repeats: Seq<int>)
    requires
        s.wf(),
        acceptable(m, s.max_payload),
        is_new(m, s),
        delivery_order(m, order),
        all_arrived(m, order),
        forall|k: int| 0 <= k < repeats.len() ==> 0 <= #[trigger] repeats[k] < m.count(),
    ensures
        run(run(s, deliveries(m, order)), deliveries(m, repeats)) == run(s, deliveries(m, order)),
        repeats.len() > 0 ==> last_outcome(run(s, deliveries(m, order)), deliveries(m, repeats))
            == Outcome::nothing(),
    decreases repeats.len(),
{
    message_is_reassembled(s, m, order);
    if repeats.len() > 0 {
        let before = repeats.drop_last();
        assert forall|k: int| 0 <= k < before.len() implies 0 <= #[trigger] before[k] < m.count() by {
            assert(before[k] == repeats[k]);
        }
        repeats_change_nothing(s, m, order, before);
        assert(deliveries(m, repeats).drop_last() =~= deliveries(m, before));
        assert(repeats.last() == repeats[repeats.len() - 1]);
        lemma_datagram(m, repeats.last());
    }
}

/// As long as a fragment is missing, nothing is handed out, and the receiver
/// keeps what has arrived.
pub proof fn incomplete_message_is_kept(s: ReceiverState, m: Message, order: Seq<int>)
    requires
        s.wf(),
        acceptable(m, s.max_payload),
        is_new(m, s),
        delivery_order(m, order),
        !all_arrived(m, order),
    ensures
        last_outcome(s, deliveries(m, order)) == (Outcome {
            assembled: None,
            new_seq: opens(order),
            heartbeat: false,
            buf_offset: 0,
        }),
        run(s, deliveries(m, order)).wf(),
        run(s, deliveries(m, order)).max_payload == s.max_payload,
        run(s, deliveries(m, order)).current == Some(m.sequence),
        run(s, deliveries(m, order)).interrupted(),
        run(s, deliveries(m, order)).completed == s.completed,
        run(s, deliveries(m, order)).dropped == dropped_after(s),
{
    lemma_run(s, m, order);
    let t = run(s, deliveries(m, order));
    let missing = choose|i: int| 0 <= i < m.count() && !#[trigger] order.contains(i);
    assert(t.received[missing] == false);
    assert(order.contains(order[0]));
    assert(t.received[order[0]] == true);
}

/// Deliveries up to the one that completes the message: every fragment is
/// among them, and the last one for the first time.
pub proof fn any_order_completes(m: Message, order: Seq<int>)
    requires
        m.count() >= 1,
        order.len() > 0,
        forall|k: int| 0 <= k < order.len() ==> 0 <= #[trigger] order[k] < m.count(),
        forall|i: int| 0 <= i < m.count() ==> #[trigger] order.contains(i),
        !order.drop_last().contains(order.last()),
    ensures
        delivery_order(m, order),
        all_arrived(m, order),
{
    assert forall|k: int| 0 <= k < order.len() implies !all_arrived(m, #[trigger] order.take(k)) by {
        let i = order.last();
        assert(order[order.len() - 1] == i);
        if all_arrived(m, order.take(k)) {
            assert(order.take(k).contains(i));
            let j = choose|j: int| 0 <= j < order.take(k).len() && order.take(k)[j] == i;
            assert(order.drop_last()[j] == i);
        }
    }
}

/// The order in which the sender sends them completes every message.
pub proof fn sending_order_completes(m: Message)
    requires
        m.count() >= 1,
    ensures
        delivery_order(m, Seq::new(m.count(), |k: int| k)),
        all_arrived(m, Seq::new(m.count(), |k: int| k)),
{
    let order = Seq::new(m.count(), |k: int| k);
    assert forall|i: int| 0 <= i < m.count() implies #[trigger] order.contains(i) by {
        assert(order[i] == i);
    }
    if order.drop_last().contains(order.last()) {
        let k = choose|k: int|
            0 <= k < order.drop_last().len() && order.drop_last()[k] == order.last();
        assert(order.drop_last()[k] == k);
    }
    any_order_completes(m, order);
}

/// When part of message `a` is lost and message `b` comes through, `b` is
/// handed out and `a` is counted as dropped.
pub proof fn lost_message_is_counted(
    s: ReceiverState,
    a: Message,
    order_a: Seq<int>,
    b: Message,
    order_b: Seq<int>,
)
    requires
        s.wf(),
        acceptable(a, s.max_payload),
        acceptable(b, s.max_payload),
        is_new(a, s),
        is_new(b, s),
        a.sequence != b.sequence,
        delivery_order(a, order_a),
        !all_arrived(a, order_a),
        delivery_order(b, order_b),
        all_arrived(b, order_b),
    ensures
        ({
            let between = run(s, deliveries(a, order_a));
            &&& last_outcome(between, deliveries(b, order_b)).assembled == Some(b.data)
            &&& run(between, deliveries(b, order_b)).dropped == (dropped_after(s) + 1)
                % 0x1_0000_0000_0000_0000
        }),
{
    incomplete_message_is_kept(s, a, order_a);
    message_is_reassembled(run(s, deliveries(a, order_a)), b, order_b);
}

/// A heartbeat is reported as such and changes nothing.
pub proof fn heartbeat_changes_nothing(s: ReceiverState)
    ensures
        s.step(protocol::heartbeat_header().bytes()) == (
            s,
            Outcome { heartbeat: true, ..Outcome::nothing() },
        ),
{
    let d = protocol::heartbeat_header().bytes();
    protocol::header_round_trip(protocol::heartbeat_header(), Seq::empty());
    assert(d + Seq::<u8>::empty() =~= d);
}

/// A message that begins with a header announcing too many fragments or too
/// many bytes is never handed out, and takes no room, whatever follows under
/// its number.
pub proof fn oversized_message_is_discarded(s: ReceiverState, datagrams: Seq<Seq<u8>>)
    requires
        s.wf(),
        datagrams.len() > 0,
        forall|k: int|
            #![trigger datagrams[k]]
            0 <= k < datagrams.len() ==> {
                &&& datagrams[k].len() >= HEADER_SIZE
                &&& Header::of(datagrams[k]).sequence == Header::of(datagrams[0]).sequence
                &&& Header::of(datagrams[k]).fragments > 0
            },
        s.current != Some(Header::of(datagrams[0]).sequence),
        forall|k: int| 0 <= k < datagrams.len() ==> !s.repeats(#[trigger] datagrams[k]),
        s.rejects(Header::of(datagrams[0])),
    ensures
        last_outcome(s, datagrams).assembled is None,
        run(s, datagrams).payload == s.payload,
        run(s, datagrams).received.len() == 0,
        run(s, datagrams).current == Some(Header::of(datagrams[0]).sequence),
        run(s, datagrams).completed == s.completed,
    decreases datagrams.len(),
{
    let before = datagrams.drop_last();
    if before.len() == 0 {
        assert(run(s, before) == s);
    } else {
        assert(before[0] == datagrams[0]);
        assert forall|k: int| #![trigger before[k]] 0 <= k < before.len() implies {
            &&& before[k].len() >= HEADER_SIZE
            &&& Header::of(before[k]).sequence == Header::of(before[0]).sequence
            &&& Header::of(before[k]).fragments > 0
        } by {
            assert(before[k] == datagrams[k]);
        }
        oversized_message_is_discarded(s, before);
    }
    assert(datagrams.last() == datagrams[datagrams.len() - 1]);
}

/// A fragment that is already in changes nothing but the time stamp.
pub proof fn duplicate_is_discarded(s: ReceiverState, datagram: Seq<u8>)
    requires
        datagram.len() >= HEADER_SIZE,
        Header::of(datagram).fragments > 0,
        !s.repeats(datagram),
        s.current == Some(Header::of(datagram).sequence),
        Header::of(datagram).fragment < s.received.len(),
        s.received[Header::of(datagram).fragment as int],
    ensures
        s.step(datagram).1 == Outcome::nothing(),
        s.step(datagram).0 == (ReceiverState {
            source_us: if Header::of(datagram).fragment == 0 {
                Header::of(datagram).source_us
            } else {
                s.source_us
            },
            ..s
        }),
{
}

/// A datagram of the message that was handed out last changes nothing and leads
/// to nothing, also while another message is coming in.
pub proof fn late_duplicate_is_discarded(s: ReceiverState, datagram: Seq<u8>)
    requires
        datagram.len() >= HEADER_SIZE,
        s.repeats(datagram),
    ensures
        s.step(datagram) == (s, Outcome::nothing()),
{
}

/// The number alone makes no repeat: a message that differs from the one handed
/// out last in its time, length, place or number of fragments is new, and so is
/// one of a single fragment with other bytes, also under the same number. A
/// sender that starts over is so heard.
pub proof fn number_may_come_again(s: ReceiverState, m: Message)
    requires
        m.per > 0,
        1 <= m.count() <= u16::MAX,
        s.current != Some(m.sequence),
        s.completed matches Some(c) ==> {
            ||| !c.header.same_message(m.header(0))
            ||| m.count() == 1 && c.data != m.data
        },
    ensures
        is_new(m, s),
{
    assert forall|i: int| 0 <= i < m.count() implies !s.repeats(#[trigger] m.datagram(i)) by {
        lemma_datagram(m, i);
        if m.count() == 1 && s.completed is Some {
            let c = s.completed.unwrap();
            lemma_chunk(m, 0);
            assert(i * c.per == 0 && i * m.per == 0) by (nonlinear_arith)
                requires
                    i == 0,
            ;
            if s.repeats(m.datagram(i)) {
                assert(c.data.subrange(0, c.data.len() as int) =~= c.data);
                assert(protocol::chunk(m.data, m.per, 0) =~= m.data);
            }
        }
    }
}

/// A message is complete only when its fragments cover it: every byte lies in
/// one of them.
pub proof fn complete_message_is_covered(s: ReceiverState, p: int)
    requires
        s.wf(),
        s.received.len() > 0,
        s.complete(),
        0 <= p < s.payload.len(),
    ensures
        exists|i: int|
            0 <= i < s.received.len() && #[trigger] s.received[i] && i * s.frag_size <= p && (p < (i
                + 1) * s.frag_size || i == s.received.len() - 1),
{
    let n = s.received.len() as int;
    let per = s.frag_size as int;
    assert(s.received[0]);
    if n == 1 {
        assert(0 * per == 0) by (nonlinear_arith);
    } else {
        lemma_chunk_of(p, per, p / per);
        vstd::arithmetic::div_mod::lemma_div_pos_is_pos(p, per);
        if p / per < n - 1 {
            assert(s.received[p / per]);
        } else {
            assert((n - 1) * per <= (p / per) * per) by (nonlinear_arith)
                requires
                    n - 1 <= p / per,
                    per > 0,
            ;
            assert(s.received[n - 1]);
        }
    }
}

/// The first datagram of another message clears what was there: none of its
/// fragments is in, and a message left incomplete counts as dropped. One that
/// is refused takes no room and has no fragments; any other has as many, and
/// as many bytes, as its header says.
pub proof fn new_message_starts_over(s: ReceiverState, h: Header)
    requires
        s.dropped < u64::MAX,
    ensures
        ({
            let t = s.begun(h);
            let in_before = protocol::count_set(s.received);
            &&& t.current == Some(h.sequence)
            &&& protocol::count_set(t.received) == 0
            &&& t.dropped == s.dropped + if 0 < in_before < s.received.len() {
                1int
            } else {
                0
            }
            &&& if h.fragments > MAX_FRAGMENTS || h.payload_size > s.max_payload {
                t.received.len() == 0 && t.payload == s.payload
            } else {
                &&& t.received.len() == h.fragments
                &&& forall|i: int| 0 <= i < t.received.len() ==> !#[trigger] t.received[i]
                &&& t.payload.len() == h.payload_size
            }
        }),
{
    protocol::lemma_count_set(s.received);
    protocol::lemma_count_set(s.begun(h).received);
}

/// Two messages sent one after the other have different numbers.
pub proof fn next_message_has_another_number(sequence: u32)
    ensures
        (sequence + 1) % 0x1_0000_0000 != sequence,
{
}

/// No datagram is longer than the header and the payload it has room for.
pub proof fn datagrams_fit(m: Message, i: int)
    requires
        m.per > 0,
        0 <= i < m.count(),
    ensures
        HEADER_SIZE < m.datagram(i).len() <= HEADER_SIZE + m.per,
{
    lemma_chunk(m, i);
    protocol::header_round_trip(m.header(i), Seq::empty());
}

/// No datagram leads a receiver out of its bounds.
pub proof fn bounds_are_kept(s: ReceiverState, datagram: Seq<u8>)
    requires
        s.wf(),
    ensures
        s.step(datagram).0.wf(),
        s.step(datagram).0.max_payload == s.max_payload,
        s.step(datagram).0.payload.len() <= s.max_payload,
        s.step(datagram).0.received.len() <= 256,
{
    let h = Header::of(datagram);
    if datagram.len() >= HEADER_SIZE && h.fragments > 0 && !s.repeats(datagram) {
        lemma_keeps(s.joined(h), h, datagram.skip(HEADER_SIZE as int));
    }
}

proof fn lemma_reachable(max_payload: nat, datagrams: Seq<Seq<u8>>)
    ensures
        run(ReceiverState::initial(max_payload), datagrams).wf(),
        run(ReceiverState::initial(max_payload), datagrams).max_payload == max_payload,
    decreases datagrams.len(),
{
    if datagrams.len() > 0 {
        lemma_reachable(max_payload, datagrams.drop_last());
        bounds_are_kept(
            run(ReceiverState::initial(max_payload), datagrams.drop_last()),
            datagrams.last(),
        );
    } else {
        protocol::new_receiver_is_empty(max_payload);
    }
}

/// Whatever datagrams came before, a message of up to 256 fragments that has
/// room is handed out as it was sent, once each of its fragments has come, in
/// any order and any number of times. It needs a number other than that of the
/// message in progress and of the one handed out last.
pub proof fn every_message_gets_through(
    max_payload: nat,
    earlier: Seq<Seq<u8>>,
    m: Message,
    n: nat,
    order: Seq<int>,
)
    requires
        m.per >= 1,
        1 <= n <= 256,
        (n - 1) * m.per < m.data.len() <= n * m.per,
        m.data.len() <= max_payload,
        m.data.len() <= 0xffff_ffff,
        run(ReceiverState::initial(max_payload), earlier).current != Some(m.sequence),
        run(ReceiverState::initial(max_payload), earlier).completed matches Some(c)
            ==> c.header.sequence != m.sequence,
        order.len() > 0,
        forall|k: int| 0 <= k < order.len() ==> 0 <= #[trigger] order[k] < n,
        forall|i: int| 0 <= i < n ==> #[trigger] order.contains(i),
        !order.drop_last().contains(order.last()),
    ensures
        ({
            let s = run(ReceiverState::initial(max_payload), earlier);
            let sent = Seq::new(order.len(), |k: int| m.datagram(order[k]));
            let t = run(s, sent);
            let o = last_outcome(s, sent);
            &&& o.assembled == Some(m.data)
            &&& o.buf_offset == m.buf_offset
            &&& o.new_seq == (order.last() == 0)
            &&& !o.heartbeat
            &&& t.payload == m.data
            &&& t.buf_offset == m.buf_offset
            &&& t.source_us == m.source_us
            &&& t.fragment_count == n
        }),
{
    let s = run(ReceiverState::initial(max_payload), earlier);
    let c = m.count() as int;
    lemma_reachable(max_payload, earlier);
    protocol::lemma_fragment_count(m.data.len(), m.per);
    assert(c == n) by (nonlinear_arith)
        requires
            (c - 1) * m.per < m.data.len() <= c * m.per,
            (n - 1) * m.per < m.data.len() <= n * m.per,
            m.per >= 1,
    ;
    assert(is_new(m, s)) by {
        assert forall|i: int| 0 <= i < m.count() implies !s.repeats(#[trigger] m.datagram(i)) by {
            lemma_datagram(m, i);
        }
    }
    any_order_completes(m, order);
    message_is_reassembled(s, m, order);
    assert(deliveries(m, order) =~= Seq::new(order.len(), |k: int| m.datagram(order[k])));
}

/// Another message that begins when all fragments of the one before are in, or
/// none, counts nothing as dropped; one that begins when fragment `i` is in and
/// fragment `j` is not counts one.
pub proof fn only_lost_messages_are_counted(s: ReceiverState, h: Header, i: int, j: int)
    requires
        s.current != Some(h.sequence),
        s.dropped < 0xffff_ffff_ffff_ffff,
    ensures
        !s.received.contains(false) || !s.received.contains(true) ==> s.joined(h).dropped
            == s.dropped,
        0 <= i < s.received.len() && 0 <= j < s.received.len() && s.received[i] && !s.received[j]
            ==> s.joined(h).dropped == s.dropped + 1,
{
    if 0 <= i < s.received.len() && 0 <= j < s.received.len() && s.received[i] && !s.received[j] {
        assert(s.received[i] == true);
        assert(s.received[j] == false);
        assert(s.interrupted());
    }
}

/// More datagrams of a message that has begun count nothing as dropped.
pub proof fn one_message_drops_nothing(s: ReceiverState, datagram: Seq<u8>)
    requires
        s.current == Some(Header::of(datagram).sequence),
    ensures
        s.step(datagram).0.dropped == s.dropped,
{
}

/// A fragment that is not stored leaves the bytes as they are, and one that is
/// stored writes its own bytes and no others.
pub proof fn fragments_write_their_own_bytes(s: ReceiverState, h: Header, data: Seq<u8>)
    requires
        s.wf(),
    ensures
        ({
            let t = s.stored(h, data).0;
            let idx = h.fragment as int;
            &&& t.payload.len() == s.payload.len()
            &&& t.received == s.received ==> t.payload == s.payload
            &&& t.received != s.received ==> {
                &&& 0 <= idx < s.received.len() && !s.received[idx]
                &&& t.received == s.received.update(idx, true)
                &&& exists|at: int|
                    {
                        &&& 0 <= at && at + data.len() <= t.payload.len()
                        &&& #[trigger] t.payload.subrange(at, at + data.len()) == data
                        &&& t.payload.take(at) == s.payload.take(at)
                        &&& t.payload.skip(at + data.len()) == s.payload.skip(at + data.len())
                    }
            }
        }),
{
    let t = s.stored(h, data).0;
    let idx = h.fragment as int;
    let n = s.received.len() as int;
    if idx < n && !s.received[idx] {
        assert(s.received.update(idx, true)[idx]);
        if protocol::share(n, s.payload.len() as int, idx, data.len() as int) is Some {
            protocol::lemma_share(n, s.payload.len() as int, idx, data.len() as int);
            let per = protocol::share(n, s.payload.len() as int, idx, data.len() as int).unwrap();
            let at = idx * per;
            if t.received != s.received {
                assert(t.payload.subrange(at, at + data.len()) =~= data);
                assert(t.payload.take(at) =~= s.payload.take(at));
                assert(t.payload.skip(at + data.len()) =~= s.payload.skip(at + data.len()));
            }
        }
    }
}

} // verus!
