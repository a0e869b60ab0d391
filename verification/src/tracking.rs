//! What the table of flows promises, entry by entry.

use vstd::prelude::*;

use crate::conntrack::{
    answers, expired, fresh, free_id, free_place, id_used, in_step, lemma_out_keeps_wf,
    lemma_out_tracks, lemma_reap_keeps_wf, nth_id, oldest, out_step, reap_step, slot_for_new,
    tcp_after, tracks, used_count, wf, Conntrack, CtState, Entry, Proto, Reply, TcpState, Tuple,
    CT_CAP, NAT_SPAN,
};
use crate::search::{least, lemma_least};
use crate::wire::Ipv4Address;

verus! {

/// How many milliseconds of silence end a flow: 30 s for UDP, 10 s for a ping, 60 s for an
/// established TCP connection and 10 s for one that opens or closes.
pub open spec fn patience(e: Entry) -> int {
    match (e.proto, e.tcp) {
        (Proto::Udp, _) => 30_000,
        (Proto::IcmpEcho, _) => 10_000,
        (Proto::Tcp, TcpState::Established) => 60_000,
        (Proto::Tcp, _) => 10_000,
    }
}

/// An entry expires when it has been silent for so long, and not before.
pub proof fn lemma_expires(e: Entry, now: u64)
    ensures
        expired(e, now) <==> now >= e.last_seen + patience(e),
{
}

/// How TCP flags move a flow from state to state: FIN (1) or RST (4) closes it; without
/// them SYN (2) opens what is not closing, and a segment without any of the three
/// establishes.
pub open spec fn moves_to(before: TcpState, flags: u8, after: TcpState) -> bool {
    let fin = flags % 2 == 1;
    let syn = flags / 2 % 2 == 1;
    let rst = flags / 4 % 2 == 1;
    &&& after == TcpState::Closing <==> fin || rst || syn && before == TcpState::Closing
    &&& after == TcpState::Established <==> !fin && !rst && !syn
}

proof fn lemma_flag_bits(flags: u8)
    by (bit_vector)
    ensures
        (flags & 0x01 != 0) == (flags % 2 == 1),
        (flags & 0x02 != 0) == (flags / 2 % 2 == 1),
        (flags & 0x04 != 0) == (flags / 4 % 2 == 1),
{
}

/// How TCP flags move a flow.
pub proof fn lemma_moves(before: TcpState, flags: u8)
    ensures
        moves_to(before, flags, tcp_after(before, flags)),
{
    lemma_flag_bits(flags);
}

/// The entry is in use, for this flow.
pub open spec fn is_of(e: Entry, t: Tuple) -> bool {
    &&& e.used
    &&& e.proto == t.proto
    &&& (e.lan_ip, e.lan_id) == (t.src_ip, t.src_id)
    &&& (e.remote_ip, e.remote_id) == (t.dst_ip, t.dst_id)
}

/// The entry after a packet at `now` with these flags.
pub open spec fn saw(before: Entry, after: Entry, flags: u8, now: u64) -> bool {
    &&& after.used == before.used
    &&& after.proto == before.proto
    &&& (after.lan_ip, after.lan_id) == (before.lan_ip, before.lan_id)
    &&& (after.remote_ip, after.remote_id) == (before.remote_ip, before.remote_id)
    &&& after.wan_id == before.wan_id
    &&& after.last_seen == now
    &&& moves_to(before.tcp, flags, after.tcp)
}

/// Slot `i` is the only one that changed.
pub open spec fn only_changed(s: CtState, t: CtState, i: int) -> bool {
    &&& t.slots.len() == s.slots.len()
    &&& forall|k: int| 0 <= k < s.slots.len() && k != i ==> #[trigger] t.slots[k] == s.slots[k]
}

/// `b` is one more than `a`, or both have wrapped.
pub open spec fn counts_up(a: u32, b: u32) -> bool {
    b == a + 1 || a == u32::MAX && b == 0
}

/// A packet of a flow that is known keeps the flow's id and renews its entry, and nothing
/// else happens.
pub proof fn lemma_known_flow(s: CtState, t: Tuple, flags: u8, now: u64, i: int)
    requires
        wf(s),
        0 <= i < CT_CAP,
        is_of(s.slots[i], t),
    ensures
        ({
            let (after, id) = out_step(s, t, flags, now);
            &&& id == Some(s.slots[i].wan_id)
            &&& saw(s.slots[i], after.slots[i], flags, now)
            &&& only_changed(s, after, i)
            &&& after.cursor == s.cursor
            &&& counts_up(s.counters.out, after.counters.out)
            &&& after.counters.inbound == s.counters.inbound
            &&& after.counters.new == s.counters.new
            &&& after.counters.evict == s.counters.evict
            &&& after.counters.drop == s.counters.drop
            &&& after.counters.live == s.counters.live
        }),
{
    let f = |i: int| tracks(s.slots[i], t);
    lemma_least(0, CT_CAP as int, f);
    assert(f(i));
    let j = least(0, CT_CAP as int, f)->0;
    assert(f(j));
    if j < i {
        assert(s.slots[j].used && s.slots[i].used);
    } else if i < j {
        assert(s.slots[i].used && s.slots[j].used);
    }
    lemma_moves(s.slots[i].tcp, flags);
}

/// The id is held by an entry in use.
pub open spec fn is_held(s: CtState, id: int) -> bool {
    exists|k: int| 0 <= k < s.slots.len() && (#[trigger] s.slots[k]).used && s.slots[k].wan_id == id
}

/// The slot that a new flow may take: one that is free; where none is, one that has
/// expired; where none has, one that was seen no later than any other.
pub open spec fn may_take(s: CtState, i: int, now: u64) -> bool {
    let full = forall|k: int| 0 <= k < s.slots.len() ==> (#[trigger] s.slots[k]).used;
    let alive = forall|k: int|
        0 <= k < s.slots.len() ==> now < (#[trigger] s.slots[k]).last_seen + patience(s.slots[k]);
    let first = forall|k: int|
        0 <= k < s.slots.len() ==> s.slots[i].last_seen <= (#[trigger] s.slots[k]).last_seen;
    &&& s.slots[i].used ==> full
    &&& s.slots[i].used && now < s.slots[i].last_seen + patience(s.slots[i]) ==> alive && first
}

/// A packet of a new flow opens an entry for it in a slot that it may take, with the first
/// id from the cursor on, going round from 65535 to 49152, that no entry holds.
pub proof fn lemma_new_flow(s: CtState, t: Tuple, flags: u8, now: u64) -> (r: (int, int))
    requires
        wf(s),
        forall|k: int| 0 <= k < CT_CAP ==> !is_of(#[trigger] s.slots[k], t),
    ensures
        ({
            let (i, n) = r;
            let (after, id) = out_step(s, t, flags, now);
            let e = after.slots[i];
            &&& 0 <= i < CT_CAP
            &&& 0 <= n < 16384
            &&& only_changed(s, after, i)
            &&& may_take(s, i, now)
            &&& is_of(e, t)
            &&& e.last_seen == now
            &&& moves_to(TcpState::New, flags, e.tcp)
            &&& id == Some(e.wan_id)
            &&& e.wan_id == round(s.cursor + n)
            &&& !is_held(s, e.wan_id as int)
            &&& forall|m: int| 0 <= m < n ==> is_held(s, #[trigger] round(s.cursor + m))
            &&& after.cursor == round(e.wan_id + 1)
            &&& counts_up(s.counters.out, after.counters.out)
            &&& counts_up(s.counters.new, after.counters.new)
            &&& after.counters.inbound == s.counters.inbound
            &&& after.counters.drop == s.counters.drop
            &&& if s.slots[i].used {
                counts_up(s.counters.evict, after.counters.evict) && after.counters.live
                    == s.counters.live
            } else {
                after.counters.evict == s.counters.evict && after.counters.live
                    == s.counters.live + 1
            }
        }),
{
    let f = |i: int| tracks(s.slots[i], t);
    lemma_least(0, CT_CAP as int, f);
    if least(0, CT_CAP as int, f) is Some {
        let j = least(0, CT_CAP as int, f)->0;
        assert(f(j));
        assert(is_of(s.slots[j], t));
    }
    lemma_out_keeps_wf(s, t, flags, now);
    let i = lemma_out_tracks(s, t, flags, now);
    let after = out_step(s, t, flags, now).0;
    let p = |n: int| !id_used(s.slots, nth_id(s.cursor, n));
    lemma_least(0, NAT_SPAN as int, p);
    let n = free_id(s.slots, s.cursor)->0;
    assert(p(n));
    let slot = slot_for_new(s.slots, now);
    lemma_slot_taken(s, now);
    if i != slot {
        assert(after.slots[i] == s.slots[i]);
        assert(is_of(s.slots[i], t));
    }
    lemma_moves(TcpState::New, flags);
    crate::conntrack::lemma_used_count_bound(s.slots);
    assert(nth_id(s.cursor, n) == round(s.cursor + n));
    assert forall|m: int| 0 <= m < n implies is_held(s, #[trigger] round(s.cursor + m)) by {
        assert(!p(m));
        assert(nth_id(s.cursor, m) == round(s.cursor + m));
        let k = choose|k: int|
            0 <= k < s.slots.len() && #[trigger] s.slots[k].used && s.slots[k].wan_id == nth_id(
                s.cursor,
                m,
            );
        assert(s.slots[k].used);
    }
    if is_held(s, nth_id(s.cursor, n) as int) {
        let k = choose|k: int|
            0 <= k < s.slots.len() && (#[trigger] s.slots[k]).used && s.slots[k].wan_id == nth_id(
                s.cursor,
                n,
            );
        assert(s.slots[k].used);
        assert(id_used(s.slots, nth_id(s.cursor, n)));
    }
    (i, n)
}

/// The id after the highest is the lowest.
pub open spec fn round(id: int) -> int {
    if id > 65535 {
        id - 16384
    } else {
        id
    }
}

proof fn lemma_slot_taken(s: CtState, now: u64)
    requires
        wf(s),
    ensures
        0 <= slot_for_new(s.slots, now) < CT_CAP,
        may_take(s, slot_for_new(s.slots, now), now),
{
    let n = CT_CAP as int;
    let free = |i: int| !s.slots[i].used;
    let gone = |i: int| expired(s.slots[i], now);
    let old_one = |i: int| oldest(s.slots, i);
    lemma_least(0, n, free);
    lemma_least(0, n, gone);
    lemma_least(0, n, old_one);
    let m = crate::conntrack::lemma_oldest_exists(s.slots);
    assert(old_one(m));
    let i = slot_for_new(s.slots, now);
    match least(0, n, free) {
        Some(k) => {
            assert(free(k));
        },
        None => {
            assert forall|k: int| 0 <= k < s.slots.len() implies (#[trigger] s.slots[k]).used by {
                assert(!free(k));
            }
            match least(0, n, gone) {
                Some(k) => {
                    assert(gone(k));
                },
                None => {
                    assert(old_one(i));
                    assert forall|k: int| 0 <= k < s.slots.len() implies now < (
                    #[trigger] s.slots[k]).last_seen + patience(s.slots[k]) by {
                        assert(!gone(k));
                    }
                },
            }
        },
    }
}

/// The entry is in use for what the packet from the WAN answers, and has not expired.
pub open spec fn is_answered(e: Entry, p: Reply, now: u64) -> bool {
    &&& e.used
    &&& e.proto == p.proto
    &&& e.wan_id == p.wan_id
    &&& (e.remote_ip, e.remote_id) == (p.remote_ip, p.remote_id)
    &&& now < e.last_seen + patience(e)
}

/// A packet from the WAN that answers a flow is for the flow's client, renews its entry, and
/// does nothing else.
pub proof fn lemma_answer(s: CtState, p: Reply, flags: u8, now: u64, i: int)
    requires
        wf(s),
        0 <= i < CT_CAP,
        is_answered(s.slots[i], p, now),
    ensures
        ({
            let (after, to) = in_step(s, p, flags, now);
            &&& to == Some((s.slots[i].lan_ip, s.slots[i].lan_id))
            &&& saw(s.slots[i], after.slots[i], flags, now)
            &&& only_changed(s, after, i)
            &&& after.cursor == s.cursor
            &&& counts_up(s.counters.inbound, after.counters.inbound)
            &&& after.counters.out == s.counters.out
            &&& after.counters.new == s.counters.new
            &&& after.counters.evict == s.counters.evict
            &&& after.counters.drop == s.counters.drop
            &&& after.counters.live == s.counters.live
        }),
{
    let f = |i: int| answers(s.slots[i], p, now);
    lemma_least(0, CT_CAP as int, f);
    assert(f(i));
    let j = least(0, CT_CAP as int, f)->0;
    assert(f(j));
    if j < i {
        assert(s.slots[j].used && s.slots[i].used);
    } else if i < j {
        assert(s.slots[i].used && s.slots[j].used);
    }
    lemma_moves(s.slots[i].tcp, flags);
}

/// A packet from the WAN that answers no flow is for nobody on the LAN, and changes nothing.
pub proof fn lemma_no_answer(s: CtState, p: Reply, flags: u8, now: u64)
    requires
        wf(s),
        forall|k: int| 0 <= k < CT_CAP ==> !is_answered(#[trigger] s.slots[k], p, now),
    ensures
        in_step(s, p, flags, now) == (s, None::<(Ipv4Address, u16)>),
{
    let f = |i: int| answers(s.slots[i], p, now);
    lemma_least(0, CT_CAP as int, f);
    if least(0, CT_CAP as int, f) is Some {
        let j = least(0, CT_CAP as int, f)->0;
        assert(f(j));
        assert(is_answered(s.slots[j], p, now));
    }
}

/// A sweep ends the flows that have been silent too long and no others, keeps the ids where
/// they are, and counts what it ended.
pub proof fn lemma_sweep(s: CtState, now: u64)
    requires
        wf(s),
    ensures
        ({
            let after = reap_step(s, now);
            &&& after.slots.len() == CT_CAP
            &&& forall|i: int|
                0 <= i < CT_CAP ==> ({
                    let e = #[trigger] after.slots[i];
                    let b = s.slots[i];
                    &&& e.used <==> b.used && now < b.last_seen + patience(b)
                    &&& e.used ==> e == b
                })
            &&& after.cursor == s.cursor
            &&& after.counters.live <= s.counters.live
            &&& (after.counters.evict - s.counters.evict - (s.counters.live - after.counters.live))
                % 0x1_0000_0000 == 0
            &&& after.counters.out == s.counters.out
            &&& after.counters.inbound == s.counters.inbound
            &&& after.counters.new == s.counters.new
            &&& after.counters.drop == s.counters.drop
        }),
{
    let after = reap_step(s, now);
    lemma_reap_keeps_wf(s, now);
    lemma_fewer(s.slots, after.slots);
    let gone: int = used_count(s.slots) - used_count(after.slots);
    let a: int = s.counters.evict + gone;
    assert(after.counters.evict - s.counters.evict - gone == a % 0x1_0000_0000 - a);
    assert((a % 0x1_0000_0000 - a) % 0x1_0000_0000 == 0);
}

proof fn lemma_fewer(a: Seq<Entry>, b: Seq<Entry>)
    requires
        a.len() == b.len(),
        forall|i: int| 0 <= i < a.len() && (#[trigger] b[i]).used ==> a[i].used,
    ensures
        0 <= used_count(b) <= used_count(a),
    decreases a.len(),
{
    if a.len() > 0 {
        assert forall|i: int| 0 <= i < a.drop_last().len() && (#[trigger] b.drop_last()[i]).used
            implies a.drop_last()[i].used by {
            assert(b[i].used);
        }
        lemma_fewer(a.drop_last(), b.drop_last());
        assert(b[b.len() - 1].used ==> a[a.len() - 1].used);
    }
}

/// How many entries are in use, counted one by one: `used_count` is the size of the set of
/// slots in use.
pub proof fn lemma_used_are_counted(slots: Seq<Entry>)
    ensures
        used_slots(slots).finite(),
        used_count(slots) == used_slots(slots).len(),
    decreases slots.len(),
{
    if slots.len() == 0 {
        assert(used_slots(slots) =~= Set::empty());
    } else {
        let rest = slots.drop_last();
        lemma_used_are_counted(rest);
        let n = slots.len() - 1;
        if slots[n].used {
            assert(used_slots(slots) =~= used_slots(rest).insert(n));
        } else {
            assert(used_slots(slots) =~= used_slots(rest));
        }
    }
}

/// The slots in use.
pub open spec fn used_slots(slots: Seq<Entry>) -> Set<int> {
    Set::new(|i: int| 0 <= i < slots.len() && slots[i].used)
}

/// Where the search for a free id ends: at the first id from the cursor on that is not
/// taken, or nowhere if all are.
pub proof fn lemma_free_id(taken: Seq<u16>, cursor: u16)
    requires
        cursor >= 49152,
    ensures
        match free_place(taken, cursor) {
            Some(n) => {
                &&& 0 <= n < 16384
                &&& !taken.contains(round(cursor + n) as u16)
                &&& forall|m: int|
                    0 <= m < n ==> taken.contains(#[trigger] round(cursor + m) as u16)
                &&& nth_id(cursor, n) == round(cursor + n)
                &&& nth_id(cursor, n + 1) == round(round(cursor + n) + 1)
            },
            None => forall|m: int|
                0 <= m < 16384 ==> taken.contains(#[trigger] round(cursor + m) as u16),
        },
{
    let p = |n: int| !taken.contains(nth_id(cursor, n));
    lemma_least(0, NAT_SPAN as int, p);
    assert forall|m: int| 0 <= m < 16384 && !p(m) implies taken.contains(
        #[trigger] round(cursor + m) as u16,
    ) by {
        assert(nth_id(cursor, m) == round(cursor + m));
    }
    match free_place(taken, cursor) {
        Some(n) => {
            assert(p(n));
            assert(nth_id(cursor, n) == round(cursor + n));
            assert forall|m: int| 0 <= m < n implies taken.contains(
                #[trigger] round(cursor + m) as u16,
            ) by {
                assert(!p(m));
            }
        },
        None => {
            assert forall|m: int| 0 <= m < 16384 implies taken.contains(
                #[trigger] round(cursor + m) as u16,
            ) by {
                assert(!p(m));
            }
        },
    }
}

/// A new table holds nothing, has counted nothing, and starts at the lowest id.
pub proof fn lemma_starts_empty()
    ensures
        fresh().slots.len() == 64,
        forall|i: int| 0 <= i < 64 ==> !(#[trigger] fresh().slots[i]).used,
        fresh().cursor == 49152,
        fresh().counters.live == 0,
        fresh().counters.out == 0,
        fresh().counters.inbound == 0,
        fresh().counters.new == 0,
        fresh().counters.evict == 0,
        fresh().counters.drop == 0,
{
}

/// Which slot a new flow takes, of those that it may: the first that is free; where none is,
/// the first that has expired; where none has, the first of those seen least recently.
pub proof fn lemma_first_slot(slots: Seq<Entry>, now: u64, k: int)
    requires
        slots.len() > 0,
        0 <= k < slot_for_new(slots, now),
    ensures
        ({
            let i = slot_for_new(slots, now);
            &&& slots[k].used
            &&& slots[i].used && now >= slots[i].last_seen + patience(slots[i]) ==> now
                < slots[k].last_seen + patience(slots[k])
            &&& slots[i].used && now < slots[i].last_seen + patience(slots[i]) ==> slots[k].last_seen
                > slots[i].last_seen
        }),
{
    let n = slots.len() as int;
    let free = |i: int| !slots[i].used;
    let gone = |i: int| expired(slots[i], now);
    let old_one = |i: int| oldest(slots, i);
    lemma_least(0, n, free);
    lemma_least(0, n, gone);
    lemma_least(0, n, old_one);
    let m = crate::conntrack::lemma_oldest_exists(slots);
    assert(old_one(m));
    let i = slot_for_new(slots, now);
    assert(k < i);
    match least(0, n, free) {
        Some(f) => {
            assert(free(f));
            assert(!free(k));
        },
        None => {
            assert(!free(k));
            match least(0, n, gone) {
                Some(g) => {
                    assert(gone(g));
                    assert(!gone(k));
                },
                None => {
                    assert(old_one(i));
                    assert(!old_one(k));
                    assert(!gone(i));
                    if slots[k].last_seen <= slots[i].last_seen {
                        assert(oldest(slots, k));
                    }
                },
            }
        },
    }
}

/// A table as a value is its slots, its cursor and its counters.
pub proof fn lemma_flows_as_value(ct: Conntrack)
    ensures
        ct@.slots == ct.slots@,
        ct@.cursor == ct.cursor,
        ct@.counters == ct.counters,
{
}

} // verus!
