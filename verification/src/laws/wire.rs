//! What is read off the wire.
use vstd::prelude::*;

use crate::header::take_header;
use crate::ids::NetId;
use crate::message::{take_message, MessageModel};
use crate::packet::{lemma_take_packet, take_items, take_packet, PacketModel};
use crate::serialize::{take_chunk, take_u16, take_u32, take_u64, take_u8};

verus! {

// ---------------------------------------------------------------------------------------
// What is read does not depend on what comes behind it
// ---------------------------------------------------------------------------------------

proof fn lemma_more_integers(s: Seq<u8>, u: Seq<u8>)
    ensures
        take_u8(s) matches Some((x, t)) ==> take_u8(s + u) == Some((x, t + u)),
        take_u16(s) matches Some((x, t)) ==> take_u16(s + u) == Some((x, t + u)),
        take_u32(s) matches Some((x, t)) ==> take_u32(s + u) == Some((x, t + u)),
        take_u64(s) matches Some((x, t)) ==> take_u64(s + u) == Some((x, t + u)),
{
    if s.len() >= 1 {
        assert((s + u).skip(1) =~= s.skip(1) + u);
    }
    if s.len() >= 2 {
        assert((s + u).take(2) =~= s.take(2));
        assert((s + u).skip(2) =~= s.skip(2) + u);
    }
    if s.len() >= 4 {
        assert((s + u).take(4) =~= s.take(4));
        assert((s + u).skip(4) =~= s.skip(4) + u);
    }
    if s.len() >= 8 {
        assert((s + u).take(8) =~= s.take(8));
        assert((s + u).skip(8) =~= s.skip(8) + u);
    }
}

proof fn lemma_more_chunk(s: Seq<u8>, u: Seq<u8>)
    ensures
        take_chunk(s) matches Some((b, t)) ==> take_chunk(s + u) == Some((b, t + u)),
{
    lemma_more_integers(s, u);
    if let Some((n, t)) = take_u16(s) {
        if t.len() >= n {
            assert((t + u).take(n as int) =~= t.take(n as int));
            assert((t + u).skip(n as int) =~= t.skip(n as int) + u);
        }
    }
}

proof fn lemma_more_header(s: Seq<u8>, u: Seq<u8>)
    ensures
        take_header(s) matches Some((h, t)) ==> take_header(s + u) == Some((h, t + u)),
{
    lemma_more_integers(s, u);
    if let Some((_, s1)) = take_u16(s) {
        lemma_more_integers(s1, u);
        if let Some((_, s2)) = take_u8(s1) {
            lemma_more_integers(s2, u);
            if let Some((_, s3)) = take_u16(s2) {
                lemma_more_integers(s3, u);
                if let Some((_, s4)) = take_u32(s3) {
                    lemma_more_integers(s4, u);
                }
            }
        }
    }
}

proof fn lemma_more_message(s: Seq<u8>, u: Seq<u8>)
    ensures
        take_message(s) matches Some((m, t)) ==> take_message(s + u) == Some((m, t + u)),
{
    lemma_more_integers(s, u);
    if let Some((_, s1)) = take_u8(s) {
        lemma_more_integers(s1, u);
        lemma_more_chunk(s1, u);
        if let Some((_, s2)) = take_u16(s1) {
            lemma_more_integers(s2, u);
            lemma_more_chunk(s2, u);
            if let Some((_, s3)) = take_u64(s2) {
                lemma_more_integers(s3, u);
                if let Some((_, s4)) = take_u64(s3) {
                    lemma_more_chunk(s4, u);
                }
            }
        }
    }
}

proof fn lemma_more_items(s: Seq<u8>, n: nat, u: Seq<u8>)
    ensures
        take_items(s, n) matches Some((items, t)) ==> take_items(s + u, n) == Some((items, t + u)),
    decreases n,
{
    if n > 0 {
        lemma_more_integers(s, u);
        if let Some((_, s1)) = take_u16(s) {
            lemma_more_message(s1, u);
            if let Some((_, s2)) = take_message(s1) {
                lemma_more_items(s2, (n - 1) as nat, u);
            }
        }
    }
}

/// What is read of a packet does not depend on what comes behind it.
pub proof fn law_packet_ends_where_it_ends(s: Seq<u8>, u: Seq<u8>)
    ensures
        take_packet(s) matches Some((p, t)) ==> take_packet(s + u) == Some((p, t + u)),
{
    lemma_more_header(s, u);
    if let Some((_, s1)) = take_header(s) {
        lemma_more_integers(s1, u);
        if let Some((n, s2)) = take_u16(s1) {
            lemma_more_items(s2, n as nat, u);
        }
    }
}

/// A packet that was cut off anywhere is refused.
pub proof fn law_cut_packet_is_refused(p: PacketModel, k: int)
    requires
        p.wf(),
        0 <= k < p.wire().len(),
    ensures
        take_packet(p.wire().take(k)) is None,
{
    let s = p.wire().take(k);
    let u = p.wire().skip(k);
    let none = Seq::<u8>::empty();
    assert(s + u =~= p.wire() + none);
    lemma_take_packet(p, none);
    law_packet_ends_where_it_ends(s, u);
    if let Some((q, t)) = take_packet(s) {
        assert((t + u).len() == 0);
    }
}

proof fn lemma_items_without_tick(s: Seq<u8>, n: nat)
    ensures
        take_items(s, n) matches Some((items, t)) ==> {
            &&& items.len() == n
            &&& forall|i: int| 0 <= i < items.len() ==> (#[trigger] items[i]).1.tick() is None
        },
    decreases n,
{
    if n > 0 {
        if let Some((net_id, s1)) = take_u16(s) {
            if let Some((m, s2)) = take_message(s1) {
                lemma_items_without_tick(s2, (n - 1) as nat);
                if let Some((rest, t)) = take_items(s2, (n - 1) as nat) {
                    let items: Seq<(NetId, MessageModel)> = seq![(net_id, m)] + rest;
                    assert forall|i: int| 0 <= i < items.len() implies (
                    #[trigger] items[i]).1.tick() is None by {
                        if i > 0 {
                            assert(items[i] == rest[i - 1]);
                        }
                    }
                }
            }
        }
    }
}

/// A packet that is read lists its messages channel by channel, and none of them has a tick yet.
pub proof fn law_read_packet_is_in_order(s: Seq<u8>, i: int, j: int)
    ensures
        take_packet(s) matches Some((p, t)) ==> (0 <= i <= j < p.data.len() ==> p.data[i].0
            <= p.data[j].0 && p.data[i].1.tick() is None),
{
    if let Some((_, s1)) = take_header(s) {
        if let Some((n, s2)) = take_u16(s1) {
            lemma_items_without_tick(s2, n as nat);
        }
    }
}

} // verus!
