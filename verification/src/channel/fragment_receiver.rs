//! Putting long messages back together.
use std::collections::HashMap;
use vstd::prelude::*;

use crate::ids::{FragmentIndex, Time};
use crate::message::{FragmentData, FragmentModel};

verus! {

broadcast use vstd::std_specs::hash::group_hash_axioms;

/// How long the fragments of an incomplete message are kept after the last of them came.
pub const DISCARD_AFTER: Time = 3000;

/// The fragments of a message that came so far.
struct FragmentBuffer {
    num_fragments: FragmentIndex,
    received: HashMap<u64, Vec<u8>>,
    last_received: Time,
}

/// The fragments of a message that came so far.
#[verifier::ext_equal]
pub struct PartialModel {
    pub num_fragments: FragmentIndex,
    pub received: Map<u64, Seq<u8>>,
    pub last_received: Time,
}

impl View for FragmentBuffer {
    type V = PartialModel;

    closed spec fn view(&self) -> PartialModel {
        PartialModel {
            num_fragments: self.num_fragments,
            received: self.received@.map_values(|v: Vec<u8>| v@),
            last_received: self.last_received,
        }
    }
}

impl PartialModel {
    /// Whether all fragments came.
    pub open spec fn complete(self) -> bool {
        forall|i: u64| i < self.num_fragments ==> #[trigger] self.received.contains_key(i)
    }

    /// The first `n` fragments, one after the other.
    pub open spec fn assembled(self, n: nat) -> Seq<u8>
        decreases n,
    {
        if n == 0 {
            Seq::empty()
        } else {
            self.assembled((n - 1) as nat) + self.received[(n - 1) as u64]
        }
    }

    /// The whole message.
    pub open spec fn message(self) -> Seq<u8> {
        self.assembled(self.num_fragments as nat)
    }

    /// Whether the fragments have been kept for too long.
    pub open spec fn stale(self, now: Time) -> bool {
        now - self.last_received > DISCARD_AFTER
    }
}

/// The fragments that came of the message that `fragment` belongs to, with `fragment`. What
/// is left of an earlier message with the same id but another length is forgotten.
pub open spec fn with_fragment(
    partial: Map<u16, PartialModel>,
    fragment: FragmentModel,
    now: Time,
) -> PartialModel {
    let id = fragment.message_id.0;
    let known = if partial.contains_key(id) && partial[id].num_fragments
        == fragment.num_fragments {
        partial[id].received
    } else {
        Map::empty()
    };
    PartialModel {
        num_fragments: fragment.num_fragments,
        received: known.insert(fragment.fragment_id, fragment.bytes),
        last_received: now,
    }
}

/// The incomplete messages after `fragment` came.
pub open spec fn after_fragment(
    partial: Map<u16, PartialModel>,
    fragment: FragmentModel,
    now: Time,
) -> Map<u16, PartialModel> {
    let updated = with_fragment(partial, fragment, now);
    if updated.complete() {
        partial.remove(fragment.message_id.0)
    } else {
        partial.insert(fragment.message_id.0, updated)
    }
}

/// The incomplete messages without those that were kept for too long.
pub open spec fn without_stale(partial: Map<u16, PartialModel>, now: Time) -> Map<
    u16,
    PartialModel,
> {
    partial.remove_keys(
        Set::new(|id: u16| partial.contains_key(id) && partial[id].stale(now)),
    )
}

/// Collects the fragments of long messages.
pub struct FragmentReceiver {
    /// The messages that are not complete yet, by the number of the message.
    buffers: HashMap<u16, FragmentBuffer>,
}

impl View for FragmentReceiver {
    type V = Map<u16, PartialModel>;

    closed spec fn view(&self) -> Map<u16, PartialModel> {
        self.buffers@.map_values(|b: FragmentBuffer| b@)
    }
}

impl FragmentBuffer {
    /// Returns the whole message if all fragments came.
    fn assemble(&self) -> (r: Option<Vec<u8>>)
        ensures
            r is Some <==> self@.complete(),
            r matches Some(bytes) ==> bytes@ == self@.message(),
    {
        if (self.received.len() as u64) < self.num_fragments {
            proof {
                if self@.complete() {
                    assert(self@.received.dom() =~= self.received@.dom());
                    lemma_complete_len(self@);
                }
            }
            return None;
        }
        let mut bytes: Vec<u8> = Vec::new();
        let mut i: u64 = 0;
        while i < self.num_fragments
            invariant
                i <= self.num_fragments,
                bytes@ == self@.assembled(i as nat),
                forall|k: u64| k < i ==> #[trigger] self@.received.contains_key(k),
            decreases self.num_fragments - i,
        {
            match self.received.get(&i) {
                None => {
                    assert(!self@.received.contains_key(i));
                    return None;
                },
                Some(part) => {
                    let ghost before = bytes@;
                    bytes.extend_from_slice(part.as_slice());
                    proof {
                        assert(self@.received.contains_key(i));
                        assert(self@.received[i] == part@);
                        assert(bytes@ =~= before + part@);
                    }
                },
            }
            i = i + 1;
        }
        Some(bytes)
    }
}

/// As many fragments came of a complete message as it has.
proof fn lemma_complete_len(partial: PartialModel)
    requires
        partial.complete(),
        partial.received.dom().finite(),
    ensures
        partial.received.dom().len() >= partial.num_fragments,
{
    let indices = vstd::set_lib::set_int_range(0, partial.num_fragments as int);
    vstd::set_lib::lemma_int_range(0, partial.num_fragments as int);
    let as_u64 = |i: int| i as u64;
    let keys = indices.map(as_u64);
    vstd::set_lib::lemma_map_size(indices, keys, as_u64);
    assert(keys.subset_of(partial.received.dom())) by {
        assert forall|k: u64| keys.contains(k) implies partial.received.dom().contains(k) by {
            let i = choose|i: int| indices.contains(i) && as_u64(i) == k;
            assert(partial.received.contains_key(i as u64));
        }
    }
    vstd::set_lib::lemma_len_subset(keys, partial.received.dom());
}

impl FragmentReceiver {
    /// Returns a receiver that holds no fragment.
    pub fn new() -> (r: Self)
        ensures
            r@ == Map::<u16, PartialModel>::empty(),
    {
        let r = FragmentReceiver { buffers: HashMap::new() };
        assert(r@ =~= Map::empty());
        r
    }

    /// Adds a fragment. Returns the whole message if the fragment completes it.
    pub fn receive_fragment(&mut self, fragment: FragmentData, now: Time) -> (r: Option<Vec<u8>>)
        ensures
            final(self)@ == after_fragment(old(self)@, fragment@, now),
            r is Some <==> with_fragment(old(self)@, fragment@, now).complete(),
            r matches Some(bytes) ==> bytes@ == with_fragment(
                old(self)@,
                fragment@,
                now,
            ).message(),
    {
        let ghost data = fragment@;
        let id: u16 = fragment.message_id.0;
        let num_fragments: u64 = fragment.num_fragments;
        let mut received: HashMap<u64, Vec<u8>> = match self.buffers.remove(&id) {
            Some(buffer) => {
                if buffer.num_fragments == num_fragments {
                    buffer.received
                } else {
                    HashMap::new()
                }
            },
            None => HashMap::new(),
        };
        let ghost known = received@.map_values(|v: Vec<u8>| v@);
        proof {
            assert(self@ =~= old(self)@.remove(id));
            assert(known =~= if old(self)@.contains_key(id) && old(self)@[id].num_fragments
                == num_fragments {
                old(self)@[id].received
            } else {
                Map::empty()
            });
        }
        received.insert(fragment.fragment_id, fragment.bytes);
        let buffer = FragmentBuffer { num_fragments, received, last_received: now };
        proof {
            assert(buffer@.received =~= known.insert(data.fragment_id, data.bytes));
            assert(buffer@ == with_fragment(old(self)@, data, now));
        }
        let r = buffer.assemble();
        if r.is_none() {
            self.buffers.insert(id, buffer);
            assert(self@ =~= old(self)@.insert(id, buffer@));
        }
        r
    }

    /// Forgets the fragments of messages that have been incomplete for too long.
    pub fn cleanup(&mut self, now: Time)
        ensures
            final(self)@ == without_stale(old(self)@, now),
    {
        let ghost before = self@;
        let mut stale: Vec<u16> = Vec::new();
        for id in keys: self.buffers.keys()
            invariant
                before == self@,
                keys.seq().unref().to_set() == self.buffers@.dom(),
                forall|k: int|
                    0 <= k < stale@.len() ==> before.contains_key(#[trigger] stale@[k])
                        && before[stale@[k]].stale(now),
                forall|k: int|
                    0 <= k < keys.index() && before[*#[trigger] keys.seq()[k]].stale(now)
                        ==> stale@.contains(*keys.seq()[k]),
        {
            let ghost prev = stale@;
            assert(keys.seq().unref().contains(*id)) by {
                assert(keys.seq().unref()[keys.index()] == *id);
            }
            assert(self.buffers@.dom().contains(*id));
            match self.buffers.get(id) {
                Some(buffer) => {
                    assert(before[*id] == buffer@);
                    if now > buffer.last_received && now - buffer.last_received > DISCARD_AFTER {
                        stale.push(*id);
                        assert(stale@.last() == *id);
                        assert forall|x: u16| prev.contains(x) implies #[trigger] stale@.contains(
                            x,
                        ) by {
                            let j = choose|j: int| 0 <= j < prev.len() && prev[j] == x;
                            assert(stale@[j] == x);
                        }
                    }
                },
                None => {},
            }
        }
        proof {
            assert forall|id: u16| before.contains_key(id) && before[id].stale(now) implies stale@.contains(
                id,
            ) by {
                assert(self.buffers@.dom().contains(id));
            }
        }
        let ghost all = stale@;
        let ghost mut gone: Set<u16> = Set::empty();
        assert(before =~= before.remove_keys(gone));
        while stale.len() > 0
            invariant
                self@ == before.remove_keys(gone),
                forall|x: u16| #[trigger] all.contains(x) ==> gone.contains(x) || stale@.contains(x),
                forall|x: u16| #[trigger] gone.contains(x) ==> all.contains(x),
                forall|x: u16| #[trigger] stale@.contains(x) ==> all.contains(x),
            decreases stale@.len(),
        {
            let ghost prev = stale@;
            let ghost before_removal = self@;
            let id = stale.pop().unwrap();
            assert(prev.contains(id)) by {
                assert(prev.last() == id);
            }
            self.buffers.remove(&id);
            proof {
                assert(self@ =~= before_removal.remove(id));
                assert(self@ =~= before.remove_keys(gone.insert(id)));
                gone = gone.insert(id);
                assert forall|x: u16| #[trigger] all.contains(x) implies gone.contains(x)
                    || stale@.contains(x) by {
                    if !gone.contains(x) {
                        let j = choose|j: int| 0 <= j < prev.len() && prev[j] == x;
                        assert(stale@[j] == x);
                    }
                }
                assert forall|x: u16| #[trigger] stale@.contains(x) implies all.contains(x) by {
                    let j = choose|j: int| 0 <= j < stale@.len() && stale@[j] == x;
                    assert(prev[j] == x);
                    assert(prev.contains(x));
                }
            }
        }
        assert(self@ =~= without_stale(before, now));
    }
}

} // verus!
