//! Putting replies back in the order of their numbers.

use std::collections::VecDeque;
use vstd::prelude::*;

use crate::stats::Packet;

verus! {

/// How many packets are held back to wait for stragglers.
pub const JITTER_CAPACITY: usize = 1022;

/// The numbers of `packets` never go down.
pub open spec fn in_number_order(packets: Seq<Packet>) -> bool {
    forall|i: int, j: int|
        0 <= i <= j < packets.len() ==> (#[trigger] packets[i]).no <= (#[trigger] packets[j]).no
}

/// `packets` with `p` behind all those whose numbers are not higher than its own.
pub open spec fn insert_by_no(packets: Seq<Packet>, p: Packet) -> Seq<Packet>
    decreases packets.len(),
{
    if packets.len() == 0 || packets.last().no <= p.no {
        packets.push(p)
    } else {
        insert_by_no(packets.drop_last(), p).push(packets.last())
    }
}

/// The packets held back after `p` has joined `held`.
pub open spec fn held_after(held: Seq<Packet>, p: Packet) -> Seq<Packet> {
    let all = insert_by_no(held, p);
    if all.len() > JITTER_CAPACITY {
        all.skip(1)
    } else {
        all
    }
}

/// The packets let go when `p` joins `held`: at most one, the lowest.
pub open spec fn released_by(held: Seq<Packet>, p: Packet) -> Seq<Packet> {
    let all = insert_by_no(held, p);
    if all.len() > JITTER_CAPACITY {
        all.take(1)
    } else {
        Seq::empty()
    }
}

/// The packets held back after all of `arrivals` came in.
pub open spec fn held(arrivals: Seq<Packet>) -> Seq<Packet>
    decreases arrivals.len(),
{
    if arrivals.len() == 0 {
        Seq::empty()
    } else {
        held_after(held(arrivals.drop_last()), arrivals.last())
    }
}

/// The packets let go while `arrivals` came in.
pub open spec fn released(arrivals: Seq<Packet>) -> Seq<Packet>
    decreases arrivals.len(),
{
    if arrivals.len() == 0 {
        Seq::empty()
    } else {
        released(arrivals.drop_last()) + released_by(held(arrivals.drop_last()), arrivals.last())
    }
}

/// The order in which `arrivals` leave, when those held back at the end follow
/// from the lowest to the highest.
pub open spec fn output(arrivals: Seq<Packet>) -> Seq<Packet> {
    released(arrivals) + held(arrivals)
}

/// Where `insert_by_no` puts a packet in a sequence that is in order.
proof fn lemma_insert_at(packets: Seq<Packet>, p: Packet, at: int)
    requires
        0 <= at <= packets.len(),
        at > 0 ==> packets[at - 1].no <= p.no,
        forall|i: int| at <= i < packets.len() ==> (#[trigger] packets[i]).no > p.no,
    ensures
        insert_by_no(packets, p) == packets.insert(at, p),
    decreases packets.len(),
{
    if at == packets.len() {
        assert(packets.insert(at, p) =~= packets.push(p));
    } else {
        let shorter = packets.drop_last();
        assert forall|i: int| at <= i < shorter.len() implies (#[trigger] shorter[i]).no > p.no by {
            assert(shorter[i] == packets[i]);
        }
        lemma_insert_at(shorter, p, at);
        assert(packets.insert(at, p) =~= shorter.insert(at, p).push(packets.last()));
    }
}

/// Inserting by number keeps the order and adds exactly the one packet.
pub proof fn law_insert_keeps_order(packets: Seq<Packet>, p: Packet)
    requires
        in_number_order(packets),
    ensures
        in_number_order(insert_by_no(packets, p)),
        insert_by_no(packets, p).len() == packets.len() + 1,
        insert_by_no(packets, p).to_multiset() == packets.to_multiset().insert(p),
    decreases packets.len(),
{
    broadcast use vstd::seq_lib::group_to_multiset_ensures;

    if packets.len() == 0 || packets.last().no <= p.no {
    } else {
        let shorter = packets.drop_last();
        law_insert_keeps_order(shorter, p);
        let inner = insert_by_no(shorter, p);
        assert(packets =~= shorter.push(packets.last()));
        assert(packets.to_multiset() =~= shorter.to_multiset().insert(packets.last()));
        assert forall|i: int| 0 <= i < inner.len() implies (#[trigger] inner[i]).no
            <= packets.last().no by {
            assert(inner.contains(inner[i]));
            assert(inner.to_multiset().count(inner[i]) > 0);
            if inner[i] != p {
                assert(shorter.to_multiset().count(inner[i]) > 0);
                assert(shorter.contains(inner[i]));
                let k = choose|k: int| 0 <= k < shorter.len() && shorter[k] == inner[i];
                assert(packets[k] == shorter[k]);
            }
        }
        assert(insert_by_no(packets, p).to_multiset() =~= inner.to_multiset().insert(
            packets.last(),
        ));
        assert(insert_by_no(packets, p).to_multiset() =~= packets.to_multiset().insert(p));
    }
}

/// Packets waiting to leave, lowest number first. Of packets with the same
/// number the one that came first leaves first.
pub struct JitterBuffer {
    packets: VecDeque<Packet>,
}

impl View for JitterBuffer {
    type V = Seq<Packet>;

    closed spec fn view(&self) -> Seq<Packet> {
        self.packets@
    }
}

impl JitterBuffer {
    /// The packets are in the order of their numbers, and there are not too many.
    pub open spec fn wf(self) -> bool {
        &&& in_number_order(self@)
        &&& self@.len() <= JITTER_CAPACITY
    }

    pub fn new() -> (buffer: JitterBuffer)
        ensures
            buffer.wf(),
            buffer@ == Seq::<Packet>::empty(),
    {
        JitterBuffer { packets: VecDeque::with_capacity(1024) }
    }

    /// Takes a packet in. If that makes too many, the lowest one leaves.
    pub fn take_in(&mut self, p: Packet) -> (leaving: Option<Packet>)
        requires
            old(self).wf(),
        ensures
            final(self).wf(),
            final(self)@ == held_after(old(self)@, p),
            released_by(old(self)@, p) == match leaving {
                Some(q) => seq![q],
                None => Seq::empty(),
            },
    {
        let ghost before = self@;
        let mut at: usize = self.packets.len();
        while at > 0 && self.packets[at - 1].no > p.no
            invariant
                at <= self.packets.len(),
                self.packets@ == before,
                in_number_order(before),
                forall|i: int| at <= i < before.len() ==> (#[trigger] before[i]).no > p.no,
            decreases at,
        {
            at = at - 1;
        }
        proof {
            lemma_insert_at(before, p, at as int);
            law_insert_keeps_order(before, p);
        }
        self.packets.insert(at, p);
        if self.packets.len() > JITTER_CAPACITY {
            let ghost all = self.packets@;
            let lowest = self.packets.pop_front();
            proof {
                assert(self@ =~= all.skip(1));
                assert(all.take(1) =~= seq![all[0]]);
            }
            lowest
        } else {
            None
        }
    }

    /// How many packets are held back.
    pub fn len(&self) -> (count: usize)
        ensures
            count == self@.len(),
    {
        self.packets.len()
    }

    /// Lets the lowest packet go.
    pub fn pop(&mut self) -> (lowest: Option<Packet>)
        requires
            old(self).wf(),
        ensures
            final(self).wf(),
            match lowest {
                Some(q) => old(self)@.len() > 0 && q == old(self)@[0] && final(self)@
                    == old(self)@.skip(1),
                None => old(self)@.len() == 0 && final(self)@ == old(self)@,
            },
    {
        let ghost before = self@;
        let lowest = self.packets.pop_front();
        proof {
            if lowest is Some {
                assert(self@ =~= before.skip(1));
            }
        }
        lowest
    }
}

} // verus!
